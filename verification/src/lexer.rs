//! The lexer: text to tokens.

use vstd::prelude::*;

verus! {

/// A token of the source text.
#[derive(Debug, PartialEq, Eq)]
pub enum Token {
    LBracket,
    RBracket,
    Dot,
    Tick,
    Value(String),
}

/// A token as a mathematical value: an atom is the sequence of its
/// characters.
pub enum Lexeme {
    LBracket,
    RBracket,
    Dot,
    Tick,
    Value(Seq<char>),
}

impl View for Token {
    type V = Lexeme;

    open spec fn view(&self) -> Lexeme {
        match self {
            Token::LBracket => Lexeme::LBracket,
            Token::RBracket => Lexeme::RBracket,
            Token::Dot => Lexeme::Dot,
            Token::Tick => Lexeme::Tick,
            Token::Value(s) => Lexeme::Value(s@),
        }
    }
}

/// The tokens as mathematical values.
pub open spec fn lexemes(tokens: Seq<Token>) -> Seq<Lexeme> {
    Seq::new(tokens.len(), |i: int| tokens[i]@)
}

/// The characters with the Unicode property `White_Space`.
pub open spec fn is_space(c: char) -> bool {
    ||| ('\u{9}' <= c && c <= '\u{d}')
    ||| c == ' '
    ||| c == '\u{85}'
    ||| c == '\u{a0}'
    ||| c == '\u{1680}'
    ||| ('\u{2000}' <= c && c <= '\u{200a}')
    ||| c == '\u{2028}'
    ||| c == '\u{2029}'
    ||| c == '\u{202f}'
    ||| c == '\u{205f}'
    ||| c == '\u{3000}'
}

/// Whether the character has the Unicode property `White_Space`.
pub fn is_whitespace(c: char) -> (r: bool)
    ensures
        r == is_space(c),
{
    ('\u{9}' <= c && c <= '\u{d}') || c == ' ' || c == '\u{85}' || c == '\u{a0}' || c == '\u{1680}' || ('\u{2000}'
        <= c && c <= '\u{200a}') || c == '\u{2028}' || c == '\u{2029}' || c == '\u{202f}' || c == '\u{205f}' || c
        == '\u{3000}'
}

/// The characters that end an atom: white space and the two brackets.
pub open spec fn ends_atom(c: char) -> bool {
    is_space(c) || c == '(' || c == ')'
}

/// The length of the longest prefix of `s` that holds no character that
/// ends an atom.
pub open spec fn atom_len(s: Seq<char>) -> nat
    decreases s.len(),
{
    if s.len() == 0 || ends_atom(s[0]) {
        0
    } else {
        1 + atom_len(s.drop_first())
    }
}

/// The tokens of a text. White space separates tokens; a bracket, a dot or a
/// tick where a token starts is a token; any other character starts an atom,
/// which goes on up to the next white space or bracket.
pub open spec fn lex(s: Seq<char>) -> Seq<Lexeme>
    decreases s.len(), 0nat,
{
    if s.len() == 0 {
        Seq::empty()
    } else if is_space(s[0]) {
        lex(s.drop_first())
    } else if s[0] == '(' {
        seq![Lexeme::LBracket] + lex(s.drop_first())
    } else if s[0] == ')' {
        seq![Lexeme::RBracket] + lex(s.drop_first())
    } else if s[0] == '.' {
        seq![Lexeme::Dot] + lex(s.drop_first())
    } else if s[0] == '\'' {
        seq![Lexeme::Tick] + lex(s.drop_first())
    } else {
        atom_then(seq![s[0]], s.drop_first())
    }
}

/// The tokens of the text that starts with the atom characters `atom` and
/// goes on with `rest`.
pub open spec fn atom_then(atom: Seq<char>, rest: Seq<char>) -> Seq<Lexeme>
    decreases rest.len(), 1nat,
{
    let n = atom_len(rest);
    if n <= rest.len() {
        seq![Lexeme::Value(atom + rest.take(n as int))] + lex(rest.skip(n as int))
    } else {
        Seq::empty()
    }
}

/// An atom is no longer than the text.
pub proof fn lemma_atom_len(s: Seq<char>)
    ensures
        atom_len(s) <= s.len(),
        atom_len(s) < s.len() ==> ends_atom(s[atom_len(s) as int]),
        forall|i: int| 0 <= i < atom_len(s) ==> !ends_atom(#[trigger] s[i]),
    decreases s.len(),
{
    if s.len() > 0 && !ends_atom(s[0]) {
        lemma_atom_len(s.drop_first());
        assert forall|i: int| 0 <= i < atom_len(s) implies !ends_atom(#[trigger] s[i]) by {
            if i > 0 {
                assert(s[i] == s.drop_first()[i - 1]);
            }
        }
    }
}

/// Splits a text into tokens.
pub fn tokenize(input: &str) -> (result: Vec<Token>)
    ensures
        lexemes(result@) == lex(input@),
{
    let mut result: Vec<Token> = Vec::new();
    let mut atom = String::new();
    let mut in_atom = false;
    proof {
        assert(input@.skip(0) =~= input@);
        assert(lexemes(result@) + lex(input@) =~= lex(input@));
    }
    for ch in it: input.chars()
        invariant
            it.seq() == input@,
            !in_atom ==> atom@.len() == 0,
            lex(input@) == lexemes(result@) + (if in_atom {
                atom_then(atom@, input@.skip(it.index() as int))
            } else {
                lex(input@.skip(it.index() as int))
            }),
    {
        let ghost i = it.index() as int;
        let ghost rest = input@.skip(i);
        let ghost next = input@.skip(i + 1);
        let ghost done = lexemes(result@);
        proof {
            assert(rest[0] == ch);
            assert(rest.drop_first() =~= next);
            lemma_atom_len(next);
        }
        let delimiter = is_whitespace(ch) || ch == '(' || ch == ')';
        if in_atom && !delimiter {
            proof {
                let n = atom_len(next) as int;
                assert(atom_len(rest) == 1 + n);
                assert(atom@ + rest.take(1 + n) =~= atom@.push(ch) + next.take(n));
                assert(rest.skip(1 + n) =~= next.skip(n));
            }
            atom.push(ch);
        } else {
            if in_atom {
                proof {
                    assert(atom_len(rest) == 0);
                    assert(atom@ + rest.take(0) =~= atom@);
                    assert(rest.skip(0) =~= rest);
                }
                result.push(Token::Value(atom));
                proof {
                    assert(lexemes(result@) =~= done + seq![Lexeme::Value(atom@)]);
                }
                atom = String::new();
                in_atom = false;
            }
            let ghost emitted = lexemes(result@);
            assert(lex(input@) == emitted + lex(rest)) by {
                assert(done + (seq![Lexeme::Value(atom@)] + lex(rest)) =~= (done + seq![Lexeme::Value(atom@)]) + lex(
                    rest,
                ));
            }
            if is_whitespace(ch) {
            } else if ch == '(' {
                result.push(Token::LBracket);
                proof {
                    assert(lexemes(result@) =~= emitted + seq![Lexeme::LBracket]);
                    assert(emitted + (seq![Lexeme::LBracket] + lex(next)) =~= lexemes(result@) + lex(next));
                }
            } else if ch == ')' {
                result.push(Token::RBracket);
                proof {
                    assert(lexemes(result@) =~= emitted + seq![Lexeme::RBracket]);
                    assert(emitted + (seq![Lexeme::RBracket] + lex(next)) =~= lexemes(result@) + lex(next));
                }
            } else if ch == '.' {
                result.push(Token::Dot);
                proof {
                    assert(lexemes(result@) =~= emitted + seq![Lexeme::Dot]);
                    assert(emitted + (seq![Lexeme::Dot] + lex(next)) =~= lexemes(result@) + lex(next));
                }
            } else if ch == '\'' {
                result.push(Token::Tick);
                proof {
                    assert(lexemes(result@) =~= emitted + seq![Lexeme::Tick]);
                    assert(emitted + (seq![Lexeme::Tick] + lex(next)) =~= lexemes(result@) + lex(next));
                }
            } else {
                atom.push(ch);
                in_atom = true;
                proof {
                    assert(atom@ =~= seq![ch]);
                }
            }
        }
    }
    proof {
        let rest = input@.skip(input@.len() as int);
        assert(rest.len() == 0);
        assert(atom_len(rest) == 0);
        assert(rest.take(0) =~= rest);
        assert(rest.skip(0) =~= rest);
        assert(atom@ + rest =~= atom@);
    }
    if in_atom {
        let ghost done = lexemes(result@);
        result.push(Token::Value(atom));
        proof {
            assert(lexemes(result@) =~= done + seq![Lexeme::Value(atom@)]);
            assert(seq![Lexeme::Value(atom@)] + Seq::<Lexeme>::empty() =~= seq![Lexeme::Value(atom@)]);
        }
    } else {
        assert(lexemes(result@) + Seq::<Lexeme>::empty() =~= lexemes(result@));
    }
    result
}

} // verus!
