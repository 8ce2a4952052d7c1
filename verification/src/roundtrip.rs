//! Reading what was printed gives back what was printed.

use vstd::prelude::*;
use crate::datum::{pair, prepend, Datum};
use crate::expr::{Expr, SError};
use crate::lexer::{atom_len, atom_then, ends_atom, is_space, lex, Lexeme};
use crate::parser::{closes, read, read_atom, read_tail, ParseError};
use crate::store::{fold_case, upper_char, Store};
use crate::text::{all_digits, decimal, decimal_of, digit_char, digits_of, digits_value, is_digit};

verus! {

/// The text of a datum: that of an atom, or the elements of a list in
/// brackets, with a dot before a last part that is neither a pair nor `Nil`.
pub open spec fn datum_text(d: Datum) -> Seq<char>
    decreases d, 1nat,
{
    match d {
        Datum::Nil => seq!['(', ')'],
        Datum::Boolean(true) => seq!['#', 't'],
        Datum::Boolean(false) => seq!['#', 'f'],
        Datum::Integer(n) => decimal_of(n as int),
        Datum::Symbol(name) => name,
        Datum::Pair(_, _) => seq!['('] + items_text(d) + seq![')'],
    }
}

/// The text between the brackets of a list.
pub open spec fn items_text(d: Datum) -> Seq<char>
    decreases d, 0nat,
{
    match d {
        Datum::Pair(a, b) => datum_text(*a) + (match *b {
            Datum::Nil => Seq::empty(),
            Datum::Pair(_, _) => seq![' '] + items_text(*b),
            _ => seq![' ', '.', ' '] + datum_text(*b),
        }),
        _ => Seq::empty(),
    }
}

/// The tokens of the text of a datum.
pub open spec fn datum_tokens(d: Datum) -> Seq<Lexeme>
    decreases d, 1nat,
{
    match d {
        Datum::Nil => seq![Lexeme::LBracket, Lexeme::RBracket],
        Datum::Pair(a, b) => seq![Lexeme::LBracket] + datum_tokens(*a) + tail_tokens(*b) + seq![Lexeme::RBracket],
        _ => seq![Lexeme::Value(datum_text(d))],
    }
}

/// The tokens of what follows the first element of a list, up to its
/// closing bracket.
pub open spec fn tail_tokens(d: Datum) -> Seq<Lexeme>
    decreases d, 2nat,
{
    match d {
        Datum::Nil => Seq::empty(),
        Datum::Pair(a, b) => datum_tokens(*a) + tail_tokens(*b),
        _ => seq![Lexeme::Dot] + datum_tokens(d),
    }
}

/// The text is that of one atom: it is not empty, holds no white space and
/// no bracket, and does not begin with a dot or a tick.
pub open spec fn is_atom_text(s: Seq<char>) -> bool {
    &&& s.len() > 0
    &&& forall|i: int| 0 <= i < s.len() ==> !ends_atom(#[trigger] s[i])
    &&& s[0] != '.'
    &&& s[0] != '\''
}

/// The name is one that the reader gives to a symbol.
pub open spec fn is_symbol_name(s: Seq<char>) -> bool {
    &&& is_atom_text(s)
    &&& s[0] != '#'
    &&& s == seq!['-'] || !(is_digit(s[0]) || s[0] == '-')
    &&& fold_case(s) == s
}

/// Every symbol of the datum has a name that the reader gives to a symbol.
pub open spec fn readable(d: Datum) -> bool
    decreases d,
{
    match d {
        Datum::Symbol(name) => is_symbol_name(name),
        Datum::Pair(a, b) => readable(*a) && readable(*b),
        _ => true,
    }
}

/// The digits of a number are digits, and stand for the number.
pub proof fn lemma_digits_of(x: nat)
    ensures
        digits_of(x).len() > 0,
        all_digits(digits_of(x)),
        digits_value(digits_of(x)) == x,
    decreases x,
{
    reveal_with_fuel(digits_value, 2);
    if x < 10 {
        let s = digits_of(x);
        assert(s.drop_last() =~= Seq::<char>::empty());
        assert(s.last() == digit_char(x as int));
    } else {
        lemma_digits_of(x / 10);
        let s = digits_of(x);
        let head = digits_of(x / 10);
        assert(s.drop_last() =~= head);
        assert(s.last() == digit_char((x % 10) as int));
        assert forall|i: int| 0 <= i < s.len() implies is_digit(#[trigger] s[i]) by {
            if i < head.len() {
                assert(s[i] == head[i]);
            }
        }
    }
}

/// The decimal text of a 64-bit integer stands for that integer.
pub proof fn lemma_decimal_round_trip(n: i64)
    ensures
        decimal(decimal_of(n as int)) == Some(n),
        is_atom_text(decimal_of(n as int)),
        is_digit(decimal_of(n as int)[0]) || decimal_of(n as int)[0] == '-',
        decimal_of(n as int)[0] != '#',
{
    let s = decimal_of(n as int);
    if n < 0 {
        let digits = digits_of((-n) as nat);
        lemma_digits_of((-n) as nat);
        assert(s.drop_first() =~= digits);
        assert(s[0] == '-');
        assert forall|i: int| 0 <= i < s.len() implies !ends_atom(#[trigger] s[i]) by {
            if i > 0 {
                assert(s[i] == digits[i - 1]);
                assert(is_digit(digits[i - 1]));
            }
        }
    } else {
        lemma_digits_of(n as nat);
        assert(is_digit(s[0]));
        assert forall|i: int| 0 <= i < s.len() implies !ends_atom(#[trigger] s[i]) by {
            assert(is_digit(s[i]));
        }
    }
}

/// The text of an atom, followed by nothing or by a character that ends an
/// atom, is one token.
pub proof fn lemma_lex_atom(s: Seq<char>, rest: Seq<char>)
    requires
        is_atom_text(s),
        rest.len() == 0 || ends_atom(rest[0]),
    ensures
        lex(s + rest) == seq![Lexeme::Value(s)] + lex(rest),
{
    reveal_with_fuel(lex, 2);
    reveal_with_fuel(atom_then, 2);
    let text = s + rest;
    let after = text.drop_first();
    assert(text[0] == s[0]);
    assert(!ends_atom(s[0]));
    assert forall|i: int| 0 <= i < s.drop_first().len() implies !ends_atom(#[trigger] s.drop_first()[i]) by {
        assert(s.drop_first()[i] == s[i + 1]);
    }
    lemma_atom_run(s.drop_first(), rest);
    assert(after =~= s.drop_first() + rest);
    let n = atom_len(after) as int;
    assert(n == s.len() - 1);
    assert(seq![text[0]] + after.take(n) =~= s);
    assert(after.skip(n) =~= rest);
}

/// The characters of an atom, followed by nothing or by a character that
/// ends an atom, run up to that character.
pub proof fn lemma_atom_run(s: Seq<char>, rest: Seq<char>)
    requires
        forall|i: int| 0 <= i < s.len() ==> !ends_atom(#[trigger] s[i]),
        rest.len() == 0 || ends_atom(rest[0]),
    ensures
        atom_len(s + rest) == s.len(),
    decreases s.len(),
{
    let text = s + rest;
    if s.len() == 0 {
        assert(text =~= rest);
    } else {
        assert(text[0] == s[0]);
        assert(text.drop_first() =~= s.drop_first() + rest);
        assert forall|i: int| 0 <= i < s.drop_first().len() implies !ends_atom(#[trigger] s.drop_first()[i]) by {
            assert(s.drop_first()[i] == s[i + 1]);
        }
        lemma_atom_run(s.drop_first(), rest);
    }
}

/// The text of a readable datum that is no pair and not `Nil` is that of an
/// atom.
pub proof fn lemma_atom_of_datum(d: Datum)
    requires
        readable(d),
        !(d is Pair),
        !(d is Nil),
    ensures
        is_atom_text(datum_text(d)),
        read_atom(datum_text(d)) == Ok::<Datum, ParseError>(d),
{
    match d {
        Datum::Integer(n) => {
            lemma_decimal_round_trip(n);
        },
        Datum::Symbol(name) => {
            if name == seq!['-'] {
                assert(decimal(name) is None) by {
                    assert(name.drop_first() =~= Seq::<char>::empty());
                }
            }
        },
        Datum::Boolean(b) => {
            let s = datum_text(d);
            assert(s[0] == '#');
            if b {
                assert(s != seq!['#', 'f']) by {
                    assert(s[1] == 't');
                    assert(seq!['#', 'f'][1] == 'f');
                }
            }
        },
        _ => {},
    }
}

/// The tokens of a text that begins with a character that is a token, or
/// with a blank.
pub proof fn lemma_lex_char(c: char, rest: Seq<char>)
    requires
        c == '(' || c == ')' || c == '.' || c == ' ',
    ensures
        lex(seq![c] + rest) == (if c == '(' {
            seq![Lexeme::LBracket] + lex(rest)
        } else if c == ')' {
            seq![Lexeme::RBracket] + lex(rest)
        } else if c == '.' {
            seq![Lexeme::Dot] + lex(rest)
        } else {
            lex(rest)
        }),
{
    let text = seq![c] + rest;
    assert(text[0] == c);
    assert(text.drop_first() =~= rest);
}

/// The tokens of the text of a readable datum are the tokens of the datum,
/// whatever follows the text, if it begins with a character that ends an
/// atom.
pub proof fn lemma_lex_datum(d: Datum, rest: Seq<char>)
    requires
        readable(d),
        rest.len() == 0 || ends_atom(rest[0]),
    ensures
        lex(datum_text(d) + rest) == datum_tokens(d) + lex(rest),
    decreases d, 1nat,
{
    match d {
        Datum::Nil => {
            let close = seq![')'] + rest;
            assert(datum_text(d) + rest =~= seq!['('] + close);
            lemma_lex_char('(', close);
            lemma_lex_char(')', rest);
            assert(seq![Lexeme::LBracket] + (seq![Lexeme::RBracket] + lex(rest)) =~= datum_tokens(d) + lex(rest));
        },
        Datum::Pair(a, b) => {
            let inner = items_text(d) + seq![')'] + rest;
            assert(datum_text(d) + rest =~= seq!['('] + inner);
            lemma_lex_char('(', inner);
            lemma_lex_items(d, rest);
            assert(seq![Lexeme::LBracket] + (datum_tokens(*a) + tail_tokens(*b) + seq![Lexeme::RBracket] + lex(rest))
                =~= datum_tokens(d) + lex(rest));
        },
        _ => {
            lemma_atom_of_datum(d);
            lemma_lex_atom(datum_text(d), rest);
        },
    }
}

/// The tokens of the text between the brackets of a list and of its closing
/// bracket.
pub proof fn lemma_lex_items(d: Datum, rest: Seq<char>)
    requires
        readable(d),
        d is Pair,
    ensures
        lex(items_text(d) + seq![')'] + rest) == datum_tokens(*d->Pair_0) + tail_tokens(*d->Pair_1) + seq![
            Lexeme::RBracket,
        ] + lex(rest),
    decreases d, 0nat,
{
    let a = *d->Pair_0;
    let b = *d->Pair_1;
    let close = seq![')'] + rest;
    let closed = seq![Lexeme::RBracket] + lex(rest);
    lemma_lex_char(')', rest);
    assert(close[0] == ')');
    match b {
        Datum::Nil => {
            assert(items_text(d) + seq![')'] + rest =~= datum_text(a) + close);
            lemma_lex_datum(a, close);
            assert(datum_tokens(a) + closed =~= datum_tokens(a) + tail_tokens(b) + seq![Lexeme::RBracket] + lex(rest));
        },
        Datum::Pair(_, _) => {
            let others = items_text(b) + seq![')'] + rest;
            let more = seq![' '] + others;
            assert(items_text(d) + seq![')'] + rest =~= datum_text(a) + more);
            assert(more[0] == ' ');
            lemma_lex_datum(a, more);
            lemma_lex_char(' ', others);
            lemma_lex_items(b, rest);
            assert(datum_tokens(a) + (datum_tokens(*b->Pair_0) + tail_tokens(*b->Pair_1) + seq![Lexeme::RBracket]
                + lex(rest)) =~= datum_tokens(a) + tail_tokens(b) + seq![Lexeme::RBracket] + lex(rest));
        },
        _ => {
            let last = datum_text(b) + close;
            let m2 = seq![' '] + last;
            let m1 = seq!['.'] + m2;
            let more = seq![' '] + m1;
            assert(items_text(d) + seq![')'] + rest =~= datum_text(a) + more);
            assert(more[0] == ' ');
            lemma_lex_datum(a, more);
            lemma_lex_char(' ', m1);
            lemma_lex_char('.', m2);
            lemma_lex_char(' ', last);
            lemma_lex_datum(b, close);
            assert(datum_tokens(a) + (seq![Lexeme::Dot] + (datum_tokens(b) + closed)) =~= datum_tokens(a)
                + tail_tokens(b) + seq![Lexeme::RBracket] + lex(rest));
        },
    }
}

/// The tokens `part` stand in `tokens` from the position `pos` on.
pub open spec fn holds_at(tokens: Seq<Lexeme>, pos: nat, part: Seq<Lexeme>) -> bool {
    &&& pos + part.len() <= tokens.len()
    &&& forall|i: int| 0 <= i < part.len() ==> tokens[pos + i] == #[trigger] part[i]
}

/// Where one sequence of tokens stands, each of its two parts stands.
pub proof fn lemma_holds_at_parts(tokens: Seq<Lexeme>, pos: nat, a: Seq<Lexeme>, b: Seq<Lexeme>)
    requires
        holds_at(tokens, pos, a + b),
    ensures
        holds_at(tokens, pos, a),
        holds_at(tokens, pos + a.len(), b),
{
    assert forall|i: int| 0 <= i < a.len() implies tokens[pos + i] == #[trigger] a[i] by {
        assert((a + b)[i] == a[i]);
    }
    assert forall|i: int| 0 <= i < b.len() implies tokens[pos + a.len() + i] == #[trigger] b[i] by {
        assert((a + b)[a.len() + i] == b[i]);
    }
}

/// The tokens of a datum begin with an opening bracket or an atom.
pub proof fn lemma_first_token(d: Datum)
    ensures
        datum_tokens(d).len() > 0,
        datum_tokens(d)[0] is LBracket || datum_tokens(d)[0] is Value,
        datum_tokens(d)[0] is LBracket ==> d is Nil || d is Pair,
{
    match d {
        Datum::Pair(a, b) => {
            assert(datum_tokens(d)[0] == Lexeme::LBracket);
        },
        _ => {},
    }
}

/// Where the tokens of a readable datum stand, the reader reads the datum.
pub proof fn lemma_read_datum(tokens: Seq<Lexeme>, pos: nat, d: Datum)
    requires
        readable(d),
        holds_at(tokens, pos, datum_tokens(d)),
    ensures
        read(tokens, pos) == Ok::<(Datum, nat), ParseError>((d, pos + datum_tokens(d).len())),
    decreases d, 1nat,
{
    let part = datum_tokens(d);
    lemma_first_token(d);
    assert(tokens[pos as int] == part[0]);
    match d {
        Datum::Nil => {
            assert(tokens[pos as int + 1] == part[1]);
        },
        Datum::Pair(a, b) => {
            let ta = datum_tokens(*a);
            let tb = tail_tokens(*b);
            let close = seq![Lexeme::RBracket];
            assert(part =~= seq![Lexeme::LBracket] + (ta + (tb + close)));
            lemma_holds_at_parts(tokens, pos, seq![Lexeme::LBracket], ta + (tb + close));
            lemma_holds_at_parts(tokens, pos + 1, ta, tb + close);
            lemma_holds_at_parts(tokens, pos + 1 + ta.len(), tb, close);
            lemma_first_token(*a);
            assert(tokens[pos as int + 1] == ta[0]);
            lemma_read_datum(tokens, pos + 1, *a);
            let next = pos + 1 + ta.len();
            assert(tokens[next as int + tb.len()] == close[0]);
            lemma_read_tail(tokens, next, *b);
            assert(prepend(seq![*a], *b) == d) by {
                reveal_with_fuel(prepend, 2);
                assert(seq![*a].drop_first() =~= Seq::<Datum>::empty());
            }
            assert(part.len() == 1 + ta.len() + tb.len() + 1);
        },
        _ => {
            lemma_atom_of_datum(d);
        },
    }
}

/// Where the tokens of the rest of a list and a closing bracket stand, the
/// reader reads the rest of the list.
pub proof fn lemma_read_tail(tokens: Seq<Lexeme>, pos: nat, d: Datum)
    requires
        readable(d),
        holds_at(tokens, pos, tail_tokens(d)),
        closes(tokens, pos + tail_tokens(d).len()),
    ensures
        read_tail(tokens, pos) == Ok::<(Datum, nat), ParseError>((d, pos + tail_tokens(d).len() + 1)),
    decreases d, 2nat,
{
    match d {
        Datum::Nil => {},
        Datum::Pair(a, b) => {
            let ta = datum_tokens(*a);
            let tb = tail_tokens(*b);
            lemma_holds_at_parts(tokens, pos, ta, tb);
            lemma_first_token(*a);
            assert(tokens[pos as int] == ta[0]);
            lemma_read_datum(tokens, pos, *a);
            lemma_read_tail(tokens, pos + ta.len(), *b);
            assert(prepend(seq![*a], *b) == d) by {
                reveal_with_fuel(prepend, 2);
                assert(seq![*a].drop_first() =~= Seq::<Datum>::empty());
            }
        },
        _ => {
            let td = datum_tokens(d);
            lemma_holds_at_parts(tokens, pos, seq![Lexeme::Dot], td);
            assert(tokens[pos as int] == seq![Lexeme::Dot][0]);
            lemma_read_datum(tokens, pos + 1, d);
        },
    }
}

/// The text of a readable datum is read back as that datum: its tokens are
/// the tokens of the datum, and the reader reads the datum from them, up to
/// the last token.
pub proof fn law_read_what_was_printed(d: Datum)
    requires
        readable(d),
    ensures
        lex(datum_text(d)) == datum_tokens(d),
        read(lex(datum_text(d)), 0) == Ok::<(Datum, nat), ParseError>((d, lex(datum_text(d)).len())),
{
    let empty = Seq::<char>::empty();
    lemma_lex_datum(d, empty);
    assert(datum_text(d) + empty =~= datum_text(d));
    assert(datum_tokens(d) + lex(empty) =~= datum_tokens(d));
    lemma_read_datum(datum_tokens(d), 0, d);
}

impl Store {
    /// A value that denotes a datum has the text of the datum, with enough
    /// fuel.
    pub proof fn lemma_render_datum(self, v: Expr, d: Datum) -> (fuel: nat)
        requires
            self.denotes(v, d),
        ensures
            self.render(v, fuel) == Ok::<Seq<char>, SError>(datum_text(d)),
            d is Pair ==> self.render_items(v, fuel) == Ok::<Seq<char>, SError>(items_text(d)),
        decreases d,
    {
        match d {
            Datum::Pair(a, b) => {
                let fa = self.lemma_render_datum(self.first(v), *a);
                let fb = self.lemma_render_datum(self.rest(v), *b);
                let less = if fa < fb {
                    fb
                } else {
                    fa
                };
                self.lemma_render_more_fuel(self.first(v), fa, less);
                self.lemma_render_more_fuel(self.rest(v), fb, less);
                let rest = self.rest(v);
                let head = datum_text(*a);
                assert(self.denotes(rest, *b));
                match *b {
                    Datum::Nil => {
                        assert(rest is Nil);
                        assert(head + Seq::<char>::empty() =~= head);
                    },
                    Datum::Pair(_, _) => {
                        assert(rest is Pair);
                        assert(head + seq![' '] + items_text(*b) =~= head + (seq![' '] + items_text(*b)));
                    },
                    _ => {
                        assert(!(rest is Pair) && !(rest is Nil));
                        assert(self.atom_text(rest) == datum_text(*b));
                        assert(head + seq![' ', '.', ' '] + datum_text(*b) =~= head + (seq![' ', '.', ' '] + datum_text(
                            *b,
                        )));
                    },
                }
                assert(self.render_items(v, less + 1) == Ok::<Seq<char>, SError>(items_text(d)));
                less + 1
            },
            _ => 0,
        }
    }
}

/// A value that denotes a datum is printed as the text of the datum.
pub proof fn law_printed_datum(st: Store, v: Expr, d: Datum)
    requires
        st.wf(),
        st.valid(v),
        st.denotes(v, d),
    ensures
        st.printed(v) == Ok::<Seq<char>, SError>(datum_text(d)),
{
    let fuel = st.lemma_render_datum(v, d);
    st.lemma_render_canonical(v, fuel);
}

/// A value without closures and primitives, printed and read again, gives a
/// value that denotes the same datum: the two are equal by structure, and
/// their symbols are the same symbols. The pairs of the value read are in
/// cells that the store `since`, in which the reading began, did not have.
pub proof fn law_print_then_read(
    st: Store,
    v: Expr,
    d: Datum,
    since: Store,
    post: Store,
    r: Result<(Expr, usize), ParseError>,
)
    requires
        st.wf(),
        st.valid(v),
        st.denotes(v, d),
        readable(d),
        st.printed(v) is Ok,
        post.holds(since, read(lex(st.printed(v)->Ok_0), 0), r),
    ensures
        r is Ok,
        post.denotes(r->Ok_0.0, d),
        post.spells(since, r->Ok_0.0, d),
{
    law_printed_datum(st, v, d);
    law_read_what_was_printed(d);
    post.lemma_spells_denotes(since, r->Ok_0.0, d);
}

/// Every atom among the tokens is the text of one atom.
pub open spec fn atoms_are_texts(tokens: Seq<Lexeme>) -> bool {
    forall|i: int| 0 <= i < tokens.len() ==> ((#[trigger] tokens[i]) matches Lexeme::Value(a) ==> is_atom_text(a))
}

/// Every atom that the lexer finds is the text of one atom.
pub proof fn lemma_lex_atoms(s: Seq<char>)
    ensures
        atoms_are_texts(lex(s)),
    decreases s.len(), 0nat,
{
    if s.len() > 0 {
        let rest = s.drop_first();
        let c = s[0];
        if is_space(c) {
            lemma_lex_atoms(rest);
        } else if c == '(' || c == ')' || c == '.' || c == '\'' {
            lemma_lex_atoms(rest);
            let tokens = lex(s);
            assert forall|i: int| 0 <= i < tokens.len() implies ((#[trigger] tokens[i]) matches Lexeme::Value(a)
                ==> is_atom_text(a)) by {
                if i > 0 {
                    assert(tokens[i] == lex(rest)[i - 1]);
                }
            }
        } else {
            reveal_with_fuel(lex, 2);
            reveal_with_fuel(atom_then, 2);
            crate::lexer::lemma_atom_len(rest);
            let n = atom_len(rest) as int;
            lemma_lex_atoms(rest.skip(n));
            let atom = seq![c] + rest.take(n);
            let tokens = lex(s);
            assert(tokens == seq![Lexeme::Value(atom)] + lex(rest.skip(n)));
            assert forall|j: int| 0 <= j < atom.len() implies !ends_atom(#[trigger] atom[j]) by {
                if j > 0 {
                    assert(atom[j] == rest[j - 1]);
                }
            }
            assert(atom[0] == c);
            assert forall|i: int| 0 <= i < tokens.len() implies ((#[trigger] tokens[i]) matches Lexeme::Value(a)
                ==> is_atom_text(a)) by {
                if i > 0 {
                    assert(tokens[i] == lex(rest.skip(n))[i - 1]);
                }
            }
        }
    }
}

/// The datum of an atom that is the text of one atom is readable.
pub proof fn lemma_read_atom_readable(a: Seq<char>)
    requires
        is_atom_text(a),
    ensures
        read_atom(a) matches Ok(d) ==> readable(d),
{
    match read_atom(a) {
        Ok(Datum::Symbol(name)) => {
            assert(name == fold_case(a));
            assert(fold_case(name) =~= name);
            assert(name[0] == upper_char(a[0]));
            assert forall|i: int| 0 <= i < name.len() implies !ends_atom(#[trigger] name[i]) by {
                assert(name[i] == upper_char(a[i]));
                assert(!ends_atom(a[i]));
            }
            if a == seq!['-'] {
                assert(name =~= seq!['-']);
            }
        },
        _ => {},
    }
}

/// What the reader reads from tokens whose atoms are texts of atoms is
/// readable.
pub proof fn lemma_read_readable(tokens: Seq<Lexeme>, pos: nat)
    requires
        atoms_are_texts(tokens),
    ensures
        read(tokens, pos) matches Ok(x) ==> readable(x.0),
        read_tail(tokens, pos) matches Ok(x) ==> readable(x.0),
    decreases tokens.len() - pos,
{
    reveal_with_fuel(readable, 3);
    reveal_with_fuel(prepend, 2);
    if pos < tokens.len() {
        lemma_read_readable(tokens, pos + 1);
        match tokens[pos as int] {
            Lexeme::Value(a) => {
                lemma_read_atom_readable(a);
            },
            Lexeme::Tick => {
                reveal_strlit("QUOTE");
                let q = "QUOTE"@;
                assert(fold_case(q) =~= q);
                assert(is_symbol_name(q));
            },
            _ => {},
        }
        match read(tokens, pos + 1) {
            Ok((first, next)) => {
                if pos < next <= tokens.len() {
                    lemma_read_readable(tokens, next);
                    assert(seq![first].drop_first() =~= Seq::<Datum>::empty());
                }
            },
            Err(_) => {},
        }
        assert(read(tokens, pos) matches Ok(x) ==> readable(x.0));
        match read(tokens, pos) {
            Ok((d, next)) => {
                if pos < next <= tokens.len() {
                    lemma_read_readable(tokens, next);
                    assert(seq![d].drop_first() =~= Seq::<Datum>::empty());
                }
            },
            Err(_) => {},
        }
    }
}

/// Whatever is read from a text is read again from its own text: reading,
/// printing and reading gives what reading gave.
pub proof fn law_read_print_read(text: Seq<char>, pos: nat, d: Datum, next: nat)
    requires
        read(lex(text), pos) == Ok::<(Datum, nat), ParseError>((d, next)),
    ensures
        readable(d),
        read(lex(datum_text(d)), 0) == Ok::<(Datum, nat), ParseError>((d, lex(datum_text(d)).len())),
{
    lemma_lex_atoms(text);
    lemma_read_readable(lex(text), pos);
    law_read_what_was_printed(d);
}

} // verus!
