//! The reader: tokens to heap-resident expressions.

use vstd::prelude::*;
use crate::datum::{lemma_prepend_push, pair, prepend, Datum};
use crate::expr::Expr;
use crate::heap::Heap;
use crate::lexer::{lexemes, Lexeme, Token};
use crate::store::{fold_case, Store};
use crate::text::{chars_of, decimal, is_digit, parse_decimal};

verus! {

/// Errors of the reader.
#[derive(Clone, Copy, Debug, PartialEq, Eq, Structural)]
pub enum ParseError {
    AmbiguousValue,
    UnexpectedDot,
    UnexpectedEndOfInput,
    UnmatchedBracket,
}

/// What the reader gives for a position: a datum and the position after it.
pub type Reading = Result<(Datum, nat), ParseError>;

/// The datum of an atom. `#t` and `#f` are the booleans; an atom that begins
/// with a digit or a minus sign is an integer, or the symbol `-`; any other
/// atom is a symbol, by the upper-case form of its name.
pub open spec fn read_atom(v: Seq<char>) -> Result<Datum, ParseError> {
    if v.len() > 0 && v[0] == '#' {
        if v == seq!['#', 'f'] {
            Ok(Datum::Boolean(false))
        } else if v == seq!['#', 't'] {
            Ok(Datum::Boolean(true))
        } else {
            Err(ParseError::AmbiguousValue)
        }
    } else if v.len() > 0 && (is_digit(v[0]) || v[0] == '-') {
        match decimal(v) {
            Some(n) => Ok(Datum::Integer(n)),
            None => if v == seq!['-'] {
                Ok(Datum::Symbol(fold_case(v)))
            } else {
                Err(ParseError::AmbiguousValue)
            },
        }
    } else {
        Ok(Datum::Symbol(fold_case(v)))
    }
}

/// The datum `(QUOTE d)`.
pub open spec fn quote(d: Datum) -> Datum {
    pair(Datum::Symbol("QUOTE"@), pair(d, Datum::Nil))
}

/// The token at a position is a closing bracket.
pub open spec fn closes(tokens: Seq<Lexeme>, pos: nat) -> bool {
    pos < tokens.len() && tokens[pos as int] is RBracket
}

/// The expression that starts at `pos`:
/// an atom, a list in brackets, or a tick and an expression.
pub open spec fn read(tokens: Seq<Lexeme>, pos: nat) -> Reading
    decreases tokens.len() - pos, 1nat,
{
    if pos >= tokens.len() {
        Err(ParseError::UnexpectedEndOfInput)
    } else {
        match tokens[pos as int] {
            Lexeme::Value(v) => match read_atom(v) {
                Ok(d) => Ok((d, pos + 1)),
                Err(e) => Err(e),
            },
            Lexeme::Dot => Err(ParseError::UnexpectedDot),
            Lexeme::Tick => match read(tokens, pos + 1) {
                Ok((d, next)) => Ok((quote(d), next)),
                Err(e) => Err(e),
            },
            Lexeme::LBracket => if closes(tokens, pos + 1) {
                Ok((Datum::Nil, pos + 2))
            } else {
                match read(tokens, pos + 1) {
                    Ok((first, next)) => if pos < next <= tokens.len() {
                        listed(seq![first], read_tail(tokens, next))
                    } else {
                        Err(ParseError::UnexpectedEndOfInput)
                    },
                    Err(e) => Err(e),
                }
            },
            Lexeme::RBracket => Err(ParseError::UnmatchedBracket),
        }
    }
}

/// The error of a list in which no expression follows a dot: where a closing
/// bracket stands in the place of that expression, the dot is what is wrong.
pub open spec fn after_dot(e: ParseError) -> ParseError {
    match e {
        ParseError::UnmatchedBracket => ParseError::UnexpectedDot,
        _ => e,
    }
}

/// What follows the elements of a list: a closing bracket; or a dot, one
/// expression and a closing bracket; or one more element and what follows
/// it. A dot that is not followed by one expression and a closing bracket
/// is an error. The datum is the rest of the list.
pub open spec fn read_tail(tokens: Seq<Lexeme>, pos: nat) -> Reading
    decreases tokens.len() - pos, 2nat,
{
    if closes(tokens, pos) {
        Ok((Datum::Nil, pos + 1))
    } else if pos < tokens.len() && tokens[pos as int] is Dot {
        match read(tokens, pos + 1) {
            Ok((d, next)) => if closes(tokens, next) {
                Ok((d, next + 1))
            } else {
                Err(ParseError::UnexpectedDot)
            },
            Err(e) => Err(after_dot(e)),
        }
    } else {
        match read(tokens, pos) {
            Ok((d, next)) => if pos < next <= tokens.len() {
                listed(seq![d], read_tail(tokens, next))
            } else {
                Err(ParseError::UnexpectedEndOfInput)
            },
            Err(e) => Err(e),
        }
    }
}

/// The reading of a list, given its first elements and the reading of what
/// follows them.
pub open spec fn listed(items: Seq<Datum>, tail: Reading) -> Reading {
    match tail {
        Ok((t, end)) => Ok((prepend(items, t), end)),
        Err(e) => Err(e),
    }
}

/// An expression ends after the position at which it starts, and within the
/// tokens.
pub proof fn lemma_read_advances(tokens: Seq<Lexeme>, pos: nat)
    ensures
        read(tokens, pos) matches Ok((_, next)) ==> pos < next <= tokens.len(),
        read_tail(tokens, pos) matches Ok((_, next)) ==> pos < next <= tokens.len(),
    decreases tokens.len() - pos,
{
    if pos < tokens.len() {
        lemma_read_advances(tokens, pos + 1);
        match read(tokens, pos + 1) {
            Ok((_, next)) => {
                if pos < next <= tokens.len() {
                    lemma_read_advances(tokens, next);
                }
            },
            Err(_) => {},
        }
        assert(read(tokens, pos) matches Ok((_, next)) ==> pos < next <= tokens.len());
        match read(tokens, pos) {
            Ok((_, next)) => {
                if pos < next <= tokens.len() {
                    lemma_read_advances(tokens, next);
                }
            },
            Err(_) => {},
        }
    }
}

/// Adding one element to the first elements of a list.
pub proof fn lemma_listed_push(items: Seq<Datum>, d: Datum, tail: Reading)
    ensures
        listed(items, listed(seq![d], tail)) == listed(items.push(d), tail),
{
    reveal_with_fuel(prepend, 3);
    match tail {
        Ok((t, end)) => {
            lemma_prepend_push(items, d, t);
            assert(seq![d].drop_first() =~= Seq::<Datum>::empty());
            assert(prepend(seq![d], t) == pair(d, t));
        },
        Err(_) => {},
    }
}

impl Store {
    /// `r` is what reading gave in this store: the error of `reading`, or a
    /// value that spells its datum in cells that the store `since` did not
    /// have, and the position after it.
    pub open spec fn holds(self, since: Store, reading: Reading, r: Result<(Expr, usize), ParseError>) -> bool {
        match reading {
            Err(e) => r == Err::<(Expr, usize), ParseError>(e),
            Ok((d, next)) => r is Ok && r->Ok_0.1 == next && self.valid(r->Ok_0.0) && self.spells(
                since,
                r->Ok_0.0,
                d,
            ),
        }
    }
}

/// The error of a list in which no expression follows a dot.
fn expression_after_dot(e: ParseError) -> (r: ParseError)
    ensures
        r == after_dot(e),
{
    match e {
        ParseError::UnmatchedBracket => ParseError::UnexpectedDot,
        _ => e,
    }
}

/// Reads an atom. Only a symbol changes the heap: its name is interned.
pub fn parse_value(v: &str, heap: &mut Heap) -> (r: Result<Expr, ParseError>)
    requires
        old(heap)@.wf(),
    ensures
        final(heap)@.wf(),
        old(heap)@.extends_to(final(heap)@),
        match read_atom(v@) {
            Err(e) => r == Err::<Expr, ParseError>(e),
            Ok(d) => r matches Ok(x) && final(heap)@.valid(x) && final(heap)@.denotes(x, d),
        },
        match read_atom(v@) {
            Ok(Datum::Symbol(_)) => r is Ok && old(heap)@.interned(final(heap)@, v@, r->Ok_0),
            _ => final(heap)@ == old(heap)@,
        },
{
    let text = chars_of(v);
    proof {
        heap@.lemma_extends_trans(heap@, heap@);
    }
    if text.len() > 0 && text[0] == '#' {
        if text.len() == 2 && text[1] == 'f' {
            assert(v@ =~= seq!['#', 'f']);
            return Ok(Expr::Boolean(false));
        } else if text.len() == 2 && text[1] == 't' {
            assert(v@ =~= seq!['#', 't']);
            return Ok(Expr::Boolean(true));
        } else {
            assert(v@ != seq!['#', 'f'] && v@ != seq!['#', 't']) by {
                if v@ == seq!['#', 'f'] {
                    assert(v@[1] == 'f');
                }
                if v@ == seq!['#', 't'] {
                    assert(v@[1] == 't');
                }
            }
            return Err(ParseError::AmbiguousValue);
        }
    }
    if text.len() > 0 && (('0' <= text[0] && text[0] <= '9') || text[0] == '-') {
        match parse_decimal(&text) {
            Some(n) => {
                return Ok(Expr::Integer(n));
            },
            None => {
                if text.len() != 1 {
                    assert(v@ != seq!['-']);
                    return Err(ParseError::AmbiguousValue);
                }
                if text[0] != '-' {
                    assert(v@ != seq!['-']) by {
                        if v@ == seq!['-'] {
                            assert(v@[0] == '-');
                        }
                    }
                    return Err(ParseError::AmbiguousValue);
                }
                assert(v@ =~= seq!['-']);
            },
        }
    }
    let sym = heap.make_symbol(v).unwrap();
    proof {
        assert(old(heap)@.interned(heap@, v@, sym));
        assert(sym is Symbol);
        assert(heap@.names_id(sym->Symbol_0, fold_case(v@)));
        assert(read_atom(v@) == Ok::<Datum, ParseError>(Datum::Symbol(fold_case(v@))));
    }
    Ok(sym)
}

/// Reads the expression that starts at the token `pos`. Returns its value
/// and the position of the token after it. The pairs of the value are in
/// new cells; every cell and every name that the heap had stays as it was.
pub fn parse_expr(tokens: &Vec<Token>, pos: usize, heap: &mut Heap) -> (r: Result<(Expr, usize), ParseError>)
    requires
        old(heap)@.wf(),
    ensures
        final(heap)@.wf(),
        old(heap)@.extends_to(final(heap)@),
        final(heap)@.holds(old(heap)@, read(lexemes(tokens@), pos as nat), r),
        r matches Ok(x) ==> pos < x.1 <= tokens@.len(),
    decreases tokens@.len() - pos,
{
    let ghost pre = heap@;
    let ghost toks = lexemes(tokens@);
    let n = tokens.len();
    proof {
        pre.lemma_extends_trans(pre, pre);
        lemma_read_advances(toks, pos as nat);
    }
    if pos >= n {
        return Err(ParseError::UnexpectedEndOfInput);
    }
    assert(toks[pos as int] == tokens@[pos as int]@);
    match &tokens[pos] {
        Token::Value(v) => {
            match parse_value(v.as_str(), heap) {
                Ok(x) => Ok((x, pos + 1)),
                Err(e) => Err(e),
            }
        },
        Token::Dot => Err(ParseError::UnexpectedDot),
        Token::RBracket => Err(ParseError::UnmatchedBracket),
        Token::Tick => {
            let (inner, next) = match parse_expr(tokens, pos + 1, heap) {
                Err(e) => {
                    return Err(e);
                },
                Ok(x) => x,
            };
            let ghost d = read(toks, (pos + 1) as nat)->Ok_0.0;
            let ghost m1 = heap@;
            let q = heap.quote_symbol();
            let c1 = heap.make_cons(inner, Expr::Nil).unwrap();
            let ghost m2 = heap@;
            proof {
                m1.lemma_extends_valid(m2);
            }
            let c2 = heap.make_cons(q, c1).unwrap();
            proof {
                let m3 = heap@;
                reveal_with_fuel(Store::denotes, 3);
                reveal_with_fuel(Store::spells, 3);
                pre.lemma_extends_trans(m1, m2);
                pre.lemma_extends_trans(m2, m3);
                assert(!pre.has(c1)) by {
                    if pre.has(c1) {
                        assert(pre.live(c1->Pair_0.0));
                    }
                }
                assert(!pre.has(c2)) by {
                    if pre.has(c2) {
                        assert(pre.live(c2->Pair_0.0));
                    }
                }
                m1.lemma_spells_extends(m2, pre, inner, d);
                assert(m2.spells(pre, c1, pair(d, Datum::Nil)));
                m2.lemma_spells_extends(m3, pre, c1, pair(d, Datum::Nil));
                assert(m3.spells(pre, c2, quote(d)));
            }
            Ok((c2, next))
        },
        Token::LBracket => {
            if pos + 1 < n {
                assert(toks[pos + 1] == tokens@[pos + 1]@);
                if let Token::RBracket = &tokens[pos + 1] {
                    return Ok((Expr::Nil, pos + 2));
                }
            }
            let (first, next) = match parse_expr(tokens, pos + 1, heap) {
                Err(e) => {
                    return Err(e);
                },
                Ok(x) => x,
            };
            let ghost mut items: Seq<Datum> = seq![read(toks, (pos + 1) as nat)->Ok_0.0];
            let mut vals: Vec<Expr> = Vec::new();
            vals.push(first);
            let mut cur = next;
            loop
                invariant
                    heap@.wf(),
                    pre.extends_to(heap@),
                    pre == old(heap)@,
                    toks == lexemes(tokens@),
                    n == tokens@.len(),
                    pos < cur <= n,
                    vals@.len() == items.len(),
                    forall|i: int| 0 <= i < vals@.len() ==> heap@.valid(#[trigger] vals@[i]),
                    forall|i: int| 0 <= i < vals@.len() ==> heap@.spells(pre, #[trigger] vals@[i], items[i]),
                    read(toks, pos as nat) == listed(items, read_tail(toks, cur as nat)),
                decreases n - cur,
            {
                let ghost start = heap@;
                proof {
                    lemma_read_advances(toks, cur as nat);
                    if cur < n {
                        assert(toks[cur as int] == tokens@[cur as int]@);
                        lemma_read_advances(toks, (cur + 1) as nat);
                    }
                }
                let mut dotted = false;
                if cur < n {
                    match &tokens[cur] {
                        Token::RBracket => {
                            let list = heap.make_list(&vals, Expr::Nil);
                            proof {
                                assert forall|k: usize| #[trigger] pre.live(k) implies start.live(k) by {}
                                start.lemma_built_spells(pre, vals@, Expr::Nil, heap@, list, items, Datum::Nil);
                                pre.lemma_extends_trans(start, heap@);
                            }
                            return Ok((list, cur + 1));
                        },
                        Token::Dot => {
                            dotted = true;
                        },
                        _ => {},
                    }
                }
                let at = if dotted {
                    cur + 1
                } else {
                    cur
                };
                let (v, after) = match parse_expr(tokens, at, heap) {
                    Err(e) => {
                        proof {
                            pre.lemma_extends_trans(start, heap@);
                        }
                        return Err(
                            if dotted {
                                expression_after_dot(e)
                            } else {
                                e
                            },
                        );
                    },
                    Ok(x) => x,
                };
                let ghost d = read(toks, at as nat)->Ok_0.0;
                let ghost mid = heap@;
                proof {
                    pre.lemma_extends_trans(start, mid);
                    start.lemma_extends_valid(mid);
                    assert forall|i: int| 0 <= i < vals@.len() implies mid.spells(pre, #[trigger] vals@[i], items[i]) by {
                        start.lemma_spells_extends(mid, pre, vals@[i], items[i]);
                    }
                    assert forall|k: usize| #[trigger] pre.live(k) implies start.live(k) by {}
                    mid.lemma_spells_older(start, pre, v, d);
                }
                if dotted {
                    if after < n {
                        assert(toks[after as int] == tokens@[after as int]@);
                        if let Token::RBracket = &tokens[after] {
                            let list = heap.make_list(&vals, v);
                            proof {
                                assert forall|k: usize| #[trigger] pre.live(k) implies mid.live(k) by {}
                                mid.lemma_built_spells(pre, vals@, v, heap@, list, items, d);
                                pre.lemma_extends_trans(mid, heap@);
                            }
                            return Ok((list, after + 1));
                        }
                    }
                    return Err(ParseError::UnexpectedDot);
                }
                proof {
                    lemma_listed_push(items, d, read_tail(toks, after as nat));
                    items = items.push(d);
                }
                vals.push(v);
                cur = after;
            }
        },
    }
}

} // verus!
