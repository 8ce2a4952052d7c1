//! The printer: heap-resident expressions to text.

use vstd::prelude::*;
use vstd::string::StringExecFns;
use crate::expr::{Expr, SError, SResult};
use crate::heap::Heap;
use crate::store::Store;
use crate::text::{decimal_of, decimal_text};

verus! {

impl Store {
    /// The text of a value that is no pair.
    pub open spec fn atom_text(self, v: Expr) -> Seq<char> {
        match v {
            Expr::Nil => seq!['(', ')'],
            Expr::Boolean(true) => seq!['#', 't'],
            Expr::Boolean(false) => seq!['#', 'f'],
            Expr::Integer(n) => decimal_of(n as int),
            Expr::Symbol(id) => self.names[id as int],
            Expr::Closure(_) => "#<lambda>"@,
            Expr::Primitive(f) => "#<primitive "@ + f.name_spec() + seq!['>'],
            Expr::Pair(_) => Seq::empty(),
        }
    }

    /// The text of a value, following at most `fuel` cells on any way into
    /// it: a pair is printed as the list of its elements in brackets, with a
    /// dot before a last part that is neither a pair nor `Nil`.
    pub open spec fn render(self, v: Expr, fuel: nat) -> SResult<Seq<char>>
        decreases fuel, 1nat,
    {
        if !(v is Pair) {
            Ok(self.atom_text(v))
        } else {
            match self.render_items(v, fuel) {
                Ok(s) => Ok(seq!['('] + s + seq![')']),
                Err(e) => Err(e),
            }
        }
    }

    /// The text between the brackets of the list that starts at the pair
    /// `v`.
    pub open spec fn render_items(self, v: Expr, fuel: nat) -> SResult<Seq<char>>
        decreases fuel, 0nat,
    {
        if fuel == 0 {
            Err(SError::ImproperList)
        } else {
            match self.render(self.first(v), (fuel - 1) as nat) {
                Err(e) => Err(e),
                Ok(head) => {
                    let rest = self.rest(v);
                    if rest is Nil {
                        Ok(head)
                    } else if rest is Pair {
                        match self.render_items(rest, (fuel - 1) as nat) {
                            Ok(more) => Ok(head + seq![' '] + more),
                            Err(e) => Err(e),
                        }
                    } else {
                        Ok(head + seq![' ', '.', ' '] + self.atom_text(rest))
                    }
                },
            }
        }
    }

    /// The text of a value. No way into a value that has a text leads
    /// through more cells than the heap holds; a value in which the cells
    /// form a cycle has none.
    pub open spec fn printed(self, v: Expr) -> SResult<Seq<char>> {
        self.render(v, self.size())
    }
}

impl Heap {
    /// Appends the text of a value that is no pair.
    fn format_atom(&self, expr: &Expr, acc: &mut String)
        requires
            self@.wf(),
            self@.known(*expr),
            !(*expr is Pair),
        ensures
            final(acc)@ == old(acc)@ + self@.atom_text(*expr),
    {
        let ghost before = acc@;
        match expr {
            Expr::Nil => {
                acc.push('(');
                acc.push(')');
                assert(acc@ =~= before + seq!['(', ')']);
            },
            Expr::Boolean(b) => {
                acc.push('#');
                if *b {
                    acc.push('t');
                    assert(acc@ =~= before + seq!['#', 't']);
                } else {
                    acc.push('f');
                    assert(acc@ =~= before + seq!['#', 'f']);
                }
            },
            Expr::Integer(n) => {
                let text = decimal_text(*n);
                acc.append(text.as_str());
            },
            Expr::Symbol(id) => {
                acc.append(self.symbol_name(*id));
            },
            Expr::Closure(_) => {
                acc.append("#<lambda>");
            },
            Expr::Primitive(f) => {
                acc.append("#<primitive ");
                acc.append(f.name());
                acc.push('>');
                assert(acc@ =~= before + ("#<primitive "@ + f.name_spec() + seq!['>']));
            },
            Expr::Pair(_) => {},
        }
    }

    /// Appends the text of a value to `acc`.
    pub fn format_expr_inner(&self, expr: &Expr, acc: &mut String, fuel: usize) -> (r: SResult<()>)
        requires
            self@.wf(),
            self@.known(*expr),
        ensures
            match self@.render(*expr, fuel as nat) {
                Ok(s) => r is Ok && final(acc)@ == old(acc)@ + s,
                Err(e) => r == Err::<(), SError>(e),
            },
        decreases fuel,
    {
        if !expr.is_pair() {
            self.format_atom(expr, acc);
            return Ok(());
        }
        let ghost before = acc@;
        let ghost mut done: Seq<char> = Seq::empty();
        acc.push('(');
        let mut cur = *expr;
        let mut left = fuel;
        proof {
            assert(acc@ =~= before + seq!['('] + done);
        }
        loop
            invariant
                self@.wf(),
                self@.known(cur),
                cur is Pair,
                *expr is Pair,
                left <= fuel,
                before == old(acc)@,
                acc@ == before + seq!['('] + done,
                self@.render_items(*expr, fuel as nat) == (match self@.render_items(cur, left as nat) {
                    Ok(s) => Ok::<Seq<char>, SError>(done + s),
                    Err(e) => Err(e),
                }),
            decreases left,
        {
            if left == 0 {
                return Err(SError::ImproperList);
            }
            let cell = self.get_first_rest(&cur).unwrap();
            let ghost start = acc@;
            match self.format_expr_inner(&cell.0, acc, left - 1) {
                Err(e) => {
                    return Err(e);
                },
                Ok(_) => {},
            }
            let ghost head = self@.render(cell.0, (left - 1) as nat)->Ok_0;
            match cell.1 {
                Expr::Nil => {
                    acc.push(')');
                    proof {
                        assert(self@.render_items(cur, left as nat) == Ok::<Seq<char>, SError>(head));
                        assert(acc@ =~= before + (seq!['('] + (done + head) + seq![')']));
                    }
                    return Ok(());
                },
                Expr::Pair(_) => {
                    acc.push(' ');
                    proof {
                        let next = done + head + seq![' '];
                        assert(acc@ =~= before + seq!['('] + next);
                        match self@.render_items(cell.1, (left - 1) as nat) {
                            Ok(more) => {
                                assert(done + (head + seq![' '] + more) =~= next + more);
                            },
                            Err(_) => {},
                        }
                        done = next;
                    }
                    cur = cell.1;
                    left = left - 1;
                },
                _ => {
                    acc.push(' ');
                    acc.push('.');
                    acc.push(' ');
                    self.format_atom(&cell.1, acc);
                    acc.push(')');
                    proof {
                        let tail = self@.atom_text(cell.1);
                        assert(self@.render_items(cur, left as nat) == Ok::<Seq<char>, SError>(
                            head + seq![' ', '.', ' '] + tail,
                        ));
                        assert(acc@ =~= before + (seq!['('] + (done + (head + seq![' ', '.', ' '] + tail)) + seq![
                            ')',
                        ]));
                    }
                    return Ok(());
                },
            }
        }
    }

    /// The text of a value.
    pub fn format_expr(&self, expr: &Expr) -> (r: SResult<String>)
        requires
            self@.wf(),
            self@.known(*expr),
        ensures
            match self@.printed(*expr) {
                Ok(s) => r is Ok && r->Ok_0@ == s,
                Err(e) => r is Err && r->Err_0 == e,
            },
    {
        let mut acc = String::new();
        let fuel = self.len();
        match self.format_expr_inner(expr, &mut acc, fuel) {
            Err(e) => Err(e),
            Ok(_) => {
                assert(Seq::<char>::empty() + self@.printed(*expr)->Ok_0 =~= self@.printed(*expr)->Ok_0);
                Ok(acc)
            },
        }
    }
}

impl Store {
    /// The value has a text that is found with `fuel`.
    pub open spec fn renders(self, v: Expr, fuel: nat) -> bool {
        self.render(v, fuel) is Ok
    }

    /// `fuel` is the least fuel with which the text of the value is found.
    pub open spec fn least_fuel(self, v: Expr, fuel: nat) -> bool {
        self.renders(v, fuel) && (fuel == 0 || !self.renders(v, (fuel - 1) as nat))
    }

    /// The only error of printing is that of a value without a text.
    pub proof fn lemma_render_error(self, v: Expr, fuel: nat)
        ensures
            self.render(v, fuel) matches Err(e) ==> e == SError::ImproperList,
            self.render_items(v, fuel) matches Err(e) ==> e == SError::ImproperList,
        decreases fuel,
    {
        if fuel > 0 {
            self.lemma_render_error(self.first(v), (fuel - 1) as nat);
            self.lemma_render_error(self.rest(v), (fuel - 1) as nat);
        }
    }

    /// A text that is found with some fuel is found with more.
    pub proof fn lemma_render_more_fuel(self, v: Expr, fuel: nat, more: nat)
        requires
            self.renders(v, fuel),
            fuel <= more,
        ensures
            self.render(v, more) == self.render(v, fuel),
            v is Pair ==> self.render_items(v, more) == self.render_items(v, fuel),
        decreases fuel,
    {
        if v is Pair {
            self.lemma_render_more_fuel(self.first(v), (fuel - 1) as nat, (more - 1) as nat);
            if self.rest(v) is Pair {
                self.lemma_render_more_fuel(self.rest(v), (fuel - 1) as nat, (more - 1) as nat);
            }
        }
    }

    /// A value with a text has a least fuel.
    pub proof fn lemma_least_fuel_exists(self, v: Expr, fuel: nat) -> (least: nat)
        requires
            self.renders(v, fuel),
        ensures
            least <= fuel,
            self.least_fuel(v, least),
        decreases fuel,
    {
        if fuel > 0 && self.renders(v, (fuel - 1) as nat) {
            self.lemma_least_fuel_exists(v, (fuel - 1) as nat)
        } else {
            fuel
        }
    }

    /// The least fuel of a value is one number.
    pub proof fn lemma_least_fuel_unique(self, v: Expr, a: nat, b: nat)
        requires
            self.least_fuel(v, a),
            self.least_fuel(v, b),
        ensures
            a == b,
    {
        if a < b {
            self.lemma_render_more_fuel(v, a, (b - 1) as nat);
        }
        if b < a {
            self.lemma_render_more_fuel(v, b, (a - 1) as nat);
        }
    }

    /// A pair whose least fuel is `fuel` has a half whose least fuel is one
    /// less.
    pub proof fn lemma_least_fuel_half(self, v: Expr, fuel: nat) -> (half: Expr)
        requires
            self.least_fuel(v, fuel),
            fuel > 0,
        ensures
            v is Pair,
            half == self.first(v) || (half == self.rest(v) && half is Pair),
            self.least_fuel(half, (fuel - 1) as nat),
    {
        let less = (fuel - 1) as nat;
        if fuel == 1 {
            self.first(v)
        } else if !self.renders(self.first(v), (less - 1) as nat) {
            self.first(v)
        } else {
            self.rest(v)
        }
    }

    /// A value whose least fuel is `fuel` leads through as many live cells,
    /// no two of them the same.
    pub proof fn lemma_deep_chain(self, v: Expr, fuel: nat) -> (keys: Seq<usize>)
        requires
            self.wf(),
            self.has(v),
            self.least_fuel(v, fuel),
        ensures
            keys.len() == fuel,
            forall|i: int| 0 <= i < keys.len() ==> self.live(#[trigger] keys[i]),
            forall|i: int|
                0 <= i < keys.len() ==> self.least_fuel(
                    Expr::Pair(crate::expr::ConsCellKey(#[trigger] keys[i])),
                    (fuel - i) as nat,
                ),
        decreases fuel,
    {
        if fuel == 0 {
            Seq::empty()
        } else {
            let half = self.lemma_least_fuel_half(v, fuel);
            self.lemma_halves_live(v);
            let more = self.lemma_deep_chain(half, (fuel - 1) as nat);
            let keys = seq![v->Pair_0.0] + more;
            assert forall|i: int| 0 <= i < keys.len() implies self.live(#[trigger] keys[i]) && self.least_fuel(
                Expr::Pair(crate::expr::ConsCellKey(keys[i])),
                (fuel - i) as nat,
            ) by {
                if i > 0 {
                    assert(keys[i] == more[i - 1]);
                }
            }
            keys
        }
    }

    /// A text that is found with any fuel is the text that is found with as
    /// much fuel as the heap has cells.
    pub proof fn lemma_render_canonical(self, v: Expr, fuel: nat)
        requires
            self.wf(),
            self.has(v),
            self.renders(v, fuel),
        ensures
            self.printed(v) == self.render(v, fuel),
    {
        let least = self.lemma_least_fuel_exists(v, fuel);
        let keys = self.lemma_deep_chain(v, least);
        assert forall|i: int, j: int| 0 <= i < keys.len() && 0 <= j < keys.len() && i != j implies keys[i]
            != keys[j] by {
            if keys[i] == keys[j] {
                self.lemma_least_fuel_unique(
                    Expr::Pair(crate::expr::ConsCellKey(keys[i])),
                    (least - i) as nat,
                    (least - j) as nat,
                );
            }
        }
        keys.unique_seq_to_set();
        assert forall|k: usize| keys.to_set().contains(k) implies self.cells.dom().contains(k) by {
            let i = choose|i: int| 0 <= i < keys.len() && keys[i] == k;
            assert(self.live(keys[i]));
        }
        vstd::set_lib::lemma_len_subset(keys.to_set(), self.cells.dom());
        self.lemma_render_more_fuel(v, least, fuel);
        self.lemma_render_more_fuel(v, least, self.size());
    }
}

/// The text of a value is the text that is found with any fuel with which
/// one is found; a value for which none is found with any fuel has none.
pub proof fn law_printed_is_any_text(st: Store, v: Expr, fuel: nat)
    requires
        st.wf(),
        st.has(v),
    ensures
        st.render(v, fuel) is Ok ==> st.printed(v) == st.render(v, fuel),
        st.printed(v) is Err ==> st.render(v, fuel) is Err,
{
    if st.renders(v, fuel) {
        st.lemma_render_canonical(v, fuel);
    }
}

impl Store {
    /// A value of this store has the same text in an extension of the store,
    /// with any fuel.
    pub proof fn lemma_extends_render(self, post: Store, v: Expr, fuel: nat)
        requires
            self.wf(),
            self.known(v),
            self.extends_to(post),
        ensures
            post.render(v, fuel) == self.render(v, fuel),
            v is Pair ==> post.render_items(v, fuel) == self.render_items(v, fuel),
        decreases fuel,
    {
        if v is Pair {
            assert(self.live(v->Pair_0.0));
            if fuel > 0 {
                self.lemma_halves_known(v);
                self.lemma_extends_render(post, self.first(v), (fuel - 1) as nat);
                self.lemma_extends_render(post, self.rest(v), (fuel - 1) as nat);
            }
        }
    }
}

/// What is added to a heap changes the text of no value that was there:
/// reading and interning leave every text as it was.
pub proof fn law_extension_keeps_text(pre: Store, post: Store, v: Expr)
    requires
        pre.wf(),
        post.wf(),
        pre.known(v),
        pre.extends_to(post),
    ensures
        post.known(v),
        post.printed(v) == pre.printed(v),
{
    match v {
        Expr::Pair(k) => {
            assert(pre.live(k.0));
        },
        Expr::Closure(k) => {
            assert(pre.live(k.0));
        },
        _ => {},
    }
    pre.lemma_extends_render(post, v, pre.size());
    pre.lemma_extends_render(post, v, post.size());
    pre.lemma_render_error(v, pre.size());
    post.lemma_render_error(v, post.size());
    if pre.printed(v) is Ok {
        post.lemma_render_canonical(v, pre.size());
    } else if post.printed(v) is Ok {
        pre.lemma_render_canonical(v, post.size());
    }
}

} // verus!
