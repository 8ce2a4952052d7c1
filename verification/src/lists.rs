//! Chains of pairs. A chain is followed for a bounded number of cells; this
//! module shows that the bound of the heap's size is no restriction: a chain
//! that ends at all ends within as many cells as the heap holds.

use vstd::prelude::*;
use crate::expr::{ConsCellKey, Expr, SError};
use crate::store::{link, Store};

verus! {

impl Store {
    /// The keys of the cells of the chain of pairs that starts at `v`,
    /// following at most `fuel` cells.
    pub open spec fn cells_upto(self, v: Expr, fuel: nat) -> Seq<usize>
        decreases fuel,
    {
        if fuel > 0 && v is Pair && self.has(v) {
            seq![v->Pair_0.0] + self.cells_upto(self.rest(v), (fuel - 1) as nat)
        } else {
            Seq::empty()
        }
    }

    /// The chain cannot be followed beyond `t`: it is no pair of a live cell.
    pub open spec fn stops(self, t: Expr) -> bool {
        !(t is Pair && self.has(t))
    }

    /// The chain that starts at `v` ends within `fuel` cells.
    pub open spec fn ends_within(self, v: Expr, fuel: nat) -> bool {
        self.stops(self.tail_upto(v, fuel))
    }

    /// The chain has one element for each cell, at most `fuel` of them, all
    /// live; where it has fewer it has ended.
    pub proof fn lemma_chain_shape(self, v: Expr, fuel: nat)
        ensures
            self.elems_upto(v, fuel).len() == self.cells_upto(v, fuel).len(),
            self.cells_upto(v, fuel).len() <= fuel,
            self.cells_upto(v, fuel).len() < fuel ==> self.ends_within(v, fuel),
            forall|i: int| 0 <= i < self.cells_upto(v, fuel).len() ==> self.live(#[trigger] self.cells_upto(v, fuel)[i]),
            forall|i: int|
                0 <= i < self.cells_upto(v, fuel).len() ==> #[trigger] self.elems_upto(v, fuel)[i]
                    == self.cells[self.cells_upto(v, fuel)[i]].0,
        decreases fuel,
    {
        if fuel > 0 && v is Pair && self.has(v) {
            self.lemma_chain_shape(self.rest(v), (fuel - 1) as nat);
        }
    }

    /// A chain in two parts: the first `i` cells, and what follows them.
    pub proof fn lemma_chain_split(self, v: Expr, fuel: nat, i: nat)
        requires
            i <= self.cells_upto(v, fuel).len(),
        ensures
            i <= fuel,
            self.cells_upto(v, i) == self.cells_upto(v, fuel).take(i as int),
            self.elems_upto(v, i) == self.elems_upto(v, fuel).take(i as int),
            self.cells_upto(self.tail_upto(v, i), (fuel - i) as nat) == self.cells_upto(v, fuel).skip(i as int),
            self.elems_upto(self.tail_upto(v, i), (fuel - i) as nat) == self.elems_upto(v, fuel).skip(i as int),
            self.tail_upto(self.tail_upto(v, i), (fuel - i) as nat) == self.tail_upto(v, fuel),
            i < self.cells_upto(v, fuel).len() ==> self.tail_upto(v, i) == Expr::Pair(
                ConsCellKey(self.cells_upto(v, fuel)[i as int]),
            ),
        decreases i,
    {
        self.lemma_chain_shape(v, fuel);
        let cells = self.cells_upto(v, fuel);
        let elems = self.elems_upto(v, fuel);
        if i == 0 {
            assert(cells.take(0) =~= Seq::<usize>::empty());
            assert(elems.take(0) =~= Seq::<Expr>::empty());
            assert(cells.skip(0) =~= cells);
            assert(elems.skip(0) =~= elems);
        } else {
            let next = self.rest(v);
            let less = (fuel - 1) as nat;
            self.lemma_chain_split(next, less, (i - 1) as nat);
            let c2 = self.cells_upto(next, less);
            let e2 = self.elems_upto(next, less);
            assert(cells.take(i as int) =~= seq![v->Pair_0.0] + c2.take(i - 1));
            assert(elems.take(i as int) =~= seq![self.first(v)] + e2.take(i - 1));
            assert(cells.skip(i as int) =~= c2.skip(i - 1));
            assert(elems.skip(i as int) =~= e2.skip(i - 1));
            if i < cells.len() {
                assert(cells[i as int] == c2[i - 1]);
            }
        }
    }

    /// A chain that has ended is the same with more fuel.
    pub proof fn lemma_chain_more_fuel(self, v: Expr, fuel: nat, more: nat)
        requires
            self.ends_within(v, fuel),
            fuel <= more,
        ensures
            self.cells_upto(v, more) == self.cells_upto(v, fuel),
            self.elems_upto(v, more) == self.elems_upto(v, fuel),
            self.tail_upto(v, more) == self.tail_upto(v, fuel),
        decreases fuel,
    {
        if fuel > 0 && v is Pair && self.has(v) {
            self.lemma_chain_more_fuel(self.rest(v), (fuel - 1) as nat, (more - 1) as nat);
        }
    }

    /// A chain that has ended has ended after as many cells as it has.
    pub proof fn lemma_chain_exact_fuel(self, v: Expr, fuel: nat)
        requires
            self.ends_within(v, fuel),
        ensures
            self.ends_within(v, self.cells_upto(v, fuel).len()),
            self.cells_upto(v, self.cells_upto(v, fuel).len()) == self.cells_upto(v, fuel),
            self.elems_upto(v, self.cells_upto(v, fuel).len()) == self.elems_upto(v, fuel),
            self.tail_upto(v, self.cells_upto(v, fuel).len()) == self.tail_upto(v, fuel),
        decreases fuel,
    {
        if fuel > 0 && v is Pair && self.has(v) {
            self.lemma_chain_exact_fuel(self.rest(v), (fuel - 1) as nat);
        }
    }

    /// No cell occurs twice in a chain that ends.
    pub proof fn lemma_chain_distinct(self, v: Expr, fuel: nat)
        requires
            self.ends_within(v, fuel),
        ensures
            self.cells_upto(v, fuel).no_duplicates(),
    {
        let cells = self.cells_upto(v, fuel);
        assert forall|i: int, j: int| 0 <= i < cells.len() && 0 <= j < cells.len() && i != j implies cells[i]
            != cells[j] by {
            if cells[i] == cells[j] {
                let (a, b) = if i < j {
                    (i as nat, j as nat)
                } else {
                    (j as nat, i as nat)
                };
                self.lemma_chain_split(v, fuel, a);
                self.lemma_chain_split(v, fuel, b);
                let start = Expr::Pair(ConsCellKey(cells[a as int]));
                assert(self.tail_upto(v, a) == start);
                assert(self.tail_upto(v, b) == start);
                // from the same cell the chain would have two lengths
                assert(self.ends_within(start, (fuel - b) as nat));
                self.lemma_chain_more_fuel(start, (fuel - b) as nat, (fuel - a) as nat);
                assert(cells.skip(a as int).len() == cells.skip(b as int).len());
            }
        }
    }

    /// A chain that ends has no more cells than the heap.
    pub proof fn lemma_chain_short(self, v: Expr, fuel: nat)
        requires
            self.cells.dom().finite(),
            self.ends_within(v, fuel),
        ensures
            self.cells_upto(v, fuel).len() <= self.size(),
    {
        let cells = self.cells_upto(v, fuel);
        self.lemma_chain_distinct(v, fuel);
        self.lemma_chain_shape(v, fuel);
        cells.unique_seq_to_set();
        assert forall|k: usize| cells.to_set().contains(k) implies self.cells.dom().contains(k) by {
            let i = choose|i: int| 0 <= i < cells.len() && cells[i] == k;
            assert(self.live(cells[i]));
        }
        vstd::set_lib::lemma_len_subset(cells.to_set(), self.cells.dom());
    }

    /// A chain that ends within any number of cells is the chain that is
    /// followed for as many cells as the heap holds.
    pub proof fn lemma_chain_canonical(self, v: Expr, fuel: nat)
        requires
            self.cells.dom().finite(),
            self.ends_within(v, fuel),
        ensures
            self.elems(v) == self.elems_upto(v, fuel),
            self.tail(v) == self.tail_upto(v, fuel),
            self.cells_upto(v, self.size()) == self.cells_upto(v, fuel),
    {
        self.lemma_chain_short(v, fuel);
        self.lemma_chain_exact_fuel(v, fuel);
        let exact = self.cells_upto(v, fuel).len();
        self.lemma_chain_more_fuel(v, exact, self.size());
    }

    /// Two stores that hold the same halves in the cells of a chain give the
    /// same chain.
    pub proof fn lemma_chain_agree(self, other: Store, v: Expr, fuel: nat)
        requires
            forall|i: int|
                0 <= i < self.cells_upto(v, fuel).len() ==> {
                    let k = #[trigger] self.cells_upto(v, fuel)[i];
                    other.live(k) && other.cells[k].0 == self.cells[k].0 && other.cells[k].1 == self.cells[k].1
                },
            self.stops(self.tail_upto(v, fuel)) ==> other.stops(self.tail_upto(v, fuel)),
        ensures
            other.cells_upto(v, fuel) == self.cells_upto(v, fuel),
            other.elems_upto(v, fuel) == self.elems_upto(v, fuel),
            other.tail_upto(v, fuel) == self.tail_upto(v, fuel),
        decreases fuel,
    {
        if fuel > 0 && v is Pair && self.has(v) {
            let cells = self.cells_upto(v, fuel);
            let next = self.rest(v);
            let less = (fuel - 1) as nat;
            assert(cells[0] == v->Pair_0.0);
            assert forall|i: int| 0 <= i < self.cells_upto(next, less).len() implies {
                let k = #[trigger] self.cells_upto(next, less)[i];
                other.live(k) && other.cells[k].0 == self.cells[k].0 && other.cells[k].1 == self.cells[k].1
            } by {
                assert(cells[i + 1] == self.cells_upto(next, less)[i]);
            }
            self.lemma_chain_agree(other, next, less);
        } else if fuel > 0 {
            assert(self.stops(self.tail_upto(v, fuel)));
        }
    }

    /// In a store that holds the same halves in the cells of a chain that
    /// ends, the list is the same list.
    pub proof fn lemma_list_agree(self, other: Store, v: Expr)
        requires
            self.cells.dom().finite(),
            other.cells.dom().finite(),
            self.stops(self.tail(v)),
            other.stops(self.tail(v)),
            forall|i: int|
                0 <= i < self.cells_upto(v, self.size()).len() ==> {
                    let k = #[trigger] self.cells_upto(v, self.size())[i];
                    other.live(k) && other.cells[k].0 == self.cells[k].0 && other.cells[k].1 == self.cells[k].1
                },
        ensures
            other.elems(v) == self.elems(v),
            other.tail(v) == self.tail(v),
            other.cells_upto(v, other.size()) == self.cells_upto(v, self.size()),
    {
        self.lemma_chain_agree(other, v, self.size());
        other.lemma_chain_canonical(v, self.size());
    }
}

impl Store {
    /// Cell `i` of a list built of `vals` is live, holds its value and is
    /// linked to the cell before it.
    pub open spec fn linked(self, vals: Seq<Expr>, keys: Seq<usize>, tail: Expr, i: int) -> bool {
        self.live(keys[i]) && self.cells[keys[i]] == (vals[vals.len() - 1 - i], link(keys, i - 1, tail), false)
    }

    /// The cells of a list that is being built: those of the store, as they
    /// were, and one under each key used so far.
    pub proof fn lemma_with_list_cells(self, vals: Seq<Expr>, keys: Seq<usize>, count: nat, tail: Expr)
        requires
            self.fresh(keys),
            keys.len() == vals.len(),
            count <= vals.len(),
        ensures
            forall|k: usize|
                self.with_list(vals, keys, count, tail).live(k) <==> self.live(k) || keys.take(count as int).contains(
                    k,
                ),
            forall|k: usize| self.live(k) ==> self.with_list(vals, keys, count, tail).cells[k] == self.cells[k],
            forall|i: int| 0 <= i < count ==> #[trigger] self.with_list(vals, keys, count, tail).linked(vals, keys, tail, i),
            self.cells.dom().finite() ==> self.with_list(vals, keys, count, tail).cells.dom().finite(),
            self.with_list(vals, keys, count, tail) == (Store {
                cells: self.with_list(vals, keys, count, tail).cells,
                ..self
            }),
        decreases count,
    {
        if count > 0 {
            let c = (count - 1) as nat;
            self.lemma_with_list_cells(vals, keys, c, tail);
            let st = self.with_list(vals, keys, c, tail);
            let post = self.with_list(vals, keys, count, tail);
            let k = keys[count - 1];
            assert(keys.take(count as int)[count - 1] == k);
            assert forall|x: usize| post.live(x) <==> self.live(x) || keys.take(count as int).contains(x) by {
                if keys.take(c as int).contains(x) {
                    let j = choose|j: int| 0 <= j < c && keys.take(c as int)[j] == x;
                    assert(keys.take(count as int)[j] == x);
                }
                if keys.take(count as int).contains(x) {
                    let j = choose|j: int| 0 <= j < count && keys.take(count as int)[j] == x;
                    if j < c {
                        assert(keys.take(c as int)[j] == x);
                    }
                }
            }
            assert forall|i: int| 0 <= i < count implies #[trigger] post.linked(vals, keys, tail, i) by {
                if i < c {
                    assert(keys[i] != k);
                    assert(st.linked(vals, keys, tail, i));
                }
            }
        } else {
            assert(keys.take(0) =~= Seq::<usize>::empty());
        }
    }

    /// The elements of a list that was built are the values that it was
    /// built of, and it ends as it was made to end.
    pub proof fn lemma_built_list(self, vals: Seq<Expr>, tail: Expr, post: Store, list: Expr)
        requires
            self.cells.dom().finite(),
            self.built(vals, tail, post, list),
            !(tail is Pair),
        ensures
            post.elems(list) == vals,
            post.tail(list) == tail,
            forall|k: usize| self.live(k) ==> post.live(k) && post.cells[k] == self.cells[k],
            post.cells.dom().finite(),
            post == (Store { cells: post.cells, ..self }),
    {
        let keys = choose|keys: Seq<usize>|
            keys.len() == vals.len() && self.fresh(keys) && #[trigger] self.with_list(
                vals,
                keys,
                vals.len(),
                tail,
            ) == post && list == link(keys, vals.len() - 1, tail);
        let n = vals.len();
        self.lemma_with_list_cells(vals, keys, n, tail);
        post.lemma_linked_chain(vals, keys, tail, n);
        assert(vals.skip(0) =~= vals);
        post.lemma_chain_canonical(list, n);
    }

    /// In a store that holds the cells of a built list, the part of the list
    /// that starts at cell `count - 1` has the last `count` values.
    pub proof fn lemma_linked_chain(self, vals: Seq<Expr>, keys: Seq<usize>, tail: Expr, count: nat)
        requires
            keys.len() == vals.len(),
            count <= vals.len(),
            !(tail is Pair),
            forall|i: int| 0 <= i < vals.len() ==> #[trigger] self.linked(vals, keys, tail, i),
        ensures
            self.elems_upto(link(keys, count - 1, tail), count) == vals.skip(vals.len() - count),
            self.tail_upto(link(keys, count - 1, tail), count) == tail,
        decreases count,
    {
        let n = vals.len() as int;
        if count == 0 {
            assert(vals.skip(n) =~= Seq::<Expr>::empty());
        } else {
            self.lemma_linked_chain(vals, keys, tail, (count - 1) as nat);
            assert(self.linked(vals, keys, tail, count - 1));
            assert(vals.skip(n - count) =~= seq![vals[n - count]] + vals.skip(n - count + 1));
        }
    }
}

impl Store {
    /// A proper list that is not empty is a pair of its first element and
    /// the proper list of the others.
    pub proof fn lemma_list_unfold(self, v: Expr)
        requires
            self.cells.dom().finite(),
            self.tail(v) is Nil,
            self.elems(v).len() > 0,
        ensures
            v is Pair,
            self.has(v),
            self.first(v) == self.elems(v)[0],
            self.tail(self.rest(v)) is Nil,
            self.elems(self.rest(v)) == self.elems(v).drop_first(),
    {
        let n = self.size();
        let next = self.rest(v);
        let less = (n - 1) as nat;
        assert(self.elems_upto(v, n).drop_first() =~= self.elems_upto(next, less));
        self.lemma_chain_canonical(next, less);
    }

    /// A proper list of `n` elements has the length `n`.
    pub proof fn lemma_list_length(self, v: Expr, n: nat)
        requires
            self.cells.dom().finite(),
            self.tail(v) is Nil,
            self.elems(v).len() == n,
        ensures
            self.length_is(v, n) == Ok::<bool, SError>(true),
        decreases n,
    {
        if n == 0 {
            assert(v is Nil) by {
                if v is Pair && self.has(v) && self.size() > 0 {
                    assert(self.elems_upto(v, self.size()).len() > 0);
                }
                if self.size() == 0 && v is Pair && self.has(v) {
                    assert(self.cells.dom().contains(v->Pair_0.0));
                    assert(self.cells.dom() =~= Set::empty());
                }
            }
        } else {
            self.lemma_list_unfold(v);
            self.lemma_list_length(self.rest(v), (n - 1) as nat);
        }
    }
}

/// A value is a proper list exactly if following its second halves leads to
/// `Nil` after some number of pairs.
pub proof fn law_list_ends_in_nil(st: Store, v: Expr)
    requires
        st.cells.dom().finite(),
    ensures
        st.is_list(v) <==> exists|n: nat| #[trigger] st.tail_upto(v, n) is Nil,
{
    if st.is_list(v) {
        assert(st.tail_upto(v, st.size()) is Nil);
    }
    if exists|n: nat| #[trigger] st.tail_upto(v, n) is Nil {
        let n = choose|n: nat| #[trigger] st.tail_upto(v, n) is Nil;
        st.lemma_chain_canonical(v, n);
    }
}

} // verus!
