//! Data: what the reader reads and the printer prints, as mathematical
//! trees. A value of the heap denotes a datum when the cells that it refers
//! to spell the datum out.

use vstd::prelude::*;
use crate::expr::Expr;
use crate::store::{link, Store};

verus! {

/// A datum: an atom, or a pair of data.
pub enum Datum {
    Nil,
    Boolean(bool),
    Integer(i64),
    /// A symbol, by its name.
    Symbol(Seq<char>),
    Pair(Box<Datum>, Box<Datum>),
}

/// The pair of two data.
pub open spec fn pair(first: Datum, rest: Datum) -> Datum {
    Datum::Pair(Box::new(first), Box::new(rest))
}

/// The list of the data `items` that ends in `tail`.
pub open spec fn prepend(items: Seq<Datum>, tail: Datum) -> Datum
    decreases items.len(),
{
    if items.len() == 0 {
        tail
    } else {
        pair(items[0], prepend(items.drop_first(), tail))
    }
}

/// A list with one more item is the list that ends in the pair of that item
/// and the tail.
pub proof fn lemma_prepend_push(items: Seq<Datum>, d: Datum, tail: Datum)
    ensures
        prepend(items.push(d), tail) == prepend(items, pair(d, tail)),
    decreases items.len(),
{
    reveal_with_fuel(prepend, 3);
    assert(items.push(d)[0] == (if items.len() == 0 {
        d
    } else {
        items[0]
    }));
    if items.len() == 0 {
        assert(items.push(d).drop_first() =~= Seq::<Datum>::empty());
    } else {
        lemma_prepend_push(items.drop_first(), d, tail);
        assert(items.push(d).drop_first() =~= items.drop_first().push(d));
    }
}

/// The items from `from` on are the item at `from` and those after it.
pub proof fn lemma_prepend_skip(items: Seq<Datum>, from: int, tail: Datum)
    requires
        0 <= from < items.len(),
    ensures
        prepend(items.skip(from), tail) == pair(items[from], prepend(items.skip(from + 1), tail)),
{
    assert(items.skip(from).drop_first() =~= items.skip(from + 1));
}

impl Store {
    /// The value `v` denotes the datum `d` in this store.
    pub open spec fn denotes(self, v: Expr, d: Datum) -> bool
        decreases d,
    {
        match d {
            Datum::Nil => v == Expr::Nil,
            Datum::Boolean(b) => v == Expr::Boolean(b),
            Datum::Integer(n) => v == Expr::Integer(n),
            Datum::Symbol(name) => v is Symbol && self.names_id(v->Symbol_0, name),
            Datum::Pair(a, b) => v is Pair && self.has(v) && self.denotes(self.first(v), *a) && self.denotes(
                self.rest(v),
                *b,
            ),
        }
    }

    /// The value `v` denotes the datum `d` in this store, and every pair in
    /// it, down to the atoms, has a cell that the store `since` did not
    /// have.
    pub open spec fn spells(self, since: Store, v: Expr, d: Datum) -> bool
        decreases d,
    {
        match d {
            Datum::Pair(a, b) => {
                &&& v is Pair
                &&& self.has(v)
                &&& !since.has(v)
                &&& self.spells(since, self.first(v), *a)
                &&& self.spells(since, self.rest(v), *b)
            },
            _ => self.denotes(v, d),
        }
    }

    /// What is spelled is denoted.
    pub proof fn lemma_spells_denotes(self, since: Store, v: Expr, d: Datum)
        requires
            self.spells(since, v, d),
        ensures
            self.denotes(v, d),
        decreases d,
    {
        match d {
            Datum::Pair(a, b) => {
                self.lemma_spells_denotes(since, self.first(v), *a);
                self.lemma_spells_denotes(since, self.rest(v), *b);
            },
            _ => {},
        }
    }

    /// What is new since a store is new since every store with fewer cells.
    pub proof fn lemma_spells_older(self, since: Store, older: Store, v: Expr, d: Datum)
        requires
            self.spells(since, v, d),
            forall|k: usize| #[trigger] older.live(k) ==> since.live(k),
        ensures
            self.spells(older, v, d),
        decreases d,
    {
        match d {
            Datum::Pair(a, b) => {
                if older.has(v) {
                    assert(older.live(v->Pair_0.0));
                }
                self.lemma_spells_older(since, older, self.first(v), *a);
                self.lemma_spells_older(since, older, self.rest(v), *b);
            },
            _ => {},
        }
    }

    /// A value denotes in an extension of the store what it denotes in the
    /// store.
    pub proof fn lemma_denotes_extends(self, post: Store, v: Expr, d: Datum)
        requires
            self.extends_to(post),
            self.denotes(v, d),
        ensures
            post.denotes(v, d),
        decreases d,
    {
        match d {
            Datum::Pair(a, b) => {
                assert(self.live(v->Pair_0.0));
                self.lemma_denotes_extends(post, self.first(v), *a);
                self.lemma_denotes_extends(post, self.rest(v), *b);
            },
            Datum::Symbol(name) => {
                assert(post.names[v->Symbol_0 as int] == self.names[v->Symbol_0 as int]);
            },
            _ => {},
        }
    }

    /// A value spells in an extension of the store what it spells in the
    /// store.
    pub proof fn lemma_spells_extends(self, post: Store, since: Store, v: Expr, d: Datum)
        requires
            self.extends_to(post),
            self.spells(since, v, d),
        ensures
            post.spells(since, v, d),
        decreases d,
    {
        match d {
            Datum::Pair(a, b) => {
                assert(self.live(v->Pair_0.0));
                self.lemma_spells_extends(post, since, self.first(v), *a);
                self.lemma_spells_extends(post, since, self.rest(v), *b);
            },
            _ => {
                self.lemma_denotes_extends(post, v, d);
            },
        }
    }

    /// The cells of a list that is being built: the store stays well formed,
    /// and the part built so far spells the list of the data that its values
    /// spell.
    pub proof fn lemma_with_list_spells(
        self,
        since: Store,
        vals: Seq<Expr>,
        keys: Seq<usize>,
        count: nat,
        tail: Expr,
        items: Seq<Datum>,
        end: Datum,
    )
        requires
            self.wf(),
            self.fresh(keys),
            keys.len() == vals.len(),
            items.len() == vals.len(),
            count <= vals.len(),
            forall|k: usize| #[trigger] since.live(k) ==> self.live(k),
            self.valid(tail),
            self.spells(since, tail, end),
            forall|i: int| 0 <= i < vals.len() ==> self.valid(#[trigger] vals[i]),
            forall|i: int| 0 <= i < vals.len() ==> self.spells(since, #[trigger] vals[i], items[i]),
        ensures
            self.with_list(vals, keys, count, tail).wf(),
            self.extends_to(self.with_list(vals, keys, count, tail)),
            forall|k: usize|
                self.with_list(vals, keys, count, tail).live(k) ==> self.live(k) || keys.take(count as int).contains(
                    k,
                ),
            self.with_list(vals, keys, count, tail).valid(link(keys, count - 1, tail)),
            self.with_list(vals, keys, count, tail).spells(
                since,
                link(keys, count - 1, tail),
                prepend(items.skip(vals.len() - count), end),
            ),
        decreases count,
    {
        let n = vals.len() as int;
        if count == 0 {
            assert(items.skip(n) =~= Seq::<Datum>::empty());
            self.lemma_extends_trans(self, self);
        } else {
            let c = (count - 1) as nat;
            self.lemma_with_list_spells(since, vals, keys, c, tail, items, end);
            let st = self.with_list(vals, keys, c, tail);
            let k = keys[count - 1];
            let v = vals[n - count];
            let next = link(keys, count - 2, tail);
            let post = st.with_cell(k, v, next);
            assert(!st.live(k)) by {
                if keys.take(c as int).contains(k) {
                    let j = choose|j: int| 0 <= j < c && keys.take(c as int)[j] == k;
                    assert(keys[j] == keys[count - 1]);
                }
            }
            assert(!since.live(k)) by {
                if since.live(k) {
                    assert(self.live(k));
                }
            }
            self.lemma_extends_valid(st);
            st.lemma_with_cell_wf(k, v, next);
            st.lemma_with_cell_extends(k, v, next);
            self.lemma_extends_trans(st, post);
            assert forall|x: usize| post.live(x) implies self.live(x) || keys.take(count as int).contains(x) by {
                if x == k {
                    assert(keys.take(count as int)[count - 1] == k);
                } else if !self.live(x) {
                    let j = choose|j: int| 0 <= j < c && keys.take(c as int)[j] == x;
                    assert(keys.take(count as int)[j] == x);
                }
            }
            self.lemma_spells_extends(post, since, v, items[n - count]);
            st.lemma_spells_extends(post, since, next, prepend(items.skip(n - c), end));
            lemma_prepend_skip(items, n - count, end);
            assert(post.first(link(keys, count - 1, tail)) == v);
            assert(post.rest(link(keys, count - 1, tail)) == next);
        }
    }

    /// A list that was built of values spells the list of what they spell.
    pub proof fn lemma_built_spells(
        self,
        since: Store,
        vals: Seq<Expr>,
        tail: Expr,
        post: Store,
        list: Expr,
        items: Seq<Datum>,
        end: Datum,
    )
        requires
            self.wf(),
            self.built(vals, tail, post, list),
            items.len() == vals.len(),
            forall|k: usize| #[trigger] since.live(k) ==> self.live(k),
            self.valid(tail),
            self.spells(since, tail, end),
            forall|i: int| 0 <= i < vals.len() ==> self.valid(#[trigger] vals[i]),
            forall|i: int| 0 <= i < vals.len() ==> self.spells(since, #[trigger] vals[i], items[i]),
        ensures
            post.spells(since, list, prepend(items, end)),
    {
        let keys = choose|keys: Seq<usize>|
            keys.len() == vals.len() && self.fresh(keys) && #[trigger] self.with_list(
                vals,
                keys,
                vals.len(),
                tail,
            ) == post && list == link(keys, vals.len() - 1, tail);
        self.lemma_with_list_spells(since, vals, keys, vals.len(), tail, items, end);
        assert(items.skip(0) =~= items);
    }
}

} // verus!
