//! The cell arena: a `slab::Slab` of cons cells, seen through the map from
//! each occupied key to the cell stored under it.

use vstd::prelude::*;
use slab::Slab;
use crate::expr::ConsCell;

verus! {

/// `slab::Slab`, of which nothing is known but what the functions below
/// say.
#[verifier::external_type_specification]
#[verifier::external_body]
#[verifier::reject_recursive_types(T)]
pub struct ExSlab<T>(Slab<T>);

/// The cells that a slab holds, by key.
pub uninterp spec fn slab_cells(s: Slab<ConsCell>) -> Map<usize, ConsCell>;

/// The arena without cells.
pub open spec fn no_cells() -> Map<usize, ConsCell> {
    Map::empty()
}

/// `Slab::new`: an empty slab.
#[verifier::external_body]
pub(crate) fn slab_new() -> (s: Slab<ConsCell>)
    ensures
        slab_cells(s) == no_cells(),
{
    Slab::new()
}

/// `Slab::insert`: stores the cell under a key that was vacant and returns
/// that key; every other key keeps its cell. Like a push to a vector, it
/// gives up only where the memory for one more cell cannot be had.
#[verifier::external_body]
pub(crate) fn slab_insert(s: &mut Slab<ConsCell>, cell: ConsCell) -> (key: usize)
    ensures
        !slab_cells(*old(s)).contains_key(key),
        slab_cells(*final(s)) == slab_cells(*old(s)).insert(key, cell),
{
    s.insert(cell)
}

/// `Slab::get`: the cell under an occupied key, `None` for any other key.
#[verifier::external_body]
pub(crate) fn slab_get(s: &Slab<ConsCell>, key: usize) -> (r: Option<&ConsCell>)
    ensures
        r == (if slab_cells(*s).contains_key(key) {
            Some(&slab_cells(*s)[key])
        } else {
            None
        }),
{
    s.get(key)
}

/// `Slab::get_mut` on an occupied key: a mutable borrow of the cell under
/// that key; what is written through it replaces that cell and no other.
#[verifier::external_body]
pub(crate) fn slab_get_mut(s: &mut Slab<ConsCell>, key: usize) -> (cell: &mut ConsCell)
    requires
        slab_cells(*old(s)).contains_key(key),
    ensures
        *cell == slab_cells(*old(s))[key],
        slab_cells(*final(s)) == slab_cells(*old(s)).insert(key, *final(cell)),
{
    s.get_mut(key).unwrap()
}

/// `Slab::len`: the number of occupied keys.
#[verifier::external_body]
pub(crate) fn slab_len(s: &Slab<ConsCell>) -> (n: usize)
    ensures
        n == slab_cells(*s).dom().len(),
{
    s.len()
}

/// The keys of the cells that carry the mark.
pub open spec fn marked_keys(cells: Map<usize, ConsCell>) -> Set<usize> {
    Set::new(|k: usize| cells.contains_key(k) && cells[k].2)
}

/// `Slab::iter`, of which the keys are kept: every occupied key, once.
#[verifier::external_body]
pub(crate) fn slab_keys(s: &Slab<ConsCell>) -> (keys: Vec<usize>)
    ensures
        keys@.no_duplicates(),
        forall|k: usize| keys@.contains(k) <==> slab_cells(*s).contains_key(k),
{
    s.iter().map(|(key, _)| key).collect()
}

/// `Slab::retain`, with the mark of a cell as the predicate: the cells that
/// carry the mark stay under their keys, the others are removed.
#[verifier::external_body]
pub(crate) fn slab_retain_marked(s: &mut Slab<ConsCell>)
    ensures
        slab_cells(*final(s)) == slab_cells(*old(s)).restrict(marked_keys(slab_cells(*old(s)))),
{
    s.retain(|_, cell| cell.2)
}

} // verus!
