//! The collector: mark and sweep from the two roots.

use vstd::prelude::*;
use crate::arena::marked_keys;
use crate::expr::{ConsCell, ConsCellKey, Expr, SResult};
use crate::heap::Heap;
use crate::store::Store;

verus! {

/// The value is a pair or a closure whose cell has the key `j`.
pub open spec fn refers(v: Expr, j: usize) -> bool {
    match v {
        Expr::Pair(k) => k.0 == j,
        Expr::Closure(k) => k.0 == j,
        _ => false,
    }
}

/// One of the values refers to the cell `j`.
pub open spec fn covered(work: Seq<Expr>, j: usize) -> bool {
    exists|i: int| 0 <= i < work.len() && refers(#[trigger] work[i], j)
}

/// The cell `k` carries the mark.
pub open spec fn marked(cells: Map<usize, ConsCell>, k: usize) -> bool {
    cells.contains_key(k) && cells[k].2
}

/// The two maps have the same keys, and under each key the same two
/// halves.
pub open spec fn same_graph(a: Map<usize, ConsCell>, b: Map<usize, ConsCell>) -> bool {
    &&& forall|k: usize| a.contains_key(k) <==> b.contains_key(k)
    &&& forall|k: usize| a.contains_key(k) ==> (#[trigger] a[k]).0 == b[k].0 && a[k].1 == b[k].1
}

impl Store {
    /// One half of the live cell `k` refers to the cell `j`.
    pub open spec fn child(self, k: usize, j: usize) -> bool {
        self.live(k) && (refers(self.cells[k].0, j) || refers(self.cells[k].1, j))
    }

    /// Each cell of `p` has the next one as a child.
    pub open spec fn walk(self, p: Seq<usize>) -> bool {
        forall|i: int| 0 <= i < p.len() - 1 ==> self.child(#[trigger] p[i], p[i + 1])
    }

    /// `p` leads from the value `root` to the cell `k`.
    pub open spec fn leads(self, root: Expr, p: Seq<usize>, k: usize) -> bool {
        self.walk(p) && p.len() > 0 && refers(root, p[0]) && p.last() == k
    }

    /// The cell `k` can be reached from the value `root`.
    pub open spec fn reaches(self, root: Expr, k: usize) -> bool {
        exists|p: Seq<usize>| #[trigger] self.leads(root, p, k)
    }

    /// The cell `k` can be reached from one of the two roots.
    pub open spec fn reachable(self, k: usize) -> bool {
        self.reaches(self.symbols, k) || self.reaches(self.root_env, k)
    }

    /// `post` is what a collection leaves of `self`: the cells that can be
    /// reached from the roots, each with its two halves, and nothing else.
    pub open spec fn collected(self, post: Store) -> bool {
        &&& post.names == self.names
        &&& post.symbol_cells == self.symbol_cells
        &&& post.symbols == self.symbols
        &&& post.root_env == self.root_env
        &&& post.kw_quote == self.kw_quote
        &&& post.kw_define == self.kw_define
        &&& post.kw_if == self.kw_if
        &&& post.kw_lambda == self.kw_lambda
        &&& forall|k: usize| post.live(k) <==> self.live(k) && self.reachable(k)
        &&& forall|k: usize| post.live(k) ==> #[trigger] post.cells[k] == (self.cells[k].0, self.cells[k].1, true)
    }

    /// The cell that a root refers to can be reached.
    pub proof fn lemma_reach_root(self, root: Expr, j: usize)
        requires
            refers(root, j),
        ensures
            self.reaches(root, j),
    {
        assert(self.leads(root, seq![j], j));
    }

    /// A child of a cell that can be reached can be reached.
    pub proof fn lemma_reach_step(self, root: Expr, k: usize, j: usize)
        requires
            self.reaches(root, k),
            self.child(k, j),
        ensures
            self.reaches(root, j),
    {
        let p = choose|p: Seq<usize>| #[trigger] self.leads(root, p, k);
        let q = p.push(j);
        assert forall|i: int| 0 <= i < q.len() - 1 implies self.child(#[trigger] q[i], q[i + 1]) by {
            if i < p.len() - 1 {
                assert(self.child(p[i], p[i + 1]));
            }
        }
        assert(self.leads(root, q, j));
    }

    /// A set of cells that holds what the root refers to, and with each cell
    /// its children, holds every cell that can be reached from the root.
    pub proof fn lemma_closed_holds_reached(self, marks: Set<usize>, root: Expr, p: Seq<usize>, i: int)
        requires
            forall|j: usize| refers(root, j) ==> marks.contains(j),
            forall|a: usize, b: usize| marks.contains(a) && self.child(a, b) ==> marks.contains(b),
            self.walk(p),
            p.len() > 0,
            refers(root, p[0]),
            0 <= i < p.len(),
        ensures
            marks.contains(p[i]),
        decreases i,
    {
        if i > 0 {
            self.lemma_closed_holds_reached(marks, root, p, i - 1);
            assert(self.child(p[i - 1], p[i]));
        }
    }

    /// Every value stored in a live cell refers to a live cell, if to any.
    pub proof fn lemma_children_live(self)
        requires
            self.wf(),
        ensures
            forall|k: usize, j: usize| self.child(k, j) ==> self.live(j),
    {
        assert forall|k: usize, j: usize| self.child(k, j) implies self.live(j) by {
            if self.symbol_cells.contains(k) {
                let i = choose|i: int| 0 <= i < self.symbol_cells.len() && self.symbol_cells[i] == k;
                assert(self.symbol_cell_ok(i));
                if i + 1 < self.names.len() {
                    assert(self.symbol_cell_ok(i + 1));
                }
            } else {
                assert(self.closed_at(k));
            }
        }
    }

    /// Every cell of the symbol list can be reached from its head.
    pub proof fn lemma_symbol_cells_reached(self, i: int)
        requires
            self.wf(),
            0 <= i < self.symbol_cells.len(),
        ensures
            self.reaches(self.symbols, self.symbol_cells[i]),
        decreases i,
    {
        assert(self.symbol_cell_ok(i));
        if i == 0 {
            self.lemma_reach_root(self.symbols, self.symbol_cells[0]);
        } else {
            self.lemma_symbol_cells_reached(i - 1);
            assert(self.symbol_cell_ok(i - 1));
            self.lemma_reach_step(self.symbols, self.symbol_cells[i - 1], self.symbol_cells[i]);
        }
    }

    /// What a collection leaves is a well-formed store.
    pub proof fn lemma_collected_wf(self, post: Store)
        requires
            self.wf(),
            self.collected(post),
            post.cells.dom().finite(),
        ensures
            post.wf(),
    {
        self.lemma_children_live();
        assert forall|i: int| 0 <= i < post.names.len() implies #[trigger] post.symbol_cell_ok(i) by {
            assert(self.symbol_cell_ok(i));
            self.lemma_symbol_cells_reached(i);
            assert(post.live(self.symbol_cells[i]));
        }
        let root = self.root_env->Pair_0.0;
        self.lemma_reach_root(self.root_env, root);
        assert(post.live(root));
        assert forall|k: usize| #[trigger] post.closed_at(k) by {
            if post.user_cell(k) {
                assert(self.closed_at(k));
                assert forall|j: usize| self.child(k, j) implies post.live(j) by {
                    if self.reaches(self.symbols, k) {
                        self.lemma_reach_step(self.symbols, k, j);
                    } else {
                        self.lemma_reach_step(self.root_env, k, j);
                    }
                }
                let a = self.cells[k].0;
                let b = self.cells[k].1;
                assert(post.cells[k].0 == a && post.cells[k].1 == b);
                match a {
                    Expr::Pair(x) => {
                        assert(self.child(k, x.0));
                    },
                    Expr::Closure(x) => {
                        assert(self.child(k, x.0));
                    },
                    _ => {},
                }
                match b {
                    Expr::Pair(x) => {
                        assert(self.child(k, x.0));
                    },
                    Expr::Closure(x) => {
                        assert(self.child(k, x.0));
                    },
                    _ => {},
                }
            }
        }
    }
}

impl Store {
    /// No cell is garbage: every live cell can be reached from a root.
    pub open spec fn tidy(self) -> bool {
        forall|k: usize| #[trigger] self.live(k) ==> self.reachable(k)
    }

    /// A child of a cell that can be reached from a root can be reached
    /// from a root.
    pub proof fn lemma_reachable_step(self, k: usize, j: usize)
        requires
            self.reachable(k),
            self.child(k, j),
        ensures
            self.reachable(j),
    {
        if self.reaches(self.symbols, k) {
            self.lemma_reach_step(self.symbols, k, j);
        } else {
            self.lemma_reach_step(self.root_env, k, j);
        }
    }

    /// What can be reached in this store can be reached in `post`, if the
    /// roots of `post` reach what the roots of this store refer to, and with
    /// each cell the cells that were its children.
    pub proof fn lemma_reach_transfer(self, post: Store)
        requires
            forall|j: usize| refers(self.symbols, j) || refers(self.root_env, j) ==> post.reachable(j),
            forall|a: usize, b: usize| #[trigger] self.child(a, b) && post.reachable(a) ==> post.reachable(b),
        ensures
            forall|k: usize| self.reachable(k) ==> post.reachable(k),
    {
        let marks = Set::new(|k: usize| post.reachable(k));
        assert forall|k: usize| self.reachable(k) implies post.reachable(k) by {
            let root = if self.reaches(self.symbols, k) {
                self.symbols
            } else {
                self.root_env
            };
            let p = choose|p: Seq<usize>| #[trigger] self.leads(root, p, k);
            assert forall|a: usize, b: usize| marks.contains(a) && self.child(a, b) implies marks.contains(b) by {
                assert(post.reachable(a));
            }
            self.lemma_closed_holds_reached(marks, root, p, p.len() - 1);
        }
    }

    /// Interning leaves no garbage.
    pub proof fn lemma_interned_tidy(self, post: Store, name: Seq<char>, sym: Expr)
        requires
            self.tidy(),
            self.interned(post, name, sym),
        ensures
            post.tidy(),
    {
        if post != self {
            let k = post.symbols->Pair_0.0;
            post.lemma_reach_root(post.symbols, k);
            assert forall|j: usize| refers(self.symbols, j) || refers(self.root_env, j) implies post.reachable(
                j,
            ) by {
                if refers(self.symbols, j) {
                    assert(post.child(k, j));
                    post.lemma_reachable_step(k, j);
                } else {
                    post.lemma_reach_root(post.root_env, j);
                }
            }
            assert forall|a: usize, b: usize| #[trigger] self.child(a, b) && post.reachable(a) implies post.reachable(
                b,
            ) by {
                assert(post.cells[a] == self.cells[a]);
                assert(post.child(a, b));
                post.lemma_reachable_step(a, b);
            }
            self.lemma_reach_transfer(post);
            assert forall|x: usize| #[trigger] post.live(x) implies post.reachable(x) by {
                if x != k {
                    assert(self.live(x));
                }
            }
        }
    }

    /// A definition in a sound frame that can be reached leaves no garbage,
    /// unless it replaces a value that refers to a cell.
    pub proof fn lemma_defined_tidy(self, post: Store, env: Expr, name: Expr, val: Expr, r: SResult<()>)
        requires
            self.tidy(),
            self.frame_wf(env),
            name is Symbol,
            self.own_value(env, name) matches Some(v) ==> forall|j: usize| !refers(v, j),
            self.defined(post, env, name, val, r),
        ensures
            post.tidy(),
    {
        let ek = env->Pair_0.0;
        assert forall|j: usize| refers(self.symbols, j) || refers(self.root_env, j) implies post.reachable(j) by {
            if refers(self.symbols, j) {
                post.lemma_reach_root(post.symbols, j);
            } else {
                post.lemma_reach_root(post.root_env, j);
            }
        }
        match self.own_binding(env, name) {
            Some(binding) => {
                let elems = self.elems(self.rest(env));
                let i = self.lemma_find_found(elems, name, 0);
                assert(self.apart(env, self.cells_upto(self.rest(env), self.size()), elems[i]));
                let bk = binding->Pair_0.0;
                assert forall|a: usize, b: usize| #[trigger] self.child(a, b) && post.reachable(a) implies post.reachable(
                    b,
                ) by {
                    assert(post.cells[a].0 == self.cells[a].0);
                    if a != bk {
                        assert(post.cells[a] == self.cells[a]);
                    }
                    assert(post.child(a, b));
                    post.lemma_reachable_step(a, b);
                }
                self.lemma_reach_transfer(post);
                assert forall|x: usize| #[trigger] post.live(x) implies post.reachable(x) by {
                    assert(self.live(x));
                }
            },
            None => {
                let nb = post.rest(env)->Pair_0.0;
                let np = post.first(post.rest(env))->Pair_0.0;
                assert(post.cells[ek] == (self.cells[ek].0, Expr::Pair(ConsCellKey(nb)), self.cells[ek].2));
                assert(post.cells[nb] == (Expr::Pair(ConsCellKey(np)), self.rest(env), false));
                assert(post.child(ek, nb));
                assert(post.child(nb, np));
                assert forall|a: usize, b: usize| #[trigger] self.child(a, b) && post.reachable(a) implies post.reachable(
                    b,
                ) by {
                    if a != ek {
                        assert(post.cells[a] == self.cells[a]);
                        assert(post.child(a, b));
                        post.lemma_reachable_step(a, b);
                    } else if refers(self.cells[ek].0, b) {
                        assert(post.child(ek, b));
                        post.lemma_reachable_step(ek, b);
                    } else {
                        post.lemma_reachable_step(ek, nb);
                        assert(post.child(nb, b));
                        post.lemma_reachable_step(nb, b);
                    }
                }
                self.lemma_reach_transfer(post);
                assert(self.live(ek));
                assert(post.reachable(ek));
                post.lemma_reachable_step(ek, nb);
                post.lemma_reachable_step(nb, np);
                assert forall|x: usize| #[trigger] post.live(x) implies post.reachable(x) by {
                    if x != nb && x != np {
                        assert(self.live(x));
                    }
                }
            },
        }
    }

    /// What a collection leaves holds no garbage.
    pub proof fn lemma_collected_tidy(self, post: Store)
        requires
            self.wf(),
            self.collected(post),
        ensures
            post.tidy(),
    {
        assert forall|k: usize| #[trigger] post.live(k) implies post.reachable(k) by {
            let v = Expr::Pair(ConsCellKey(k));
            assert(self.kept(v));
            lemma_collected_kept(self, post, v);
            assert(refers(v, k));
        }
    }
}

/// A collection after steps that changed no cell that was there, in a store
/// without garbage, leaves exactly the cells that were there: whatever the
/// steps allocated is reclaimed.
pub proof fn law_collect_reclaims(pre: Store, post: Store, after: Store)
    requires
        pre.wf(),
        pre.tidy(),
        post.symbols == pre.symbols,
        post.root_env == pre.root_env,
        forall|k: usize|
            #[trigger] pre.live(k) ==> post.live(k) && post.cells[k].0 == pre.cells[k].0 && post.cells[k].1
                == pre.cells[k].1,
        post.collected(after),
    ensures
        forall|k: usize| after.live(k) <==> pre.live(k),
        after.cells.dom() == pre.cells.dom(),
        after.size() == pre.size(),
{
    pre.lemma_children_live();
    assert forall|j: usize| refers(pre.symbols, j) || refers(pre.root_env, j) implies post.reachable(j) by {
        if refers(pre.symbols, j) {
            post.lemma_reach_root(post.symbols, j);
        } else {
            post.lemma_reach_root(post.root_env, j);
        }
    }
    assert forall|a: usize, b: usize| #[trigger] pre.child(a, b) && post.reachable(a) implies post.reachable(b) by {
        assert(pre.live(a));
        assert(post.child(a, b));
        post.lemma_reachable_step(a, b);
    }
    pre.lemma_reach_transfer(post);
    assert forall|k: usize| post.reachable(k) implies pre.live(k) by {
        let root = if post.reaches(post.symbols, k) {
            post.symbols
        } else {
            post.root_env
        };
        let p = choose|p: Seq<usize>| #[trigger] post.leads(root, p, k);
        lemma_walk_stays(pre, post, root, p, p.len() - 1);
    }
    assert forall|k: usize| after.live(k) <==> pre.live(k) by {
        if pre.live(k) {
            assert(post.live(k));
            assert(pre.reachable(k));
        }
    }
    assert forall|k: usize| after.cells.dom().contains(k) <==> pre.cells.dom().contains(k) by {
        assert(after.live(k) <==> pre.live(k));
    }
    assert(after.cells.dom() =~= pre.cells.dom());
}

/// A way from a root through cells that are as they were stays among the
/// cells that were there.
pub proof fn lemma_walk_stays(pre: Store, post: Store, root: Expr, p: Seq<usize>, i: int)
    requires
        pre.wf(),
        root == pre.symbols || root == pre.root_env,
        forall|k: usize|
            #[trigger] pre.live(k) ==> post.live(k) && post.cells[k].0 == pre.cells[k].0 && post.cells[k].1
                == pre.cells[k].1,
        post.walk(p),
        p.len() > 0,
        refers(root, p[0]),
        0 <= i < p.len(),
    ensures
        pre.live(p[i]),
    decreases i,
{
    pre.lemma_children_live();
    if i == 0 {
        if root == pre.symbols {
            if pre.names.len() > 0 {
                assert(pre.symbol_cell_ok(0));
            }
        }
    } else {
        lemma_walk_stays(pre, post, root, p, i - 1);
        assert(post.child(p[i - 1], p[i]));
        assert(pre.live(p[i - 1]));
        assert(pre.child(p[i - 1], p[i]));
    }
}

impl Heap {
    /// Clears the mark of every cell.
    fn clear_marks(&mut self)
        requires
            old(self)@.wf(),
        ensures
            same_graph(final(self)@.cells, old(self)@.cells),
            forall|k: usize| !marked(final(self)@.cells, k),
            final(self)@ == (Store { cells: final(self)@.cells, ..old(self)@ }),
    {
        let keys = self.keys();
        let mut i: usize = 0;
        while i < keys.len()
            invariant
                i <= keys.len(),
                keys@.no_duplicates(),
                forall|k: usize| keys@.contains(k) <==> old(self)@.cells.contains_key(k),
                same_graph(self@.cells, old(self)@.cells),
                forall|j: int| 0 <= j < i ==> !marked(self@.cells, #[trigger] keys@[j]),
                self@ == (Store { cells: self@.cells, ..old(self)@ }),
            decreases keys.len() - i,
        {
            let key = keys[i];
            assert(keys@.contains(key));
            self.set_mark(key, false);
            i = i + 1;
        }
        assert forall|k: usize| !marked(self@.cells, k) by {
            if self@.cells.contains_key(k) {
                assert(keys@.contains(k));
                let j = choose|j: int| 0 <= j < keys@.len() && keys@[j] == k;
                assert(!marked(self@.cells, keys@[j]));
            }
        }
    }

    /// Marks every cell that can be reached from the two roots.
    fn mark(&mut self)
        requires
            old(self)@.wf(),
            forall|k: usize| !marked(old(self)@.cells, k),
        ensures
            same_graph(final(self)@.cells, old(self)@.cells),
            forall|k: usize| marked(final(self)@.cells, k) <==> old(self)@.live(k) && old(self)@.reachable(k),
            final(self)@ == (Store { cells: final(self)@.cells, ..old(self)@ }),
    {
        let ghost pre = self@;
        let mut worklist: Vec<Expr> = Vec::new();
        worklist.push(self.symbols());
        worklist.push(self.root_env());
        let ghost mut unmarked: Set<usize> = pre.cells.dom();
        proof {
            assert forall|k: usize| unmarked.contains(k) <==> self@.cells.contains_key(k) && !self@.cells[k].2 by {
                assert(!marked(pre.cells, k));
            }
            pre.lemma_children_live();
            pre.lemma_symbol_cells_live();
            assert(refers(worklist@[0], pre.symbols->Pair_0.0) || !(pre.symbols is Pair));
            assert forall|j: usize| refers(pre.symbols, j) implies covered(worklist@, j) by {
                assert(refers(worklist@[0], j));
            }
            assert forall|j: usize| refers(pre.root_env, j) implies covered(worklist@, j) by {
                assert(refers(worklist@[1], j));
            }
            assert forall|i: int, j: usize| 0 <= i < worklist@.len() && #[trigger] refers(worklist@[i], j) implies pre.live(
                j,
            ) && pre.reachable(j) by {
                if i == 0 {
                    pre.lemma_reach_root(pre.symbols, j);
                    if pre.names.len() > 0 {
                        assert(pre.symbol_cell_ok(0));
                    }
                } else {
                    pre.lemma_reach_root(pre.root_env, j);
                }
            }
        }
        while worklist.len() > 0
            invariant
                pre == old(self)@,
                pre.wf(),
                same_graph(self@.cells, pre.cells),
                self@ == (Store { cells: self@.cells, ..pre }),
                forall|k: usize, j: usize| pre.child(k, j) ==> pre.live(j),
                forall|i: int, j: usize|
                    0 <= i < worklist@.len() && #[trigger] refers(worklist@[i], j) ==> pre.live(j) && pre.reachable(j),
                forall|k: usize| marked(self@.cells, k) ==> pre.reachable(k),
                forall|j: usize| refers(pre.symbols, j) ==> marked(self@.cells, j) || covered(worklist@, j),
                forall|j: usize| refers(pre.root_env, j) ==> marked(self@.cells, j) || covered(worklist@, j),
                forall|k: usize, j: usize|
                    marked(self@.cells, k) && pre.child(k, j) ==> marked(self@.cells, j) || covered(worklist@, j),
                unmarked.finite(),
                forall|k: usize| unmarked.contains(k) <==> self@.cells.contains_key(k) && !self@.cells[k].2,
            decreases unmarked.len(), worklist@.len(),
        {
            let ghost work = worklist@;
            let ghost cells = self@.cells;
            let ex = worklist.pop().unwrap();
            let ghost rest = worklist@;
            assert(forall|i: int| 0 <= i < rest.len() ==> rest[i] == work[i]);
            assert(ex == work[work.len() - 1]);
            let key = match ex {
                Expr::Pair(n) => Some(n.0),
                Expr::Closure(n) => Some(n.0),
                _ => None,
            };
            match key {
                None => {
                    proof {
                        assert forall|j: usize| covered(work, j) implies covered(rest, j) by {
                            let i = choose|i: int| 0 <= i < work.len() && refers(#[trigger] work[i], j);
                            assert(refers(rest[i], j));
                        }
                    }
                },
                Some(n) => {
                    assert(refers(work[work.len() - 1], n));
                    let cell = self.cell(n);
                    let fresh = !cell.2;
                    let a = cell.0;
                    let b = cell.1;
                    self.set_mark(n, true);
                    if fresh {
                        worklist.push(a);
                        worklist.push(b);
                    }
                    proof {
                        let now = worklist@;
                        assert(same_graph(self@.cells, pre.cells));
                        assert(marked(self@.cells, n));
                        assert forall|k: usize| marked(cells, k) implies marked(self@.cells, k) by {}
                        assert forall|j: usize| covered(work, j) implies marked(self@.cells, j) || covered(now, j) by {
                            let i = choose|i: int| 0 <= i < work.len() && refers(#[trigger] work[i], j);
                            if i < rest.len() {
                                assert(now[i] == work[i]);
                                assert(refers(now[i], j));
                            } else {
                                assert(j == n);
                            }
                        }
                        if fresh {
                            assert(now[rest.len() as int] == a);
                            assert(now[rest.len() as int + 1] == b);
                            assert forall|j: usize| pre.child(n, j) implies covered(now, j) by {
                                if refers(a, j) {
                                    assert(refers(now[rest.len() as int], j));
                                } else {
                                    assert(refers(now[rest.len() as int + 1], j));
                                }
                            }
                            assert forall|i: int, j: usize| 0 <= i < now.len() && #[trigger] refers(now[i], j) implies pre.live(
                                j,
                            ) && pre.reachable(j) by {
                                if i < rest.len() {
                                    assert(now[i] == work[i]);
                                } else {
                                    assert(pre.child(n, j));
                                    if pre.reaches(pre.symbols, n) {
                                        pre.lemma_reach_step(pre.symbols, n, j);
                                    } else {
                                        pre.lemma_reach_step(pre.root_env, n, j);
                                    }
                                }
                            }
                            assert(unmarked.contains(n));
                            unmarked = unmarked.remove(n);
                        } else {
                            assert(self@.cells =~= cells);
                            assert forall|i: int, j: usize| 0 <= i < now.len() && #[trigger] refers(now[i], j) implies pre.live(
                                j,
                            ) && pre.reachable(j) by {
                                assert(now[i] == work[i]);
                            }
                        }
                        assert forall|k: usize, j: usize| marked(self@.cells, k) && pre.child(k, j) implies marked(
                            self@.cells,
                            j,
                        ) || covered(now, j) by {
                            if k != n || !fresh {
                                assert(marked(cells, k));
                                assert(marked(cells, j) || covered(work, j));
                            }
                        }
                    }
                },
            }
        }
        proof {
            let marks = Set::new(|k: usize| marked(self@.cells, k));
            assert forall|j: usize| !covered(worklist@, j) by {}
            assert forall|k: usize| pre.live(k) && pre.reachable(k) implies marked(self@.cells, k) by {
                let root = if pre.reaches(pre.symbols, k) {
                    pre.symbols
                } else {
                    pre.root_env
                };
                let p = choose|p: Seq<usize>| #[trigger] pre.leads(root, p, k);
                pre.lemma_closed_holds_reached(marks, root, p, p.len() - 1);
            }
        }
    }

    /// Reclaims every cell that cannot be reached from the symbol list or
    /// from the root environment.
    pub fn collect(&mut self)
        requires
            old(self)@.wf(),
        ensures
            final(self)@.wf(),
            old(self)@.collected(final(self)@),
            final(self)@.tidy(),
    {
        let ghost pre = self@;
        self.clear_marks();
        let ghost cleared = self@;
        proof {
            assert(cleared.cells.dom() =~= pre.cells.dom());
            lemma_same_graph_wf(pre, cleared);
            lemma_same_graph_reach(pre, cleared);
        }
        self.mark();
        let ghost marks = self@;
        self.sweep();
        proof {
            let post = self@;
            assert(marks.cells.dom() =~= cleared.cells.dom());
            assert(post.cells.dom() =~= marks.cells.dom().intersect(marked_keys(marks.cells)));
            vstd::set_lib::lemma_len_intersect(marks.cells.dom(), marked_keys(marks.cells));
            assert forall|k: usize| post.live(k) <==> pre.live(k) && pre.reachable(k) by {
                assert(post.live(k) <==> marked(marks.cells, k));
            }
            pre.lemma_collected_wf(post);
            pre.lemma_collected_tidy(post);
        }
    }
}

/// A store with the same cells but for the marks is as well formed.
pub proof fn lemma_same_graph_wf(pre: Store, post: Store)
    requires
        pre.wf(),
        same_graph(post.cells, pre.cells),
        post.cells.dom().finite(),
        post == (Store { cells: post.cells, ..pre }),
    ensures
        post.wf(),
{
    assert forall|i: int| 0 <= i < post.names.len() implies #[trigger] post.symbol_cell_ok(i) by {
        assert(pre.symbol_cell_ok(i));
    }
    assert forall|k: usize| #[trigger] post.closed_at(k) by {
        assert(pre.closed_at(k));
    }
}

/// In a store with the same cells but for the marks, the same cells can be
/// reached.
pub proof fn lemma_same_graph_reach(pre: Store, post: Store)
    requires
        same_graph(post.cells, pre.cells),
        post == (Store { cells: post.cells, ..pre }),
    ensures
        forall|k: usize| pre.reachable(k) <==> post.reachable(k),
        forall|k: usize| pre.live(k) <==> post.live(k),
{
    assert forall|a: usize, b: usize| pre.child(a, b) <==> post.child(a, b) by {}
    assert forall|p: Seq<usize>| pre.walk(p) <==> post.walk(p) by {
        if pre.walk(p) {
            assert forall|i: int| 0 <= i < p.len() - 1 implies post.child(#[trigger] p[i], p[i + 1]) by {
                assert(pre.child(p[i], p[i + 1]));
            }
        }
        if post.walk(p) {
            assert forall|i: int| 0 <= i < p.len() - 1 implies pre.child(#[trigger] p[i], p[i + 1]) by {
                assert(post.child(p[i], p[i + 1]));
            }
        }
    }
    assert forall|root: Expr, k: usize| pre.reaches(root, k) <==> post.reaches(root, k) by {
        if pre.reaches(root, k) {
            let p = choose|p: Seq<usize>| #[trigger] pre.leads(root, p, k);
            assert(post.leads(root, p, k));
        }
        if post.reaches(root, k) {
            let p = choose|p: Seq<usize>| #[trigger] post.leads(root, p, k);
            assert(pre.leads(root, p, k));
        }
    }
}

impl Store {
    /// The value is an atom, or refers to a live cell that can be reached
    /// from a root.
    pub open spec fn kept(self, v: Expr) -> bool {
        forall|k: usize| refers(v, k) ==> self.live(k) && self.reachable(k)
    }

    /// What a kept value holds is kept.
    pub proof fn lemma_kept_halves(self, v: Expr)
        requires
            self.wf(),
            self.kept(v),
            v is Pair || v is Closure,
        ensures
            self.kept(self.first(v)),
            self.kept(self.rest(v)),
    {
        self.lemma_children_live();
        let k = match v {
            Expr::Pair(x) => x.0,
            Expr::Closure(x) => x.0,
            _ => 0,
        };
        assert(refers(v, k));
        assert forall|j: usize| refers(self.first(v), j) || refers(self.rest(v), j) implies self.live(j)
            && self.reachable(j) by {
            assert(self.child(k, j));
            if self.reaches(self.symbols, k) {
                self.lemma_reach_step(self.symbols, k, j);
            } else {
                self.lemma_reach_step(self.root_env, k, j);
            }
        }
    }

    /// A collection leaves the text of a kept value as it was, with any
    /// fuel.
    pub proof fn lemma_collected_render(self, post: Store, v: Expr, fuel: nat)
        requires
            self.wf(),
            self.collected(post),
            self.kept(v),
        ensures
            post.render(v, fuel) == self.render(v, fuel),
            v is Pair ==> post.render_items(v, fuel) == self.render_items(v, fuel),
        decreases fuel,
    {
        if v is Pair {
            let k = v->Pair_0.0;
            assert(refers(v, k));
            assert(post.live(k));
            if fuel > 0 {
                self.lemma_kept_halves(v);
                self.lemma_collected_render(post, self.first(v), (fuel - 1) as nat);
                self.lemma_collected_render(post, self.rest(v), (fuel - 1) as nat);
            }
        }
    }
}

/// After a collection, every value that could be reached from the symbol
/// list or from the root environment is still there, with the halves that it
/// had, and its text is what it was.
pub proof fn law_collect_keeps_reachable(pre: Store, post: Store, v: Expr)
    requires
        pre.wf(),
        pre.collected(post),
        pre.kept(v),
    ensures
        post.wf(),
        post.has(v),
        pre.valid(v) ==> post.valid(v),
        post.kept(v),
        post.first(v) == pre.first(v),
        post.rest(v) == pre.rest(v),
        post.printed(v) == pre.printed(v),
{
    assert(post.cells.dom().finite()) by {
        assert forall|k: usize| post.cells.dom().contains(k) implies pre.cells.dom().contains(k) by {
            assert(post.live(k));
            assert(pre.live(k));
        }
        vstd::set_lib::lemma_len_subset(post.cells.dom(), pre.cells.dom());
    }
    pre.lemma_collected_wf(post);
    match v {
        Expr::Pair(k) => {
            assert(refers(v, k.0));
        },
        Expr::Closure(k) => {
            assert(refers(v, k.0));
        },
        _ => {},
    }
    lemma_collected_kept(pre, post, v);
    pre.lemma_collected_render(post, v, pre.size());
    pre.lemma_collected_render(post, v, post.size());
    pre.lemma_render_error(v, pre.size());
    post.lemma_render_error(v, post.size());
    if pre.printed(v) is Ok {
        post.lemma_render_canonical(v, pre.size());
    } else if post.printed(v) is Ok {
        pre.lemma_render_canonical(v, post.size());
    }
}

/// What was kept before a collection is kept after it.
pub proof fn lemma_collected_kept(pre: Store, post: Store, v: Expr)
    requires
        pre.wf(),
        pre.collected(post),
        pre.kept(v),
    ensures
        post.kept(v),
{
    assert forall|k: usize| refers(v, k) implies post.live(k) && post.reachable(k) by {
        let root = if pre.reaches(pre.symbols, k) {
            pre.symbols
        } else {
            pre.root_env
        };
        let p = choose|p: Seq<usize>| #[trigger] pre.leads(root, p, k);
        assert forall|i: int| 0 <= i < p.len() implies post.live(#[trigger] p[i]) by {
            lemma_walk_reaches(pre, root, p, i);
        }
        assert forall|i: int| 0 <= i < p.len() - 1 implies post.child(#[trigger] p[i], p[i + 1]) by {
            assert(pre.child(p[i], p[i + 1]));
            assert(post.live(p[i]));
        }
        assert(post.leads(root, p, k));
    }
}

/// Every cell on a way from a root can be reached, and is live in a
/// well-formed store.
pub proof fn lemma_walk_reaches(st: Store, root: Expr, p: Seq<usize>, i: int)
    requires
        st.wf(),
        root == st.symbols || root == st.root_env,
        st.walk(p),
        p.len() > 0,
        refers(root, p[0]),
        0 <= i < p.len(),
    ensures
        st.reaches(root, p[i]),
        st.live(p[i]),
    decreases i,
{
    st.lemma_children_live();
    if i == 0 {
        st.lemma_reach_root(root, p[0]);
        if root == st.symbols {
            if st.names.len() > 0 {
                assert(st.symbol_cell_ok(0));
            }
        }
    } else {
        lemma_walk_reaches(st, root, p, i - 1);
        assert(st.child(p[i - 1], p[i]));
        st.lemma_reach_step(root, p[i - 1], p[i]);
    }
}

} // verus!
