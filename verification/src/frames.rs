//! Frames of environments: what a definition does to what a frame binds.

use vstd::prelude::*;
use crate::expr::{Expr, SError, SResult};
use crate::store::Store;

verus! {

impl Store {
    /// The value that the frame `env` itself binds `name` to.
    pub open spec fn own_value(self, env: Expr, name: Expr) -> Option<Expr> {
        match self.own_binding(env, name) {
            Some(b) => Some(self.rest(b)),
            None => None,
        }
    }

    /// The element `e` of the bindings of `env` shares no cell with the frame
    /// or with the list of its bindings.
    pub open spec fn apart(self, env: Expr, chain: Seq<usize>, e: Expr) -> bool {
        e is Pair ==> self.has(e) && e->Pair_0.0 != env->Pair_0.0 && !chain.contains(e->Pair_0.0)
    }

    /// The frame `env` is sound: its bindings are a proper list, and neither
    /// the frame nor a binding is a cell of that list.
    pub open spec fn frame_wf(self, env: Expr) -> bool {
        let bindings = self.rest(env);
        let chain = self.cells_upto(bindings, self.size());
        &&& env is Pair
        &&& self.has(env)
        &&& self.tail(bindings) is Nil
        &&& !chain.contains(env->Pair_0.0)
        &&& forall|i: int| 0 <= i < self.elems(bindings).len() ==> self.apart(env, chain, #[trigger] self.elems(bindings)[i])
    }

    /// The cells of a chain that starts at a valid value lie outside the
    /// symbol list, and its elements are valid.
    pub proof fn lemma_chain_valid(self, v: Expr, fuel: nat)
        requires
            self.wf(),
            self.valid(v),
        ensures
            forall|i: int| 0 <= i < self.cells_upto(v, fuel).len() ==> self.user_cell(#[trigger] self.cells_upto(v, fuel)[i]),
            forall|i: int| 0 <= i < self.elems_upto(v, fuel).len() ==> self.valid(#[trigger] self.elems_upto(v, fuel)[i]),
            self.valid(self.tail_upto(v, fuel)),
        decreases fuel,
    {
        if fuel > 0 && v is Pair && self.has(v) {
            self.lemma_halves_valid(v);
            let next = self.rest(v);
            let less = (fuel - 1) as nat;
            self.lemma_chain_valid(next, less);
            let cells = self.cells_upto(v, fuel);
            let elems = self.elems_upto(v, fuel);
            assert forall|i: int| 0 <= i < cells.len() implies self.user_cell(#[trigger] cells[i]) by {
                if i > 0 {
                    assert(cells[i] == self.cells_upto(next, less)[i - 1]);
                }
            }
            assert forall|i: int| 0 <= i < elems.len() implies self.valid(#[trigger] elems[i]) by {
                if i > 0 {
                    assert(elems[i] == self.elems_upto(next, less)[i - 1]);
                }
            }
        }
    }

    /// The search for a binding looks only at the first halves of the
    /// elements.
    pub proof fn lemma_find_agree(self, other: Store, elems: Seq<Expr>, name: Expr, from: int)
        requires
            forall|i: int|
                from <= i < elems.len() && (#[trigger] elems[i]) is Pair ==> other.first(elems[i]) == self.first(
                    elems[i],
                ),
        ensures
            other.find_binding(elems, name, from) == self.find_binding(elems, name, from),
        decreases elems.len() - from,
    {
        if 0 <= from < elems.len() {
            self.lemma_find_agree(other, elems, name, from + 1);
        }
    }

    /// The search in a list with one more element in front.
    pub proof fn lemma_find_shift(self, e: Expr, elems: Seq<Expr>, name: Expr, from: int)
        requires
            0 <= from,
        ensures
            self.find_binding(seq![e] + elems, name, from + 1) == self.find_binding(elems, name, from),
        decreases elems.len() - from,
    {
        let more = seq![e] + elems;
        if from < elems.len() {
            assert(more[from + 1] == elems[from]);
            self.lemma_find_shift(e, elems, name, from + 1);
        }
    }

    /// What the search finds is an element that binds the name.
    pub proof fn lemma_find_found(self, elems: Seq<Expr>, name: Expr, from: int) -> (i: int)
        requires
            self.find_binding(elems, name, from) is Some,
        ensures
            from <= i < elems.len(),
            0 <= i,
            self.find_binding(elems, name, from) == Some(elems[i]),
            self.binds(elems[i], name),
        decreases elems.len() - from,
    {
        if self.binds(elems[from], name) {
            from
        } else {
            self.lemma_find_found(elems, name, from + 1)
        }
    }

    /// A definition in a sound frame succeeds, binds the name to the value
    /// in that frame, and leaves every other name of the frame as it was.
    pub proof fn lemma_defined(self, post: Store, env: Expr, name: Expr, val: Expr, r: SResult<()>)
        requires
            self.cells.dom().finite(),
            name is Symbol,
            self.frame_wf(env),
            self.defined(post, env, name, val, r),
        ensures
            r is Ok,
            post.frame_wf(env),
            post.own_value(env, name) == Some(val),
            forall|s: Expr| s != name ==> post.own_value(env, s) == self.own_value(env, s),
            post.first(env) == self.first(env),
    {
        let bindings = self.rest(env);
        let n = self.size();
        let chain = self.cells_upto(bindings, n);
        let elems = self.elems(bindings);
        let ek = env->Pair_0.0;
        self.lemma_chain_shape(bindings, n);
        match self.own_binding(env, name) {
            Some(b) => {
                let i = self.lemma_find_found(elems, name, 0);
                assert(self.apart(env, chain, elems[i]));
                let bk = b->Pair_0.0;
                assert(post.cells.dom() =~= self.cells.dom());
                assert forall|j: int| 0 <= j < chain.len() implies {
                    let k = #[trigger] chain[j];
                    post.live(k) && post.cells[k].0 == self.cells[k].0 && post.cells[k].1 == self.cells[k].1
                } by {
                    assert(chain.contains(chain[j]));
                }
                self.lemma_list_agree(post, bindings);
                self.lemma_find_agree(post, elems, name, 0);
                assert forall|s: Expr| s != name implies post.own_value(env, s) == self.own_value(env, s) by {
                    self.lemma_find_agree(post, elems, s, 0);
                    if self.own_binding(env, s) is Some {
                        let j = self.lemma_find_found(elems, s, 0);
                    }
                }
                assert forall|j: int| 0 <= j < post.elems(bindings).len() implies post.apart(
                    env,
                    chain,
                    #[trigger] post.elems(bindings)[j],
                ) by {
                    assert(self.apart(env, chain, elems[j]));
                }
            },
            None => {
                let nb = post.rest(env)->Pair_0.0;
                let np = post.first(post.rest(env))->Pair_0.0;
                let head = Expr::Pair(crate::expr::ConsCellKey(nb));
                let binding = Expr::Pair(crate::expr::ConsCellKey(np));
                assert(post.cells.dom() =~= self.cells.dom().insert(np).insert(nb));
                assert(post.cells[nb] == (binding, bindings, false));
                assert(post.cells[np] == (name, val, false));
                assert forall|j: int| 0 <= j < chain.len() implies {
                    let k = #[trigger] chain[j];
                    post.live(k) && post.cells[k].0 == self.cells[k].0 && post.cells[k].1 == self.cells[k].1
                } by {
                    assert(chain.contains(chain[j]));
                    assert(self.live(chain[j]));
                }
                self.lemma_chain_agree(post, bindings, n);
                assert(post.elems_upto(head, n + 1) == seq![binding] + elems);
                assert(post.cells_upto(head, n + 1) == seq![nb] + chain);
                assert(post.tail_upto(head, n + 1) is Nil);
                post.lemma_chain_canonical(head, n + 1);
                let more = seq![binding] + elems;
                let chain2 = seq![nb] + chain;
                assert(post.elems(head) == more);
                assert(more[0] == binding);
                assert(post.binds(binding, name));
                assert forall|j: int| 0 <= j < elems.len() && (#[trigger] elems[j]) is Pair implies post.first(
                    elems[j],
                ) == self.first(elems[j]) by {
                    assert(self.apart(env, chain, elems[j]));
                }
                assert forall|s: Expr| s != name implies post.own_value(env, s) == self.own_value(env, s) by {
                    self.lemma_find_shift(binding, elems, s, 0);
                    post.lemma_find_shift(binding, elems, s, 0);
                    self.lemma_find_agree(post, elems, s, 0);
                    if self.own_binding(env, s) is Some {
                        let j = self.lemma_find_found(elems, s, 0);
                        assert(self.apart(env, chain, elems[j]));
                    }
                }
                assert(!chain2.contains(ek)) by {
                    if chain2.contains(ek) {
                        let j = choose|j: int| 0 <= j < chain2.len() && chain2[j] == ek;
                        if j > 0 {
                            assert(chain[j - 1] == ek);
                        }
                    }
                }
                assert forall|j: int| 0 <= j < more.len() implies post.apart(env, chain2, #[trigger] more[j]) by {
                    let e = more[j];
                    if e is Pair {
                        let k = e->Pair_0.0;
                        if j > 0 {
                            assert(more[j] == elems[j - 1]);
                            assert(self.apart(env, chain, elems[j - 1]));
                        }
                        if chain2.contains(k) {
                            let x = choose|x: int| 0 <= x < chain2.len() && chain2[x] == k;
                            if x > 0 {
                                assert(chain[x - 1] == k);
                                assert(self.live(chain[x - 1]));
                            }
                        }
                    }
                }
            },
        }
    }

    /// An extension of the store keeps a sound frame sound, with the same
    /// bindings.
    pub proof fn lemma_frame_extends(self, post: Store, env: Expr)
        requires
            self.wf(),
            post.cells.dom().finite(),
            self.extends_to(post),
            self.valid(env),
            self.frame_wf(env),
        ensures
            post.frame_wf(env),
            post.first(env) == self.first(env),
            forall|s: Expr| post.own_value(env, s) == self.own_value(env, s),
    {
        let bindings = self.rest(env);
        let n = self.size();
        let chain = self.cells_upto(bindings, n);
        let elems = self.elems(bindings);
        let ek = env->Pair_0.0;
        assert(self.user_cell(ek));
        self.lemma_halves_valid(env);
        self.lemma_chain_valid(bindings, n);
        self.lemma_chain_shape(bindings, n);
        assert forall|j: int| 0 <= j < chain.len() implies {
            let k = #[trigger] chain[j];
            post.live(k) && post.cells[k].0 == self.cells[k].0 && post.cells[k].1 == self.cells[k].1
        } by {
            assert(self.user_cell(chain[j]));
        }
        self.lemma_list_agree(post, bindings);
        assert forall|j: int| 0 <= j < elems.len() && (#[trigger] elems[j]) is Pair implies post.first(elems[j])
            == self.first(elems[j]) by {
            assert(self.valid(elems[j]));
            assert(self.user_cell(elems[j]->Pair_0.0));
        }
        assert forall|s: Expr| post.own_value(env, s) == self.own_value(env, s) by {
            self.lemma_find_agree(post, elems, s, 0);
            if self.own_binding(env, s) is Some {
                let j = self.lemma_find_found(elems, s, 0);
                assert(self.valid(elems[j]));
                assert(self.user_cell(elems[j]->Pair_0.0));
            }
        }
        assert forall|j: int| 0 <= j < post.elems(bindings).len() implies post.apart(
            env,
            chain,
            #[trigger] post.elems(bindings)[j],
        ) by {
            assert(self.apart(env, chain, elems[j]));
            assert(self.valid(elems[j]));
            if elems[j] is Pair {
                assert(self.user_cell(elems[j]->Pair_0.0));
            }
        }
    }

    /// In a sound frame without a parent, a name has the value that the
    /// frame binds it to, and is unbound if the frame binds it to none.
    pub proof fn lemma_lookup_in_root(self, env: Expr, name: Expr)
        requires
            self.frame_wf(env),
            self.cells.dom().finite(),
            self.first(env) is Nil,
            name is Symbol,
        ensures
            self.lookup(env, name) == (match self.own_value(env, name) {
                Some(v) => Ok::<Expr, SError>(v),
                None => Err(SError::UnboundSymbol),
            }),
    {
        assert(self.cells.dom().contains(env->Pair_0.0));
        assert(self.size() > 0) by {
            if self.cells.dom().len() == 0 {
                assert(self.cells.dom() =~= Set::empty());
            }
        }
    }
}

impl Store {
    /// Looking `name` up from `env` through at most `fuel` frames comes to
    /// no end: there are more frames to look through.
    pub open spec fn runs_out(self, env: Expr, name: Expr, fuel: nat) -> bool
        decreases fuel,
    {
        &&& env is Pair
        &&& name is Symbol
        &&& fuel == 0 || {
            &&& self.own_binding(env, name) is None
            &&& self.tail(self.rest(env)) is Nil
            &&& self.first(env) is Pair
            &&& self.runs_out(self.first(env), name, (fuel - 1) as nat)
        }
    }

    /// `fuel` is the least number of frames with which the lookup comes to
    /// an end.
    pub open spec fn least_frames(self, env: Expr, name: Expr, fuel: nat) -> bool {
        !self.runs_out(env, name, fuel) && (fuel == 0 || self.runs_out(env, name, (fuel - 1) as nat))
    }

    /// A lookup that comes to an end gives the same with more frames.
    pub proof fn lemma_lookup_more_fuel(self, env: Expr, name: Expr, fuel: nat, more: nat)
        requires
            !self.runs_out(env, name, fuel),
            fuel <= more,
        ensures
            !self.runs_out(env, name, more),
            self.lookup_upto(env, name, more) == self.lookup_upto(env, name, fuel),
        decreases fuel,
    {
        if env is Pair && name is Symbol && fuel > 0 && self.own_binding(env, name) is None && self.tail(
            self.rest(env),
        ) is Nil && self.first(env) is Pair {
            self.lemma_lookup_more_fuel(self.first(env), name, (fuel - 1) as nat, (more - 1) as nat);
        }
    }

    /// A lookup that comes to an end has a least number of frames.
    pub proof fn lemma_least_frames_exists(self, env: Expr, name: Expr, fuel: nat) -> (least: nat)
        requires
            !self.runs_out(env, name, fuel),
        ensures
            least <= fuel,
            self.least_frames(env, name, least),
        decreases fuel,
    {
        if fuel > 0 && !self.runs_out(env, name, (fuel - 1) as nat) {
            self.lemma_least_frames_exists(env, name, (fuel - 1) as nat)
        } else {
            fuel
        }
    }

    /// The least number of frames of a lookup is one number.
    pub proof fn lemma_least_frames_unique(self, env: Expr, name: Expr, a: nat, b: nat)
        requires
            self.least_frames(env, name, a),
            self.least_frames(env, name, b),
        ensures
            a == b,
    {
        if a < b {
            self.lemma_lookup_more_fuel(env, name, a, (b - 1) as nat);
        }
        if b < a {
            self.lemma_lookup_more_fuel(env, name, b, (a - 1) as nat);
        }
    }

    /// A lookup whose least number of frames is `fuel` leads through as many
    /// live cells, no two of them the same.
    pub proof fn lemma_frame_chain(self, env: Expr, name: Expr, fuel: nat) -> (keys: Seq<usize>)
        requires
            self.wf(),
            self.known(env),
            self.least_frames(env, name, fuel),
        ensures
            keys.len() == fuel,
            forall|i: int| 0 <= i < keys.len() ==> self.live(#[trigger] keys[i]),
            forall|i: int|
                0 <= i < keys.len() ==> self.least_frames(
                    Expr::Pair(crate::expr::ConsCellKey(#[trigger] keys[i])),
                    name,
                    (fuel - i) as nat,
                ),
        decreases fuel,
    {
        if fuel == 0 {
            Seq::empty()
        } else {
            self.lemma_halves_known(env);
            let more = if fuel == 1 {
                Seq::empty()
            } else {
                self.lemma_frame_chain(self.first(env), name, (fuel - 1) as nat)
            };
            let keys = seq![env->Pair_0.0] + more;
            assert forall|i: int| 0 <= i < keys.len() implies self.live(#[trigger] keys[i]) && self.least_frames(
                Expr::Pair(crate::expr::ConsCellKey(keys[i])),
                name,
                (fuel - i) as nat,
            ) by {
                if i > 0 {
                    assert(keys[i] == more[i - 1]);
                }
            }
            keys
        }
    }

    /// A lookup that comes to an end with any number of frames is the lookup
    /// through as many frames as the heap has cells.
    pub proof fn lemma_lookup_canonical(self, env: Expr, name: Expr, fuel: nat)
        requires
            self.wf(),
            self.known(env),
            !self.runs_out(env, name, fuel),
        ensures
            self.lookup(env, name) == self.lookup_upto(env, name, fuel),
            !self.runs_out(env, name, self.size()),
    {
        let least = self.lemma_least_frames_exists(env, name, fuel);
        let keys = self.lemma_frame_chain(env, name, least);
        assert forall|i: int, j: int| 0 <= i < keys.len() && 0 <= j < keys.len() && i != j implies keys[i]
            != keys[j] by {
            if keys[i] == keys[j] {
                self.lemma_least_frames_unique(
                    Expr::Pair(crate::expr::ConsCellKey(keys[i])),
                    name,
                    (least - i) as nat,
                    (least - j) as nat,
                );
            }
        }
        keys.unique_seq_to_set();
        assert forall|k: usize| keys.to_set().contains(k) implies self.cells.dom().contains(k) by {
            let i = choose|i: int| 0 <= i < keys.len() && keys[i] == k;
            assert(self.live(keys[i]));
        }
        vstd::set_lib::lemma_len_subset(keys.to_set(), self.cells.dom());
        self.lemma_lookup_more_fuel(env, name, least, fuel);
        self.lemma_lookup_more_fuel(env, name, least, self.size());
    }
}

/// The value of a name is what a lookup gives that comes to an end, through
/// however many frames; where none comes to an end, the environments form
/// a cycle, and the lookup fails.
pub proof fn law_lookup_is_any_lookup(st: Store, env: Expr, name: Expr, fuel: nat)
    requires
        st.wf(),
        st.known(env),
    ensures
        !st.runs_out(env, name, fuel) ==> st.lookup(env, name) == st.lookup_upto(env, name, fuel),
        st.runs_out(env, name, st.size()) ==> st.runs_out(env, name, fuel) && st.lookup(env, name) == Err::<
            Expr,
            SError,
        >(SError::ImproperEnvironment),
{
    if !st.runs_out(env, name, fuel) {
        st.lemma_lookup_canonical(env, name, fuel);
    }
    if st.runs_out(env, name, st.size()) {
        lemma_runs_out_fails(st, env, name, st.size());
    }
}

/// A lookup that comes to no end fails.
pub proof fn lemma_runs_out_fails(st: Store, env: Expr, name: Expr, fuel: nat)
    requires
        st.runs_out(env, name, fuel),
    ensures
        st.lookup_upto(env, name, fuel) == Err::<Expr, SError>(SError::ImproperEnvironment),
    decreases fuel,
{
    if fuel > 0 {
        lemma_runs_out_fails(st, st.first(env), name, (fuel - 1) as nat);
    }
}

/// After a definition in a sound frame, the name has the value in that
/// frame, and every other name has the value that it had there.
pub proof fn law_define_then_lookup(pre: Store, post: Store, env: Expr, name: Expr, val: Expr, r: SResult<()>)
    requires
        pre.cells.dom().finite(),
        post.cells.dom().finite(),
        name is Symbol,
        pre.frame_wf(env),
        pre.defined(post, env, name, val, r),
    ensures
        r is Ok,
        post.lookup(env, name) == Ok::<Expr, SError>(val),
        forall|s: Expr| s != name ==> post.own_value(env, s) == pre.own_value(env, s),
{
    pre.lemma_defined(post, env, name, val, r);
    assert(post.cells.dom().contains(env->Pair_0.0));
    assert(post.size() > 0) by {
        if post.cells.dom().len() == 0 {
            assert(post.cells.dom() =~= Set::empty());
        }
    }
}

} // verus!
