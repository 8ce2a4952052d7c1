//! The heap: an arena of cons cells with stable keys, the table of interned
//! names and the two roots.

use vstd::prelude::*;
use vstd::string::StringExecFns;
use slab::Slab;
use crate::arena::{
    marked_keys, slab_cells, slab_get, slab_get_mut, slab_insert, slab_keys, slab_len, slab_new, slab_retain_marked,
};
use crate::expr::{ConsCell, ConsCellKey, Expr, Native, SError, SResult};
use crate::gc::refers;
use crate::store::{fold_case, link, Form, Store};
use crate::text::fold;
use crate::primitive::add_primitives;

verus! {

/// The heap of an interpreter. Its state is seen through its view, a
/// `Store`.
pub struct Heap {
    symbols: Expr,
    root_env: Expr,
    cells: Slab<ConsCell>,
    names: Vec<String>,
    symbol_cells: Ghost<Seq<usize>>,
    kw_quote: usize,
    kw_define: usize,
    kw_if: usize,
    kw_lambda: usize,
}

impl View for Heap {
    type V = Store;

    closed spec fn view(&self) -> Store {
        Store {
            cells: slab_cells(self.cells),
            names: Seq::new(self.names@.len(), |i: int| self.names@[i]@),
            symbol_cells: self.symbol_cells@,
            symbols: self.symbols,
            root_env: self.root_env,
            kw_quote: self.kw_quote,
            kw_define: self.kw_define,
            kw_if: self.kw_if,
            kw_lambda: self.kw_lambda,
        }
    }
}

impl Heap {
    /// A heap whose root environment binds every primitive to its name, and
    /// nothing else.
    pub fn new() -> (h: Heap)
        ensures
            h@.wf(),
            h@.frame_wf(h@.root_env),
            h@.first(h@.root_env) is Nil,
            forall|f: Native| #[trigger] h@.binds_native(f),
            h@.binds_only_natives(),
            h@.tidy(),
    {
        let mut h = Heap {
            symbols: Expr::Nil,
            root_env: Expr::Nil,
            cells: slab_new(),
            names: Vec::new(),
            symbol_cells: Ghost(Seq::empty()),
            kw_quote: 0,
            kw_define: 0,
            kw_if: 0,
            kw_lambda: 0,
        };
        assert(h@.cells.dom() =~= Set::empty());
        assert forall|k: usize| #[trigger] h@.closed_at(k) by {}
        let ghost s0 = h@;
        let quote = h.intern("QUOTE");
        let ghost s1 = h@;
        let define = h.intern("DEFINE");
        let ghost s2 = h@;
        let cond = h.intern("IF");
        let ghost s3 = h@;
        let lambda = h.intern("LAMBDA");
        proof {
            s0.lemma_interned_tidy(s1, "QUOTE"@, Expr::Symbol(quote));
            s1.lemma_interned_tidy(s2, "DEFINE"@, Expr::Symbol(define));
            s2.lemma_interned_tidy(s3, "IF"@, Expr::Symbol(cond));
            s3.lemma_interned_tidy(h@, "LAMBDA"@, Expr::Symbol(lambda));
        }
        proof {
            reveal_strlit("QUOTE");
            reveal_strlit("DEFINE");
            reveal_strlit("IF");
            reveal_strlit("LAMBDA");
            assert(fold_case("QUOTE"@) =~= "QUOTE"@);
            assert(fold_case("DEFINE"@) =~= "DEFINE"@);
            assert(fold_case("IF"@) =~= "IF"@);
            assert(fold_case("LAMBDA"@) =~= "LAMBDA"@);
        }
        let ghost interned = h@;
        let key = slab_insert(&mut h.cells, (Expr::Nil, Expr::Nil, false));
        h.root_env = Expr::Pair(ConsCellKey(key));
        h.kw_quote = quote;
        h.kw_define = define;
        h.kw_if = cond;
        h.kw_lambda = lambda;
        proof {
            let st = h@;
            interned.lemma_symbol_cells_live();
            assert forall|i: int| 0 <= i < st.names.len() implies #[trigger] st.symbol_cell_ok(i) by {
                assert(interned.symbol_cell_ok(i));
            }
            assert forall|k: usize| #[trigger] st.closed_at(k) by {
                assert(interned.closed_at(k));
            }
            assert(st.cells.dom().contains(key));
            assert(st.size() > 0) by {
                if st.cells.dom().len() == 0 {
                    assert(st.cells.dom() =~= Set::empty());
                }
            }
            assert(st.elems(Expr::Nil) =~= Seq::<Expr>::empty());
            assert(st.cells_upto(Expr::Nil, st.size()) =~= Seq::<usize>::empty());
            st.lemma_reach_root(st.root_env, key);
            assert forall|j: usize| refers(interned.symbols, j) || refers(interned.root_env, j) implies st.reachable(
                j,
            ) by {
                st.lemma_reach_root(st.symbols, j);
            }
            assert forall|a: usize, b: usize| #[trigger] interned.child(a, b) && st.reachable(a) implies st.reachable(
                b,
            ) by {
                assert(st.cells[a] == interned.cells[a]);
                assert(st.child(a, b));
                st.lemma_reachable_step(a, b);
            }
            interned.lemma_reach_transfer(st);
            assert forall|x: usize| #[trigger] st.live(x) implies st.reachable(x) by {
                if x != key {
                    assert(interned.live(x));
                }
            }
            assert forall|s: Expr| !((#[trigger] st.own_value(st.root_env, s)) is Some) by {}
        }
        add_primitives(&mut h);
        h
    }

    /// Head of the symbol list, one of the two roots.
    pub fn symbols(&self) -> (r: Expr)
        ensures
            r == self@.symbols,
            self@.wf() ==> self@.known(r),
    {
        proof {
            if self@.wf() && self@.names.len() > 0 {
                assert(self@.symbol_cell_ok(0));
            }
        }
        self.symbols
    }

    /// The root environment, the other root.
    pub fn root_env(&self) -> (r: Expr)
        ensures
            r == self@.root_env,
            self@.wf() ==> self@.valid(r),
    {
        self.root_env
    }

    /// The number of live cells.
    pub fn len(&self) -> (n: usize)
        ensures
            n == self@.size(),
    {
        slab_len(&self.cells)
    }

    /// Both halves of the cell of a pair.
    pub fn get_first_rest(&self, expr: &Expr) -> (r: SResult<(Expr, Expr)>)
        requires
            self@.has(*expr),
        ensures
            r == (if *expr is Pair {
                Ok((self@.first(*expr), self@.rest(*expr)))
            } else {
                Err(SError::ImproperList)
            }),
            self@.wf() && self@.known(*expr) ==> self@.known(self@.first(*expr)) && self@.known(self@.rest(*expr)),
            self@.wf() && self@.valid(*expr) ==> self@.valid(self@.first(*expr)) && self@.valid(
                self@.rest(*expr),
            ),
    {
        proof {
            if self@.wf() && self@.known(*expr) {
                self@.lemma_halves_known(*expr);
            }
        }
        if let Expr::Pair(k) = expr {
            let cell = slab_get(&self.cells, k.0).unwrap();
            Ok((cell.0, cell.1))
        } else {
            Err(SError::ImproperList)
        }
    }

    /// First half of the cell of a pair.
    pub fn get_first(&self, expr: &Expr) -> (r: SResult<Expr>)
        requires
            self@.has(*expr),
        ensures
            r == (if *expr is Pair {
                Ok(self@.first(*expr))
            } else {
                Err(SError::ImproperList)
            }),
            self@.wf() && self@.known(*expr) ==> self@.known(self@.first(*expr)),
            self@.wf() && self@.valid(*expr) ==> self@.valid(self@.first(*expr)),
    {
        proof {
            if self@.wf() && self@.known(*expr) {
                self@.lemma_halves_known(*expr);
            }
        }
        if let Expr::Pair(k) = expr {
            Ok(slab_get(&self.cells, k.0).unwrap().0)
        } else {
            Err(SError::ImproperList)
        }
    }

    /// Second half of the cell of a pair.
    pub fn get_rest(&self, expr: &Expr) -> (r: SResult<Expr>)
        requires
            self@.has(*expr),
        ensures
            r == (if *expr is Pair {
                Ok(self@.rest(*expr))
            } else {
                Err(SError::ImproperList)
            }),
            self@.wf() && self@.known(*expr) ==> self@.known(self@.rest(*expr)),
            self@.wf() && self@.valid(*expr) ==> self@.valid(self@.rest(*expr)),
    {
        proof {
            if self@.wf() && self@.known(*expr) {
                self@.lemma_halves_known(*expr);
            }
        }
        if let Expr::Pair(k) = expr {
            Ok(slab_get(&self.cells, k.0).unwrap().1)
        } else {
            Err(SError::ImproperList)
        }
    }

    /// Replaces the first half of the cell of a pair.
    pub fn set_first(&mut self, expr: &Expr, v: Expr) -> (r: SResult<()>)
        requires
            old(self)@.wf(),
            old(self)@.valid(*expr),
            old(self)@.valid(v),
        ensures
            final(self)@.wf(),
            old(self)@.grows_to(final(self)@),
            match *expr {
                Expr::Pair(k) => r is Ok && final(self)@ == old(self)@.with_first(k.0, v),
                _ => r == Err::<(), SError>(SError::ImproperList) && final(self)@ == old(self)@,
            },
    {
        if let Expr::Pair(k) = expr {
            let cell = slab_get_mut(&mut self.cells, k.0);
            cell.0 = v;
            assert(self@ == old(self)@.with_first(k.0, v));
            proof {
                old(self)@.lemma_with_first_wf(k.0, v);
            }
            Ok(())
        } else {
            Err(SError::ImproperList)
        }
    }

    /// Replaces the second half of the cell of a pair.
    pub fn set_rest(&mut self, expr: &Expr, v: Expr) -> (r: SResult<()>)
        requires
            old(self)@.wf(),
            old(self)@.valid(*expr),
            old(self)@.valid(v),
        ensures
            final(self)@.wf(),
            old(self)@.grows_to(final(self)@),
            match *expr {
                Expr::Pair(k) => r is Ok && final(self)@ == old(self)@.with_rest(k.0, v),
                _ => r == Err::<(), SError>(SError::ImproperList) && final(self)@ == old(self)@,
            },
    {
        if let Expr::Pair(k) = expr {
            let cell = slab_get_mut(&mut self.cells, k.0);
            cell.1 = v;
            assert(self@ == old(self)@.with_rest(k.0, v));
            proof {
                old(self)@.lemma_with_rest_wf(k.0, v);
            }
            Ok(())
        } else {
            Err(SError::ImproperList)
        }
    }

    /// Allocates a cell and returns the pair that refers to it.
    pub fn make_cons(&mut self, first: Expr, rest: Expr) -> (r: SResult<Expr>)
        requires
            old(self)@.wf(),
            old(self)@.valid(first),
            old(self)@.valid(rest),
        ensures
            final(self)@.wf(),
            old(self)@.grows_to(final(self)@),
            r matches Ok(Expr::Pair(k)) && !old(self)@.live(k.0) && final(self)@ == old(self)@.with_cell(
                k.0,
                first,
                rest,
            ),
            final(self)@.valid(r->Ok_0),
            old(self)@.extends_to(final(self)@),
    {
        let key = slab_insert(&mut self.cells, (first, rest, false));
        assert(self@ == old(self)@.with_cell(key, first, rest));
        proof {
            old(self)@.lemma_with_cell_wf(key, first, rest);
            old(self)@.lemma_with_cell_extends(key, first, rest);
        }
        Ok(Expr::Pair(ConsCellKey(key)))
    }

    /// The elements of the list at `list`, and the value at which it ends.
    pub fn spine(&self, list: &Expr) -> (r: (Vec<Expr>, Expr))
        requires
            self@.wf(),
            self@.known(*list),
        ensures
            r.0@ == self@.elems(*list),
            r.1 == self@.tail(*list),
            forall|i: int| 0 <= i < r.0@.len() ==> self@.known(#[trigger] r.0@[i]),
            self@.known(r.1),
            self@.valid(*list) ==> self@.valid(r.1) && forall|i: int|
                0 <= i < r.0@.len() ==> self@.valid(#[trigger] r.0@[i]),
    {
        let mut out: Vec<Expr> = Vec::new();
        let mut cur = *list;
        let mut fuel = self.len();
        while fuel > 0 && cur.is_pair()
            invariant
                self@.wf(),
                self@.known(cur),
                self@.elems(*list) == out@ + self@.elems_upto(cur, fuel as nat),
                self@.tail(*list) == self@.tail_upto(cur, fuel as nat),
                forall|i: int| 0 <= i < out@.len() ==> self@.known(#[trigger] out@[i]),
                self@.valid(*list) ==> self@.valid(cur) && forall|i: int|
                    0 <= i < out@.len() ==> self@.valid(#[trigger] out@[i]),
            decreases fuel,
        {
            let ghost before = out@;
            let ghost more = self@.elems_upto(self@.rest(cur), (fuel - 1) as nat);
            let cell = self.get_first_rest(&cur).unwrap();
            out.push(cell.0);
            assert(before + (seq![cell.0] + more) =~= out@ + more);
            cur = cell.1;
            fuel = fuel - 1;
        }
        assert(out@ + Seq::<Expr>::empty() =~= out@);
        (out, cur)
    }

    /// Whether `expr` is `Nil` or a chain of pairs that ends in `Nil`.
    pub fn is_proper_list(&self, expr: &Expr) -> (r: SResult<bool>)
        requires
            self@.wf(),
            self@.known(*expr),
        ensures
            r == Ok::<bool, SError>(self@.is_list(*expr)),
    {
        let mut cur = *expr;
        let mut fuel = self.len();
        while fuel > 0 && cur.is_pair()
            invariant
                self@.wf(),
                self@.known(cur),
                self@.tail(*expr) == self@.tail_upto(cur, fuel as nat),
            decreases fuel,
        {
            let cell = self.get_first_rest(&cur).unwrap();
            cur = cell.1;
            fuel = fuel - 1;
        }
        Ok(cur.is_nil())
    }

    /// Whether the list at `expr` has exactly `n` elements.
    pub fn test_length(&self, expr: &Expr, n: usize) -> (r: SResult<bool>)
        requires
            self@.wf(),
            self@.known(*expr),
        ensures
            r == self@.length_is(*expr, n as nat),
    {
        let mut cur = *expr;
        let mut left = n;
        loop
            invariant
                self@.wf(),
                self@.known(cur),
                self@.length_is(*expr, n as nat) == self@.length_is(cur, left as nat),
            decreases left,
        {
            if cur.is_nil() {
                return Ok(left == 0);
            } else if left == 0 {
                return Ok(false);
            }
            match self.get_rest(&cur) {
                Err(e) => {
                    return Err(e);
                },
                Ok(rest) => {
                    cur = rest;
                    left = left - 1;
                },
            }
        }
    }

    /// Whether the list at `expr` has at least `n` elements.
    pub fn test_min_length(&self, expr: &Expr, n: usize) -> (r: SResult<bool>)
        requires
            self@.wf(),
            self@.known(*expr),
        ensures
            r == self@.at_least(*expr, n as nat),
    {
        let mut cur = *expr;
        let mut left = n;
        loop
            invariant
                self@.wf(),
                self@.known(cur),
                self@.at_least(*expr, n as nat) == self@.at_least(cur, left as nat),
            decreases left,
        {
            if left == 0 {
                return Ok(true);
            } else if cur.is_nil() {
                return Ok(false);
            }
            match self.get_rest(&cur) {
                Err(e) => {
                    return Err(e);
                },
                Ok(rest) => {
                    cur = rest;
                    left = left - 1;
                },
            }
        }
    }

    /// The name of the symbol with the given id.
    pub fn symbol_name(&self, id: usize) -> (r: &str)
        requires
            id < self@.names.len(),
        ensures
            r@ == self@.names[id as int],
    {
        self.names[id].as_str()
    }

    /// Whether the value is the symbol with exactly this name.
    pub fn is_specific_symbol(&self, expr: &Expr, name: &str) -> (r: bool)
        requires
            self@.known(*expr),
        ensures
            r == (*expr is Symbol && self@.names[expr->Symbol_0 as int] == name@),
    {
        match expr {
            Expr::Symbol(id) => {
                let wanted = String::from_str(name);
                self.names[*id] == wanted
            },
            _ => false,
        }
    }

    /// The symbol `QUOTE`.
    pub fn quote_symbol(&self) -> (r: Expr)
        ensures
            r == Expr::Symbol(self@.kw_quote),
    {
        Expr::Symbol(self.kw_quote)
    }

    /// The special form that the head of a list selects, if any.
    pub fn form_of(&self, head: &Expr) -> (r: Option<Form>)
        ensures
            r == self@.form_of(*head),
    {
        match head {
            Expr::Symbol(id) => {
                if *id == self.kw_quote {
                    Some(Form::Quote)
                } else if *id == self.kw_define {
                    Some(Form::Define)
                } else if *id == self.kw_if {
                    Some(Form::If)
                } else if *id == self.kw_lambda {
                    Some(Form::Lambda)
                } else {
                    None
                }
            },
            _ => None,
        }
    }

    /// The environment that a closure captured.
    pub fn get_lambda_env(&self, expr: &Expr) -> (r: SResult<Expr>)
        requires
            self@.has(*expr),
        ensures
            r == (if *expr is Closure {
                Ok(self@.first(*expr))
            } else {
                Err(SError::ImproperLambda)
            }),
    {
        if let Expr::Closure(k) = expr {
            Ok(slab_get(&self.cells, k.0).unwrap().0)
        } else {
            Err(SError::ImproperLambda)
        }
    }

    /// The parameter list of a closure.
    pub fn get_lambda_args(&self, expr: &Expr) -> (r: SResult<Expr>)
        requires
            self@.wf(),
            self@.known(*expr),
        ensures
            r == (if !(*expr is Closure) {
                Err(SError::ImproperLambda)
            } else if self@.rest(*expr) is Pair {
                Ok(self@.first(self@.rest(*expr)))
            } else {
                Err(SError::ImproperList)
            }),
            r matches Ok(v) ==> self@.known(v) && (self@.valid(*expr) ==> self@.valid(v)),
    {
        proof {
            self@.lemma_halves_known(*expr);
            self@.lemma_halves_known(self@.rest(*expr));
        }
        if let Expr::Closure(k) = expr {
            let rest = slab_get(&self.cells, k.0).unwrap().1;
            self.get_first(&rest)
        } else {
            Err(SError::ImproperLambda)
        }
    }

    /// The body forms of a closure.
    pub fn get_lambda_body(&self, expr: &Expr) -> (r: SResult<Expr>)
        requires
            self@.wf(),
            self@.known(*expr),
        ensures
            r == (if !(*expr is Closure) {
                Err(SError::ImproperLambda)
            } else if self@.rest(*expr) is Pair {
                Ok(self@.rest(self@.rest(*expr)))
            } else {
                Err(SError::ImproperList)
            }),
            r matches Ok(v) ==> self@.known(v) && (self@.valid(*expr) ==> self@.valid(v)),
    {
        proof {
            self@.lemma_halves_known(*expr);
            self@.lemma_halves_known(self@.rest(*expr));
        }
        if let Expr::Closure(k) = expr {
            let rest = slab_get(&self.cells, k.0).unwrap().1;
            self.get_rest(&rest)
        } else {
            Err(SError::ImproperLambda)
        }
    }

    /// Interns a name: the symbol of its upper-case form, the same for every
    /// spelling of it.
    pub fn make_symbol(&mut self, name: &str) -> (r: SResult<Expr>)
        requires
            old(self)@.wf(),
        ensures
            final(self)@.wf(),
            r matches Ok(sym) && old(self)@.interned(final(self)@, name@, sym),
            r matches Ok(Expr::Symbol(id)) && final(self)@.names_id(id, fold_case(name@)),
            r == Ok::<Expr, SError>(old(self)@.symbol_of(name@)),
            final(self)@.valid(r->Ok_0),
            old(self)@.extends_to(final(self)@),
    {
        let id = self.intern(name);
        proof {
            old(self)@.lemma_symbol_cells_live();
            assert forall|k: usize| #[trigger] old(self)@.user_cell(k) implies self@.user_cell(k) && self@.cells[k]
                == old(self)@.cells[k] by {
                if self@.symbol_cells.contains(k) && self@ != old(self)@ {
                    let j = choose|j: int| 0 <= j < self@.symbol_cells.len() && self@.symbol_cells[j] == k;
                    if j > 0 {
                        assert(old(self)@.symbol_cells[j - 1] == k);
                    }
                }
            }
        }
        Ok(Expr::Symbol(id))
    }

    /// The id of a name, which is put in the table if it is not there.
    fn intern(&mut self, name: &str) -> (id: usize)
        requires
            old(self)@.base_wf(),
        ensures
            final(self)@.base_wf(),
            old(self)@.interned(final(self)@, name@, Expr::Symbol(id)),
            final(self)@.names_id(id, fold_case(name@)),
            id == old(self)@.id_of(name@),
            forall|j: usize, s: Seq<char>| old(self)@.names_id(j, s) ==> #[trigger] final(self)@.names_id(j, s),
    {
        let folded = fold(name);
        let n = self.names.len();
        proof {
            if self@.names.contains(folded@) {
                assert(self@.names[self@.names.index_of(folded@)] == folded@);
            }
        }
        let mut s = self.symbols;
        let mut i: usize = 0;
        while !s.is_nil()
            invariant
                self@ == old(self)@,
                self@.base_wf(),
                n == self@.names.len(),
                i <= n,
                folded@ == fold_case(name@),
                s == (if i < n {
                    Expr::Pair(ConsCellKey(self@.symbol_cells[i as int]))
                } else {
                    Expr::Nil
                }),
                forall|j: int| n - i <= j < n ==> self@.names[j] != folded@,
            decreases n - i,
        {
            assert(self@.symbol_cell_ok(i as int));
            let cell = self.get_first_rest(&s).unwrap();
            if let Expr::Symbol(id) = cell.0 {
                if self.names[id] == folded {
                    assert(self@.names[id as int] == folded@);
                    assert(self@.names.contains(folded@));
                    assert(self@.names[self@.names.index_of(folded@)] == folded@);
                    return id;
                }
            }
            s = cell.1;
            i = i + 1;
        }
        assert(!self@.names.contains(folded@));
        let sym = Expr::Symbol(n);
        let key = slab_insert(&mut self.cells, (sym, self.symbols, false));
        self.names.push(folded);
        self.symbols = Expr::Pair(ConsCellKey(key));
        self.symbol_cells = Ghost(seq![key] + self.symbol_cells@);
        proof {
            let pre = old(self)@;
            let post = self@;
            assert(post.names =~= pre.names.push(fold_case(name@)));
            assert(self.names.len() == self.names@.len());
            lemma_fold_case_twice(name@);
            assert(post.names_wf());
            assert forall|j: int| 0 <= j < post.names.len() implies #[trigger] post.symbol_cell_ok(j) by {
                if j > 0 {
                    assert(pre.symbol_cell_ok(j - 1));
                } else if pre.names.len() > 0 {
                    assert(pre.symbol_cell_ok(0));
                }
            }
            assert forall|j: int| 0 <= j < pre.symbol_cells.len() implies #[trigger] pre.symbol_cells[j] != key by {
                assert(pre.symbol_cell_ok(j));
            }
            assert(post.symbols_wf());
            pre.lemma_symbol_cells_live();
            assert forall|k: usize| #[trigger] post.closed_at(k) by {
                assert(pre.closed_at(k));
                if post.user_cell(k) {
                    assert(k != key);
                    assert(!pre.symbol_cells.contains(k)) by {
                        if pre.symbol_cells.contains(k) {
                            let j = choose|j: int| 0 <= j < pre.symbol_cells.len() && pre.symbol_cells[j] == k;
                            assert(post.symbol_cells[j + 1] == k);
                        }
                    }
                }
            }
        }
        n
    }

    /// Makes a closure over `env` with the given parameter list and body.
    pub fn make_closure(&mut self, env: Expr, arg_list: Expr, body: Expr) -> (r: SResult<Expr>)
        requires
            old(self)@.wf(),
            old(self)@.valid(env),
            old(self)@.valid(arg_list),
            old(self)@.valid(body),
        ensures
            final(self)@.wf(),
            old(self)@.grows_to(final(self)@),
            r matches Ok(c) ==> final(self)@.valid(c),
            match old(self)@.params_check(arg_list) {
                Err(e) => r == Err::<Expr, SError>(e) && final(self)@ == old(self)@,
                Ok(_) => r matches Ok(c) && old(self)@.closure_made(final(self)@, env, arg_list, body, c),
            },
    {
        let (params, tail) = self.spine(&arg_list);
        let mut i: usize = 0;
        while i < params.len()
            invariant
                self@ == old(self)@,
                self@.wf(),
                params@ == self@.elems(arg_list),
                i <= params.len(),
                forall|j: int| 0 <= j < i ==> #[trigger] params@[j] is Symbol,
            decreases params.len() - i,
        {
            if !params[i].is_symbol() {
                return Err(SError::ImproperSymbol);
            }
            i = i + 1;
        }
        if !tail.is_nil() {
            return Err(SError::ImproperList);
        }
        let inner = slab_insert(&mut self.cells, (arg_list, body, false));
        let outer = slab_insert(&mut self.cells, (env, Expr::Pair(ConsCellKey(inner)), false));
        let c = Expr::Closure(ConsCellKey(outer));
        proof {
            let pre = old(self)@;
            let mid = pre.with_cell(inner, arg_list, body);
            assert(self@ == mid.with_cell(outer, env, Expr::Pair(ConsCellKey(inner))));
            pre.lemma_with_cell_wf(inner, arg_list, body);
            mid.lemma_with_cell_wf(outer, env, Expr::Pair(ConsCellKey(inner)));
        }
        Ok(c)
    }

    /// Makes an empty frame whose parent is `parent`.
    pub fn make_env(&mut self, parent: &Expr) -> (r: SResult<Expr>)
        requires
            old(self)@.wf(),
            old(self)@.valid(*parent),
        ensures
            final(self)@.wf(),
            old(self)@.grows_to(final(self)@),
            r matches Ok(Expr::Pair(k)) && !old(self)@.live(k.0) && final(self)@ == old(self)@.with_cell(
                k.0,
                *parent,
                Expr::Nil,
            ),
            final(self)@.valid(r->Ok_0),
    {
        self.make_cons(*parent, Expr::Nil)
    }

    /// The first binding of `name` in the list `bindings`, and the value at
    /// which that list ends.
    fn scan_frame(&self, bindings: &Expr, name: &Expr) -> (r: (Option<Expr>, Expr))
        requires
            self@.wf(),
            self@.known(*bindings),
        ensures
            r.0 == self@.find_binding(self@.elems(*bindings), *name, 0),
            r.1 == self@.tail(*bindings),
            r.0 matches Some(b) ==> b is Pair && self@.known(b) && (self@.valid(*bindings) ==> self@.valid(b)),
    {
        let (elems, tail) = self.spine(bindings);
        let mut i: usize = 0;
        while i < elems.len()
            invariant
                self@.wf(),
                i <= elems.len(),
                elems@ == self@.elems(*bindings),
                tail == self@.tail(*bindings),
                forall|j: int| 0 <= j < elems@.len() ==> self@.known(#[trigger] elems@[j]),
                self@.valid(*bindings) ==> forall|j: int| 0 <= j < elems@.len() ==> self@.valid(#[trigger] elems@[j]),
                self@.find_binding(elems@, *name, 0) == self@.find_binding(elems@, *name, i as int),
            decreases elems.len() - i,
        {
            let b = elems[i];
            if b.is_pair() {
                let key = self.get_first(&b).unwrap();
                if key == *name {
                    return (Some(b), tail);
                }
            }
            i = i + 1;
        }
        (None, tail)
    }

    /// The value of `name` in the environment `env`.
    pub fn env_get(&self, env: &Expr, name: &Expr) -> (r: SResult<Expr>)
        requires
            self@.wf(),
            self@.known(*env),
        ensures
            r == self@.lookup(*env, *name),
            r matches Ok(v) ==> self@.known(v) && (self@.valid(*env) ==> self@.valid(v)),
    {
        let mut frame = *env;
        let mut fuel = self.len();
        loop
            invariant
                self@.wf(),
                self@.known(frame),
                self@.valid(*env) ==> self@.valid(frame),
                self@.lookup(*env, *name) == self@.lookup_upto(frame, *name, fuel as nat),
            decreases fuel,
        {
            if !frame.is_pair() {
                return Err(SError::ImproperEnvironment);
            }
            let cell = self.get_first_rest(&frame).unwrap();
            if !name.is_symbol() {
                return Err(SError::ImproperSymbol);
            }
            if fuel == 0 {
                return Err(SError::ImproperEnvironment);
            }
            let (found, tail) = self.scan_frame(&cell.1, name);
            if let Some(b) = found {
                return self.get_rest(&b);
            }
            if !tail.is_nil() {
                return Err(SError::ImproperList);
            }
            if cell.0.is_nil() {
                return Err(SError::UnboundSymbol);
            } else if cell.0.is_pair() {
                frame = cell.0;
                fuel = fuel - 1;
            } else {
                return Err(SError::ImproperEnvironment);
            }
        }
    }

    /// Defines `name` as `val` in the frame `env`: replaces the value of the
    /// frame's binding of `name`, or adds a binding to the frame.
    pub fn env_set(&mut self, env: &Expr, name: &Expr, val: Expr) -> (r: SResult<()>)
        requires
            old(self)@.wf(),
            old(self)@.valid(*env),
            old(self)@.valid(*name),
            old(self)@.valid(val),
        ensures
            final(self)@.wf(),
            old(self)@.grows_to(final(self)@),
            old(self)@.defined(final(self)@, *env, *name, val, r),
    {
        let frame_key = match env {
            Expr::Pair(k) => k.0,
            _ => {
                return Err(SError::ImproperEnvironment);
            },
        };
        let cell = self.get_first_rest(env).unwrap();
        if !name.is_symbol() {
            return Err(SError::ImproperSymbol);
        }
        let (found, tail) = self.scan_frame(&cell.1, name);
        if let Some(b) = found {
            return self.set_rest(&b, val);
        }
        if !tail.is_nil() {
            return Err(SError::ImproperList);
        }
        let np = slab_insert(&mut self.cells, (*name, val, false));
        let nb = slab_insert(&mut self.cells, (Expr::Pair(ConsCellKey(np)), cell.1, false));
        let frame = slab_get_mut(&mut self.cells, frame_key);
        frame.1 = Expr::Pair(ConsCellKey(nb));
        proof {
            let pre = old(self)@;
            let s1 = pre.with_cell(np, *name, val);
            let s2 = s1.with_cell(nb, Expr::Pair(ConsCellKey(np)), pre.rest(*env));
            assert(self@ == s2.with_rest(frame_key, Expr::Pair(ConsCellKey(nb))));
            pre.lemma_with_cell_wf(np, *name, val);
            s1.lemma_with_cell_wf(nb, Expr::Pair(ConsCellKey(np)), pre.rest(*env));
            s2.lemma_with_rest_wf(frame_key, Expr::Pair(ConsCellKey(nb)));
        }
        Ok(())
    }

    /// Builds the list of the given values that ends in `tail`, from the back.
    pub fn make_list(&mut self, vals: &Vec<Expr>, tail: Expr) -> (list: Expr)
        requires
            old(self)@.wf(),
            old(self)@.valid(tail),
            forall|j: int| 0 <= j < vals@.len() ==> old(self)@.valid(#[trigger] vals@[j]),
        ensures
            final(self)@.wf(),
            old(self)@.grows_to(final(self)@),
            old(self)@.extends_to(final(self)@),
            old(self)@.built(vals@, tail, final(self)@, list),
            final(self)@.valid(list),
            !(tail is Pair) ==> final(self)@.elems(list) == vals@ && final(self)@.tail(list) == tail,
    {
        let ghost mid = self@;
        let ghost mut keys: Seq<usize> = Seq::empty();
        let mut acc = tail;
        let mut j: usize = vals.len();
        proof {
            mid.lemma_extends_trans(mid, mid);
        }
        while j > 0
            invariant
                j <= vals.len(),
                keys.len() == vals.len() - j,
                self@.wf(),
                mid.grows_to(self@),
                mid.extends_to(self@),
                self@.valid(acc),
                forall|t: int| 0 <= t < vals@.len() ==> self@.valid(#[trigger] vals@[t]),
                mid.fresh(keys),
                forall|t: int| 0 <= t < keys.len() ==> self@.live(#[trigger] keys[t]),
                self@ == mid.with_list(vals@, keys, keys.len(), tail),
                acc == link(keys, keys.len() - 1, tail),
            decreases j,
        {
            let ghost start = self@;
            let ghost used = keys;
            j = j - 1;
            let cell = self.make_cons(vals[j], acc).unwrap();
            proof {
                let k = cell->Pair_0.0;
                keys = used.push(k);
                mid.lemma_grows_trans(start, self@);
                start.lemma_with_cell_extends(k, vals@[j as int], acc);
                mid.lemma_extends_trans(start, self@);
                start.lemma_grows_valid(self@);
                mid.lemma_with_list_push(vals@, used, k, used.len(), tail);
                assert(link(keys, keys.len() - 2, tail) == link(used, used.len() - 1, tail));
                assert(!mid.live(k));
                assert forall|a: int, b: int| 0 <= a < keys.len() && 0 <= b < keys.len() && a != b implies keys[a]
                    != keys[b] by {
                    if a < used.len() {
                        assert(start.live(used[a]));
                    }
                    if b < used.len() {
                        assert(start.live(used[b]));
                    }
                }
                assert forall|t: int| 0 <= t < keys.len() implies self@.live(#[trigger] keys[t]) by {
                    if t < used.len() {
                        assert(start.live(used[t]));
                    }
                }
            }
            acc = cell;
        }
        proof {
            assert(mid.with_list(vals@, keys, vals@.len(), tail) == self@);
            if !(tail is Pair) {
                mid.lemma_built_list(vals@, tail, self@, acc);
            }
        }
        acc
    }

    /// The keys of the live cells, each once.
    pub fn keys(&self) -> (keys: Vec<usize>)
        ensures
            keys@.no_duplicates(),
            forall|k: usize| keys@.contains(k) <==> self@.live(k),
    {
        slab_keys(&self.cells)
    }

    /// The cell under a live key.
    pub(crate) fn cell(&self, key: usize) -> (c: ConsCell)
        requires
            self@.live(key),
        ensures
            c == self@.cells[key],
    {
        *slab_get(&self.cells, key).unwrap()
    }

    /// Sets the mark of the cell under a live key.
    pub(crate) fn set_mark(&mut self, key: usize, mark: bool)
        requires
            old(self)@.live(key),
        ensures
            final(self)@ == (Store {
                cells: old(self)@.cells.insert(key, (old(self)@.cells[key].0, old(self)@.cells[key].1, mark)),
                ..old(self)@
            }),
    {
        let cell = slab_get_mut(&mut self.cells, key);
        cell.2 = mark;
    }

    /// Removes every cell that does not carry the mark.
    pub(crate) fn sweep(&mut self)
        ensures
            final(self)@ == (Store { cells: old(self)@.cells.restrict(marked_keys(old(self)@.cells)), ..old(self)@ }),
    {
        slab_retain_marked(&mut self.cells);
    }

    /// Whether the value can be read in this heap.
    pub fn is_known(&self, v: &Expr) -> (r: bool)
        ensures
            r == self@.known(*v),
    {
        match v {
            Expr::Symbol(id) => *id < self.names.len(),
            Expr::Pair(k) => slab_get(&self.cells, k.0).is_some(),
            Expr::Closure(k) => slab_get(&self.cells, k.0).is_some(),
            _ => true,
        }
    }

    /// Whether the value can be used with this heap.
    pub fn is_valid(&self, v: &Expr) -> (r: bool)
        requires
            self@.wf(),
        ensures
            r == self@.valid(*v),
    {
        match v {
            Expr::Symbol(id) => *id < self.names.len(),
            Expr::Pair(k) => self.is_user_cell(k.0),
            Expr::Closure(k) => self.is_user_cell(k.0),
            _ => true,
        }
    }

    /// Whether the key is that of a live cell outside the symbol list.
    fn is_user_cell(&self, key: usize) -> (r: bool)
        requires
            self@.wf(),
        ensures
            r == self@.user_cell(key),
    {
        if slab_get(&self.cells, key).is_none() {
            return false;
        }
        let n = self.names.len();
        let mut s = self.symbols;
        let mut i: usize = 0;
        while !s.is_nil()
            invariant
                self@.wf(),
                n == self@.names.len(),
                i <= n,
                s == (if i < n {
                    Expr::Pair(ConsCellKey(self@.symbol_cells[i as int]))
                } else {
                    Expr::Nil
                }),
                forall|j: int| 0 <= j < i ==> self@.symbol_cells[j] != key,
            decreases n - i,
        {
            assert(self@.symbol_cell_ok(i as int));
            if let Expr::Pair(k) = s {
                if k.0 == key {
                    return false;
                }
            }
            s = self.get_rest(&s).unwrap();
            i = i + 1;
        }
        true
    }
}

/// Folding a folded name changes nothing.
pub proof fn lemma_fold_case_twice(name: Seq<char>)
    ensures
        fold_case(fold_case(name)) == fold_case(name),
{
    assert(fold_case(fold_case(name)) =~= fold_case(name));
}

} // verus!
