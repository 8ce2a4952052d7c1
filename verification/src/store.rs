//! The mathematical model of a heap: its cells by key, the table of interned
//! names, and the two roots. Every contract of the interpreter is stated over
//! this model.

use vstd::prelude::*;
use crate::expr::{ConsCell, Expr, SError, SResult};

verus! {

/// The abstract state of a heap.
pub struct Store {
    /// The live cells, by key.
    pub cells: Map<usize, ConsCell>,
    /// The interned names; a symbol's id is its index here.
    pub names: Seq<Seq<char>>,
    /// The keys of the cells of the symbol list, head first.
    pub symbol_cells: Seq<usize>,
    /// Head of the symbol list.
    pub symbols: Expr,
    /// The root environment.
    pub root_env: Expr,
    /// The ids of the names of the four special forms.
    pub kw_quote: usize,
    pub kw_define: usize,
    pub kw_if: usize,
    pub kw_lambda: usize,
}

/// The special forms of the evaluator.
#[derive(Clone, Copy, Debug, PartialEq, Eq, Structural)]
pub enum Form {
    Quote,
    Define,
    If,
    Lambda,
}

/// The upper-case form of an ASCII lower-case letter; any other character is
/// unchanged.
pub open spec fn upper_char(c: char) -> char {
    if 'a' <= c && c <= 'z' {
        ((c as u8) - 32) as char
    } else {
        c
    }
}

/// A name with every ASCII lower-case letter replaced by its upper-case form.
pub open spec fn fold_case(name: Seq<char>) -> Seq<char> {
    Seq::new(name.len(), |i: int| upper_char(name[i]))
}

/// Cell `i` of a list that is built from the back: the pair of the cell
/// that was allocated as number `i`, or `tail` before the first.
pub open spec fn link(keys: Seq<usize>, i: int, tail: Expr) -> Expr {
    if 0 <= i < keys.len() {
        Expr::Pair(crate::expr::ConsCellKey(keys[i]))
    } else {
        tail
    }
}

impl Store {
    /// The key is that of a live cell.
    pub open spec fn live(self, k: usize) -> bool {
        self.cells.contains_key(k)
    }

    /// The key is that of a live cell outside the symbol list.
    pub open spec fn user_cell(self, k: usize) -> bool {
        self.cells.contains_key(k) && !self.symbol_cells.contains(k)
    }

    /// A compound value refers to a live cell.
    pub open spec fn has(self, v: Expr) -> bool {
        match v {
            Expr::Pair(k) => self.live(k.0),
            Expr::Closure(k) => self.live(k.0),
            _ => true,
        }
    }

    /// The value can be stored and used in this heap: a compound value refers
    /// to a live cell outside the symbol list, a symbol to an interned name.
    pub open spec fn valid(self, v: Expr) -> bool {
        match v {
            Expr::Pair(k) => self.user_cell(k.0),
            Expr::Closure(k) => self.user_cell(k.0),
            Expr::Symbol(id) => id < self.names.len(),
            _ => true,
        }
    }

    /// The value can be read in this heap: a compound value refers to a live
    /// cell, a symbol to an interned name. Every valid value is such a value,
    /// and so are the pairs of the symbol list.
    pub open spec fn known(self, v: Expr) -> bool {
        match v {
            Expr::Symbol(id) => id < self.names.len(),
            _ => self.has(v),
        }
    }

    /// First half of the cell that a pair or a closure refers to.
    pub open spec fn first(self, v: Expr) -> Expr {
        match v {
            Expr::Pair(k) => self.cells[k.0].0,
            Expr::Closure(k) => self.cells[k.0].0,
            _ => Expr::Nil,
        }
    }

    /// Second half of the cell that a pair or a closure refers to.
    pub open spec fn rest(self, v: Expr) -> Expr {
        match v {
            Expr::Pair(k) => self.cells[k.0].1,
            Expr::Closure(k) => self.cells[k.0].1,
            _ => Expr::Nil,
        }
    }

    /// Every name is in folded form and occurs once.
    pub open spec fn names_wf(self) -> bool {
        &&& self.names.len() <= usize::MAX
        &&& forall|i: int| 0 <= i < self.names.len() ==> fold_case(#[trigger] self.names[i]) == self.names[i]
        &&& forall|i: int, j: int|
            0 <= i < self.names.len() && 0 <= j < self.names.len() && self.names[i] == self.names[j]
                ==> i == j
    }

    /// The symbol list holds one cell for each interned name, the newest
    /// first, and ends in `Nil`.
    pub open spec fn symbols_wf(self) -> bool {
        let n = self.names.len();
        &&& self.symbol_cells.len() == n
        &&& self.symbol_cells.no_duplicates()
        &&& self.symbols == (if n == 0 {
            Expr::Nil
        } else {
            Expr::Pair(crate::expr::ConsCellKey(self.symbol_cells[0]))
        })
        &&& forall|i: int| 0 <= i < n ==> #[trigger] self.symbol_cell_ok(i)
    }

    /// The `i`-th cell of the symbol list is live, holds the symbol of the
    /// `i`-th newest name and is linked to the next cell.
    pub open spec fn symbol_cell_ok(self, i: int) -> bool {
        let n = self.names.len();
        let k = self.symbol_cells[i];
        &&& self.cells.contains_key(k)
        &&& self.cells[k].0 == Expr::Symbol((n - 1 - i) as usize)
        &&& self.cells[k].1 == (if i + 1 < n {
            Expr::Pair(crate::expr::ConsCellKey(self.symbol_cells[i + 1]))
        } else {
            Expr::Nil
        })
    }

    /// The values stored in the cell under `k` are valid, if that cell is a
    /// live cell outside the symbol list.
    pub open spec fn closed_at(self, k: usize) -> bool {
        self.user_cell(k) ==> self.valid(self.cells[k].0) && self.valid(self.cells[k].1)
    }

    /// Every value stored in a cell outside the symbol list is valid.
    pub open spec fn closed(self) -> bool {
        forall|k: usize| #[trigger] self.closed_at(k)
    }

    /// The part of the invariant of a heap that is about its cells and its
    /// names.
    pub open spec fn base_wf(self) -> bool {
        &&& self.cells.dom().finite()
        &&& self.names_wf()
        &&& self.symbols_wf()
        &&& self.closed()
    }

    /// `id` is the id of the name `name`.
    pub open spec fn names_id(self, id: usize, name: Seq<char>) -> bool {
        id < self.names.len() && self.names[id as int] == name
    }

    /// The names of the four special forms are interned under the ids that
    /// the evaluator compares with.
    pub open spec fn keywords_wf(self) -> bool {
        &&& self.names_id(self.kw_quote, "QUOTE"@)
        &&& self.names_id(self.kw_define, "DEFINE"@)
        &&& self.names_id(self.kw_if, "IF"@)
        &&& self.names_id(self.kw_lambda, "LAMBDA"@)
    }

    /// The invariant of a heap.
    pub open spec fn wf(self) -> bool {
        &&& self.base_wf()
        &&& self.root_env is Pair
        &&& self.valid(self.root_env)
        &&& self.keywords_wf()
    }

    /// The symbol of a name: that of the id under which it is interned, or
    /// will be.
    pub open spec fn symbol_of(self, name: Seq<char>) -> Expr {
        Expr::Symbol(self.id_of(name) as usize)
    }

    /// The special form that the head of a list selects, if any: the head is
    /// the symbol of `QUOTE`, `DEFINE`, `IF` or `LAMBDA`.
    pub open spec fn form_of(self, head: Expr) -> Option<Form> {
        if head == Expr::Symbol(self.kw_quote) {
            Some(Form::Quote)
        } else if head == Expr::Symbol(self.kw_define) {
            Some(Form::Define)
        } else if head == Expr::Symbol(self.kw_if) {
            Some(Form::If)
        } else if head == Expr::Symbol(self.kw_lambda) {
            Some(Form::Lambda)
        } else {
            None
        }
    }

    /// Whether the list at `v` has at least `n` elements; an error where the
    /// chain ends in something other than `Nil` before `n` cells were seen.
    pub open spec fn at_least(self, v: Expr, n: nat) -> SResult<bool>
        decreases n,
    {
        if n == 0 {
            Ok(true)
        } else if v is Nil {
            Ok(false)
        } else if !(v is Pair) {
            Err(SError::ImproperList)
        } else {
            self.at_least(self.rest(v), (n - 1) as nat)
        }
    }

    /// None of the keys is that of a live cell, and none occurs twice.
    pub open spec fn fresh(self, keys: Seq<usize>) -> bool {
        &&& keys.no_duplicates()
        &&& forall|i: int| 0 <= i < keys.len() ==> !self.live(#[trigger] keys[i])
    }

    /// This store with cells for the last `count` of `vals`, allocated from
    /// the back under the keys `keys`, each linked to the one before it and
    /// the first to `tail`.
    pub open spec fn with_list(self, vals: Seq<Expr>, keys: Seq<usize>, count: nat, tail: Expr) -> Store
        decreases count,
    {
        if count == 0 {
            self
        } else {
            self.with_list(vals, keys, (count - 1) as nat, tail).with_cell(
                keys[count - 1],
                vals[vals.len() - count],
                link(keys, count - 2, tail),
            )
        }
    }

    /// The list `list` of the values `vals`, ending in `tail`, was built from
    /// `self`, one new cell for each value.
    pub open spec fn built(self, vals: Seq<Expr>, tail: Expr, post: Store, list: Expr) -> bool {
        exists|keys: Seq<usize>|
            keys.len() == vals.len() && self.fresh(keys) && #[trigger] self.with_list(
                vals,
                keys,
                vals.len(),
                tail,
            ) == post && list == link(keys, vals.len() - 1, tail)
    }

    /// `post` has the names of `self` under the same ids, and every cell of
    /// `self` under the same key and as it was; it may have more of both. A
    /// cell outside the symbol list is still outside it.
    pub open spec fn extends_to(self, post: Store) -> bool {
        &&& self.names.len() <= post.names.len()
        &&& forall|i: int| 0 <= i < self.names.len() ==> #[trigger] post.names[i] == self.names[i]
        &&& forall|k: usize| #[trigger] self.live(k) ==> post.live(k) && post.cells[k] == self.cells[k]
        &&& forall|k: usize| #[trigger] self.user_cell(k) ==> post.user_cell(k) && post.cells[k] == self.cells[k]
        &&& post.root_env == self.root_env
        &&& post.kw_quote == self.kw_quote
        &&& post.kw_define == self.kw_define
        &&& post.kw_if == self.kw_if
        &&& post.kw_lambda == self.kw_lambda
    }

    /// `post` has every cell key of `self`, and the same names and roots.
    pub open spec fn grows_to(self, post: Store) -> bool {
        &&& post.names == self.names
        &&& post.symbol_cells == self.symbol_cells
        &&& post.symbols == self.symbols
        &&& post.root_env == self.root_env
        &&& post.kw_quote == self.kw_quote
        &&& post.kw_define == self.kw_define
        &&& post.kw_if == self.kw_if
        &&& post.kw_lambda == self.kw_lambda
        &&& forall|k: usize| self.cells.contains_key(k) ==> post.cells.contains_key(k)
    }

    /// The number of live cells.
    pub open spec fn size(self) -> nat {
        self.cells.dom().len()
    }

    /// This store with one more cell under a key that was vacant.
    pub open spec fn with_cell(self, k: usize, first: Expr, rest: Expr) -> Store {
        Store { cells: self.cells.insert(k, (first, rest, false)), ..self }
    }

    /// This store with the first half of a live cell replaced.
    pub open spec fn with_first(self, k: usize, v: Expr) -> Store {
        Store { cells: self.cells.insert(k, (v, self.cells[k].1, self.cells[k].2)), ..self }
    }

    /// This store with the other half of a live cell replaced.
    pub open spec fn with_rest(self, k: usize, v: Expr) -> Store {
        Store { cells: self.cells.insert(k, (self.cells[k].0, v, self.cells[k].2)), ..self }
    }

    /// The elements of the chain of pairs that starts at `v`, following at
    /// most `fuel` cells.
    pub open spec fn elems_upto(self, v: Expr, fuel: nat) -> Seq<Expr>
        decreases fuel,
    {
        if fuel > 0 && v is Pair && self.has(v) {
            seq![self.first(v)] + self.elems_upto(self.rest(v), (fuel - 1) as nat)
        } else {
            Seq::empty()
        }
    }

    /// The value at which the chain of pairs that starts at `v` ends, after at
    /// most `fuel` cells.
    pub open spec fn tail_upto(self, v: Expr, fuel: nat) -> Expr
        decreases fuel,
    {
        if fuel > 0 && v is Pair && self.has(v) {
            self.tail_upto(self.rest(v), (fuel - 1) as nat)
        } else {
            v
        }
    }

    /// The elements of the list that starts at `v`. No chain of distinct
    /// cells is longer than the heap, so a chain that is followed for as many
    /// cells as the heap holds has been followed to its end, or runs in a
    /// cycle.
    pub open spec fn elems(self, v: Expr) -> Seq<Expr> {
        self.elems_upto(v, self.size())
    }

    /// The value after the last pair of the list that starts at `v`: `Nil` for
    /// a proper list, a pair for a chain that runs in a cycle.
    pub open spec fn tail(self, v: Expr) -> Expr {
        self.tail_upto(v, self.size())
    }

    /// `v` is `Nil` or a chain of pairs that ends in `Nil`.
    pub open spec fn is_list(self, v: Expr) -> bool {
        self.tail(v) is Nil
    }

    /// Whether the list at `v` has exactly `n` elements; an error where the
    /// chain ends in something other than `Nil` before `n` cells were seen.
    pub open spec fn length_is(self, v: Expr, n: nat) -> SResult<bool>
        decreases n,
    {
        if v is Nil {
            Ok(n == 0)
        } else if n == 0 {
            Ok(false)
        } else if !(v is Pair) {
            Err(SError::ImproperList)
        } else {
            self.length_is(self.rest(v), (n - 1) as nat)
        }
    }

    /// Whether every element is a symbol.
    pub open spec fn all_symbols(elems: Seq<Expr>) -> bool {
        forall|i: int| 0 <= i < elems.len() ==> #[trigger] elems[i] is Symbol
    }

    /// What the check of a parameter list says: the list must be a proper
    /// list of symbols.
    pub open spec fn params_check(self, params: Expr) -> SResult<()> {
        if !Self::all_symbols(self.elems(params)) {
            Err(SError::ImproperSymbol)
        } else if !(self.tail(params) is Nil) {
            Err(SError::ImproperList)
        } else {
            Ok(())
        }
    }

    /// The closure `c` was made from `self`: two cells were added, the inner
    /// one `(params . body)`, the outer one `(env . inner)`.
    pub open spec fn closure_made(self, post: Store, env: Expr, params: Expr, body: Expr, c: Expr) -> bool {
        &&& c matches Expr::Closure(k)
        &&& post.rest(c) matches Expr::Pair(t)
        &&& !self.live(k.0)
        &&& !self.live(t.0)
        &&& k.0 != t.0
        &&& post == self.with_cell(t.0, params, body).with_cell(k.0, env, Expr::Pair(t))
    }

    /// Interning `name` in `self` gave the symbol `sym` and the store `post`:
    /// a name that is in the table keeps its id and changes nothing; a new
    /// name gets the next id and one cell at the head of the symbol list.
    pub open spec fn interned(self, post: Store, name: Seq<char>, sym: Expr) -> bool {
        let folded = fold_case(name);
        if self.names.contains(folded) {
            &&& post == self
            &&& sym matches Expr::Symbol(id)
            &&& id < self.names.len()
            &&& self.names[id as int] == folded
        } else {
            &&& sym == Expr::Symbol(self.names.len() as usize)
            &&& post.symbols matches Expr::Pair(k)
            &&& !self.live(k.0)
            &&& post == (Store {
                cells: self.cells.insert(k.0, (sym, self.symbols, false)),
                names: self.names.push(folded),
                symbol_cells: seq![k.0] + self.symbol_cells,
                symbols: Expr::Pair(k),
                ..self
            })
        }
    }

    /// `b` is a binding of `name`: a pair whose first half is `name`.
    pub open spec fn binds(self, b: Expr, name: Expr) -> bool {
        b is Pair && self.first(b) == name
    }

    /// The first binding of `name` among `elems[from..]`.
    pub open spec fn find_binding(self, elems: Seq<Expr>, name: Expr, from: int) -> Option<Expr>
        decreases elems.len() - from,
    {
        if from < 0 || from >= elems.len() {
            None
        } else if self.binds(elems[from], name) {
            Some(elems[from])
        } else {
            self.find_binding(elems, name, from + 1)
        }
    }

    /// The binding of `name` in the frame `env` itself.
    pub open spec fn own_binding(self, env: Expr, name: Expr) -> Option<Expr> {
        self.find_binding(self.elems(self.rest(env)), name, 0)
    }

    /// The value of `name` in the environment `env`, looking through at most
    /// `fuel` frames.
    pub open spec fn lookup_upto(self, env: Expr, name: Expr, fuel: nat) -> SResult<Expr>
        decreases fuel,
    {
        if !(env is Pair) {
            Err(SError::ImproperEnvironment)
        } else if !(name is Symbol) {
            Err(SError::ImproperSymbol)
        } else if fuel == 0 {
            Err(SError::ImproperEnvironment)
        } else {
            match self.own_binding(env, name) {
                Some(b) => Ok(self.rest(b)),
                None => {
                    let parent = self.first(env);
                    if !(self.tail(self.rest(env)) is Nil) {
                        Err(SError::ImproperList)
                    } else if parent is Nil {
                        Err(SError::UnboundSymbol)
                    } else if parent is Pair {
                        self.lookup_upto(parent, name, (fuel - 1) as nat)
                    } else {
                        Err(SError::ImproperEnvironment)
                    }
                },
            }
        }
    }

    /// Growth keeps every valid value valid.
    pub proof fn lemma_grows_valid(self, post: Store)
        requires
            self.grows_to(post),
        ensures
            forall|v: Expr| self.valid(v) ==> #[trigger] post.valid(v),
    {
    }

    /// An extension keeps every valid value valid.
    pub proof fn lemma_extends_valid(self, post: Store)
        requires
            self.extends_to(post),
        ensures
            forall|v: Expr| self.valid(v) ==> #[trigger] post.valid(v),
    {
        assert forall|v: Expr| self.valid(v) implies #[trigger] post.valid(v) by {
            match v {
                Expr::Pair(k) => {
                    assert(self.user_cell(k.0));
                },
                Expr::Closure(k) => {
                    assert(self.user_cell(k.0));
                },
                _ => {},
            }
        }
    }

    /// Extension is transitive.
    pub proof fn lemma_extends_trans(self, mid: Store, post: Store)
        requires
            self.extends_to(mid),
            mid.extends_to(post),
        ensures
            self.extends_to(post),
    {
        assert forall|k: usize| #[trigger] self.user_cell(k) implies post.user_cell(k) && post.cells[k]
            == self.cells[k] by {
            assert(mid.user_cell(k));
        }
        assert forall|k: usize| #[trigger] self.live(k) implies post.live(k) && post.cells[k] == self.cells[k] by {
            assert(mid.live(k));
        }
        assert forall|i: int| 0 <= i < self.names.len() implies #[trigger] post.names[i] == self.names[i] by {
            assert(mid.names[i] == self.names[i]);
        }
    }

    /// Adding a cell extends the store.
    pub proof fn lemma_with_cell_extends(self, k: usize, first: Expr, rest: Expr)
        requires
            self.wf(),
            !self.live(k),
        ensures
            self.extends_to(self.with_cell(k, first, rest)),
    {
        self.lemma_symbol_cells_live();
    }

    /// The cells of the values allocated so far do not depend on a key that
    /// is used later.
    pub proof fn lemma_with_list_push(self, vals: Seq<Expr>, keys: Seq<usize>, k: usize, count: nat, tail: Expr)
        requires
            count <= keys.len(),
        ensures
            self.with_list(vals, keys.push(k), count, tail) == self.with_list(vals, keys, count, tail),
        decreases count,
    {
        if count > 0 {
            self.lemma_with_list_push(vals, keys, k, (count - 1) as nat, tail);
            assert(keys.push(k)[count - 1] == keys[count - 1]);
            assert(link(keys.push(k), count - 2, tail) == link(keys, count - 2, tail));
        }
    }

    /// Growth is transitive.
    pub proof fn lemma_grows_trans(self, mid: Store, post: Store)
        requires
            self.grows_to(mid),
            mid.grows_to(post),
        ensures
            self.grows_to(post),
    {
    }

    /// The value of `name` in the environment `env`: that of its first
    /// binding in the nearest frame that has one.
    pub open spec fn lookup(self, env: Expr, name: Expr) -> SResult<Expr> {
        self.lookup_upto(env, name, self.size())
    }

    /// Defining `name` as `val` in the frame `env` of `self` gave `post`: an
    /// existing binding of the frame gets the new value; otherwise a new
    /// binding is put in front of the frame's bindings.
    pub open spec fn defined(self, post: Store, env: Expr, name: Expr, val: Expr, r: SResult<()>) -> bool {
        if !(env is Pair) {
            post == self && r == Err::<(), SError>(SError::ImproperEnvironment)
        } else if !(name is Symbol) {
            post == self && r == Err::<(), SError>(SError::ImproperSymbol)
        } else {
            match self.own_binding(env, name) {
                Some(b) => r is Ok && post == self.with_rest(b->Pair_0.0, val),
                None => if !(self.tail(self.rest(env)) is Nil) {
                    post == self && r == Err::<(), SError>(SError::ImproperList)
                } else {
                    &&& r is Ok
                    &&& post.rest(env) matches Expr::Pair(nb)
                    &&& post.first(Expr::Pair(nb)) matches Expr::Pair(np)
                    &&& !self.live(nb.0)
                    &&& !self.live(np.0)
                    &&& nb.0 != np.0
                    &&& post == self.with_cell(np.0, name, val).with_cell(
                        nb.0,
                        Expr::Pair(np),
                        self.rest(env),
                    ).with_rest(env->Pair_0.0, Expr::Pair(nb))
                },
            }
        }
    }

    /// What a valid pair or closure holds is valid.
    pub proof fn lemma_halves_valid(self, v: Expr)
        requires
            self.wf(),
            self.valid(v),
        ensures
            self.valid(self.first(v)),
            self.valid(self.rest(v)),
            self.has(self.first(v)),
            self.has(self.rest(v)),
    {
        match v {
            Expr::Pair(k) => {
                assert(self.closed_at(k.0));
            },
            Expr::Closure(k) => {
                assert(self.closed_at(k.0));
            },
            _ => {},
        }
    }

    /// What a live cell holds can be read.
    pub proof fn lemma_halves_known(self, v: Expr)
        requires
            self.wf(),
            self.known(v),
        ensures
            self.known(self.first(v)),
            self.known(self.rest(v)),
            self.valid(v) ==> self.valid(self.first(v)) && self.valid(self.rest(v)),
    {
        let k = match v {
            Expr::Pair(x) => x.0,
            Expr::Closure(x) => x.0,
            _ => 0,
        };
        if v is Pair || v is Closure {
            if self.symbol_cells.contains(k) {
                let i = choose|i: int| 0 <= i < self.symbol_cells.len() && self.symbol_cells[i] == k;
                assert(self.symbol_cell_ok(i));
                if i + 1 < self.names.len() {
                    assert(self.symbol_cell_ok(i + 1));
                }
            } else {
                assert(self.closed_at(k));
            }
        }
    }

    /// What a live cell holds refers to live cells, if to any.
    pub proof fn lemma_halves_live(self, v: Expr)
        requires
            self.wf(),
            self.has(v),
        ensures
            self.has(self.first(v)),
            self.has(self.rest(v)),
    {
        let k = match v {
            Expr::Pair(x) => x.0,
            Expr::Closure(x) => x.0,
            _ => 0,
        };
        if v is Pair || v is Closure {
            if self.symbol_cells.contains(k) {
                let i = choose|i: int| 0 <= i < self.symbol_cells.len() && self.symbol_cells[i] == k;
                assert(self.symbol_cell_ok(i));
                if i + 1 < self.names.len() {
                    assert(self.symbol_cell_ok(i + 1));
                }
            } else {
                assert(self.closed_at(k));
            }
        }
    }

    /// Every cell of the symbol list is live.
    pub proof fn lemma_symbol_cells_live(self)
        requires
            self.symbols_wf(),
        ensures
            forall|k: usize| #[trigger] self.symbol_cells.contains(k) ==> self.live(k),
    {
        assert forall|k: usize| #[trigger] self.symbol_cells.contains(k) implies self.live(k) by {
            let i = choose|i: int| 0 <= i < self.symbol_cells.len() && self.symbol_cells[i] == k;
            assert(self.symbol_cell_ok(i));
        }
    }

    /// Cells may be added and cells outside the symbol list may change: as
    /// long as every value stored in them is valid, the invariant is kept,
    /// and so is the validity of every value.
    pub proof fn lemma_update_wf(self, post: Store, changed: Set<usize>)
        requires
            self.wf(),
            self.grows_to(post),
            post.cells.dom().finite(),
            forall|k: usize| self.cells.contains_key(k) && !changed.contains(k) ==> post.cells[k] == self.cells[k],
            forall|k: usize| #[trigger] changed.contains(k) ==> !self.symbol_cells.contains(k),
            forall|k: usize| #[trigger]
                changed.contains(k) ==> post.valid(post.cells[k].0) && post.valid(post.cells[k].1),
            forall|k: usize| post.cells.contains_key(k) && !self.cells.contains_key(k) ==> changed.contains(k),
        ensures
            post.wf(),
            forall|v: Expr| self.valid(v) ==> #[trigger] post.valid(v),
    {
        self.lemma_symbol_cells_live();
        assert forall|i: int| 0 <= i < post.names.len() implies #[trigger] post.symbol_cell_ok(i) by {
            assert(self.symbol_cell_ok(i));
            assert(self.symbol_cells.contains(self.symbol_cells[i]));
            assert(!changed.contains(self.symbol_cells[i]));
        }
        assert forall|k: usize| #[trigger] post.closed_at(k) by {
            if post.user_cell(k) && !changed.contains(k) {
                assert(self.closed_at(k));
            }
        }
    }

    /// Adding a cell of valid values keeps the invariant.
    pub proof fn lemma_with_cell_wf(self, k: usize, first: Expr, rest: Expr)
        requires
            self.wf(),
            !self.live(k),
            self.valid(first),
            self.valid(rest),
        ensures
            self.with_cell(k, first, rest).wf(),
            self.grows_to(self.with_cell(k, first, rest)),
            forall|v: Expr| self.valid(v) ==> #[trigger] self.with_cell(k, first, rest).valid(v),
            self.with_cell(k, first, rest).user_cell(k),
    {
        self.lemma_symbol_cells_live();
        self.lemma_update_wf(self.with_cell(k, first, rest), set![k]);
    }

    /// Storing a valid value in a cell outside the symbol list keeps the
    /// invariant.
    pub proof fn lemma_with_first_wf(self, k: usize, v: Expr)
        requires
            self.wf(),
            self.user_cell(k),
            self.valid(v),
        ensures
            self.with_first(k, v).wf(),
            self.grows_to(self.with_first(k, v)),
            forall|w: Expr| self.valid(w) ==> #[trigger] self.with_first(k, v).valid(w),
    {
        assert(self.closed_at(k));
        self.lemma_update_wf(self.with_first(k, v), set![k]);
    }

    /// Storing a valid value in the other half of such a cell keeps it too.
    pub proof fn lemma_with_rest_wf(self, k: usize, v: Expr)
        requires
            self.wf(),
            self.user_cell(k),
            self.valid(v),
        ensures
            self.with_rest(k, v).wf(),
            self.grows_to(self.with_rest(k, v)),
            forall|w: Expr| self.valid(w) ==> #[trigger] self.with_rest(k, v).valid(w),
    {
        assert(self.closed_at(k));
        self.lemma_update_wf(self.with_rest(k, v), set![k]);
    }

    /// The id under which a name is interned, or will be: that of its folded
    /// form in the table, or the next id.
    pub open spec fn id_of(self, name: Seq<char>) -> nat {
        if self.names.contains(fold_case(name)) {
            self.names.index_of(fold_case(name)) as nat
        } else {
            self.names.len()
        }
    }

    /// Interning gives the symbol of `id_of`.
    pub proof fn lemma_interned_id(self, post: Store, name: Seq<char>, sym: Expr)
        requires
            self.names_wf(),
            post.names.len() <= usize::MAX,
            self.interned(post, name, sym),
        ensures
            sym == Expr::Symbol(self.id_of(name) as usize),
            post.id_of(name) == self.id_of(name),
            post.names_wf(),
            self.names.len() <= post.names.len() <= self.names.len() + 1,
            forall|other: Seq<char>| self.names.contains(fold_case(other)) ==> post.id_of(other) == self.id_of(other),
    {
        let folded = fold_case(name);
        if self.names.contains(folded) {
            assert(self.names[self.names.index_of(folded)] == folded);
        } else {
            assert(post.names.last() == folded);
            assert(post.names[self.names.len() as int] == folded);
            assert(post.names.contains(folded));
            let i = post.names.index_of(folded);
            assert(i == self.names.len()) by {
                if i < self.names.len() {
                    assert(self.names[i] == folded);
                }
            }
            assert(fold_case(folded) =~= folded);
            assert forall|i: int| 0 <= i < post.names.len() implies fold_case(#[trigger] post.names[i])
                == post.names[i] by {
                if i < self.names.len() {
                    assert(post.names[i] == self.names[i]);
                }
            }
            assert forall|i: int, j: int|
                0 <= i < post.names.len() && 0 <= j < post.names.len() && post.names[i] == post.names[j] implies i
                == j by {
                if i < self.names.len() {
                    assert(post.names[i] == self.names[i]);
                }
                if j < self.names.len() {
                    assert(post.names[j] == self.names[j]);
                }
            }
            assert forall|other: Seq<char>| self.names.contains(fold_case(other)) implies post.id_of(other)
                == self.id_of(other) by {
                let f = fold_case(other);
                let a = self.names.index_of(f);
                assert(post.names[a] == f);
                assert(post.names.contains(f));
                let b = post.names.index_of(f);
                assert(post.names[b] == post.names[a]);
            }
        }
    }
}

/// Two names with the same folded form are interned as the same symbol,
/// whatever was interned between them.
pub proof fn law_intern_folds_case(
    st: Store,
    name1: Seq<char>,
    mid: Store,
    sym1: Expr,
    later: Store,
    name2: Seq<char>,
    post: Store,
    sym2: Expr,
)
    requires
        st.names_wf(),
        later.names_wf(),
        mid.names.len() <= usize::MAX,
        post.names.len() <= usize::MAX,
        fold_case(name1) == fold_case(name2),
        st.interned(mid, name1, sym1),
        mid.names.len() <= later.names.len(),
        forall|i: int| 0 <= i < mid.names.len() ==> later.names[i] == mid.names[i],
        later.interned(post, name2, sym2),
    ensures
        sym1 == sym2,
{
    st.lemma_interned_id(mid, name1, sym1);
    later.lemma_interned_id(post, name2, sym2);
    let folded = fold_case(name1);
    let i = st.id_of(name1) as int;
    assert(mid.names[i] == folded) by {
        if st.names.contains(folded) {
        } else {
            assert(mid.names.last() == folded);
        }
    }
    assert(later.names[i] == folded);
    assert(later.names.contains(folded));
    let j = later.names.index_of(folded);
    assert(later.names[j] == later.names[i]);
}

} // verus!
