//! The evaluator: a tree walker over heap-resident expressions.

use vstd::prelude::*;
use crate::expr::{Expr, SError, SResult};
use crate::heap::Heap;
use crate::primitive::{lemma_arity_pairs, validate_arg_count};
use crate::semantics::{
    abstracts, applies, applies_to, arity_verdict, before, binds, binds_one, binds_seq, branches, calls, defines,
    derives, derives_seq, ends, evaluates, fail, lift, maps, maps_to, runs, stopped, values,
    Stop, Trace,
};
use crate::store::{Form, Store};

verus! {

/// The result of a heap operation as the result of an evaluation.
fn lifted(r: SResult<Expr>) -> (x: Result<Expr, Stop>)
    ensures
        x == lift(r),
{
    match r {
        Ok(v) => Ok(v),
        Err(e) => Err(Stop::Failed(e)),
    }
}

/// A step without inner steps.
pub open spec fn leaf(post: Store, r: Result<Expr, Stop>) -> Trace {
    Trace { post, result: r, key: 0, subs: Seq::empty() }
}

/// A step with the given inner steps.
pub open spec fn node(post: Store, r: Result<Expr, Stop>, subs: Seq<Trace>) -> Trace {
    Trace { post, result: r, key: 0, subs }
}

/// What holds of the first steps of a sequence holds when a step is added.
proof fn lemma_derives_seq_push(pre: Store, env: Expr, elems: Seq<Expr>, n: nat, depth: nat, subs: Seq<Trace>, t: Trace)
    requires
        derives_seq(pre, env, elems, n, depth, subs),
        n <= subs.len(),
    ensures
        derives_seq(pre, env, elems, n, depth, subs.push(t)),
    decreases n,
{
    if n > 0 {
        lemma_derives_seq_push(pre, env, elems, (n - 1) as nat, depth, subs, t);
        assert(subs.push(t)[n - 1] == subs[n - 1]);
        assert(before(pre, subs.push(t), n - 1) == before(pre, subs, n - 1));
        if n >= 2 {
            assert(subs.push(t)[n - 2] == subs[n - 2]);
        }
    }
}

/// What holds of the first bindings of a sequence holds when a step is
/// added.
proof fn lemma_binds_seq_push(
    pre: Store,
    frame: Expr,
    params: Seq<Expr>,
    args: Seq<Expr>,
    args_tail: Expr,
    n: nat,
    subs: Seq<Trace>,
    t: Trace,
)
    requires
        binds_seq(pre, frame, params, args, args_tail, n, subs),
        n <= subs.len(),
    ensures
        binds_seq(pre, frame, params, args, args_tail, n, subs.push(t)),
    decreases n,
{
    if n > 0 {
        lemma_binds_seq_push(pre, frame, params, args, args_tail, (n - 1) as nat, subs, t);
        assert(subs.push(t)[n - 1] == subs[n - 1]);
        assert(before(pre, subs.push(t), n - 1) == before(pre, subs, n - 1));
        if n >= 2 {
            assert(subs.push(t)[n - 2] == subs[n - 2]);
        }
    }
}

impl Heap {
    /// Evaluates an expression in the root environment, with evaluations
    /// nested up to `depth` deep; one that would go deeper stops as
    /// `Exhausted`.
    pub fn eval(&mut self, expr: &Expr, depth: usize) -> (r: Result<Expr, Stop>)
        requires
            old(self)@.wf(),
            old(self)@.valid(*expr),
        ensures
            final(self)@.wf(),
            old(self)@.grows_to(final(self)@),
            evaluates(old(self)@, old(self)@.root_env, *expr, depth as nat, final(self)@, r),
            r matches Ok(v) ==> final(self)@.valid(v),
    {
        let env = self.root_env();
        self.eval_in(&env, expr, depth)
    }

    /// Evaluates an expression in an environment. Values evaluate to
    /// themselves, a symbol to what it is bound to, a pair as a special form
    /// or as a call. Each evaluation inside a form or a call counts one level
    /// of `depth`; at depth zero nothing is evaluated.
    pub fn eval_in(&mut self, env: &Expr, expr: &Expr, depth: usize) -> (r: Result<Expr, Stop>)
        requires
            old(self)@.wf(),
            old(self)@.valid(*env),
            old(self)@.valid(*expr),
        ensures
            final(self)@.wf(),
            old(self)@.grows_to(final(self)@),
            evaluates(old(self)@, *env, *expr, depth as nat, final(self)@, r),
            r matches Ok(v) ==> final(self)@.valid(v),
        decreases depth, 0nat,
    {
        let ghost pre = self@;
        if depth == 0 {
            assert(derives(pre, *env, *expr, 0, leaf(pre, Err(Stop::Exhausted))));
            return Err(Stop::Exhausted);
        }
        let d = depth - 1;
        match expr {
            Expr::Symbol(_) => {
                let r = lifted(self.env_get(env, expr));
                assert(derives(pre, *env, *expr, depth as nat, leaf(pre, r)));
                r
            },
            Expr::Pair(_) => {
                let cell = self.get_first_rest(expr).unwrap();
                match self.form_of(&cell.0) {
                    Some(Form::Quote) => {
                        let r = lifted(self.eval_quote(&cell.1));
                        assert(derives(pre, *env, *expr, depth as nat, leaf(pre, r)));
                        r
                    },
                    Some(Form::Define) => {
                        let r = self.eval_define(env, &cell.1, d);
                        proof {
                            let t = choose|t: Trace| #[trigger] defines(pre, *env, cell.1, d as nat, t) && ends(t, self@, r);
                            assert(derives(pre, *env, *expr, depth as nat, t));
                        }
                        r
                    },
                    Some(Form::If) => {
                        let r = self.eval_if(env, &cell.1, d);
                        proof {
                            let t = choose|t: Trace| #[trigger] branches(pre, *env, cell.1, d as nat, t) && ends(t, self@, r);
                            assert(derives(pre, *env, *expr, depth as nat, t));
                        }
                        r
                    },
                    Some(Form::Lambda) => {
                        let r = self.eval_lambda(env, &cell.1);
                        proof {
                            let t = leaf(self@, r);
                            assert(abstracts(pre, *env, cell.1, t));
                            assert(derives(pre, *env, *expr, depth as nat, t));
                        }
                        r
                    },
                    None => {
                        let r = self.eval_call(env, &cell.0, &cell.1, d);
                        proof {
                            let t = choose|t: Trace| #[trigger]
                                calls(pre, *env, cell.0, cell.1, d as nat, t) && ends(t, self@, r);
                            assert(derives(pre, *env, *expr, depth as nat, t));
                        }
                        r
                    },
                }
            },
            _ => {
                assert(derives(pre, *env, *expr, depth as nat, leaf(pre, Ok(*expr))));
                Ok(*expr)
            },
        }
    }

    /// `(QUOTE e)`: `e` itself.
    fn eval_quote(&self, args: &Expr) -> (r: SResult<Expr>)
        requires
            self@.wf(),
            self@.valid(*args),
        ensures
            r == self@.quoted(*args),
            r matches Ok(v) ==> self@.valid(v),
    {
        validate_arg_count(self, args, 1)?;
        self.get_first(args)
    }

    /// `(DEFINE name e)`.
    fn eval_define(&mut self, env: &Expr, args: &Expr, depth: usize) -> (r: Result<Expr, Stop>)
        requires
            old(self)@.wf(),
            old(self)@.valid(*env),
            old(self)@.valid(*args),
        ensures
            final(self)@.wf(),
            old(self)@.grows_to(final(self)@),
            exists|t: Trace| #[trigger] defines(old(self)@, *env, *args, depth as nat, t) && ends(t, final(self)@, r),
            r matches Ok(v) ==> final(self)@.valid(v),
        decreases depth, 4nat,
    {
        let ghost pre = self@;
        match validate_arg_count(self, args, 2) {
            Err(e) => {
                assert(defines(pre, *env, *args, depth as nat, leaf(pre, fail(e))));
                return Err(Stop::Failed(e));
            },
            Ok(_) => {},
        }
        proof {
            lemma_arity_pairs(self@, *args, 2);
            lemma_arity_pairs(self@, self@.rest(*args), 1);
        }
        let sym = self.get_first(args).unwrap();
        let rest = self.get_rest(args).unwrap();
        let rexpr = self.get_first(&rest).unwrap();
        if !sym.is_symbol() {
            assert(defines(pre, *env, *args, depth as nat, leaf(pre, fail(SError::ImproperSymbol))));
            return Err(Stop::Failed(SError::ImproperSymbol));
        }
        let v = self.eval_in(env, &rexpr, depth);
        let ghost mid = self@;
        let ghost t0 = choose|t: Trace| #[trigger] derives(pre, *env, rexpr, depth as nat, t) && ends(t, mid, v);
        match v {
            Err(e) => {
                proof {
                    let t = node(mid, Err(e), seq![t0]);
                    assert(t.subs[0] == t0);
                    assert(defines(pre, *env, *args, depth as nat, t));
                }
                Err(e)
            },
            Ok(val) => {
                let d = self.env_set(env, &sym, val);
                let r = match d {
                    Ok(_) => Ok(sym),
                    Err(e) => Err(Stop::Failed(e)),
                };
                proof {
                    pre.lemma_grows_trans(mid, self@);
                    let t = node(self@, r, seq![t0]);
                    assert(t.subs[0] == t0);
                    assert(defines(pre, *env, *args, depth as nat, t));
                }
                r
            },
        }
    }

    /// `(IF test then else)`.
    fn eval_if(&mut self, env: &Expr, args: &Expr, depth: usize) -> (r: Result<Expr, Stop>)
        requires
            old(self)@.wf(),
            old(self)@.valid(*env),
            old(self)@.valid(*args),
        ensures
            final(self)@.wf(),
            old(self)@.grows_to(final(self)@),
            exists|t: Trace| #[trigger] branches(old(self)@, *env, *args, depth as nat, t) && ends(t, final(self)@, r),
            r matches Ok(v) ==> final(self)@.valid(v),
        decreases depth, 4nat,
    {
        let ghost pre = self@;
        match validate_arg_count(self, args, 3) {
            Err(e) => {
                assert(branches(pre, *env, *args, depth as nat, leaf(pre, fail(e))));
                return Err(Stop::Failed(e));
            },
            Ok(_) => {},
        }
        proof {
            lemma_arity_pairs(self@, *args, 3);
            lemma_arity_pairs(self@, self@.rest(*args), 2);
            lemma_arity_pairs(self@, self@.rest(self@.rest(*args)), 1);
        }
        let test = self.get_first(args).unwrap();
        let rest = self.get_rest(args).unwrap();
        let then_expr = self.get_first(&rest).unwrap();
        let rest2 = self.get_rest(&rest).unwrap();
        let else_expr = self.get_first(&rest2).unwrap();
        let v = self.eval_in(env, &test, depth);
        let ghost mid = self@;
        let ghost t0 = choose|t: Trace| #[trigger] derives(pre, *env, test, depth as nat, t) && ends(t, mid, v);
        match v {
            Err(e) => {
                proof {
                    let t = node(mid, Err(e), seq![t0]);
                    assert(t.subs[0] == t0);
                    assert(branches(pre, *env, *args, depth as nat, t));
                }
                Err(e)
            },
            Ok(c) => {
                let branch = if c.is_truthy() {
                    then_expr
                } else {
                    else_expr
                };
                proof {
                    pre.lemma_grows_valid(mid);
                }
                let r = self.eval_in(env, &branch, depth);
                proof {
                    pre.lemma_grows_trans(mid, self@);
                    let t1 = choose|t: Trace| #[trigger] derives(mid, *env, branch, depth as nat, t) && ends(t, self@, r);
                    let t = node(self@, r, seq![t0, t1]);
                    assert(t.subs[0] == t0);
                    assert(t.subs[1] == t1);
                    assert(t.subs.last() == t1);
                    assert(branches(pre, *env, *args, depth as nat, t));
                }
                r
            },
        }
    }

    /// `(LAMBDA params body...)`.
    fn eval_lambda(&mut self, env: &Expr, args: &Expr) -> (r: Result<Expr, Stop>)
        requires
            old(self)@.wf(),
            old(self)@.valid(*env),
            old(self)@.valid(*args),
        ensures
            final(self)@.wf(),
            old(self)@.grows_to(final(self)@),
            abstracts(old(self)@, *env, *args, leaf(final(self)@, r)),
            r matches Ok(v) ==> final(self)@.valid(v),
    {
        match self.test_min_length(args, 2) {
            Err(e) => {
                return Err(Stop::Failed(e));
            },
            Ok(false) => {
                return Err(Stop::Failed(SError::WrongNumberOfArgs));
            },
            Ok(true) => {},
        }
        let params = self.get_first(args).unwrap();
        let body = self.get_rest(args).unwrap();
        match self.make_closure(*env, params, body) {
            Ok(c) => Ok(c),
            Err(e) => Err(Stop::Failed(e)),
        }
    }

    /// A call: evaluates the head and the arguments, and applies the one to
    /// the others.
    fn eval_call(&mut self, env: &Expr, head: &Expr, args: &Expr, depth: usize) -> (r: Result<Expr, Stop>)
        requires
            old(self)@.wf(),
            old(self)@.valid(*env),
            old(self)@.valid(*head),
            old(self)@.valid(*args),
        ensures
            final(self)@.wf(),
            old(self)@.grows_to(final(self)@),
            exists|t: Trace| #[trigger]
                calls(old(self)@, *env, *head, *args, depth as nat, t) && ends(t, final(self)@, r),
            r matches Ok(v) ==> final(self)@.valid(v),
        decreases depth, 4nat,
    {
        let ghost pre = self@;
        let op = self.eval_in(env, head, depth);
        let ghost m1 = self@;
        let ghost t0 = choose|t: Trace| #[trigger] derives(pre, *env, *head, depth as nat, t) && ends(t, m1, op);
        let f = match op {
            Err(e) => {
                proof {
                    let t = node(m1, Err(e), seq![t0]);
                    assert(t.subs[0] == t0);
                    assert(calls(pre, *env, *head, *args, depth as nat, t));
                }
                return Err(e);
            },
            Ok(f) => f,
        };
        proof {
            pre.lemma_grows_valid(m1);
        }
        let l = self.map_list(args, env, depth);
        let ghost m2 = self@;
        let ghost t1 = choose|t: Trace| #[trigger] maps(m1, *env, *args, depth as nat, t) && ends(t, m2, l);
        proof {
            pre.lemma_grows_trans(m1, m2);
            m1.lemma_grows_valid(m2);
        }
        let list = match l {
            Err(e) => {
                proof {
                    let t = node(m2, Err(e), seq![t0, t1]);
                    assert(t.subs[0] == t0);
                    assert(t.subs[1] == t1);
                    assert(calls(pre, *env, *head, *args, depth as nat, t));
                }
                return Err(e);
            },
            Ok(list) => list,
        };
        let r = self.apply(&f, &list, depth);
        proof {
            pre.lemma_grows_trans(m2, self@);
            let t2 = choose|t: Trace| #[trigger] applies(m2, f, list, depth as nat, t) && ends(t, self@, r);
            let t = node(self@, r, seq![t0, t1, t2]);
            assert(t.subs[0] == t0);
            assert(t.subs[1] == t1);
            assert(t.subs[2] == t2);
            assert(calls(pre, *env, *head, *args, depth as nat, t));
        }
        r
    }

    /// Evaluates the elements of a list in order and builds the list of
    /// their values.
    pub fn map_list(&mut self, list: &Expr, env: &Expr, depth: usize) -> (r: Result<Expr, Stop>)
        requires
            old(self)@.wf(),
            old(self)@.valid(*env),
            old(self)@.valid(*list),
        ensures
            final(self)@.wf(),
            old(self)@.grows_to(final(self)@),
            maps_to(old(self)@, *env, *list, depth as nat, final(self)@, r),
            r matches Ok(v) ==> final(self)@.valid(v),
        decreases depth, 2nat,
    {
        let ghost pre = self@;
        let (elems, tail) = self.spine(list);
        let mut vals: Vec<Expr> = Vec::new();
        let ghost mut subs: Seq<Trace> = Seq::empty();
        let mut i: usize = 0;
        while i < elems.len()
            invariant
                i <= elems.len(),
                vals@.len() == i,
                subs.len() == i,
                self@.wf(),
                pre.grows_to(self@),
                pre == old(self)@,
                pre.valid(*env),
                elems@ == pre.elems(*list),
                tail == pre.tail(*list),
                forall|j: int| 0 <= j < elems@.len() ==> pre.valid(#[trigger] elems@[j]),
                forall|j: int| 0 <= j < vals@.len() ==> self@.valid(#[trigger] vals@[j]),
                derives_seq(pre, *env, elems@, i as nat, depth as nat, subs),
                !stopped(subs),
                before(pre, subs, i as int) == self@,
                values(subs) == vals@,
            decreases elems.len() - i,
        {
            let ghost start = self@;
            let ghost done = vals@;
            let ghost steps = subs;
            proof {
                pre.lemma_grows_valid(start);
            }
            let v = self.eval_in(env, &elems[i], depth);
            proof {
                pre.lemma_grows_trans(start, self@);
                start.lemma_grows_valid(self@);
                let t = choose|t: Trace| #[trigger] derives(start, *env, elems@[i as int], depth as nat, t) && ends(t, self@, v);
                subs = steps.push(t);
                lemma_derives_seq_push(pre, *env, elems@, i as nat, depth as nat, steps, t);
                assert(before(pre, subs, i as int) == start);
                assert(i >= 1 ==> subs[i - 1] == steps[i - 1]);
                assert(i >= 1 ==> steps.last() == steps[i - 1]);
                assert(derives_seq(pre, *env, elems@, (i + 1) as nat, depth as nat, subs));
            }
            match v {
                Err(e) => {
                    proof {
                        let t = node(self@, Err(e), subs);
                        assert(maps(pre, *env, *list, depth as nat, t));
                    }
                    return Err(e);
                },
                Ok(x) => {
                    vals.push(x);
                    proof {
                        assert(values(subs) =~= vals@);
                    }
                },
            }
            i = i + 1;
        }
        if !tail.is_nil() {
            proof {
                let t = node(self@, fail(SError::ImproperList), subs);
                assert(maps(pre, *env, *list, depth as nat, t));
            }
            return Err(Stop::Failed(SError::ImproperList));
        }
        let ghost mid = self@;
        let list_out = self.make_list(&vals, Expr::Nil);
        proof {
            pre.lemma_grows_trans(mid, self@);
            let t = node(self@, Ok(list_out), subs);
            assert(maps(pre, *env, *list, depth as nat, t));
        }
        Ok(list_out)
    }

    /// Applies a primitive or a closure to the list of its arguments.
    pub fn apply(&mut self, op: &Expr, args: &Expr, depth: usize) -> (r: Result<Expr, Stop>)
        requires
            old(self)@.wf(),
            old(self)@.valid(*op),
            old(self)@.valid(*args),
        ensures
            final(self)@.wf(),
            old(self)@.grows_to(final(self)@),
            applies_to(old(self)@, *op, *args, depth as nat, final(self)@, r),
            r matches Ok(v) ==> final(self)@.valid(v),
        decreases depth, 3nat,
    {
        let ghost pre = self@;
        match op {
            Expr::Primitive(native) => {
                let r = match native.call(args, self) {
                    Ok(v) => Ok(v),
                    Err(e) => Err(Stop::Failed(e)),
                };
                assert(applies(pre, *op, *args, depth as nat, leaf(self@, r)));
                r
            },
            Expr::Closure(_) => self.apply_closure(op, args, depth),
            _ => {
                assert(applies(pre, *op, *args, depth as nat, leaf(pre, fail(SError::NotCallable))));
                Err(Stop::Failed(SError::NotCallable))
            },
        }
    }

    /// Applies a closure: binds its parameters in a new frame and evaluates
    /// its body there.
    fn apply_closure(&mut self, op: &Expr, args: &Expr, depth: usize) -> (r: Result<Expr, Stop>)
        requires
            old(self)@.wf(),
            old(self)@.valid(*op),
            old(self)@.valid(*args),
            *op is Closure,
        ensures
            final(self)@.wf(),
            old(self)@.grows_to(final(self)@),
            applies_to(old(self)@, *op, *args, depth as nat, final(self)@, r),
            r matches Ok(v) ==> final(self)@.valid(v),
        decreases depth, 2nat, 1nat,
    {
        let ghost pre = self@;
        let captured = self.get_lambda_env(op).unwrap();
        let params_list = match self.get_lambda_args(op) {
            Err(e) => {
                assert(applies(pre, *op, *args, depth as nat, leaf(pre, fail(e))));
                return Err(Stop::Failed(e));
            },
            Ok(p) => p,
        };
        let body = self.get_lambda_body(op).unwrap();
        proof {
            pre.lemma_halves_valid(*op);
            pre.lemma_halves_valid(pre.rest(*op));
        }
        let (params, params_tail) = self.spine(&params_list);
        let (argv, args_tail) = self.spine(args);
        let frame = self.make_env(&captured).unwrap();
        let ghost m1 = self@;
        let ghost key = frame->Pair_0.0;
        proof {
            pre.lemma_grows_valid(m1);
        }
        let b = self.bind_params(&frame, &params, &argv, &args_tail);
        let ghost m2 = self@;
        let ghost tb = choose|t: Trace| #[trigger] binds(m1, frame, params@, argv@, args_tail, t) && ends(t, m2, b);
        proof {
            pre.lemma_grows_trans(m1, m2);
            pre.lemma_grows_valid(m2);
            m1.lemma_grows_valid(m2);
        }
        match b {
            Err(e) => {
                proof {
                    let t = Trace { post: m2, result: Err(e), key, subs: seq![tb] };
                    assert(t.subs[0] == tb);
                    assert(applies(pre, *op, *args, depth as nat, t));
                }
                return Err(e);
            },
            Ok(_) => {},
        }
        let verdict = if !params_tail.is_nil() {
            if argv.len() == params.len() && args_tail.is_nil() {
                Err(SError::WrongNumberOfArgs)
            } else {
                Err(SError::ImproperList)
            }
        } else if argv.len() > params.len() || !args_tail.is_nil() {
            Err(SError::WrongNumberOfArgs)
        } else {
            Ok(())
        };
        assert(verdict == arity_verdict(params@.len(), params_tail, argv@.len(), args_tail));
        match verdict {
            Err(e) => {
                proof {
                    let t = Trace { post: m2, result: fail(e), key, subs: seq![tb] };
                    assert(t.subs[0] == tb);
                    assert(applies(pre, *op, *args, depth as nat, t));
                }
                return Err(Stop::Failed(e));
            },
            Ok(_) => {},
        }
        let r = self.run_body(&frame, &body, depth);
        proof {
            pre.lemma_grows_trans(m2, self@);
            let tr = choose|t: Trace| #[trigger] runs(m2, frame, body, depth as nat, t) && ends(t, self@, r);
            let t = Trace { post: self@, result: r, key, subs: seq![tb, tr] };
            assert(t.subs[0] == tb);
            assert(t.subs[1] == tr);
            assert(applies(pre, *op, *args, depth as nat, t));
        }
        r
    }

    /// Binds the parameters to the arguments in the frame, one after the
    /// other.
    fn bind_params(&mut self, frame: &Expr, params: &Vec<Expr>, args: &Vec<Expr>, args_tail: &Expr) -> (r: Result<
        Expr,
        Stop,
    >)
        requires
            old(self)@.wf(),
            old(self)@.valid(*frame),
            forall|j: int| 0 <= j < params@.len() ==> old(self)@.valid(#[trigger] params@[j]),
            forall|j: int| 0 <= j < args@.len() ==> old(self)@.valid(#[trigger] args@[j]),
        ensures
            final(self)@.wf(),
            old(self)@.grows_to(final(self)@),
            exists|t: Trace| #[trigger]
                binds(old(self)@, *frame, params@, args@, *args_tail, t) && ends(t, final(self)@, r),
    {
        let ghost pre = self@;
        let ghost mut subs: Seq<Trace> = Seq::empty();
        let mut i: usize = 0;
        while i < params.len()
            invariant
                i <= params.len(),
                subs.len() == i,
                self@.wf(),
                pre.grows_to(self@),
                pre == old(self)@,
                pre.valid(*frame),
                forall|j: int| 0 <= j < params@.len() ==> pre.valid(#[trigger] params@[j]),
                forall|j: int| 0 <= j < args@.len() ==> pre.valid(#[trigger] args@[j]),
                binds_seq(pre, *frame, params@, args@, *args_tail, i as nat, subs),
                !stopped(subs),
                before(pre, subs, i as int) == self@,
            decreases params.len() - i,
        {
            let ghost start = self@;
            let ghost steps = subs;
            proof {
                pre.lemma_grows_valid(start);
            }
            let step: Result<Expr, Stop> = if i >= args.len() {
                if args_tail.is_nil() {
                    Err(Stop::Failed(SError::WrongNumberOfArgs))
                } else {
                    Err(Stop::Failed(SError::ImproperList))
                }
            } else {
                match self.env_set(frame, &params[i], args[i]) {
                    Ok(_) => Ok(Expr::Nil),
                    Err(e) => Err(Stop::Failed(e)),
                }
            };
            proof {
                pre.lemma_grows_trans(start, self@);
                let t = leaf(self@, step);
                assert(binds_one(start, *frame, params@, args@, *args_tail, i as int, t));
                subs = steps.push(t);
                lemma_binds_seq_push(pre, *frame, params@, args@, *args_tail, i as nat, steps, t);
                assert(before(pre, subs, i as int) == start);
                assert(i >= 1 ==> subs[i - 1] == steps[i - 1]);
                assert(i >= 1 ==> steps.last() == steps[i - 1]);
                assert(binds_seq(pre, *frame, params@, args@, *args_tail, (i + 1) as nat, subs));
            }
            match step {
                Err(e) => {
                    proof {
                        let t = node(self@, Err(e), subs);
                        assert(binds(pre, *frame, params@, args@, *args_tail, t));
                    }
                    return Err(e);
                },
                Ok(_) => {},
            }
            i = i + 1;
        }
        proof {
            let t = node(self@, Ok(Expr::Nil), subs);
            assert(binds(pre, *frame, params@, args@, *args_tail, t));
        }
        Ok(Expr::Nil)
    }

    /// Evaluates the body forms of a closure in its frame.
    fn run_body(&mut self, frame: &Expr, body: &Expr, depth: usize) -> (r: Result<Expr, Stop>)
        requires
            old(self)@.wf(),
            old(self)@.valid(*frame),
            old(self)@.valid(*body),
        ensures
            final(self)@.wf(),
            old(self)@.grows_to(final(self)@),
            exists|t: Trace| #[trigger] runs(old(self)@, *frame, *body, depth as nat, t) && ends(t, final(self)@, r),
            r matches Ok(v) ==> final(self)@.valid(v),
        decreases depth, 2nat, 0nat,
    {
        let ghost pre = self@;
        let (forms, tail) = self.spine(body);
        let ghost mut subs: Seq<Trace> = Seq::empty();
        let mut result = Expr::Nil;
        let mut i: usize = 0;
        while i < forms.len()
            invariant
                i <= forms.len(),
                subs.len() == i,
                self@.wf(),
                pre.grows_to(self@),
                pre == old(self)@,
                pre.valid(*frame),
                forms@ == pre.elems(*body),
                tail == pre.tail(*body),
                forall|j: int| 0 <= j < forms@.len() ==> pre.valid(#[trigger] forms@[j]),
                self@.valid(result),
                derives_seq(pre, *frame, forms@, i as nat, depth as nat, subs),
                !stopped(subs),
                before(pre, subs, i as int) == self@,
                i == 0 ==> result == Expr::Nil,
                i > 0 ==> subs.last().result == Ok::<Expr, Stop>(result),
            decreases forms.len() - i,
        {
            let ghost start = self@;
            let ghost steps = subs;
            proof {
                pre.lemma_grows_valid(start);
            }
            let v = self.eval_in(frame, &forms[i], depth);
            proof {
                pre.lemma_grows_trans(start, self@);
                let t = choose|t: Trace| #[trigger] derives(start, *frame, forms@[i as int], depth as nat, t) && ends(t, self@, v);
                subs = steps.push(t);
                lemma_derives_seq_push(pre, *frame, forms@, i as nat, depth as nat, steps, t);
                assert(before(pre, subs, i as int) == start);
                assert(i >= 1 ==> subs[i - 1] == steps[i - 1]);
                assert(i >= 1 ==> steps.last() == steps[i - 1]);
                assert(derives_seq(pre, *frame, forms@, (i + 1) as nat, depth as nat, subs));
            }
            match v {
                Err(e) => {
                    proof {
                        let t = node(self@, Err(e), subs);
                        assert(runs(pre, *frame, *body, depth as nat, t));
                    }
                    return Err(e);
                },
                Ok(x) => {
                    result = x;
                },
            }
            i = i + 1;
        }
        let r = if tail.is_nil() {
            Ok(result)
        } else {
            Err(Stop::Failed(SError::ImproperList))
        };
        proof {
            let t = node(self@, r, subs);
            assert(runs(pre, *frame, *body, depth as nat, t));
        }
        r
    }
}

} // verus!
