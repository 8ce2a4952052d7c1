//! What evaluation means. An evaluation is described by its trace: the tree
//! of the steps that it took, each with the store and the result that it
//! left. `derives` says when a trace is that of evaluating an expression;
//! `evaluates` says that there is such a trace. The key of a new cell is not
//! determined, so evaluation is a relation between the store before and the
//! store after, not a function.

use vstd::prelude::*;
use crate::expr::{ConsCellKey, Expr, SError, SResult};
use crate::store::{Form, Store};

verus! {

/// Why an evaluation gave no value.
#[derive(Clone, Copy, Debug, PartialEq, Eq, Structural)]
pub enum Stop {
    /// An error of the program.
    Failed(SError),
    /// The nesting of evaluations went beyond the depth that was allowed.
    Exhausted,
}

/// One step of an evaluation, with the steps that it is made of.
pub struct Trace {
    /// The store after the step.
    pub post: Store,
    /// The result of the step.
    pub result: Result<Expr, Stop>,
    /// The key of the frame that the step allocated, where it is the
    /// application of a closure.
    pub key: usize,
    /// The steps inside this one, in the order in which they were taken.
    pub subs: Seq<Trace>,
}

/// The failure `e` as the result of an evaluation.
pub open spec fn fail(e: SError) -> Result<Expr, Stop> {
    Err(Stop::Failed(e))
}

/// The result of a heap operation as the result of an evaluation.
pub open spec fn lift(r: SResult<Expr>) -> Result<Expr, Stop> {
    match r {
        Ok(v) => Ok(v),
        Err(e) => Err(Stop::Failed(e)),
    }
}

/// The store in which step `i` of `subs` starts, where the first starts in
/// `pre`.
pub open spec fn before(pre: Store, subs: Seq<Trace>, i: int) -> Store {
    if i <= 0 {
        pre
    } else {
        subs[i - 1].post
    }
}

/// The values that the steps gave.
pub open spec fn values(subs: Seq<Trace>) -> Seq<Expr> {
    Seq::new(subs.len(), |i: int| subs[i].result->Ok_0)
}

/// The last of the steps failed.
pub open spec fn stopped(subs: Seq<Trace>) -> bool {
    subs.len() > 0 && subs.last().result is Err
}

/// The step `t` ends as its last inner step does.
pub open spec fn ends_as_last(t: Trace) -> bool {
    t.subs.len() > 0 && t.post == t.subs.last().post && t.result == t.subs.last().result
}

impl Store {
    /// The value of `(QUOTE e)`, given the list of its arguments.
    pub open spec fn quoted(self, args: Expr) -> SResult<Expr> {
        match self.arity(args, 1) {
            Err(e) => Err(e),
            Ok(_) => Ok(self.first(args)),
        }
    }

}

/// What is wrong with the argument count once every parameter has its
/// argument.
pub open spec fn arity_verdict(params: nat, params_tail: Expr, args: nat, args_tail: Expr) -> SResult<()> {
    if !(params_tail is Nil) {
        if args == params && args_tail is Nil {
            Err(SError::WrongNumberOfArgs)
        } else {
            Err(SError::ImproperList)
        }
    } else if args > params || !(args_tail is Nil) {
        Err(SError::WrongNumberOfArgs)
    } else {
        Ok(())
    }
}

/// `t` is the step that binds parameter `i` to argument `i` in the frame
/// `frame`, or fails because there is no such argument.
pub open spec fn binds_one(
    pre: Store,
    frame: Expr,
    params: Seq<Expr>,
    args: Seq<Expr>,
    args_tail: Expr,
    i: int,
    t: Trace,
) -> bool {
    if i >= args.len() {
        t.post == pre && t.result == fail(
            if args_tail is Nil {
                SError::WrongNumberOfArgs
            } else {
                SError::ImproperList
            },
        )
    } else {
        match t.result {
            Ok(_) => pre.defined(t.post, frame, params[i], args[i], Ok(())),
            Err(Stop::Failed(e)) => pre.defined(t.post, frame, params[i], args[i], Err(e)),
            Err(Stop::Exhausted) => false,
        }
    }
}

/// The first `n` of `subs` bind the first `n` parameters, one after the
/// other, and none but the last has failed.
pub open spec fn binds_seq(
    pre: Store,
    frame: Expr,
    params: Seq<Expr>,
    args: Seq<Expr>,
    args_tail: Expr,
    n: nat,
    subs: Seq<Trace>,
) -> bool
    decreases n,
{
    n == 0 || {
        &&& n <= subs.len()
        &&& n <= params.len()
        &&& binds_seq(pre, frame, params, args, args_tail, (n - 1) as nat, subs)
        &&& n >= 2 ==> subs[n - 2].result is Ok
        &&& binds_one(before(pre, subs, n - 1), frame, params, args, args_tail, n - 1, subs[n - 1])
    }
}

/// `t` is the step that binds the parameters of a closure to its arguments:
/// one inner step for each parameter, up to the first that fails.
pub open spec fn binds(
    pre: Store,
    frame: Expr,
    params: Seq<Expr>,
    args: Seq<Expr>,
    args_tail: Expr,
    t: Trace,
) -> bool {
    &&& binds_seq(pre, frame, params, args, args_tail, t.subs.len(), t.subs)
    &&& if stopped(t.subs) {
        ends_as_last(t)
    } else {
        t.subs.len() == params.len() && t.post == before(pre, t.subs, t.subs.len() as int) && t.result is Ok
    }
}

/// `t` is the trace of evaluating `expr` in the environment `env` from the
/// store `pre`, with nesting up to `depth`.
pub open spec fn derives(pre: Store, env: Expr, expr: Expr, depth: nat, t: Trace) -> bool
    decreases depth, 0nat, 0nat,
{
    if depth == 0 {
        t.post == pre && t.result == Err::<Expr, Stop>(Stop::Exhausted)
    } else {
        match expr {
            Expr::Symbol(_) => t.post == pre && t.result == lift(pre.lookup(env, expr)),
            Expr::Pair(_) => {
                let head = pre.first(expr);
                let args = pre.rest(expr);
                match pre.form_of(head) {
                    Some(Form::Quote) => t.post == pre && t.result == lift(pre.quoted(args)),
                    Some(Form::Define) => defines(pre, env, args, (depth - 1) as nat, t),
                    Some(Form::If) => branches(pre, env, args, (depth - 1) as nat, t),
                    Some(Form::Lambda) => abstracts(pre, env, args, t),
                    None => calls(pre, env, head, args, (depth - 1) as nat, t),
                }
            },
            _ => t.post == pre && t.result == Ok::<Expr, Stop>(expr),
        }
    }
}

/// `(DEFINE name e)`: `e` is evaluated, the value defined as `name` in the
/// frame `env`, and the symbol returned.
pub open spec fn defines(pre: Store, env: Expr, args: Expr, depth: nat, t: Trace) -> bool
    decreases depth, 4nat, 0nat,
{
    match pre.arity(args, 2) {
        Err(e) => t.post == pre && t.result == fail(e),
        Ok(_) => {
            let sym = pre.first(args);
            let rexpr = pre.first(pre.rest(args));
            if !(sym is Symbol) {
                t.post == pre && t.result == fail(SError::ImproperSymbol)
            } else {
                &&& t.subs.len() == 1
                &&& derives(pre, env, rexpr, depth, t.subs[0])
                &&& match t.subs[0].result {
                    Err(e) => ends_as_last(t),
                    Ok(val) => match t.result {
                        Ok(s) => s == sym && t.subs[0].post.defined(t.post, env, sym, val, Ok(())),
                        Err(Stop::Failed(e)) => t.subs[0].post.defined(t.post, env, sym, val, Err(e)),
                        Err(Stop::Exhausted) => false,
                    },
                }
            }
        },
    }
}

/// `(IF test then else)`: the test is evaluated, then one of the branches.
/// Every value but `#f` selects the first.
pub open spec fn branches(pre: Store, env: Expr, args: Expr, depth: nat, t: Trace) -> bool
    decreases depth, 4nat, 0nat,
{
    match pre.arity(args, 3) {
        Err(e) => t.post == pre && t.result == fail(e),
        Ok(_) => {
            let test = pre.first(args);
            let then_expr = pre.first(pre.rest(args));
            let else_expr = pre.first(pre.rest(pre.rest(args)));
            &&& t.subs.len() >= 1
            &&& derives(pre, env, test, depth, t.subs[0])
            &&& ends_as_last(t)
            &&& match t.subs[0].result {
                Err(e) => t.subs.len() == 1,
                Ok(v) => t.subs.len() == 2 && derives(
                    t.subs[0].post,
                    env,
                    if v.truthy() {
                        then_expr
                    } else {
                        else_expr
                    },
                    depth,
                    t.subs[1],
                ),
            }
        },
    }
}

/// `(LAMBDA params body...)`: a closure over `env`. There must be a
/// parameter list and at least one body form.
pub open spec fn abstracts(pre: Store, env: Expr, args: Expr, t: Trace) -> bool {
    match pre.at_least(args, 2) {
        Err(e) => t.post == pre && t.result == fail(e),
        Ok(false) => t.post == pre && t.result == fail(SError::WrongNumberOfArgs),
        Ok(true) => {
            let params = pre.first(args);
            let body = pre.rest(args);
            match pre.params_check(params) {
                Err(e) => t.post == pre && t.result == fail(e),
                Ok(_) => t.result matches Ok(c) && pre.closure_made(t.post, env, params, body, c),
            }
        },
    }
}

/// The first `n` of `subs` are the traces of evaluating the first `n` of
/// `elems` in `env`, one after the other, and none but the last has failed.
pub open spec fn derives_seq(pre: Store, env: Expr, elems: Seq<Expr>, n: nat, depth: nat, subs: Seq<Trace>) -> bool
    decreases depth, 1nat, n,
{
    n == 0 || {
        &&& n <= subs.len()
        &&& n <= elems.len()
        &&& derives_seq(pre, env, elems, (n - 1) as nat, depth, subs)
        &&& n >= 2 ==> subs[n - 2].result is Ok
        &&& derives(before(pre, subs, n - 1), env, elems[n - 1], depth, subs[n - 1])
    }
}

/// `t` is the trace of evaluating the elements of `list` in `env`, in order
/// and up to the first that fails, and of building the list of their values.
pub open spec fn maps(pre: Store, env: Expr, list: Expr, depth: nat, t: Trace) -> bool
    decreases depth, 2nat, 0nat,
{
    let elems = pre.elems(list);
    let mid = before(pre, t.subs, t.subs.len() as int);
    &&& derives_seq(pre, env, elems, t.subs.len(), depth, t.subs)
    &&& if stopped(t.subs) {
        ends_as_last(t)
    } else if t.subs.len() != elems.len() {
        false
    } else if !(pre.tail(list) is Nil) {
        t.post == mid && t.result == fail(SError::ImproperList)
    } else {
        t.result matches Ok(l) && mid.built(values(t.subs), Expr::Nil, t.post, l)
    }
}

/// `t` is the trace of evaluating the body forms of a closure in its frame,
/// in order and up to the first that fails; the value is that of the last
/// form.
pub open spec fn runs(pre: Store, frame: Expr, body: Expr, depth: nat, t: Trace) -> bool
    decreases depth, 2nat, 0nat,
{
    let forms = pre.elems(body);
    &&& derives_seq(pre, frame, forms, t.subs.len(), depth, t.subs)
    &&& if stopped(t.subs) {
        ends_as_last(t)
    } else if t.subs.len() != forms.len() {
        false
    } else {
        &&& t.post == before(pre, t.subs, t.subs.len() as int)
        &&& t.result == (if !(pre.tail(body) is Nil) {
            fail(SError::ImproperList)
        } else if forms.len() == 0 {
            Ok(Expr::Nil)
        } else {
            t.subs.last().result
        })
    }
}

/// `t` is the trace of applying `f` to the list `list` of its arguments. A
/// closure gets a new frame under the environment that it captured, in which
/// its parameters are bound and its body forms evaluated.
pub open spec fn applies(pre: Store, f: Expr, list: Expr, depth: nat, t: Trace) -> bool
    decreases depth, 3nat, 0nat,
{
    match f {
        Expr::Primitive(native) => match t.result {
            Ok(v) => pre.native_applied(t.post, native, list, Ok(v)),
            Err(Stop::Failed(e)) => pre.native_applied(t.post, native, list, Err(e)),
            Err(Stop::Exhausted) => false,
        },
        Expr::Closure(_) => {
            let inner = pre.rest(f);
            if !(inner is Pair) {
                t.post == pre && t.result == fail(SError::ImproperList)
            } else {
                let params = pre.elems(pre.first(inner));
                let params_tail = pre.tail(pre.first(inner));
                let args = pre.elems(list);
                let args_tail = pre.tail(list);
                let frame = Expr::Pair(ConsCellKey(t.key));
                &&& !pre.live(t.key)
                &&& t.subs.len() >= 1
                &&& binds(pre.with_cell(t.key, pre.first(f), Expr::Nil), frame, params, args, args_tail, t.subs[0])
                &&& match t.subs[0].result {
                    Err(e) => t.subs.len() == 1 && ends_as_last(t),
                    Ok(_) => match arity_verdict(params.len(), params_tail, args.len(), args_tail) {
                        Err(e) => t.subs.len() == 1 && t.post == t.subs[0].post && t.result == fail(e),
                        Ok(_) => t.subs.len() == 2 && ends_as_last(t) && runs(
                            t.subs[0].post,
                            frame,
                            pre.rest(inner),
                            depth,
                            t.subs[1],
                        ),
                    },
                }
            }
        },
        _ => t.post == pre && t.result == fail(SError::NotCallable),
    }
}

/// A call: the head is evaluated, then the arguments, then the value of the
/// head is applied to the list of their values.
pub open spec fn calls(pre: Store, env: Expr, head: Expr, args: Expr, depth: nat, t: Trace) -> bool
    decreases depth, 4nat, 0nat,
{
    &&& t.subs.len() >= 1
    &&& ends_as_last(t)
    &&& derives(pre, env, head, depth, t.subs[0])
    &&& match t.subs[0].result {
        Err(e) => t.subs.len() == 1,
        Ok(f) => {
            &&& t.subs.len() >= 2
            &&& maps(t.subs[0].post, env, args, depth, t.subs[1])
            &&& match t.subs[1].result {
                Err(e) => t.subs.len() == 2,
                Ok(list) => t.subs.len() == 3 && applies(t.subs[1].post, f, list, depth, t.subs[2]),
            }
        },
    }
}

/// The step `t` left the store `post` and the result `r`.
pub open spec fn ends(t: Trace, post: Store, r: Result<Expr, Stop>) -> bool {
    t.post == post && t.result == r
}

/// Evaluating `expr` in the environment `env`, with nesting up to `depth`,
/// can take the store `pre` to the store `post` and give `r`.
pub open spec fn evaluates(pre: Store, env: Expr, expr: Expr, depth: nat, post: Store, r: Result<Expr, Stop>) -> bool {
    exists|t: Trace| #[trigger] derives(pre, env, expr, depth, t) && ends(t, post, r)
}

/// Evaluating the elements of `list` and building the list of their values
/// can take `pre` to `post` and give `r`.
pub open spec fn maps_to(pre: Store, env: Expr, list: Expr, depth: nat, post: Store, r: Result<Expr, Stop>) -> bool {
    exists|t: Trace| #[trigger] maps(pre, env, list, depth, t) && ends(t, post, r)
}

/// Applying `f` to the list `list` can take `pre` to `post` and give `r`.
pub open spec fn applies_to(pre: Store, f: Expr, list: Expr, depth: nat, post: Store, r: Result<Expr, Stop>) -> bool {
    exists|t: Trace| #[trigger] applies(pre, f, list, depth, t) && ends(t, post, r)
}

/// In `(IF test then else)`, the value `#f` of the test selects `else`, and
/// every other value selects `then`: `()` and `0` too.
pub proof fn law_if_selects(pre: Store, env: Expr, args: Expr, depth: nat, t: Trace)
    requires
        pre.arity(args, 3) is Ok,
        branches(pre, env, args, depth, t),
        t.subs[0].result is Ok,
    ensures
        t.subs.len() == 2,
        t.result == t.subs[1].result,
        t.subs[0].result == Ok::<Expr, Stop>(Expr::Boolean(false)) ==> derives(
            t.subs[0].post,
            env,
            pre.first(pre.rest(pre.rest(args))),
            depth,
            t.subs[1],
        ),
        t.subs[0].result != Ok::<Expr, Stop>(Expr::Boolean(false)) ==> derives(
            t.subs[0].post,
            env,
            pre.first(pre.rest(args)),
            depth,
            t.subs[1],
        ),
{
}

/// A value that is neither a symbol nor a pair evaluates to itself, and a
/// symbol to what the environment binds it to; neither changes the store.
pub proof fn law_atoms_evaluate(pre: Store, env: Expr, expr: Expr, depth: nat, post: Store, r: Result<Expr, Stop>)
    requires
        depth > 0,
        !(expr is Pair),
        evaluates(pre, env, expr, depth, post, r),
    ensures
        post == pre,
        expr is Symbol ==> r == lift(pre.lookup(env, expr)),
        !(expr is Symbol) ==> r == Ok::<Expr, Stop>(expr),
{
}

/// `(QUOTE e)` evaluates to `e` itself, which is not evaluated.
pub proof fn law_quote_evaluates(pre: Store, env: Expr, expr: Expr, depth: nat, post: Store, r: Result<Expr, Stop>)
    requires
        depth > 0,
        expr is Pair,
        pre.first(expr) == Expr::Symbol(pre.kw_quote),
        pre.arity(pre.rest(expr), 1) is Ok,
        evaluates(pre, env, expr, depth, post, r),
    ensures
        post == pre,
        r == Ok::<Expr, Stop>(pre.first(pre.rest(expr))),
{
}

/// No evaluation goes on at depth zero.
pub proof fn law_depth_zero(pre: Store, env: Expr, expr: Expr, post: Store, r: Result<Expr, Stop>)
    requires
        evaluates(pre, env, expr, 0, post, r),
    ensures
        post == pre,
        r == Err::<Expr, Stop>(Stop::Exhausted),
{
}

} // verus!
