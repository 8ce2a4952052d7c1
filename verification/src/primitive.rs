//! The native functions and their registration in the root environment.

use vstd::prelude::*;
use crate::expr::{Expr, Native, SError, SResult};
use crate::heap::Heap;
use crate::store::{fold_case, upper_char, Store};

verus! {

/// The quotient of `a` by `b`, rounded toward zero.
pub open spec fn trunc_div(a: int, b: int) -> int {
    if a >= 0 && b > 0 {
        a / b
    } else if a < 0 && b < 0 {
        (-a) / (-b)
    } else if a < 0 {
        -((-a) / b)
    } else {
        -(a / (-b))
    }
}

impl Native {
    /// The name under which the root environment binds the function.
    pub open spec fn name_spec(self) -> Seq<char> {
        match self {
            Native::First => "first"@,
            Native::Rest => "rest"@,
            Native::ListP => "list?"@,
            Native::Cons => "cons"@,
            Native::Plus => "+"@,
            Native::Minus => "-"@,
            Native::Times => "*"@,
            Native::Divide => "/"@,
            Native::NumEq => "="@,
            Native::Lt => "<"@,
            Native::Lte => "<="@,
            Native::Gt => ">"@,
            Native::Gte => ">="@,
        }
    }

    /// The name under which the root environment binds the function.
    pub fn name(&self) -> (r: &'static str)
        ensures
            r@ == self.name_spec(),
    {
        match self {
            Native::First => "first",
            Native::Rest => "rest",
            Native::ListP => "list?",
            Native::Cons => "cons",
            Native::Plus => "+",
            Native::Minus => "-",
            Native::Times => "*",
            Native::Divide => "/",
            Native::NumEq => "=",
            Native::Lt => "<",
            Native::Lte => "<=",
            Native::Gt => ">",
            Native::Gte => ">=",
        }
    }

    /// The mathematical value of one step of an arithmetic function.
    pub open spec fn exact(self, a: int, b: int) -> int {
        match self {
            Native::Plus => a + b,
            Native::Minus => a - b,
            Native::Times => a * b,
            _ => trunc_div(a, b),
        }
    }

    /// One step of an arithmetic function on 64-bit integers: the exact
    /// value, or a type error where there is none in 64 bits (a division by
    /// zero, an overflow). A function that is not arithmetic has no step.
    pub open spec fn step(self, a: i64, b: i64) -> SResult<i64> {
        let x = self.exact(a as int, b as int);
        if !self.is_arithmetic() || (self is Divide && b == 0) {
            Err(SError::TypeError)
        } else if i64::MIN <= x <= i64::MAX {
            Ok(x as i64)
        } else {
            Err(SError::TypeError)
        }
    }

    /// What a predicate on two integers says; a function that is no
    /// predicate says no.
    pub open spec fn holds(self, a: i64, b: i64) -> bool {
        match self {
            Native::NumEq => a == b,
            Native::Lt => a < b,
            Native::Lte => a <= b,
            Native::Gt => a > b,
            Native::Gte => a >= b,
            _ => false,
        }
    }

    /// The value that an arithmetic function gives for a single operand `x`
    /// is that of one step from this value to `x`.
    pub open spec fn identity(self) -> i64 {
        match self {
            Native::Times => 1,
            Native::Divide => 1,
            _ => 0,
        }
    }

    /// The function is one of `+ - * /`.
    pub open spec fn is_arithmetic(self) -> bool {
        self is Plus || self is Minus || self is Times || self is Divide
    }

    /// The function is one of `= < <= > >=`.
    pub open spec fn is_comparison(self) -> bool {
        self is NumEq || self is Lt || self is Lte || self is Gt || self is Gte
    }

    /// Applies the function to the list of its arguments.
    pub fn call(&self, args: &Expr, heap: &mut Heap) -> (r: SResult<Expr>)
        requires
            old(heap)@.wf(),
            old(heap)@.valid(*args),
        ensures
            final(heap)@.wf(),
            old(heap)@.grows_to(final(heap)@),
            old(heap)@.native_applied(final(heap)@, *self, *args, r),
            r matches Ok(v) ==> final(heap)@.valid(v),
    {
        match self {
            Native::First => first(args, heap),
            Native::Rest => rest(args, heap),
            Native::ListP => list_p(args, heap),
            Native::Cons => cons(args, heap),
            Native::Plus => do_plus(args, heap),
            Native::Minus => do_minus(args, heap),
            Native::Times => do_times(args, heap),
            Native::Divide => do_divide(args, heap),
            Native::NumEq => do_numeq(args, heap),
            Native::Lt => do_lt(args, heap),
            Native::Lte => do_lte(args, heap),
            Native::Gt => do_gt(args, heap),
            Native::Gte => do_gte(args, heap),
        }
    }
}

/// The result of folding an arithmetic function over `elems[from..]`,
/// starting from `acc`.
pub open spec fn fold_ints(f: Native, acc: i64, elems: Seq<Expr>, from: int) -> SResult<i64>
    decreases elems.len() - from,
{
    if from < 0 || from >= elems.len() {
        Ok(acc)
    } else {
        match elems[from] {
            Expr::Integer(x) => match f.step(acc, x) {
                Ok(y) => fold_ints(f, y, elems, from + 1),
                Err(e) => Err(e),
            },
            _ => Err(SError::TypeError),
        }
    }
}

/// The value of an arithmetic function on the operands `elems` of a list
/// that ends in `tail`: for one operand a step from `identity`, for more a
/// fold from the left that starts with the first operand.
pub open spec fn arithmetic(f: Native, identity: i64, elems: Seq<Expr>, tail: Expr) -> SResult<Expr> {
    if elems.len() == 0 {
        if tail is Nil {
            Err(SError::WrongNumberOfArgs)
        } else {
            Err(SError::ImproperList)
        }
    } else {
        match elems[0] {
            Expr::Integer(x) => if elems.len() == 1 && tail is Nil {
                match f.step(identity, x) {
                    Ok(y) => Ok(Expr::Integer(y)),
                    Err(e) => Err(e),
                }
            } else {
                match fold_ints(f, x, elems, 1) {
                    Ok(y) => if tail is Nil {
                        Ok(Expr::Integer(y))
                    } else {
                        Err(SError::ImproperList)
                    },
                    Err(e) => Err(e),
                }
            },
            _ => Err(SError::TypeError),
        }
    }
}

impl Store {
    /// What the check of an argument count says.
    pub open spec fn arity(self, args: Expr, n: nat) -> SResult<()> {
        match self.length_is(args, n) {
            Err(e) => Err(e),
            Ok(false) => Err(SError::WrongNumberOfArgs),
            Ok(true) => Ok(()),
        }
    }

    /// What a predicate says of the two integers of an argument list.
    pub open spec fn comparison(self, f: Native, args: Expr) -> SResult<Expr> {
        match self.arity(args, 2) {
            Err(e) => Err(e),
            Ok(_) => match (self.first(args), self.first(self.rest(args))) {
                (Expr::Integer(x), Expr::Integer(y)) => Ok(Expr::Boolean(f.holds(x, y))),
                _ => Err(SError::TypeError),
            },
        }
    }

    /// The value of a native function that allocates nothing.
    pub open spec fn native_value(self, f: Native, args: Expr) -> SResult<Expr> {
        let a = self.first(args);
        if f.is_arithmetic() {
            arithmetic(f, f.identity(), self.elems(args), self.tail(args))
        } else if f.is_comparison() {
            self.comparison(f, args)
        } else {
            match self.arity(args, 1) {
                Err(e) => Err(e),
                Ok(_) => match f {
                    Native::First => if a is Pair {
                        Ok(self.first(a))
                    } else {
                        Err(SError::ImproperList)
                    },
                    Native::Rest => if a is Pair {
                        Ok(self.rest(a))
                    } else {
                        Err(SError::ImproperList)
                    },
                    _ => Ok(Expr::Boolean(self.is_list(a))),
                },
            }
        }
    }

    /// Applying the native function `f` to the list `args` in `self` gave `r`
    /// and the store `post`. Only `cons` changes the store: it adds the cell
    /// of the pair that it returns.
    pub open spec fn native_applied(self, post: Store, f: Native, args: Expr, r: SResult<Expr>) -> bool {
        if f is Cons {
            match self.arity(args, 2) {
                Err(e) => post == self && r == Err::<Expr, SError>(e),
                Ok(_) => r matches Ok(Expr::Pair(k)) && !self.live(k.0) && post == self.with_cell(
                    k.0,
                    self.first(args),
                    self.first(self.rest(args)),
                ),
            }
        } else {
            post == self && r == self.native_value(f, args)
        }
    }
}

/// Checks that the list `args` has exactly `n` elements.
pub fn validate_arg_count(heap: &Heap, args: &Expr, n: usize) -> (r: SResult<()>)
    requires
        heap@.wf(),
        heap@.known(*args),
    ensures
        r == heap@.arity(*args, n as nat),
{
    match heap.test_length(args, n) {
        Err(e) => Err(e),
        Ok(false) => Err(SError::WrongNumberOfArgs),
        Ok(true) => Ok(()),
    }
}

/// From a list of exactly `n` elements one can take `n` times the first
/// element of what is left.
pub proof fn lemma_arity_pairs(st: Store, args: Expr, n: nat)
    requires
        st.arity(args, n) is Ok,
        n > 0,
    ensures
        args is Pair,
        st.arity(st.rest(args), (n - 1) as nat) is Ok,
{
}

/// `first`: the first half of the pair that is the only argument.
pub fn first(args: &Expr, heap: &Heap) -> (r: SResult<Expr>)
    requires
        heap@.wf(),
        heap@.known(*args),
    ensures
        r == heap@.native_value(Native::First, *args),
        r matches Ok(v) ==> heap@.known(v) && (heap@.valid(*args) ==> heap@.valid(v)),
{
    validate_arg_count(heap, args, 1)?;
    proof {
        lemma_arity_pairs(heap@, *args, 1);
    }
    let arg = heap.get_first(args)?;
    heap.get_first(&arg)
}

/// `rest`: the second half of the pair that is the only argument.
pub fn rest(args: &Expr, heap: &Heap) -> (r: SResult<Expr>)
    requires
        heap@.wf(),
        heap@.known(*args),
    ensures
        r == heap@.native_value(Native::Rest, *args),
        r matches Ok(v) ==> heap@.known(v) && (heap@.valid(*args) ==> heap@.valid(v)),
{
    validate_arg_count(heap, args, 1)?;
    proof {
        lemma_arity_pairs(heap@, *args, 1);
    }
    let arg = heap.get_first(args)?;
    heap.get_rest(&arg)
}

/// `list?`: whether the only argument is a proper list.
pub fn list_p(args: &Expr, heap: &Heap) -> (r: SResult<Expr>)
    requires
        heap@.wf(),
        heap@.known(*args),
    ensures
        r == heap@.native_value(Native::ListP, *args),
        r matches Ok(v) ==> heap@.known(v) && (heap@.valid(*args) ==> heap@.valid(v)),
{
    validate_arg_count(heap, args, 1)?;
    proof {
        lemma_arity_pairs(heap@, *args, 1);
    }
    let arg = heap.get_first(args)?;
    Ok(Expr::Boolean(heap.is_proper_list(&arg)?))
}

/// `cons`: a new pair of the two arguments.
pub fn cons(args: &Expr, heap: &mut Heap) -> (r: SResult<Expr>)
    requires
        old(heap)@.wf(),
        old(heap)@.valid(*args),
    ensures
        final(heap)@.wf(),
        old(heap)@.grows_to(final(heap)@),
        old(heap)@.native_applied(final(heap)@, Native::Cons, *args, r),
        r matches Ok(v) ==> final(heap)@.valid(v),
{
    validate_arg_count(heap, args, 2)?;
    proof {
        lemma_arity_pairs(heap@, *args, 2);
        lemma_arity_pairs(heap@, heap@.rest(*args), 1);
    }
    let arg1 = heap.get_first(args)?;
    let rest = heap.get_rest(args)?;
    let arg2 = heap.get_first(&rest)?;
    heap.make_cons(arg1, arg2)
}

/// `cons` gives a pair whose first half is the first argument and whose
/// second half is the second; every other cell is as it was.
pub proof fn law_cons(pre: Store, post: Store, args: Expr, r: SResult<Expr>)
    requires
        pre.arity(args, 2) is Ok,
        pre.native_applied(post, Native::Cons, args, r),
    ensures
        r matches Ok(p) && p is Pair && !pre.has(p) && post.has(p) && post.first(p) == pre.first(args) && post.rest(p)
            == pre.first(pre.rest(args)),
        forall|k: usize| pre.live(k) ==> post.live(k) && post.cells[k] == pre.cells[k],
{
}

/// `cons`, applied to the list that was built of two values, gives a pair
/// of the first value and the second.
pub proof fn law_cons_of_values(pre: Store, vals: Seq<Expr>, mid: Store, list: Expr, post: Store, r: SResult<Expr>)
    requires
        pre.cells.dom().finite(),
        vals.len() == 2,
        pre.built(vals, Expr::Nil, mid, list),
        mid.native_applied(post, Native::Cons, list, r),
    ensures
        r matches Ok(p) && p is Pair && post.has(p) && post.first(p) == vals[0] && post.rest(p) == vals[1],
{
    pre.lemma_built_list(vals, Expr::Nil, mid, list);
    mid.lemma_list_length(list, 2);
    mid.lemma_list_unfold(list);
    mid.lemma_list_unfold(mid.rest(list));
    assert(vals.drop_first()[0] == vals[1]);
}

/// `list?` says yes exactly of `Nil` and of a chain of pairs that ends in
/// `Nil`.
pub proof fn law_list_p(pre: Store, post: Store, args: Expr, r: SResult<Expr>)
    requires
        pre.cells.dom().finite(),
        pre.arity(args, 1) is Ok,
        pre.native_applied(post, Native::ListP, args, r),
    ensures
        post == pre,
        r matches Ok(Expr::Boolean(b)) && (b <==> exists|n: nat| #[trigger] pre.tail_upto(pre.first(args), n) is Nil),
{
    crate::lists::law_list_ends_in_nil(pre, pre.first(args));
}

/// The integer that a value is.
pub fn as_integer(expr: &Expr) -> (r: SResult<i64>)
    ensures
        r == (match *expr {
            Expr::Integer(n) => Ok(n),
            _ => Err(SError::TypeError),
        }),
{
    match expr {
        Expr::Integer(n) => Ok(*n),
        _ => Err(SError::TypeError),
    }
}

/// One step of an arithmetic function.
pub fn bin_op(f: Native, a: i64, b: i64) -> (r: SResult<i64>)
    ensures
        r == f.step(a, b),
{
    let x = match f {
        Native::Plus => a.checked_add(b),
        Native::Minus => a.checked_sub(b),
        Native::Times => a.checked_mul(b),
        Native::Divide => a.checked_div(b),
        _ => None,
    };
    match x {
        Some(y) => Ok(y),
        None => Err(SError::TypeError),
    }
}

/// An arithmetic function on the list of its operands.
pub fn do_arithmetic(args: &Expr, heap: &Heap, identity: i64, f: Native) -> (r: SResult<Expr>)
    requires
        heap@.wf(),
        heap@.known(*args),
    ensures
        r == arithmetic(f, identity, heap@.elems(*args), heap@.tail(*args)),
{
    let (elems, tail) = heap.spine(args);
    if elems.len() == 0 {
        return if tail.is_nil() {
            Err(SError::WrongNumberOfArgs)
        } else {
            Err(SError::ImproperList)
        };
    }
    let head = as_integer(&elems[0])?;
    if elems.len() == 1 && tail.is_nil() {
        return Ok(Expr::Integer(bin_op(f, identity, head)?));
    }
    let mut result = head;
    let mut i: usize = 1;
    while i < elems.len()
        invariant
            1 <= i <= elems.len(),
            elems@ == heap@.elems(*args),
            tail == heap@.tail(*args),
            elems@[0] == Expr::Integer(head),
            !(elems@.len() == 1 && tail is Nil),
            fold_ints(f, head, elems@, 1) == fold_ints(f, result, elems@, i as int),
        decreases elems.len() - i,
    {
        match as_integer(&elems[i]) {
            Err(e) => {
                return Err(e);
            },
            Ok(x) => match bin_op(f, result, x) {
                Err(e) => {
                    return Err(e);
                },
                Ok(y) => {
                    result = y;
                },
            },
        }
        i = i + 1;
    }
    if tail.is_nil() {
        Ok(Expr::Integer(result))
    } else {
        Err(SError::ImproperList)
    }
}

/// `+`: the sum of the operands.
pub fn do_plus(args: &Expr, heap: &Heap) -> (r: SResult<Expr>)
    requires
        heap@.wf(),
        heap@.known(*args),
    ensures
        r == heap@.native_value(Native::Plus, *args),
{
    do_arithmetic(args, heap, 0, Native::Plus)
}

/// `-`: the first operand less the others; of one operand, its negation.
pub fn do_minus(args: &Expr, heap: &Heap) -> (r: SResult<Expr>)
    requires
        heap@.wf(),
        heap@.known(*args),
    ensures
        r == heap@.native_value(Native::Minus, *args),
{
    do_arithmetic(args, heap, 0, Native::Minus)
}

/// `*`: the product of the operands.
pub fn do_times(args: &Expr, heap: &Heap) -> (r: SResult<Expr>)
    requires
        heap@.wf(),
        heap@.known(*args),
    ensures
        r == heap@.native_value(Native::Times, *args),
{
    do_arithmetic(args, heap, 1, Native::Times)
}

/// `/`: the first operand divided by the others in turn, each quotient
/// rounded toward zero; of one operand, one divided by it.
pub fn do_divide(args: &Expr, heap: &Heap) -> (r: SResult<Expr>)
    requires
        heap@.wf(),
        heap@.known(*args),
    ensures
        r == heap@.native_value(Native::Divide, *args),
{
    do_arithmetic(args, heap, 1, Native::Divide)
}

/// What a predicate says of two integers.
pub fn compare(f: Native, a: i64, b: i64) -> (r: bool)
    ensures
        r == f.holds(a, b),
{
    match f {
        Native::NumEq => a == b,
        Native::Lt => a < b,
        Native::Lte => a <= b,
        Native::Gt => a > b,
        Native::Gte => a >= b,
        _ => false,
    }
}

/// A predicate on the list of its two integer operands.
pub fn do_predicate(args: &Expr, heap: &Heap, f: Native) -> (r: SResult<Expr>)
    requires
        heap@.wf(),
        heap@.known(*args),
    ensures
        r == heap@.comparison(f, *args),
{
    validate_arg_count(heap, args, 2)?;
    proof {
        lemma_arity_pairs(heap@, *args, 2);
        lemma_arity_pairs(heap@, heap@.rest(*args), 1);
    }
    let a = heap.get_first(args)?;
    let rest = heap.get_rest(args)?;
    let b = heap.get_first(&rest)?;
    let arg1 = as_integer(&a)?;
    let arg2 = as_integer(&b)?;
    Ok(Expr::Boolean(compare(f, arg1, arg2)))
}

/// `=`: whether the two integers are equal.
pub fn do_numeq(args: &Expr, heap: &Heap) -> (r: SResult<Expr>)
    requires
        heap@.wf(),
        heap@.known(*args),
    ensures
        r == heap@.native_value(Native::NumEq, *args),
{
    do_predicate(args, heap, Native::NumEq)
}

/// `<`: whether the first integer is less than the second.
pub fn do_lt(args: &Expr, heap: &Heap) -> (r: SResult<Expr>)
    requires
        heap@.wf(),
        heap@.known(*args),
    ensures
        r == heap@.native_value(Native::Lt, *args),
{
    do_predicate(args, heap, Native::Lt)
}

/// `<=`: whether the first integer is at most the second.
pub fn do_lte(args: &Expr, heap: &Heap) -> (r: SResult<Expr>)
    requires
        heap@.wf(),
        heap@.known(*args),
    ensures
        r == heap@.native_value(Native::Lte, *args),
{
    do_predicate(args, heap, Native::Lte)
}

/// `>`: whether the first integer is greater than the second.
pub fn do_gt(args: &Expr, heap: &Heap) -> (r: SResult<Expr>)
    requires
        heap@.wf(),
        heap@.known(*args),
    ensures
        r == heap@.native_value(Native::Gt, *args),
{
    do_predicate(args, heap, Native::Gt)
}

/// `>=`: whether the first integer is at least the second.
pub fn do_gte(args: &Expr, heap: &Heap) -> (r: SResult<Expr>)
    requires
        heap@.wf(),
        heap@.known(*args),
    ensures
        r == heap@.native_value(Native::Gte, *args),
{
    do_predicate(args, heap, Native::Gte)
}

impl Store {
    /// The root environment binds the name of the native function `f` to
    /// that function.
    pub open spec fn binds_native(self, f: Native) -> bool {
        &&& self.names.contains(fold_case(f.name_spec()))
        &&& self.own_value(self.root_env, self.symbol_of(f.name_spec())) == Some(Expr::Primitive(f))
        &&& self.lookup(self.root_env, self.symbol_of(f.name_spec())) == Ok::<Expr, SError>(Expr::Primitive(f))
    }
}

impl Store {
    /// The root environment itself binds no name.
    pub open spec fn binds_nothing(self) -> bool {
        forall|s: Expr| !((#[trigger] self.own_value(self.root_env, s)) is Some)
    }

    /// Every name that the root environment itself binds is that of a native
    /// function.
    pub open spec fn binds_only_natives(self) -> bool {
        forall|s: Expr| (#[trigger] self.own_value(self.root_env, s)) is Some ==> self.names_native(s)
    }

    /// The symbol is that of the name of a native function.
    pub open spec fn names_native(self, s: Expr) -> bool {
        exists|j: int| 0 <= j < natives().len() && s == self.symbol_of((#[trigger] natives()[j]).name_spec())
    }
}

/// The native functions, in the order in which they are bound.
pub open spec fn natives() -> Seq<Native> {
    seq![
        Native::First,
        Native::Rest,
        Native::ListP,
        Native::Cons,
        Native::Plus,
        Native::Minus,
        Native::Times,
        Native::Divide,
        Native::NumEq,
        Native::Lt,
        Native::Lte,
        Native::Gt,
        Native::Gte,
    ]
}

/// No two native functions have the same name, whatever the case of the
/// letters.
pub proof fn lemma_native_names_differ(f: Native, g: Native)
    requires
        f != g,
    ensures
        fold_case(f.name_spec()) != fold_case(g.name_spec()),
{
    reveal_strlit("first");
    reveal_strlit("rest");
    reveal_strlit("list?");
    reveal_strlit("cons");
    reveal_strlit("+");
    reveal_strlit("-");
    reveal_strlit("*");
    reveal_strlit("/");
    reveal_strlit("=");
    reveal_strlit("<");
    reveal_strlit("<=");
    reveal_strlit(">");
    reveal_strlit(">=");
    let a = fold_case(f.name_spec());
    let b = fold_case(g.name_spec());
    assert(a.len() == f.name_spec().len());
    assert(b.len() == g.name_spec().len());
    if a.len() == b.len() {
        assert(a[0] == upper_char(f.name_spec()[0]));
        assert(b[0] == upper_char(g.name_spec()[0]));
        assert(a[0] != b[0]);
    }
}

/// Binds `name` in the root environment to the native function `func`.
pub fn add_primitive(heap: &mut Heap, name: &str, func: Native) -> (r: SResult<()>)
    requires
        old(heap)@.wf(),
    ensures
        final(heap)@.wf(),
        final(heap)@.root_env == old(heap)@.root_env,
        exists|mid: Store| #[trigger]
            old(heap)@.interned(mid, name@, old(heap)@.symbol_of(name@)) && mid.defined(
                final(heap)@,
                old(heap)@.root_env,
                old(heap)@.symbol_of(name@),
                Expr::Primitive(func),
                r,
            ),
        old(heap)@.frame_wf(old(heap)@.root_env) ==> {
            let root = old(heap)@.root_env;
            let sym = old(heap)@.symbol_of(name@);
            &&& r is Ok
            &&& final(heap)@.frame_wf(root)
            &&& final(heap)@.first(root) == old(heap)@.first(root)
            &&& final(heap)@.own_value(root, sym) == Some(Expr::Primitive(func))
            &&& forall|s: Expr| s != sym ==> final(heap)@.own_value(root, s) == old(heap)@.own_value(root, s)
            &&& old(heap)@.tidy() && !(old(heap)@.own_value(root, sym) is Some && !(old(heap)@.own_value(
                root,
                sym,
            )->Some_0 is Primitive)) ==> final(heap)@.tidy()
        },
{
    let ghost pre = heap@;
    let sym = heap.make_symbol(name).unwrap();
    let ghost mid = heap@;
    let env = heap.root_env();
    let r = heap.env_set(&env, &sym, Expr::Primitive(func));
    proof {
        if pre.frame_wf(pre.root_env) {
            pre.lemma_frame_extends(mid, env);
            mid.lemma_defined(heap@, env, sym, Expr::Primitive(func), r);
            if pre.tidy() && !(pre.own_value(env, sym) is Some && !(pre.own_value(env, sym)->Some_0 is Primitive)) {
                pre.lemma_interned_tidy(mid, name@, sym);
                mid.lemma_defined_tidy(heap@, env, sym, Expr::Primitive(func), r);
            }
        }
    }
    r
}

/// Binds every native function in the root environment, each under its
/// name, and stops at the first that cannot be bound.
pub fn add_primitives(heap: &mut Heap) -> (r: SResult<()>)
    requires
        old(heap)@.wf(),
    ensures
        final(heap)@.wf(),
        final(heap)@.root_env == old(heap)@.root_env,
        old(heap)@.frame_wf(old(heap)@.root_env) ==> {
            &&& r is Ok
            &&& final(heap)@.frame_wf(final(heap)@.root_env)
            &&& final(heap)@.first(final(heap)@.root_env) == old(heap)@.first(old(heap)@.root_env)
            &&& final(heap)@.first(final(heap)@.root_env) is Nil ==> forall|f: Native| #[trigger] final(heap)@.binds_native(f)
            &&& forall|s: Expr|
                (#[trigger] final(heap)@.own_value(final(heap)@.root_env, s)) is Some ==> old(heap)@.own_value(
                    old(heap)@.root_env,
                    s,
                ) is Some || final(heap)@.names_native(s)
            &&& old(heap)@.tidy() && old(heap)@.binds_nothing() ==> final(heap)@.tidy()
        },
{
    let all: [Native; 13] = [
        Native::First,
        Native::Rest,
        Native::ListP,
        Native::Cons,
        Native::Plus,
        Native::Minus,
        Native::Times,
        Native::Divide,
        Native::NumEq,
        Native::Lt,
        Native::Lte,
        Native::Gt,
        Native::Gte,
    ];
    assert(all@ =~= natives());
    let ghost pre = heap@;
    let ghost sound = pre.frame_wf(pre.root_env);
    let ghost clean = pre.tidy() && pre.binds_nothing();
    let mut i: usize = 0;
    while i < 13
        invariant
            i <= 13,
            all@ == natives(),
            pre == old(heap)@,
            heap@.wf(),
            heap@.root_env == pre.root_env,
            sound == pre.frame_wf(pre.root_env),
            sound ==> heap@.frame_wf(pre.root_env),
            sound ==> heap@.first(pre.root_env) == pre.first(pre.root_env),
            sound ==> forall|j: int|
                0 <= j < i ==> {
                    let f = #[trigger] natives()[j];
                    &&& heap@.names.contains(fold_case(f.name_spec()))
                    &&& heap@.own_value(pre.root_env, heap@.symbol_of(f.name_spec())) == Some(Expr::Primitive(f))
                },
            sound ==> forall|s: Expr|
                (#[trigger] heap@.own_value(pre.root_env, s)) is Some ==> pre.own_value(pre.root_env, s) is Some
                    || exists|j: int| 0 <= j < i && s == heap@.symbol_of((#[trigger] natives()[j]).name_spec()),
            clean == (pre.tidy() && pre.binds_nothing()),
            sound && clean ==> heap@.tidy(),
        decreases 13 - i,
    {
        let ghost before = heap@;
        let f = all[i];
        proof {
            if sound && clean {
                let sym = before.symbol_of(f.name_spec());
                if before.own_value(pre.root_env, sym) is Some {
                    assert(!(pre.own_value(pre.root_env, sym) is Some));
                    let j = choose|j: int|
                        0 <= j < i && sym == before.symbol_of((#[trigger] natives()[j]).name_spec());
                    assert(before.own_value(pre.root_env, sym) == Some(Expr::Primitive(natives()[j])));
                }
            }
        }
        let r = add_primitive(heap, f.name(), f);
        proof {
            if sound {
                let mid = choose|mid: Store| #[trigger]
                    before.interned(mid, f.name_spec(), before.symbol_of(f.name_spec())) && mid.defined(
                        heap@,
                        before.root_env,
                        before.symbol_of(f.name_spec()),
                        Expr::Primitive(f),
                        r,
                    );
                before.lemma_interned_id(mid, f.name_spec(), before.symbol_of(f.name_spec()));
                assert(heap@.names == mid.names);
                let sym = before.symbol_of(f.name_spec());
                assert(mid.names[before.id_of(f.name_spec()) as int] == fold_case(f.name_spec())) by {
                    if !before.names.contains(fold_case(f.name_spec())) {
                        assert(mid.names.last() == fold_case(f.name_spec()));
                    }
                }
                assert(mid.names.contains(fold_case(f.name_spec())));
                before.lemma_frame_extends(mid, pre.root_env);
                mid.lemma_defined(heap@, pre.root_env, sym, Expr::Primitive(f), r);
                assert(natives()[i as int] == f);
                assert(heap@.symbol_of(f.name_spec()) == sym);
                assert forall|s: Expr| (#[trigger] heap@.own_value(pre.root_env, s)) is Some implies pre.own_value(
                    pre.root_env,
                    s,
                ) is Some || exists|j: int|
                    0 <= j < i + 1 && s == heap@.symbol_of((#[trigger] natives()[j]).name_spec()) by {
                    if s != sym {
                        assert(before.own_value(pre.root_env, s) is Some);
                        if !(pre.own_value(pre.root_env, s) is Some) {
                            let j = choose|j: int|
                                0 <= j < i && s == before.symbol_of((#[trigger] natives()[j]).name_spec());
                            let g = natives()[j];
                            let a = before.id_of(g.name_spec()) as int;
                            assert(before.names[a] == fold_case(g.name_spec()));
                            assert(mid.names[a] == before.names[a]) by {
                                if !before.names.contains(fold_case(f.name_spec())) {
                                    assert(mid.names == before.names.push(fold_case(f.name_spec())));
                                }
                            }
                            assert(heap@.symbol_of(g.name_spec()) == s);
                        }
                    }
                }
                assert forall|j: int| 0 <= j < i + 1 implies {
                    let g = #[trigger] natives()[j];
                    &&& heap@.names.contains(fold_case(g.name_spec()))
                    &&& heap@.own_value(pre.root_env, heap@.symbol_of(g.name_spec())) == Some(Expr::Primitive(g))
                } by {
                    let g = natives()[j];
                    if j < i {
                        lemma_native_names_differ(f, g);
                        let a = before.id_of(g.name_spec()) as int;
                        assert(before.names[a] == fold_case(g.name_spec()));
                        assert(mid.names[a] == before.names[a]) by {
                            if !before.names.contains(fold_case(f.name_spec())) {
                                assert(mid.names == before.names.push(fold_case(f.name_spec())));
                            }
                        }
                        assert(mid.id_of(g.name_spec()) == before.id_of(g.name_spec()));
                        assert(before.symbol_of(g.name_spec()) != sym);
                    }
                }
            }
        }
        match r {
            Err(e) => {
                return Err(e);
            },
            Ok(_) => {},
        }
        i = i + 1;
    }
    proof {
        if sound && heap@.first(heap@.root_env) is Nil {
            assert forall|f: Native| #[trigger] heap@.binds_native(f) by {
                let j: int = match f {
                    Native::First => 0,
                    Native::Rest => 1,
                    Native::ListP => 2,
                    Native::Cons => 3,
                    Native::Plus => 4,
                    Native::Minus => 5,
                    Native::Times => 6,
                    Native::Divide => 7,
                    Native::NumEq => 8,
                    Native::Lt => 9,
                    Native::Lte => 10,
                    Native::Gt => 11,
                    Native::Gte => 12,
                };
                assert(natives()[j] == f);
                heap@.lemma_lookup_in_root(heap@.root_env, heap@.symbol_of(f.name_spec()));
            }
        }
    }
    Ok(())
}

} // verus!
