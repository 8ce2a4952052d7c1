//! The value model: tagged values whose compound cases are arena keys.

use vstd::prelude::*;

verus! {

/// Stable key of a cons cell in the arena.
#[derive(Clone, Copy, Debug, PartialEq, Eq, Structural)]
pub struct ConsCellKey(pub usize);

/// The native functions that a `Primitive` value can refer to.
#[derive(Clone, Copy, Debug, PartialEq, Eq, Structural)]
pub enum Native {
    First,
    Rest,
    ListP,
    Cons,
    Plus,
    Minus,
    Times,
    Divide,
    NumEq,
    Lt,
    Lte,
    Gt,
    Gte,
}

/// A value. Compound values hold only a key, so all sharing and every cycle
/// lives in the heap, and a value is copied freely.
#[derive(Clone, Copy, Debug, PartialEq, Eq, Structural)]
pub enum Expr {
    Nil,
    Boolean(bool),
    Integer(i64),
    /// An interned symbol, identified by its index in the heap's name table.
    Symbol(usize),
    Pair(ConsCellKey),
    Closure(ConsCellKey),
    Primitive(Native),
}

/// An arena slot: `(first, rest, mark)`. The mark is used only during a
/// collection.
pub type ConsCell = (Expr, Expr, bool);

/// Errors of the heap operations, the primitives and the evaluator.
#[derive(Clone, Copy, Debug, PartialEq, Eq, Structural)]
pub enum SError {
    ImproperLambda,
    ImproperList,
    ImproperSymbol,
    ImproperEnvironment,
    NotCallable,
    TypeError,
    UnboundSymbol,
    WrongNumberOfArgs,
}

/// The result of a heap operation or of a primitive.
pub type SResult<T> = Result<T, SError>;

impl Expr {
    /// Whether the value is the empty list.
    pub fn is_nil(&self) -> (r: bool)
        ensures
            r == (*self is Nil),
    {
        matches!(self, Expr::Nil)
    }

    /// Whether the value is a pair. `Nil` is none.
    pub fn is_pair(&self) -> (r: bool)
        ensures
            r == (*self is Pair),
    {
        matches!(self, Expr::Pair(_))
    }

    /// Whether the value is a symbol.
    pub fn is_symbol(&self) -> (r: bool)
        ensures
            r == (*self is Symbol),
    {
        matches!(self, Expr::Symbol(_))
    }

    /// Whether a conditional takes the value for true.
    pub open spec fn truthy(self) -> bool {
        self != Expr::Boolean(false)
    }

    /// `#f` is the only false value: `()`, `0` and every other value are true.
    pub fn is_truthy(&self) -> (r: bool)
        ensures
            r == self.truthy(),
    {
        !matches!(self, Expr::Boolean(false))
    }
}

/// `#f` is the only value that is not true in a conditional.
pub proof fn law_only_false_is_falsy(v: Expr)
    ensures
        !v.truthy() <==> v == Expr::Boolean(false),
        Expr::Nil.truthy(),
        Expr::Integer(0).truthy(),
        Expr::Boolean(true).truthy(),
        !Expr::Boolean(false).truthy(),
{
}

} // verus!
