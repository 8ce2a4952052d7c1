//! Core of a small Lisp interpreter: a cell heap with a tracing collector,
//! a reader, a printer and a tree-walking evaluator, with machine-checked
//! contracts.
//!
//! The state of a heap is modelled by a `store::Store`; every contract is
//! stated over it. `semantics` says what evaluation means, `datum` what a
//! value denotes, `gc` what can be reached. The modules `lists`, `frames`
//! and `roundtrip` hold the laws that relate the operations to one another.

pub mod expr;
pub mod arena;
pub mod store;
pub mod text;
pub mod heap;
pub mod lists;
pub mod frames;
pub mod primitive;
pub mod semantics;
pub mod eval;
pub mod lexer;
pub mod datum;
pub mod parser;
pub mod printer;
pub mod roundtrip;
pub mod gc;
