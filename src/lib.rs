//! An arithmetic-expression evaluator over double-precision literals.
//!
//! Literals are held as their IEEE 754 bits ([`Double`]). Evaluation does not
//! perform the floating-point arithmetic itself: it resolves variables,
//! decides every branch and every failure, and returns a [`Term`] that spells
//! out, in order, the additions and scalings that the caller's floating-point
//! unit is to carry out. Rendering likewise returns the pieces of the prefix-notation
//! text, leaving the writing of literals to the caller.

pub mod environment;
pub mod evaluator;
pub mod expression;
pub mod laws;
pub mod printer;

pub use environment::Environment;
pub use evaluator::{evaluate, evaluate_addition, evaluate_minusition};
pub use expression::{Double, EvalError, Expression, Term};
pub use printer::{render, Operator, Piece};
