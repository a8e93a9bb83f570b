use vstd::prelude::*;

verus! {

/// A real number, held as the bits of an IEEE 754 double-precision value.
/// The arithmetic on it is left to the caller's floating-point unit.
#[derive(Debug, Clone, Copy, PartialEq, Eq)]
pub struct Double {
    pub bits: u64,
}

impl Double {
    /// Positive zero.
    pub open spec fn spec_zero() -> Double {
        Double { bits: 0 }
    }

    /// Positive zero.
    pub fn zero() -> (r: Double)
        ensures
            r == Double::spec_zero(),
    {
        Double { bits: 0 }
    }

    /// The number whose double-precision encoding is `bits`.
    pub fn from_bits(bits: u64) -> (r: Double)
        ensures
            r.bits == bits,
    {
        Double { bits }
    }

    /// The double-precision encoding of the number.
    pub fn to_bits(&self) -> (r: u64)
        ensures
            r == self.bits,
    {
        self.bits
    }
}

/// An expression tree over real literals.
#[derive(Debug, PartialEq)]
pub enum Expression {
    /// The sum of the children, left to right.
    Add(Vec<Expression>),
    /// Minus two times the first child, evaluated in the default environment,
    /// plus every child, left to right, in the caller's environment.
    Minus(Vec<Expression>),
    /// A product whose evaluation is always minus one.
    Multiply(Vec<Expression>),
    /// A name resolved through an environment.
    Variable(String),
    /// A literal.
    Number(Double),
}

/// The arithmetic that an evaluation asks of the caller, in the order it
/// is to be carried out.
#[derive(Debug, PartialEq)]
pub enum Term {
    /// A literal of the tree.
    Literal(Double),
    /// The number zero.
    Zero,
    /// The number minus one.
    MinusOne,
    /// The left term plus the right term.
    Sum(Box<Term>, Box<Term>),
    /// Minus two times the term.
    TimesMinusTwo(Box<Term>),
}

/// Why an evaluation stopped.
#[derive(Debug, Clone, Copy, PartialEq, Eq)]
pub enum EvalError {
    /// A variable has no binding in the environment.
    UnboundVariable,
    /// A subtraction has no operands.
    EmptyOperandList,
    /// A variable's binding leads back to that variable.
    CyclicBinding,
}

} // verus!
