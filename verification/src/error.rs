//! The ways in which an evaluation fails.

use vstd::prelude::*;

verus! {

/// A path that could not be followed or written through.
#[derive(Debug, Clone, Copy, PartialEq, Eq)]
pub enum PathError {
    /// Nothing stands at the path.
    NotFound,
    /// A sequence is shorter than the index that a segment writes.
    IndexOutOfBounds,
    /// A segment applied to a sequence writes no index.
    InvalidIndex,
    /// A segment applied to a value that has no parts.
    InvalidStructure,
}

/// An arithmetic expression that has no value.
#[derive(Debug, Clone, Copy, PartialEq, Eq)]
pub enum ExpressionError {
    /// An operator that the evaluator does not carry out.
    InvalidOperator,
    /// Too few operands, a parenthesis without its partner, or no result.
    InvalidExpression,
    /// A result outside the range of signed 128-bit integers.
    Overflow,
    /// A variable of the expression holds something that is no integer.
    NotAnInteger,
}

/// A variable that could not be resolved.
#[derive(Debug, Clone, Copy, PartialEq, Eq)]
pub enum ResolutionError {
    /// The contract of a query did not resolve to a text.
    InvalidContractVariable,
    /// The remote service could not be reached or refused the query.
    TransportFailure,
}

/// A comparison that the operands do not admit.
#[derive(Debug, Clone, Copy, PartialEq, Eq)]
pub enum ComparisonError {
    /// An ordering was asked of operands that are not both integers.
    InvalidComparisonForType,
}

/// Why an evaluation ended without a result.
#[derive(Debug, Clone, Copy, PartialEq, Eq)]
pub enum EvalError {
    Path(PathError),
    Expression(ExpressionError),
    Resolution(ResolutionError),
    Comparison(ComparisonError),
    /// A reply that is no well-formed structured value.
    Decode,
    /// Conditions or queries nested deeper than [`crate::query::MAX_DEPTH`].
    NestingTooDeep,
}

impl ExpressionError {
    /// The error in words.
    pub fn message(&self) -> (r: &'static str)
        ensures
            r@ == match *self {
                ExpressionError::InvalidOperator => "Invalid operator"@,
                ExpressionError::InvalidExpression => "Invalid expression"@,
                ExpressionError::Overflow => "Arithmetic overflow"@,
                ExpressionError::NotAnInteger => "Variable is not an integer"@,
            },
    {
        match self {
            ExpressionError::InvalidOperator => "Invalid operator",
            ExpressionError::InvalidExpression => "Invalid expression",
            ExpressionError::Overflow => "Arithmetic overflow",
            ExpressionError::NotAnInteger => "Variable is not an integer",
        }
    }
}

} // verus!
