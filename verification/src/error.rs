use vstd::prelude::*;

verus! {

/// The single error type of the evaluator.
///
/// Every failure of `evaluate` is one of these variants. Arithmetic failures
/// (division by zero, a negative exponent, overflow of an operator's result)
/// deliberately go through the same error path as a failing operator rule:
/// the checked operations return no value and the evaluator reports
/// `ComputeFailed`, instead of leaving the behaviour to machine arithmetic.
#[derive(Debug, Clone, Copy, PartialEq, Eq, Structural)]
pub enum ExprError {
    /// An atom was expected, but the token stream ended or the next token is
    /// neither a number nor a left parenthesis.
    ExpectedOperand,
    /// An opening parenthesis was consumed, but the matching closing
    /// parenthesis is not the next token after the inner expression.
    ExpectedCloseParen,
    /// A structurally complete expression was evaluated, but tokens remain.
    UnexpectedTrailingInput,
    /// An operator's compute rule produced no value: division by zero, a
    /// negative exponent, or a result outside the `i32` range.
    ComputeFailed,
}

} // verus!
