//! The closed set of failures that converting or evaluating can report.

use vstd::prelude::*;

verus! {

/// Why an expression could not be converted or evaluated.
#[derive(Debug, Clone, Copy, PartialEq, Eq, Structural)]
pub enum ErrorKind {
    /// A character that is no part of the expression language; also the
    /// state of a result that has not been computed yet.
    InvalidExpression,
    /// An operator found fewer values on the stack than it consumes.
    InsufficientOperands,
    /// The right-hand operand of a division was zero.
    DivisionByZero,
    /// A factorial does not fit in a 64-bit signed integer.
    Overflow,
    /// A postfix token that is neither an operator nor a decimal integer.
    InvalidToken,
    /// Unbalanced parentheses, or a postfix text that does not leave exactly
    /// one value.
    MalformedExpression,
}

impl ErrorKind {
    /// The fixed message of each kind.
    pub open spec fn description(self) -> Seq<char> {
        match self {
            ErrorKind::InvalidExpression => "Invalid expression"@,
            ErrorKind::InsufficientOperands => "Insufficient operands"@,
            ErrorKind::DivisionByZero => "Division by zero"@,
            ErrorKind::Overflow => "Overflow"@,
            ErrorKind::InvalidToken => "Invalid token"@,
            ErrorKind::MalformedExpression => "Malformed postfix expression"@,
        }
    }

    /// Returns the message of this kind.
    pub fn as_str(&self) -> (message: &'static str)
        ensures
            message@ == self.description(),
    {
        match *self {
            ErrorKind::InvalidExpression => "Invalid expression",
            ErrorKind::InsufficientOperands => "Insufficient operands",
            ErrorKind::DivisionByZero => "Division by zero",
            ErrorKind::Overflow => "Overflow",
            ErrorKind::InvalidToken => "Invalid token",
            ErrorKind::MalformedExpression => "Malformed postfix expression",
        }
    }
}

} // verus!
