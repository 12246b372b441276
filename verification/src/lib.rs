//! A small integer calculator.
//!
//! An infix expression over decimal numbers, `+ - * /`, the postfix `!` and
//! parentheses is rewritten into postfix notation and then evaluated on a
//! stack of 64-bit signed integers. Every function states its behaviour as a
//! contract over sequences of characters, and the contracts are proved.

pub mod error;
pub mod eval;
pub mod expression;
pub mod factorial;
pub mod laws;
pub mod postfix;
pub mod text;

pub use crate::error::ErrorKind;
pub use crate::expression::Expression;
pub use crate::factorial::FactorialCache;
