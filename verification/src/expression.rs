//! The expression value that callers hold: the infix text, its postfix form
//! and the result of evaluating it.

use crate::error::ErrorKind;
use crate::eval::{cached_after, evaluate_postfix, words};
use crate::factorial::FactorialCache;
use crate::postfix::postfix_text;
use vstd::prelude::*;

verus! {

/// An arithmetic expression, its postfix notation and its value.
///
/// `post_fix` is empty until the expression has been converted, and `result`
/// holds `Err(ErrorKind::InvalidExpression)` until it has been evaluated.
pub struct Expression {
    pub expr: String,
    pub post_fix: String,
    pub result: Result<i64, ErrorKind>,
}

impl Expression {
    /// Whether `after` and `outcome` are what evaluating the postfix text of
    /// `self` leaves: the value in `result`, or the failure and `result` as
    /// it was.
    pub open spec fn evaluates_to(self, after: Expression, outcome: Result<(), ErrorKind>) -> bool {
        &&& after.expr@ == self.expr@
        &&& after.post_fix@ == self.post_fix@
        &&& match evaluate_postfix(self.post_fix@) {
            Ok(value) => {
                &&& outcome == Ok::<(), ErrorKind>(())
                &&& after.result == Ok::<i64, ErrorKind>(value)
            },
            Err(kind) => {
                &&& outcome == Err::<(), ErrorKind>(kind)
                &&& after.result == self.result
            },
        }
    }

    /// Whether `after` and `outcome` are what converting `self` and, if
    /// `compute` is set, evaluating the postfix text leaves. A failed
    /// conversion changes nothing; a successful one stores the postfix text,
    /// also where the evaluation that follows it fails.
    pub open spec fn processes_to(
        self,
        compute: bool,
        after: Expression,
        outcome: Result<(), ErrorKind>,
    ) -> bool {
        &&& after.expr@ == self.expr@
        &&& match postfix_text(self.expr@) {
            Err(kind) => {
                &&& outcome == Err::<(), ErrorKind>(kind)
                &&& after.post_fix@ == self.post_fix@
                &&& after.result == self.result
            },
            Ok(text) => {
                &&& after.post_fix@ == text
                &&& if compute {
                    match evaluate_postfix(text) {
                        Ok(value) => {
                            &&& outcome == Ok::<(), ErrorKind>(())
                            &&& after.result == Ok::<i64, ErrorKind>(value)
                        },
                        Err(kind) => {
                            &&& outcome == Err::<(), ErrorKind>(kind)
                            &&& after.result == self.result
                        },
                    }
                } else {
                    outcome == Ok::<(), ErrorKind>(()) && after.result == self.result
                }
            },
        }
    }

    /// An expression that has been neither converted nor evaluated.
    pub fn new(expr: &str) -> (expression: Expression)
        ensures
            expression.expr@ == expr@,
            expression.post_fix@ == Seq::<char>::empty(),
            expression.result == Err::<i64, ErrorKind>(ErrorKind::InvalidExpression),
    {
        Expression {
            expr: expr.to_owned(),
            post_fix: String::new(),
            result: Err(ErrorKind::InvalidExpression),
        }
    }

    /// Converts `expr` and, if `compute` is set, evaluates what the conversion
    /// gave.
    ///
    /// A failed conversion changes nothing. A successful one stores the
    /// postfix notation, also where the evaluation that follows it fails.
    pub fn process_expression(&mut self, compute: bool, cache: &mut FactorialCache) -> (result:
        Result<(), ErrorKind>)
        requires
            old(cache).wf(),
        ensures
            old(self).processes_to(compute, *final(self), result),
            final(cache).wf(),
            old(cache)@.is_prefix_of(final(cache)@),
            final(cache)@.len() == match postfix_text(old(self).expr@) {
                Ok(text) if compute => cached_after(old(cache)@.len(), words(text)),
                _ => old(cache)@.len(),
            },
    {
        match self.infix_to_postfix() {
            Ok(()) => {},
            Err(kind) => {
                return Err(kind);
            },
        }
        if compute {
            self.compute_expression(cache)
        } else {
            Ok(())
        }
    }

    /// The postfix notation, as the last successful conversion left it.
    pub fn show_post_fix(&self) -> (text: &str)
        ensures
            text@ == self.post_fix@,
    {
        self.post_fix.as_str()
    }

    /// The value, as the last successful evaluation left it.
    pub fn get_result(&self) -> (result: &Result<i64, ErrorKind>)
        ensures
            *result == self.result,
    {
        &self.result
    }
}

} // verus!
