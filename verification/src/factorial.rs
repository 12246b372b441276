//! Factorials of small numbers, remembered between evaluations.

use crate::error::ErrorKind;
use vstd::prelude::*;

verus! {

/// The largest operand whose factorial fits in a 64-bit signed integer.
pub const MAX_FACTORIAL_OPERAND: i64 = 20;

/// `n!`, the product of the numbers from 1 to `n`.
pub open spec fn factorial(n: nat) -> nat
    decreases n,
{
    if n == 0 {
        1
    } else {
        n * factorial((n - 1) as nat)
    }
}

/// What the operator `!` makes of an operand: a negative operand is no
/// expression, and a factorial beyond the 64-bit signed range overflows.
pub open spec fn factorial_of(operand: i64) -> Result<i64, ErrorKind> {
    if operand < 0 {
        Err(ErrorKind::InvalidExpression)
    } else if factorial(operand as nat) > i64::MAX {
        Err(ErrorKind::Overflow)
    } else {
        Ok(factorial(operand as nat) as i64)
    }
}

/// The number of entries that a cache of `cached` entries holds after it was
/// asked for the factorial of `operand`: it grows up to the operand, and no
/// further than the last factorial that fits.
pub open spec fn cached_after_request(cached: nat, operand: i64) -> nat {
    if operand < cached {
        cached
    } else if operand <= MAX_FACTORIAL_OPERAND {
        (operand + 1) as nat
    } else {
        (MAX_FACTORIAL_OPERAND + 1) as nat
    }
}

/// A later factorial is never smaller than an earlier one.
pub proof fn lemma_factorial_monotonic(m: nat, n: nat)
    requires
        m <= n,
    ensures
        1 <= factorial(m) <= factorial(n),
    decreases n,
{
    if n == 0 {
    } else if m == n {
        lemma_factorial_monotonic((m - 1) as nat, (n - 1) as nat);
        assert(factorial((n - 1) as nat) <= n * factorial((n - 1) as nat)) by (nonlinear_arith)
            requires
                n >= 1,
        ;
    } else {
        lemma_factorial_monotonic(m, (n - 1) as nat);
        assert(factorial((n - 1) as nat) <= n * factorial((n - 1) as nat)) by (nonlinear_arith)
            requires
                n >= 1,
        ;
    }
}

/// The factorials that fit in a 64-bit signed integer are exactly those of
/// the operands up to `MAX_FACTORIAL_OPERAND`.
pub proof fn lemma_factorial_fits(n: nat)
    ensures
        factorial(n) <= i64::MAX <==> n <= MAX_FACTORIAL_OPERAND,
{
    assert(factorial(20) == 2432902008176640000 && factorial(21) == 51090942171709440000) by {
        reveal_with_fuel(factorial, 22);
    }
    if n <= 20 {
        lemma_factorial_monotonic(n, 20);
    } else {
        lemma_factorial_monotonic(21, n);
    }
}

/// A table whose entry `i` is `i!`. It starts with `0!` and `1!`, grows by one
/// entry at a time when a larger factorial is asked for, and never shrinks.
pub struct FactorialCache {
    values: Vec<i64>,
}

impl View for FactorialCache {
    type V = Seq<i64>;

    closed spec fn view(&self) -> Seq<i64> {
        self.values@
    }
}

impl FactorialCache {
    /// Every entry is the factorial of its index, and the two seeds are there.
    pub open spec fn wf(&self) -> bool {
        &&& self@.len() >= 2
        &&& forall|i: int| 0 <= i < self@.len() ==> #[trigger] self@[i] == factorial(i as nat)
    }

    /// A well-formed table has an entry for no operand beyond
    /// `MAX_FACTORIAL_OPERAND`.
    pub proof fn lemma_bounded(&self)
        requires
            self.wf(),
        ensures
            self@.len() <= MAX_FACTORIAL_OPERAND + 1,
    {
        if self@.len() > 21 {
            assert(self@[21] == factorial(21));
            lemma_factorial_fits(21);
        }
    }

    /// A table that holds `0!` and `1!`.
    pub fn new() -> (cache: Self)
        ensures
            cache.wf(),
            cache@ == seq![1i64, 1i64],
    {
        let mut values: Vec<i64> = Vec::new();
        values.push(1);
        values.push(1);
        proof {
            reveal_with_fuel(factorial, 2);
        }
        FactorialCache { values }
    }

    /// The number of factorials held.
    pub fn len(&self) -> (n: usize)
        ensures
            n == self@.len(),
    {
        self.values.len()
    }

    /// The entry at `index`, if the table has grown that far.
    pub fn get(&self, index: usize) -> (entry: Option<i64>)
        ensures
            entry == if index < self@.len() {
                Some(self@[index as int])
            } else {
                None
            },
    {
        if index < self.values.len() {
            Some(self.values[index])
        } else {
            None
        }
    }

    /// Returns `n!`, extending the table as far as needed.
    ///
    /// A negative `n` is rejected before the table is looked at. Where `n!`
    /// does not fit, the entries that were computed on the way stay.
    pub fn factorial(&mut self, n: i64) -> (result: Result<i64, ErrorKind>)
        requires
            old(self).wf(),
        ensures
            final(self).wf(),
            result == factorial_of(n),
            final(self)@.len() == cached_after_request(old(self)@.len(), n),
            old(self)@.is_prefix_of(final(self)@),
    {
        if n < 0 {
            return Err(ErrorKind::InvalidExpression);
        }
        proof {
            self.lemma_bounded();
        }
        while self.values.len() as i64 <= n
            invariant
                self.wf(),
                0 <= n,
                old(self)@.len() <= self@.len() <= MAX_FACTORIAL_OPERAND + 1,
                self@.len() == old(self)@.len() || self@.len() <= n + 1,
                forall|i: int| 0 <= i < old(self)@.len() ==> self@[i] == old(self)@[i],
            decreases MAX_FACTORIAL_OPERAND + 1 - self@.len(),
        {
            let index = self.values.len();
            let last = self.values[index - 1];
            proof {
                lemma_factorial_fits(index as nat);
                lemma_factorial_monotonic(index as nat, n as nat);
                assert(factorial(index as nat) == last * index) by (nonlinear_arith)
                    requires
                        factorial(index as nat) == index * factorial((index - 1) as nat),
                        last == factorial((index - 1) as nat),
                ;
            }
            match last.checked_mul(index as i64) {
                Some(next) => {
                    self.values.push(next);
                },
                None => {
                    return Err(ErrorKind::Overflow);
                },
            }
        }
        proof {
            lemma_factorial_fits(n as nat);
        }
        Ok(self.values[n as usize])
    }
}

} // verus!
