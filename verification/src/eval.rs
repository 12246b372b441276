//! Evaluating postfix notation on a stack of 64-bit signed integers.

use crate::error::ErrorKind;
use crate::expression::Expression;
use crate::factorial::{cached_after_request, factorial_of, FactorialCache};
use crate::postfix::{is_binary_operator, is_digit, token_views};
use crate::text::chars_of;
use vstd::prelude::*;

verus! {

/// The characters that separate postfix tokens: those with the Unicode
/// property `White_Space`.
pub open spec fn is_whitespace(c: char) -> bool {
    ||| '\u{9}' <= c && c <= '\u{D}'
    ||| c == ' '
    ||| c == '\u{85}'
    ||| c == '\u{A0}'
    ||| c == '\u{1680}'
    ||| '\u{2000}' <= c && c <= '\u{200A}'
    ||| c == '\u{2028}'
    ||| c == '\u{2029}'
    ||| c == '\u{202F}'
    ||| c == '\u{205F}'
    ||| c == '\u{3000}'
}

/// The maximal runs of characters of `text` that hold no whitespace, in
/// order.
pub open spec fn words(text: Seq<char>) -> Seq<Seq<char>>
    decreases text.len(),
{
    if text.len() == 0 {
        Seq::empty()
    } else {
        let before = words(text.drop_last());
        let c = text.last();
        if is_whitespace(c) {
            before
        } else if text.len() >= 2 && !is_whitespace(text[text.len() - 2]) {
            before.drop_last().push(before.last().push(c))
        } else {
            before.push(seq![c])
        }
    }
}

/// Whether every character of `text` is a decimal digit.
pub open spec fn all_digits(text: Seq<char>) -> bool {
    forall|i: int| 0 <= i < text.len() ==> is_digit(#[trigger] text[i])
}

/// The number that a sequence of decimal digits denotes.
pub open spec fn decimal_value(digits: Seq<char>) -> int
    decreases digits.len(),
{
    if digits.len() == 0 {
        0
    } else {
        10 * decimal_value(digits.drop_last()) + (digits.last() as int - '0' as int)
    }
}

/// The integer that a token denotes: an optional sign, then one or more
/// decimal digits, with a value in the 64-bit signed range.
pub open spec fn parse_integer(token: Seq<char>) -> Option<i64> {
    let signed = token.len() > 0 && (token[0] == '-' || token[0] == '+');
    let digits = if signed {
        token.skip(1)
    } else {
        token
    };
    let value = if token.len() > 0 && token[0] == '-' {
        -decimal_value(digits)
    } else {
        decimal_value(digits)
    };
    if digits.len() > 0 && all_digits(digits) && i64::MIN <= value <= i64::MAX {
        Some(value as i64)
    } else {
        None
    }
}

/// The 64-bit signed integer that is congruent to `value` modulo 2^64.
pub open spec fn wrap_i64(value: int) -> i64 {
    let low = value % 0x1_0000_0000_0000_0000;
    if low > i64::MAX {
        (low - 0x1_0000_0000_0000_0000) as i64
    } else {
        low as i64
    }
}

/// The quotient of `left` by `right`, rounded toward zero.
pub open spec fn truncated_quotient(left: int, right: int) -> int
    recommends
        right != 0,
{
    if left >= 0 && right > 0 {
        left / right
    } else if left < 0 && right < 0 {
        (-left) / (-right)
    } else if left < 0 {
        -((-left) / right)
    } else {
        -(left / (-right))
    }
}

/// What a binary operator makes of its operands. Sums, differences, products
/// and the one quotient that leaves the 64-bit range wrap around.
pub open spec fn apply_operator(operator: char, left: i64, right: i64) -> Result<i64, ErrorKind>
    recommends
        is_binary_operator(operator),
{
    if operator == '+' {
        Ok(wrap_i64(left + right))
    } else if operator == '-' {
        Ok(wrap_i64(left - right))
    } else if operator == '*' {
        Ok(wrap_i64(left * right))
    } else if right == 0 {
        Err(ErrorKind::DivisionByZero)
    } else {
        Ok(wrap_i64(truncated_quotient(left as int, right as int)))
    }
}

/// The value stack after one more token.
pub open spec fn eval_token(stack: Seq<i64>, token: Seq<char>) -> Result<Seq<i64>, ErrorKind> {
    if token.len() == 1 && is_binary_operator(token[0]) {
        if stack.len() < 2 {
            Err(ErrorKind::InsufficientOperands)
        } else {
            match apply_operator(token[0], stack[stack.len() - 2], stack[stack.len() - 1]) {
                Ok(value) => Ok(stack.take(stack.len() - 2).push(value)),
                Err(kind) => Err(kind),
            }
        }
    } else if token.len() == 1 && token[0] == '!' {
        if stack.len() < 1 {
            Err(ErrorKind::InsufficientOperands)
        } else {
            match factorial_of(stack.last()) {
                Ok(value) => Ok(stack.drop_last().push(value)),
                Err(kind) => Err(kind),
            }
        }
    } else {
        match parse_integer(token) {
            Some(value) => Ok(stack.push(value)),
            None => Err(ErrorKind::InvalidToken),
        }
    }
}

/// The value stack after the tokens of `tokens`, or the first failure.
pub open spec fn eval_tokens(tokens: Seq<Seq<char>>) -> Result<Seq<i64>, ErrorKind>
    decreases tokens.len(),
{
    if tokens.len() == 0 {
        Ok(Seq::empty())
    } else {
        match eval_tokens(tokens.drop_last()) {
            Ok(stack) => eval_token(stack, tokens.last()),
            Err(kind) => Err(kind),
        }
    }
}

/// The value of a token sequence: the one value that is left on the stack.
pub open spec fn eval_result(tokens: Seq<Seq<char>>) -> Result<i64, ErrorKind> {
    match eval_tokens(tokens) {
        Ok(stack) => if stack.len() == 1 {
            Ok(stack[0])
        } else {
            Err(ErrorKind::MalformedExpression)
        },
        Err(kind) => Err(kind),
    }
}

/// The value of a postfix text.
pub open spec fn evaluate_postfix(text: Seq<char>) -> Result<i64, ErrorKind> {
    eval_result(words(text))
}

/// The number of entries of the factorial table after the tokens of
/// `tokens` were evaluated with a table of `cached` entries: each `!` that
/// finds an operand asks the table for it, up to the first failure.
pub open spec fn cached_after(cached: nat, tokens: Seq<Seq<char>>) -> nat
    decreases tokens.len(),
{
    if tokens.len() == 0 {
        cached
    } else {
        let before = cached_after(cached, tokens.drop_last());
        match eval_tokens(tokens.drop_last()) {
            Ok(stack) => if tokens.last().len() == 1 && tokens.last()[0] == '!' && stack.len()
                >= 1 {
                cached_after_request(before, stack.last())
            } else {
                before
            },
            Err(_) => before,
        }
    }
}

/// A failure ends the evaluation: the tokens after the failing one change
/// neither the outcome nor the factorial table.
pub proof fn lemma_eval_failure_persists(tokens: Seq<Seq<char>>, n: int, cached: nat)
    requires
        0 <= n <= tokens.len(),
        eval_tokens(tokens.take(n)) is Err,
    ensures
        eval_tokens(tokens) == eval_tokens(tokens.take(n)),
        cached_after(cached, tokens) == cached_after(cached, tokens.take(n)),
    decreases tokens.len() - n,
{
    if n == tokens.len() {
        assert(tokens.take(n) == tokens);
    } else {
        assert(tokens.take(n + 1).drop_last() == tokens.take(n));
        lemma_eval_failure_persists(tokens, n + 1, cached);
    }
}

/// A number that a longer sequence of digits denotes is no smaller than the
/// number of its first digits.
proof fn lemma_decimal_value_grows(digits: Seq<char>, n: int)
    requires
        0 <= n <= digits.len(),
        all_digits(digits),
    ensures
        0 <= decimal_value(digits.take(n)) <= decimal_value(digits),
    decreases digits.len(),
{
    if n == digits.len() {
        assert(digits.take(n) == digits);
        if n > 0 {
            lemma_decimal_value_grows(digits.drop_last(), n - 1);
            assert(is_digit(digits[n - 1]));
        }
    } else {
        assert(digits.drop_last().take(n) == digits.take(n));
        lemma_decimal_value_grows(digits.drop_last(), n);
        assert(is_digit(digits[digits.len() - 1]));
    }
}

/// Whether `c` separates tokens.
fn is_separator(c: char) -> (separates: bool)
    ensures
        separates == is_whitespace(c),
{
    (c >= '\u{9}' && c <= '\u{D}') || c == ' ' || c == '\u{85}' || c == '\u{A0}' || c == '\u{1680}'
        || (c >= '\u{2000}' && c <= '\u{200A}') || c == '\u{2028}' || c == '\u{2029}' || c
        == '\u{202F}' || c == '\u{205F}' || c == '\u{3000}'
}

/// Splits `text` at its whitespace.
fn split_words(text: &Vec<char>) -> (tokens: Vec<Vec<char>>)
    ensures
        token_views(tokens@) == words(text@),
{
    let mut tokens: Vec<Vec<char>> = Vec::new();
    let mut current: Vec<char> = Vec::new();
    assert(token_views(tokens@) == Seq::<Seq<char>>::empty());
    let mut i: usize = 0;
    while i < text.len()
        invariant
            i <= text.len(),
            current@.len() > 0 <==> i > 0 && !is_whitespace(text@[i - 1]),
            words(text@.take(i as int)) == if current@.len() > 0 {
                token_views(tokens@).push(current@)
            } else {
                token_views(tokens@)
            },
        decreases text.len() - i,
    {
        let c = text[i];
        let ghost emitted = token_views(tokens@);
        let ghost pending = current@;
        proof {
            assert(text@.take(i + 1).drop_last() == text@.take(i as int));
            assert(text@.take(i + 1).last() == c);
            if i > 0 {
                assert(text@.take(i + 1)[i - 1] == text@[i - 1]);
            }
        }
        if is_separator(c) {
            if current.len() > 0 {
                let mut word: Vec<char> = Vec::new();
                std::mem::swap(&mut word, &mut current);
                tokens.push(word);
                assert(token_views(tokens@) == emitted.push(pending));
            }
        } else {
            current.push(c);
            proof {
                if pending.len() > 0 {
                    assert(emitted.push(pending).drop_last() == emitted);
                    assert(emitted.push(pending).last() == pending);
                } else {
                    assert(current@ == seq![c]);
                }
            }
        }
        i += 1;
    }
    proof {
        assert(text@.take(i as int) == text@);
    }
    if current.len() > 0 {
        let ghost emitted = token_views(tokens@);
        tokens.push(current);
        assert(token_views(tokens@) == emitted.push(current@));
    }
    tokens
}

/// Reads `token` as a decimal integer.
fn parse_token(token: &Vec<char>) -> (value: Option<i64>)
    ensures
        value == parse_integer(token@),
{
    let n = token.len();
    if n == 0 {
        return None;
    }
    let negative = token[0] == '-';
    let start: usize = if token[0] == '-' || token[0] == '+' {
        1
    } else {
        0
    };
    let ghost digits = token@.skip(start as int);
    proof {
        assert(token@.skip(0) == token@);
    }
    let mut magnitude: u64 = 0;
    let mut i: usize = start;
    while i < n
        invariant
            start <= i <= n,
            n == token@.len(),
            digits == token@.skip(start as int),
            start == if token@[0] == '-' || token@[0] == '+' {
                1int
            } else {
                0int
            },
            token@.skip(0) == token@,
            all_digits(digits.take(i - start)),
            magnitude == decimal_value(digits.take(i - start)),
            magnitude <= 0x8000_0000_0000_0000,
        decreases n - i,
    {
        let c = token[i];
        proof {
            assert(digits.take(i + 1 - start).drop_last() == digits.take(i - start));
            assert(digits.take(i + 1 - start).last() == c);
            assert(digits[i - start] == c);
        }
        if !(c >= '0' && c <= '9') {
            return None;
        }
        let digit: u64 = (c as u32 - '0' as u32) as u64;
        if magnitude > (0x8000_0000_0000_0000 - digit) / 10 {
            proof {
                if all_digits(digits) {
                    lemma_decimal_value_grows(digits, i + 1 - start);
                }
            }
            return None;
        }
        magnitude = magnitude * 10 + digit;
        i += 1;
    }
    proof {
        assert(digits.take(i - start) == digits);
    }
    if i == start {
        None
    } else if negative {
        if magnitude == 0x8000_0000_0000_0000 {
            Some(i64::MIN)
        } else {
            Some(-(magnitude as i64))
        }
    } else if magnitude > 0x7fff_ffff_ffff_ffff {
        None
    } else {
        Some(magnitude as i64)
    }
}

/// The wrapping operations of the machine compute `wrap_i64` of the exact
/// result.
proof fn lemma_wrapping_operations(left: i64, right: i64)
    ensures
        vstd::wrapping::i64_specs::wrapping_add(left, right) == wrap_i64(left + right),
        vstd::wrapping::i64_specs::wrapping_sub(left, right) == wrap_i64(left - right),
        vstd::wrapping::i64_specs::wrapping_mul(left, right) == wrap_i64(left * right),
{
}

/// A quotient that is rounded toward zero is no larger in magnitude than the
/// dividend, and only `i64::MIN / -1` leaves the 64-bit range.
proof fn lemma_truncated_quotient(left: i64, right: i64)
    requires
        right != 0,
    ensures
        i64::MIN <= truncated_quotient(left as int, right as int) <= i64::MAX + 1,
        truncated_quotient(left as int, right as int) == i64::MAX + 1 ==> wrap_i64(
            truncated_quotient(left as int, right as int),
        ) == i64::MIN,
        truncated_quotient(left as int, right as int) <= i64::MAX ==> wrap_i64(
            truncated_quotient(left as int, right as int),
        ) == truncated_quotient(left as int, right as int),
        left == 0 ==> truncated_quotient(left as int, right as int) == 0,
{
    let a: int = if left >= 0 {
        left as int
    } else {
        -(left as int)
    };
    let b: int = if right >= 0 {
        right as int
    } else {
        -(right as int)
    };
    assert(0 <= a / b <= a) by (nonlinear_arith)
        requires
            a >= 0,
            b >= 1,
    ;
    assert(a == 0 ==> a / b == 0) by (nonlinear_arith)
        requires
            b >= 1,
    ;
}

/// Applies a binary operator to its operands.
fn apply_binary(operator: char, left: i64, right: i64) -> (result: Result<i64, ErrorKind>)
    requires
        is_binary_operator(operator),
    ensures
        result == apply_operator(operator, left, right),
{
    proof {
        lemma_wrapping_operations(left, right);
    }
    if operator == '+' {
        Ok(left.wrapping_add(right))
    } else if operator == '-' {
        Ok(left.wrapping_sub(right))
    } else if operator == '*' {
        Ok(left.wrapping_mul(right))
    } else if right == 0 {
        Err(ErrorKind::DivisionByZero)
    } else {
        proof {
            lemma_truncated_quotient(left, right);
        }
        match left.checked_div(right) {
            Some(quotient) => Ok(quotient),
            None => Ok(i64::MIN),
        }
    }
}

impl Expression {
    /// Evaluates `post_fix` and stores the value in `result`.
    ///
    /// The tokens stand between whitespace. A binary operator takes the two
    /// latest values, the right operand first, and `!` the latest; any other
    /// token is pushed as a decimal integer. `+`, `-` and `*` wrap around, and
    /// so does `i64::MIN / -1`. On failure `result` keeps what it held.
    pub fn compute_expression(&mut self, cache: &mut FactorialCache) -> (result: Result<
        (),
        ErrorKind,
    >)
        requires
            old(cache).wf(),
        ensures
            old(self).evaluates_to(*final(self), result),
            final(cache).wf(),
            final(cache)@.len() == cached_after(old(cache)@.len(), words(old(self).post_fix@)),
            old(cache)@.is_prefix_of(final(cache)@),
    {
        let text = chars_of(self.post_fix.as_str());
        let tokens = split_words(&text);
        let mut stack: Vec<i64> = Vec::new();
        let ghost all = token_views(tokens@);

        let mut i: usize = 0;
        while i < tokens.len()
            invariant
                i <= tokens.len(),
                all == token_views(tokens@),
                all == words(self.post_fix@),
                eval_tokens(all.take(i as int)) == Ok::<Seq<i64>, ErrorKind>(stack@),
                cache.wf(),
                cache@.len() == cached_after(old(cache)@.len(), all.take(i as int)),
                old(cache)@.is_prefix_of(cache@),
                *self == *old(self),
            decreases tokens.len() - i,
        {
            let token = &tokens[i];
            let ghost before = stack@;
            let ghost cached = cache@;
            proof {
                assert(all.take(i + 1).drop_last() == all.take(i as int));
                assert(all.take(i + 1).last() == token@);
                if eval_tokens(all.take(i + 1)) is Err {
                    lemma_eval_failure_persists(all, i + 1, old(cache)@.len());
                }
            }
            if token.len() == 1 && (token[0] == '+' || token[0] == '-' || token[0] == '*'
                || token[0] == '/') {
                if stack.len() < 2 {
                    return Err(ErrorKind::InsufficientOperands);
                }
                let operand2 = stack[stack.len() - 1];
                let operand1 = stack[stack.len() - 2];
                stack.pop();
                stack.pop();
                assert(stack@ == before.take(before.len() - 2));
                match apply_binary(token[0], operand1, operand2) {
                    Ok(value) => {
                        stack.push(value);
                    },
                    Err(kind) => {
                        return Err(kind);
                    },
                }
            } else if token.len() == 1 && token[0] == '!' {
                if stack.len() < 1 {
                    return Err(ErrorKind::InsufficientOperands);
                }
                let operand = stack[stack.len() - 1];
                stack.pop();
                let outcome = cache.factorial(operand);
                assert(old(cache)@.is_prefix_of(cache@)) by {
                    assert(old(cache)@.is_prefix_of(cached));
                    assert(cached.is_prefix_of(cache@));
                    assert forall|j: int| 0 <= j < old(cache)@.len() implies cache@[j]
                        == old(cache)@[j] by {
                        assert(cached.subrange(0, old(cache)@.len() as int)[j] == cached[j]);
                        assert(cache@.subrange(0, cached.len() as int)[j] == cache@[j]);
                    }
                }
                match outcome {
                    Ok(value) => {
                        stack.push(value);
                    },
                    Err(kind) => {
                        return Err(kind);
                    },
                }
            } else {
                match parse_token(token) {
                    Some(value) => {
                        stack.push(value);
                    },
                    None => {
                        return Err(ErrorKind::InvalidToken);
                    },
                }
            }
            i += 1;
        }
        proof {
            assert(all.take(i as int) == all);
        }
        if stack.len() == 1 {
            self.result = Ok(stack[0]);
            Ok(())
        } else {
            Err(ErrorKind::MalformedExpression)
        }
    }
}

} // verus!
