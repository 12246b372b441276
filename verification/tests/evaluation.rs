use kalkulator::{ErrorKind, Expression, FactorialCache};

fn evaluate_postfix(postfix: &str) -> Result<i64, ErrorKind> {
    let mut cache = FactorialCache::new();
    let mut expr = Expression::new("");
    expr.post_fix = postfix.to_string();
    expr.compute_expression(&mut cache)?;
    Ok(expr.get_result().clone().unwrap())
}

fn evaluate(infix: &str) -> Result<i64, ErrorKind> {
    let mut cache = FactorialCache::new();
    let mut expr = Expression::new(infix);
    expr.infix_to_postfix()?;
    expr.compute_expression(&mut cache)?;
    Ok(expr.get_result().clone().unwrap())
}

#[test]
fn converted_sum_of_product_evaluates() {
    assert_eq!(evaluate("3+4*2"), Ok(11));
}

#[test]
fn mixed_operators_evaluate_with_integer_division() {
    assert_eq!(evaluate("2+3*4-5/2"), Ok(12));
}

#[test]
fn equal_precedence_chain_is_grouped_from_the_right() {
    assert_eq!(evaluate("8-3-2"), Ok(7));
    assert_eq!(evaluate("8/4*2"), Ok(1));
    assert_eq!(evaluate("(8-3)-2"), Ok(3));
}

#[test]
fn division_by_zero_gives_no_result() {
    let mut cache = FactorialCache::new();
    let mut expr = Expression::new("10/0");
    assert_eq!(expr.infix_to_postfix(), Ok(()));
    assert_eq!(expr.compute_expression(&mut cache), Err(ErrorKind::DivisionByZero));
    assert_eq!(*expr.get_result(), Err(ErrorKind::InvalidExpression));
    assert_eq!(evaluate_postfix("0 0 /"), Err(ErrorKind::DivisionByZero));
}

#[test]
fn operator_alone_has_insufficient_operands() {
    assert_eq!(evaluate_postfix("+"), Err(ErrorKind::InsufficientOperands));
    assert_eq!(evaluate_postfix("1 +"), Err(ErrorKind::InsufficientOperands));
    assert_eq!(evaluate_postfix("1 -"), Err(ErrorKind::InsufficientOperands));
    assert_eq!(evaluate_postfix("*"), Err(ErrorKind::InsufficientOperands));
    assert_eq!(evaluate_postfix("1 /"), Err(ErrorKind::InsufficientOperands));
    assert_eq!(evaluate_postfix("!"), Err(ErrorKind::InsufficientOperands));
    assert_eq!(evaluate("1+"), Err(ErrorKind::InsufficientOperands));
}

#[test]
fn operand_count_is_checked_before_the_divisor() {
    assert_eq!(evaluate_postfix("0 /"), Err(ErrorKind::InsufficientOperands));
}

#[test]
fn right_operand_is_popped_first() {
    assert_eq!(evaluate_postfix("7 2 -"), Ok(5));
    assert_eq!(evaluate_postfix("2 7 -"), Ok(-5));
    assert_eq!(evaluate_postfix("8 2 /"), Ok(4));
    assert_eq!(evaluate_postfix("2 8 /"), Ok(0));
}

#[test]
fn division_truncates_toward_zero() {
    assert_eq!(evaluate_postfix("7 2 /"), Ok(3));
    assert_eq!(evaluate_postfix("-7 2 /"), Ok(-3));
    assert_eq!(evaluate_postfix("7 -2 /"), Ok(-3));
    assert_eq!(evaluate_postfix("-7 -2 /"), Ok(3));
    assert_eq!(evaluate_postfix("0 -5 /"), Ok(0));
    assert_eq!(evaluate_postfix("-1 2 /"), Ok(0));
}

#[test]
fn sums_differences_and_products_wrap_around() {
    assert_eq!(evaluate_postfix("9223372036854775807 1 +"), Ok(i64::MIN));
    assert_eq!(evaluate_postfix("-9223372036854775808 1 -"), Ok(i64::MAX));
    assert_eq!(evaluate_postfix("-9223372036854775808 -1 +"), Ok(i64::MAX));
    assert_eq!(evaluate_postfix("9223372036854775807 2 *"), Ok(-2));
    assert_eq!(evaluate_postfix("4294967296 4294967296 *"), Ok(0));
    assert_eq!(evaluate_postfix("-9223372036854775808 -1 *"), Ok(i64::MIN));
    assert_eq!(
        evaluate_postfix("3037000500 3037000500 *"),
        Ok(3037000500i64.wrapping_mul(3037000500))
    );
}

#[test]
fn quotient_beyond_the_range_wraps_around() {
    assert_eq!(evaluate_postfix("-9223372036854775808 -1 /"), Ok(i64::MIN));
    assert_eq!(evaluate_postfix("-9223372036854775808 1 /"), Ok(i64::MIN));
    assert_eq!(evaluate_postfix("9223372036854775807 -1 /"), Ok(-i64::MAX));
}

#[test]
fn leftover_values_are_malformed() {
    assert_eq!(evaluate_postfix("1 2"), Err(ErrorKind::MalformedExpression));
    assert_eq!(evaluate_postfix("1 2 3 +"), Err(ErrorKind::MalformedExpression));
    assert_eq!(evaluate("1 2"), Err(ErrorKind::MalformedExpression));
}

#[test]
fn empty_text_is_malformed() {
    assert_eq!(evaluate_postfix(""), Err(ErrorKind::MalformedExpression));
    assert_eq!(evaluate_postfix("  \t\n "), Err(ErrorKind::MalformedExpression));
    assert_eq!(evaluate(""), Err(ErrorKind::MalformedExpression));
}

#[test]
fn unreadable_token_is_invalid() {
    assert_eq!(evaluate_postfix("1 x +"), Err(ErrorKind::InvalidToken));
    assert_eq!(evaluate_postfix("1.5"), Err(ErrorKind::InvalidToken));
    assert_eq!(evaluate_postfix("1 2 ^"), Err(ErrorKind::InvalidToken));
    assert_eq!(evaluate_postfix("++"), Err(ErrorKind::InvalidToken));
    assert_eq!(evaluate_postfix("3!"), Err(ErrorKind::InvalidToken));
    assert_eq!(evaluate_postfix("9223372036854775808"), Err(ErrorKind::InvalidToken));
    assert_eq!(evaluate_postfix("-9223372036854775809"), Err(ErrorKind::InvalidToken));
}

#[test]
fn first_failure_is_reported() {
    assert_eq!(evaluate_postfix("+ x"), Err(ErrorKind::InsufficientOperands));
    assert_eq!(evaluate_postfix("x +"), Err(ErrorKind::InvalidToken));
    assert_eq!(evaluate_postfix("1 0 / x"), Err(ErrorKind::DivisionByZero));
}

#[test]
fn number_too_large_for_the_machine_is_an_invalid_token() {
    assert_eq!(evaluate("99999999999999999999"), Err(ErrorKind::InvalidToken));
    assert_eq!(evaluate("9223372036854775807"), Ok(i64::MAX));
}

/// A single token that is no operator is read as `str::parse::<i64>` reads
/// it.
#[test]
fn integer_tokens_are_read_as_the_standard_library_reads_them() {
    let tokens = [
        "0", "7", "42", "007", "+5", "-5", "-0", "+0", "00000000000000000000000000000012",
        "9223372036854775807", "9223372036854775808", "+9223372036854775807",
        "+9223372036854775808", "-9223372036854775807", "-9223372036854775808",
        "-9223372036854775809", "18446744073709551616", "99999999999999999999999999",
        "-99999999999999999999999999", "--1", "+-1", "-+1", "1-", "1+", "1_000", "1e3", "0x10",
        "1.0", "a", "12a", "a12", "\u{661}\u{662}", "\u{ff11}", "1\u{0}", "-", "+", "", "9999999999999999999",
        "-000000000000000000009223372036854775808", "000000000000000000009223372036854775808",
    ];
    for token in tokens {
        if token.is_empty() || ["+", "-", "*", "/", "!"].contains(&token) {
            continue;
        }
        let expected = token.parse::<i64>().map_err(|_| ErrorKind::InvalidToken);
        assert_eq!(evaluate_postfix(token), expected, "token {:?}", token);
    }
}

/// The tokens are split where `char::is_whitespace` holds, and nowhere else.
#[test]
fn tokens_are_split_at_whitespace_as_the_standard_library_defines_it() {
    let mut cache = FactorialCache::new();
    let mut expr = Expression::new("");
    let mut separators: u32 = 0;
    for code in 0..=0x10FFFFu32 {
        let c = match char::from_u32(code) {
            Some(c) => c,
            None => continue,
        };
        expr.post_fix = format!("1{}2 +", c);
        expr.result = Err(ErrorKind::InvalidExpression);
        let outcome = expr.compute_expression(&mut cache);
        assert_eq!(outcome == Ok(()) && *expr.get_result() == Ok(3), c.is_whitespace(), "U+{:04X}", code);
        if c.is_whitespace() {
            separators += 1;
        }
    }
    assert_eq!(separators, 25);
}

#[test]
fn any_run_of_whitespace_separates_tokens() {
    assert_eq!(evaluate_postfix("  3\t4\n+\r\n"), Ok(7));
    assert_eq!(evaluate_postfix("3\u{a0}4\u{3000}+"), Ok(7));
    assert_eq!(evaluate_postfix("3\u{200b}4 +"), Err(ErrorKind::InvalidToken));
}

#[test]
fn evaluating_twice_gives_the_same_result() {
    let mut cache = FactorialCache::new();
    for postfix in ["3 4 2 * +", "5 !", "10 0 /", "+", "1 2", "x", "21 !", "0 1 - !"] {
        let mut expr = Expression::new("");
        expr.post_fix = postfix.to_string();
        let first = expr.compute_expression(&mut cache);
        let first_result = expr.get_result().clone();
        let second = expr.compute_expression(&mut cache);
        assert_eq!(first, second);
        assert_eq!(first_result, *expr.get_result());
        assert_eq!(expr.post_fix, postfix);
    }
}

#[test]
fn failed_evaluation_keeps_the_earlier_result() {
    let mut cache = FactorialCache::new();
    let mut expr = Expression::new("3+2");
    assert_eq!(expr.infix_to_postfix(), Ok(()));
    assert_eq!(expr.compute_expression(&mut cache), Ok(()));
    assert_eq!(*expr.get_result(), Ok(5));
    expr.post_fix = "1 0 /".to_string();
    assert_eq!(expr.compute_expression(&mut cache), Err(ErrorKind::DivisionByZero));
    assert_eq!(*expr.get_result(), Ok(5));
    assert_eq!(expr.show_post_fix(), "1 0 /");
}

#[test]
fn factorial_of_a_negative_operand_is_invalid() {
    let mut cache = FactorialCache::new();
    let mut expr = Expression::new("(3-5)!");
    assert_eq!(expr.infix_to_postfix(), Ok(()));
    assert_eq!(expr.compute_expression(&mut cache), Err(ErrorKind::InvalidExpression));
    assert_eq!(cache.len(), 2);
    assert_eq!(evaluate_postfix("-1 !"), Err(ErrorKind::InvalidExpression));
    assert_eq!(evaluate_postfix("-9223372036854775808 !"), Err(ErrorKind::InvalidExpression));
}

#[test]
fn factorial_in_an_expression() {
    assert_eq!(evaluate("0!"), Ok(1));
    assert_eq!(evaluate("3!!"), Ok(720));
    assert_eq!(evaluate("(2*3)! + 2!"), Ok(722));
    assert_eq!(evaluate("4!/(2+3)"), Ok(4));
    assert_eq!(evaluate("20!"), Ok(2432902008176640000));
    assert_eq!(evaluate("21!"), Err(ErrorKind::Overflow));
}
