use kalkulator::{ErrorKind, Expression, FactorialCache};

const FACTORIALS: [i64; 21] = [
    1,
    1,
    2,
    6,
    24,
    120,
    720,
    5040,
    40320,
    362880,
    3628800,
    39916800,
    479001600,
    6227020800,
    87178291200,
    1307674368000,
    20922789888000,
    355687428096000,
    6402373705728000,
    121645100408832000,
    2432902008176640000,
];

fn entries(cache: &FactorialCache) -> Vec<i64> {
    (0..cache.len()).map(|i| cache.get(i).unwrap()).collect()
}

#[test]
fn new_cache_holds_the_two_seeds() {
    let cache = FactorialCache::new();
    assert_eq!(cache.len(), 2);
    assert_eq!(cache.get(0), Some(1));
    assert_eq!(cache.get(1), Some(1));
    assert_eq!(cache.get(2), None);
}

#[test]
fn factorial_of_every_operand_that_fits() {
    for n in 0..=20usize {
        let mut cache = FactorialCache::new();
        assert_eq!(cache.factorial(n as i64), Ok(FACTORIALS[n]));
        assert_eq!(cache.len(), if n < 2 { 2 } else { n + 1 });
        assert_eq!(entries(&cache), FACTORIALS[..cache.len()].to_vec());
    }
}

#[test]
fn cache_grows_only_as_far_as_asked() {
    let mut cache = FactorialCache::new();
    assert_eq!(cache.factorial(5), Ok(120));
    assert_eq!(cache.len(), 6);
    assert_eq!(cache.get(5), Some(120));
    assert_eq!(cache.get(6), None);
    assert_eq!(cache.factorial(3), Ok(6));
    assert_eq!(cache.len(), 6);
    assert_eq!(cache.factorial(7), Ok(5040));
    assert_eq!(cache.len(), 8);
    assert_eq!(entries(&cache), FACTORIALS[..8].to_vec());
}

#[test]
fn evaluation_fills_the_cache_and_later_ones_keep_it() {
    let mut cache = FactorialCache::new();
    let mut expr = Expression::new("5!");
    assert_eq!(expr.process_expression(true, &mut cache), Ok(()));
    assert_eq!(*expr.get_result(), Ok(120));
    let filled = entries(&cache);
    assert_eq!(filled, FACTORIALS[..6].to_vec());

    let mut again = Expression::new("5!");
    assert_eq!(again.process_expression(true, &mut cache), Ok(()));
    assert_eq!(*again.get_result(), Ok(120));
    assert_eq!(entries(&cache), filled);

    let mut smaller = Expression::new("3!+4!");
    assert_eq!(smaller.process_expression(true, &mut cache), Ok(()));
    assert_eq!(*smaller.get_result(), Ok(30));
    assert_eq!(entries(&cache), filled);

    let mut larger = Expression::new("6!");
    assert_eq!(larger.process_expression(true, &mut cache), Ok(()));
    assert_eq!(*larger.get_result(), Ok(720));
    assert_eq!(entries(&cache)[..6], filled[..]);
    assert_eq!(cache.len(), 7);
}

#[test]
fn overflowing_factorial_leaves_the_computed_entries() {
    let mut cache = FactorialCache::new();
    assert_eq!(cache.factorial(21), Err(ErrorKind::Overflow));
    assert_eq!(entries(&cache), FACTORIALS.to_vec());
    assert_eq!(cache.factorial(20), Ok(2432902008176640000));
    assert_eq!(cache.factorial(5), Ok(120));
    assert_eq!(cache.factorial(25), Err(ErrorKind::Overflow));
    assert_eq!(cache.factorial(i64::MAX), Err(ErrorKind::Overflow));
    assert_eq!(entries(&cache), FACTORIALS.to_vec());
}

#[test]
fn overflowing_evaluation_leaves_the_cache_usable() {
    let mut cache = FactorialCache::new();
    let mut expr = Expression::new("25!");
    assert_eq!(expr.process_expression(true, &mut cache), Err(ErrorKind::Overflow));
    assert_eq!(*expr.get_result(), Err(ErrorKind::InvalidExpression));
    assert_eq!(entries(&cache), FACTORIALS.to_vec());
    let mut smaller = Expression::new("10!");
    assert_eq!(smaller.process_expression(true, &mut cache), Ok(()));
    assert_eq!(*smaller.get_result(), Ok(3628800));
}

#[test]
fn negative_operand_is_rejected_before_the_cache_is_touched() {
    let mut cache = FactorialCache::new();
    assert_eq!(cache.factorial(-1), Err(ErrorKind::InvalidExpression));
    assert_eq!(cache.factorial(i64::MIN), Err(ErrorKind::InvalidExpression));
    assert_eq!(cache.len(), 2);
}

#[test]
fn failed_evaluation_keeps_what_the_cache_gained_before() {
    let mut cache = FactorialCache::new();
    let mut expr = Expression::new("");
    expr.post_fix = "4 ! 0 / 9 !".to_string();
    assert_eq!(expr.compute_expression(&mut cache), Err(ErrorKind::DivisionByZero));
    assert_eq!(entries(&cache), FACTORIALS[..5].to_vec());
}
