use treapkit::algo::{fibonacci_iterative, fibonacci_recursive};

#[test]
fn fibonacci_both_ways() {
    let expected = [0i64, 1, 1, 2, 3, 5, 8, 13, 21, 34, 55];
    for (n, f) in expected.iter().enumerate() {
        assert_eq!(fibonacci_recursive(n as i32), *f);
        assert_eq!(fibonacci_iterative(n as i32), *f);
    }
    assert_eq!(fibonacci_iterative(92), 7540113804746346429);
    assert_eq!(fibonacci_recursive(25), 75025);
}

#[test]
fn fibonacci_below_zero_is_the_argument() {
    assert_eq!(fibonacci_recursive(-3), -3);
    assert_eq!(fibonacci_iterative(-3), -3);
}
