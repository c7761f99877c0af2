use treapkit::primes::{
    count_primes_until, count_primes_with_table, is_prime_raw, PrimeTable, RawPrimesIter,
    RawPrimesTable,
};

#[test]
fn is_prime_raw_test() {
    assert!(!is_prime_raw(0));
    assert!(!is_prime_raw(1));
    assert!(is_prime_raw(2));
    assert!(is_prime_raw(3));
    assert!(!is_prime_raw(4));
    assert!(is_prime_raw(5));
    assert!(!is_prime_raw(6));
    assert!(is_prime_raw(7));
    assert!(!is_prime_raw(8));
    assert!(!is_prime_raw(9));
    assert!(!is_prime_raw(10));
    assert!(is_prime_raw(11));
    assert!(!is_prime_raw(12));
}

#[test]
fn count_primes_until_test() {
    assert_eq!(count_primes_until(2), 1);
    assert_eq!(count_primes_until(3), 2);
    assert_eq!(count_primes_until(11), 5);
    assert_eq!(count_primes_until(12), 5);
}

#[test]
fn raw_primes_iter_test() {
    let mut primes = RawPrimesIter::new();

    assert_eq!(primes.next(), Some(2));
    assert_eq!(primes.next(), Some(3));
    assert_eq!(primes.next(), Some(5));
    assert_eq!(primes.next(), Some(7));
    assert_eq!(primes.next(), Some(11));
    assert_eq!(primes.next(), Some(13));
    assert_eq!(primes.next(), Some(17));
    assert_eq!(primes.next(), Some(19));
    assert_eq!(primes.next(), Some(23));
}

#[test]
fn raw_primes_table_test() {
    let table = RawPrimesTable;

    assert!(!table.is_prime(0));
    assert!(!table.is_prime(1));
    assert!(table.is_prime(2));
    assert!(table.is_prime(3));
    assert!(!table.is_prime(4));
    assert!(table.is_prime(5));
    assert!(!table.is_prime(6));
    assert!(table.is_prime(7));
    assert!(!table.is_prime(8));
    assert!(!table.is_prime(9));
    assert!(!table.is_prime(10));
    assert!(table.is_prime(11));
    assert!(!table.is_prime(12));
    assert!(table.is_prime(13));
}

#[test]
fn primes_are_counted_as_often_as_they_occur() {
    let nums = [1, 2, 3, 4, 5, 6, 7, 8, 9, 10, 11];
    assert_eq!(count_primes_with_table(&nums, RawPrimesTable), 5);
    let nums = [1, 2, 2, 2, 3, 4, 4, 4, 5, 6, 7, 8, 9, 10, 11];
    assert_eq!(count_primes_with_table(&nums, RawPrimesTable), 7);
    assert_eq!(count_primes_with_table(&[], RawPrimesTable), 0);
}

#[test]
fn counts_at_the_low_end() {
    assert_eq!(count_primes_until(0), 0);
    assert_eq!(count_primes_until(1), 0);
    assert_eq!(count_primes_until(100), 25);
    assert!(is_prime_raw(7919));
    assert!(!is_prime_raw(7917));
}
