use treapkit::sieve::{
    count_primes_eratosthenes, count_primes_eratosthenes_optimized_memory, count_primes_optimized,
    count_primes_up_to_n, is_prime,
};

#[test]
fn trial_division_tells_the_primes() {
    let primes = [2, 3, 5, 7, 11, 13, 17, 19, 23, 29, 31, 37, 41, 43, 47];
    for n in -3..50 {
        assert_eq!(is_prime(n), primes.contains(&n), "{}", n);
    }
    assert!(is_prime(7919));
    assert!(!is_prime(7917));
    assert!(!is_prime(46341 * 3));
    assert!(is_prime(2147483647));
    assert!(!is_prime(2147395600));
}

#[test]
fn counts_of_primes_by_trial_division() {
    assert_eq!(count_primes_up_to_n(-5), 0);
    assert_eq!(count_primes_up_to_n(0), 0);
    assert_eq!(count_primes_up_to_n(1), 0);
    assert_eq!(count_primes_up_to_n(2), 1);
    assert_eq!(count_primes_up_to_n(10), 4);
    assert_eq!(count_primes_up_to_n(100), 25);
    assert_eq!(count_primes_up_to_n(10_000), 1229);
}

#[test]
fn counts_of_primes_by_the_sieve() {
    assert_eq!(count_primes_eratosthenes(-1), 0);
    assert_eq!(count_primes_eratosthenes(1), 0);
    assert_eq!(count_primes_eratosthenes(2), 1);
    assert_eq!(count_primes_eratosthenes(3), 2);
    assert_eq!(count_primes_eratosthenes(4), 2);
    assert_eq!(count_primes_eratosthenes(100), 25);
    assert_eq!(count_primes_eratosthenes(1_000_000), 78498);
}

#[test]
fn the_sieve_of_bits_counts_the_same() {
    assert_eq!(count_primes_eratosthenes_optimized_memory(0), 0);
    assert_eq!(count_primes_eratosthenes_optimized_memory(2), 1);
    assert_eq!(count_primes_eratosthenes_optimized_memory(7), 4);
    assert_eq!(count_primes_eratosthenes_optimized_memory(8), 4);
    assert_eq!(count_primes_eratosthenes_optimized_memory(100), 25);
    for n in 0..300 {
        assert_eq!(
            count_primes_eratosthenes_optimized_memory(n),
            count_primes_eratosthenes(n)
        );
        assert_eq!(count_primes_up_to_n(n), count_primes_eratosthenes(n));
    }
    assert_eq!(count_primes_eratosthenes_optimized_memory(1_000_000), 78498);
}

#[test]
fn the_sieve_without_even_numbers_leaves_out_two() {
    assert_eq!(count_primes_optimized(1), 0);
    assert_eq!(count_primes_optimized(2), 0);
    assert_eq!(count_primes_optimized(3), 1);
    assert_eq!(count_primes_optimized(100), 24);
    assert_eq!(count_primes_optimized(10_000), 1228);
}
