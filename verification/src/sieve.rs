//! Primes by trial division up to the square root, and counts of primes by
//! the sieve of Eratosthenes.

use crate::primes::{lemma_prime_count_grows, prime_count};
use vstd::arithmetic::div_mod::{lemma_fundamental_div_mod, lemma_fundamental_div_mod_converse};
use vstd::prelude::*;

verus! {

/// Whether `m` is at least 2 and no number from 2 on that is below `upto`,
/// and whose square is at most `m`, divides it: what the sieve leaves
/// marked before it comes to `upto`.
pub open spec fn survives(m: int, upto: int) -> bool {
    m >= 2 && forall|d: int| 2 <= d < upto && d * d <= m ==> #[trigger] (m % d) != 0
}

/// What divides a divisor of `m` divides `m`.
pub proof fn lemma_divides_through(m: int, i: int, d: int)
    requires
        m >= 0,
        i > 0,
        d > 0,
        m % i == 0,
        i % d == 0,
    ensures
        m % d == 0,
{
    let a = m / i;
    let b = i / d;
    lemma_fundamental_div_mod(m, i);
    lemma_fundamental_div_mod(i, d);
    assert(m == (b * a) * d + 0) by (nonlinear_arith)
        requires
            m == i * a,
            i == d * b,
    ;
    lemma_fundamental_div_mod_converse(m, d, b * a, 0);
}

/// A number with a proper divisor has one whose square is no more than the
/// number.
pub proof fn lemma_small_divisor(n: int, d: int) -> (e: int)
    requires
        2 <= d < n,
        n % d == 0,
    ensures
        2 <= e < n,
        e * e <= n,
        n % e == 0,
{
    let q = n / d;
    lemma_fundamental_div_mod(n, d);
    assert(n == d * q);
    assert(2 <= q < n) by (nonlinear_arith)
        requires
            n == d * q,
            2 <= d < n,
    ;
    if d <= q {
        assert(d * d <= n) by (nonlinear_arith)
            requires
                n == d * q,
                d <= q,
                d >= 2,
        ;
        d
    } else {
        assert(q * q <= n && n == d * q + 0) by (nonlinear_arith)
            requires
                n == d * q,
                q < d,
                q >= 2,
        ;
        lemma_fundamental_div_mod_converse(n, q, d, 0);
        q
    }
}

/// Once the sieve has come to a number whose square is above `m`, it has
/// left `m` marked exactly if `m` is prime.
pub proof fn lemma_survivor_is_prime(m: int, upto: int)
    requires
        0 <= m < upto * upto,
        0 <= upto,
    ensures
        survives(m, upto) == crate::primes::is_prime(m as nat),
{
    if survives(m, upto) {
        assert forall|d: nat| 2 <= d < m as nat implies #[trigger] ((m as nat) % d) != 0 by {
            if (m as nat) % d == 0 {
                let e = lemma_small_divisor(m, d as int);
                assert(e < upto) by (nonlinear_arith)
                    requires
                        e * e <= m,
                        m < upto * upto,
                        e >= 2,
                        upto >= 0,
                ;
                assert(m % e != 0);
            }
        }
    }
    if crate::primes::is_prime(m as nat) {
        assert forall|d: int| 2 <= d < upto && d * d <= m implies #[trigger] (m % d) != 0 by {
            assert(d < m) by (nonlinear_arith)
                requires
                    d >= 2,
                    d * d <= m,
            ;
            assert((m as nat) % (d as nat) != 0);
        }
    }
}

/// A number that the sieve has crossed out before it comes to it crosses
/// out nothing more.
pub proof fn lemma_skip_composite(i: int, m: int)
    requires
        2 <= i,
        0 <= m,
        !survives(i, i),
    ensures
        survives(m, i + 1) == survives(m, i),
{
    if survives(m, i) && i * i <= m && m % i == 0 {
        let d = choose|d: int| 2 <= d < i && d * d <= i && #[trigger] (i % d) == 0;
        lemma_divides_through(m, i, d);
        assert(d * d <= m) by (nonlinear_arith)
            requires
                d * d <= i,
                i * i <= m,
                i >= 2,
        ;
        assert(m % d != 0);
    }
}

/// Between a multiple of `i` and the next one nothing is a multiple of
/// `i`, and the next one is.
pub proof fn lemma_between_multiples(a: int, i: int, m: int)
    requires
        i > 0,
        a >= 0,
        a % i == 0,
        a <= m <= a + i,
    ensures
        (m % i == 0) == (m == a || m == a + i),
{
    lemma_fundamental_div_mod(a, i);
    let q = a / i;
    if m == a + i {
        assert(m == (q + 1) * i + 0) by (nonlinear_arith)
            requires
                a == i * q,
                m == a + i,
        ;
        lemma_fundamental_div_mod_converse(m, i, q + 1, 0);
    } else {
        assert(m == q * i + (m - a)) by (nonlinear_arith)
            requires
                a == i * q,
        ;
        lemma_fundamental_div_mod_converse(m, i, q, m - a);
    }
}

/// A number is at most the quotient of `n` by it exactly if its square is
/// at most `n`.
pub proof fn lemma_root_test(i: int, n: int)
    requires
        i >= 1,
        n >= 0,
    ensures
        (i <= n / i) == (i * i <= n),
        i * i <= n ==> i <= n,
{
    lemma_fundamental_div_mod(n, i);
    let q = n / i;
    let r = n % i;
    assert((i <= q) == (i * i <= n) && (i * i <= n ==> i <= n)) by (nonlinear_arith)
        requires
            n == i * q + r,
            0 <= r < i,
            i >= 1,
    ;
}

/// Whether `n` is prime, by trial division up to its square root.
pub fn is_prime(n: i32) -> (prime: bool)
    ensures
        prime == (n >= 2 && crate::primes::is_prime(n as nat)),
{
    if n <= 1 {
        return false;
    }
    let mut i: i32 = 2;
    while i <= n / i
        invariant
            n >= 2,
            2 <= i <= n,
            forall|d: int| 2 <= d < i && d * d <= n ==> #[trigger] (n as int % d) != 0,
        decreases n - i,
    {
        proof {
            lemma_root_test(i as int, n as int);
            assert(i < n) by (nonlinear_arith)
                requires
                    i * i <= n,
                    i >= 2,
            ;
        }
        if n % i == 0 {
            proof {
                assert((n as nat) % (i as nat) == 0);
            }
            return false;
        }
        i += 1;
    }
    proof {
        lemma_root_test(i as int, n as int);
        assert(survives(n as int, i as int));
        lemma_survivor_is_prime(n as int, i as int);
    }
    true
}

/// The number of primes up to `n`, each number tested by itself.
pub fn count_primes_up_to_n(n: i32) -> (count: i32)
    ensures
        n <= 1 ==> count == 0,
        n >= 2 ==> count == prime_count(n as nat),
{
    let mut count: i32 = 0;
    let mut i: i32 = 1;
    proof {
        reveal_with_fuel(prime_count, 2);
        assert(!crate::primes::is_prime(1));
    }
    while i < n
        invariant
            1 <= i,
            i <= n || n <= 1,
            n <= 1 ==> count == 0,
            count == prime_count(i as nat),
        decreases n - i,
    {
        proof {
            lemma_prime_count_grows(i as nat, i as nat);
        }
        i += 1;
        if is_prime(i) {
            count += 1;
        }
    }
    count
}

/// Marks for the numbers from 0 to `len - 1`, all of them set.
fn all_marked(len: usize) -> (sieve: Vec<bool>)
    ensures
        sieve.len() == len,
        forall|m: int| 0 <= m < len ==> sieve[m],
{
    let mut sieve: Vec<bool> = Vec::new();
    while sieve.len() < len
        invariant
            sieve.len() <= len,
            forall|m: int| 0 <= m < sieve.len() ==> sieve[m],
        decreases len - sieve.len(),
    {
        sieve.push(true);
    }
    sieve
}

/// How many of the marks from the number 2 on are set.
fn count_marked(sieve: &Vec<bool>) -> (count: usize)
    ensures
        count == marked_below(sieve@, sieve.len() as int),
{
    let mut count: usize = 0;
    let mut k: usize = 0;
    while k < sieve.len()
        invariant
            k <= sieve.len(),
            count <= k,
            count == marked_below(sieve@, k as int),
        decreases sieve.len() - k,
    {
        if sieve[k] {
            count += 1;
        }
        k += 1;
    }
    count
}

/// How many of the marks of the numbers below `upto` are set.
pub open spec fn marked_below(sieve: Seq<bool>, upto: int) -> nat
    decreases upto,
{
    if upto <= 0 {
        0
    } else if sieve[upto - 1] {
        marked_below(sieve, upto - 1) + 1
    } else {
        marked_below(sieve, upto - 1)
    }
}

/// Where the primes are marked, and nothing else, there are as many marks
/// as primes.
pub proof fn lemma_marks_are_primes(sieve: Seq<bool>, upto: int)
    requires
        0 <= upto <= sieve.len(),
        forall|m: int| 0 <= m < upto ==> #[trigger] sieve[m] == crate::primes::is_prime(m as nat),
    ensures
        upto >= 1 ==> marked_below(sieve, upto) == prime_count((upto - 1) as nat),
        upto == 0 ==> marked_below(sieve, upto) == 0,
    decreases upto,
{
    if upto >= 1 {
        lemma_marks_are_primes(sieve, upto - 1);
        if upto == 1 {
            assert(!crate::primes::is_prime(0));
            assert(!sieve[0]);
        }
    }
}

/// Where the odd primes are marked, and nothing else, there is one mark
/// fewer than primes, from 2 on.
pub proof fn lemma_marks_are_odd_primes(sieve: Seq<bool>, upto: int)
    requires
        0 <= upto <= sieve.len(),
        forall|m: int|
            0 <= m < upto ==> #[trigger] sieve[m] == (crate::primes::is_prime(m as nat) && m % 2
                != 0),
    ensures
        upto >= 3 ==> marked_below(sieve, upto) + 1 == prime_count((upto - 1) as nat),
        upto < 3 ==> marked_below(sieve, upto) == 0,
    decreases upto,
{
    if upto >= 1 {
        lemma_marks_are_odd_primes(sieve, upto - 1);
        let m = upto - 1;
        assert(sieve[m] == (crate::primes::is_prime(m as nat) && m % 2 != 0));
        if m == 2 {
            reveal_with_fuel(prime_count, 3);
            assert(!crate::primes::is_prime(1));
            assert(crate::primes::is_prime(2));
        } else if m > 2 && m % 2 == 0 {
            assert((m as nat) % 2 == 0);
        } else if m < 2 {
            assert(!crate::primes::is_prime(m as nat));
        }
    }
}

/// Runs the sieve: crosses out, for every number from 2 on whose square is
/// at most `n` and that is still marked, its multiples from its square on.
fn cross_out(sieve: &mut Vec<bool>, n: usize)
    requires
        2 <= n <= i32::MAX,
        old(sieve).len() == n + 1,
        forall|m: int| 0 <= m <= n ==> #[trigger] old(sieve)[m] == (m >= 2),
    ensures
        final(sieve).len() == n + 1,
        forall|m: int|
            0 <= m <= n ==> #[trigger] final(sieve)[m] == crate::primes::is_prime(m as nat),
{
    let mut i: usize = 2;
    while i <= n / i
        invariant
            2 <= i <= n <= i32::MAX,
            sieve.len() == n + 1,
            forall|m: int| 0 <= m <= n ==> #[trigger] sieve[m] == survives(m, i as int),
        decreases n - i,
    {
        proof {
            lemma_root_test(i as int, n as int);
            assert(i < n && i < 65536) by (nonlinear_arith)
                requires
                    i * i <= n,
                    i >= 2,
                    n <= i32::MAX,
            ;
        }
        if sieve[i] {
            let mut multiple: usize = i * i;
            proof {
                assert((i * i) % (i as int) == 0) by {
                    lemma_fundamental_div_mod_converse(i * i, i as int, i as int, 0);
                }
            }
            while multiple <= n
                invariant
                    2 <= i < 65536,
                    n <= i32::MAX,
                    i * i <= multiple <= n + i,
                    multiple as int % i as int == 0,
                    sieve.len() == n + 1,
                    forall|m: int|
                        0 <= m <= n ==> #[trigger] sieve[m] == (survives(m, i as int) && !(i * i
                            <= m < multiple && m % (i as int) == 0)),
                decreases n + i - multiple,
            {
                let ghost before = sieve@;
                sieve.set(multiple, false);
                proof {
                    assert forall|m: int| 0 <= m <= n implies #[trigger] sieve[m] == (survives(
                        m,
                        i as int,
                    ) && !(i * i <= m < multiple + i && m % (i as int) == 0)) by {
                        assert(before[m] == (survives(m, i as int) && !(i * i <= m < multiple && m
                            % (i as int) == 0)));
                        if multiple <= m < multiple + i {
                            lemma_between_multiples(multiple as int, i as int, m);
                        }
                    }
                    lemma_between_multiples(multiple as int, i as int, multiple + i);
                }
                multiple += i;
            }
        } else {
            proof {
                assert(!survives(i as int, i as int));
                assert forall|m: int| 0 <= m <= n implies #[trigger] sieve[m] == survives(
                    m,
                    i + 1,
                ) by {
                    lemma_skip_composite(i as int, m);
                }
            }
        }
        i += 1;
    }
    proof {
        lemma_root_test(i as int, n as int);
        assert forall|m: int| 0 <= m <= n implies #[trigger] sieve[m] == crate::primes::is_prime(
            m as nat,
        ) by {
            assert(sieve[m] == survives(m, i as int));
            if m < 2 {
                assert(!crate::primes::is_prime(m as nat));
            } else {
                lemma_survivor_is_prime(m, i as int);
            }
        }
    }
}

/// The number of primes up to `n`, by the sieve.
pub fn count_primes_eratosthenes(n: i32) -> (count: i32)
    ensures
        n <= 1 ==> count == 0,
        n >= 2 ==> count == prime_count(n as nat),
{
    if n <= 1 {
        return 0;
    }
    let top = n as usize;
    let mut sieve = all_marked(top + 1);
    sieve.set(0, false);
    sieve.set(1, false);
    cross_out(&mut sieve, top);
    proof {
        lemma_marks_are_primes(sieve@, top + 1);
        lemma_prime_count_grows(top as nat, top as nat);
    }
    let count = count_marked(&sieve);
    count as i32
}

/// The number of odd primes up to `n`, by the sieve: one fewer than the
/// primes, from 2 on, because the marks of all even numbers are taken
/// away before the count, that of 2 among them.
pub fn count_primes_optimized(n: i32) -> (count: i32)
    ensures
        n <= 1 ==> count == 0,
        n >= 2 ==> count + 1 == prime_count(n as nat),
{
    if n <= 1 {
        return 0;
    }
    let top = n as usize;
    let mut sieve = all_marked(top + 1);
    sieve.set(0, false);
    sieve.set(1, false);
    cross_out(&mut sieve, top);
    let mut i: usize = 2;
    proof {
        assert forall|m: int| 0 <= m < 2 implies #[trigger] sieve[m] == (crate::primes::is_prime(
            m as nat,
        ) && m % 2 != 0) by {
            assert(!crate::primes::is_prime(m as nat));
        }
    }
    while i <= top
        invariant
            2 <= i <= top + 1,
            top <= i32::MAX,
            sieve.len() == top + 1,
            forall|m: int|
                0 <= m < i ==> #[trigger] sieve[m] == (crate::primes::is_prime(m as nat) && m % 2
                    != 0),
            forall|m: int|
                i <= m <= top ==> #[trigger] sieve[m] == crate::primes::is_prime(m as nat),
        decreases top + 1 - i,
    {
        if sieve[i] && i % 2 == 0 {
            sieve.set(i, false);
        }
        i += 1;
    }
    proof {
        lemma_marks_are_odd_primes(sieve@, top + 1);
        lemma_prime_count_grows(top as nat, top as nat);
    }
    let count = count_marked(&sieve);
    count as i32
}

/// Whether the bit of the number `m` is set, where every byte holds the
/// bits of eight numbers, the lowest bit that of the least.
pub open spec fn bit_set(sieve: Seq<u8>, m: int) -> bool {
    sieve[m / 8] & (1u8 << ((m % 8) as u8)) != 0
}

/// The marks that the bits stand for, for the numbers up to `n`.
pub open spec fn marks_of(sieve: Seq<u8>, n: int) -> Seq<bool> {
    Seq::new((n + 1) as nat, |m: int| bit_set(sieve, m))
}

/// Bytes with every bit set.
fn all_ones(len: usize) -> (sieve: Vec<u8>)
    ensures
        sieve.len() == len,
        forall|k: int| 0 <= k < len ==> sieve[k] == 0xFFu8,
{
    let mut sieve: Vec<u8> = Vec::new();
    while sieve.len() < len
        invariant
            sieve.len() <= len,
            forall|k: int| 0 <= k < sieve.len() ==> sieve[k] == 0xFFu8,
        decreases len - sieve.len(),
    {
        sieve.push(0xFF);
    }
    sieve
}

/// Taking the bit `at` away from a byte leaves its other bits as they
/// were.
pub proof fn lemma_clear_bit(byte: u8, at: u8, other: u8)
    requires
        at < 8,
        other < 8,
    ensures
        ((byte & !(1u8 << at)) & (1u8 << other) != 0) == (other != at && byte & (1u8 << other)
            != 0),
{
    assert(((byte & !(1u8 << at)) & (1u8 << other) != 0) == (other != at && byte & (1u8 << other)
        != 0)) by (bit_vector)
        requires
            at < 8,
            other < 8,
    ;
}

/// A byte of ones has every bit set, and without its two lowest bits all
/// the others.
pub proof fn lemma_full_byte(at: u8)
    requires
        at < 8,
    ensures
        0xFFu8 & (1u8 << at) != 0,
        ((0xFFu8 & !0b11u8) & (1u8 << at) != 0) == (at >= 2),
{
    assert(0xFFu8 & (1u8 << at) != 0 && (((0xFFu8 & !0b11u8) & (1u8 << at) != 0) == (at >= 2)))
        by (bit_vector)
        requires
            at < 8,
    ;
}

/// The number of primes up to `n`, by the sieve, with one bit for every
/// number.
pub fn count_primes_eratosthenes_optimized_memory(n: i32) -> (count: i32)
    ensures
        n <= 1 ==> count == 0,
        n >= 2 ==> count == prime_count(n as nat),
{
    if n <= 1 {
        return 0;
    }
    let top = n as usize;
    let size = (top + 1) / 8 + 1;
    let mut sieve = all_ones(size);
    let first = sieve[0] & !0b11;
    sieve.set(0, first);
    proof {
        assert forall|m: int| 0 <= m <= top implies #[trigger] bit_set(sieve@, m) == (m >= 2) by {
            lemma_full_byte((m % 8) as u8);
        }
    }
    let mut i: usize = 2;
    while i <= top / i
        invariant
            2 <= i <= top <= i32::MAX,
            size == (top + 1) / 8 + 1,
            sieve.len() == size,
            forall|m: int| 0 <= m <= top ==> #[trigger] bit_set(sieve@, m) == survives(m, i as int),
        decreases top - i,
    {
        proof {
            lemma_root_test(i as int, top as int);
            assert(i < top && i < 65536) by (nonlinear_arith)
                requires
                    i * i <= top,
                    i >= 2,
                    top <= i32::MAX,
            ;
        }
        if sieve[i / 8] & (1u8 << ((i % 8) as u8)) != 0 {
            let mut multiple: usize = i * i;
            proof {
                assert(bit_set(sieve@, i as int));
                assert((i * i) % (i as int) == 0) by {
                    lemma_fundamental_div_mod_converse(i * i, i as int, i as int, 0);
                }
            }
            while multiple <= top
                invariant
                    2 <= i < 65536,
                    top <= i32::MAX,
                    i * i <= multiple <= top + i,
                    multiple as int % i as int == 0,
                    size == (top + 1) / 8 + 1,
                    sieve.len() == size,
                    forall|m: int|
                        0 <= m <= top ==> #[trigger] bit_set(sieve@, m) == (survives(m, i as int)
                            && !(i * i <= m < multiple && m % (i as int) == 0)),
                decreases top + i - multiple,
            {
                let ghost before = sieve@;
                let index = multiple / 8;
                let offset = (multiple % 8) as u8;
                let cleared = sieve[index] & !(1u8 << offset);
                sieve.set(index, cleared);
                proof {
                    assert forall|m: int| 0 <= m <= top implies #[trigger] bit_set(sieve@, m) == (
                    survives(m, i as int) && !(i * i <= m < multiple + i && m % (i as int)
                        == 0)) by {
                        assert(bit_set(before, m) == (survives(m, i as int) && !(i * i <= m
                            < multiple && m % (i as int) == 0)));
                        if m / 8 == index {
                            lemma_clear_bit(before[index as int], offset, (m % 8) as u8);
                        }
                        if multiple <= m < multiple + i {
                            lemma_between_multiples(multiple as int, i as int, m);
                        }
                    }
                    lemma_between_multiples(multiple as int, i as int, multiple + i);
                }
                multiple += i;
            }
        } else {
            proof {
                assert(!bit_set(sieve@, i as int));
                assert(!survives(i as int, i as int));
                assert forall|m: int| 0 <= m <= top implies #[trigger] bit_set(sieve@, m)
                    == survives(m, i + 1) by {
                    lemma_skip_composite(i as int, m);
                }
            }
        }
        i += 1;
    }
    let ghost marks = marks_of(sieve@, top as int);
    proof {
        lemma_root_test(i as int, top as int);
        assert forall|m: int| 0 <= m <= top implies #[trigger] marks[m] == crate::primes::is_prime(
            m as nat,
        ) by {
            assert(bit_set(sieve@, m) == survives(m, i as int));
            if m < 2 {
                assert(!crate::primes::is_prime(m as nat));
            } else {
                lemma_survivor_is_prime(m, i as int);
            }
        }
        lemma_prime_count_grows(top as nat, top as nat);
    }
    let mut count: i32 = 0;
    let mut at: usize = 0;
    while at < size
        invariant
            at <= size,
            top <= i32::MAX,
            size == (top + 1) / 8 + 1,
            sieve.len() == size,
            marks == marks_of(sieve@, top as int),
            forall|m: int|
                0 <= m <= top ==> #[trigger] marks[m] == crate::primes::is_prime(m as nat),
            at * 8 <= top + 1 ==> count == marked_below(marks, at * 8),
            at * 8 > top + 1 ==> count == marked_below(marks, top + 1),
            0 <= count <= top,
        decreases size - at,
    {
        let byte = sieve[at];
        let mut j: usize = 0;
        while j < 8
            invariant
                j <= 8,
                at < size,
                top <= i32::MAX,
                size == (top + 1) / 8 + 1,
                sieve.len() == size,
                byte == sieve[at as int],
                marks == marks_of(sieve@, top as int),
                forall|m: int|
                    0 <= m <= top ==> #[trigger] marks[m] == crate::primes::is_prime(m as nat),
                at * 8 + j <= top + 1 ==> count == marked_below(marks, at * 8 + j),
                at * 8 + j > top + 1 ==> count == marked_below(marks, top + 1),
                0 <= count <= top,
            decreases 8 - j,
        {
            let num = at * 8 + j;
            proof {
                if num <= top {
                    assert(marks[num as int] == bit_set(sieve@, num as int));
                    assert(num / 8 == at && num % 8 == j);
                    lemma_marks_are_primes(marks, num + 1);
                    lemma_prime_count_grows(num as nat, top as nat);
                }
            }
            if byte & (1u8 << (j as u8)) != 0 {
                if num <= top {
                    count += 1;
                }
            }
            j += 1;
        }
        at += 1;
    }
    proof {
        lemma_marks_are_primes(marks, top + 1);
    }
    count
}

} // verus!
