//! Primes by trial division: a test, an endless run of primes, and counts
//! of primes through a table of any kind.

use vstd::prelude::*;

verus! {

/// Whether `n` is prime: at least 2 and divisible by no number between 1
/// and itself.
pub open spec fn is_prime(n: nat) -> bool {
    n >= 2 && forall|d: nat| 2 <= d < n ==> #[trigger] (n % d) != 0
}

/// The number of primes up to `n`.
pub open spec fn prime_count(n: nat) -> nat
    decreases n,
{
    if n == 0 {
        0
    } else if is_prime(n) {
        prime_count((n - 1) as nat) + 1
    } else {
        prime_count((n - 1) as nat)
    }
}

/// The number of primes among the numbers `s`, each counted as often as it
/// occurs.
pub open spec fn primes_among(s: Seq<u32>) -> nat
    decreases s.len(),
{
    if s.len() == 0 {
        0
    } else if is_prime(s.last() as nat) {
        primes_among(s.drop_last()) + 1
    } else {
        primes_among(s.drop_last())
    }
}

/// A proper divisor of `n` is at most half of `n`.
pub proof fn lemma_divisor_at_most_half(n: nat, d: nat)
    requires
        2 <= d < n,
        n % d == 0,
    ensures
        d <= n / 2,
{
    let q = n / d;
    assert(n == d * q) by {
        vstd::arithmetic::div_mod::lemma_fundamental_div_mod(n as int, d as int);
    }
    assert(q >= 2) by (nonlinear_arith)
        requires
            n == d * q,
            d < n,
            d >= 2,
    ;
    assert(d * 2 <= n) by (nonlinear_arith)
        requires
            n == d * q,
            q >= 2,
            d >= 2,
    ;
}

/// There are at most `n` primes up to `n`, and no fewer up to a larger
/// number.
pub proof fn lemma_prime_count_grows(a: nat, b: nat)
    requires
        a <= b,
    ensures
        prime_count(a) <= prime_count(b) <= b,
    decreases b,
{
    if b > 0 {
        if a < b {
            lemma_prime_count_grows(a, (b - 1) as nat);
        } else {
            lemma_prime_count_grows((a - 1) as nat, (b - 1) as nat);
        }
    }
}

/// Whether `num` is prime, by trial division up to its half.
pub fn is_prime_raw(num: u32) -> (prime: bool)
    ensures
        prime == is_prime(num as nat),
{
    if num == 0 || num == 1 {
        return false;
    }
    let mut is_prime_flag = true;
    let half = num / 2;
    let mut n: u32 = 2;
    while n <= half
        invariant
            2 <= n <= half + 1,
            half == num / 2,
            num >= 2,
            is_prime_flag,
            forall|d: nat| 2 <= d < n ==> #[trigger] (num as nat % d) != 0,
        decreases half + 1 - n,
    {
        if num % n == 0 {
            is_prime_flag = false;
            proof {
                assert((num as nat) % (n as nat) == 0);
            }
            return false;
        }
        n += 1;
    }
    proof {
        assert forall|d: nat| 2 <= d < num implies #[trigger] (num as nat % d) != 0 by {
            if (num as nat) % d == 0 {
                lemma_divisor_at_most_half(num as nat, d);
            }
        }
    }
    is_prime_flag
}

/// A table that knows of some numbers whether they are prime.
pub trait PrimeTable {
    /// Whether the table reaches as far as `n`.
    spec fn covers(&self, n: u32) -> bool;

    fn is_prime(&self, n: u32) -> (prime: bool)
        requires
            self.covers(n),
        ensures
            prime == self::is_prime(n as nat),
    ;
}

/// The table that holds nothing and tests each number afresh.
pub struct RawPrimesTable;

impl PrimeTable for RawPrimesTable {
    open spec fn covers(&self, n: u32) -> bool {
        true
    }

    fn is_prime(&self, n: u32) -> (prime: bool) {
        is_prime_raw(n)
    }
}

/// How many of `nums` are prime, by `table`, each counted as often as it
/// occurs.
pub fn count_primes_with_table<T: PrimeTable>(nums: &[u32], table: T) -> (count: usize)
    requires
        forall|i: int| 0 <= i < nums.len() ==> table.covers(#[trigger] nums[i]),
    ensures
        count == primes_among(nums@),
{
    let mut count: usize = 0;
    let mut i: usize = 0;
    while i < nums.len()
        invariant
            i <= nums.len(),
            count <= i,
            count == primes_among(nums@.take(i as int)),
            forall|i: int| 0 <= i < nums.len() ==> table.covers(#[trigger] nums[i]),
        decreases nums.len() - i,
    {
        proof {
            assert(nums@.take(i + 1).drop_last() =~= nums@.take(i as int));
            assert(nums@.take(i + 1).last() == nums[i as int]);
        }
        if table.is_prime(nums[i]) {
            count += 1;
        }
        i += 1;
    }
    proof {
        assert(nums@.take(nums.len() as int) =~= nums@);
    }
    count
}

/// The primes in rising order, without end.
pub struct RawPrimesIter(u32);

impl RawPrimesIter {
    /// The number that the run has reached: every prime up to it has been
    /// handed out.
    pub closed spec fn reached(&self) -> u32 {
        self.0
    }

    pub fn new() -> (primes: Self)
        ensures
            primes.reached() == 1,
    {
        Self(1)
    }

    /// The next prime. There must be one that fits the word.
    pub fn next(&mut self) -> (prime: Option<u32>)
        requires
            exists|p: u32| p > old(self).reached() && is_prime(p as nat),
        ensures
            prime == Some(final(self).reached()),
            final(self).reached() > old(self).reached(),
            is_prime(final(self).reached() as nat),
            forall|q: u32| old(self).reached() < q < final(self).reached() ==> !is_prime(q as nat),
    {
        let ghost start = self.0;
        let ghost bound = choose|p: u32| p > self.0 && is_prime(p as nat);
        loop
            invariant
                start == old(self).0,
                start <= self.0 < bound,
                is_prime(bound as nat),
                forall|q: u32| start < q <= self.0 ==> !is_prime(q as nat),
            decreases bound - self.0,
        {
            self.0 += 1;
            if is_prime_raw(self.0) {
                return Some(self.0);
            }
        }
    }
}

/// The number of primes up to `max_num`. There must be a prime behind
/// `max_num` that fits the word.
pub fn count_primes_until(max_num: u32) -> (count: usize)
    requires
        exists|p: u32| p > max_num && is_prime(p as nat),
    ensures
        count == prime_count(max_num as nat),
{
    let mut primes = RawPrimesIter::new();
    let mut count: usize = 0;
    let ghost bound = choose|p: u32| p > max_num && is_prime(p as nat);
    proof {
        assert(prime_count(1) == 0) by {
            assert(prime_count(0) == 0);
            assert(!is_prime(1));
        }
    }
    loop
        invariant
            primes.reached() <= max_num || primes.reached() == 1,
            primes.reached() < bound,
            bound > max_num,
            is_prime(bound as nat),
            count == prime_count(primes.reached() as nat),
        decreases bound - primes.reached(),
    {
        let ghost before = primes.reached();
        let prime = primes.next().unwrap();
        proof {
            if before <= max_num {
                lemma_count_to_next(before as nat, prime as nat, max_num as nat);
            } else {
                lemma_count_to_next(before as nat, prime as nat, before as nat);
                assert(prime_count(0) == 0);
            }
            lemma_prime_count_grows(prime as nat, prime as nat);
        }
        if prime <= max_num {
            count += 1;
        } else {
            return count;
        }
    }
}

/// Between a number and the next prime behind it the count of primes stays
/// the same, and at that prime it grows by one.
pub proof fn lemma_count_to_next(from: nat, prime: nat, limit: nat)
    requires
        from < prime,
        from <= limit,
        is_prime(prime),
        forall|q: nat| from < q < prime ==> !is_prime(q),
    ensures
        prime_count(prime) == prime_count(from) + 1,
        prime > limit ==> prime_count(limit) == prime_count(from),
    decreases prime + limit - from,
{
    lemma_count_flat(from, (prime - 1) as nat);
    if prime > limit {
        lemma_count_flat(from, limit);
    }
}

/// Over a stretch without primes the count of primes stays the same.
pub proof fn lemma_count_flat(from: nat, to: nat)
    requires
        from <= to,
        forall|q: nat| from < q <= to ==> !is_prime(q),
    ensures
        prime_count(to) == prime_count(from),
    decreases to - from,
{
    if from < to {
        lemma_count_flat(from, (to - 1) as nat);
    }
}

} // verus!
