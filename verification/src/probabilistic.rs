//! Sketches of texts: a Bloom filter, signatures of least hashes,
//! fingerprints by the votes of hashes, and measures of likeness between
//! them.

use crate::chess_bit_moves::{count_ones, popcount};
use std::collections::hash_map::DefaultHasher;
use std::hash::{Hash, Hasher};
use vstd::prelude::*;
use vstd::std_specs::hash::DefaultHasherAdditionalSpecFns;
use vstd::string::StringSliceAdditionalSpecFns;

verus! {

/// The hash of a text: from 5381 on, for every byte, 33 times the hash so
/// far plus the byte, in 64 bits.
pub open spec fn text_hash(bytes: Seq<u8>) -> u64
    decreases bytes.len(),
{
    if bytes.len() == 0 {
        5381
    } else {
        let hash = text_hash(bytes.drop_last());
        (hash << 5).wrapping_add(hash).wrapping_add(bytes.last() as u64)
    }
}

/// Computes `text_hash`.
fn hash_text(bytes: &[u8]) -> (hash: u64)
    ensures
        hash == text_hash(bytes@),
{
    let mut hash: u64 = 5381;
    let mut k: usize = 0;
    while k < bytes.len()
        invariant
            k <= bytes.len(),
            hash == text_hash(bytes@.take(k as int)),
        decreases bytes.len() - k,
    {
        proof {
            assert(bytes@.take(k + 1).drop_last() == bytes@.take(k as int));
        }
        hash = (hash << 5).wrapping_add(hash).wrapping_add(bytes[k] as u64);
        k += 1;
    }
    proof {
        assert(bytes@.take(k as int) == bytes@);
    }
    hash
}

/// The place among `size` bits that the hash function of number `i` gives
/// to a text.
pub open spec fn slot(size: nat, i: nat, bytes: Seq<u8>) -> int {
    (text_hash(bytes).wrapping_add(i as u64) % (size as u64)) as int
}

/// Whether the bits show a text: every one of the `rounds` hash functions
/// gives it a place whose bit is set.
pub open spec fn shows(bits: Seq<bool>, rounds: nat, bytes: Seq<u8>) -> bool {
    forall|i: nat| i < rounds ==> bits[#[trigger] slot(bits.len(), i, bytes)]
}

/// A set of texts kept as bits: a text that was put in is always shown,
/// and one that was not may be shown too.
pub struct BloomFilter {
    bit_array: Vec<bool>,
    hash_functions: usize,
}

impl BloomFilter {
    /// The bits of the filter.
    pub closed spec fn bits(&self) -> Seq<bool> {
        self.bit_array@
    }

    /// The number of hash functions.
    pub closed spec fn rounds(&self) -> nat {
        self.hash_functions as nat
    }

    /// A filter of `size` bits, none of them set, with `num_hash_functions`
    /// hash functions.
    pub fn new(size: usize, num_hash_functions: usize) -> (filter: Self)
        ensures
            filter.bits().len() == size,
            filter.rounds() == num_hash_functions,
            forall|k: int| 0 <= k < size ==> !filter.bits()[k],
    {
        let mut bit_array: Vec<bool> = Vec::new();
        while bit_array.len() < size
            invariant
                bit_array.len() <= size,
                forall|k: int| 0 <= k < bit_array.len() ==> !bit_array[k],
            decreases size - bit_array.len(),
        {
            bit_array.push(false);
        }
        BloomFilter { bit_array, hash_functions: num_hash_functions }
    }

    /// Puts a text in: sets the bit of every place that a hash function
    /// gives it, and no other.
    pub fn insert(&mut self, item: &str)
        requires
            old(self).rounds() > 0 ==> old(self).bits().len() > 0,
        ensures
            final(self).rounds() == old(self).rounds(),
            final(self).bits().len() == old(self).bits().len(),
            forall|k: int|
                0 <= k < old(self).bits().len() ==> #[trigger] final(self).bits()[k] == (old(
                    self,
                ).bits()[k] || exists|i: nat|
                    i < old(self).rounds() && #[trigger] slot(
                        old(self).bits().len(),
                        i,
                        item.spec_bytes(),
                    ) == k),
            shows(final(self).bits(), final(self).rounds(), item.spec_bytes()),
    {
        let hash = hash_text(item.as_bytes());
        let size = self.bit_array.len();
        let ghost bytes = item.spec_bytes();
        let mut i: usize = 0;
        while i < self.hash_functions
            invariant
                i <= self.hash_functions,
                self.hash_functions == old(self).hash_functions,
                self.bit_array.len() == size,
                size == old(self).bit_array.len(),
                self.hash_functions > 0 ==> size > 0,
                hash == text_hash(bytes),
                forall|k: int|
                    0 <= k < size ==> #[trigger] self.bit_array[k] == (old(self).bit_array[k]
                        || exists|j: nat| j < i && #[trigger] slot(size as nat, j, bytes) == k),
            decreases self.hash_functions - i,
        {
            let index = (hash.wrapping_add(i as u64) % (size as u64)) as usize;
            let ghost before = self.bit_array@;
            self.bit_array.set(index, true);
            proof {
                assert(index == slot(size as nat, i as nat, bytes));
                assert forall|k: int| 0 <= k < size implies #[trigger] self.bit_array[k] == (old(
                    self,
                ).bit_array[k] || exists|j: nat|
                    j < i + 1 && #[trigger] slot(size as nat, j, bytes) == k) by {
                    if before[k] && !old(self).bit_array[k] {
                        let j = choose|j: nat| j < i && #[trigger] slot(size as nat, j, bytes) == k;
                        assert(j < i + 1 && slot(size as nat, j, bytes) == k);
                    }
                    if self.bit_array[k] && !before[k] {
                        assert(slot(size as nat, i as nat, bytes) == k);
                    }
                    if exists|j: nat| j < i + 1 && #[trigger] slot(size as nat, j, bytes) == k {
                        let j = choose|j: nat|
                            j < i + 1 && #[trigger] slot(size as nat, j, bytes) == k;
                        if j < i {
                            assert(before[k]);
                        }
                    }
                }
            }
            i += 1;
        }
        proof {
            assert forall|j: nat| j < self.rounds() implies self.bits()[#[trigger] slot(
                self.bits().len(),
                j,
                bytes,
            )] by {
                let k = slot(size as nat, j, bytes);
                assert(0 <= k < size);
            }
        }
    }

    /// Whether the bits show the text: always so for a text that was put
    /// in.
    pub fn might_contain(&self, item: &str) -> (shown: bool)
        requires
            self.rounds() > 0 ==> self.bits().len() > 0,
        ensures
            shown == shows(self.bits(), self.rounds(), item.spec_bytes()),
    {
        let hash = hash_text(item.as_bytes());
        let size = self.bit_array.len();
        let mut i: usize = 0;
        while i < self.hash_functions
            invariant
                i <= self.hash_functions,
                self.bit_array.len() == size,
                self.hash_functions > 0 ==> size > 0,
                hash == text_hash(item.spec_bytes()),
                forall|j: nat|
                    j < i ==> self.bit_array[#[trigger] slot(size as nat, j, item.spec_bytes())],
            decreases self.hash_functions - i,
        {
            let index = (hash.wrapping_add(i as u64) % (size as u64)) as usize;
            if !self.bit_array[index] {
                proof {
                    assert(index == slot(size as nat, i as nat, item.spec_bytes()));
                }
                return false;
            }
            i += 1;
        }
        true
    }
}

/// A filter never forgets: a text that the bits show is shown by every
/// later state of the bits, in which no bit was taken back.
pub proof fn lemma_bloom_keeps(before: Seq<bool>, after: Seq<bool>, rounds: nat, bytes: Seq<u8>)
    requires
        before.len() == after.len(),
        before.len() <= usize::MAX,
        rounds > 0 ==> before.len() > 0,
        forall|k: int| 0 <= k < before.len() && before[k] ==> after[k],
        shows(before, rounds, bytes),
    ensures
        shows(after, rounds, bytes),
{
    assert forall|i: nat| i < rounds implies after[#[trigger] slot(after.len(), i, bytes)] by {
        let k = slot(before.len(), i, bytes);
        assert(0 <= k < before.len());
        assert(before[k]);
    }
}

/// What a hasher has been fed, after `<str as Hash>::hash` has fed it the
/// word `word` on top of what it had been fed before.
pub uninterp spec fn fed(state: Seq<Seq<u8>>, word: Seq<char>) -> Seq<Seq<u8>>;

/// The words of a text as `str::split_whitespace` hands them out: the
/// stretches of the text between white space, in their order.
pub uninterp spec fn words_in(text: Seq<char>) -> Seq<Seq<char>>;

/// Feeds a word to a hasher: `<str as Hash>::hash`, which leaves the
/// hasher in a state that the state before and the word decide.
#[verifier::external_body]
fn feed_word(hasher: &mut DefaultHasher, word: &str)
    ensures
        final(hasher)@ == fed(old(hasher)@, word@),
{
    word.hash(hasher);
}

/// The words of a text: `str::split_whitespace`, which hands out the
/// stretches of the text between white space, none of them empty, so that
/// there are no more of them than the text has bytes.
#[verifier::external_body]
fn words_of<'a>(text: &'a str) -> (words: Vec<&'a str>)
    ensures
        words.len() <= text.spec_bytes().len(),
        words.len() == words_in(text@).len(),
        forall|k: int| 0 <= k < words.len() ==> (#[trigger] words[k])@ == words_in(text@)[k],
{
    text.split_whitespace().collect()
}

/// The hash of a word: what a new default hasher of the standard library
/// gives when it has been fed the word and nothing else.
pub open spec fn word_hash(word: Seq<char>) -> u64 {
    DefaultHasher::spec_finish(fed(Seq::empty(), word))
}

/// The hashes of the words of a text, in the order of the words.
pub open spec fn hashes_in(text: Seq<char>) -> Seq<u64> {
    Seq::new(words_in(text).len(), |k: int| word_hash(words_in(text)[k]))
}

/// The hashes of the words of a text, by the default hasher of the
/// standard library: for every word, in the order of the words, the hash
/// of a new hasher that was fed the word.
fn word_hashes(text: &str) -> (hashes: Vec<u64>)
    ensures
        hashes@ == hashes_in(text@),
        hashes.len() <= text.spec_bytes().len(),
{
    let words = words_of(text);
    let mut hashes: Vec<u64> = Vec::new();
    let mut k: usize = 0;
    while k < words.len()
        invariant
            k <= words.len(),
            hashes.len() == k,
            words.len() == words_in(text@).len(),
            forall|a: int| 0 <= a < words.len() ==> (#[trigger] words[a])@ == words_in(text@)[a],
            forall|a: int| 0 <= a < k ==> #[trigger] hashes[a] == word_hash(words_in(text@)[a]),
        decreases words.len() - k,
    {
        let mut hasher = DefaultHasher::new();
        feed_word(&mut hasher, words[k]);
        hashes.push(hasher.finish());
        k += 1;
    }
    proof {
        assert(hashes@ =~= hashes_in(text@));
    }
    hashes
}

/// The least of the hashes, each with `i` added in 64 bits; the largest
/// number where there is no hash.
pub open spec fn least(hashes: Seq<u64>, i: u64) -> u64
    decreases hashes.len(),
{
    if hashes.len() == 0 {
        u64::MAX
    } else {
        let rest = least(hashes.drop_last(), i);
        let here = hashes.last().wrapping_add(i);
        if here < rest {
            here
        } else {
            rest
        }
    }
}

/// Signatures of texts: for each of a number of hash functions the least
/// hash among the words.
pub struct MinHash {
    num_hashes: usize,
}

impl MinHash {
    /// The number of hash functions, which is the length of a signature.
    pub closed spec fn width(&self) -> nat {
        self.num_hashes as nat
    }

    pub fn new(num_hashes: usize) -> (sketch: Self)
        ensures
            sketch.width() == num_hashes,
    {
        MinHash { num_hashes }
    }

    /// The signature of words with the hashes `hashes`: at `i` the least
    /// of the hashes with `i` added.
    pub fn signature_of(&self, hashes: &Vec<u64>) -> (signature: Vec<u64>)
        ensures
            signature.len() == self.width(),
            forall|i: int|
                0 <= i < self.width() ==> #[trigger] signature[i] == least(hashes@, i as u64),
    {
        let mut signature: Vec<u64> = Vec::new();
        while signature.len() < self.num_hashes
            invariant
                signature.len() <= self.num_hashes,
                forall|i: int| 0 <= i < signature.len() ==> signature[i] == u64::MAX,
            decreases self.num_hashes - signature.len(),
        {
            signature.push(u64::MAX);
        }
        let mut k: usize = 0;
        while k < hashes.len()
            invariant
                k <= hashes.len(),
                signature.len() == self.num_hashes,
                forall|i: int|
                    0 <= i < self.num_hashes ==> #[trigger] signature[i] == least(
                        hashes@.take(k as int),
                        i as u64,
                    ),
            decreases hashes.len() - k,
        {
            let mut i: usize = 0;
            proof {
                assert(hashes@.take(k + 1).drop_last() == hashes@.take(k as int));
            }
            while i < self.num_hashes
                invariant
                    k < hashes.len(),
                    i <= self.num_hashes,
                    signature.len() == self.num_hashes,
                    hashes@.take(k + 1).drop_last() == hashes@.take(k as int),
                    forall|j: int|
                        0 <= j < i ==> #[trigger] signature[j] == least(
                            hashes@.take(k + 1),
                            j as u64,
                        ),
                    forall|j: int|
                        i <= j < self.num_hashes ==> #[trigger] signature[j] == least(
                            hashes@.take(k as int),
                            j as u64,
                        ),
                decreases self.num_hashes - i,
            {
                let hash = hashes[k].wrapping_add(i as u64);
                if hash < signature[i] {
                    signature.set(i, hash);
                }
                i += 1;
            }
            k += 1;
        }
        proof {
            assert(hashes@.take(k as int) == hashes@);
        }
        signature
    }

    /// The signature of a text: at `i` the least of the hashes of its
    /// words with `i` added.
    pub fn compute_signature(&self, text: &str) -> (signature: Vec<u64>)
        ensures
            signature.len() == self.width(),
            forall|i: int|
                0 <= i < self.width() ==> #[trigger] signature[i] == least(
                    hashes_in(text@),
                    i as u64,
                ),
    {
        let hashes = word_hashes(text);
        self.signature_of(&hashes)
    }
}

/// Whether the bit `i` of `x` is set.
pub open spec fn bit_at(x: u64, i: u64) -> bool {
    x & (1u64 << i) != 0
}

/// The votes of the hashes on the bit `i`: one for every hash that has it
/// set, one against for every hash that has not.
pub open spec fn votes(hashes: Seq<u64>, i: u64) -> int
    decreases hashes.len(),
{
    if hashes.len() == 0 {
        0
    } else if bit_at(hashes.last(), i) {
        votes(hashes.drop_last(), i) + 1
    } else {
        votes(hashes.drop_last(), i) - 1
    }
}

/// The votes on a bit are no more, for or against, than the hashes.
pub proof fn lemma_votes_bounded(hashes: Seq<u64>, i: u64)
    ensures
        -hashes.len() <= votes(hashes, i) <= hashes.len(),
    decreases hashes.len(),
{
    if hashes.len() > 0 {
        lemma_votes_bounded(hashes.drop_last(), i);
    }
}

/// Setting the bit `i` sets that bit and leaves the others.
pub proof fn lemma_set_bit(x: u64, i: u64, j: u64)
    requires
        i < 64,
        j < 64,
    ensures
        bit_at(x | (1u64 << i), j) == (j == i || bit_at(x, j)),
        !bit_at(0, j),
{
    assert(((x | (1u64 << i)) & (1u64 << j) != 0) == (j == i || x & (1u64 << j) != 0))
        by (bit_vector)
        requires
            i < 64,
            j < 64,
    ;
    assert(0u64 & (1u64 << j) == 0) by (bit_vector);
}

/// Fingerprints of texts: a bit is set where more of the words' hashes
/// have it set than not.
pub struct SimHash {
    num_bits: usize,
}

impl SimHash {
    /// The number of bits of a fingerprint.
    pub closed spec fn width(&self) -> nat {
        self.num_bits as nat
    }

    pub fn new(num_bits: usize) -> (sketch: Self)
        ensures
            sketch.width() == num_bits,
    {
        SimHash { num_bits }
    }

    /// The fingerprint of words with the hashes `hashes`: the bit `i` is
    /// set where it is one of the bits of a fingerprint and the votes on
    /// it are in favour.
    pub fn fingerprint_of(&self, hashes: &Vec<u64>) -> (fingerprint: u64)
        requires
            self.width() <= 64,
            hashes.len() <= i32::MAX,
        ensures
            forall|i: u64|
                i < 64 ==> #[trigger] bit_at(fingerprint, i) == (i < self.width() && votes(
                    hashes@,
                    i,
                ) > 0),
    {
        let mut v: Vec<i32> = Vec::new();
        while v.len() < self.num_bits
            invariant
                v.len() <= self.num_bits,
                forall|i: int| 0 <= i < v.len() ==> v[i] == 0,
            decreases self.num_bits - v.len(),
        {
            v.push(0);
        }
        let mut k: usize = 0;
        while k < hashes.len()
            invariant
                k <= hashes.len() <= i32::MAX,
                self.num_bits <= 64,
                v.len() == self.num_bits,
                forall|i: int|
                    0 <= i < self.num_bits ==> #[trigger] v[i] == votes(
                        hashes@.take(k as int),
                        i as u64,
                    ),
            decreases hashes.len() - k,
        {
            let hash = hashes[k];
            let mut i: usize = 0;
            proof {
                assert(hashes@.take(k + 1).drop_last() == hashes@.take(k as int));
            }
            while i < self.num_bits
                invariant
                    k < hashes.len() <= i32::MAX,
                    hash == hashes[k as int],
                    i <= self.num_bits <= 64,
                    v.len() == self.num_bits,
                    hashes@.take(k + 1).drop_last() == hashes@.take(k as int),
                    forall|j: int|
                        0 <= j < i ==> #[trigger] v[j] == votes(hashes@.take(k + 1), j as u64),
                    forall|j: int|
                        i <= j < self.num_bits ==> #[trigger] v[j] == votes(
                            hashes@.take(k as int),
                            j as u64,
                        ),
                decreases self.num_bits - i,
            {
                proof {
                    lemma_votes_bounded(hashes@.take(k as int), i as u64);
                }
                let count = v[i];
                if (hash & (1u64 << (i as u64))) != 0 {
                    v.set(i, count + 1);
                } else {
                    v.set(i, count - 1);
                }
                i += 1;
            }
            k += 1;
        }
        proof {
            assert(hashes@.take(k as int) == hashes@);
        }
        let mut fingerprint: u64 = 0;
        let mut i: usize = 0;
        proof {
            assert forall|j: u64| j < 64 implies !#[trigger] bit_at(0, j) by {
                lemma_set_bit(0, 0, j);
            }
        }
        while i < self.num_bits
            invariant
                i <= self.num_bits <= 64,
                v.len() == self.num_bits,
                forall|j: int| 0 <= j < self.num_bits ==> #[trigger] v[j] == votes(hashes@, j as u64),
                forall|j: u64|
                    j < 64 ==> #[trigger] bit_at(fingerprint, j) == (j < i && votes(hashes@, j) > 0),
            decreases self.num_bits - i,
        {
            if v[i] > 0 {
                let ghost before = fingerprint;
                fingerprint |= 1u64 << (i as u64);
                proof {
                    assert forall|j: u64| j < 64 implies #[trigger] bit_at(fingerprint, j) == (j < i
                        + 1 && votes(hashes@, j) > 0) by {
                        lemma_set_bit(before, i as u64, j);
                        assert(bit_at(before, j) == (j < i && votes(hashes@, j) > 0));
                        if j == i {
                            assert(v[i as int] == votes(hashes@, i as u64));
                        }
                    }
                }
            } else {
                proof {
                    assert(v[i as int] == votes(hashes@, i as u64));
                }
            }
            i += 1;
        }
        fingerprint
    }

    /// The fingerprint of a text: the bit `i` is set where it is one of
    /// the bits of a fingerprint and the votes of the hashes of the words
    /// on it are in favour.
    pub fn compute_hash(&self, text: &str) -> (fingerprint: u64)
        requires
            self.width() <= 64,
            text.spec_bytes().len() <= i32::MAX,
        ensures
            forall|i: u64|
                i < 64 ==> #[trigger] bit_at(fingerprint, i) == (i < self.width() && votes(
                    hashes_in(text@),
                    i,
                ) > 0),
    {
        let hashes = word_hashes(text);
        self.fingerprint_of(&hashes)
    }
}

/// The number of the first `n` places at which the two hold the same.
pub open spec fn agreeing(a: Seq<u64>, b: Seq<u64>, n: int) -> nat
    decreases n,
{
    if n <= 0 {
        0
    } else if a[n - 1] == b[n - 1] {
        agreeing(a, b, n - 1) + 1
    } else {
        agreeing(a, b, n - 1)
    }
}

/// The number of places, as far as both signatures reach, at which they
/// hold the same.
pub fn agreeing_places(set1: &[u64], set2: &[u64]) -> (count: usize)
    ensures
        count == agreeing(
            set1@,
            set2@,
            if set1.len() <= set2.len() {
                set1.len() as int
            } else {
                set2.len() as int
            },
        ),
{
    let reach = if set1.len() <= set2.len() {
        set1.len()
    } else {
        set2.len()
    };
    let mut count: usize = 0;
    let mut i: usize = 0;
    while i < reach
        invariant
            i <= reach,
            reach <= set1.len(),
            reach <= set2.len(),
            count <= i,
            count == agreeing(set1@, set2@, i as int),
        decreases reach - i,
    {
        if set1[i] == set2[i] {
            count += 1;
        }
        i += 1;
    }
    count
}

/// Of the first `n` predictions, how many are right.
pub open spec fn right_among(predictions: Seq<bool>, actual: Seq<bool>, n: int) -> nat
    decreases n,
{
    if n <= 0 {
        0
    } else if predictions[n - 1] == actual[n - 1] {
        right_among(predictions, actual, n - 1) + 1
    } else {
        right_among(predictions, actual, n - 1)
    }
}

/// Of the first `n` predictions, how many say yes where the answer is no.
pub open spec fn false_alarms_among(predictions: Seq<bool>, actual: Seq<bool>, n: int) -> nat
    decreases n,
{
    if n <= 0 {
        0
    } else if predictions[n - 1] && !actual[n - 1] {
        false_alarms_among(predictions, actual, n - 1) + 1
    } else {
        false_alarms_among(predictions, actual, n - 1)
    }
}

/// Of the first `n` predictions, how many say no where the answer is no.
pub open spec fn right_noes_among(predictions: Seq<bool>, actual: Seq<bool>, n: int) -> nat
    decreases n,
{
    if n <= 0 {
        0
    } else if !predictions[n - 1] && !actual[n - 1] {
        right_noes_among(predictions, actual, n - 1) + 1
    } else {
        right_noes_among(predictions, actual, n - 1)
    }
}

/// The counts by which predictions are judged against the answers, as far
/// as both reach: the number of predictions, and how many of them are
/// right, say yes where the answer is no, and say no where the answer is
/// no.
pub fn count_outcomes(predictions: &[bool], actual: &[bool]) -> (counts: (
    usize,
    usize,
    usize,
    usize,
))
    ensures
        counts.0 == predictions.len(),
        ({
            let reach = if predictions.len() <= actual.len() {
                predictions.len() as int
            } else {
                actual.len() as int
            };
            &&& counts.1 == right_among(predictions@, actual@, reach)
            &&& counts.2 == false_alarms_among(predictions@, actual@, reach)
            &&& counts.3 == right_noes_among(predictions@, actual@, reach)
        }),
{
    let total = predictions.len();
    let reach = if predictions.len() <= actual.len() {
        predictions.len()
    } else {
        actual.len()
    };
    let mut correct: usize = 0;
    let mut false_positives: usize = 0;
    let mut true_negatives: usize = 0;
    let mut i: usize = 0;
    while i < reach
        invariant
            i <= reach,
            reach <= predictions.len(),
            reach <= actual.len(),
            correct <= i,
            false_positives <= i,
            true_negatives <= i,
            correct == right_among(predictions@, actual@, i as int),
            false_positives == false_alarms_among(predictions@, actual@, i as int),
            true_negatives == right_noes_among(predictions@, actual@, i as int),
        decreases reach - i,
    {
        let pred = predictions[i];
        let act = actual[i];
        if pred == act {
            correct += 1;
            if !act {
                true_negatives += 1;
            }
        } else if pred && !act {
            false_positives += 1;
        }
        i += 1;
    }
    (total, correct, false_positives, true_negatives)
}

/// The number of bits in which two fingerprints differ.
pub fn hamming_distance(x: u64, y: u64) -> (distance: u32)
    ensures
        distance == popcount((x ^ y) as nat),
{
    count_ones(x ^ y)
}

} // verus!
