use std::collections::hash_map::DefaultHasher;
use std::hash::{Hash, Hasher};
use treapkit::probabilistic::{
    agreeing_places, count_outcomes, BloomFilter, MinHash, SimHash,
};

fn std_hash(word: &str) -> u64 {
    let mut hasher = DefaultHasher::new();
    word.hash(&mut hasher);
    hasher.finish()
}

#[test]
fn a_bloom_filter_shows_what_was_put_in() {
    let mut filter = BloomFilter::new(100, 3);
    assert!(!filter.might_contain("hello"));
    filter.insert("hello");
    assert!(filter.might_contain("hello"));
    assert!(!filter.might_contain("world"));
    filter.insert("world");
    assert!(filter.might_contain("hello"));
    assert!(filter.might_contain("world"));
    assert!(!filter.might_contain("treap"));
}

#[test]
fn a_bloom_filter_without_hash_functions_shows_everything() {
    let mut filter = BloomFilter::new(0, 0);
    assert!(filter.might_contain("anything"));
    filter.insert("something");
    assert!(filter.might_contain("anything"));
}

#[test]
fn a_bloom_filter_of_one_bit_shows_everything_after_one_insert() {
    let mut filter = BloomFilter::new(1, 4);
    assert!(!filter.might_contain("a"));
    filter.insert("a");
    assert!(filter.might_contain("b"));
}

#[test]
fn a_signature_holds_the_least_hashes() {
    let sketch = MinHash::new(3);
    assert_eq!(sketch.signature_of(&vec![10, 5, 7]), vec![5, 6, 7]);
    assert_eq!(sketch.signature_of(&vec![]), vec![u64::MAX, u64::MAX, u64::MAX]);
    assert_eq!(sketch.signature_of(&vec![u64::MAX]), vec![u64::MAX, 0, 1]);
    assert_eq!(MinHash::new(0).signature_of(&vec![1, 2]), Vec::<u64>::new());
}

#[test]
fn the_signature_of_a_text_comes_from_the_hashes_of_its_words() {
    let sketch = MinHash::new(4);
    let hashes = vec![std_hash("alpha"), std_hash("beta"), std_hash("gamma")];
    assert_eq!(sketch.compute_signature("alpha  beta\tgamma\n"), sketch.signature_of(&hashes));
    assert_eq!(sketch.compute_signature("beta gamma alpha beta"), sketch.signature_of(&hashes));
    assert_eq!(sketch.compute_signature(""), vec![u64::MAX; 4]);
    assert_eq!(sketch.compute_signature("   "), vec![u64::MAX; 4]);
}

#[test]
fn a_fingerprint_sets_the_bits_that_most_hashes_set() {
    let sketch = SimHash::new(4);
    assert_eq!(sketch.fingerprint_of(&vec![0b1010, 0b0110, 0b0011]), 0b0010);
    assert_eq!(sketch.fingerprint_of(&vec![0b1111]), 0b1111);
    assert_eq!(sketch.fingerprint_of(&vec![0b1111, 0b0000]), 0);
    assert_eq!(sketch.fingerprint_of(&vec![]), 0);
    assert_eq!(sketch.fingerprint_of(&vec![u64::MAX]), 0b1111);
    assert_eq!(SimHash::new(64).fingerprint_of(&vec![u64::MAX]), u64::MAX);
    assert_eq!(SimHash::new(0).fingerprint_of(&vec![u64::MAX]), 0);
}

#[test]
fn the_fingerprint_of_a_text_comes_from_the_hashes_of_its_words() {
    let sketch = SimHash::new(64);
    assert_eq!(sketch.compute_hash("alpha"), std_hash("alpha"));
    let hashes = vec![std_hash("alpha"), std_hash("beta"), std_hash("alpha")];
    assert_eq!(sketch.compute_hash("alpha beta alpha"), sketch.fingerprint_of(&hashes));
    assert_eq!(sketch.compute_hash(""), 0);
    assert!(SimHash::new(8).compute_hash("some words of a text") < 256);
}

#[test]
fn agreeing_places_are_counted_as_far_as_both_reach() {
    assert_eq!(agreeing_places(&[1, 2, 3, 4], &[1, 9, 3, 4]), 3);
    assert_eq!(agreeing_places(&[1, 2, 3], &[1, 2]), 2);
    assert_eq!(agreeing_places(&[], &[1, 2]), 0);
    assert_eq!(agreeing_places(&[5, 6], &[6, 5]), 0);
}

#[test]
fn outcomes_are_counted() {
    let predictions = [true, true, false, false, true];
    let actual = [true, false, false, true, false];
    assert_eq!(count_outcomes(&predictions, &actual), (5, 2, 2, 1));
    assert_eq!(count_outcomes(&[], &[]), (0, 0, 0, 0));
    assert_eq!(count_outcomes(&[true, false, false], &[true]), (3, 1, 0, 0));
}
