use treapkit::heap_alloc::{align_size, ALIGNMENT};
use treapkit::probabilistic::hamming_distance;

#[test]
fn align_size_rounds_up_to_the_alignment() {
    assert_eq!(ALIGNMENT, 8);
    assert_eq!(align_size(0), 0);
    assert_eq!(align_size(1), 8);
    assert_eq!(align_size(7), 8);
    assert_eq!(align_size(8), 8);
    assert_eq!(align_size(9), 16);
    assert_eq!(align_size(1000), 1000);
    assert_eq!(align_size(1001), 1008);
}

#[test]
fn hamming_distance_counts_the_bits_that_differ() {
    assert_eq!(hamming_distance(0, 0), 0);
    assert_eq!(hamming_distance(0b1010, 0b0101), 4);
    assert_eq!(hamming_distance(0b1110, 0b0111), 2);
    assert_eq!(hamming_distance(u64::MAX, 0), 64);
    assert_eq!(hamming_distance(12345, 12345), 0);
}
