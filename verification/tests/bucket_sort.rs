use treapkit::bucket_sort::{
    bucket_sort, counting_sort, counting_sort_by_digit, generate_random_array, max_of, min_of,
    radix_sort,
};

fn inputs() -> Vec<Vec<u16>> {
    let mut mixed = Vec::new();
    let mut x: u32 = 4321;
    for _ in 0..3000 {
        x = (x * 75 + 74) % 65537;
        mixed.push((x % 65536) as u16);
    }
    vec![
        vec![],
        vec![7],
        vec![0, 0, 0],
        vec![3, 1, 2],
        vec![65535, 0, 65535, 1],
        vec![10, 9, 8, 7, 6, 5, 4, 3, 2, 1, 0],
        vec![500, 50, 5, 5000, 50000, 55, 505],
        mixed,
    ]
}

fn check(sort: fn(&mut [u16])) {
    for input in inputs() {
        let mut expected = input.clone();
        expected.sort();
        let mut arr = input;
        sort(&mut arr);
        assert_eq!(arr, expected);
    }
}

#[test]
fn counting_sort_sorts() {
    check(counting_sort);
}

#[test]
fn radix_sort_sorts() {
    check(radix_sort);
}

#[test]
fn bucket_sort_sorts() {
    check(bucket_sort);
}

#[test]
fn a_pass_by_digit_keeps_equal_digits_in_order() {
    let mut arr = vec![21, 13, 11, 32, 10, 23];
    counting_sort_by_digit(&mut arr, 1);
    assert_eq!(arr, vec![10, 21, 11, 32, 13, 23]);
    counting_sort_by_digit(&mut arr, 10);
    assert_eq!(arr, vec![10, 11, 13, 21, 23, 32]);
    counting_sort_by_digit(&mut arr, 100);
    assert_eq!(arr, vec![10, 11, 13, 21, 23, 32]);
}

#[test]
fn largest_and_smallest() {
    assert_eq!(max_of(&[3, 9, 2]), 9);
    assert_eq!(min_of(&[3, 9, 2]), 2);
    assert_eq!(max_of(&[5]), 5);
    assert_eq!(min_of(&[5]), 5);
}

#[test]
fn random_items_fill_the_array() {
    let numbers = generate_random_array(400);
    assert_eq!(numbers.len(), 400);
    assert!(numbers.iter().any(|x| *x != numbers[0]));
}
