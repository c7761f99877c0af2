use treapkit::sorts::{
    binary_insertion_sort, bubble_sort, ciura_shell_sort, gap_insertion_pass,
    generate_random_array, heap_sort, heapify, insertion_sort, merge, merge_sort, merge_sort_rec,
    optimized_bubble_sort, optimized_insertion_sort, partition, quick_sort, quick_sort_rec,
    sedgewick_shell_sort, selection_sort, shell_sort,
};

fn inputs() -> Vec<Vec<i32>> {
    let mut mixed = Vec::new();
    let mut x: i32 = 12345;
    for _ in 0..2000 {
        x = (x.wrapping_mul(1103515245).wrapping_add(12345)) % 100_000;
        mixed.push(x - 50_000);
    }
    vec![
        vec![],
        vec![1],
        vec![2, 1],
        vec![3, 1, 2],
        vec![5, 5, 5, 5],
        vec![9, 8, 7, 6, 5, 4, 3, 2, 1, 0],
        vec![0, 1, 2, 3, 4, 5, 6, 7, 8, 9],
        vec![i32::MIN, 0, i32::MAX - 1, -1, i32::MIN],
        mixed,
    ]
}

fn check(sort: fn(&mut [i32])) {
    for input in inputs() {
        let mut expected = input.clone();
        expected.sort();
        let mut arr = input;
        sort(&mut arr);
        assert_eq!(arr, expected);
    }
}

#[test]
fn bubble_sorts() {
    check(bubble_sort);
    check(optimized_bubble_sort);
}

#[test]
fn insertion_sorts() {
    check(insertion_sort);
    check(optimized_insertion_sort);
    check(binary_insertion_sort);
}

#[test]
fn shell_sorts() {
    check(shell_sort);
    check(ciura_shell_sort);
    check(sedgewick_shell_sort);
}

#[test]
fn selection_and_heap_sort() {
    check(selection_sort);
    check(heap_sort);
}

#[test]
fn quick_and_merge_sort() {
    check(quick_sort);
    check(merge_sort);
}

#[test]
fn a_pass_at_a_distance_sorts_each_chain() {
    let mut arr = vec![9, 8, 7, 6, 5, 4, 3, 2, 1];
    gap_insertion_pass(&mut arr, 3);
    assert_eq!(arr, vec![3, 2, 1, 6, 5, 4, 9, 8, 7]);
    gap_insertion_pass(&mut arr, 20);
    assert_eq!(arr, vec![3, 2, 1, 6, 5, 4, 9, 8, 7]);
    gap_insertion_pass(&mut arr, 1);
    assert_eq!(arr, vec![1, 2, 3, 4, 5, 6, 7, 8, 9]);
}

#[test]
fn partition_parts_around_the_last_item() {
    let mut arr = vec![7, 2, 9, 4, 1, 8, 5];
    let p = partition(&mut arr, 0, 6);
    assert_eq!(p, 3);
    assert_eq!(arr[3], 5);
    assert!(arr[..3].iter().all(|x| *x <= 5));
    assert!(arr[4..].iter().all(|x| *x > 5));
    let mut arr = vec![3, 2, 1, 9, 9];
    quick_sort_rec(&mut arr, 0, 2);
    assert_eq!(arr, vec![1, 2, 3, 9, 9]);
    quick_sort_rec(&mut arr, 3, 2);
    assert_eq!(arr, vec![1, 2, 3, 9, 9]);
}

#[test]
fn merge_joins_two_sorted_halves() {
    let mut arr = vec![0, 2, 5, 9, 1, 3, 4, 0];
    merge(&mut arr, 1, 3, 6);
    assert_eq!(arr, vec![0, 1, 2, 3, 4, 5, 9, 0]);
    let mut arr = vec![4, 3, 2, 1];
    merge_sort_rec(&mut arr, 1, 3);
    assert_eq!(arr, vec![4, 1, 2, 3]);
}

#[test]
fn heapify_lets_an_item_sink() {
    let mut arr = vec![1, 9, 8, 7, 6, 5, 4];
    heapify(&mut arr, 7, 0);
    assert_eq!(arr, vec![9, 7, 8, 1, 6, 5, 4]);
    let mut arr = vec![1, 9, 8];
    heapify(&mut arr, 1, 0);
    assert_eq!(arr, vec![1, 9, 8]);
}

#[test]
fn random_arrays_hold_numbers_of_the_range() {
    let numbers = generate_random_array(500);
    assert_eq!(numbers.len(), 500);
    assert!(numbers.iter().all(|x| (0..10000).contains(x)));
    assert!(numbers.iter().any(|x| *x != numbers[0]));
    assert!(generate_random_array(0).is_empty());
}
