use treapkit::barn::{
    can_fit_barn, find_largest_barn, largest_rectangle_area, largest_rectangle_histogram,
    mark_barn,
};

#[test]
fn test_small_grid() {
    let grid = vec![
        vec![0, 0, 0],
        vec![0, 1, 0],
        vec![0, 0, 0],
    ];
    assert_eq!(largest_rectangle_area(&grid), 3);
}

#[test]
fn test_large_grid() {
    let grid = vec![
        vec![0, 0, 0, 0, 0],
        vec![0, 1, 1, 0, 0],
        vec![0, 0, 0, 0, 0],
        vec![0, 0, 1, 0, 0],
        vec![0, 0, 0, 0, 0],
    ];
    assert_eq!(largest_rectangle_area(&grid), 10);
}

#[test]
fn test_full_grid() {
    let grid = vec![
        vec![0, 0, 0],
        vec![0, 0, 0],
        vec![0, 0, 0],
    ];
    assert_eq!(largest_rectangle_area(&grid), 9);
}

#[test]
fn test_blocked_grid() {
    let grid = vec![
        vec![1, 1, 1],
        vec![1, 1, 1],
        vec![1, 1, 1],
    ];
    assert_eq!(largest_rectangle_area(&grid), 0);
}

#[test]
fn histogram_areas() {
    assert_eq!(largest_rectangle_histogram(&vec![2, 1, 5, 6, 2, 3]), 10);
    assert_eq!(largest_rectangle_histogram(&vec![]), 0);
    assert_eq!(largest_rectangle_histogram(&vec![0, 0]), 0);
    assert_eq!(largest_rectangle_histogram(&vec![4]), 4);
    assert_eq!(largest_rectangle_histogram(&vec![1, 2, 3, 4]), 6);
}

#[test]
fn the_barn_is_found_and_drawn() {
    let grid = vec![
        vec![0, 0, 0, 0],
        vec![0, 1, 0, 0],
        vec![0, 0, 0, 0],
    ];
    assert_eq!(largest_rectangle_area(&grid), 6);
    assert_eq!(find_largest_barn(&grid, 0, 0, 6), None);
    assert_eq!(find_largest_barn(&grid, 0, 2, 6), Some((3, 2)));
    assert_eq!(find_largest_barn(&grid, 0, 0, 4), Some((1, 4)));
    assert_eq!(find_largest_barn(&grid, 0, 0, 0), None);
    assert!(can_fit_barn(&grid, 0, 2, 3, 2));
    assert!(!can_fit_barn(&grid, 0, 0, 2, 2));
    assert!(can_fit_barn(&grid, 1, 1, 0, 0));

    let mut picture = vec![vec!['.'; 4]; 3];
    picture[1][1] = '#';
    mark_barn(&mut picture, 0, 2, 3, 2);
    let rows: Vec<String> = picture.iter().map(|row| row.iter().collect()).collect();
    assert_eq!(rows, vec!["..**", ".#**", "..**"]);
}
