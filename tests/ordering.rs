use region_networking::order::{Coord, SortKey};
use region_networking::sorted_diff::diff_sorted;
use region_networking::window::window;

#[test]
fn diff_reports_only_the_differences() {
    let (removed, added) = diff_sorted(&vec![1u64, 2, 3, 5], &vec![2u64, 3, 4, 6]);
    assert_eq!(removed, vec![1, 5]);
    assert_eq!(added, vec![4, 6]);
}

#[test]
fn diff_of_empty_lists() {
    let empty: Vec<u64> = Vec::new();
    let (removed, added) = diff_sorted(&empty, &empty);
    assert!(removed.is_empty());
    assert!(added.is_empty());
    let (removed, added) = diff_sorted(&empty, &vec![3u64, 9]);
    assert!(removed.is_empty());
    assert_eq!(added, vec![3, 9]);
    let (removed, added) = diff_sorted(&vec![3u64, 9], &empty);
    assert_eq!(removed, vec![3, 9]);
    assert!(added.is_empty());
}

#[test]
fn diff_of_disjoint_and_equal_lists() {
    let (removed, added) = diff_sorted(&vec![1u64, 3, 5], &vec![2u64, 4, 6]);
    assert_eq!(removed, vec![1, 3, 5]);
    assert_eq!(added, vec![2, 4, 6]);
    let (removed, added) = diff_sorted(&vec![1u64, 3, 5], &vec![1u64, 3, 5]);
    assert!(removed.is_empty());
    assert!(added.is_empty());
    let (removed, added) = diff_sorted(&vec![0u64, u64::MAX], &vec![u64::MAX]);
    assert_eq!(removed, vec![0]);
    assert!(added.is_empty());
}

#[test]
fn diff_of_coordinates_in_row_major_order() {
    let old = vec![Coord::new(-1, 0), Coord::new(0, 0), Coord::new(1, 0)];
    let new = vec![Coord::new(0, 0), Coord::new(1, 0), Coord::new(2, 0)];
    let (removed, added) = diff_sorted(&old, &new);
    assert_eq!(removed, vec![Coord::new(-1, 0)]);
    assert_eq!(added, vec![Coord::new(2, 0)]);
}

#[test]
fn coordinates_order_by_row_then_column() {
    assert!(Coord::new(5, -1).precedes(&Coord::new(-5, 0)));
    assert!(Coord::new(-5, 0).precedes(&Coord::new(5, 0)));
    assert!(!Coord::new(5, 0).precedes(&Coord::new(5, 0)));
    assert!(Coord::new(i32::MAX, i32::MIN).precedes(&Coord::new(i32::MIN, i32::MIN + 1)));
    assert!(Coord::new(3, 4).same(&Coord::new(3, 4)));
    assert!(!Coord::new(3, 4).same(&Coord::new(4, 3)));
}

#[test]
fn window_of_radius_one_is_three_by_three() {
    let w = window(Coord::new(0, 0), 1);
    let mut expected = Vec::new();
    for y in -1..=1 {
        for x in -1..=1 {
            expected.push(Coord::new(x, y));
        }
    }
    assert_eq!(w, expected);
}

#[test]
fn window_sizes() {
    assert_eq!(window(Coord::new(7, -3), 0), vec![Coord::new(7, -3)]);
    assert_eq!(window(Coord::new(0, 0), 4).len(), 81);
    let w = window(Coord::new(i32::MAX - 1, i32::MIN + 1), 1);
    assert_eq!(w.len(), 9);
    assert_eq!(w[0], Coord::new(i32::MAX - 2, i32::MIN));
    assert_eq!(w[8], Coord::new(i32::MAX, i32::MIN + 2));
}
