use pkg_resolve::intervals::{merge_and_sort_ranges, merge_insert, ISet};
use pkg_resolve::types::Range;

#[test]
fn utils_test_merge_insert() {
    let mut i1: ISet = vec![(0, 1), (5, 6)];

    i1 = merge_insert(i1, (3, 3));
    assert_eq!(i1, vec![(0, 1), (3, 3), (5, 6)]);

    let mut i2: ISet = vec![(0, 1), (3, 4), (7, 8)];
    i2 = merge_insert(i2, (2, 6));
    assert_eq!(i2, vec![(0, 8)]);
}

#[test]
fn test_iter_clone() {
    let v = [1, 2, 3, 4, 5, 6, 7];
    let mut iter = v.iter().map(|x| x + 1);
    iter.next();
    iter.next();
    for i in iter.clone() {
        println!("{i}")
    }
    for i in iter.clone() {
        println!("{i}")
    }
    for i in iter {
        println!("o: {i}")
    }
}

#[test]
fn merge_sorts_and_joins_adjacent_ranges() {
    let ranges = vec![
        Range::interval_unchecked(7, 9),
        Range::point(3),
        Range::interval_unchecked(1, 2),
        Range::point(5),
    ];
    let merged = merge_and_sort_ranges(&ranges);
    assert_eq!(
        merged,
        vec![Range::interval_unchecked(1, 3), Range::point(5), Range::interval_unchecked(7, 9)]
    );
}

#[test]
fn merge_with_all_is_all() {
    let ranges = vec![Range::point(3), Range::all(), Range::interval_unchecked(1, 2)];
    assert_eq!(merge_and_sort_ranges(&ranges), vec![Range::All]);
}

#[test]
fn merge_is_idempotent_on_example() {
    let ranges = vec![
        Range::interval_unchecked(4, 6),
        Range::interval_unchecked(1, 2),
        Range::point(8),
        Range::point(3),
    ];
    let once = merge_and_sort_ranges(&ranges);
    let twice = merge_and_sort_ranges(&once);
    assert_eq!(once, vec![Range::interval_unchecked(1, 6), Range::point(8)]);
    assert_eq!(once, twice);
}

#[test]
fn merge_of_nothing_is_nothing() {
    assert_eq!(merge_and_sort_ranges(&vec![]), vec![]);
}

#[test]
fn merge_keeps_highest_version_without_overflow() {
    let ranges = vec![Range::point(u64::MAX), Range::point(u64::MAX - 1)];
    assert_eq!(
        merge_and_sort_ranges(&ranges),
        vec![Range::interval_unchecked(u64::MAX - 1, u64::MAX)]
    );
}
