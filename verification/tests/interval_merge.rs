use rust_ds_learning::intervals::merge_intervals;

#[test]
fn test_empty_intervals() {
    assert_eq!(merge_intervals(&[]), Vec::<(i32, i32)>::new());
}

#[test]
fn test_single_interval() {
    assert_eq!(merge_intervals(&[(1, 3)]), vec![(1, 3)]);
}

#[test]
fn test_merge_typical_case() {
    let intervals = vec![(1, 3), (2, 6), (8, 10), (15, 18)];
    assert_eq!(merge_intervals(&intervals), vec![(1, 6), (8, 10), (15, 18)]);
}

#[test]
fn test_touching_intervals() {
    let intervals = vec![(1, 4), (4, 5)];
    assert_eq!(merge_intervals(&intervals), vec![(1, 5)]);
}

#[test]
fn test_completely_overlapping() {
    let intervals = vec![(1, 5), (2, 3)];
    assert_eq!(merge_intervals(&intervals), vec![(1, 5)]);
}

#[test]
fn test_complex_overlapping() {
    let intervals = vec![(1, 4), (0, 2), (3, 5), (6, 7), (4, 6)];
    assert_eq!(merge_intervals(&intervals), vec![(0, 7)]);
}

#[test]
fn test_no_overlapping() {
    let intervals = vec![(1, 2), (3, 4), (5, 6)];
    assert_eq!(merge_intervals(&intervals), vec![(1, 2), (3, 4), (5, 6)]);
}

#[test]
fn test_negative_intervals() {
    let intervals = vec![(-5, -3), (-2, 0), (-1, 1)];
    assert_eq!(merge_intervals(&intervals), vec![(-5, -3), (-2, 1)]);
}

#[test]
fn test_unsorted_input() {
    let intervals = vec![(4, 6), (1, 3), (2, 5)];
    assert_eq!(merge_intervals(&intervals), vec![(1, 6)]);
}

#[test]
fn test_merge_idempotent() {
    let intervals = vec![(4, 6), (1, 3), (2, 5), (15, 18), (8, 10)];
    let once = merge_intervals(&intervals);
    let twice = merge_intervals(&once);
    assert_eq!(once, twice);
}

#[test]
fn test_output_sorted_and_disjoint() {
    let intervals = vec![(9, 12), (-3, -1), (0, 4), (3, 5), (20, 21)];
    let merged = merge_intervals(&intervals);
    assert_eq!(merged, vec![(-3, -1), (0, 5), (9, 12), (20, 21)]);
    for w in merged.windows(2) {
        assert!(w[1].0 > w[0].1);
    }
}
