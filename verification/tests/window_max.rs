use rust_ds_learning::window::sliding_window_maximum;

#[test]
fn test_empty_vector() {
    assert_eq!(sliding_window_maximum(&[], 1), Vec::<i32>::new());
}

#[test]
fn test_window_size_one() {
    assert_eq!(sliding_window_maximum(&[1, 2, 3], 1), vec![1, 2, 3]);
}

#[test]
fn test_typical_case() {
    let nums = vec![1, 3, -1, -3, 5, 3, 6, 7];
    assert_eq!(sliding_window_maximum(&nums, 3), vec![3, 3, 5, 5, 6, 7]);
}

#[test]
fn test_minimal_window() {
    let nums = vec![1, -1];
    assert_eq!(sliding_window_maximum(&nums, 1), vec![1, -1]);
}

#[test]
fn test_window_equals_array_size() {
    let nums = vec![1, 2, 3, 4, 5];
    assert_eq!(sliding_window_maximum(&nums, 5), vec![5]);
}

#[test]
fn test_decreasing_sequence() {
    let nums = vec![5, 4, 3, 2, 1];
    assert_eq!(sliding_window_maximum(&nums, 3), vec![5, 4, 3]);
}

#[test]
fn test_increasing_sequence() {
    let nums = vec![1, 2, 3, 4, 5];
    assert_eq!(sliding_window_maximum(&nums, 3), vec![3, 4, 5]);
}

#[test]
fn test_all_same_numbers() {
    let nums = vec![1, 1, 1, 1];
    assert_eq!(sliding_window_maximum(&nums, 2), vec![1, 1, 1]);
}

#[test]
fn test_negative_numbers() {
    let nums = vec![-7, -8, 7, 5, -7, 3];
    assert_eq!(sliding_window_maximum(&nums, 2), vec![-7, 7, 7, 5, 3]);
}

#[test]
fn test_window_size_zero() {
    assert_eq!(sliding_window_maximum(&[4, 2], 0), Vec::<i32>::new());
}

#[test]
fn test_result_length() {
    let nums = vec![9, 1, 8, 2, 7, 3];
    for k in 1..=nums.len() {
        assert_eq!(sliding_window_maximum(&nums, k).len(), nums.len() - k + 1);
    }
}
