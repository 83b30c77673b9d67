use rust_ds_learning::array::find_element_arr;

#[test]
fn test_empty_arr() {
    assert_eq!(find_element_arr(&[], 0), -1);
}

#[test]
fn test_no_element() {
    assert_eq!(find_element_arr(&[1, 2, 3], 4), -1);
}

#[test]
fn tests_test_typical_case() {
    assert_eq!(find_element_arr(&[1, 2, 3], 2), 1);
}

#[test]
fn test_one_element_arr() {
    assert_eq!(find_element_arr(&[1], 1), 0);
}

#[test]
fn test_first_match_wins() {
    assert_eq!(find_element_arr(&[7, 3, 7, 3], 3), 1);
}
