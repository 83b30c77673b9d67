use rust_ds_learning::matrix::Matrix;
use rust_ds_learning::staircase::{find_postition_sorted_square_matrix, SearchError};

#[test]
fn test_find_position_sorted_typical() {
    let matrix = Matrix::from_vec(3, 3, vec![1, 2, 3, 4, 5, 6, 7, 8, 9]).unwrap();

    assert_eq!(find_postition_sorted_square_matrix(&matrix, 5).unwrap(), (1, 1));
    assert_eq!(find_postition_sorted_square_matrix(&matrix, 1).unwrap(), (0, 0));
    assert_eq!(find_postition_sorted_square_matrix(&matrix, 9).unwrap(), (2, 2));
}

#[test]
fn test_find_position_sorted_edge_cases() {
    let matrix = Matrix::from_vec(1, 1, vec![1]).unwrap();
    assert_eq!(find_postition_sorted_square_matrix(&matrix, 1).unwrap(), (0, 0));

    let matrix = Matrix::zeros(0, 0);
    assert!(matches!(
        find_postition_sorted_square_matrix(&matrix, 1),
        Err(SearchError::ElementNotFound { el: 1 })
    ));

    let matrix = Matrix::from_vec(2, 2, vec![1, 2, 3, 4]).unwrap();
    assert_eq!(find_postition_sorted_square_matrix(&matrix, 1).unwrap(), (0, 0));
    assert_eq!(find_postition_sorted_square_matrix(&matrix, 4).unwrap(), (1, 1));
}

#[test]
fn test_non_square_matrix_error() {
    let matrix = Matrix::from_vec(2, 3, vec![1, 2, 3, 4, 5, 6]).unwrap();

    assert!(matches!(
        find_postition_sorted_square_matrix(&matrix, 5),
        Err(SearchError::NotSquareMatrix { rows: 2, cols: 3 })
    ));
}

#[test]
fn test_find_position_sorted_not_found() {
    let matrix = Matrix::from_vec(2, 2, vec![10, 20, 30, 40]).unwrap();

    assert!(matches!(
        find_postition_sorted_square_matrix(&matrix, 0),
        Err(SearchError::ElementNotFound { el: 0 })
    ));

    assert!(matches!(
        find_postition_sorted_square_matrix(&matrix, 50),
        Err(SearchError::ElementNotFound { el: 50 })
    ));

    assert!(matches!(
        find_postition_sorted_square_matrix(&matrix, 15),
        Err(SearchError::ElementNotFound { el: 15 })
    ));
}

#[test]
fn test_staircase_agrees_with_brute_force() {
    let matrix = Matrix::from_vec(3, 3, vec![1, 2, 3, 4, 5, 6, 7, 8, 9]).unwrap();
    for val in 0..11 {
        let fast = find_postition_sorted_square_matrix(&matrix, val);
        let brute = matrix.find_position(val);
        assert_eq!(fast.is_ok(), brute.is_ok());
        if let (Ok(p), Ok(q)) = (fast, brute) {
            assert_eq!(p, q);
        }
    }
}

#[test]
fn test_staircase_not_found_carries_value() {
    let matrix = Matrix::from_vec(3, 3, vec![1, 2, 3, 4, 5, 6, 7, 8, 9]).unwrap();
    assert!(matches!(
        find_postition_sorted_square_matrix(&matrix, 10),
        Err(SearchError::ElementNotFound { el: 10 })
    ));
}
