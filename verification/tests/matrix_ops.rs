use rust_ds_learning::matrix::{Matrix, MatrixError, MatrixOp};

#[test]
fn test_creation() {
    let matrix = Matrix::zeros(2, 3);
    assert_eq!(matrix.rows(), 2);
    assert_eq!(matrix.cols(), 3);
    for i in 0..2 {
        for j in 0..3 {
            assert_eq!(matrix.get(i, j).unwrap(), 0);
        }
    }
}

#[test]
fn test_from_vec() {
    let data = vec![1, 2, 3, 4];
    let matrix = Matrix::from_vec(2, 2, data.clone()).unwrap();
    for i in 0..2 {
        for j in 0..2 {
            assert_eq!(matrix.get(i, j).unwrap(), data[i * 2 + j]);
        }
    }

    let result = Matrix::from_vec(2, 3, data);
    assert!(matches!(
        result,
        Err(MatrixError::InvalidCreation { expected: 6, actual: 4 })
    ));
}

#[test]
fn test_get_set() {
    let mut matrix = Matrix::zeros(2, 2);
    assert!(matrix.set(0, 1, 5).is_ok());
    assert_eq!(matrix.get(0, 1).unwrap(), 5);

    assert!(matches!(
        matrix.get(2, 0),
        Err(MatrixError::IndexOutOfBounds { row: 2, col: 0, .. })
    ));
}

#[test]
fn test_set_leaves_other_cells() {
    let mut matrix = Matrix::from_vec(2, 2, vec![1, 2, 3, 4]).unwrap();
    matrix.set(1, 0, 9).unwrap();
    assert_eq!(matrix.get(0, 0).unwrap(), 1);
    assert_eq!(matrix.get(0, 1).unwrap(), 2);
    assert_eq!(matrix.get(1, 0).unwrap(), 9);
    assert_eq!(matrix.get(1, 1).unwrap(), 4);
}

#[test]
fn test_out_of_bounds_carries_coordinates() {
    let mut matrix = Matrix::zeros(2, 3);
    assert!(matches!(
        matrix.get(2, 1),
        Err(MatrixError::IndexOutOfBounds { row: 2, col: 1, rows: 2, cols: 3 })
    ));
    assert!(matches!(
        matrix.get(0, 3),
        Err(MatrixError::IndexOutOfBounds { row: 0, col: 3, rows: 2, cols: 3 })
    ));
    assert!(matches!(
        matrix.set(5, 7, 1),
        Err(MatrixError::IndexOutOfBounds { row: 5, col: 7, rows: 2, cols: 3 })
    ));
}

#[test]
fn test_add() {
    let m1 = Matrix::from_vec(2, 2, vec![1, 2, 3, 4]).unwrap();
    let m2 = Matrix::from_vec(2, 2, vec![5, 6, 7, 8]).unwrap();
    let sum = m1.add(&m2).unwrap();
    let expected = Matrix::from_vec(2, 2, vec![6, 8, 10, 12]).unwrap();
    assert_eq!(sum, expected);

    let m3 = Matrix::zeros(2, 3);
    assert!(matches!(
        m1.add(&m3),
        Err(MatrixError::DimensionMismatch { operation: MatrixOp::Addition, .. })
    ));
}

#[test]
fn test_add_commutative() {
    let m1 = Matrix::from_vec(2, 3, vec![1, -2, 3, -4, 5, -6]).unwrap();
    let m2 = Matrix::from_vec(2, 3, vec![7, 8, -9, 10, -11, 12]).unwrap();
    assert_eq!(m1.add(&m2).unwrap(), m2.add(&m1).unwrap());
}

#[test]
fn test_mul() {
    let m1 = Matrix::from_vec(2, 3, vec![1, 2, 3, 4, 5, 6]).unwrap();
    let m2 = Matrix::from_vec(3, 2, vec![7, 8, 9, 10, 11, 12]).unwrap();
    let product = m1.multiply(&m2).unwrap();
    let expected = Matrix::from_vec(2, 2, vec![58, 64, 139, 154]).unwrap();
    assert_eq!(product, expected);

    let m3 = Matrix::zeros(2, 2);
    assert!(matches!(
        m1.multiply(&m3),
        Err(MatrixError::DimensionMismatch {
            operation: MatrixOp::Multiplication,
            left_dims: (2, 3),
            right_dims: (2, 2),
        })
    ));
}

#[test]
fn test_transpose() {
    let matrix = Matrix::from_vec(2, 3, vec![1, 2, 3, 4, 5, 6]).unwrap();
    let transposed = matrix.transpose();
    assert_eq!(transposed.rows(), 3);
    assert_eq!(transposed.cols(), 2);
    let expected = Matrix::from_vec(3, 2, vec![1, 4, 2, 5, 3, 6]).unwrap();
    assert_eq!(transposed, expected);
}

#[test]
fn test_transpose_round_trip() {
    let matrix = Matrix::from_vec(3, 2, vec![-1, 0, 7, 42, -5, 9]).unwrap();
    assert_eq!(matrix.transpose().transpose(), matrix);
}

#[test]
fn test_find_position() {
    let matrix = Matrix::from_vec(1, 1, vec![5]).unwrap();
    assert_eq!(matrix.find_position(5).unwrap(), (0, 0));

    let matrix = Matrix::from_vec(2, 3, vec![1, 2, 3, 4, 5, 6]).unwrap();
    assert_eq!(matrix.find_position(2).unwrap(), (0, 1));

    assert_eq!(matrix.find_position(5).unwrap(), (1, 1));

    assert!(matches!(
        matrix.find_position(7),
        Err(MatrixError::ElementNotFound { el: 7 })
    ));

    let matrix = Matrix::from_vec(2, 2, vec![1, 2, 2, 3]).unwrap();
    assert_eq!(matrix.find_position(2).unwrap(), (0, 1));

    let matrix = Matrix::zeros(0, 0);
    assert!(matches!(
        matrix.find_position(1),
        Err(MatrixError::ElementNotFound { el: 1 })
    ));
}
