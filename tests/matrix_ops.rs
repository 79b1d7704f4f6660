use alin::matrix::{Matrix, MatrixError};

fn mat(rows: Vec<Vec<i64>>) -> Matrix {
    Matrix::new(rows).unwrap()
}

fn empty() -> Matrix {
    mat(vec![])
}

#[test]
fn new_refuses_jagged_rows() {
    assert_eq!(Matrix::new(vec![vec![1, 2], vec![3]]), Err(MatrixError::ShapeMismatch));
    let m = mat(vec![vec![1, 2, 3], vec![4, 5, 6]]);
    assert_eq!(m.rows(), 2);
    assert_eq!(m.cols(), 3);
    assert_eq!(m.get(1, 2), 6);
    assert_eq!(m.to_rows(), vec![vec![1, 2, 3], vec![4, 5, 6]]);
}

#[test]
fn determinant_two_by_two() {
    assert_eq!(mat(vec![vec![1, 2], vec![3, 4]]).determinant(), Ok(-2));
    assert_eq!(mat(vec![vec![5, 7], vec![2, 3]]).determinant(), Ok(1));
}

#[test]
fn determinant_one_and_three() {
    assert_eq!(mat(vec![vec![-7]]).determinant(), Ok(-7));
    let m = mat(vec![vec![2, 0, 1], vec![1, 3, 2], vec![1, 1, 1]]);
    // 2*(3-2) - 0*(1-2) + 1*(1-3) = 0
    assert_eq!(m.determinant(), Ok(0));
    let m = mat(vec![vec![6, 1, 1], vec![4, -2, 5], vec![2, 8, 7]]);
    assert_eq!(m.determinant(), Ok(-306));
}

#[test]
fn determinant_four_by_four() {
    let m = mat(vec![
        vec![1, 0, 2, -1],
        vec![3, 0, 0, 5],
        vec![2, 1, 4, -3],
        vec![1, 0, 5, 0],
    ]);
    assert_eq!(m.determinant(), Ok(30));
}

#[test]
fn determinant_errors() {
    assert_eq!(mat(vec![vec![1, 2, 3], vec![4, 5, 6]]).determinant(), Err(MatrixError::ShapeMismatch));
    assert_eq!(empty().determinant(), Err(MatrixError::EmptyMatrix));
    assert_eq!(mat(vec![vec![], vec![]]).determinant(), Err(MatrixError::EmptyMatrix));
    let big = mat(vec![vec![i64::MAX, 2], vec![2, i64::MAX]]);
    assert_eq!(big.determinant(), Err(MatrixError::Overflow));
}

#[test]
fn determinant_of_transpose() {
    let m = mat(vec![vec![6, 1, 1], vec![4, -2, 5], vec![2, 8, 7]]);
    assert_eq!(m.transpose().determinant(), m.determinant());
    let m = mat(vec![
        vec![1, 0, 2, -1],
        vec![3, 0, 0, 5],
        vec![2, 1, 4, -3],
        vec![1, 0, 5, 0],
    ]);
    assert_eq!(m.transpose().determinant(), m.determinant());
}

#[test]
fn transpose_rectangular_and_back() {
    let m = mat(vec![vec![1, 2, 3], vec![4, 5, 6]]);
    let t = m.transpose();
    assert_eq!(t.to_rows(), vec![vec![1, 4], vec![2, 5], vec![3, 6]]);
    assert_eq!(t.transpose(), m);
    assert_eq!(empty().transpose(), empty());
}

#[test]
fn multiply_by_identity() {
    let m = mat(vec![vec![1, 2, 3], vec![4, 5, 6], vec![7, 8, 9]]);
    assert_eq!(m.multiply_matrix(Matrix::identity(3)), Ok(mat(vec![vec![1, 2, 3], vec![4, 5, 6], vec![7, 8, 9]])));
    let r = mat(vec![vec![1, -2], vec![3, 4], vec![5, 6]]);
    assert_eq!(r.multiply_matrix(Matrix::identity(2)).unwrap().to_rows(), r.to_rows());
    assert_eq!(Matrix::identity(2).to_rows(), vec![vec![1, 0], vec![0, 1]]);
}

#[test]
fn multiply_two_by_three_and_three_by_two() {
    let a = mat(vec![vec![1, 2, 3], vec![4, 5, 6]]);
    let b = mat(vec![vec![7, 8], vec![9, 10], vec![11, 12]]);
    let p = a.multiply_matrix(b).unwrap();
    assert_eq!(p.rows(), 2);
    assert_eq!(p.cols(), 2);
    assert_eq!(p.to_rows(), vec![vec![58, 64], vec![139, 154]]);
}

#[test]
fn multiply_shape_mismatch() {
    let a = mat(vec![vec![1, 2, 3], vec![4, 5, 6]]);
    let b = mat(vec![vec![1, 2], vec![3, 4]]);
    assert_eq!(a.multiply_matrix(b), Err(MatrixError::ShapeMismatch));
}

#[test]
fn multiply_errors() {
    let a = mat(vec![vec![1, 2], vec![3, 4]]);
    assert_eq!(a.multiply_matrix(empty()), Err(MatrixError::EmptyMatrix));
    assert_eq!(empty().multiply_matrix(mat(vec![vec![1]])), Err(MatrixError::EmptyMatrix));
    let big = mat(vec![vec![i64::MAX, 1]]);
    let col = mat(vec![vec![1], vec![1]]);
    assert_eq!(big.multiply_matrix(col), Err(MatrixError::Overflow));
}

#[test]
fn multiply_scalar_cases() {
    let m = mat(vec![vec![1, -2], vec![3, 4]]);
    assert_eq!(m.multiply_scalar(3).unwrap().to_rows(), vec![vec![3, -6], vec![9, 12]]);
    assert_eq!(empty().multiply_scalar(3), Err(MatrixError::EmptyMatrix));
    assert_eq!(mat(vec![vec![i64::MAX]]).multiply_scalar(2), Err(MatrixError::Overflow));
}

#[test]
fn without_rc_middle_of_three() {
    let m = mat(vec![vec![1, 2, 3], vec![4, 5, 6], vec![7, 8, 9]]);
    assert_eq!(m.without_rc(1, 1).unwrap().to_rows(), vec![vec![1, 3], vec![7, 9]]);
    assert_eq!(m.without_rc(0, 2).unwrap().to_rows(), vec![vec![4, 5], vec![7, 8]]);
}

#[test]
fn without_rc_errors() {
    let m = mat(vec![vec![1, 2, 3], vec![4, 5, 6], vec![7, 8, 9]]);
    assert_eq!(m.without_rc(3, 0), Err(MatrixError::IndexOutOfRange));
    assert_eq!(m.without_rc(0, 3), Err(MatrixError::IndexOutOfRange));
    assert_eq!(mat(vec![vec![1]]).without_rc(0, 0), Err(MatrixError::IndexOutOfRange));
    assert_eq!(mat(vec![vec![1, 2]]).without_rc(0, 0), Err(MatrixError::IndexOutOfRange));
    assert_eq!(empty().without_rc(0, 0), Err(MatrixError::EmptyMatrix));
}

#[test]
fn cofactor_of_identity() {
    let id = mat(vec![vec![1, 0], vec![0, 1]]);
    assert_eq!(id.cofactor().unwrap().to_rows(), vec![vec![1, 0], vec![0, 1]]);
}

#[test]
fn cofactor_and_adjugate_of_three() {
    let m = mat(vec![vec![1, 2, 3], vec![0, 4, 5], vec![1, 0, 6]]);
    let c = m.cofactor().unwrap();
    assert_eq!(c.to_rows(), vec![vec![24, 5, -4], vec![-12, 3, 2], vec![-2, -5, 4]]);
    let a = m.adjugate().unwrap();
    assert_eq!(a.to_rows(), vec![vec![24, -12, -2], vec![5, 3, -5], vec![-4, 2, 4]]);
}

#[test]
fn cofactor_errors() {
    assert_eq!(mat(vec![vec![5]]).cofactor(), Err(MatrixError::IndexOutOfRange));
    assert_eq!(mat(vec![vec![1, 2, 3], vec![4, 5, 6]]).cofactor(), Err(MatrixError::ShapeMismatch));
    assert_eq!(empty().cofactor(), Err(MatrixError::EmptyMatrix));
    assert_eq!(empty().adjugate(), Err(MatrixError::EmptyMatrix));
    let big = mat(vec![vec![i64::MIN, 0], vec![0, 1]]);
    // the cofactor at (0, 1) is -0, at (1, 0) is -0, at (1, 1) is i64::MIN: all fit
    assert!(big.cofactor().is_ok());
    let big = mat(vec![vec![1, i64::MIN], vec![0, 1]]);
    // the cofactor at (1, 0) is -(i64::MIN), which does not fit
    assert_eq!(big.cofactor(), Err(MatrixError::Overflow));
}

#[test]
fn inverse_times_matrix_is_scaled_identity() {
    let m = mat(vec![vec![4, 7], vec![2, 6]]);
    let inv = m.inverse().unwrap();
    assert_eq!(inv.denominator, 10);
    assert_eq!(inv.numerators.to_rows(), vec![vec![6, -7], vec![-2, 4]]);
    let p = m.multiply_matrix(inv.numerators).unwrap();
    assert_eq!(p.to_rows(), vec![vec![10, 0], vec![0, 10]]);

    let m = mat(vec![vec![1, 2, 3], vec![0, 4, 5], vec![1, 0, 6]]);
    let inv = m.inverse().unwrap();
    assert_eq!(inv.denominator, 22);
    let p = m.multiply_matrix(inv.numerators).unwrap();
    assert_eq!(p.to_rows(), vec![vec![22, 0, 0], vec![0, 22, 0], vec![0, 0, 22]]);
}

#[test]
fn inverse_of_singular_matrix() {
    assert_eq!(mat(vec![vec![1, 2], vec![2, 4]]).inverse(), Err(MatrixError::Singular));
    assert_eq!(mat(vec![vec![0]]).inverse(), Err(MatrixError::Singular));
}

#[test]
fn inverse_errors() {
    assert_eq!(empty().inverse(), Err(MatrixError::EmptyMatrix));
    assert_eq!(mat(vec![vec![1, 2]]).inverse(), Err(MatrixError::ShapeMismatch));
    assert_eq!(mat(vec![vec![3]]).inverse(), Err(MatrixError::IndexOutOfRange));
    let big = mat(vec![vec![i64::MAX, 2], vec![2, i64::MAX]]);
    assert_eq!(big.inverse(), Err(MatrixError::Overflow));
}

#[test]
fn every_operation_refuses_an_empty_matrix() {
    let e = empty();
    assert_eq!(e.determinant(), Err(MatrixError::EmptyMatrix));
    assert_eq!(e.cofactor(), Err(MatrixError::EmptyMatrix));
    assert_eq!(e.adjugate(), Err(MatrixError::EmptyMatrix));
    assert_eq!(e.inverse(), Err(MatrixError::EmptyMatrix));
    assert_eq!(e.multiply_scalar(2), Err(MatrixError::EmptyMatrix));
    assert_eq!(e.without_rc(0, 0), Err(MatrixError::EmptyMatrix));
    assert_eq!(e.multiply_matrix(mat(vec![vec![1]])), Err(MatrixError::EmptyMatrix));
    assert_eq!(e.transpose().rows(), 0);
}

#[test]
fn text_of_identity() {
    assert_eq!(Matrix::identity(2).to_text(), "[[1, 0],\n[0, 1]]");
}

#[test]
fn text_of_negative_and_extreme_values() {
    let m = mat(vec![vec![-12, 0, 305], vec![i64::MIN, i64::MAX, 7]]);
    assert_eq!(
        m.to_text(),
        "[[-12, 0, 305],\n[-9223372036854775808, 9223372036854775807, 7]]"
    );
    assert_eq!(empty().to_text(), "[]");
    assert_eq!(mat(vec![vec![], vec![]]).to_text(), "[[],\n[]]");
}

#[test]
fn inverse_of_four_by_four() {
    let rows = vec![
        vec![1, 0, 2, -1],
        vec![3, 0, 0, 5],
        vec![2, 1, 4, -3],
        vec![1, 0, 5, 0],
    ];
    let m = mat(rows.clone());
    let inv = m.inverse().unwrap();
    assert_eq!(inv.denominator, 30);
    let p = m.multiply_matrix(inv.numerators).unwrap();
    assert_eq!(
        p.to_rows(),
        vec![vec![30, 0, 0, 0], vec![0, 30, 0, 0], vec![0, 0, 30, 0], vec![0, 0, 0, 30]]
    );
}
