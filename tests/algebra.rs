use matrix_puzzle::matrix::PolyMatrix;
use matrix_puzzle::poly::Polynomial;

fn pol(terms: &[(i32, i64)]) -> Polynomial {
    Polynomial::from_terms(terms)
}

#[test]
fn multiply_matrix_two_identities() {
    let a = PolyMatrix::identity();
    let b = PolyMatrix::identity();
    let c = a.mul(&b);
    assert_eq!(c, PolyMatrix::identity());
}

#[test]
fn multiply_matrix_left_side_identity() {
    let a = PolyMatrix::identity();
    let mut b = PolyMatrix::zero();
    b.set(0, 1, Polynomial::one());
    b.set(0, 2, pol(&[(-2, 2), (-2, 2)]));
    b.set(2, 1, pol(&[(-2, 2), (-2, 2)]));
    let c = a.mul(&b);
    assert_eq!(c, b);
}

#[test]
fn multiply_matrix_left_side_zero() {
    let a = PolyMatrix::zero();
    let mut b = PolyMatrix::zero();
    b.set(0, 1, Polynomial::one());
    b.set(0, 2, pol(&[(-2, 2), (-2, 2)]));
    b.set(2, 1, pol(&[(-2, 2), (-2, 2)]));
    let c = a.mul(&b);
    assert_eq!(c, a);
}

#[test]
fn multiply_matrix_non_trivial_example() {
    // Upper left 2x2 block:
    // [ t,       1 + t ] [ -t          0 ]     [ 2t^3 + t^4          5 + 5t ]
    // [ t^{-1},   2t^2 ] [ t^2 + t^3   5 ]  =  [ -1 + 2t^4 + 2t^5     10t^2 ]
    let mut mat1 = PolyMatrix::identity();
    mat1.set(0, 0, pol(&[(1, 1)]));
    mat1.set(0, 1, pol(&[(0, 1), (1, 1)]));
    mat1.set(1, 0, pol(&[(-1, 1)]));
    mat1.set(1, 1, pol(&[(2, 2)]));

    let mut mat2 = PolyMatrix::identity();
    mat2.set(0, 0, pol(&[(1, -1)]));
    mat2.set(1, 0, pol(&[(2, 1), (3, 1)]));
    mat2.set(1, 1, pol(&[(0, 5)]));

    let mut mat3 = PolyMatrix::identity();
    mat3.set(0, 0, pol(&[(3, 2), (4, 1)]));
    mat3.set(0, 1, pol(&[(0, 5), (1, 5)]));
    mat3.set(1, 0, pol(&[(0, -1), (4, 2), (5, 2)]));
    mat3.set(1, 1, pol(&[(2, 10)]));

    let actual = mat1.mul(&mat2);
    assert_eq!(actual, mat3);
}

#[test]
fn matrix_flatten_is_row_major() {
    let mut m = PolyMatrix::zero();
    m.set(1, 2, pol(&[(3, 7)]));
    let flat = m.flatten();
    assert_eq!(flat.len(), 9);
    assert_eq!(flat[5], pol(&[(3, 7)]));
    assert!(flat[0].is_zero());
    assert_eq!(m.get(1, 2).coefficient(3), 7);
}

#[test]
fn matrix_inequality_detected() {
    let mut m = PolyMatrix::identity();
    m.set(2, 2, pol(&[(1, 1)]));
    assert_ne!(m, PolyMatrix::identity());
}
