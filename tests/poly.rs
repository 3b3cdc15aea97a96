use matrix_puzzle::poly::Polynomial;

fn pol(terms: &[(i32, i64)]) -> Polynomial {
    Polynomial::from_terms(terms)
}

#[test]
fn from_terms_sums_equal_exponents_and_sorts() {
    let p = pol(&[(2, 3), (-1, 4), (2, 5)]);
    assert_eq!(p.terms(), &[(-1, 4), (2, 8)][..]);
}

#[test]
fn from_terms_drops_cancelled_terms() {
    let p = pol(&[(1, 3), (0, 2), (1, -3)]);
    assert_eq!(p.terms(), &[(0, 2)][..]);
    assert!(pol(&[(4, 0)]).is_zero());
    assert!(pol(&[]).is_zero());
}

#[test]
fn zero_and_one() {
    assert!(Polynomial::zero().is_zero());
    assert_eq!(Polynomial::one().terms(), &[(0, 1)][..]);
    assert!(Polynomial::monomial(5, 0).is_zero());
    assert_eq!(Polynomial::monomial(-3, 2).terms(), &[(-3, 2)][..]);
}

#[test]
fn coefficient_lookup() {
    let p = pol(&[(-2, 7), (3, -1)]);
    assert_eq!(p.coefficient(-2), 7);
    assert_eq!(p.coefficient(3), -1);
    assert_eq!(p.coefficient(0), 0);
}

#[test]
fn add_merges_and_cancels() {
    let p = pol(&[(-1, 1), (0, 2), (3, 4)]);
    let q = pol(&[(0, -2), (1, 5), (3, 1)]);
    assert_eq!(p.add(&q).terms(), &[(-1, 1), (1, 5), (3, 5)][..]);
}

#[test]
fn add_is_commutative_example() {
    let p = pol(&[(-1, 1), (2, -3)]);
    let q = pol(&[(2, 3), (4, 1)]);
    assert_eq!(p.add(&q), q.add(&p));
}

#[test]
fn add_is_associative_example() {
    let p = pol(&[(-1, 1), (2, -3)]);
    let q = pol(&[(2, 3), (4, 1)]);
    let r = pol(&[(-1, -1), (0, 9)]);
    assert_eq!(p.add(&q).add(&r), p.add(&q.add(&r)));
    assert_eq!(p.add(&q).add(&r).terms(), &[(0, 9), (4, 1)][..]);
}

#[test]
fn adding_the_negation_gives_zero() {
    let p = pol(&[(-3, 2), (0, -1), (5, 7)]);
    let n = p.neg();
    assert_eq!(n.terms(), &[(-3, -2), (0, 1), (5, -7)][..]);
    assert!(p.add(&n).is_zero());
    assert_eq!(p.add(&n), Polynomial::zero());
}

#[test]
fn mul_example() {
    // (1 + t)(1 - t) = 1 - t^2
    let p = pol(&[(0, 1), (1, 1)]);
    let q = pol(&[(0, 1), (1, -1)]);
    assert_eq!(p.mul(&q).terms(), &[(0, 1), (2, -1)][..]);
    // (t^-1 + t)^2 = t^-2 + 2 + t^2
    let r = pol(&[(-1, 1), (1, 1)]);
    assert_eq!(r.mul(&r).terms(), &[(-2, 1), (0, 2), (2, 1)][..]);
}

#[test]
fn mul_by_zero_is_zero() {
    let p = pol(&[(0, 1), (1, 1)]);
    assert!(p.mul(&Polynomial::zero()).is_zero());
    assert!(Polynomial::zero().mul(&p).is_zero());
}

#[test]
fn mul_by_one_is_identity() {
    let p = pol(&[(-4, 3), (0, -1), (2, 8)]);
    assert_eq!(p.mul(&Polynomial::one()), p);
    assert_eq!(Polynomial::one().mul(&p), p);
}

#[test]
fn mul_distributes_over_add() {
    let p = pol(&[(-1, 2), (1, 1)]);
    let q = pol(&[(0, 3), (2, -1)]);
    let r = pol(&[(0, -3), (1, 4)]);
    assert_eq!(p.mul(&q.add(&r)), p.mul(&q).add(&p.mul(&r)));
    assert_eq!(q.add(&r).mul(&p), q.mul(&p).add(&r.mul(&p)));
}

#[test]
fn mul_is_associative_example() {
    let p = pol(&[(-1, 2), (1, 1)]);
    let q = pol(&[(0, 3), (2, -1)]);
    let r = pol(&[(0, -3), (1, 4)]);
    assert_eq!(p.mul(&q).mul(&r), p.mul(&q.mul(&r)));
}

#[test]
fn large_coefficients_are_exact() {
    let big = i64::MAX / 2;
    let p = pol(&[(0, big)]);
    assert_eq!(p.add(&p).coefficient(0), big * 2);
}
