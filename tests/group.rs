use matrix_puzzle::group::{generator, Direction};
use matrix_puzzle::matrix::PolyMatrix;
use matrix_puzzle::poly::Polynomial;
use num::Complex;

fn evaluate(p: &Polynomial, q: Complex<f64>) -> Complex<f64> {
    p.terms().iter().map(|&(e, c)| Complex::new(c as f64, 0.0) * q.powi(e)).sum()
}

fn is_identity_at(m: &PolyMatrix, q: Complex<f64>) -> bool {
    m.flatten().iter().enumerate().all(|(n, p)| {
        let target = if n % 4 == 0 { Complex::new(1.0, 0.0) } else { Complex::new(0.0, 0.0) };
        (evaluate(p, q) - target).norm() <= 1e-10
    })
}

fn product(moves: &[Direction]) -> PolyMatrix {
    let mut m = PolyMatrix::identity();
    for d in moves {
        m = m.mul(&generator(*d));
    }
    m
}

#[test]
fn group_starts_at_identity() {
    let q = Complex::new(60.0, 42.0);
    assert!(is_identity_at(&product(&[]), q));
}

#[test]
fn group_moves_to_non_identity() {
    let q = Complex::new(60.0, 42.0);
    assert!(!is_identity_at(&product(&[Direction::North]), q));
}

#[test]
fn pushing_north_moves_north() {
    let current = product(&[Direction::North]);
    assert_eq!(current, generator(Direction::North));
}

#[test]
fn going_north_and_south_does_nothing() {
    let q = Complex::new(60.0, 42.0);
    let current = product(&[Direction::North, Direction::South]);
    assert_eq!(current, PolyMatrix::identity());
    assert!(is_identity_at(&current, q));
}

#[test]
fn going_south_and_north_does_nothing() {
    let q = Complex::new(60.0, 42.0);
    let current = product(&[Direction::South, Direction::North]);
    assert_eq!(current, PolyMatrix::identity());
    assert!(is_identity_at(&current, q));
}

#[test]
fn going_east_and_west_does_nothing() {
    let q = Complex::new(60.0, 42.0);
    let current = product(&[Direction::East, Direction::West]);
    assert_eq!(current, PolyMatrix::identity());
    assert!(is_identity_at(&current, q));
}

#[test]
fn going_west_and_east_does_nothing() {
    let q = Complex::new(60.0, 42.0);
    let current = product(&[Direction::West, Direction::East]);
    assert_eq!(current, PolyMatrix::identity());
    assert!(is_identity_at(&current, q));
}

#[test]
fn north_generator_entries() {
    let n = generator(Direction::North);
    assert_eq!(n.get(0, 2).terms(), &[(-1, -1)][..]);
    assert_eq!(n.get(1, 1).terms(), &[(1, -1)][..]);
    assert_eq!(n.get(1, 2).terms(), &[(-1, -1), (1, 1)][..]);
    assert_eq!(n.get(2, 0).terms(), &[(0, -1)][..]);
    assert_eq!(n.get(2, 2).terms(), &[(-1, -1), (0, 1)][..]);
    assert!(n.get(0, 0).is_zero());
}

#[test]
fn no_generator_is_the_identity() {
    for d in [Direction::North, Direction::South, Direction::East, Direction::West] {
        assert_ne!(generator(d), PolyMatrix::identity());
    }
}

#[test]
fn north_twice_is_not_the_identity_as_polynomials() {
    let nn = product(&[Direction::North, Direction::North]);
    assert_ne!(nn, PolyMatrix::identity());
    assert!(is_identity_at(&nn, Complex::new(1.0, 0.0)));
    assert!(!is_identity_at(&nn, Complex::new(2.0, 0.0)));
}

#[test]
fn inverse_and_codes() {
    assert_eq!(Direction::North.inverse(), Direction::South);
    assert_eq!(Direction::South.inverse(), Direction::North);
    assert_eq!(Direction::East.inverse(), Direction::West);
    assert_eq!(Direction::West.inverse(), Direction::East);
    assert_eq!(Direction::North.code(), 'N');
    assert_eq!(Direction::South.code(), 'S');
    assert_eq!(Direction::East.code(), 'E');
    assert_eq!(Direction::West.code(), 'W');
}
