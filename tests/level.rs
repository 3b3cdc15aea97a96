use matrix_puzzle::group::{generator, Direction};
use matrix_puzzle::group::Direction::{East, North, South, West};
use matrix_puzzle::matrix::PolyMatrix;
use matrix_puzzle::poly::Polynomial;
use matrix_puzzle::word::Word;
use num::Complex;

fn evaluate(p: &Polynomial, q: Complex<f64>) -> Complex<f64> {
    p.terms().iter().map(|&(e, c)| Complex::new(c as f64, 0.0) * q.powi(e)).sum()
}

fn deviations(m: &PolyMatrix, q: Complex<f64>) -> Vec<f64> {
    m.flatten()
        .iter()
        .enumerate()
        .map(|(n, p)| {
            let target = if n % 4 == 0 { Complex::new(1.0, 0.0) } else { Complex::new(0.0, 0.0) };
            (evaluate(p, q) - target).norm()
        })
        .collect()
}

fn is_identity_at(m: &PolyMatrix, q: Complex<f64>) -> bool {
    deviations(m, q).iter().all(|x| *x <= 1e-10)
}

fn distance_at(m: &PolyMatrix, q: Complex<f64>) -> f64 {
    deviations(m, q).iter().map(|x| x * x).sum::<f64>().sqrt()
}

fn product(moves: &[Direction]) -> PolyMatrix {
    let mut m = PolyMatrix::identity();
    for d in moves {
        m = m.mul(&generator(*d));
    }
    m
}

#[test]
fn level_word_updates_as_expected() {
    let mut level = Word::new();

    assert_eq!(level.moves(), &[][..]);
    assert_eq!(level.word(), "");

    level.push(Direction::North);
    assert_eq!(level.moves(), &[Direction::North][..]);
    assert_eq!(level.word(), "N");

    level.push(Direction::East);
    assert_eq!(level.moves(), &[Direction::North, Direction::East][..]);
    assert_eq!(level.word(), "NE");

    level.push(Direction::West);
    assert_eq!(level.moves(), &[Direction::North][..]);
    assert_eq!(level.word(), "N");

    level.push(Direction::South);
    assert_eq!(level.moves(), &[][..]);
    assert_eq!(level.word(), "");
}

#[test]
fn level_reset_resets() {
    let q = Complex::new(60.0, 42.0);
    let mut level = Word::new();

    assert!(is_identity_at(&product(level.moves()), q));

    level.push(Direction::North);
    assert!(!level.is_empty());
    assert!(!is_identity_at(&product(level.moves()), q));

    level.reset();
    assert!(level.is_empty());
    assert!(is_identity_at(&product(level.moves()), q));
}

#[test]
fn level_is_solved() {
    let q = Complex::new(1.0, 0.0);
    let mut level = Word::new();
    let mut made: Vec<Direction> = Vec::new();

    assert!(!level.is_solved(&[is_identity_at(&product(&made), q)]));
    level.push(Direction::North);
    made.push(Direction::North);
    assert!(!level.is_solved(&[is_identity_at(&product(&made), q)]));
    level.push(Direction::North);
    made.push(Direction::North);
    assert!(level.is_solved(&[is_identity_at(&product(&made), q)]));
    assert_eq!(level.word(), "NN");
}

#[test]
fn north_north_at_one_returns_to_identity() {
    let q = Complex::new(1.0, 0.0);
    let mut level = Word::new();
    level.push(Direction::North);
    level.push(Direction::North);
    let current = product(&[Direction::North, Direction::North]);
    for (n, p) in current.flatten().iter().enumerate() {
        let z = evaluate(p, q);
        let target = if n % 4 == 0 { 1.0 } else { 0.0 };
        assert!((z.re - target).abs() <= 1e-10);
        assert!(z.im.abs() <= 1e-10);
    }
    assert!(level.is_solved(&[is_identity_at(&current, q)]));
    assert_eq!(level.word(), "NN");
    assert_ne!(level.word(), "");
}

#[test]
fn east_then_west_at_three_is_at_distance_zero() {
    let q = Complex::new(3.0, 0.0);
    let mut level = Word::new();
    level.push(Direction::East);
    level.push(Direction::West);
    let current = product(&[Direction::East, Direction::West]);
    assert_eq!(distance_at(&current, q), 0.0);
    assert_eq!(level.word(), "");
    assert!(!level.is_solved(&[is_identity_at(&current, q)]));
}

#[test]
fn word_is_the_free_reduction_of_the_moves() {
    let moves = [North, East, East, West, South, North, West, West, East, South];
    let mut level = Word::new();
    for d in moves {
        level.push(d);
    }
    // NEE, W cancels E: NE, then NES, N cancels S: NE, W cancels E: N,
    // then NW, E cancels W: N, S cancels N: empty.
    assert_eq!(level.word(), "");
    let mut other = Word::new();
    for d in [North, North, East, South, West, West] {
        other.push(d);
    }
    assert_eq!(other.word(), "NNESWW");
    assert_eq!(product(&[North, North, East, South, West, West]), product(other.moves()));
}

#[test]
fn reduced_word_has_the_same_matrix() {
    let moves = [North, East, West, North, South, South, East];
    let mut level = Word::new();
    for d in moves {
        level.push(d);
    }
    assert_eq!(level.word(), "E");
    assert_eq!(product(&moves), product(level.moves()));
}

#[test]
fn not_solved_before_any_move_or_after_reset() {
    let mut level = Word::new();
    assert!(!level.is_solved(&[true, true]));
    assert!(!level.is_solved(&[]));
    level.push(Direction::West);
    assert!(!level.is_solved(&[false]));
    assert!(!level.is_solved(&[true, false]));
    assert!(level.is_solved(&[true, true]));
    level.reset();
    assert!(!level.is_solved(&[true]));
    assert_eq!(level.word(), "");
}

#[test]
fn reset_matches_a_fresh_word() {
    let mut level = Word::new();
    for d in [Direction::South, Direction::East, Direction::East, Direction::North] {
        level.push(d);
    }
    assert_eq!(level.word(), "SEEN");
    level.reset();
    let fresh = Word::new();
    assert_eq!(level.moves(), fresh.moves());
    assert_eq!(level.word(), fresh.word());
    let q = Complex::new(2.0, 0.0);
    assert_eq!(deviations(&product(level.moves()), q), deviations(&product(fresh.moves()), q));
}
