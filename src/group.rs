//! The four moves of the puzzle and their generator matrices.

use vstd::prelude::*;
use crate::poly::{Polynomial, canonical, coeff, convolution, terms_view};
use crate::matrix::{
    PolyMatrix, mat_canonical, mat_identity, mat_product, entry_product, lemma_entry_product,
};
use crate::poly::lemma_canonical_unique;

verus! {

/// A move of the puzzle.
#[derive(Clone, Copy, Debug, PartialEq, Eq, Hash, Structural)]
pub enum Direction {
    North,
    South,
    East,
    West,
}

/// The move that undoes `d`: North and South undo each other, and so do
/// East and West.
pub open spec fn inverse_of(d: Direction) -> Direction {
    match d {
        Direction::North => Direction::South,
        Direction::South => Direction::North,
        Direction::East => Direction::West,
        Direction::West => Direction::East,
    }
}

/// The one-letter code of a move.
pub open spec fn code_of(d: Direction) -> char {
    match d {
        Direction::North => 'N',
        Direction::South => 'S',
        Direction::East => 'E',
        Direction::West => 'W',
    }
}

impl Direction {
    pub fn inverse(self) -> (r: Direction)
        ensures
            r == inverse_of(self),
    {
        match self {
            Direction::North => Direction::South,
            Direction::South => Direction::North,
            Direction::East => Direction::West,
            Direction::West => Direction::East,
        }
    }

    pub fn code(self) -> (r: char)
        ensures
            r == code_of(self),
    {
        match self {
            Direction::North => 'N',
            Direction::South => 'S',
            Direction::East => 'E',
            Direction::West => 'W',
        }
    }
}

/// The generator matrix of each move, row-major, as Laurent polynomials in `q`.
pub open spec fn generator_entries(d: Direction) -> Seq<Seq<(int, int)>> {
    match d {
        Direction::North => seq![
            seq![], seq![], seq![(-1int, -1int)],
            seq![], seq![(1int, -1int)], seq![(-1int, -1int), (1int, 1int)],
            seq![(0int, -1int)], seq![], seq![(-1int, -1int), (0int, 1int)],
        ],
        Direction::South => seq![
            seq![(0int, 1int), (1int, -1int)], seq![], seq![(0int, -1int)],
            seq![(-1int, 1int), (1int, -1int)], seq![(-1int, -1int)], seq![],
            seq![(1int, -1int)], seq![], seq![],
        ],
        Direction::East => seq![
            seq![(-1int, -1int)], seq![(0int, 1int)], seq![],
            seq![], seq![(0int, 1int)], seq![],
            seq![], seq![(0int, 1int)], seq![(1int, -1int)],
        ],
        Direction::West => seq![
            seq![(1int, -1int)], seq![(1int, 1int)], seq![],
            seq![], seq![(0int, 1int)], seq![],
            seq![], seq![(-1int, 1int)], seq![(-1int, -1int)],
        ],
    }
}

proof fn lemma_coeff_small(s: Seq<(int, int)>)
    requires
        s.len() <= 2,
        canonical(s),
    ensures
        forall|e: int|
            #[trigger] coeff(s, e) == (if s.len() > 0 && s[0].0 == e {
                s[0].1
            } else {
                0
            }) + (if s.len() > 1 && s[1].0 == e {
                s[1].1
            } else {
                0
            }),
{
    assert forall|e: int|
        #[trigger] coeff(s, e) == (if s.len() > 0 && s[0].0 == e {
            s[0].1
        } else {
            0
        }) + (if s.len() > 1 && s[1].0 == e {
            s[1].1
        } else {
            0
        }) by {
        if s.len() > 0 {
            let t = s.drop_first();
            if s.len() > 1 {
                assert(t[0] == s[1]);
                assert(s[0].0 < s[1].0);
                assert(coeff(t, e) == if t[0].0 == e {
                    t[0].1
                } else {
                    coeff(t.drop_first(), e)
                });
                assert(coeff(t.drop_first(), e) == 0);
            } else {
                assert(coeff(t, e) == 0);
            }
        }
    }
}

proof fn lemma_convolution_small(a: Seq<(int, int)>)
    requires
        a.len() <= 2,
    ensures
        forall|b: Seq<(int, int)>, e: int|
            #[trigger] convolution(a, b, e) == (if a.len() > 0 {
                a[0].1 * coeff(b, e - a[0].0)
            } else {
                0
            }) + (if a.len() > 1 {
                a[1].1 * coeff(b, e - a[1].0)
            } else {
                0
            }),
{
    assert forall|b: Seq<(int, int)>, e: int|
        #[trigger] convolution(a, b, e) == (if a.len() > 0 {
            a[0].1 * coeff(b, e - a[0].0)
        } else {
            0
        }) + (if a.len() > 1 {
            a[1].1 * coeff(b, e - a[1].0)
        } else {
            0
        }) by {
        if a.len() > 0 {
            let t = a.drop_first();
            if a.len() > 1 {
                assert(t[0] == a[1]);
                assert(convolution(t, b, e) == t[0].1 * coeff(b, e - t[0].0) + convolution(
                    t.drop_first(),
                    b,
                    e,
                ));
                assert(convolution(t.drop_first(), b, e) == 0);
            } else {
                assert(convolution(t, b, e) == 0);
            }
        }
    }
}

/// Every entry of a generator has at most two terms.
proof fn lemma_generator_small(d: Direction)
    ensures
        mat_canonical(generator_entries(d)),
        forall|n: int| 0 <= n < 9 ==> (#[trigger] generator_entries(d)[n]).len() <= 2,
{
    let g = generator_entries(d);
    assert forall|n: int| 0 <= n < 9 implies canonical(#[trigger] g[n]) && g[n].len() <= 2 by {}
}

/// The generator entry `c·q^e`.
fn entry1(e: i32, c: i64) -> (r: Polynomial)
    requires
        c != 0,
    ensures
        r.wf(),
        r@ == seq![(e as int, c as int)],
{
    let terms = vec![(e, c)];
    assert(terms_view(terms@) =~= seq![(e as int, c as int)]);
    Polynomial::from_sorted_terms(terms)
}

/// The generator entry `c1·q^e1 + c2·q^e2`.
fn entry2(e1: i32, c1: i64, e2: i32, c2: i64) -> (r: Polynomial)
    requires
        e1 < e2,
        c1 != 0,
        c2 != 0,
    ensures
        r.wf(),
        r@ == seq![(e1 as int, c1 as int), (e2 as int, c2 as int)],
{
    let terms = vec![(e1, c1), (e2, c2)];
    assert(terms_view(terms@) =~= seq![(e1 as int, c1 as int), (e2 as int, c2 as int)]);
    Polynomial::from_sorted_terms(terms)
}

/// The generator matrix of a move.
pub fn generator(d: Direction) -> (r: PolyMatrix)
    ensures
        r.wf(),
        r@ == generator_entries(d),
{
    let mut entries: Vec<Polynomial> = Vec::new();
    match d {
        Direction::North => {
            entries.push(Polynomial::zero());
            entries.push(Polynomial::zero());
            entries.push(entry1(-1, -1));
            entries.push(Polynomial::zero());
            entries.push(entry1(1, -1));
            entries.push(entry2(-1, -1, 1, 1));
            entries.push(entry1(0, -1));
            entries.push(Polynomial::zero());
            entries.push(entry2(-1, -1, 0, 1));
        },
        Direction::South => {
            entries.push(entry2(0, 1, 1, -1));
            entries.push(Polynomial::zero());
            entries.push(entry1(0, -1));
            entries.push(entry2(-1, 1, 1, -1));
            entries.push(entry1(-1, -1));
            entries.push(Polynomial::zero());
            entries.push(entry1(1, -1));
            entries.push(Polynomial::zero());
            entries.push(Polynomial::zero());
        },
        Direction::East => {
            entries.push(entry1(-1, -1));
            entries.push(entry1(0, 1));
            entries.push(Polynomial::zero());
            entries.push(Polynomial::zero());
            entries.push(entry1(0, 1));
            entries.push(Polynomial::zero());
            entries.push(Polynomial::zero());
            entries.push(entry1(0, 1));
            entries.push(entry1(1, -1));
        },
        Direction::West => {
            entries.push(entry1(1, -1));
            entries.push(entry1(1, 1));
            entries.push(Polynomial::zero());
            entries.push(Polynomial::zero());
            entries.push(entry1(0, 1));
            entries.push(Polynomial::zero());
            entries.push(Polynomial::zero());
            entries.push(entry1(-1, 1));
            entries.push(entry1(-1, -1));
        },
    }
    proof {
        lemma_generator_small(d);
        assert(entries@.map_values(|p: Polynomial| p@) =~= generator_entries(d));
    }
    PolyMatrix::from_entries(entries)
}

/// The coefficient of `x^e` in a canonical polynomial of at most two terms.
pub open spec fn small_coeff(s: Seq<(int, int)>, e: int) -> int {
    (if s.len() > 0 && s[0].0 == e {
        s[0].1
    } else {
        0
    }) + (if s.len() > 1 && s[1].0 == e {
        s[1].1
    } else {
        0
    })
}

/// `c·x`, spelled out for the coefficients one and minus one.
pub open spec fn times(c: int, x: int) -> int {
    if c == 1 {
        x
    } else if c == -1 {
        -x
    } else {
        c * x
    }
}

/// The convolution of two polynomials of at most two terms each.
pub open spec fn small_convolution(a: Seq<(int, int)>, b: Seq<(int, int)>, e: int) -> int {
    (if a.len() > 0 {
        times(a[0].1, small_coeff(b, e - a[0].0))
    } else {
        0
    }) + (if a.len() > 1 {
        times(a[1].1, small_coeff(b, e - a[1].0))
    } else {
        0
    })
}

proof fn lemma_small_convolution(a: Seq<(int, int)>, b: Seq<(int, int)>)
    requires
        a.len() <= 2,
        b.len() <= 2,
        canonical(b),
    ensures
        forall|e: int| #[trigger] convolution(a, b, e) == small_convolution(a, b, e),
{
    lemma_convolution_small(a);
    lemma_coeff_small(b);
    assert forall|e: int| #[trigger] convolution(a, b, e) == small_convolution(a, b, e) by {
        if a.len() > 0 {
            assert(coeff(b, e - a[0].0) == small_coeff(b, e - a[0].0));
        }
        if a.len() > 1 {
            assert(coeff(b, e - a[1].0) == small_coeff(b, e - a[1].0));
        }
    }
}

/// Entry `(i, j)` of `a·b` is `t`, checked coefficient by coefficient on
/// matrices whose entries have at most two terms.
proof fn lemma_small_entry(
    a: Seq<Seq<(int, int)>>,
    b: Seq<Seq<(int, int)>>,
    i: int,
    j: int,
    t: Seq<(int, int)>,
)
    requires
        mat_canonical(a),
        mat_canonical(b),
        forall|n: int| 0 <= n < 9 ==> (#[trigger] a[n]).len() <= 2,
        forall|n: int| 0 <= n < 9 ==> (#[trigger] b[n]).len() <= 2,
        0 <= i < 3,
        0 <= j < 3,
        canonical(t),
        t.len() <= 2,
        forall|e: int|
            small_convolution(a[3 * i], b[j], e) + small_convolution(a[3 * i + 1], b[3 + j], e)
                + small_convolution(a[3 * i + 2], b[6 + j], e) == #[trigger] small_coeff(t, e),
    ensures
        entry_product(a, b, i, j) == t,
{
    lemma_entry_product(a, b, i, j);
    assert(a[3 * i].len() <= 2 && a[3 * i + 1].len() <= 2 && a[3 * i + 2].len() <= 2);
    assert(b[j].len() <= 2 && b[3 + j].len() <= 2 && b[6 + j].len() <= 2);
    assert(canonical(b[j]) && canonical(b[3 + j]) && canonical(b[6 + j]));
    lemma_small_convolution(a[3 * i], b[j]);
    lemma_small_convolution(a[3 * i + 1], b[3 + j]);
    lemma_small_convolution(a[3 * i + 2], b[6 + j]);
    lemma_coeff_small(t);
    assert forall|e: int| coeff(entry_product(a, b, i, j), e) == coeff(t, e) by {
        assert(small_coeff(t, e) == coeff(t, e));
    }
    lemma_canonical_unique(entry_product(a, b, i, j), t);
}

/// `a·b` is the identity, checked entry by entry on matrices whose entries
/// have at most two terms.
proof fn lemma_small_product_identity(a: Seq<Seq<(int, int)>>, b: Seq<Seq<(int, int)>>)
    requires
        mat_canonical(a),
        mat_canonical(b),
        forall|n: int| 0 <= n < 9 ==> (#[trigger] a[n]).len() <= 2,
        forall|n: int| 0 <= n < 9 ==> (#[trigger] b[n]).len() <= 2,
        forall|i: int, j: int, e: int|
            0 <= i < 3 && 0 <= j < 3 ==> small_convolution(a[3 * i], b[j], e) + small_convolution(
                a[3 * i + 1],
                b[3 + j],
                e,
            ) + small_convolution(a[3 * i + 2], b[6 + j], e) == #[trigger] small_coeff(
                mat_identity()[3 * i + j],
                e,
            ),
    ensures
        mat_product(a, b) == mat_identity(),
{
    let id = mat_identity();
    assert forall|n: int| 0 <= n < 9 implies #[trigger] mat_product(a, b)[n] == id[n] by {
        let i = n / 3;
        let j = n % 3;
        assert(3 * i + j == n);
        assert(canonical(id[n]));
        lemma_small_entry(a, b, i, j, id[n]);
    }
    assert(mat_product(a, b) =~= id);
}

/// Opposite moves cancel: the product of a generator and the generator of the
/// inverse move is the identity matrix, as polynomials and so for every value
/// of `q`.
pub proof fn lemma_inverse_cancels(d: Direction)
    ensures
        mat_product(generator_entries(d), generator_entries(inverse_of(d))) == mat_identity(),
{
    let a = generator_entries(d);
    let b = generator_entries(inverse_of(d));
    let id = mat_identity();
    lemma_generator_small(d);
    lemma_generator_small(inverse_of(d));
    match d {
        Direction::North => {
            let a = generator_entries(Direction::North);
            let b = generator_entries(Direction::South);
            assert forall|i: int, j: int, e: int| 0 <= i < 3 && 0 <= j < 3 implies small_convolution(
                a[3 * i],
                b[j],
                e,
            ) + small_convolution(a[3 * i + 1], b[3 + j], e) + small_convolution(
                a[3 * i + 2],
                b[6 + j],
                e,
            ) == #[trigger] small_coeff(id[3 * i + j], e) by {
                if i == 0 {
                } else if i == 1 {
                } else {
                }
            }
        },
        Direction::South => {
            let a = generator_entries(Direction::South);
            let b = generator_entries(Direction::North);
            assert forall|i: int, j: int, e: int| 0 <= i < 3 && 0 <= j < 3 implies small_convolution(
                a[3 * i],
                b[j],
                e,
            ) + small_convolution(a[3 * i + 1], b[3 + j], e) + small_convolution(
                a[3 * i + 2],
                b[6 + j],
                e,
            ) == #[trigger] small_coeff(id[3 * i + j], e) by {
                if i == 0 {
                } else if i == 1 {
                } else {
                }
            }
        },
        Direction::East => {
            let a = generator_entries(Direction::East);
            let b = generator_entries(Direction::West);
            assert forall|i: int, j: int, e: int| 0 <= i < 3 && 0 <= j < 3 implies small_convolution(
                a[3 * i],
                b[j],
                e,
            ) + small_convolution(a[3 * i + 1], b[3 + j], e) + small_convolution(
                a[3 * i + 2],
                b[6 + j],
                e,
            ) == #[trigger] small_coeff(id[3 * i + j], e) by {
                if i == 0 {
                } else if i == 1 {
                } else {
                }
            }
        },
        Direction::West => {
            let a = generator_entries(Direction::West);
            let b = generator_entries(Direction::East);
            assert forall|i: int, j: int, e: int| 0 <= i < 3 && 0 <= j < 3 implies small_convolution(
                a[3 * i],
                b[j],
                e,
            ) + small_convolution(a[3 * i + 1], b[3 + j], e) + small_convolution(
                a[3 * i + 2],
                b[6 + j],
                e,
            ) == #[trigger] small_coeff(id[3 * i + j], e) by {
                if i == 0 {
                } else if i == 1 {
                } else {
                }
            }
        },
    }
    lemma_small_product_identity(a, b);
}

} // verus!
