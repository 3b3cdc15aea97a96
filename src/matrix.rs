//! 3×3 matrices whose entries are Laurent polynomials, stored row-major.

use vstd::prelude::*;
use crate::poly::{
    Polynomial, canonical, sum_terms, product_terms, sum_in_range, product_in_range, convolution,
    coeff, lemma_sum, lemma_product, lemma_canonical_unique, lemma_convolution_sum_left,
    lemma_convolution_sum_right, lemma_convolution_associative, lemma_convolution_one,
    lemma_convolution_empty,
};

verus! {

/// The model of a matrix: its nine entries, row-major.
pub open spec fn mat_canonical(m: Seq<Seq<(int, int)>>) -> bool {
    &&& m.len() == 9
    &&& forall|n: int| 0 <= n < 9 ==> canonical(#[trigger] m[n])
}

pub open spec fn mat_zero() -> Seq<Seq<(int, int)>> {
    Seq::new(9, |n: int| Seq::<(int, int)>::empty())
}

/// One on the diagonal (row-major positions 0, 4 and 8), zero elsewhere.
pub open spec fn mat_identity() -> Seq<Seq<(int, int)>> {
    Seq::new(
        9,
        |n: int|
            if n == 0 || n == 4 || n == 8 {
                seq![(0int, 1int)]
            } else {
                Seq::<(int, int)>::empty()
            },
    )
}

/// The `k`-th of the three products summed into entry `(i, j)` of `a·b`.
pub open spec fn partial_product(
    a: Seq<Seq<(int, int)>>,
    b: Seq<Seq<(int, int)>>,
    i: int,
    j: int,
    k: int,
) -> Seq<(int, int)> {
    product_terms(a[3 * i + k], b[3 * k + j])
}

/// Entry `(i, j)` of `a·b`: `a[i][0]·b[0][j] + a[i][1]·b[1][j] + a[i][2]·b[2][j]`.
pub open spec fn entry_product(
    a: Seq<Seq<(int, int)>>,
    b: Seq<Seq<(int, int)>>,
    i: int,
    j: int,
) -> Seq<(int, int)> {
    sum_terms(
        sum_terms(partial_product(a, b, i, j, 0), partial_product(a, b, i, j, 1)),
        partial_product(a, b, i, j, 2),
    )
}

pub open spec fn mat_product(a: Seq<Seq<(int, int)>>, b: Seq<Seq<(int, int)>>) -> Seq<
    Seq<(int, int)>,
> {
    Seq::new(9, |n: int| entry_product(a, b, n / 3, n % 3))
}

/// Every value met while computing entry `(i, j)` of `a·b` fits in its machine type.
pub open spec fn entry_in_range(
    a: Seq<Seq<(int, int)>>,
    b: Seq<Seq<(int, int)>>,
    i: int,
    j: int,
) -> bool {
    &&& forall|k: int| 0 <= k < 3 ==> product_in_range(a[3 * i + k], #[trigger] b[3 * k + j])
    &&& sum_in_range(partial_product(a, b, i, j, 0), partial_product(a, b, i, j, 1))
    &&& sum_in_range(
        sum_terms(partial_product(a, b, i, j, 0), partial_product(a, b, i, j, 1)),
        partial_product(a, b, i, j, 2),
    )
}

pub open spec fn mat_product_in_range(a: Seq<Seq<(int, int)>>, b: Seq<Seq<(int, int)>>) -> bool {
    forall|i: int, j: int| 0 <= i < 3 && 0 <= j < 3 ==> #[trigger] entry_in_range(a, b, i, j)
}

/// Entry `(i, j)` of `a·b` is canonical, and its coefficients are the sums of
/// the three convolutions.
pub proof fn lemma_entry_product(a: Seq<Seq<(int, int)>>, b: Seq<Seq<(int, int)>>, i: int, j: int)
    requires
        mat_canonical(a),
        mat_canonical(b),
        0 <= i < 3,
        0 <= j < 3,
    ensures
        canonical(entry_product(a, b, i, j)),
        forall|e: int|
            #[trigger] coeff(entry_product(a, b, i, j), e) == convolution(a[3 * i], b[j], e)
                + convolution(a[3 * i + 1], b[3 + j], e) + convolution(a[3 * i + 2], b[6 + j], e),
{
    let p0 = partial_product(a, b, i, j, 0);
    let p1 = partial_product(a, b, i, j, 1);
    let p2 = partial_product(a, b, i, j, 2);
    assert(canonical(a[3 * i]) && canonical(a[3 * i + 1]) && canonical(a[3 * i + 2]));
    assert(canonical(b[j]) && canonical(b[3 + j]) && canonical(b[6 + j]));
    lemma_product(a[3 * i], b[j]);
    lemma_product(a[3 * i + 1], b[3 + j]);
    lemma_product(a[3 * i + 2], b[6 + j]);
    lemma_sum(p0, p1);
    lemma_sum(sum_terms(p0, p1), p2);
}

/// The product of canonical matrices is canonical.
pub proof fn lemma_mat_product_canonical(a: Seq<Seq<(int, int)>>, b: Seq<Seq<(int, int)>>)
    requires
        mat_canonical(a),
        mat_canonical(b),
    ensures
        mat_canonical(mat_product(a, b)),
{
    assert forall|n: int| 0 <= n < 9 implies canonical(#[trigger] mat_product(a, b)[n]) by {
        lemma_entry_product(a, b, n / 3, n % 3);
    }
}

proof fn lemma_mat_index(i: int, j: int)
    requires
        0 <= i < 3,
        0 <= j < 3,
    ensures
        (3 * i + j) / 3 == i,
        (3 * i + j) % 3 == j,
{
}

/// The coefficients of `(a·b)[i][k]` multiplied by `c`, expanded over `a`'s row.
proof fn lemma_convolution_entry_left(
    a: Seq<Seq<(int, int)>>,
    b: Seq<Seq<(int, int)>>,
    c: Seq<(int, int)>,
    i: int,
    k: int,
    e: int,
)
    requires
        mat_canonical(a),
        mat_canonical(b),
        canonical(c),
        0 <= i < 3,
        0 <= k < 3,
    ensures
        convolution(entry_product(a, b, i, k), c, e) == convolution(
            a[3 * i],
            product_terms(b[k], c),
            e,
        ) + convolution(a[3 * i + 1], product_terms(b[3 + k], c), e) + convolution(
            a[3 * i + 2],
            product_terms(b[6 + k], c),
            e,
        ),
{
    let p0 = partial_product(a, b, i, k, 0);
    let p1 = partial_product(a, b, i, k, 1);
    let p2 = partial_product(a, b, i, k, 2);
    assert(canonical(b[k]) && canonical(b[3 + k]) && canonical(b[6 + k]));
    lemma_convolution_sum_left(sum_terms(p0, p1), p2, c, e);
    lemma_convolution_sum_left(p0, p1, c, e);
    lemma_convolution_associative(a[3 * i], b[k], c, e);
    lemma_convolution_associative(a[3 * i + 1], b[3 + k], c, e);
    lemma_convolution_associative(a[3 * i + 2], b[6 + k], c, e);
}

/// The coefficients of `a` multiplied by `(b·c)[l][j]`, expanded over `c`'s column.
proof fn lemma_convolution_entry_right(
    a: Seq<(int, int)>,
    b: Seq<Seq<(int, int)>>,
    c: Seq<Seq<(int, int)>>,
    l: int,
    j: int,
    e: int,
)
    requires
        mat_canonical(b),
        mat_canonical(c),
        0 <= l < 3,
        0 <= j < 3,
    ensures
        convolution(a, entry_product(b, c, l, j), e) == convolution(
            a,
            product_terms(b[3 * l], c[j]),
            e,
        ) + convolution(a, product_terms(b[3 * l + 1], c[3 + j]), e) + convolution(
            a,
            product_terms(b[3 * l + 2], c[6 + j]),
            e,
        ),
{
    let p0 = partial_product(b, c, l, j, 0);
    let p1 = partial_product(b, c, l, j, 1);
    let p2 = partial_product(b, c, l, j, 2);
    assert(canonical(b[3 * l]) && canonical(b[3 * l + 1]) && canonical(b[3 * l + 2]));
    assert(canonical(c[j]) && canonical(c[3 + j]) && canonical(c[6 + j]));
    lemma_product(b[3 * l], c[j]);
    lemma_product(b[3 * l + 1], c[3 + j]);
    lemma_product(b[3 * l + 2], c[6 + j]);
    lemma_sum(p0, p1);
    lemma_convolution_sum_right(a, sum_terms(p0, p1), p2, e);
    lemma_convolution_sum_right(a, p0, p1, e);
}

/// The matrix product is associative.
pub proof fn lemma_mat_associative(
    a: Seq<Seq<(int, int)>>,
    b: Seq<Seq<(int, int)>>,
    c: Seq<Seq<(int, int)>>,
)
    requires
        mat_canonical(a),
        mat_canonical(b),
        mat_canonical(c),
    ensures
        mat_product(mat_product(a, b), c) == mat_product(a, mat_product(b, c)),
{
    let ab = mat_product(a, b);
    let bc = mat_product(b, c);
    lemma_mat_product_canonical(a, b);
    lemma_mat_product_canonical(b, c);
    lemma_mat_product_canonical(ab, c);
    lemma_mat_product_canonical(a, bc);
    assert forall|n: int| 0 <= n < 9 implies #[trigger] mat_product(ab, c)[n] == mat_product(
        a,
        bc,
    )[n] by {
        let i = n / 3;
        let j = n % 3;
        lemma_entry_product(ab, c, i, j);
        lemma_entry_product(a, bc, i, j);
        assert forall|e: int| coeff(entry_product(ab, c, i, j), e) == coeff(
            entry_product(a, bc, i, j),
            e,
        ) by {
            lemma_mat_index(i, 0);
            lemma_mat_index(i, 1);
            lemma_mat_index(i, 2);
            lemma_mat_index(0, j);
            lemma_mat_index(1, j);
            lemma_mat_index(2, j);
            assert(canonical(c[j]) && canonical(c[3 + j]) && canonical(c[6 + j]));
            lemma_convolution_entry_left(a, b, c[j], i, 0, e);
            lemma_convolution_entry_left(a, b, c[3 + j], i, 1, e);
            lemma_convolution_entry_left(a, b, c[6 + j], i, 2, e);
            lemma_convolution_entry_right(a[3 * i], b, c, 0, j, e);
            lemma_convolution_entry_right(a[3 * i + 1], b, c, 1, j, e);
            lemma_convolution_entry_right(a[3 * i + 2], b, c, 2, j, e);
        }
        lemma_canonical_unique(entry_product(ab, c, i, j), entry_product(a, bc, i, j));
    }
    assert(mat_product(ab, c) =~= mat_product(a, bc));
}

/// The identity is a right unit of the matrix product.
pub proof fn lemma_mat_identity_right(a: Seq<Seq<(int, int)>>)
    requires
        mat_canonical(a),
    ensures
        mat_product(a, mat_identity()) == a,
{
    let id = mat_identity();
    assert forall|n: int| 0 <= n < 9 implies canonical(#[trigger] id[n]) by {}
    assert forall|n: int| 0 <= n < 9 implies #[trigger] mat_product(a, id)[n] == a[n] by {
        let i = n / 3;
        let j = n % 3;
        lemma_entry_product(a, id, i, j);
        assert forall|e: int| coeff(entry_product(a, id, i, j), e) == coeff(a[n], e) by {
            lemma_convolution_one(a[n], e);
            lemma_convolution_empty(a[3 * i], e);
            lemma_convolution_empty(a[3 * i + 1], e);
            lemma_convolution_empty(a[3 * i + 2], e);
            assert(canonical(a[n]));
        }
        assert(canonical(a[n]));
        lemma_canonical_unique(entry_product(a, id, i, j), a[n]);
    }
    assert(mat_product(a, id) =~= a);
}

/// A 3×3 matrix of Laurent polynomials.
#[derive(Debug)]
pub struct PolyMatrix {
    entries: Vec<Polynomial>,
}

impl View for PolyMatrix {
    type V = Seq<Seq<(int, int)>>;

    closed spec fn view(&self) -> Seq<Seq<(int, int)>> {
        self.entries@.map_values(|p: Polynomial| p@)
    }
}

impl PolyMatrix {
    pub open spec fn wf(&self) -> bool {
        mat_canonical(self@)
    }

    /// The matrix with the given nine entries, row-major.
    pub fn from_entries(entries: Vec<Polynomial>) -> (r: PolyMatrix)
        requires
            entries@.len() == 9,
            forall|n: int| 0 <= n < 9 ==> (#[trigger] entries@[n]).wf(),
        ensures
            r.wf(),
            r@ == entries@.map_values(|p: Polynomial| p@),
    {
        let r = PolyMatrix { entries };
        assert forall|n: int| 0 <= n < 9 implies canonical(#[trigger] r@[n]) by {
            assert(r.entries@[n].wf());
        }
        r
    }

    /// The all-zero matrix.
    pub fn zero() -> (r: PolyMatrix)
        ensures
            r.wf(),
            r@ == mat_zero(),
    {
        let mut entries: Vec<Polynomial> = Vec::new();
        let mut n: usize = 0;
        while n < 9
            invariant
                0 <= n <= 9,
                entries@.len() == n,
                forall|m: int| 0 <= m < n ==> (#[trigger] entries@[m])@ == Seq::<(int, int)>::empty(),
            decreases 9 - n,
        {
            entries.push(Polynomial::zero());
            n += 1;
        }
        let r = PolyMatrix { entries };
        assert(r@ =~= mat_zero());
        r
    }

    /// The identity matrix.
    pub fn identity() -> (r: PolyMatrix)
        ensures
            r.wf(),
            r@ == mat_identity(),
    {
        let mut entries: Vec<Polynomial> = Vec::new();
        let mut n: usize = 0;
        while n < 9
            invariant
                0 <= n <= 9,
                entries@.len() == n,
                forall|m: int| 0 <= m < n ==> (#[trigger] entries@[m])@ == mat_identity()[m],
            decreases 9 - n,
        {
            if n == 0 || n == 4 || n == 8 {
                entries.push(Polynomial::one());
            } else {
                entries.push(Polynomial::zero());
            }
            n += 1;
        }
        let r = PolyMatrix { entries };
        assert(r@ =~= mat_identity());
        r
    }

    /// Entry `(i, j)`.
    pub fn get(&self, i: usize, j: usize) -> (r: &Polynomial)
        requires
            self.wf(),
            i < 3,
            j < 3,
        ensures
            r.wf(),
            r@ == self@[3 * i + j],
    {
        assert(canonical(self@[3 * i + j]));
        &self.entries[3 * i + j]
    }

    /// Replaces entry `(i, j)` by `p`.
    pub fn set(&mut self, i: usize, j: usize, p: Polynomial)
        requires
            old(self).wf(),
            p.wf(),
            i < 3,
            j < 3,
        ensures
            final(self).wf(),
            final(self)@ == old(self)@.update(3 * i + j, p@),
    {
        let ghost p_view = p@;
        self.entries.set(3 * i + j, p);
        assert(self@ =~= old(self)@.update(3 * i + j, p_view));
    }

    /// The nine entries, row-major.
    pub fn flatten(&self) -> (r: &[Polynomial])
        ensures
            r@.map_values(|p: Polynomial| p@) == self@,
    {
        self.entries.as_slice()
    }

    /// The matrix product `self·other`.
    pub fn mul(&self, other: &PolyMatrix) -> (r: PolyMatrix)
        requires
            self.wf(),
            other.wf(),
            mat_product_in_range(self@, other@),
        ensures
            r.wf(),
            r@ == mat_product(self@, other@),
    {
        let ghost a = self@;
        let ghost b = other@;
        let mut entries: Vec<Polynomial> = Vec::new();
        let mut i: usize = 0;
        while i < 3
            invariant
                0 <= i <= 3,
                a == self@,
                b == other@,
                self.wf(),
                other.wf(),
                mat_product_in_range(a, b),
                entries@.len() == 3 * i,
                forall|n: int| 0 <= n < 3 * i ==> (#[trigger] entries@[n])@ == mat_product(a, b)[n],
                forall|n: int| 0 <= n < 3 * i ==> (#[trigger] entries@[n]).wf(),
            decreases 3 - i,
        {
            let mut j: usize = 0;
            while j < 3
                invariant
                    0 <= i < 3,
                    0 <= j <= 3,
                    a == self@,
                    b == other@,
                    self.wf(),
                    other.wf(),
                    mat_product_in_range(a, b),
                    entries@.len() == 3 * i + j,
                    forall|n: int|
                        0 <= n < 3 * i + j ==> (#[trigger] entries@[n])@ == mat_product(a, b)[n],
                    forall|n: int| 0 <= n < 3 * i + j ==> (#[trigger] entries@[n]).wf(),
                decreases 3 - j,
            {
                assert(entry_in_range(a, b, i as int, j as int));
                assert(product_in_range(a[3 * i + 0], b[3 * 0 + j]));
                assert(product_in_range(a[3 * i + 1], b[3 * 1 + j]));
                assert(product_in_range(a[3 * i + 2], b[3 * 2 + j]));
                assert(canonical(a[3 * i]) && canonical(a[3 * i + 1]) && canonical(a[3 * i + 2]));
                assert(canonical(b[j as int]) && canonical(b[3 + j]) && canonical(b[6 + j]));
                let p0 = self.entries[3 * i].mul(&other.entries[j]);
                let p1 = self.entries[3 * i + 1].mul(&other.entries[3 + j]);
                let p2 = self.entries[3 * i + 2].mul(&other.entries[6 + j]);
                let s = p0.add(&p1).add(&p2);
                proof {
                    let n = 3 * i + j;
                    assert(n / 3 == i && n % 3 == j);
                }
                entries.push(s);
                j += 1;
            }
            i += 1;
        }
        let r = PolyMatrix { entries };
        assert(r@ =~= mat_product(a, b));
        r
    }
}

impl PartialEq for PolyMatrix {
    fn eq(&self, other: &PolyMatrix) -> (r: bool) {
        if self.entries.len() != other.entries.len() {
            assert(self@.len() != other@.len());
            return false;
        }
        let mut n: usize = 0;
        while n < self.entries.len()
            invariant
                0 <= n <= self.entries@.len(),
                self.entries@.len() == other.entries@.len(),
                forall|m: int| 0 <= m < n ==> self@[m] == other@[m],
            decreases self.entries@.len() - n,
        {
            if self.entries[n] != other.entries[n] {
                assert(self@[n as int] != other@[n as int]);
                return false;
            }
            n += 1;
        }
        assert(self@ =~= other@);
        true
    }
}

impl vstd::std_specs::cmp::PartialEqSpecImpl for PolyMatrix {
    open spec fn obeys_eq_spec() -> bool {
        true
    }

    open spec fn eq_spec(&self, other: &PolyMatrix) -> bool {
        self@ == other@
    }
}

} // verus!
