//! Sparse Laurent polynomials in one variable with integer coefficients.
//!
//! A polynomial is modelled as a sequence of `(exponent, coefficient)` pairs
//! with strictly increasing exponents and no zero coefficient: the canonical
//! form, so that two polynomials are equal exactly when their models are.

use vstd::prelude::*;

verus! {

/// Exponents strictly increase along the sequence.
pub open spec fn increasing(s: Seq<(int, int)>) -> bool {
    forall|i: int, j: int| 0 <= i < j < s.len() ==> #[trigger] s[i].0 < #[trigger] s[j].0
}

/// Canonical sparse form: increasing exponents and no zero coefficient.
pub open spec fn canonical(s: Seq<(int, int)>) -> bool {
    &&& increasing(s)
    &&& forall|i: int| 0 <= i < s.len() ==> #[trigger] s[i].1 != 0
}

/// The coefficient of `x^e` (zero where no term has exponent `e`).
pub open spec fn coeff(s: Seq<(int, int)>, e: int) -> int
    decreases s.len(),
{
    if s.len() == 0 {
        0
    } else if s[0].0 == e {
        s[0].1
    } else {
        coeff(s.drop_first(), e)
    }
}

/// Every exponent of `s` is at least `lo`.
pub open spec fn exponents_from(s: Seq<(int, int)>, lo: int) -> bool {
    forall|i: int| 0 <= i < s.len() ==> lo <= #[trigger] s[i].0
}

proof fn lemma_coeff_below(s: Seq<(int, int)>, e: int)
    requires
        exponents_from(s, e + 1),
    ensures
        coeff(s, e) == 0,
    decreases s.len(),
{
    if s.len() > 0 {
        lemma_coeff_below(s.drop_first(), e);
    }
}

proof fn lemma_canonical_tail(s: Seq<(int, int)>)
    requires
        canonical(s),
        s.len() > 0,
    ensures
        canonical(s.drop_first()),
        exponents_from(s.drop_first(), s[0].0 + 1),
{
    assert forall|i: int| 0 <= i < s.drop_first().len() implies s[0].0 + 1
        <= #[trigger] s.drop_first()[i].0 by {
        assert(s[0].0 < s[i + 1].0);
    }
    assert forall|i: int, j: int| 0 <= i < j < s.drop_first().len() implies #[trigger] s.drop_first()[i].0
        < #[trigger] s.drop_first()[j].0 by {
        assert(s[i + 1].0 < s[j + 1].0);
    }
}

/// Two canonical sequences with the same coefficients are the same sequence.
pub proof fn lemma_canonical_unique(s: Seq<(int, int)>, t: Seq<(int, int)>)
    requires
        canonical(s),
        canonical(t),
        forall|e: int| coeff(s, e) == coeff(t, e),
    ensures
        s == t,
    decreases s.len() + t.len(),
{
    if s.len() == 0 && t.len() == 0 {
        assert(s =~= t);
    } else if s.len() == 0 {
        assert(coeff(t, t[0].0) == t[0].1);
        assert(coeff(s, t[0].0) == 0);
    } else if t.len() == 0 {
        assert(coeff(s, s[0].0) == s[0].1);
        assert(coeff(t, s[0].0) == 0);
    } else {
        lemma_canonical_tail(s);
        lemma_canonical_tail(t);
        if s[0].0 < t[0].0 {
            lemma_coeff_below(t.drop_first(), s[0].0);
            assert(coeff(s, s[0].0) == s[0].1);
            assert(coeff(t, s[0].0) == 0);
        } else if t[0].0 < s[0].0 {
            lemma_coeff_below(s.drop_first(), t[0].0);
            assert(coeff(t, t[0].0) == t[0].1);
            assert(coeff(s, t[0].0) == 0);
        } else {
            assert(coeff(s, s[0].0) == s[0].1);
            assert(coeff(t, s[0].0) == t[0].1);
            lemma_coeff_below(s.drop_first(), s[0].0);
            lemma_coeff_below(t.drop_first(), s[0].0);
            assert forall|e: int| coeff(s.drop_first(), e) == coeff(t.drop_first(), e) by {
                if e != s[0].0 {
                    assert(coeff(s, e) == coeff(s.drop_first(), e));
                    assert(coeff(t, e) == coeff(t.drop_first(), e));
                }
            }
            lemma_canonical_unique(s.drop_first(), t.drop_first());
            assert(s =~= seq![s[0]] + s.drop_first());
            assert(t =~= seq![t[0]] + t.drop_first());
        }
    }
}


proof fn lemma_canonical_first(s: Seq<(int, int)>)
    requires
        canonical(s),
        s.len() > 0,
    ensures
        exponents_from(s, s[0].0),
{
    assert forall|i: int| 0 <= i < s.len() implies s[0].0 <= #[trigger] s[i].0 by {
        if i > 0 {
            assert(s[0].0 < s[i].0);
        }
    }
}

proof fn lemma_coeff_cons(x: (int, int), rest: Seq<(int, int)>, e: int)
    ensures
        coeff(seq![x] + rest, e) == if x.0 == e { x.1 } else { coeff(rest, e) },
{
    assert((seq![x] + rest).drop_first() =~= rest);
}

proof fn lemma_canonical_cons(x: (int, int), rest: Seq<(int, int)>)
    requires
        canonical(rest),
        exponents_from(rest, x.0 + 1),
        x.1 != 0,
    ensures
        canonical(seq![x] + rest),
{
    let s = seq![x] + rest;
    assert forall|i: int, j: int| 0 <= i < j < s.len() implies #[trigger] s[i].0 < #[trigger] s[j].0 by {
        if i > 0 {
            assert(rest[i - 1].0 < rest[j - 1].0);
        } else {
            assert(x.0 + 1 <= rest[j - 1].0);
        }
    }
    assert forall|i: int| 0 <= i < s.len() implies #[trigger] s[i].1 != 0 by {
        if i > 0 {
            assert(rest[i - 1].1 != 0);
        }
    }
}

/// The sum of two polynomials: the terms of both merged by exponent, equal
/// exponents added, and a term whose coefficients cancel left out.
pub open spec fn sum_terms(a: Seq<(int, int)>, b: Seq<(int, int)>) -> Seq<(int, int)>
    decreases a.len() + b.len(),
{
    if a.len() == 0 {
        b
    } else if b.len() == 0 {
        a
    } else if a[0].0 < b[0].0 {
        seq![a[0]] + sum_terms(a.drop_first(), b)
    } else if b[0].0 < a[0].0 {
        seq![b[0]] + sum_terms(a, b.drop_first())
    } else if a[0].1 + b[0].1 == 0 {
        sum_terms(a.drop_first(), b.drop_first())
    } else {
        seq![(a[0].0, a[0].1 + b[0].1)] + sum_terms(a.drop_first(), b.drop_first())
    }
}

/// The sum is canonical and adds coefficients exponent by exponent.
pub proof fn lemma_sum(a: Seq<(int, int)>, b: Seq<(int, int)>)
    requires
        canonical(a),
        canonical(b),
    ensures
        canonical(sum_terms(a, b)),
        forall|e: int| #[trigger] coeff(sum_terms(a, b), e) == coeff(a, e) + coeff(b, e),
        forall|lo: int|
            exponents_from(a, lo) && exponents_from(b, lo) ==> #[trigger] exponents_from(
                sum_terms(a, b),
                lo,
            ),
    decreases a.len() + b.len(),
{
    let s = sum_terms(a, b);
    if a.len() == 0 {
        assert forall|e: int| #[trigger] coeff(sum_terms(a, b), e) == coeff(a, e) + coeff(b, e) by {}
    } else if b.len() == 0 {
        assert forall|e: int| #[trigger] coeff(sum_terms(a, b), e) == coeff(a, e) + coeff(b, e) by {}
    } else {
        lemma_canonical_tail(a);
        lemma_canonical_tail(b);
        lemma_canonical_first(a);
        lemma_canonical_first(b);
        if a[0].0 < b[0].0 {
            let r = sum_terms(a.drop_first(), b);
            lemma_sum(a.drop_first(), b);
            assert(exponents_from(b, a[0].0 + 1));
            assert(exponents_from(r, a[0].0 + 1));
            lemma_canonical_cons(a[0], r);
            assert forall|e: int| #[trigger] coeff(sum_terms(a, b), e) == coeff(a, e) + coeff(b, e) by {
                lemma_coeff_cons(a[0], r, e);
                if e == a[0].0 {
                    lemma_coeff_below(b, e);
                    lemma_coeff_below(a.drop_first(), e);
                }
            }
            assert forall|lo: int| exponents_from(a, lo) && exponents_from(b, lo) implies #[trigger] exponents_from(
                sum_terms(a, b),
                lo,
            ) by {
                assert(exponents_from(a.drop_first(), lo));
                assert(exponents_from(r, lo));
            }
        } else if b[0].0 < a[0].0 {
            let r = sum_terms(a, b.drop_first());
            lemma_sum(a, b.drop_first());
            assert(exponents_from(a, b[0].0 + 1));
            assert(exponents_from(r, b[0].0 + 1));
            lemma_canonical_cons(b[0], r);
            assert forall|e: int| #[trigger] coeff(sum_terms(a, b), e) == coeff(a, e) + coeff(b, e) by {
                lemma_coeff_cons(b[0], r, e);
                if e == b[0].0 {
                    lemma_coeff_below(a, e);
                    lemma_coeff_below(b.drop_first(), e);
                }
            }
            assert forall|lo: int| exponents_from(a, lo) && exponents_from(b, lo) implies #[trigger] exponents_from(
                sum_terms(a, b),
                lo,
            ) by {
                assert(exponents_from(b.drop_first(), lo));
                assert(exponents_from(r, lo));
            }
        } else {
            let r = sum_terms(a.drop_first(), b.drop_first());
            lemma_sum(a.drop_first(), b.drop_first());
            assert(exponents_from(r, a[0].0 + 1));
            let x = (a[0].0, a[0].1 + b[0].1);
            if a[0].1 + b[0].1 != 0 {
                lemma_canonical_cons(x, r);
            }
            assert forall|e: int| #[trigger] coeff(sum_terms(a, b), e) == coeff(a, e) + coeff(b, e) by {
                if a[0].1 + b[0].1 != 0 {
                    lemma_coeff_cons(x, r, e);
                }
                if e == a[0].0 {
                    lemma_coeff_below(a.drop_first(), e);
                    lemma_coeff_below(b.drop_first(), e);
                    lemma_coeff_below(r, e);
                }
            }
            assert forall|lo: int| exponents_from(a, lo) && exponents_from(b, lo) implies #[trigger] exponents_from(
                sum_terms(a, b),
                lo,
            ) by {
                assert(exponents_from(a.drop_first(), lo));
                assert(exponents_from(b.drop_first(), lo));
                assert(exponents_from(r, lo));
            }
        }
    }
}


/// Every coefficient negated.
pub open spec fn negate_terms(a: Seq<(int, int)>) -> Seq<(int, int)> {
    a.map_values(|t: (int, int)| (t.0, -t.1))
}

/// `a` multiplied by the monomial `c·x^k`.
pub open spec fn scale_terms(a: Seq<(int, int)>, k: int, c: int) -> Seq<(int, int)> {
    a.map_values(|t: (int, int)| (t.0 + k, c * t.1))
}

pub proof fn lemma_negate(a: Seq<(int, int)>)
    requires
        canonical(a),
    ensures
        canonical(negate_terms(a)),
        forall|e: int| #[trigger] coeff(negate_terms(a), e) == -coeff(a, e),
    decreases a.len(),
{
    let n = negate_terms(a);
    assert forall|i: int, j: int| 0 <= i < j < n.len() implies #[trigger] n[i].0 < #[trigger] n[j].0 by {
        assert(a[i].0 < a[j].0);
    }
    assert forall|i: int| 0 <= i < n.len() implies #[trigger] n[i].1 != 0 by {
        assert(a[i].1 != 0);
    }
    if a.len() > 0 {
        lemma_canonical_tail(a);
        lemma_negate(a.drop_first());
        assert(n.drop_first() =~= negate_terms(a.drop_first()));
    }
    assert forall|e: int| #[trigger] coeff(n, e) == -coeff(a, e) by {
        if a.len() > 0 && a[0].0 != e {
            assert(coeff(n, e) == coeff(n.drop_first(), e));
        }
    }
}

pub proof fn lemma_scale(a: Seq<(int, int)>, k: int, c: int)
    requires
        canonical(a),
        c != 0,
    ensures
        canonical(scale_terms(a, k, c)),
        forall|e: int| #[trigger] coeff(scale_terms(a, k, c), e) == c * coeff(a, e - k),
        forall|lo: int| #[trigger] exponents_from(a, lo) ==> exponents_from(scale_terms(a, k, c), lo + k),
    decreases a.len(),
{
    let n = scale_terms(a, k, c);
    assert forall|i: int, j: int| 0 <= i < j < n.len() implies #[trigger] n[i].0 < #[trigger] n[j].0 by {
        assert(a[i].0 < a[j].0);
    }
    assert forall|i: int| 0 <= i < n.len() implies #[trigger] n[i].1 != 0 by {
        assert(a[i].1 != 0);
        assert(c * a[i].1 != 0) by (nonlinear_arith)
            requires
                c != 0,
                a[i].1 != 0,
        ;
    }
    assert forall|lo: int| #[trigger] exponents_from(a, lo) implies exponents_from(n, lo + k) by {
        assert forall|i: int| 0 <= i < n.len() implies lo + k <= #[trigger] n[i].0 by {
            assert(lo <= a[i].0);
        }
    }
    if a.len() > 0 {
        lemma_canonical_tail(a);
        lemma_scale(a.drop_first(), k, c);
        assert(n.drop_first() =~= scale_terms(a.drop_first(), k, c));
    }
    assert forall|e: int| #[trigger] coeff(n, e) == c * coeff(a, e - k) by {
        if a.len() == 0 {
            assert(c * 0 == 0);
        } else if a[0].0 + k != e {
            assert(coeff(n, e) == coeff(n.drop_first(), e));
        }
    }
}

/// The coefficient of `x^e` in the product of `a` and `b`: the sum, over the
/// terms `c·x^k` of `a`, of `c` times the coefficient of `x^(e-k)` in `b`.
pub open spec fn convolution(a: Seq<(int, int)>, b: Seq<(int, int)>, e: int) -> int
    decreases a.len(),
{
    if a.len() == 0 {
        0
    } else {
        a[0].1 * coeff(b, e - a[0].0) + convolution(a.drop_first(), b, e)
    }
}

/// The product of two polynomials, built up term by term of `a`.
pub open spec fn product_terms(a: Seq<(int, int)>, b: Seq<(int, int)>) -> Seq<(int, int)>
    decreases a.len(),
{
    if a.len() == 0 {
        seq![]
    } else {
        sum_terms(product_terms(a.drop_last(), b), scale_terms(b, a.last().0, a.last().1))
    }
}

proof fn lemma_convolution_last(a: Seq<(int, int)>, b: Seq<(int, int)>, e: int)
    requires
        a.len() > 0,
    ensures
        convolution(a, b, e) == convolution(a.drop_last(), b, e) + a.last().1 * coeff(
            b,
            e - a.last().0,
        ),
    decreases a.len(),
{
    if a.len() > 1 {
        lemma_convolution_last(a.drop_first(), b, e);
        assert(a.drop_first().drop_last() =~= a.drop_last().drop_first());
        assert(a.drop_first().last() == a.last());
        assert(a.drop_last()[0] == a[0]);
        let l = a.drop_last();
        assert(convolution(l, b, e) == l[0].1 * coeff(b, e - l[0].0) + convolution(
            l.drop_first(),
            b,
            e,
        ));
        assert(convolution(a, b, e) == a[0].1 * coeff(b, e - a[0].0) + convolution(
            a.drop_first(),
            b,
            e,
        ));
    } else {
        assert(convolution(a.drop_first(), b, e) == 0);
        assert(convolution(a.drop_last(), b, e) == 0);
        assert(a.last() == a[0]);
    }
}

proof fn lemma_canonical_prefix(a: Seq<(int, int)>, n: int)
    requires
        canonical(a),
        0 <= n <= a.len(),
    ensures
        canonical(a.take(n)),
{
    assert forall|i: int, j: int| 0 <= i < j < a.take(n).len() implies #[trigger] a.take(n)[i].0
        < #[trigger] a.take(n)[j].0 by {
        assert(a[i].0 < a[j].0);
    }
    assert forall|i: int| 0 <= i < a.take(n).len() implies #[trigger] a.take(n)[i].1 != 0 by {
        assert(a[i].1 != 0);
    }
}

/// The product is canonical and its coefficients are the convolution.
pub proof fn lemma_product(a: Seq<(int, int)>, b: Seq<(int, int)>)
    requires
        canonical(a),
        canonical(b),
    ensures
        canonical(product_terms(a, b)),
        forall|e: int| #[trigger] coeff(product_terms(a, b), e) == convolution(a, b, e),
    decreases a.len(),
{
    if a.len() > 0 {
        lemma_canonical_prefix(a, a.len() - 1);
        assert(a.drop_last() =~= a.take(a.len() - 1));
        assert(a.last().1 != 0);
        lemma_product(a.drop_last(), b);
        lemma_scale(b, a.last().0, a.last().1);
        lemma_sum(product_terms(a.drop_last(), b), scale_terms(b, a.last().0, a.last().1));
        assert forall|e: int| #[trigger] coeff(product_terms(a, b), e) == convolution(a, b, e) by {
            lemma_convolution_last(a, b, e);
        }
    }
}


proof fn lemma_coeff_at(s: Seq<(int, int)>, i: int)
    requires
        canonical(s),
        0 <= i < s.len(),
    ensures
        coeff(s, s[i].0) == s[i].1,
    decreases i,
{
    if i > 0 {
        lemma_canonical_tail(s);
        assert(s.drop_first()[i - 1] == s[i]);
        lemma_coeff_at(s.drop_first(), i - 1);
        assert(s[0].0 < s[i].0);
    }
}

pub open spec fn fits_i64(x: int) -> bool {
    i64::MIN <= x <= i64::MAX
}

pub open spec fn fits_i32(x: int) -> bool {
    i32::MIN <= x <= i32::MAX
}

/// Every coefficient of the sum of `a` and `b` fits in an `i64`.
pub open spec fn sum_in_range(a: Seq<(int, int)>, b: Seq<(int, int)>) -> bool {
    forall|e: int| #[trigger] fits_i64(coeff(a, e) + coeff(b, e))
}

/// Every exponent and every coefficient met while building the product of
/// `a` and `b` term by term (see `product_terms`) fits in its machine type.
pub open spec fn product_in_range(a: Seq<(int, int)>, b: Seq<(int, int)>) -> bool {
    &&& forall|i: int, j: int|
        0 <= i < a.len() && 0 <= j < b.len() ==> fits_i32(#[trigger] a[i].0 + #[trigger] b[j].0)
            && fits_i64(a[i].1 * b[j].1)
    &&& forall|n: int|
        0 <= n < a.len() ==> sum_in_range(
            #[trigger] product_terms(a.take(n), b),
            scale_terms(b, a[n].0, a[n].1),
        )
}

pub proof fn lemma_convolution_sum_right(p: Seq<(int, int)>, q: Seq<(int, int)>, r: Seq<(int, int)>, e: int)
    requires
        canonical(q),
        canonical(r),
    ensures
        convolution(p, sum_terms(q, r), e) == convolution(p, q, e) + convolution(p, r, e),
    decreases p.len(),
{
    if p.len() > 0 {
        lemma_sum(q, r);
        lemma_convolution_sum_right(p.drop_first(), q, r, e);
        let c = p[0].1;
        let x = coeff(q, e - p[0].0);
        let y = coeff(r, e - p[0].0);
        assert(c * (x + y) == c * x + c * y) by (nonlinear_arith);
    }
}

pub proof fn lemma_convolution_sum_left(p: Seq<(int, int)>, q: Seq<(int, int)>, r: Seq<(int, int)>, e: int)
    ensures
        convolution(sum_terms(p, q), r, e) == convolution(p, r, e) + convolution(q, r, e),
    decreases p.len() + q.len(),
{
    if p.len() == 0 {
        assert(convolution(p, r, e) == 0);
    } else if q.len() == 0 {
        assert(convolution(q, r, e) == 0);
    } else if p[0].0 < q[0].0 {
        lemma_convolution_sum_left(p.drop_first(), q, r, e);
        let s = seq![p[0]] + sum_terms(p.drop_first(), q);
        assert(s.drop_first() =~= sum_terms(p.drop_first(), q));
    } else if q[0].0 < p[0].0 {
        lemma_convolution_sum_left(p, q.drop_first(), r, e);
        let s = seq![q[0]] + sum_terms(p, q.drop_first());
        assert(s.drop_first() =~= sum_terms(p, q.drop_first()));
    } else {
        lemma_convolution_sum_left(p.drop_first(), q.drop_first(), r, e);
        let x = coeff(r, e - p[0].0);
        assert((p[0].1 + q[0].1) * x == p[0].1 * x + q[0].1 * x) by (nonlinear_arith);
        if p[0].1 + q[0].1 != 0 {
            let s = seq![(p[0].0, p[0].1 + q[0].1)] + sum_terms(p.drop_first(), q.drop_first());
            assert(s.drop_first() =~= sum_terms(p.drop_first(), q.drop_first()));
        } else {
            let z = p[0].1 + q[0].1;
            assert(z * x == 0) by (nonlinear_arith)
                requires
                    z == 0,
            ;
        }
    }
}

pub proof fn lemma_convolution_one(p: Seq<(int, int)>, e: int)
    requires
        canonical(p),
    ensures
        convolution(p, seq![(0int, 1int)], e) == coeff(p, e),
    decreases p.len(),
{
    let one = seq![(0int, 1int)];
    if p.len() > 0 {
        lemma_canonical_tail(p);
        lemma_convolution_one(p.drop_first(), e);
        assert(one.drop_first().len() == 0);
        assert(coeff(one, e - p[0].0) == if e - p[0].0 == 0 {
            1int
        } else {
            coeff(one.drop_first(), e - p[0].0)
        });
        assert(coeff(one.drop_first(), e - p[0].0) == 0);
        assert(convolution(p, one, e) == p[0].1 * coeff(one, e - p[0].0) + convolution(
            p.drop_first(),
            one,
            e,
        ));
        if p[0].0 == e {
            lemma_coeff_below(p.drop_first(), e);
            assert(p[0].1 * 1 == p[0].1);
        } else {
            assert(p[0].1 * 0 == 0);
        }
    }
}

/// Addition is commutative.
pub proof fn lemma_add_commutative(p: Seq<(int, int)>, q: Seq<(int, int)>)
    requires
        canonical(p),
        canonical(q),
    ensures
        sum_terms(p, q) == sum_terms(q, p),
{
    lemma_sum(p, q);
    lemma_sum(q, p);
    lemma_canonical_unique(sum_terms(p, q), sum_terms(q, p));
}

/// Addition is associative.
pub proof fn lemma_add_associative(p: Seq<(int, int)>, q: Seq<(int, int)>, r: Seq<(int, int)>)
    requires
        canonical(p),
        canonical(q),
        canonical(r),
    ensures
        sum_terms(sum_terms(p, q), r) == sum_terms(p, sum_terms(q, r)),
{
    lemma_sum(p, q);
    lemma_sum(q, r);
    lemma_sum(sum_terms(p, q), r);
    lemma_sum(p, sum_terms(q, r));
    lemma_canonical_unique(sum_terms(sum_terms(p, q), r), sum_terms(p, sum_terms(q, r)));
}

/// A polynomial plus its negation is the zero polynomial.
pub proof fn lemma_add_negation(p: Seq<(int, int)>)
    requires
        canonical(p),
    ensures
        sum_terms(p, negate_terms(p)) == Seq::<(int, int)>::empty(),
{
    lemma_negate(p);
    lemma_sum(p, negate_terms(p));
    lemma_canonical_unique(sum_terms(p, negate_terms(p)), Seq::<(int, int)>::empty());
}

/// Multiplication distributes over addition from the left:
/// `p·(q + r) == p·q + p·r`.
pub proof fn lemma_mul_distributes_left(p: Seq<(int, int)>, q: Seq<(int, int)>, r: Seq<(int, int)>)
    requires
        canonical(p),
        canonical(q),
        canonical(r),
    ensures
        product_terms(p, sum_terms(q, r)) == sum_terms(product_terms(p, q), product_terms(p, r)),
{
    lemma_sum(q, r);
    lemma_product(p, sum_terms(q, r));
    lemma_product(p, q);
    lemma_product(p, r);
    lemma_sum(product_terms(p, q), product_terms(p, r));
    assert forall|e: int| coeff(product_terms(p, sum_terms(q, r)), e) == coeff(
        sum_terms(product_terms(p, q), product_terms(p, r)),
        e,
    ) by {
        lemma_convolution_sum_right(p, q, r, e);
    }
    lemma_canonical_unique(
        product_terms(p, sum_terms(q, r)),
        sum_terms(product_terms(p, q), product_terms(p, r)),
    );
}

/// Multiplication distributes over addition from the right:
/// `(p + q)·r == p·r + q·r`.
pub proof fn lemma_mul_distributes_right(p: Seq<(int, int)>, q: Seq<(int, int)>, r: Seq<(int, int)>)
    requires
        canonical(p),
        canonical(q),
        canonical(r),
    ensures
        product_terms(sum_terms(p, q), r) == sum_terms(product_terms(p, r), product_terms(q, r)),
{
    lemma_sum(p, q);
    lemma_product(sum_terms(p, q), r);
    lemma_product(p, r);
    lemma_product(q, r);
    lemma_sum(product_terms(p, r), product_terms(q, r));
    assert forall|e: int| coeff(product_terms(sum_terms(p, q), r), e) == coeff(
        sum_terms(product_terms(p, r), product_terms(q, r)),
        e,
    ) by {
        lemma_convolution_sum_left(p, q, r, e);
    }
    lemma_canonical_unique(
        product_terms(sum_terms(p, q), r),
        sum_terms(product_terms(p, r), product_terms(q, r)),
    );
}

/// One is a right identity of multiplication: `p·1 == p`.
pub proof fn lemma_mul_one(p: Seq<(int, int)>)
    requires
        canonical(p),
    ensures
        product_terms(p, seq![(0int, 1int)]) == p,
{
    let one = seq![(0int, 1int)];
    lemma_product(p, one);
    assert forall|e: int| coeff(product_terms(p, one), e) == coeff(p, e) by {
        lemma_convolution_one(p, e);
    }
    lemma_canonical_unique(product_terms(p, one), p);
}

proof fn lemma_convolution_scale(b: Seq<(int, int)>, k: int, x: int, c: Seq<(int, int)>, e: int)
    ensures
        convolution(scale_terms(b, k, x), c, e) == x * convolution(b, c, e - k),
    decreases b.len(),
{
    let sb = scale_terms(b, k, x);
    if b.len() == 0 {
        assert(x * 0 == 0);
    } else {
        assert(sb.drop_first() =~= scale_terms(b.drop_first(), k, x));
        lemma_convolution_scale(b.drop_first(), k, x, c, e);
        let y = coeff(c, e - k - b[0].0);
        let r = convolution(b.drop_first(), c, e - k);
        assert(sb[0] == (b[0].0 + k, x * b[0].1));
        assert(e - sb[0].0 == e - k - b[0].0);
        assert((x * b[0].1) * y + x * r == x * (b[0].1 * y + r)) by (nonlinear_arith);
    }
}

pub proof fn lemma_convolution_empty(a: Seq<(int, int)>, e: int)
    ensures
        convolution(a, Seq::<(int, int)>::empty(), e) == 0,
    decreases a.len(),
{
    if a.len() > 0 {
        lemma_convolution_empty(a.drop_first(), e);
        assert(a[0].1 * 0 == 0);
    }
}

/// Multiplying by `a·b` and then by `c` has the coefficients of multiplying
/// `a` by `b·c`.
pub proof fn lemma_convolution_associative(
    a: Seq<(int, int)>,
    b: Seq<(int, int)>,
    c: Seq<(int, int)>,
    e: int,
)
    requires
        canonical(b),
        canonical(c),
    ensures
        convolution(product_terms(a, b), c, e) == convolution(a, product_terms(b, c), e),
    decreases a.len(),
{
    if a.len() == 0 {
        assert(convolution(product_terms(a, b), c, e) == 0);
    } else {
        let k = a.last().0;
        let x = a.last().1;
        lemma_convolution_associative(a.drop_last(), b, c, e);
        lemma_convolution_sum_left(product_terms(a.drop_last(), b), scale_terms(b, k, x), c, e);
        lemma_convolution_scale(b, k, x, c, e);
        lemma_convolution_last(a, product_terms(b, c), e);
        lemma_product(b, c);
    }
}

/// Multiplication is associative.
pub proof fn lemma_mul_associative(p: Seq<(int, int)>, q: Seq<(int, int)>, r: Seq<(int, int)>)
    requires
        canonical(p),
        canonical(q),
        canonical(r),
    ensures
        product_terms(product_terms(p, q), r) == product_terms(p, product_terms(q, r)),
{
    lemma_product(p, q);
    lemma_product(q, r);
    lemma_product(product_terms(p, q), r);
    lemma_product(p, product_terms(q, r));
    assert forall|e: int| coeff(product_terms(product_terms(p, q), r), e) == coeff(
        product_terms(p, product_terms(q, r)),
        e,
    ) by {
        lemma_convolution_associative(p, q, r, e);
    }
    lemma_canonical_unique(product_terms(product_terms(p, q), r), product_terms(p, product_terms(q, r)));
}

/// A single term as a polynomial: nothing when its coefficient is zero.
pub open spec fn single(t: (int, int)) -> Seq<(int, int)> {
    if t.1 == 0 {
        seq![]
    } else {
        seq![t]
    }
}

/// The polynomial given by a list of terms in any order, where terms with
/// the same exponent add up.
pub open spec fn list_terms(s: Seq<(int, int)>) -> Seq<(int, int)>
    decreases s.len(),
{
    if s.len() == 0 {
        seq![]
    } else {
        sum_terms(list_terms(s.drop_last()), single(s.last()))
    }
}

/// The sum of the coefficients of the listed terms with exponent `e`.
pub open spec fn list_coeff(s: Seq<(int, int)>, e: int) -> int
    decreases s.len(),
{
    if s.len() == 0 {
        0
    } else {
        list_coeff(s.drop_last(), e) + if s.last().0 == e {
            s.last().1
        } else {
            0
        }
    }
}

/// Every partial sum met while adding up a list of terms fits in an `i64`.
pub open spec fn list_in_range(s: Seq<(int, int)>) -> bool {
    forall|n: int| 0 <= n < s.len() ==> sum_in_range(#[trigger] list_terms(s.take(n)), single(s[n]))
}

pub proof fn lemma_list(s: Seq<(int, int)>)
    ensures
        canonical(list_terms(s)),
        forall|e: int| #[trigger] coeff(list_terms(s), e) == list_coeff(s, e),
    decreases s.len(),
{
    if s.len() > 0 {
        lemma_list(s.drop_last());
        let t = single(s.last());
        assert forall|e: int| #[trigger] coeff(t, e) == if s.last().0 == e {
            s.last().1
        } else {
            0
        } by {
            if s.last().1 != 0 {
                assert(t[0] == s.last());
                assert(t.drop_first().len() == 0);
                assert(coeff(t, e) == if t[0].0 == e {
                    t[0].1
                } else {
                    coeff(t.drop_first(), e)
                });
            }
        }
        lemma_sum(list_terms(s.drop_last()), t);
    }
}

/// The model of a list of machine terms.
pub open spec fn terms_view(v: Seq<(i32, i64)>) -> Seq<(int, int)> {
    v.map_values(|t: (i32, i64)| (t.0 as int, t.1 as int))
}

/// A Laurent polynomial with `i64` coefficients, kept in canonical form.
#[derive(Debug)]
pub struct Polynomial {
    terms: Vec<(i32, i64)>,
}

impl View for Polynomial {
    type V = Seq<(int, int)>;

    closed spec fn view(&self) -> Seq<(int, int)> {
        terms_view(self.terms@)
    }
}

impl Polynomial {
    pub open spec fn wf(&self) -> bool {
        canonical(self@)
    }

    /// The polynomial with no terms.
    pub fn zero() -> (r: Polynomial)
        ensures
            r.wf(),
            r@ == Seq::<(int, int)>::empty(),
    {
        let r = Polynomial { terms: Vec::new() };
        assert(r@ =~= Seq::<(int, int)>::empty());
        r
    }

    /// The term `coefficient·x^exponent`; no term at all when the coefficient is zero.
    pub fn monomial(exponent: i32, coefficient: i64) -> (r: Polynomial)
        ensures
            r.wf(),
            r@ == if coefficient == 0 {
                Seq::<(int, int)>::empty()
            } else {
                seq![(exponent as int, coefficient as int)]
            },
    {
        let mut terms: Vec<(i32, i64)> = Vec::new();
        if coefficient != 0 {
            terms.push((exponent, coefficient));
        }
        let r = Polynomial { terms };
        assert(r@ =~= if coefficient == 0 {
            Seq::<(int, int)>::empty()
        } else {
            seq![(exponent as int, coefficient as int)]
        });
        r
    }

    /// The polynomial whose terms are given in increasing order of exponent,
    /// with no zero coefficient.
    pub fn from_sorted_terms(terms: Vec<(i32, i64)>) -> (r: Polynomial)
        requires
            canonical(terms_view(terms@)),
        ensures
            r.wf(),
            r@ == terms_view(terms@),
    {
        Polynomial { terms }
    }

    /// The constant polynomial one.
    pub fn one() -> (r: Polynomial)
        ensures
            r.wf(),
            r@ == seq![(0int, 1int)],
    {
        Polynomial::monomial(0, 1)
    }

    /// The terms in increasing order of exponent.
    pub fn terms(&self) -> (r: &[(i32, i64)])
        ensures
            terms_view(r@) == self@,
    {
        self.terms.as_slice()
    }

    /// Whether this is the zero polynomial.
    pub fn is_zero(&self) -> (r: bool)
        ensures
            r == (self@.len() == 0),
    {
        self.terms.len() == 0
    }

    /// The coefficient of `x^exponent`.
    pub fn coefficient(&self, exponent: i32) -> (r: i64)
        requires
            self.wf(),
        ensures
            r == coeff(self@, exponent as int),
    {
        let mut i: usize = 0;
        assert(self@.skip(0) =~= self@);
        while i < self.terms.len()
            invariant
                0 <= i <= self.terms@.len(),
                self.wf(),
                coeff(self@, exponent as int) == coeff(self@.skip(i as int), exponent as int),
            decreases self.terms@.len() - i,
        {
            proof {
                assert(self@.skip(i as int).drop_first() =~= self@.skip(i as int + 1));
            }
            if self.terms[i].0 == exponent {
                return self.terms[i].1;
            }
            i += 1;
        }
        0
    }

    /// The sum of two polynomials.
    pub fn add(&self, other: &Polynomial) -> (r: Polynomial)
        requires
            self.wf(),
            other.wf(),
            sum_in_range(self@, other@),
        ensures
            r.wf(),
            r@ == sum_terms(self@, other@),
            forall|e: int| #[trigger] coeff(r@, e) == coeff(self@, e) + coeff(other@, e),
    {
        let a = &self.terms;
        let b = &other.terms;
        let ghost sa = self@;
        let ghost sb = other@;
        let mut out: Vec<(i32, i64)> = Vec::new();
        let mut i: usize = 0;
        let mut j: usize = 0;
        assert(sa.skip(0) =~= sa);
        assert(sb.skip(0) =~= sb);
        while i < a.len() || j < b.len()
            invariant
                0 <= i <= a@.len(),
                0 <= j <= b@.len(),
                sa == terms_view(a@),
                sb == terms_view(b@),
                canonical(sa),
                canonical(sb),
                sum_in_range(sa, sb),
                terms_view(out@) + sum_terms(sa.skip(i as int), sb.skip(j as int)) == sum_terms(
                    sa,
                    sb,
                ),
            decreases a@.len() + b@.len() - i - j,
        {
            let ghost xa = sa.skip(i as int);
            let ghost xb = sb.skip(j as int);
            let ghost before = terms_view(out@);
            if j == b.len() || (i < a.len() && a[i].0 < b[j].0) {
                proof {
                    assert(xa.drop_first() =~= sa.skip(i + 1));
                    if xb.len() == 0 {
                        assert(sum_terms(xa.drop_first(), xb) == xa.drop_first());
                        assert(xa =~= seq![xa[0]] + xa.drop_first());
                    }
                    assert(sum_terms(xa, xb) == seq![xa[0]] + sum_terms(xa.drop_first(), xb));
                }
                out.push(a[i]);
                i += 1;
                proof {
                    assert(terms_view(out@) =~= before.push(xa[0]));
                    assert(terms_view(out@) + sum_terms(sa.skip(i as int), sb.skip(j as int))
                        =~= before + sum_terms(xa, xb));
                }
            } else if i == a.len() || b[j].0 < a[i].0 {
                proof {
                    assert(xb.drop_first() =~= sb.skip(j + 1));
                    assert(sum_terms(xa, xb) == seq![xb[0]] + sum_terms(xa, xb.drop_first()));
                }
                out.push(b[j]);
                j += 1;
                proof {
                    assert(terms_view(out@) =~= before.push(xb[0]));
                    assert(terms_view(out@) + sum_terms(sa.skip(i as int), sb.skip(j as int))
                        =~= before + sum_terms(xa, xb));
                }
            } else {
                proof {
                    assert(xa.drop_first() =~= sa.skip(i + 1));
                    assert(xb.drop_first() =~= sb.skip(j + 1));
                    lemma_coeff_at(sa, i as int);
                    lemma_coeff_at(sb, j as int);
                    assert(fits_i64(coeff(sa, sa[i as int].0) + coeff(sb, sa[i as int].0)));
                }
                let c = a[i].1 + b[j].1;
                if c != 0 {
                    out.push((a[i].0, c));
                }
                i += 1;
                j += 1;
                proof {
                    if c != 0 {
                        assert(terms_view(out@) =~= before.push((xa[0].0, xa[0].1 + xb[0].1)));
                    } else {
                        assert(terms_view(out@) =~= before);
                    }
                    assert(terms_view(out@) + sum_terms(sa.skip(i as int), sb.skip(j as int))
                        =~= before + sum_terms(xa, xb));
                }
            }
        }
        proof {
            assert(sa.skip(i as int).len() == 0);
            assert(sb.skip(j as int).len() == 0);
            assert(terms_view(out@) =~= terms_view(out@) + sum_terms(
                sa.skip(i as int),
                sb.skip(j as int),
            ));
            lemma_sum(sa, sb);
        }
        Polynomial { terms: out }
    }

    /// The negated polynomial.
    pub fn neg(&self) -> (r: Polynomial)
        requires
            self.wf(),
            forall|i: int| 0 <= i < self@.len() ==> fits_i64(-#[trigger] self@[i].1),
        ensures
            r.wf(),
            r@ == negate_terms(self@),
            forall|e: int| #[trigger] coeff(r@, e) == -coeff(self@, e),
    {
        let mut out: Vec<(i32, i64)> = Vec::new();
        let mut i: usize = 0;
        while i < self.terms.len()
            invariant
                0 <= i <= self.terms@.len(),
                forall|i: int| 0 <= i < self@.len() ==> fits_i64(-#[trigger] self@[i].1),
                terms_view(out@) == negate_terms(self@).take(i as int),
            decreases self.terms@.len() - i,
        {
            assert(fits_i64(-self@[i as int].1));
            let t = self.terms[i];
            let ghost prev = out@;
            out.push((t.0, -t.1));
            assert(terms_view(out@) =~= terms_view(prev).push(negate_terms(self@)[i as int]));
            i += 1;
            assert(terms_view(out@) =~= negate_terms(self@).take(i as int));
        }
        assert(terms_view(out@) =~= negate_terms(self@));
        proof {
            lemma_negate(self@);
        }
        Polynomial { terms: out }
    }

    /// This polynomial multiplied by `coefficient·x^exponent`.
    fn times_monomial(&self, exponent: i32, coefficient: i64) -> (r: Polynomial)
        requires
            self.wf(),
            coefficient != 0,
            forall|j: int|
                0 <= j < self@.len() ==> fits_i32(exponent + #[trigger] self@[j].0) && fits_i64(
                    coefficient * self@[j].1,
                ),
        ensures
            r.wf(),
            r@ == scale_terms(self@, exponent as int, coefficient as int),
    {
        let mut out: Vec<(i32, i64)> = Vec::new();
        let mut i: usize = 0;
        while i < self.terms.len()
            invariant
                0 <= i <= self.terms@.len(),
                forall|j: int|
                    0 <= j < self@.len() ==> fits_i32(exponent + #[trigger] self@[j].0) && fits_i64(
                        coefficient * self@[j].1,
                    ),
                terms_view(out@) == scale_terms(self@, exponent as int, coefficient as int).take(
                    i as int,
                ),
            decreases self.terms@.len() - i,
        {
            assert(fits_i32(exponent + self@[i as int].0));
            assert(fits_i64(coefficient * self@[i as int].1));
            let t = self.terms[i];
            let ghost prev = out@;
            out.push((exponent + t.0, coefficient * t.1));
            assert(terms_view(out@) =~= terms_view(prev).push(
                scale_terms(self@, exponent as int, coefficient as int)[i as int],
            ));
            i += 1;
            assert(terms_view(out@) =~= scale_terms(self@, exponent as int, coefficient as int).take(
                i as int,
            ));
        }
        assert(terms_view(out@) =~= scale_terms(self@, exponent as int, coefficient as int));
        proof {
            lemma_scale(self@, exponent as int, coefficient as int);
        }
        Polynomial { terms: out }
    }

    /// The product of two polynomials.
    pub fn mul(&self, other: &Polynomial) -> (r: Polynomial)
        requires
            self.wf(),
            other.wf(),
            product_in_range(self@, other@),
        ensures
            r.wf(),
            r@ == product_terms(self@, other@),
            forall|e: int| #[trigger] coeff(r@, e) == convolution(self@, other@, e),
    {
        let ghost a = self@;
        let ghost b = other@;
        let mut acc = Polynomial::zero();
        let mut n: usize = 0;
        assert(a.take(0) =~= Seq::<(int, int)>::empty());
        while n < self.terms.len()
            invariant
                0 <= n <= self.terms@.len(),
                a == self@,
                b == other@,
                self.wf(),
                other.wf(),
                product_in_range(a, b),
                acc.wf(),
                acc@ == product_terms(a.take(n as int), b),
            decreases self.terms@.len() - n,
        {
            let ghost an = a[n as int];
            let (k, c) = self.terms[n];
            assert(an == (k as int, c as int));
            assert forall|j: int| 0 <= j < b.len() implies fits_i32(k + #[trigger] b[j].0)
                && fits_i64(c * b[j].1) by {
                assert(fits_i32(a[n as int].0 + b[j].0));
            }
            assert(an.1 != 0);
            let part = other.times_monomial(k, c);
            assert(sum_in_range(product_terms(a.take(n as int), b), scale_terms(b, an.0, an.1)));
            acc = acc.add(&part);
            proof {
                assert(a.take(n + 1).drop_last() =~= a.take(n as int));
                assert(a.take(n + 1).last() == an);
            }
            n += 1;
        }
        assert(a.take(n as int) =~= a);
        proof {
            lemma_product(a, b);
        }
        acc
    }

    /// The polynomial given by a list of `(exponent, coefficient)` terms in
    /// any order; terms with the same exponent add up.
    pub fn from_terms(list: &[(i32, i64)]) -> (r: Polynomial)
        requires
            list_in_range(terms_view(list@)),
        ensures
            r.wf(),
            r@ == list_terms(terms_view(list@)),
            forall|e: int| #[trigger] coeff(r@, e) == list_coeff(terms_view(list@), e),
    {
        let ghost s = terms_view(list@);
        let mut acc = Polynomial::zero();
        let mut n: usize = 0;
        assert(s.take(0) =~= Seq::<(int, int)>::empty());
        while n < list.len()
            invariant
                0 <= n <= list@.len(),
                s == terms_view(list@),
                list_in_range(s),
                acc.wf(),
                acc@ == list_terms(s.take(n as int)),
            decreases list@.len() - n,
        {
            let (e, c) = list[n];
            let part = Polynomial::monomial(e, c);
            assert(part@ == single(s[n as int]));
            proof {
                lemma_list(s.take(n as int));
            }
            acc = acc.add(&part);
            proof {
                assert(s.take(n + 1).drop_last() =~= s.take(n as int));
                assert(s.take(n + 1).last() == s[n as int]);
            }
            n += 1;
        }
        assert(s.take(n as int) =~= s);
        proof {
            lemma_list(s);
        }
        acc
    }
}

impl PartialEq for Polynomial {
    fn eq(&self, other: &Polynomial) -> (r: bool) {
        if self.terms.len() != other.terms.len() {
            assert(self@.len() != other@.len());
            return false;
        }
        let mut i: usize = 0;
        while i < self.terms.len()
            invariant
                0 <= i <= self.terms@.len(),
                self.terms@.len() == other.terms@.len(),
                forall|j: int| 0 <= j < i ==> self@[j] == other@[j],
            decreases self.terms@.len() - i,
        {
            if self.terms[i].0 != other.terms[i].0 || self.terms[i].1 != other.terms[i].1 {
                assert(self@[i as int] != other@[i as int]);
                return false;
            }
            i += 1;
        }
        assert(self@ =~= other@);
        true
    }
}

impl vstd::std_specs::cmp::PartialEqSpecImpl for Polynomial {
    open spec fn obeys_eq_spec() -> bool {
        true
    }

    open spec fn eq_spec(&self, other: &Polynomial) -> bool {
        self@ == other@
    }
}

} // verus!
