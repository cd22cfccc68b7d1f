//! The Pearson correlation coefficient between two equal-length
//! sequences of exact rationals.
//!
//! With sums `Sx, Sy, Sxy, Sxx, Syy` over `n` points, Pearson's `r` is
//! `(n*Sxy - Sx*Sy) / sqrt((n*Sxx - Sx*Sx) * (n*Syy - Sy*Sy))`. The
//! square root is irrational in general, so the result carries the
//! exact numerator and the exact square of the denominator; degenerate
//! inputs (unequal lengths, fewer than two points, zero variance)
//! yield the exact zero correlation, never an error.

use vstd::prelude::*;
use crate::rational::{frac_add, frac_eq, frac_mul, frac_sub, frac_wf, spec_normalize, Rational};
use crate::rational::{lemma_frac_add_congr, lemma_frac_eq_sign, lemma_frac_eq_trans,
    lemma_frac_mul_congr, lemma_frac_sub_congr, lemma_norm_frac};

verus! {

/// A Pearson correlation: `r = numerator / sqrt(denominator_squared)`.
/// The exact zero correlation is `0 / sqrt(1)`.
#[derive(Debug, PartialEq)]
pub struct Correlation {
    pub numerator: Rational,
    pub denominator_squared: Rational,
}

/// Every entry is a valid rational.
pub open spec fn all_values_wf(s: Seq<Rational>) -> bool {
    forall|i: int| 0 <= i < s.len() ==> (#[trigger] s[i]).well_formed()
}

/// Exact sum of a sequence of rationals.
pub open spec fn sum_frac(s: Seq<Rational>) -> (int, int)
    decreases s.len(),
{
    if s.len() == 0 {
        (0, 1)
    } else {
        frac_add(sum_frac(s.drop_last()), s.last()@)
    }
}

/// Exact sum of pairwise products of two equal-length sequences.
pub open spec fn sum_prod(x: Seq<Rational>, y: Seq<Rational>) -> (int, int)
    recommends x.len() == y.len(),
    decreases x.len(),
{
    if x.len() == 0 {
        (0, 1)
    } else {
        frac_add(sum_prod(x.drop_last(), y.drop_last()), frac_mul(x.last()@, y.last()@))
    }
}

/// `n * Sxy - Sx * Sy`, exactly.
pub open spec fn pearson_numerator(x: Seq<Rational>, y: Seq<Rational>) -> (int, int) {
    frac_sub(
        frac_mul((x.len() as int, 1), sum_prod(x, y)),
        frac_mul(sum_frac(x), sum_frac(y)),
    )
}

/// `n * Sxx - Sx * Sx`, exactly: `n` times the variance term of one
/// sequence.
pub open spec fn pearson_variance_term(x: Seq<Rational>) -> (int, int) {
    frac_sub(
        frac_mul((x.len() as int, 1), sum_prod(x, x)),
        frac_mul(sum_frac(x), sum_frac(x)),
    )
}

/// The square of the correlation's denominator, exactly.
pub open spec fn pearson_denominator_squared(x: Seq<Rational>, y: Seq<Rational>) -> (int, int) {
    frac_mul(pearson_variance_term(x), pearson_variance_term(y))
}

/// The five running sums after the checked arithmetic the
/// implementation performs: `Sx, Sy, Sxy, Sxx, Syy`, each reduced.
/// `None` when a reduced intermediate value leaves `i64`.
pub open spec fn spec_sums_state(x: Seq<Rational>, y: Seq<Rational>) -> Option<
    ((int, int), (int, int), (int, int), (int, int), (int, int)),
>
    recommends x.len() == y.len(),
    decreases x.len(),
{
    if x.len() == 0 {
        Some(((0, 1), (0, 1), (0, 1), (0, 1), (0, 1)))
    } else {
        match spec_sums_state(x.drop_last(), y.drop_last()) {
            None => None,
            Some((sx, sy, sxy, sxx, syy)) => {
                let xi = x.last()@;
                let yi = y.last()@;
                match spec_normalize(frac_add(sx, xi)) {
                    None => None,
                    Some(sx2) => match spec_normalize(frac_add(sy, yi)) {
                        None => None,
                        Some(sy2) => match spec_normalize(frac_mul(xi, yi)) {
                            None => None,
                            Some(pxy) => match spec_normalize(frac_add(sxy, pxy)) {
                                None => None,
                                Some(sxy2) => match spec_normalize(frac_mul(xi, xi)) {
                                    None => None,
                                    Some(pxx) => match spec_normalize(frac_add(sxx, pxx)) {
                                        None => None,
                                        Some(sxx2) => match spec_normalize(frac_mul(yi, yi)) {
                                            None => None,
                                            Some(pyy) => match spec_normalize(
                                                frac_add(syy, pyy),
                                            ) {
                                                None => None,
                                                Some(syy2) => Some(
                                                    (sx2, sy2, sxy2, sxx2, syy2),
                                                ),
                                            },
                                        },
                                    },
                                },
                            },
                        },
                    },
                }
            },
        }
    }
}

/// What the correlation returns on two equal-length sequences of at
/// least two points: the reduced numerator and squared denominator, or
/// the exact zero correlation when the squared denominator is zero;
/// `None` when a reduced intermediate value leaves `i64`.
pub open spec fn spec_pearson(x: Seq<Rational>, y: Seq<Rational>) -> Option<
    ((int, int), (int, int)),
>
    recommends x.len() == y.len(),
{
    match spec_sums_state(x, y) {
        None => None,
        Some((sx, sy, sxy, sxx, syy)) => {
            let n = (x.len() as int, 1int);
            match spec_normalize(frac_mul(n, sxy)) {
                None => None,
                Some(t1) => match spec_normalize(frac_mul(sx, sy)) {
                    None => None,
                    Some(t2) => match spec_normalize(frac_sub(t1, t2)) {
                        None => None,
                        Some(num) => match spec_normalize(frac_mul(n, sxx)) {
                            None => None,
                            Some(u1) => match spec_normalize(frac_mul(sx, sx)) {
                                None => None,
                                Some(u2) => match spec_normalize(frac_sub(u1, u2)) {
                                    None => None,
                                    Some(dx) => match spec_normalize(frac_mul(n, syy)) {
                                        None => None,
                                        Some(v1) => match spec_normalize(frac_mul(sy, sy)) {
                                            None => None,
                                            Some(v2) => match spec_normalize(
                                                frac_sub(v1, v2),
                                            ) {
                                                None => None,
                                                Some(dy) => match spec_normalize(
                                                    frac_mul(dx, dy),
                                                ) {
                                                    None => None,
                                                    Some(densq) => if densq.0 == 0 {
                                                        Some(((0int, 1int), (1int, 1int)))
                                                    } else {
                                                        Some((num, densq))
                                                    },
                                                },
                                            },
                                        },
                                    },
                                },
                            },
                        },
                    },
                },
            }
        },
    }
}

/// What the reduced running sums denote: each is the exact sum it
/// stands for, as a well-formed fraction.
proof fn lemma_sums_props(x: Seq<Rational>, y: Seq<Rational>)
    requires
        x.len() == y.len(),
        all_values_wf(x),
        all_values_wf(y),
    ensures
        spec_sums_state(x, y) matches Some(st) ==> {
            let (sx, sy, sxy, sxx, syy) = st;
            &&& frac_wf(sx) && frac_eq(sx, sum_frac(x))
            &&& frac_wf(sy) && frac_eq(sy, sum_frac(y))
            &&& frac_wf(sxy) && frac_eq(sxy, sum_prod(x, y))
            &&& frac_wf(sxx) && frac_eq(sxx, sum_prod(x, x))
            &&& frac_wf(syy) && frac_eq(syy, sum_prod(y, y))
        },
    decreases x.len(),
{
    if x.len() > 0 && spec_sums_state(x, y) is Some {
        let rx = x.drop_last();
        let ry = y.drop_last();
        assert(all_values_wf(rx) && all_values_wf(ry)) by {
            assert(forall|i: int| 0 <= i < x.len() - 1 ==> rx[i] == x[i]);
            assert(forall|i: int| 0 <= i < y.len() - 1 ==> ry[i] == y[i]);
        }
        lemma_sums_props(rx, ry);
        lemma_sum_frac_wf(rx);
        lemma_sum_frac_wf(ry);
        lemma_sum_prod_wf(rx, ry);
        lemma_sum_prod_wf(rx, rx);
        lemma_sum_prod_wf(ry, ry);
        let (sx, sy, sxy, sxx, syy) = spec_sums_state(rx, ry).unwrap();
        let xi = x.last()@;
        let yi = y.last()@;
        assert(x.last().well_formed());
        assert(y.last().well_formed());
        lemma_sum_step(sx, sum_frac(rx), xi, spec_normalize(frac_add(sx, xi)).unwrap());
        lemma_sum_step(sy, sum_frac(ry), yi, spec_normalize(frac_add(sy, yi)).unwrap());
        lemma_prod_sum_step(sxy, sum_prod(rx, ry), xi, yi);
        lemma_prod_sum_step(sxx, sum_prod(rx, rx), xi, xi);
        lemma_prod_sum_step(syy, sum_prod(ry, ry), yi, yi);
        assert(x.drop_last() == rx && y.drop_last() == ry);
    }
}

/// One reduced accumulation step denotes the exact extended sum.
proof fn lemma_sum_step(acc: (int, int), ideal: (int, int), v: (int, int), acc2: (int, int))
    requires
        frac_wf(acc),
        frac_wf(ideal),
        frac_wf(v),
        frac_eq(acc, ideal),
        spec_normalize(frac_add(acc, v)) == Some(acc2),
    ensures
        frac_wf(acc2),
        frac_eq(acc2, frac_add(ideal, v)),
{
    assert(frac_add(acc, v).1 > 0) by (nonlinear_arith)
        requires
            acc.1 > 0,
            v.1 > 0,
            frac_add(acc, v).1 == acc.1 * v.1,
    {}
    lemma_norm_frac(frac_add(acc, v).0, frac_add(acc, v).1);
    lemma_frac_add_congr(acc, ideal, v, v);
    lemma_frac_eq_trans(acc2, frac_add(acc, v), frac_add(ideal, v));
}

/// One reduced product-accumulation step denotes the exact extended
/// sum of products.
proof fn lemma_prod_sum_step(acc: (int, int), ideal: (int, int), a: (int, int), b: (int, int))
    requires
        frac_wf(acc),
        frac_wf(ideal),
        frac_wf(a),
        frac_wf(b),
        frac_eq(acc, ideal),
        spec_normalize(frac_mul(a, b)) is Some,
        spec_normalize(
            frac_add(acc, spec_normalize(frac_mul(a, b)).unwrap()),
        ) is Some,
    ensures
        frac_wf(spec_normalize(frac_add(acc, spec_normalize(frac_mul(a, b)).unwrap())).unwrap()),
        frac_eq(
            spec_normalize(frac_add(acc, spec_normalize(frac_mul(a, b)).unwrap())).unwrap(),
            frac_add(ideal, frac_mul(a, b)),
        ),
{
    let p = spec_normalize(frac_mul(a, b)).unwrap();
    assert(frac_mul(a, b).1 > 0) by (nonlinear_arith)
        requires
            a.1 > 0,
            b.1 > 0,
            frac_mul(a, b).1 == a.1 * b.1,
    {}
    lemma_norm_frac(frac_mul(a, b).0, frac_mul(a, b).1);
    let acc2 = spec_normalize(frac_add(acc, p)).unwrap();
    assert(frac_add(acc, p).1 > 0) by (nonlinear_arith)
        requires
            acc.1 > 0,
            p.1 > 0,
            frac_add(acc, p).1 == acc.1 * p.1,
    {}
    lemma_norm_frac(frac_add(acc, p).0, frac_add(acc, p).1);
    lemma_frac_add_congr(acc, ideal, p, frac_mul(a, b));
    lemma_frac_eq_trans(acc2, frac_add(acc, p), frac_add(ideal, frac_mul(a, b)));
}

/// Exact sums are well-formed fractions.
proof fn lemma_sum_frac_wf(s: Seq<Rational>)
    requires
        all_values_wf(s),
    ensures
        frac_wf(sum_frac(s)),
    decreases s.len(),
{
    if s.len() > 0 {
        assert(all_values_wf(s.drop_last())) by {
            assert(forall|i: int| 0 <= i < s.len() - 1 ==> s.drop_last()[i] == s[i]);
        }
        lemma_sum_frac_wf(s.drop_last());
        assert(s.last().well_formed());
        assert(frac_wf(sum_frac(s))) by (nonlinear_arith)
            requires
                sum_frac(s).1 == sum_frac(s.drop_last()).1 * s.last()@.1,
                sum_frac(s.drop_last()).1 > 0,
                s.last()@.1 > 0,
        {}
    }
}

/// Exact sums of products are well-formed fractions.
proof fn lemma_sum_prod_wf(x: Seq<Rational>, y: Seq<Rational>)
    requires
        x.len() == y.len(),
        all_values_wf(x),
        all_values_wf(y),
    ensures
        frac_wf(sum_prod(x, y)),
    decreases x.len(),
{
    if x.len() > 0 {
        assert(all_values_wf(x.drop_last()) && all_values_wf(y.drop_last())) by {
            assert(forall|i: int| 0 <= i < x.len() - 1 ==> x.drop_last()[i] == x[i]);
            assert(forall|i: int| 0 <= i < y.len() - 1 ==> y.drop_last()[i] == y[i]);
        }
        lemma_sum_prod_wf(x.drop_last(), y.drop_last());
        assert(x.last().well_formed());
        assert(y.last().well_formed());
        assert(frac_wf(sum_prod(x, y))) by (nonlinear_arith)
            requires
                sum_prod(x, y).1 == sum_prod(x.drop_last(), y.drop_last()).1 * (x.last()@.1
                    * y.last()@.1),
                sum_prod(x.drop_last(), y.drop_last()).1 > 0,
                x.last()@.1 > 0,
                y.last()@.1 > 0,
        {}
    }
}

/// Once the running sums fail on a prefix, they fail on the whole.
proof fn lemma_sums_none_extends(x: Seq<Rational>, y: Seq<Rational>, i: int)
    requires
        x.len() == y.len(),
        0 <= i <= x.len(),
        spec_sums_state(x.subrange(0, i), y.subrange(0, i)) is None,
    ensures
        spec_sums_state(x, y) is None,
        spec_pearson(x, y) is None,
    decreases x.len() - i,
{
    if i == x.len() {
        assert(x.subrange(0, i) =~= x);
        assert(y.subrange(0, i) =~= y);
    } else {
        assert(x.subrange(0, i + 1).drop_last() =~= x.subrange(0, i));
        assert(y.subrange(0, i + 1).drop_last() =~= y.subrange(0, i));
        lemma_sums_none_extends(x, y, i + 1);
    }
}

/// Compute Pearson's correlation over two sequences of exact
/// rationals.
///
/// Unequal lengths, fewer than two points, or a zero squared
/// denominator give the exact zero correlation. Otherwise the result
/// holds the exact numerator `n*Sxy - Sx*Sy` and the exact squared
/// denominator `(n*Sxx - Sx*Sx) * (n*Syy - Sy*Sy)`; `None` only when
/// an exact intermediate value cannot be represented.
pub fn calculate_pearson_correlation(x_values: &Vec<Rational>, y_values: &Vec<Rational>) -> (r:
    Option<Correlation>)
    requires
        all_values_wf(x_values@),
        all_values_wf(y_values@),
        x_values@.len() <= i64::MAX,
    ensures
        (x_values@.len() != y_values@.len() || x_values@.len() < 2) ==> (r matches Some(c)
            && c.numerator@ == (0int, 1int) && c.denominator_squared@ == (1int, 1int)),
        r matches Some(c) ==> c.denominator_squared@.0 > 0,
        (x_values@.len() == y_values@.len() && x_values@.len() >= 2) ==> {
            &&& (r is Some <==> spec_pearson(x_values@, y_values@) is Some)
            &&& (r matches Some(c) ==> {
                let (num, densq) = spec_pearson(x_values@, y_values@).unwrap();
                &&& c.numerator@ == num
                &&& c.denominator_squared@ == densq
                &&& c.numerator.well_formed()
                &&& c.denominator_squared.well_formed()
                &&& (frac_eq(pearson_denominator_squared(x_values@, y_values@), (0int, 1int))
                    ==> c.numerator@ == (0int, 1int) && c.denominator_squared@ == (1int, 1int))
                &&& (!frac_eq(pearson_denominator_squared(x_values@, y_values@), (0int, 1int))
                    ==> frac_eq(c.numerator@, pearson_numerator(x_values@, y_values@))
                        && frac_eq(
                        c.denominator_squared@,
                        pearson_denominator_squared(x_values@, y_values@),
                    ))
            })
        },
{
    let ghost xs = x_values@;
    let ghost ys = y_values@;
    if x_values.len() != y_values.len() || x_values.len() < 2 {
        return Some(Correlation { numerator: Rational::zero(), denominator_squared:
            Rational::one() });
    }

    let mut sum_x = Rational::zero();
    let mut sum_y = Rational::zero();
    let mut sum_xy = Rational::zero();
    let mut sum_x_sq = Rational::zero();
    let mut sum_y_sq = Rational::zero();
    let mut i: usize = 0;
    proof {
        assert(xs.subrange(0, 0) =~= Seq::<Rational>::empty());
        assert(ys.subrange(0, 0) =~= Seq::<Rational>::empty());
    }
    while i < x_values.len()
        invariant
            xs == x_values@,
            ys == y_values@,
            xs.len() == ys.len(),
            xs.len() >= 2,
            all_values_wf(xs),
            all_values_wf(ys),
            0 <= i <= xs.len(),
            spec_sums_state(xs.subrange(0, i as int), ys.subrange(0, i as int)) == Some(
                (sum_x@, sum_y@, sum_xy@, sum_x_sq@, sum_y_sq@),
            ),
            sum_x.well_formed(),
            sum_y.well_formed(),
            sum_xy.well_formed(),
            sum_x_sq.well_formed(),
            sum_y_sq.well_formed(),
        decreases xs.len() - i,
    {
        let xi = x_values[i];
        let yi = y_values[i];
        proof {
            assert(xs[i as int].well_formed());
            assert(ys[i as int].well_formed());
            assert(xs.subrange(0, i + 1).drop_last() =~= xs.subrange(0, i as int));
            assert(ys.subrange(0, i + 1).drop_last() =~= ys.subrange(0, i as int));
            assert(xs.subrange(0, i + 1).last() == xs[i as int]);
            assert(ys.subrange(0, i + 1).last() == ys[i as int]);
        }
        let nsx = sum_x.checked_add(&xi);
        let nsy = sum_y.checked_add(&yi);
        let pxy = xi.checked_mul(&yi);
        let pxx = xi.checked_mul(&xi);
        let pyy = yi.checked_mul(&yi);
        let (nsx, nsy) = match (nsx, nsy) {
            (Some(a), Some(b)) => (a, b),
            _ => {
                proof {
                    lemma_sums_none_extends(xs, ys, i + 1);
                }
                return None;
            },
        };
        let (pxy, pxx, pyy) = match (pxy, pxx, pyy) {
            (Some(a), Some(b), Some(c)) => (a, b, c),
            _ => {
                proof {
                    lemma_sums_none_extends(xs, ys, i + 1);
                }
                return None;
            },
        };
        let nsxy = sum_xy.checked_add(&pxy);
        let nsxx = sum_x_sq.checked_add(&pxx);
        let nsyy = sum_y_sq.checked_add(&pyy);
        let (nsxy, nsxx, nsyy) = match (nsxy, nsxx, nsyy) {
            (Some(a), Some(b), Some(c)) => (a, b, c),
            _ => {
                proof {
                    lemma_sums_none_extends(xs, ys, i + 1);
                }
                return None;
            },
        };
        sum_x = nsx;
        sum_y = nsy;
        sum_xy = nsxy;
        sum_x_sq = nsxx;
        sum_y_sq = nsyy;
        i += 1;
    }
    proof {
        assert(xs.subrange(0, xs.len() as int) =~= xs);
        assert(ys.subrange(0, ys.len() as int) =~= ys);
        lemma_sums_props(xs, ys);
    }

    let n = Rational::from_int(x_values.len() as i64);
    let t1 = match n.checked_mul(&sum_xy) {
        None => {
            return None;
        },
        Some(v) => v,
    };
    let t2 = match sum_x.checked_mul(&sum_y) {
        None => {
            return None;
        },
        Some(v) => v,
    };
    let numerator = match t1.checked_sub(&t2) {
        None => {
            return None;
        },
        Some(v) => v,
    };
    let u1 = match n.checked_mul(&sum_x_sq) {
        None => {
            return None;
        },
        Some(v) => v,
    };
    let u2 = match sum_x.checked_mul(&sum_x) {
        None => {
            return None;
        },
        Some(v) => v,
    };
    let dx = match u1.checked_sub(&u2) {
        None => {
            return None;
        },
        Some(v) => v,
    };
    let v1 = match n.checked_mul(&sum_y_sq) {
        None => {
            return None;
        },
        Some(v) => v,
    };
    let v2 = match sum_y.checked_mul(&sum_y) {
        None => {
            return None;
        },
        Some(v) => v,
    };
    let dy = match v1.checked_sub(&v2) {
        None => {
            return None;
        },
        Some(v) => v,
    };
    let denominator_squared = match dx.checked_mul(&dy) {
        None => {
            return None;
        },
        Some(v) => v,
    };

    proof {
        lemma_pearson_final(xs, ys, sum_x@, sum_y@, sum_xy@, sum_x_sq@, sum_y_sq@, t1@, t2@,
            numerator@, u1@, u2@, dx@, v1@, v2@, dy@, denominator_squared@);
        lemma_denominator_squared_nonneg(xs, ys);
        crate::rational::lemma_frac_eq_sign(
            denominator_squared@,
            pearson_denominator_squared(xs, ys),
        );
    }
    if denominator_squared.is_zero() {
        Some(Correlation { numerator: Rational::zero(), denominator_squared: Rational::one() })
    } else {
        Some(Correlation { numerator, denominator_squared })
    }
}

/// From reduced sums that denote the exact sums, the reduced numerator
/// and squared denominator denote the exact ones.
proof fn lemma_pearson_final(
    x: Seq<Rational>,
    y: Seq<Rational>,
    sx: (int, int),
    sy: (int, int),
    sxy: (int, int),
    sxx: (int, int),
    syy: (int, int),
    t1: (int, int),
    t2: (int, int),
    num: (int, int),
    u1: (int, int),
    u2: (int, int),
    dx: (int, int),
    v1: (int, int),
    v2: (int, int),
    dy: (int, int),
    densq: (int, int),
)
    requires
        x.len() == y.len(),
        x.len() >= 1,
        all_values_wf(x),
        all_values_wf(y),
        spec_sums_state(x, y) == Some((sx, sy, sxy, sxx, syy)),
        spec_normalize(frac_mul((x.len() as int, 1), sxy)) == Some(t1),
        spec_normalize(frac_mul(sx, sy)) == Some(t2),
        spec_normalize(frac_sub(t1, t2)) == Some(num),
        spec_normalize(frac_mul((x.len() as int, 1), sxx)) == Some(u1),
        spec_normalize(frac_mul(sx, sx)) == Some(u2),
        spec_normalize(frac_sub(u1, u2)) == Some(dx),
        spec_normalize(frac_mul((x.len() as int, 1), syy)) == Some(v1),
        spec_normalize(frac_mul(sy, sy)) == Some(v2),
        spec_normalize(frac_sub(v1, v2)) == Some(dy),
        spec_normalize(frac_mul(dx, dy)) == Some(densq),
    ensures
        frac_wf(num),
        frac_wf(densq),
        frac_eq(num, pearson_numerator(x, y)),
        frac_eq(densq, pearson_denominator_squared(x, y)),
        densq.0 == 0 <==> frac_eq(pearson_denominator_squared(x, y), (0int, 1int)),
{
    lemma_sums_props(x, y);
    lemma_sum_frac_wf(x);
    lemma_sum_frac_wf(y);
    lemma_sum_prod_wf(x, y);
    lemma_sum_prod_wf(x, x);
    lemma_sum_prod_wf(y, y);
    let n = (x.len() as int, 1int);
    // Numerator.
    let t1i = frac_mul(n, sum_prod(x, y));
    lemma_mul_wf(n, sxy);
    lemma_mul_wf(n, sum_prod(x, y));
    lemma_norm_frac(frac_mul(n, sxy).0, frac_mul(n, sxy).1);
    lemma_frac_mul_congr(n, n, sxy, sum_prod(x, y));
    lemma_frac_eq_trans(t1, frac_mul(n, sxy), t1i);
    let t2i = frac_mul(sum_frac(x), sum_frac(y));
    lemma_mul_wf(sx, sy);
    lemma_mul_wf(sum_frac(x), sum_frac(y));
    lemma_norm_frac(frac_mul(sx, sy).0, frac_mul(sx, sy).1);
    lemma_frac_mul_congr(sx, sum_frac(x), sy, sum_frac(y));
    lemma_frac_eq_trans(t2, frac_mul(sx, sy), t2i);
    lemma_sub_wf(t1, t2);
    lemma_norm_frac(frac_sub(t1, t2).0, frac_sub(t1, t2).1);
    lemma_frac_sub_congr(t1, t1i, t2, t2i);
    lemma_sub_wf(t1i, t2i);
    lemma_frac_eq_trans(num, frac_sub(t1, t2), frac_sub(t1i, t2i));
    // Variance term in x.
    let u1i = frac_mul(n, sum_prod(x, x));
    lemma_mul_wf(n, sxx);
    lemma_mul_wf(n, sum_prod(x, x));
    lemma_norm_frac(frac_mul(n, sxx).0, frac_mul(n, sxx).1);
    lemma_frac_mul_congr(n, n, sxx, sum_prod(x, x));
    lemma_frac_eq_trans(u1, frac_mul(n, sxx), u1i);
    let u2i = frac_mul(sum_frac(x), sum_frac(x));
    lemma_mul_wf(sx, sx);
    lemma_mul_wf(sum_frac(x), sum_frac(x));
    lemma_norm_frac(frac_mul(sx, sx).0, frac_mul(sx, sx).1);
    lemma_frac_mul_congr(sx, sum_frac(x), sx, sum_frac(x));
    lemma_frac_eq_trans(u2, frac_mul(sx, sx), u2i);
    lemma_sub_wf(u1, u2);
    lemma_norm_frac(frac_sub(u1, u2).0, frac_sub(u1, u2).1);
    lemma_frac_sub_congr(u1, u1i, u2, u2i);
    lemma_sub_wf(u1i, u2i);
    lemma_frac_eq_trans(dx, frac_sub(u1, u2), frac_sub(u1i, u2i));
    // Variance term in y.
    let v1i = frac_mul(n, sum_prod(y, y));
    lemma_mul_wf(n, syy);
    lemma_mul_wf(n, sum_prod(y, y));
    lemma_norm_frac(frac_mul(n, syy).0, frac_mul(n, syy).1);
    lemma_frac_mul_congr(n, n, syy, sum_prod(y, y));
    lemma_frac_eq_trans(v1, frac_mul(n, syy), v1i);
    let v2i = frac_mul(sum_frac(y), sum_frac(y));
    lemma_mul_wf(sy, sy);
    lemma_mul_wf(sum_frac(y), sum_frac(y));
    lemma_norm_frac(frac_mul(sy, sy).0, frac_mul(sy, sy).1);
    lemma_frac_mul_congr(sy, sum_frac(y), sy, sum_frac(y));
    lemma_frac_eq_trans(v2, frac_mul(sy, sy), v2i);
    lemma_sub_wf(v1, v2);
    lemma_norm_frac(frac_sub(v1, v2).0, frac_sub(v1, v2).1);
    lemma_frac_sub_congr(v1, v1i, v2, v2i);
    lemma_sub_wf(v1i, v2i);
    lemma_frac_eq_trans(dy, frac_sub(v1, v2), frac_sub(v1i, v2i));
    // Squared denominator.
    lemma_mul_wf(dx, dy);
    lemma_mul_wf(frac_sub(u1i, u2i), frac_sub(v1i, v2i));
    lemma_norm_frac(frac_mul(dx, dy).0, frac_mul(dx, dy).1);
    lemma_frac_mul_congr(dx, frac_sub(u1i, u2i), dy, frac_sub(v1i, v2i));
    lemma_frac_eq_trans(
        densq,
        frac_mul(dx, dy),
        frac_mul(frac_sub(u1i, u2i), frac_sub(v1i, v2i)),
    );
    lemma_frac_eq_sign(densq, pearson_denominator_squared(x, y));
    assert(frac_eq(pearson_denominator_squared(x, y), (0int, 1int))
        == (pearson_denominator_squared(x, y).0 == 0));
}

/// Products of well-formed fractions are well formed.
proof fn lemma_mul_wf(a: (int, int), b: (int, int))
    by (nonlinear_arith)
    requires
        a.1 > 0,
        b.1 > 0,
    ensures
        frac_wf(frac_mul(a, b)),
        frac_wf(frac_sub(a, b)),
{
}

/// Differences of well-formed fractions are well formed.
proof fn lemma_sub_wf(a: (int, int), b: (int, int))
    by (nonlinear_arith)
    requires
        a.1 > 0,
        b.1 > 0,
    ensures
        frac_wf(frac_sub(a, b)),
{
}

/// One step of the variance-term induction, over plain integers:
/// extending the sums by one value keeps `n * Sxx - Sx^2` nonnegative
/// (numerators `p, u` over denominators `q, w`; new value `aa / bb`).
proof fn lemma_variance_step(m: int, p: int, q: int, u: int, w: int, aa: int, bb: int)
    requires
        m >= 1,
        q > 0,
        w > 0,
        bb > 0,
        m * u * (q * q) >= (p * p) * w,
    ensures
        (m + 1) * (u * (bb * bb) + (aa * aa) * w) * ((q * bb) * (q * bb)) >= ((p * bb + aa * q)
            * (p * bb + aa * q)) * (w * (bb * bb)),
{
    let pb = p * bb;
    let aq = aa * q;
    let s1n = pb + aq;
    let s2n = u * (bb * bb) + (aa * aa) * w;
    // Expand the square of the extended sum numerator.
    assert(s1n * s1n == pb * pb + 2 * (pb * aq) + aq * aq) by (nonlinear_arith)
        requires
            s1n == pb + aq,
    {}
    assert((s1n * s1n) * w == (pb * pb) * w + 2 * ((pb * aq) * w) + (aq * aq) * w)
        by (nonlinear_arith)
        requires
            s1n * s1n == pb * pb + 2 * (pb * aq) + aq * aq,
    {}
    // Expand the extended second-moment numerator times q^2.
    assert((m + 1) * s2n * (q * q) == m * ((u * (bb * bb)) * (q * q)) + m * (((aa * aa) * w) * (
        q * q
    )) + (u * (bb * bb)) * (q * q) + ((aa * aa) * w) * (q * q)) by (nonlinear_arith)
        requires
            s2n == u * (bb * bb) + (aa * aa) * w,
    {}
    // The gap the new value contributes.
    let d = (u * (bb * bb)) * (q * q) + m * (((aa * aa) * w) * (q * q)) - 2 * ((pb * aq) * w);
    // m * d dominates a square, so d is nonnegative.
    let sq = pb - m * aq;
    assert(sq * sq == pb * pb - 2 * (m * ((pb * aq))) + (m * aq) * (m * aq))
        by (nonlinear_arith)
        requires
            sq == pb - m * aq,
    {}
    assert(w * (sq * sq) == (pb * pb) * w - 2 * (m * ((pb * aq) * w)) + m * (m * ((aq * aq)
        * w))) by (nonlinear_arith)
        requires
            sq * sq == pb * pb - 2 * (m * ((pb * aq))) + (m * aq) * (m * aq),
    {}
    assert(m * d == m * ((u * (bb * bb)) * (q * q)) + m * (m * (((aa * aa) * w) * (q * q))) - 2
        * (m * ((pb * aq) * w))) by (nonlinear_arith)
        requires
            d == (u * (bb * bb)) * (q * q) + m * (((aa * aa) * w) * (q * q)) - 2 * ((pb * aq)
                * w),
    {}
    assert(m * ((u * (bb * bb)) * (q * q)) == (m * u * (q * q)) * (bb * bb))
        by (nonlinear_arith);
    assert((m * u * (q * q)) * (bb * bb) >= ((p * p) * w) * (bb * bb)) by (nonlinear_arith)
        requires
            m * u * (q * q) >= (p * p) * w,
            bb > 0,
    {}
    assert((pb * pb) * w == ((p * p) * w) * (bb * bb)) by (nonlinear_arith)
        requires
            pb == p * bb,
    {}
    assert(m * (m * (((aa * aa) * w) * (q * q))) == m * (m * ((aq * aq) * w)))
        by (nonlinear_arith)
        requires
            aq == aa * q,
    {}
    assert(m * d >= w * (sq * sq));
    assert(w * (sq * sq) >= 0) by (nonlinear_arith)
        requires
            w > 0,
    {}
    assert(d >= 0) by (nonlinear_arith)
        requires
            m * d >= 0,
            m >= 1,
    {}
    // The extended variance term is the old one scaled, plus the gap.
    let e = (m + 1) * s2n * (q * q) - (s1n * s1n) * w;
    assert(m * (((aa * aa) * w) * (q * q)) == m * ((aq * aq) * w)) by (nonlinear_arith)
        requires
            aq == aa * q,
    {}
    assert(((aa * aa) * w) * (q * q) == (aq * aq) * w) by (nonlinear_arith)
        requires
            aq == aa * q,
    {}
    assert(e == (m * ((u * (bb * bb)) * (q * q)) - (pb * pb) * w) + d);
    assert(m * ((u * (bb * bb)) * (q * q)) - (pb * pb) * w >= 0);
    assert(e >= 0);
    // Scale back by bb^2.
    assert((m + 1) * s2n * ((q * bb) * (q * bb)) == ((m + 1) * s2n * (q * q)) * (bb * bb))
        by (nonlinear_arith);
    assert((s1n * s1n) * (w * (bb * bb)) == ((s1n * s1n) * w) * (bb * bb)) by (nonlinear_arith);
    assert(((m + 1) * s2n * (q * q)) * (bb * bb) - ((s1n * s1n) * w) * (bb * bb) == e * (bb
        * bb)) by (nonlinear_arith)
        requires
            e == (m + 1) * s2n * (q * q) - (s1n * s1n) * w,
    {}
    assert(e * (bb * bb) >= 0) by (nonlinear_arith)
        requires
            e >= 0,
            bb > 0,
    {}
}

/// The moment inequality `n * Sxx >= Sx^2`, in cross-multiplied form.
proof fn lemma_moments_ineq(x: Seq<Rational>)
    requires
        all_values_wf(x),
    ensures
        (x.len() as int) * sum_prod(x, x).0 * (sum_frac(x).1 * sum_frac(x).1) >= (sum_frac(x).0
            * sum_frac(x).0) * sum_prod(x, x).1,
        sum_frac(x).1 > 0,
        sum_prod(x, x).1 > 0,
    decreases x.len(),
{
    if x.len() == 0 {
        assert(0int * sum_prod(x, x).0 * (1 * 1) >= (0 * 0) * 1) by (nonlinear_arith);
    } else {
        let rest = x.drop_last();
        assert(all_values_wf(rest)) by {
            assert(forall|i: int| 0 <= i < x.len() - 1 ==> rest[i] == x[i]);
        }
        lemma_moments_ineq(rest);
        let a = x.last()@;
        assert(x.last().well_formed());
        let p = sum_frac(rest).0;
        let q = sum_frac(rest).1;
        let u = sum_prod(rest, rest).0;
        let w = sum_prod(rest, rest).1;
        assert(x.drop_last() == rest);
        assert(sum_frac(x) == ((p * a.1 + a.0 * q), q * a.1));
        assert(sum_prod(x, x) == ((u * (a.1 * a.1) + (a.0 * a.0) * w), w * (a.1 * a.1)));
        assert(sum_frac(x).1 > 0) by (nonlinear_arith)
            requires
                q > 0,
                a.1 > 0,
                sum_frac(x).1 == q * a.1,
        {}
        assert(sum_prod(x, x).1 > 0) by (nonlinear_arith)
            requires
                w > 0,
                a.1 > 0,
                sum_prod(x, x).1 == w * (a.1 * a.1),
        {}
        if rest.len() == 0 {
            assert(p == 0 && q == 1 && u == 0 && w == 1);
            assert(1 * ((0 * (a.1 * a.1) + (a.0 * a.0) * 1)) * ((1 * a.1) * (1 * a.1)) >= (((0
                * a.1 + a.0 * 1)) * ((0 * a.1 + a.0 * 1))) * (1 * (a.1 * a.1)))
                by (nonlinear_arith);
        } else {
            let m = rest.len() as int;
            lemma_variance_step(m, p, q, u, w, a.0, a.1);
        }
    }
}

/// The variance term `n * Sxx - Sx^2` of any sequence is nonnegative.
pub proof fn lemma_variance_term_nonneg(x: Seq<Rational>)
    requires
        all_values_wf(x),
    ensures
        pearson_variance_term(x).0 >= 0,
        pearson_variance_term(x).1 > 0,
{
    lemma_moments_ineq(x);
    let n = x.len() as int;
    let s1 = sum_frac(x);
    let s2 = sum_prod(x, x);
    assert(pearson_variance_term(x).0 == (n * s2.0) * (s1.1 * s1.1) - (s1.0 * s1.0) * (1
        * s2.1));
    assert((n * s2.0) * (s1.1 * s1.1) == n * s2.0 * (s1.1 * s1.1)) by (nonlinear_arith);
    assert((s1.0 * s1.0) * (1 * s2.1) == (s1.0 * s1.0) * s2.1) by (nonlinear_arith);
    assert(pearson_variance_term(x).1 == (1 * s2.1) * (s1.1 * s1.1));
    assert((1 * s2.1) * (s1.1 * s1.1) > 0) by (nonlinear_arith)
        requires
            s2.1 > 0,
            s1.1 > 0,
    {}
}

/// The squared denominator of Pearson's correlation is a product of
/// two nonnegative variance terms, so it is nonnegative: the square
/// root in the correlation formula always exists.
pub proof fn lemma_denominator_squared_nonneg(x: Seq<Rational>, y: Seq<Rational>)
    requires
        all_values_wf(x),
        all_values_wf(y),
    ensures
        pearson_denominator_squared(x, y).0 >= 0,
        pearson_denominator_squared(x, y).1 > 0,
{
    lemma_variance_term_nonneg(x);
    lemma_variance_term_nonneg(y);
    assert(pearson_denominator_squared(x, y).0 >= 0) by (nonlinear_arith)
        requires
            pearson_denominator_squared(x, y).0 == pearson_variance_term(x).0
                * pearson_variance_term(y).0,
            pearson_variance_term(x).0 >= 0,
            pearson_variance_term(y).0 >= 0,
    {}
    assert(pearson_denominator_squared(x, y).1 > 0) by (nonlinear_arith)
        requires
            pearson_denominator_squared(x, y).1 == pearson_variance_term(x).1
                * pearson_variance_term(y).1,
            pearson_variance_term(x).1 > 0,
            pearson_variance_term(y).1 > 0,
    {}
}

} // verus!
