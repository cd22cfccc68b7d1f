//! Exact rational arithmetic.
//!
//! Tempo, duration and density values are rationals kept as an `i64`
//! numerator over a positive `i64` denominator. Specifications speak of a
//! rational as a pair `(int, int)` of unbounded integers with a positive
//! second component; two pairs denote the same value when their cross
//! products agree. Arithmetic reduces results by the greatest common
//! divisor and reports `None` when even the reduced form leaves `i64`.

use vstd::prelude::*;
use vstd::arithmetic::div_mod::{lemma_fundamental_div_mod, lemma_mod_multiples_basic};
use vstd::arithmetic::div_mod::lemma_div_multiples_vanish;

verus! {

// ---------------------------------------------------------------------------
// Fractions at the specification level
// ---------------------------------------------------------------------------

/// Magnitude of an unbounded integer.
pub open spec fn int_abs(a: int) -> int {
    if a < 0 { -a } else { a }
}

/// A specification fraction is meaningful when its denominator is positive.
pub open spec fn frac_wf(f: (int, int)) -> bool {
    f.1 > 0
}

/// Two fractions denote the same rational value (cross multiplication).
pub open spec fn frac_eq(a: (int, int), b: (int, int)) -> bool {
    a.0 * b.1 == b.0 * a.1
}

/// The value of `a` is at most the value of `b` (cross multiplication).
pub open spec fn frac_le(a: (int, int), b: (int, int)) -> bool {
    a.0 * b.1 <= b.0 * a.1
}

/// The value of `a` is strictly below the value of `b`.
pub open spec fn frac_lt(a: (int, int), b: (int, int)) -> bool {
    a.0 * b.1 < b.0 * a.1
}

pub open spec fn frac_add(a: (int, int), b: (int, int)) -> (int, int) {
    (a.0 * b.1 + b.0 * a.1, a.1 * b.1)
}

pub open spec fn frac_sub(a: (int, int), b: (int, int)) -> (int, int) {
    (a.0 * b.1 - b.0 * a.1, a.1 * b.1)
}

pub open spec fn frac_mul(a: (int, int), b: (int, int)) -> (int, int) {
    (a.0 * b.0, a.1 * b.1)
}

/// Quotient of two fractions, with the sign moved into the numerator so
/// that the result is well formed whenever `b` is nonzero.
pub open spec fn frac_div(a: (int, int), b: (int, int)) -> (int, int) {
    if b.0 >= 0 {
        (a.0 * b.1, a.1 * b.0)
    } else {
        (-(a.0 * b.1), -(a.1 * b.0))
    }
}

// ---------------------------------------------------------------------------
// Greatest common divisor and exact reduction
// ---------------------------------------------------------------------------

/// Euclid's greatest common divisor.
pub open spec fn gcd(a: nat, b: nat) -> nat
    decreases b,
{
    if b == 0 { a } else { gcd(b, a % b) }
}

/// `d` divides `n` exactly.
pub open spec fn divides(d: int, n: int) -> bool {
    exists|k: int| n == #[trigger] (d * k)
}

pub proof fn lemma_gcd_divides(a: nat, b: nat)
    ensures
        divides(gcd(a, b) as int, a as int),
        divides(gcd(a, b) as int, b as int),
        a > 0 || b > 0 ==> gcd(a, b) > 0,
    decreases b,
{
    if b == 0 {
        assert(a as int == (a as int) * 1);
        assert(0int == (a as int) * 0);
    } else {
        lemma_gcd_divides(b, a % b);
        let g = gcd(b, a % b) as int;
        let k1 = choose|k1: int| b as int == #[trigger] (g * k1);
        let k2 = choose|k2: int| (a % b) as int == #[trigger] (g * k2);
        lemma_fundamental_div_mod(a as int, b as int);
        let q = a as int / b as int;
        assert(a as int == g * (k1 * q + k2)) by (nonlinear_arith)
            requires
                a as int == (b as int) * q + (a % b) as int,
                b as int == g * k1,
                (a % b) as int == g * k2,
        {}
    }
}

/// Dividing an exact multiple of `g` by `g` inverts the multiplication.
proof fn lemma_exact_quotient(g: int, x: int)
    requires
        g > 0,
        divides(g, x),
    ensures
        x / g * g == x,
        x == g * (x / g),
        x >= 0 ==> x / g >= 0 && x / g <= x,
        x > 0 ==> x / g > 0,
        x < 0 ==> x / g < 0,
        int_abs(x / g) <= int_abs(x),
{
    let k = choose|k: int| x == #[trigger] (g * k);
    lemma_div_multiples_vanish(k, g);
    assert(x / g == k);
    assert(x == g * k);
    assert(x > 0 ==> k > 0 && k <= x) by (nonlinear_arith)
        requires
            g >= 1,
            x == g * k,
    {}
    assert(x < 0 ==> k < 0 && k >= x) by (nonlinear_arith)
        requires
            g >= 1,
            x == g * k,
    {}
    assert(x == 0 ==> k == 0) by (nonlinear_arith)
        requires
            g >= 1,
            x == g * k,
    {}
}

/// The reduced form of a fraction: both components divided by their
/// greatest common divisor.
pub open spec fn norm_frac(n: int, d: int) -> (int, int)
    recommends d > 0,
{
    let g = gcd(int_abs(n) as nat, d as nat) as int;
    (n / g, d / g)
}

/// The reduced form denotes the same value and is no larger in magnitude.
pub proof fn lemma_norm_frac(n: int, d: int)
    requires
        d > 0,
    ensures
        frac_wf(norm_frac(n, d)),
        frac_eq(norm_frac(n, d), (n, d)),
        int_abs(norm_frac(n, d).0) <= int_abs(n),
        norm_frac(n, d).1 <= d,
        n > 0 ==> norm_frac(n, d).0 > 0,
        n == 0 ==> norm_frac(n, d).0 == 0,
        n < 0 ==> norm_frac(n, d).0 < 0,
{
    let g = gcd(int_abs(n) as nat, d as nat) as int;
    lemma_gcd_divides(int_abs(n) as nat, d as nat);
    assert(g > 0);
    assert(divides(g, n)) by {
        let k = choose|k: int| int_abs(n) == #[trigger] (g * k);
        if n < 0 {
            assert(n == g * (-k)) by (nonlinear_arith)
                requires -n == g * k,
            {}
        } else {
            assert(n == g * k);
        }
    }
    lemma_exact_quotient(g, n);
    lemma_exact_quotient(g, d);
    assert((n / g) * d == n * (d / g)) by (nonlinear_arith)
        requires
            n == g * (n / g),
            d == g * (d / g),
    {}
}

/// Denoting-the-same-value is transitive across a well-formed middle.
pub proof fn lemma_frac_eq_trans(a: (int, int), b: (int, int), c: (int, int))
    by (nonlinear_arith)
    requires
        frac_eq(a, b),
        frac_eq(b, c),
        b.1 != 0,
    ensures
        frac_eq(a, c),
{
}

/// Fractions denoting the same value agree in sign.
pub proof fn lemma_frac_eq_sign(a: (int, int), b: (int, int))
    by (nonlinear_arith)
    requires
        frac_eq(a, b),
        a.1 >= 1,
        b.1 >= 1,
    ensures
        a.0 > 0 <==> b.0 > 0,
        a.0 == 0 <==> b.0 == 0,
        a.0 < 0 <==> b.0 < 0,
{
}

/// Sums of fractions respect value equality.
pub proof fn lemma_frac_add_congr(a: (int, int), a2: (int, int), b: (int, int), b2: (int, int))
    requires
        frac_eq(a, a2),
        frac_eq(b, b2),
        a.1 > 0,
        a2.1 > 0,
        b.1 > 0,
        b2.1 > 0,
    ensures
        frac_eq(frac_add(a, b), frac_add(a2, b2)),
{
    let l1 = a.0 * b.1;
    let l2 = b.0 * a.1;
    let r1 = a2.0 * b2.1;
    let r2 = b2.0 * a2.1;
    let dl = a.1 * b.1;
    let dr = a2.1 * b2.1;
    assert(l1 * dr == r1 * dl) by (nonlinear_arith)
        requires
            l1 == a.0 * b.1,
            r1 == a2.0 * b2.1,
            dl == a.1 * b.1,
            dr == a2.1 * b2.1,
            a.0 * a2.1 == a2.0 * a.1,
    {}
    assert(l2 * dr == r2 * dl) by (nonlinear_arith)
        requires
            l2 == b.0 * a.1,
            r2 == b2.0 * a2.1,
            dl == a.1 * b.1,
            dr == a2.1 * b2.1,
            b.0 * b2.1 == b2.0 * b.1,
    {}
    assert((l1 + l2) * dr == l1 * dr + l2 * dr) by (nonlinear_arith);
    assert((r1 + r2) * dl == r1 * dl + r2 * dl) by (nonlinear_arith);
}

/// Products of fractions respect value equality.
pub proof fn lemma_frac_mul_congr(a: (int, int), a2: (int, int), b: (int, int), b2: (int, int))
    by (nonlinear_arith)
    requires
        frac_eq(a, a2),
        frac_eq(b, b2),
        a.1 > 0,
        a2.1 > 0,
        b.1 > 0,
        b2.1 > 0,
    ensures
        frac_eq(frac_mul(a, b), frac_mul(a2, b2)),
{
}

/// Differences of fractions respect value equality.
pub proof fn lemma_frac_sub_congr(a: (int, int), a2: (int, int), b: (int, int), b2: (int, int))
    requires
        frac_eq(a, a2),
        frac_eq(b, b2),
        a.1 > 0,
        a2.1 > 0,
        b.1 > 0,
        b2.1 > 0,
    ensures
        frac_eq(frac_sub(a, b), frac_sub(a2, b2)),
{
    let l1 = a.0 * b.1;
    let l2 = b.0 * a.1;
    let r1 = a2.0 * b2.1;
    let r2 = b2.0 * a2.1;
    let dl = a.1 * b.1;
    let dr = a2.1 * b2.1;
    assert(l1 * dr == r1 * dl) by (nonlinear_arith)
        requires
            l1 == a.0 * b.1,
            r1 == a2.0 * b2.1,
            dl == a.1 * b.1,
            dr == a2.1 * b2.1,
            a.0 * a2.1 == a2.0 * a.1,
    {}
    assert(l2 * dr == r2 * dl) by (nonlinear_arith)
        requires
            l2 == b.0 * a.1,
            r2 == b2.0 * a2.1,
            dl == a.1 * b.1,
            dr == a2.1 * b2.1,
            b.0 * b2.1 == b2.0 * b.1,
    {}
    assert((l1 - l2) * dr == l1 * dr - l2 * dr) by (nonlinear_arith);
    assert((r1 - r2) * dl == r1 * dl - r2 * dl) by (nonlinear_arith);
}

/// Order between fractions respects value equality.
pub proof fn lemma_frac_cmp_congr(a: (int, int), a2: (int, int), b: (int, int), b2: (int, int))
    by (nonlinear_arith)
    requires
        frac_eq(a, a2),
        frac_eq(b, b2),
        a.1 > 0,
        a2.1 > 0,
        b.1 > 0,
        b2.1 > 0,
    ensures
        frac_lt(a, b) <==> frac_lt(a2, b2),
        frac_le(a, b) <==> frac_le(a2, b2),
{
}

/// Adding a positive fraction to a nonnegative one gives a positive one.
pub proof fn lemma_frac_add_sign(a: (int, int), b: (int, int))
    by (nonlinear_arith)
    requires
        a.1 > 0,
        b.1 > 0,
        a.0 >= 0,
        b.0 > 0,
    ensures
        frac_add(a, b).0 > 0,
        frac_add(a, b).1 > 0,
{
}

/// Replacing a positive divisor by an equal-valued one keeps the
/// quotient's value.
pub proof fn lemma_frac_div_congr_right(a: (int, int), b: (int, int), b2: (int, int))
    requires
        frac_eq(b, b2),
        a.1 > 0,
        b.0 > 0,
        b.1 > 0,
        b2.0 > 0,
        b2.1 > 0,
    ensures
        frac_eq(frac_div(a, b), frac_div(a, b2)),
{
    assert((a.0 * b.1) * (a.1 * b2.0) == (a.0 * b2.1) * (a.1 * b.0)) by (nonlinear_arith)
        requires
            b.0 * b2.1 == b2.0 * b.1,
    {}
}

/// A value at most a second one that lies strictly below a third lies
/// strictly below the third.
pub proof fn lemma_frac_le_lt_trans(a: (int, int), b: (int, int), c: (int, int))
    by (nonlinear_arith)
    requires
        frac_le(a, b),
        frac_lt(b, c),
        a.1 > 0,
        b.1 > 0,
        c.1 > 0,
    ensures
        frac_lt(a, c),
{
}

/// Addition respects order on both sides.
pub proof fn lemma_frac_add_le_compat(a: (int, int), b: (int, int), c: (int, int), d: (int, int))
    requires
        frac_le(a, b),
        frac_le(c, d),
        a.1 > 0,
        b.1 > 0,
        c.1 > 0,
        d.1 > 0,
    ensures
        frac_le(frac_add(a, c), frac_add(b, d)),
{
    let a0 = a.0;
    let a1 = a.1;
    let b0 = b.0;
    let b1 = b.1;
    let c0 = c.0;
    let c1 = c.1;
    let d0 = d.0;
    let d1 = d.1;
    let x = a0 * c1;
    let y = c0 * a1;
    let e = b1 * d1;
    assert((x + y) * e == x * e + y * e) by (nonlinear_arith);
    assert(x * e == (a0 * b1) * (c1 * d1)) by (nonlinear_arith)
        requires
            x == a0 * c1,
            e == b1 * d1,
    {}
    assert(y * e == (c0 * d1) * (a1 * b1)) by (nonlinear_arith)
        requires
            y == c0 * a1,
            e == b1 * d1,
    {}
    let x2 = b0 * d1;
    let y2 = d0 * b1;
    let e2 = a1 * c1;
    assert((x2 + y2) * e2 == x2 * e2 + y2 * e2) by (nonlinear_arith);
    assert(x2 * e2 == (b0 * a1) * (c1 * d1)) by (nonlinear_arith)
        requires
            x2 == b0 * d1,
            e2 == a1 * c1,
    {}
    assert(y2 * e2 == (d0 * c1) * (a1 * b1)) by (nonlinear_arith)
        requires
            y2 == d0 * b1,
            e2 == a1 * c1,
    {}
    assert((a0 * b1) * (c1 * d1) <= (b0 * a1) * (c1 * d1)) by (nonlinear_arith)
        requires
            a0 * b1 <= b0 * a1,
            c1 > 0,
            d1 > 0,
    {}
    assert((c0 * d1) * (a1 * b1) <= (d0 * c1) * (a1 * b1)) by (nonlinear_arith)
        requires
            c0 * d1 <= d0 * c1,
            a1 > 0,
            b1 > 0,
    {}
}

/// Multiplication distributes over addition, by value.
#[verifier::rlimit(50)]
pub proof fn lemma_frac_mul_add_distrib(a: (int, int), b: (int, int), c: (int, int))
    requires
        a.1 > 0,
        b.1 > 0,
        c.1 > 0,
    ensures
        frac_eq(frac_mul(a, frac_add(b, c)), frac_add(frac_mul(a, b), frac_mul(a, c))),
{
    let a0 = a.0;
    let a1 = a.1;
    let b0 = b.0;
    let b1 = b.1;
    let c0 = c.0;
    let c1 = c.1;
    let lhs_num = a0 * (b0 * c1 + c0 * b1);
    let lhs_den = a1 * (b1 * c1);
    let rhs_num = (a0 * b0) * (a1 * c1) + (a0 * c0) * (a1 * b1);
    let rhs_den = (a1 * b1) * (a1 * c1);
    let p = a0 * b0 * c1;
    let q = a0 * c0 * b1;
    assert(a0 * (b0 * c1 + c0 * b1) == p + q) by (nonlinear_arith)
        requires
            p == a0 * b0 * c1,
            q == a0 * c0 * b1,
    {}
    assert((a0 * b0) * (a1 * c1) == a1 * p) by (nonlinear_arith)
        requires
            p == a0 * b0 * c1,
    {}
    assert((a0 * c0) * (a1 * b1) == a1 * q) by (nonlinear_arith)
        requires
            q == a0 * c0 * b1,
    {}
    assert(a1 * p + a1 * q == a1 * (p + q)) by (nonlinear_arith);
    assert(rhs_num == a1 * lhs_num);
    assert((a1 * b1) * (a1 * c1) == a1 * (a1 * (b1 * c1))) by (nonlinear_arith);
    assert(rhs_den == a1 * lhs_den);
    assert(lhs_num * rhs_den == rhs_num * lhs_den) by (nonlinear_arith)
        requires
            rhs_num == a1 * lhs_num,
            rhs_den == a1 * lhs_den,
    {}
}

/// Comparing a quotient against a bound is comparing against the bound
/// times the divisor, for a positive divisor.
pub proof fn lemma_frac_div_le_mul(n: int, t: (int, int), pk: (int, int))
    by (nonlinear_arith)
    requires
        t.0 > 0,
        t.1 > 0,
        pk.1 > 0,
    ensures
        frac_le(frac_div((n, 1), t), pk) <==> frac_le((n, 1), frac_mul(pk, t)),
{
}

/// Equality form of the quotient-bound equivalence.
pub proof fn lemma_frac_div_eq_mul(n: int, t: (int, int), pk: (int, int))
    by (nonlinear_arith)
    requires
        t.0 > 0,
        t.1 > 0,
        pk.1 > 0,
    ensures
        frac_eq(frac_div((n, 1), t), pk) <==> frac_eq((n, 1), frac_mul(pk, t)),
{
}

/// Strict form of the quotient-bound equivalence.
pub proof fn lemma_frac_div_lt_mul(n: int, t: (int, int), pk: (int, int))
    by (nonlinear_arith)
    requires
        t.0 > 0,
        t.1 > 0,
        pk.1 > 0,
    ensures
        frac_lt(frac_div((n, 1), t), pk) <==> frac_lt((n, 1), frac_mul(pk, t)),
{
}

/// Addition of an at-most bound and a strict bound is strict.
pub proof fn lemma_frac_add_le_lt_compat(a: (int, int), b: (int, int), c: (int, int), d: (
    int,
    int,
))
    requires
        frac_le(a, b),
        frac_lt(c, d),
        a.1 > 0,
        b.1 > 0,
        c.1 > 0,
        d.1 > 0,
    ensures
        frac_lt(frac_add(a, c), frac_add(b, d)),
{
    let a0 = a.0;
    let a1 = a.1;
    let b0 = b.0;
    let b1 = b.1;
    let c0 = c.0;
    let c1 = c.1;
    let d0 = d.0;
    let d1 = d.1;
    let x = a0 * c1;
    let y = c0 * a1;
    let e = b1 * d1;
    assert((x + y) * e == x * e + y * e) by (nonlinear_arith);
    assert(x * e == (a0 * b1) * (c1 * d1)) by (nonlinear_arith)
        requires
            x == a0 * c1,
            e == b1 * d1,
    {}
    assert(y * e == (c0 * d1) * (a1 * b1)) by (nonlinear_arith)
        requires
            y == c0 * a1,
            e == b1 * d1,
    {}
    let x2 = b0 * d1;
    let y2 = d0 * b1;
    let e2 = a1 * c1;
    assert((x2 + y2) * e2 == x2 * e2 + y2 * e2) by (nonlinear_arith);
    assert(x2 * e2 == (b0 * a1) * (c1 * d1)) by (nonlinear_arith)
        requires
            x2 == b0 * d1,
            e2 == a1 * c1,
    {}
    assert(y2 * e2 == (d0 * c1) * (a1 * b1)) by (nonlinear_arith)
        requires
            y2 == d0 * b1,
            e2 == a1 * c1,
    {}
    assert((a0 * b1) * (c1 * d1) <= (b0 * a1) * (c1 * d1)) by (nonlinear_arith)
        requires
            a0 * b1 <= b0 * a1,
            c1 > 0,
            d1 > 0,
    {}
    assert((c0 * d1) * (a1 * b1) < (d0 * c1) * (a1 * b1)) by (nonlinear_arith)
        requires
            c0 * d1 < d0 * c1,
            a1 > 0,
            b1 > 0,
    {}
}

// ---------------------------------------------------------------------------
// Bounds helpers
// ---------------------------------------------------------------------------

/// Bound on a product of two values within the symmetric `i64` range.
proof fn lemma_mul_bound_i64(x: int, y: int)
    by (nonlinear_arith)
    requires
        -0x7fff_ffff_ffff_ffff <= x <= 0x7fff_ffff_ffff_ffff,
        -0x7fff_ffff_ffff_ffff <= y <= 0x7fff_ffff_ffff_ffff,
    ensures
        -(0x7fff_ffff_ffff_ffff * 0x7fff_ffff_ffff_ffff) <= x * y,
        x * y <= 0x7fff_ffff_ffff_ffff * 0x7fff_ffff_ffff_ffff,
{
}

/// Bound on a product of two values within the full `i64` range.
proof fn lemma_mul_bound_i64_full(x: int, y: int)
    by (nonlinear_arith)
    requires
        -0x8000_0000_0000_0000 <= x <= 0x7fff_ffff_ffff_ffff,
        -0x8000_0000_0000_0000 <= y <= 0x7fff_ffff_ffff_ffff,
    ensures
        -(0x8000_0000_0000_0000 * 0x8000_0000_0000_0000) <= x * y,
        x * y <= 0x8000_0000_0000_0000 * 0x8000_0000_0000_0000,
{
}

/// A fraction in reduced form that the `i64` representation can hold.
pub open spec fn frac_fits_i64(f: (int, int)) -> bool {
    int_abs(f.0) <= 0x7fff_ffff_ffff_ffff && 0 < f.1 <= 0x7fff_ffff_ffff_ffff
}

/// The result of reducing a fraction and checking the representation
/// bound: exactly what the checked operations return.
pub open spec fn spec_normalize(f: (int, int)) -> Option<(int, int)> {
    if frac_fits_i64(norm_frac(f.0, f.1)) {
        Some(norm_frac(f.0, f.1))
    } else {
        None
    }
}

// ---------------------------------------------------------------------------
// The executable type
// ---------------------------------------------------------------------------

/// An exact rational number: `num / den` with `den` positive.
#[derive(Clone, Copy, Debug)]
pub struct Rational {
    num: i64,
    den: i64,
}

impl View for Rational {
    type V = (int, int);

    closed spec fn view(&self) -> (int, int) {
        (self.num as int, self.den as int)
    }
}

impl PartialEq for Rational {
    /// Value equality: `a/b == c/d` exactly when `a*d == c*b`.
    fn eq(&self, other: &Rational) -> (r: bool) {
        proof {
            lemma_mul_bound_i64_full(self.num as int, other.den as int);
            lemma_mul_bound_i64_full(other.num as int, self.den as int);
        }
        (self.num as i128) * (other.den as i128) == (other.num as i128) * (self.den as i128)
    }
}

impl vstd::std_specs::cmp::PartialEqSpecImpl for Rational {
    open spec fn obeys_eq_spec() -> bool {
        true
    }

    open spec fn eq_spec(&self, other: &Rational) -> bool {
        frac_eq(self@, other@)
    }
}

impl Rational {
    /// Positive denominator; the numerator stays in the symmetric range
    /// so that negation can never overflow.
    pub open spec fn well_formed(&self) -> bool {
        frac_wf(self@) && -0x7fff_ffff_ffff_ffff <= self@.0
    }

    /// Construct `numerator / denominator` in reduced form.
    pub fn new(numerator: i64, denominator: i64) -> (r: Rational)
        requires
            denominator >= 1,
            numerator > i64::MIN,
        ensures
            r.well_formed(),
            r@ == norm_frac(numerator as int, denominator as int),
            frac_eq(r@, (numerator as int, denominator as int)),
    {
        proof {
            lemma_norm_frac(numerator as int, denominator as int);
        }
        normalize_i128(numerator as i128, denominator as i128).unwrap()
    }

    /// The integer `value` as a rational.
    pub fn from_int(value: i64) -> (r: Rational)
        requires
            value > i64::MIN,
        ensures
            r.well_formed(),
            r@ == (value as int, 1int),
    {
        Rational { num: value, den: 1 }
    }

    pub fn zero() -> (r: Rational)
        ensures
            r.well_formed(),
            r@ == (0int, 1int),
    {
        Rational { num: 0, den: 1 }
    }

    pub fn one() -> (r: Rational)
        ensures
            r.well_formed(),
            r@ == (1int, 1int),
    {
        Rational { num: 1, den: 1 }
    }

    pub fn numer(&self) -> (r: i64)
        ensures
            r as int == self@.0,
    {
        self.num
    }

    pub fn denom(&self) -> (r: i64)
        ensures
            r as int == self@.1,
    {
        self.den
    }

    pub fn is_zero(&self) -> (r: bool)
        ensures
            r == (self@.0 == 0),
    {
        self.num == 0
    }

    pub fn is_positive(&self) -> (r: bool)
        ensures
            r == (self@.0 > 0),
    {
        self.num > 0
    }

    /// Strictly-below comparison of the denoted values.
    pub fn lt(&self, other: &Rational) -> (r: bool)
        requires
            self.well_formed(),
            other.well_formed(),
        ensures
            r == frac_lt(self@, other@),
    {
        proof {
            lemma_mul_bound_i64(self@.0, other@.1);
            lemma_mul_bound_i64(other@.0, self@.1);
        }
        (self.num as i128) * (other.den as i128) < (other.num as i128) * (self.den as i128)
    }

    /// At-most comparison of the denoted values.
    pub fn le(&self, other: &Rational) -> (r: bool)
        requires
            self.well_formed(),
            other.well_formed(),
        ensures
            r == frac_le(self@, other@),
    {
        proof {
            lemma_mul_bound_i64(self@.0, other@.1);
            lemma_mul_bound_i64(other@.0, self@.1);
        }
        (self.num as i128) * (other.den as i128) <= (other.num as i128) * (self.den as i128)
    }

    /// Exact sum, reduced; `None` when the reduced result leaves `i64`.
    pub fn checked_add(&self, other: &Rational) -> (r: Option<Rational>)
        requires
            self.well_formed(),
            other.well_formed(),
        ensures
            r is Some <==> spec_normalize(frac_add(self@, other@)) is Some,
            r matches Some(q) ==> q.well_formed() && q@ == spec_normalize(
                frac_add(self@, other@),
            ).unwrap() && frac_eq(q@, frac_add(self@, other@)),
    {
        proof {
            lemma_mul_bound_i64(self@.0, other@.1);
            lemma_mul_bound_i64(other@.0, self@.1);
            lemma_mul_bound_i64(self@.1, other@.1);
            assert(self@.1 * other@.1 >= 1) by (nonlinear_arith)
                requires self@.1 >= 1 && other@.1 >= 1,
            {}
            lemma_norm_frac(frac_add(self@, other@).0, frac_add(self@, other@).1);
        }
        let n: i128 = (self.num as i128) * (other.den as i128)
            + (other.num as i128) * (self.den as i128);
        let d: i128 = (self.den as i128) * (other.den as i128);
        normalize_i128(n, d)
    }

    /// Exact difference, reduced; `None` when the result leaves `i64`.
    pub fn checked_sub(&self, other: &Rational) -> (r: Option<Rational>)
        requires
            self.well_formed(),
            other.well_formed(),
        ensures
            r is Some <==> spec_normalize(frac_sub(self@, other@)) is Some,
            r matches Some(q) ==> q.well_formed() && q@ == spec_normalize(
                frac_sub(self@, other@),
            ).unwrap() && frac_eq(q@, frac_sub(self@, other@)),
    {
        proof {
            lemma_mul_bound_i64(self@.0, other@.1);
            lemma_mul_bound_i64(other@.0, self@.1);
            lemma_mul_bound_i64(self@.1, other@.1);
            assert(self@.1 * other@.1 >= 1) by (nonlinear_arith)
                requires self@.1 >= 1 && other@.1 >= 1,
            {}
            lemma_norm_frac(frac_sub(self@, other@).0, frac_sub(self@, other@).1);
        }
        let n: i128 = (self.num as i128) * (other.den as i128)
            - (other.num as i128) * (self.den as i128);
        let d: i128 = (self.den as i128) * (other.den as i128);
        normalize_i128(n, d)
    }

    /// Exact product, reduced; `None` when the result leaves `i64`.
    pub fn checked_mul(&self, other: &Rational) -> (r: Option<Rational>)
        requires
            self.well_formed(),
            other.well_formed(),
        ensures
            r is Some <==> spec_normalize(frac_mul(self@, other@)) is Some,
            r matches Some(q) ==> q.well_formed() && q@ == spec_normalize(
                frac_mul(self@, other@),
            ).unwrap() && frac_eq(q@, frac_mul(self@, other@)),
    {
        proof {
            lemma_mul_bound_i64(self@.0, other@.0);
            lemma_mul_bound_i64(self@.1, other@.1);
            assert(self@.1 * other@.1 >= 1) by (nonlinear_arith)
                requires self@.1 >= 1 && other@.1 >= 1,
            {}
            lemma_norm_frac(frac_mul(self@, other@).0, frac_mul(self@, other@).1);
        }
        let n: i128 = (self.num as i128) * (other.num as i128);
        let d: i128 = (self.den as i128) * (other.den as i128);
        normalize_i128(n, d)
    }

    /// Exact quotient, reduced; `None` when the result leaves `i64`.
    pub fn checked_div(&self, other: &Rational) -> (r: Option<Rational>)
        requires
            self.well_formed(),
            other.well_formed(),
            other@.0 != 0,
        ensures
            r is Some <==> spec_normalize(frac_div(self@, other@)) is Some,
            r matches Some(q) ==> q.well_formed() && q@ == spec_normalize(
                frac_div(self@, other@),
            ).unwrap() && frac_eq(q@, frac_div(self@, other@)),
    {
        proof {
            lemma_mul_bound_i64(self@.0, other@.1);
            lemma_mul_bound_i64(self@.1, other@.0);
        }
        let n: i128 = (self.num as i128) * (other.den as i128);
        let d: i128 = (self.den as i128) * (other.num as i128);
        if d < 0 {
            proof {
                assert(other@.0 < 0) by (nonlinear_arith)
                    requires
                        d as int == self@.1 * other@.0,
                        self@.1 >= 1,
                        (d as int) < 0,
                {}
                lemma_norm_frac(frac_div(self@, other@).0, frac_div(self@, other@).1);
            }
            normalize_i128(-n, -d)
        } else {
            proof {
                assert(d as int > 0 && other@.0 > 0) by (nonlinear_arith)
                    requires
                        d as int == self@.1 * other@.0,
                        self@.1 >= 1,
                        d as int >= 0,
                        other@.0 != 0,
                {}
                lemma_norm_frac(frac_div(self@, other@).0, frac_div(self@, other@).1);
            }
            normalize_i128(n, d)
        }
    }
}

// ---------------------------------------------------------------------------
// Reduction: executable greatest common divisor and normalization
// ---------------------------------------------------------------------------

/// Euclid's algorithm.
fn gcd_exec(a: u128, b: u128) -> (g: u128)
    ensures
        g as nat == gcd(a as nat, b as nat),
{
    let mut x: u128 = a;
    let mut y: u128 = b;
    while y != 0
        invariant
            gcd(x as nat, y as nat) == gcd(a as nat, b as nat),
        decreases y,
    {
        let r: u128 = x % y;
        x = y;
        y = r;
    }
    x
}

/// Reduce `n / d` by the greatest common divisor and return it as a
/// `Rational` when the reduced components fit in `i64`.
fn normalize_i128(n: i128, d: i128) -> (r: Option<Rational>)
    requires
        d > 0,
        n > i128::MIN,
    ensures
        r is Some <==> frac_fits_i64(norm_frac(n as int, d as int)),
        r matches Some(q) ==> q@ == norm_frac(n as int, d as int) && q.well_formed(),
{
    let un: u128 = if n < 0 { (-n) as u128 } else { n as u128 };
    let ud: u128 = d as u128;
    proof {
        assert(un as int == int_abs(n as int));
        lemma_gcd_divides(un as nat, ud as nat);
    }
    let g: u128 = gcd_exec(un, ud);
    let ghost gi: int = g as int;
    proof {
        assert(gi > 0);
        assert(divides(gi, n as int)) by {
            let k = choose|k: int| int_abs(n as int) == #[trigger] (gi * k);
            if n < 0 {
                assert(n as int == gi * (-k)) by (nonlinear_arith)
                    requires -(n as int) == gi * k,
                {}
            } else {
                assert(n as int == gi * k);
            }
        }
        lemma_exact_quotient(gi, n as int);
        lemma_exact_quotient(gi, d as int);
    }
    let rn: u128 = un / g;
    let rd: u128 = ud / g;
    proof {
        assert(rn as int == int_abs(n as int) / gi);
        assert(rd as int == d as int / gi);
        assert(int_abs(n as int) / gi == int_abs(n as int / gi)) by {
            if (n as int) < 0 {
                assert(int_abs(n as int) == gi * (-((n as int) / gi))) by (nonlinear_arith)
                    requires
                        n as int == gi * ((n as int) / gi),
                        (n as int) < 0,
                {}
                lemma_div_multiples_vanish(-((n as int) / gi), gi);
            }
        }
    }
    if rn > 0x7fff_ffff_ffff_ffff_u128 || rd > 0x7fff_ffff_ffff_ffff_u128 {
        None
    } else {
        let num: i64 = if n < 0 { -(rn as i64) } else { rn as i64 };
        let den: i64 = rd as i64;
        proof {
            assert(num as int == (n as int) / gi);
        }
        Some(Rational { num, den })
    }
}

} // verus!
