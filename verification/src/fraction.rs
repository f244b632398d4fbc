//! The mathematics of fractions, as the contracts of this crate use it.
//!
//! A [`Fraction`] is a pair of integers read as `numer / denom`. Two
//! fractions stand for the same rational number when they agree after
//! cross-multiplication ([`fraction_eq`]); of all the fractions that stand
//! for one number, exactly one is [`canonical`]. The arithmetic below does
//! not reduce its results: it says which number is meant, and leaves the
//! choice of representative to whoever computes it.

use vstd::arithmetic::div_mod::{lemma_fundamental_div_mod, lemma_small_mod};
use vstd::prelude::*;

verus! {

/// A pair of integers read as `numer / denom`.
pub struct Fraction {
    pub numer: int,
    pub denom: int,
}

/// The fraction `v / 1`.
pub open spec fn fraction_of_int(v: int) -> Fraction {
    Fraction { numer: v, denom: 1 }
}

/// `a` and `b` stand for the same rational number.
pub open spec fn fraction_eq(a: Fraction, b: Fraction) -> bool {
    a.numer * b.denom == b.numer * a.denom
}

/// `a + b`, not reduced.
pub open spec fn fraction_add(a: Fraction, b: Fraction) -> Fraction {
    Fraction { numer: a.numer * b.denom + b.numer * a.denom, denom: a.denom * b.denom }
}

/// `a - b`, not reduced.
pub open spec fn fraction_sub(a: Fraction, b: Fraction) -> Fraction {
    Fraction { numer: a.numer * b.denom - b.numer * a.denom, denom: a.denom * b.denom }
}

/// `|a|`: both parts without their signs.
pub open spec fn fraction_abs(a: Fraction) -> Fraction {
    Fraction { numer: magnitude(a.numer) as int, denom: magnitude(a.denom) as int }
}

/// `a < b`, for fractions with positive denominators.
pub open spec fn fraction_lt(a: Fraction, b: Fraction) -> bool {
    a.numer * b.denom < b.numer * a.denom
}

/// `a * b`, not reduced.
pub open spec fn fraction_mul(a: Fraction, b: Fraction) -> Fraction {
    Fraction { numer: a.numer * b.numer, denom: a.denom * b.denom }
}

/// `a / b`, not reduced.
pub open spec fn fraction_div(a: Fraction, b: Fraction) -> Fraction {
    Fraction { numer: a.numer * b.denom, denom: a.denom * b.numer }
}

/// `1 / a`: numerator and denominator change places, and the sign of the
/// old numerator moves to the new one.
pub open spec fn fraction_recip(a: Fraction) -> Fraction {
    if a.numer < 0 {
        Fraction { numer: -a.denom, denom: -a.numer }
    } else {
        Fraction { numer: a.denom, denom: a.numer }
    }
}

/// Both parts of `a` are positive.
pub open spec fn fraction_positive(a: Fraction) -> bool {
    a.numer > 0 && a.denom > 0
}

/// The absolute value of an integer.
pub open spec fn magnitude(v: int) -> nat {
    if v < 0 {
        (-v) as nat
    } else {
        v as nat
    }
}

/// The greatest common divisor, by Euclid's algorithm; `gcd(a, 0) = a`.
pub open spec fn gcd(a: nat, b: nat) -> nat
    decreases b,
{
    if b == 0 {
        a
    } else {
        gcd(b, a % b)
    }
}

/// `a` is in lowest terms: the denominator is positive and shares no
/// factor with the numerator. Zero is `0 / 1`.
pub open spec fn canonical(a: Fraction) -> bool {
    a.denom > 0 && gcd(magnitude(a.numer), a.denom as nat) == 1
}

/// A product of two positive integers is positive, and a product with a
/// non-zero integer is zero only if the other factor is.
pub proof fn lemma_product_sign(x: int, y: int)
    ensures
        x > 0 && y > 0 ==> x * y > 0,
        x != 0 && y != 0 ==> x * y != 0,
{
    assert(x > 0 && y > 0 ==> x * y > 0) by (nonlinear_arith);
    assert(x != 0 && y != 0 ==> x * y != 0) by (nonlinear_arith);
}

/// Standing for the same number is transitive, as long as the fraction in
/// the middle has a denominator.
pub proof fn lemma_fraction_eq_transitive(a: Fraction, b: Fraction, c: Fraction)
    requires
        b.denom != 0,
        fraction_eq(a, b),
        fraction_eq(b, c),
    ensures
        fraction_eq(a, c),
{
    let (an, ad, bn, bd, cn, cd) = (a.numer, a.denom, b.numer, b.denom, c.numer, c.denom);
    assert((an * cd - cn * ad) * bd == 0) by (nonlinear_arith)
        requires
            an * bd == bn * ad,
            bn * cd == cn * bd,
    {
        assert((an * bd) * cd == (bn * ad) * cd);
        assert((bn * cd) * ad == (cn * bd) * ad);
    }
    assert(an * cd - cn * ad == 0) by (nonlinear_arith)
        requires
            (an * cd - cn * ad) * bd == 0,
            bd != 0,
    ;
}

/// Addition does not depend on the representatives chosen.
pub proof fn lemma_fraction_add_congruent(a: Fraction, a2: Fraction, b: Fraction, b2: Fraction)
    requires
        fraction_eq(a, a2),
        fraction_eq(b, b2),
    ensures
        fraction_eq(fraction_add(a, b), fraction_add(a2, b2)),
{
    let (an, ad, bn, bd) = (a.numer, a.denom, b.numer, b.denom);
    let (xn, xd, yn, yd) = (a2.numer, a2.denom, b2.numer, b2.denom);
    assert((an * bd) * (xd * yd) == (an * xd) * (bd * yd)) by (nonlinear_arith);
    assert((bn * ad) * (xd * yd) == (bn * yd) * (ad * xd)) by (nonlinear_arith);
    assert((xn * yd) * (ad * bd) == (xn * ad) * (bd * yd)) by (nonlinear_arith);
    assert((yn * xd) * (ad * bd) == (yn * bd) * (ad * xd)) by (nonlinear_arith);
    assert((an * bd + bn * ad) * (xd * yd) == (an * bd) * (xd * yd) + (bn * ad) * (xd * yd))
        by (nonlinear_arith);
    assert((xn * yd + yn * xd) * (ad * bd) == (xn * yd) * (ad * bd) + (yn * xd) * (ad * bd))
        by (nonlinear_arith);
}

/// Subtraction does not depend on the representatives chosen.
pub proof fn lemma_fraction_sub_congruent(a: Fraction, a2: Fraction, b: Fraction, b2: Fraction)
    requires
        fraction_eq(a, a2),
        fraction_eq(b, b2),
    ensures
        fraction_eq(fraction_sub(a, b), fraction_sub(a2, b2)),
{
    let (an, ad, bn, bd) = (a.numer, a.denom, b.numer, b.denom);
    let (xn, xd, yn, yd) = (a2.numer, a2.denom, b2.numer, b2.denom);
    assert((an * bd) * (xd * yd) == (an * xd) * (bd * yd)) by (nonlinear_arith);
    assert((bn * ad) * (xd * yd) == (bn * yd) * (ad * xd)) by (nonlinear_arith);
    assert((xn * yd) * (ad * bd) == (xn * ad) * (bd * yd)) by (nonlinear_arith);
    assert((yn * xd) * (ad * bd) == (yn * bd) * (ad * xd)) by (nonlinear_arith);
    assert((an * bd - bn * ad) * (xd * yd) == (an * bd) * (xd * yd) - (bn * ad) * (xd * yd))
        by (nonlinear_arith);
    assert((xn * yd - yn * xd) * (ad * bd) == (xn * yd) * (ad * bd) - (yn * xd) * (ad * bd))
        by (nonlinear_arith);
}

/// The absolute value does not depend on the representative chosen, among
/// fractions with positive denominators.
pub proof fn lemma_fraction_abs_congruent(a: Fraction, a2: Fraction)
    requires
        a.denom > 0,
        a2.denom > 0,
        fraction_eq(a, a2),
    ensures
        fraction_eq(fraction_abs(a), fraction_abs(a2)),
{
    let (n, d, m, e) = (a.numer, a.denom, a2.numer, a2.denom);
    assert((n < 0 <==> m < 0) && (n == 0 <==> m == 0)) by (nonlinear_arith)
        requires
            n * e == m * d,
            d > 0,
            e > 0,
    ;
    assert((-n) * e == (-m) * d) by (nonlinear_arith)
        requires
            n * e == m * d,
    ;
}

/// The order does not depend on the representatives chosen, among
/// fractions with positive denominators.
pub proof fn lemma_fraction_lt_congruent(a: Fraction, a2: Fraction, b: Fraction, b2: Fraction)
    requires
        a.denom > 0,
        a2.denom > 0,
        b.denom > 0,
        b2.denom > 0,
        fraction_eq(a, a2),
        fraction_eq(b, b2),
        fraction_lt(a2, b2),
    ensures
        fraction_lt(a, b),
{
    let (an, ad, bn, bd) = (a.numer, a.denom, b.numer, b.denom);
    let (xn, xd, yn, yd) = (a2.numer, a2.denom, b2.numer, b2.denom);
    assert((an * bd) * (xd * yd) == (an * xd) * (bd * yd)) by (nonlinear_arith);
    assert((bn * ad) * (xd * yd) == (bn * yd) * (ad * xd)) by (nonlinear_arith);
    assert((xn * ad) * (bd * yd) == (xn * yd) * (ad * bd)) by (nonlinear_arith);
    assert((yn * bd) * (ad * xd) == (yn * xd) * (ad * bd)) by (nonlinear_arith);
    lemma_product_sign(ad, bd);
    lemma_product_sign(xd, yd);
    assert((xn * yd) * (ad * bd) < (yn * xd) * (ad * bd)) by (nonlinear_arith)
        requires
            xn * yd < yn * xd,
            ad * bd > 0,
    ;
    assert(an * bd < bn * ad) by (nonlinear_arith)
        requires
            (an * bd) * (xd * yd) < (bn * ad) * (xd * yd),
            xd * yd > 0,
    ;
}

/// Multiplication does not depend on the representatives chosen.
pub proof fn lemma_fraction_mul_congruent(a: Fraction, a2: Fraction, b: Fraction, b2: Fraction)
    requires
        fraction_eq(a, a2),
        fraction_eq(b, b2),
    ensures
        fraction_eq(fraction_mul(a, b), fraction_mul(a2, b2)),
{
    let (an, ad, bn, bd) = (a.numer, a.denom, b.numer, b.denom);
    let (xn, xd, yn, yd) = (a2.numer, a2.denom, b2.numer, b2.denom);
    assert((an * bn) * (xd * yd) == (xn * yn) * (ad * bd)) by (nonlinear_arith)
        requires
            an * xd == xn * ad,
            bn * yd == yn * bd,
    {
        assert((an * bn) * (xd * yd) == (an * xd) * (bn * yd));
        assert((xn * yn) * (ad * bd) == (xn * ad) * (yn * bd));
    }
}

/// Division does not depend on the representatives chosen.
pub proof fn lemma_fraction_div_congruent(a: Fraction, a2: Fraction, b: Fraction, b2: Fraction)
    requires
        fraction_eq(a, a2),
        fraction_eq(b, b2),
    ensures
        fraction_eq(fraction_div(a, b), fraction_div(a2, b2)),
{
    let (an, ad, bn, bd) = (a.numer, a.denom, b.numer, b.denom);
    let (xn, xd, yn, yd) = (a2.numer, a2.denom, b2.numer, b2.denom);
    assert((an * bd) * (xd * yn) == (xn * yd) * (ad * bn)) by (nonlinear_arith)
        requires
            an * xd == xn * ad,
            bn * yd == yn * bd,
    {
        assert((an * bd) * (xd * yn) == (an * xd) * (yn * bd));
        assert((xn * yd) * (ad * bn) == (xn * ad) * (bn * yd));
    }
}

/// The reciprocal does not depend on the representative chosen.
pub proof fn lemma_fraction_recip_congruent(a: Fraction, a2: Fraction)
    requires
        fraction_eq(a, a2),
    ensures
        fraction_eq(fraction_recip(a), fraction_recip(a2)),
{
    let (n, d, m, e) = (a.numer, a.denom, a2.numer, a2.denom);
    assert(d * m == e * n && (-d) * m == e * (-n) && d * (-m) == (-e) * n && (-d) * (-m) == (-e)
        * (-n)) by (nonlinear_arith)
        requires
            n * e == m * d,
    ;
}

/// If `r` stands for `a + b`, it stands for the sum of any other
/// representatives of the two.
pub proof fn lemma_sum_of(r: Fraction, a: Fraction, b: Fraction, a2: Fraction, b2: Fraction)
    requires
        a.denom != 0,
        b.denom != 0,
        fraction_eq(r, fraction_add(a, b)),
        fraction_eq(a, a2),
        fraction_eq(b, b2),
    ensures
        fraction_eq(r, fraction_add(a2, b2)),
{
    lemma_product_sign(a.denom, b.denom);
    lemma_fraction_add_congruent(a, a2, b, b2);
    lemma_fraction_eq_transitive(r, fraction_add(a, b), fraction_add(a2, b2));
}

/// If `r` stands for `a * b`, it stands for the product of any other
/// representatives of the two.
pub proof fn lemma_product_of(r: Fraction, a: Fraction, b: Fraction, a2: Fraction, b2: Fraction)
    requires
        a.denom != 0,
        b.denom != 0,
        fraction_eq(r, fraction_mul(a, b)),
        fraction_eq(a, a2),
        fraction_eq(b, b2),
    ensures
        fraction_eq(r, fraction_mul(a2, b2)),
{
    lemma_product_sign(a.denom, b.denom);
    lemma_fraction_mul_congruent(a, a2, b, b2);
    lemma_fraction_eq_transitive(r, fraction_mul(a, b), fraction_mul(a2, b2));
}

/// If `r` stands for `a / b`, it stands for the quotient of any other
/// representatives of the two.
pub proof fn lemma_quotient_of(r: Fraction, a: Fraction, b: Fraction, a2: Fraction, b2: Fraction)
    requires
        a.denom != 0,
        b.numer != 0,
        fraction_eq(r, fraction_div(a, b)),
        fraction_eq(a, a2),
        fraction_eq(b, b2),
    ensures
        fraction_eq(r, fraction_div(a2, b2)),
{
    lemma_product_sign(a.denom, b.numer);
    lemma_fraction_div_congruent(a, a2, b, b2);
    lemma_fraction_eq_transitive(r, fraction_div(a, b), fraction_div(a2, b2));
}

/// If `r` stands for `1 / a`, it stands for the reciprocal of any other
/// representative of `a`.
pub proof fn lemma_reciprocal_of(r: Fraction, a: Fraction, a2: Fraction)
    requires
        a.numer != 0,
        fraction_eq(r, fraction_recip(a)),
        fraction_eq(a, a2),
    ensures
        fraction_eq(r, fraction_recip(a2)),
{
    lemma_fraction_recip_congruent(a, a2);
    lemma_fraction_eq_transitive(r, fraction_recip(a), fraction_recip(a2));
}

/// An integer over 1 is in lowest terms.
pub proof fn lemma_integer_canonical(v: int)
    ensures
        canonical(fraction_of_int(v)),
{
    let m = magnitude(v);
    assert(gcd(m, 1) == gcd(1, m % 1));
    assert(gcd(1, 0) == 1);
}

/// The greatest common divisor does not depend on the order of its
/// arguments.
pub proof fn lemma_gcd_symmetric(a: nat, b: nat)
    ensures
        gcd(a, b) == gcd(b, a),
{
    if a < b {
        lemma_small_mod(a, b);
        assert(gcd(a, b) == gcd(b, a % b));
    } else if b < a {
        lemma_small_mod(b, a);
        assert(gcd(b, a) == gcd(a, b % a));
    }
}

/// Bezout's identity: the greatest common divisor of `a` and `b` is a
/// combination `a * x + b * y` of the two. The coefficients are returned.
pub proof fn lemma_bezout(a: nat, b: nat) -> (c: (int, int))
    ensures
        a * c.0 + b * c.1 == gcd(a, b),
    decreases b,
{
    if b == 0 {
        (1, 0)
    } else {
        let (x, y) = lemma_bezout(b, a % b);
        let q = (a / b) as int;
        let r = (a % b) as int;
        lemma_fundamental_div_mod(a as int, b as int);
        assert(a * y + b * (x - q * y) == b * x + r * y) by (nonlinear_arith)
            requires
                a == b * q + r,
        ;
        (y, x - q * y)
    }
}

/// For a fraction `p / q` in lowest terms, a positive `q` divides every
/// `d` with `p * d == n * q`. The quotient is returned.
proof fn lemma_denominator_divides(p: int, q: int, n: int, d: int) -> (k: int)
    requires
        canonical(Fraction { numer: p, denom: q }),
        p * d == n * q,
    ensures
        d == q * k,
{
    let (x0, y) = lemma_bezout(magnitude(p), q as nat);
    let x = if p < 0 {
        -x0
    } else {
        x0
    };
    assert(p * x + q * y == 1) by (nonlinear_arith)
        requires
            magnitude(p) * x0 + q * y == 1,
            p < 0 ==> x == -x0 && magnitude(p) == -p,
            p >= 0 ==> x == x0 && magnitude(p) == p,
    ;
    let k = n * x + d * y;
    assert(d == q * k) by (nonlinear_arith)
        requires
            p * x + q * y == 1,
            p * d == n * q,
            k == n * x + d * y,
    {
        assert(d * (p * x + q * y) == (p * d) * x + q * (d * y));
        assert((n * q) * x + q * (d * y) == q * (n * x + d * y));
    }
    k
}

/// A rational number has one representative in lowest terms: two
/// canonical fractions that stand for the same number are the same.
pub proof fn lemma_canonical_unique(a: Fraction, b: Fraction)
    requires
        canonical(a),
        canonical(b),
        fraction_eq(a, b),
    ensures
        a == b,
{
    let (p, q, n, d) = (a.numer, a.denom, b.numer, b.denom);
    let k = lemma_denominator_divides(p, q, n, d);
    assert(n * q == p * d);
    let m = lemma_denominator_divides(n, d, p, q);
    assert(q == d) by (nonlinear_arith)
        requires
            d == q * k,
            q == d * m,
            q > 0,
            d > 0,
    ;
    assert(p == n) by (nonlinear_arith)
        requires
            p * d == n * q,
            q == d,
            q > 0,
    ;
}

/// A number has one fraction in lowest terms: two canonical fractions that
/// stand for the same number as a third are the same.
pub proof fn lemma_lowest_terms_unique(a: Fraction, b: Fraction, x: Fraction)
    requires
        canonical(a),
        canonical(b),
        x.denom != 0,
        fraction_eq(a, x),
        fraction_eq(b, x),
    ensures
        a == b,
{
    lemma_fraction_eq_transitive(a, x, b);
    lemma_canonical_unique(a, b);
}

/// The reciprocal of a non-zero fraction in lowest terms is in lowest
/// terms.
pub proof fn lemma_recip_canonical(a: Fraction)
    requires
        canonical(a),
        a.numer != 0,
    ensures
        canonical(fraction_recip(a)),
{
    lemma_gcd_symmetric(magnitude(a.numer), a.denom as nat);
}

/// A fraction with a positive denominator that stands for the same number
/// as a positive fraction has a positive numerator.
pub proof fn lemma_positive_numerator(a: Fraction, b: Fraction)
    requires
        a.denom > 0,
        fraction_positive(b),
        fraction_eq(a, b),
    ensures
        a.numer > 0,
{
    assert(a.numer > 0) by (nonlinear_arith)
        requires
            a.denom > 0,
            b.numer > 0,
            b.denom > 0,
            a.numer * b.denom == b.numer * a.denom,
    ;
}

} // verus!
