//! How Newton's iteration for a square root closes in on its limit.
//!
//! From the starting value on, every iterate lies above the root, each step
//! moves down, and each step is shorter than the one before.

use crate::constants::{
    lemma_newton_sqrt_positive, lemma_newton_step_positive, newton_sqrt, newton_step,
};
use crate::fraction::{
    fraction_abs, fraction_add, fraction_div, fraction_eq, fraction_lt, fraction_of_int,
    fraction_positive, fraction_sub, lemma_fraction_abs_congruent, lemma_fraction_lt_congruent,
    lemma_fraction_sub_congruent, lemma_product_sign, Fraction,
};
use vstd::prelude::*;

verus! {

/// How far `p / q` lies above the root of `k`, as `p^2 - k q^2`.
pub open spec fn excess(k: int, x: Fraction) -> int {
    x.numer * x.numer - k * (x.denom * x.denom)
}

/// The parts of a Newton step from `p / q`: `(p^2 + k q^2) / (2 p q)`.
pub proof fn lemma_newton_step_parts(k: int, x: Fraction)
    ensures
        newton_step(k, x).numer == x.numer * x.numer + k * (x.denom * x.denom),
        newton_step(k, x).denom == 2 * (x.numer * x.denom),
{
    let (p, q) = (x.numer, x.denom);
    let quotient = fraction_div(fraction_of_int(k), x);
    assert(quotient.numer == k * q);
    assert(quotient.denom == p) by (nonlinear_arith)
        requires
            quotient.denom == 1 * p,
    ;
    let sum = fraction_add(x, quotient);
    assert(sum.numer == p * p + k * (q * q)) by (nonlinear_arith)
        requires
            sum.numer == p * quotient.denom + quotient.numer * q,
            quotient.numer == k * q,
            quotient.denom == p,
    ;
    assert(sum.denom == p * q) by (nonlinear_arith)
        requires
            sum.denom == q * quotient.denom,
            quotient.denom == p,
    ;
    let halved = fraction_div(sum, fraction_of_int(2));
    assert(halved.numer == sum.numer) by (nonlinear_arith)
        requires
            halved.numer == sum.numer * 1,
    ;
    assert(halved.denom == 2 * (p * q)) by (nonlinear_arith)
        requires
            halved.denom == sum.denom * 2,
            sum.denom == p * q,
    ;
}

/// After a Newton step the excess is the square of what it was.
pub proof fn lemma_excess_squares(k: int, x: Fraction)
    ensures
        excess(k, newton_step(k, x)) == excess(k, x) * excess(k, x),
{
    let (p, q) = (x.numer, x.denom);
    let next = newton_step(k, x);
    lemma_newton_step_parts(k, x);
    let a = p * p;
    let b = k * (q * q);
    assert(next.numer * next.numer == (a + b) * (a + b));
    assert(k * (next.denom * next.denom) == 4 * (a * b)) by (nonlinear_arith)
        requires
            next.denom == 2 * (p * q),
            a == p * p,
            b == k * (q * q),
    ;
    assert((a + b) * (a + b) - 4 * (a * b) == (a - b) * (a - b)) by (nonlinear_arith);
}

/// For `k` from 2 on, every Newton iterate lies above the root.
pub proof fn lemma_newton_above_root(k: int, iterations: nat)
    requires
        k >= 2,
    ensures
        excess(k, newton_sqrt(k, iterations)) > 0,
    decreases iterations,
{
    if iterations == 0 {
        assert(k * k - k * (1 * 1) > 0) by (nonlinear_arith)
            requires
                k >= 2,
        ;
    } else {
        let before = newton_sqrt(k, (iterations - 1) as nat);
        lemma_newton_above_root(k, (iterations - 1) as nat);
        lemma_excess_squares(k, before);
        lemma_product_sign(excess(k, before), excess(k, before));
    }
}

/// The step down from `x`, as the fraction `x - newton_step(k, x)`:
/// its numerator is `q (p^2 - k q^2)` over the denominator `q * 2 p q`.
pub proof fn lemma_step_down(k: int, x: Fraction)
    ensures
        fraction_sub(x, newton_step(k, x)).numer == x.denom * excess(k, x),
        fraction_sub(x, newton_step(k, x)).denom == x.denom * newton_step(k, x).denom,
{
    let (p, q) = (x.numer, x.denom);
    let next = newton_step(k, x);
    lemma_newton_step_parts(k, x);
    assert(p * next.denom - next.numer * q == q * (p * p - k * (q * q))) by (nonlinear_arith)
        requires
            next.numer == p * p + k * (q * q),
            next.denom == 2 * (p * q),
    ;
}

/// From a positive fraction above the root of a positive `k`, the second
/// Newton step is shorter than the first, and both go down.
pub proof fn lemma_steps_shrink(k: int, x: Fraction)
    requires
        k > 0,
        fraction_positive(x),
        excess(k, x) > 0,
    ensures
        fraction_positive(fraction_sub(x, newton_step(k, x))),
        fraction_positive(fraction_sub(newton_step(k, x), newton_step(k, newton_step(k, x)))),
        fraction_lt(
            fraction_sub(newton_step(k, x), newton_step(k, newton_step(k, x))),
            fraction_sub(x, newton_step(k, x)),
        ),
{
    let (p, q) = (x.numer, x.denom);
    let y = newton_step(k, x);
    let z = newton_step(k, y);
    let (yn, yd) = (y.numer, y.denom);
    let zd = z.denom;
    let d = excess(k, x);
    let dy = excess(k, y);
    lemma_newton_step_positive(k, x);
    lemma_newton_step_positive(k, y);
    lemma_newton_step_parts(k, x);
    lemma_newton_step_parts(k, y);
    lemma_excess_squares(k, x);
    lemma_step_down(k, x);
    lemma_step_down(k, y);
    let first = fraction_sub(x, y);
    let second = fraction_sub(y, z);
    lemma_product_sign(d, d);
    lemma_product_sign(q, d);
    lemma_product_sign(q, yd);
    lemma_product_sign(yd, dy);
    lemma_product_sign(yd, zd);
    assert(fraction_positive(first));
    assert(fraction_positive(second));
    // second < first  <==>  (yd d^2) (q yd) < (q d) (yd zd), where zd = 2 yn yd
    let common = (q * yd) * (yd * d);
    lemma_product_sign(yd, d);
    lemma_product_sign(q * yd, yd * d);
    assert(second.numer * first.denom == common * d) by (nonlinear_arith)
        requires
            second.numer == yd * dy,
            dy == d * d,
            first.denom == q * yd,
            common == (q * yd) * (yd * d),
    ;
    assert(first.numer * second.denom == common * (2 * yn)) by (nonlinear_arith)
        requires
            first.numer == q * d,
            second.denom == yd * zd,
            zd == 2 * (yn * yd),
            common == (q * yd) * (yd * d),
    ;
    assert(d < 2 * yn) by (nonlinear_arith)
        requires
            d == p * p - k * (q * q),
            yn == p * p + k * (q * q),
            k > 0,
            q > 0,
            p > 0,
    ;
    assert(common * d < common * (2 * yn)) by (nonlinear_arith)
        requires
            common > 0,
            d < 2 * yn,
    ;
}

/// Monotonic convergence of the Newton iterates of `k`, for `k` from 2 on:
/// the distance between one iterate and the next strictly decreases from
/// step to step.
pub proof fn lemma_newton_gaps_shrink(k: int, i: nat)
    requires
        k >= 2,
    ensures
        fraction_lt(
            fraction_abs(fraction_sub(newton_sqrt(k, i + 1), newton_sqrt(k, i + 2))),
            fraction_abs(fraction_sub(newton_sqrt(k, i), newton_sqrt(k, i + 1))),
        ),
{
    let x = newton_sqrt(k, i);
    lemma_newton_sqrt_positive(k, i);
    lemma_newton_above_root(k, i);
    lemma_steps_shrink(k, x);
    assert(newton_sqrt(k, i + 1) == newton_step(k, x));
    assert(newton_sqrt(k, i + 2) == newton_step(k, newton_sqrt(k, i + 1)));
}

/// Monotonic convergence of what [`crate::constants::approx_sqrt`] returns:
/// if `a`, `b` and `c` are the results for `i`, `i + 1` and `i + 2`
/// iterations on a `k` from 2 on, then `|b - c| < |a - b|`.
pub proof fn lemma_approx_sqrt_gaps_shrink(k: int, i: nat, a: Fraction, b: Fraction, c: Fraction)
    requires
        k >= 2,
        a.denom > 0,
        b.denom > 0,
        c.denom > 0,
        fraction_eq(a, newton_sqrt(k, i)),
        fraction_eq(b, newton_sqrt(k, i + 1)),
        fraction_eq(c, newton_sqrt(k, i + 2)),
    ensures
        fraction_lt(fraction_abs(fraction_sub(b, c)), fraction_abs(fraction_sub(a, b))),
{
    let (x, y, z) = (newton_sqrt(k, i), newton_sqrt(k, i + 1), newton_sqrt(k, i + 2));
    lemma_newton_sqrt_positive(k, i);
    lemma_newton_sqrt_positive(k, i + 1);
    lemma_newton_sqrt_positive(k, i + 2);
    lemma_newton_gaps_shrink(k, i);
    lemma_fraction_sub_congruent(a, x, b, y);
    lemma_fraction_sub_congruent(b, y, c, z);
    lemma_product_sign(a.denom, b.denom);
    lemma_product_sign(b.denom, c.denom);
    lemma_product_sign(x.denom, y.denom);
    lemma_product_sign(y.denom, z.denom);
    lemma_fraction_abs_congruent(fraction_sub(a, b), fraction_sub(x, y));
    lemma_fraction_abs_congruent(fraction_sub(b, c), fraction_sub(y, z));
    lemma_fraction_lt_congruent(
        fraction_abs(fraction_sub(b, c)),
        fraction_abs(fraction_sub(y, z)),
        fraction_abs(fraction_sub(a, b)),
        fraction_abs(fraction_sub(x, y)),
    );
}

} // verus!
