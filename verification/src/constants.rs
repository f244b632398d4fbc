//! Exact rational estimates of mathematical constants.
//!
//! Nothing here rounds. A square root is approximated by a fixed number of
//! Newton steps, pi by a fixed number of terms of the Ramanujan-Sato
//! series, and the golden ratio by the quotient of two neighbouring Lucas
//! numbers; each result is a rational number in lowest terms, and each
//! contract says exactly which one.

use crate::bigint::{
    bigint_add, bigint_from_u64, bigint_lt, bigint_mul, bigint_pow, bigint_value, bigint_values,
};
use crate::convert::ratio_of;
use crate::error::NumberError;
use crate::factorial::{factorial_of, lemma_factorial_positive};
use crate::factorials::factorial;
use crate::fraction::{
    canonical, fraction_add, fraction_div, fraction_eq, fraction_lt, fraction_mul,
    fraction_of_int, lemma_fraction_lt_congruent,
    fraction_positive, fraction_recip, lemma_canonical_unique, lemma_integer_canonical,
    lemma_lowest_terms_unique, lemma_positive_numerator, lemma_product_of, lemma_product_sign, lemma_quotient_of,
    lemma_recip_canonical, lemma_reciprocal_of, lemma_sum_of, Fraction,
};
use crate::rational::{
    ibig_from_parts, ibig_into_parts, ibig_value, rbig_add, rbig_div, rbig_from_parts,
    rbig_from_u64, rbig_into_parts, rbig_mul, rbig_numer, rbig_view, ubig_is_zero, ubig_value,
};
use crate::sequences::{
    lemma_lucas_neighbours_coprime, lemma_lucas_positive, lucas_number, lucas_sequence,
};
use dashu::rational::RBig;
use num::BigInt;
use vstd::arithmetic::power::{lemma_pow_multiplies, lemma_pow_positive, pow};
use vstd::pervasive::unreached;
use vstd::prelude::*;

verus! {

/// One Newton step towards the square root of `k`: `(x + k / x) / 2`.
pub open spec fn newton_step(k: int, x: Fraction) -> Fraction {
    fraction_div(fraction_add(x, fraction_div(fraction_of_int(k), x)), fraction_of_int(2))
}

/// The Newton iterate for the square root of `k` after the given number of
/// steps, starting from `k` itself.
pub open spec fn newton_sqrt(k: int, iterations: nat) -> Fraction
    decreases iterations,
{
    if iterations == 0 {
        fraction_of_int(k)
    } else {
        newton_step(k, newton_sqrt(k, (iterations - 1) as nat))
    }
}

/// A Newton step from a positive fraction, for a positive `k`, gives a
/// positive fraction.
pub proof fn lemma_newton_step_positive(k: int, x: Fraction)
    requires
        k > 0,
        fraction_positive(x),
    ensures
        fraction_positive(newton_step(k, x)),
{
    let (p, q) = (x.numer, x.denom);
    let quotient = fraction_div(fraction_of_int(k), x);
    lemma_product_sign(k, q);
    lemma_product_sign(1, p);
    assert(fraction_positive(quotient));
    let sum = fraction_add(x, quotient);
    lemma_product_sign(p, quotient.denom);
    lemma_product_sign(quotient.numer, q);
    lemma_product_sign(q, quotient.denom);
    assert(fraction_positive(sum));
    lemma_product_sign(sum.numer, 1);
    lemma_product_sign(sum.denom, 2);
}

/// Every Newton iterate for a positive `k` is a positive fraction.
pub proof fn lemma_newton_sqrt_positive(k: int, iterations: nat)
    requires
        k > 0,
    ensures
        fraction_positive(newton_sqrt(k, iterations)),
    decreases iterations,
{
    if iterations > 0 {
        lemma_newton_sqrt_positive(k, (iterations - 1) as nat);
        lemma_newton_step_positive(k, newton_sqrt(k, (iterations - 1) as nat));
    }
}

/// What [`approx_sqrt`] returns is fixed by its arguments: two fractions in
/// lowest terms that stand for the same Newton iterate are the same.
pub proof fn lemma_approx_sqrt_deterministic(
    k: int,
    iterations: nat,
    first: Fraction,
    second: Fraction,
)
    requires
        k > 0,
        canonical(first),
        canonical(second),
        fraction_eq(first, newton_sqrt(k, iterations)),
        fraction_eq(second, newton_sqrt(k, iterations)),
    ensures
        first == second,
{
    lemma_newton_sqrt_positive(k, iterations);
    lemma_lowest_terms_unique(first, second, newton_sqrt(k, iterations));
}

/// Approximates the square root of `number` by Newton's method: from
/// `x = number`, the step `x <- (x + number / x) / 2` is taken exactly
/// `iterations` times. Zero has no such approximation and is refused.
pub fn approx_sqrt(number: u64, iterations: usize) -> (result: Result<RBig, NumberError>)
    ensures
        match result {
            Ok(root) => {
                &&& number > 0
                &&& canonical(rbig_view(root))
                &&& fraction_eq(rbig_view(root), newton_sqrt(number as int, iterations as nat))
            },
            Err(error) => number == 0 && error == NumberError::InvalidArgument,
        },
{
    if number == 0 {
        return Err(NumberError::InvalidArgument);
    }
    let start = rbig_from_u64(number);
    let two = rbig_from_u64(2);
    let mut approx = rbig_from_u64(number);
    let mut i: usize = 0;
    proof {
        lemma_integer_canonical(number as int);
    }
    while i < iterations
        invariant
            number > 0,
            i <= iterations,
            rbig_view(start) == fraction_of_int(number as int),
            rbig_view(two) == fraction_of_int(2),
            canonical(rbig_view(approx)),
            fraction_eq(rbig_view(approx), newton_sqrt(number as int, i as nat)),
        decreases iterations - i,
    {
        let ghost k = number as int;
        let ghost x = newton_sqrt(k, i as nat);
        let ghost held = rbig_view(approx);
        proof {
            lemma_newton_sqrt_positive(k, i as nat);
            lemma_positive_numerator(held, x);
        }
        let quotient = rbig_div(&start, &approx);
        proof {
            lemma_quotient_of(rbig_view(quotient), fraction_of_int(k), held, fraction_of_int(k), x);
        }
        let sum = rbig_add(&approx, &quotient);
        proof {
            lemma_sum_of(
                rbig_view(sum),
                held,
                rbig_view(quotient),
                x,
                fraction_div(fraction_of_int(k), x),
            );
        }
        approx = rbig_div(&sum, &two);
        proof {
            lemma_quotient_of(
                rbig_view(approx),
                rbig_view(sum),
                fraction_of_int(2),
                fraction_add(x, fraction_div(fraction_of_int(k), x)),
                fraction_of_int(2),
            );
        }
        i = i + 1;
    }
    Ok(approx)
}

/// The reciprocal of a fraction: numerator and denominator change places,
/// and the sign moves to the new numerator. Zero has no reciprocal and is
/// refused.
pub fn inverse(frac: RBig) -> (result: Result<RBig, NumberError>)
    ensures
        match result {
            Ok(reciprocal) => {
                &&& rbig_numer(frac) != 0
                &&& canonical(rbig_view(reciprocal))
                &&& rbig_view(reciprocal) == fraction_recip(rbig_view(frac))
            },
            Err(error) => rbig_numer(frac) == 0 && error == NumberError::InvalidArgument,
        },
{
    let (numer, denom) = rbig_into_parts(frac);
    let (negative, size) = ibig_into_parts(numer);
    let top = ibig_from_parts(negative, denom);
    if ubig_is_zero(&size) {
        return Err(NumberError::InvalidArgument);
    }
    let ghost swapped = Fraction { numer: ibig_value(top), denom: ubig_value(size) as int };
    let reciprocal = rbig_from_parts(top, size);
    proof {
        assert(swapped == fraction_recip(rbig_view(frac)));
        lemma_recip_canonical(rbig_view(frac));
        lemma_canonical_unique(rbig_view(reciprocal), swapped);
    }
    Ok(reciprocal)
}

/// Term `i` of the Ramanujan-Sato series:
/// `(4i)! (1103 + 26390 i) / (4^(4i) (i!)^4)` times `1 / 99^(4i)`.
pub open spec fn ramanujan_term(i: nat) -> Fraction {
    fraction_mul(
        Fraction {
            numer: factorial_of(4 * i) as int * (1103 + 26390 * i as int),
            denom: pow(4, 4 * i) * pow(factorial_of(i) as int, 4),
        },
        Fraction { numer: 1, denom: pow(99, 4 * i) },
    )
}

/// The sum of the first `n` terms of the series.
pub open spec fn ramanujan_sum(n: nat) -> Fraction
    decreases n,
{
    if n == 0 {
        fraction_of_int(0)
    } else {
        fraction_add(ramanujan_sum((n - 1) as nat), ramanujan_term((n - 1) as nat))
    }
}

/// The factor in front of the series, `2 sqrt(2) / 9801`, with the square
/// root taken as its tenth Newton iterate.
pub open spec fn ramanujan_scale() -> Fraction {
    fraction_div(fraction_mul(fraction_of_int(2), newton_sqrt(2, 10)), fraction_of_int(9801))
}

/// The estimate of pi from the first `n` terms: the reciprocal of the
/// scaled partial sum.
pub open spec fn pi_ratio(n: nat) -> Fraction {
    fraction_recip(fraction_mul(ramanujan_scale(), ramanujan_sum(n)))
}

/// Every term of the series is a positive fraction.
pub proof fn lemma_ramanujan_term_positive(i: nat)
    ensures
        fraction_positive(ramanujan_term(i)),
{
    lemma_factorial_positive(4 * i);
    lemma_factorial_positive(i);
    lemma_pow_positive(4, 4 * i);
    lemma_pow_positive(factorial_of(i) as int, 4);
    lemma_pow_positive(99, 4 * i);
    let head = Fraction {
        numer: factorial_of(4 * i) as int * (1103 + 26390 * i as int),
        denom: pow(4, 4 * i) * pow(factorial_of(i) as int, 4),
    };
    lemma_product_sign(factorial_of(4 * i) as int, 1103 + 26390 * i as int);
    lemma_product_sign(pow(4, 4 * i), pow(factorial_of(i) as int, 4));
    lemma_product_sign(head.numer, 1);
    lemma_product_sign(head.denom, pow(99, 4 * i));
}

/// A partial sum has a positive denominator and a numerator that is not
/// negative; with at least one term the numerator is positive.
pub proof fn lemma_ramanujan_sum_positive(n: nat)
    ensures
        ramanujan_sum(n).denom > 0,
        ramanujan_sum(n).numer >= 0,
        n >= 1 ==> fraction_positive(ramanujan_sum(n)),
    decreases n,
{
    if n > 0 {
        let before = ramanujan_sum((n - 1) as nat);
        let term = ramanujan_term((n - 1) as nat);
        lemma_ramanujan_sum_positive((n - 1) as nat);
        lemma_ramanujan_term_positive((n - 1) as nat);
        lemma_product_sign(before.denom, term.denom);
        lemma_product_sign(term.numer, before.denom);
        assert(before.numer * term.denom >= 0) by (nonlinear_arith)
            requires
                before.numer >= 0,
                term.denom > 0,
        ;
    }
}

/// The factor in front of the series is a positive fraction.
pub proof fn lemma_ramanujan_scale_positive()
    ensures
        fraction_positive(ramanujan_scale()),
{
    let root = newton_sqrt(2, 10);
    lemma_newton_sqrt_positive(2, 10);
    lemma_product_sign(2, root.numer);
    lemma_product_sign(1, root.denom);
    let doubled = fraction_mul(fraction_of_int(2), root);
    lemma_product_sign(doubled.numer, 1);
    lemma_product_sign(doubled.denom, 9801);
}

/// With at least one term, the estimate of pi is a positive fraction.
pub proof fn lemma_pi_ratio_positive(n: nat)
    requires
        n >= 1,
    ensures
        fraction_positive(fraction_mul(ramanujan_scale(), ramanujan_sum(n))),
        fraction_positive(pi_ratio(n)),
{
    lemma_ramanujan_scale_positive();
    lemma_ramanujan_sum_positive(n);
    lemma_product_sign(ramanujan_scale().numer, ramanujan_sum(n).numer);
    lemma_product_sign(ramanujan_scale().denom, ramanujan_sum(n).denom);
}

/// With each further term the estimate of pi falls: the partial sums grow,
/// so their scaled reciprocals come down.
pub proof fn lemma_pi_estimates_fall(n: nat)
    requires
        n >= 1,
    ensures
        fraction_lt(pi_ratio(n + 1), pi_ratio(n)),
{
    let scale = ramanujan_scale();
    let sum = ramanujan_sum(n);
    let term = ramanujan_term(n);
    lemma_ramanujan_scale_positive();
    lemma_ramanujan_sum_positive(n);
    lemma_ramanujan_sum_positive(n + 1);
    lemma_ramanujan_term_positive(n);
    lemma_pi_ratio_positive(n);
    lemma_pi_ratio_positive(n + 1);
    let (an, ad) = (scale.numer, scale.denom);
    let (sn, sd) = (sum.numer, sum.denom);
    let (tn, td) = (term.numer, term.denom);
    assert(ramanujan_sum(n + 1) == fraction_add(sum, term));
    let next = ramanujan_sum(n + 1);
    let front = ad * an;
    lemma_product_sign(ad, an);
    lemma_product_sign(tn, sd);
    lemma_product_sign(sd, tn * sd);
    assert((ad * next.denom) * (an * sn) == front * (sd * (td * sn))) by (nonlinear_arith)
        requires
            next.denom == sd * td,
            front == ad * an,
    ;
    assert((ad * sd) * (an * next.numer) == front * (sd * (td * sn)) + front * (sd * (tn * sd)))
        by (nonlinear_arith)
        requires
            next.numer == sn * td + tn * sd,
            front == ad * an,
    ;
    lemma_product_sign(front, sd * (tn * sd));
}

/// The estimates that [`estimate_pi_ratio`] returns fall with each further
/// term: if `later` and `earlier` stand for the estimates from `n + 1` and
/// from `n` terms, then `later < earlier`.
pub proof fn lemma_pi_estimates_fall_as_returned(n: nat, later: Fraction, earlier: Fraction)
    requires
        n >= 1,
        later.denom > 0,
        earlier.denom > 0,
        fraction_eq(later, pi_ratio(n + 1)),
        fraction_eq(earlier, pi_ratio(n)),
    ensures
        fraction_lt(later, earlier),
{
    lemma_pi_ratio_positive(n);
    lemma_pi_ratio_positive(n + 1);
    lemma_pi_estimates_fall(n);
    lemma_fraction_lt_congruent(later, pi_ratio(n + 1), earlier, pi_ratio(n));
}

/// What [`estimate_pi_ratio`] returns is fixed by the number of terms: two
/// fractions in lowest terms that stand for the same estimate are the same.
pub proof fn lemma_pi_estimate_deterministic(n: nat, first: Fraction, second: Fraction)
    requires
        n >= 1,
        canonical(first),
        canonical(second),
        fraction_eq(first, pi_ratio(n)),
        fraction_eq(second, pi_ratio(n)),
    ensures
        first == second,
{
    lemma_pi_ratio_positive(n);
    lemma_lowest_terms_unique(first, second, pi_ratio(n));
}

/// Computes term `i` of the Ramanujan-Sato series in lowest terms.
pub fn series_term(i: usize) -> (term: RBig)
    ensures
        canonical(rbig_view(term)),
        fraction_eq(rbig_view(term), ramanujan_term(i as nat)),
{
    let index = bigint_from_u64(i as u64);
    let four_i = bigint_mul(&bigint_from_u64(4), &index);
    let linear = bigint_add(&bigint_from_u64(1103), &bigint_mul(&bigint_from_u64(26390), &index));
    let factorial_4i = match factorial(four_i) {
        Ok(value) => value,
        Err(_) => unreached(),
    };
    let factorial_i = match factorial(index) {
        Ok(value) => value,
        Err(_) => unreached(),
    };
    let top = bigint_mul(&factorial_4i, &linear);
    let power_of_4 = bigint_pow(&bigint_from_u64(256), i);
    let bottom = bigint_mul(&power_of_4, &bigint_pow(&factorial_i, 4));
    let power_of_99 = bigint_pow(&bigint_from_u64(96059601), i);
    let one = bigint_from_u64(1);
    proof {
        assert(pow(4, 4) == 256) by {
            reveal_with_fuel(pow, 5);
        }
        assert(pow(99, 4) == 96059601) by {
            reveal_with_fuel(pow, 5);
        }
        lemma_pow_multiplies(4, 4, i as nat);
        lemma_pow_multiplies(99, 4, i as nat);
        lemma_factorial_positive(i as nat);
        lemma_pow_positive(4, 4 * (i as nat));
        lemma_pow_positive(factorial_of(i as nat) as int, 4);
        lemma_pow_positive(99, 4 * (i as nat));
        lemma_product_sign(pow(4, 4 * (i as nat)), pow(factorial_of(i as nat) as int, 4));
    }
    let head = ratio_of(&top, &bottom);
    let tail = ratio_of(&one, &power_of_99);
    let term = rbig_mul(&head, &tail);
    proof {
        lemma_product_of(
            rbig_view(term),
            rbig_view(head),
            rbig_view(tail),
            Fraction { numer: bigint_value(top), denom: bigint_value(bottom) },
            Fraction { numer: 1, denom: bigint_value(power_of_99) },
        );
    }
    term
}

/// Estimates pi from the first `n_terms` terms of the Ramanujan-Sato
/// series
///
/// ```text
/// 1 / pi = (2 sqrt(2) / 9801) * sum_i (4i)! (1103 + 26390 i) / (4^(4i) (i!)^4 99^(4i))
/// ```
///
/// with the square root of 2 taken as its tenth Newton iterate. The result
/// is the exact reciprocal of the scaled partial sum. A sum of no terms is
/// zero and has no reciprocal: `n_terms = 0` is refused.
pub fn estimate_pi_ratio(n_terms: usize) -> (result: Result<RBig, NumberError>)
    ensures
        match result {
            Ok(estimate) => {
                &&& n_terms > 0
                &&& canonical(rbig_view(estimate))
                &&& fraction_eq(rbig_view(estimate), pi_ratio(n_terms as nat))
            },
            Err(error) => n_terms == 0 && error == NumberError::InvalidArgument,
        },
{
    if n_terms == 0 {
        return Err(NumberError::InvalidArgument);
    }
    let root_two = match approx_sqrt(2, 10) {
        Ok(root) => root,
        Err(error) => {
            return Err(error);
        },
    };
    let two = rbig_from_u64(2);
    let doubled = rbig_mul(&two, &root_two);
    proof {
        lemma_product_of(
            rbig_view(doubled),
            rbig_view(two),
            rbig_view(root_two),
            fraction_of_int(2),
            newton_sqrt(2, 10),
        );
    }
    let divisor = rbig_from_u64(9801);
    let scale = rbig_div(&doubled, &divisor);
    proof {
        lemma_quotient_of(
            rbig_view(scale),
            rbig_view(doubled),
            rbig_view(divisor),
            fraction_mul(fraction_of_int(2), newton_sqrt(2, 10)),
            fraction_of_int(9801),
        );
        lemma_integer_canonical(0);
    }
    let mut i: usize = 0;
    let mut sum = rbig_from_u64(0);
    while i < n_terms
        invariant
            i <= n_terms,
            canonical(rbig_view(sum)),
            fraction_eq(rbig_view(sum), ramanujan_sum(i as nat)),
        decreases n_terms - i,
    {
        let term = series_term(i);
        let ghost before = rbig_view(sum);
        sum = rbig_add(&sum, &term);
        proof {
            lemma_sum_of(
                rbig_view(sum),
                before,
                rbig_view(term),
                ramanujan_sum(i as nat),
                ramanujan_term(i as nat),
            );
        }
        i = i + 1;
    }
    let scaled = rbig_mul(&scale, &sum);
    proof {
        let product = fraction_mul(ramanujan_scale(), ramanujan_sum(n_terms as nat));
        lemma_product_of(
            rbig_view(scaled),
            rbig_view(scale),
            rbig_view(sum),
            ramanujan_scale(),
            ramanujan_sum(n_terms as nat),
        );
        lemma_pi_ratio_positive(n_terms as nat);
        lemma_positive_numerator(rbig_view(scaled), product);
    }
    match inverse(scaled) {
        Ok(estimate) => {
            proof {
                lemma_reciprocal_of(
                    rbig_view(estimate),
                    rbig_view(scaled),
                    fraction_mul(ramanujan_scale(), ramanujan_sum(n_terms as nat)),
                );
            }
            Ok(estimate)
        },
        Err(error) => Err(error),
    }
}

/// The fraction that [`golden_ratio`] stands for: zero below 2, and from
/// there on the quotient of the last two of the first `n` Lucas numbers.
pub open spec fn lucas_ratio(n: int) -> Fraction {
    if n < 2 {
        fraction_of_int(0)
    } else {
        Fraction { numer: lucas_number((n - 1) as nat), denom: lucas_number((n - 2) as nat) }
    }
}

/// Estimates the golden ratio as `L(n-1) / L(n-2)`, the quotient of the
/// last two of the first `n` Lucas numbers. For `n` below 2 there are no
/// two such numbers, and the result is zero.
pub fn golden_ratio(n: BigInt) -> (ratio: RBig)
    ensures
        canonical(rbig_view(ratio)),
        rbig_view(ratio) == lucas_ratio(bigint_value(n)),
{
    let two = bigint_from_u64(2);
    if bigint_lt(&n, &two) {
        proof {
            lemma_integer_canonical(0);
        }
        return rbig_from_u64(0);
    }
    let lucas = lucas_sequence(n);
    let len = lucas.len();
    proof {
        let values = bigint_values(lucas@);
        assert(values[len - 1] == bigint_value(lucas@[len - 1]));
        assert(values[len - 2] == bigint_value(lucas@[len - 2]));
        lemma_lucas_positive((len - 2) as nat);
        lemma_lucas_positive((len - 1) as nat);
        lemma_lucas_neighbours_coprime((len - 2) as nat);
    }
    let ratio = ratio_of(&lucas[len - 1], &lucas[len - 2]);
    proof {
        lemma_canonical_unique(rbig_view(ratio), lucas_ratio(len as int));
    }
    ratio
}

} // verus!
