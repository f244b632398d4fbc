//! Euclid's theorem on perfect numbers: if `2^p - 1` is prime, then
//! `2^(p-1) (2^p - 1)` equals the sum of its proper divisors.
//!
//! The divisors of such a number are the powers of two up to `2^(p-1)` and
//! the same powers times the prime. The sum over all that lie below a bound
//! is followed from one divisor to the next.

use crate::perfect_numbers::{divisor_sum, is_perfect, lemma_divisor_sum_skips};
use crate::primes::is_prime_number;
use vstd::arithmetic::div_mod::{lemma_fundamental_div_mod, lemma_mod_multiples_basic};
use vstd::arithmetic::power2::{
    lemma2_to64, lemma_pow2_adds, lemma_pow2_pos, lemma_pow2_strictly_increases,
    lemma_pow2_unfold, pow2,
};
use vstd::prelude::*;

verus! {

/// `d` is `2^j` or `2^j q` for some `j` up to `k`.
pub open spec fn is_power_or_multiple(d: int, k: nat, q: int) -> bool {
    exists|j: nat| j <= k && (d == #[trigger] pow2(j) || d == pow2(j) * q)
}

/// A multiple of `d`, written as a product, leaves no remainder.
proof fn lemma_product_divides(d: int, c: int)
    requires
        d > 0,
    ensures
        (d * c) % d == 0,
{
    lemma_mod_multiples_basic(c, d);
    assert(c * d == d * c) by (nonlinear_arith);
}

/// A positive number that leaves no remainder is a product with its
/// quotient, and its divisor does not exceed it.
proof fn lemma_divisor_bound(n: int, d: int)
    requires
        n >= 1,
        d >= 1,
        n % d == 0,
    ensures
        n == d * (n / d),
        n / d >= 1,
        d <= n,
{
    lemma_fundamental_div_mod(n, d);
    let c = n / d;
    assert(c >= 1 && d <= n) by (nonlinear_arith)
        requires
            n == d * c,
            n >= 1,
            d >= 1,
    ;
}

/// The divisors of `2^k q`, for an odd prime `q`, are the powers of two up
/// to `2^k` and their products with `q`.
pub proof fn lemma_divisors_of_power_times_prime(d: int, k: nat, q: int)
    requires
        is_prime_number(q),
        q % 2 == 1,
        d >= 1,
        (pow2(k) * q) % d == 0,
    ensures
        is_power_or_multiple(d, k, q),
    decreases k,
{
    lemma_pow2_pos(k);
    let n = pow2(k) * q;
    assert(n >= 1) by (nonlinear_arith)
        requires
            n == pow2(k) * q,
            pow2(k) >= 1,
            q >= 2,
    ;
    lemma_divisor_bound(n, d);
    let c = n / d;
    if k == 0 {
        assert(pow2(0) == 1) by {
            lemma2_to64();
        }
        assert(n == q) by (nonlinear_arith)
            requires
                n == pow2(k) * q,
                pow2(k) == 1,
        ;
        if d != 1 && d != q {
            assert(q % d != 0);
        }
        assert(d == pow2(0) || d == pow2(0) * q) by (nonlinear_arith)
            requires
                d == 1 || d == q,
                pow2(0) == 1,
        ;
    } else {
        let lower = (k - 1) as nat;
        lemma_pow2_unfold(k);
        let m = pow2(lower) * q;
        assert(n == 2 * m) by (nonlinear_arith)
            requires
                n == pow2(k) * q,
                pow2(k) == 2 * pow2(lower),
                m == pow2(lower) * q,
        ;
        if d % 2 == 1 {
            // d is odd, so the quotient takes the factor 2
            let a = d / 2;
            assert(d * c == 2 * (a * c) + c) by (nonlinear_arith)
                requires
                    d == 2 * a + 1,
            ;
            assert(c == 2 * (m - a * c));
            let half = c / 2;
            assert(m == d * half) by (nonlinear_arith)
                requires
                    2 * m == d * c,
                    c == 2 * half,
            ;
            lemma_product_divides(d, half);
            lemma_divisors_of_power_times_prime(d, lower, q);
            let j = choose|j: nat| j <= lower && (d == #[trigger] pow2(j) || d == pow2(j) * q);
            assert(j <= k && (d == pow2(j) || d == pow2(j) * q));
        } else {
            let e = d / 2;
            assert(d == 2 * e);
            assert(m == e * c) by (nonlinear_arith)
                requires
                    2 * m == d * c,
                    d == 2 * e,
            ;
            lemma_product_divides(e, c);
            lemma_divisors_of_power_times_prime(e, lower, q);
            let j = choose|j: nat| j <= lower && (e == #[trigger] pow2(j) || e == pow2(j) * q);
            let up = j + 1;
            lemma_pow2_unfold(up);
            assert(d == pow2(up) || d == pow2(up) * q) by (nonlinear_arith)
                requires
                    d == 2 * e,
                    e == pow2(j) || e == pow2(j) * q,
                    pow2(up) == 2 * pow2(j),
            ;
            assert(up <= k);
        }
    }
}

/// Powers of two are ordered as their exponents are.
proof fn lemma_pow2_ordered(i: nat, j: nat)
    ensures
        i <= j ==> pow2(i) <= pow2(j),
        i < j ==> pow2(i) < pow2(j),
{
    if i < j {
        lemma_pow2_strictly_increases(i, j);
    }
}

/// `2^j` and `2^j q` divide `2^k q` for `j` up to `k`.
proof fn lemma_powers_divide(k: nat, q: int, j: nat)
    requires
        j <= k,
        q >= 1,
    ensures
        (pow2(k) * q) % (pow2(j) as int) == 0,
        (pow2(k) * q) % (pow2(j) * q) == 0,
{
    let rest = (k - j) as nat;
    lemma_pow2_adds(j, rest);
    lemma_pow2_pos(j);
    lemma_pow2_pos(rest);
    let n = pow2(k) * q;
    assert(n == pow2(j) * (pow2(rest) * q)) by (nonlinear_arith)
        requires
            n == pow2(k) * q,
            pow2(k) == pow2(j) * pow2(rest),
    ;
    lemma_product_divides(pow2(j) as int, pow2(rest) * q);
    assert(n == (pow2(j) * q) * pow2(rest)) by (nonlinear_arith)
        requires
            n == pow2(k) * q,
            pow2(k) == pow2(j) * pow2(rest),
    ;
    assert(pow2(j) * q >= 1) by (nonlinear_arith)
        requires
            pow2(j) >= 1,
            q >= 1,
    ;
    lemma_product_divides(pow2(j) * q, pow2(rest) as int);
}

/// The setting of the theorem: `q = 2^(k+1) - 1` is prime, and `k` is at
/// least 1.
pub open spec fn euclid_setting(k: nat, q: int) -> bool {
    k >= 1 && q == pow2(k + 1) - 1 && is_prime_number(q)
}

/// In the setting of the theorem `q` is odd and lies above `2^k`.
proof fn lemma_setting(k: nat, q: int)
    requires
        euclid_setting(k, q),
    ensures
        q % 2 == 1,
        q > pow2(k),
        pow2(k) >= 2,
{
    lemma_pow2_unfold(k + 1);
    lemma_pow2_unfold(k);
    lemma_pow2_pos((k - 1) as nat);
}

/// Nothing strictly between two neighbouring divisors divides `2^k q`:
/// not between `2^(j-1)` and `2^j`, nor between `2^k` and `q`, nor between
/// `2^(j-1) q` and `2^j q`.
proof fn lemma_gaps(k: nat, q: int, j: nat, d: int)
    requires
        euclid_setting(k, q),
        1 <= j <= k,
        d >= 1,
        pow2((j - 1) as nat) < d < pow2(j) || pow2(k) < d < q || pow2((j - 1) as nat) * q < d
            < pow2(j) * q,
    ensures
        (pow2(k) * q) % d != 0,
{
    lemma_setting(k, q);
    if (pow2(k) * q) % d == 0 {
        lemma_divisors_of_power_times_prime(d, k, q);
        let i = choose|i: nat| i <= k && (d == #[trigger] pow2(i) || d == pow2(i) * q);
        let below = (j - 1) as nat;
        lemma_pow2_ordered(i, below);
        lemma_pow2_ordered(j, i);
        lemma_pow2_ordered(i, k);
        lemma_pow2_ordered(j, k);
        lemma_pow2_pos(i);
        lemma_pow2_pos(below);
        if d == pow2(i) {
            // a power of two: not between neighbouring powers, and not above 2^k
            assert(pow2(below) * q >= pow2(below)) by (nonlinear_arith)
                requires
                    pow2(below) >= 1,
                    q >= 1,
            ;
            assert(pow2(below) * q >= q) by (nonlinear_arith)
                requires
                    pow2(below) >= 1,
                    q >= 1,
            ;
        } else {
            // a multiple of q: at least q, and not between neighbouring multiples
            assert(pow2(i) * q >= q) by (nonlinear_arith)
                requires
                    pow2(i) >= 1,
                    q >= 1,
            ;
            if i <= below {
                assert(pow2(i) * q <= pow2(below) * q) by (nonlinear_arith)
                    requires
                        pow2(i) <= pow2(below),
                        q >= 1,
                ;
            } else {
                assert(pow2(i) * q >= pow2(j) * q) by (nonlinear_arith)
                    requires
                        pow2(i) >= pow2(j),
                        q >= 1,
                ;
            }
        }
    }
}

/// The divisors of `2^k q` up to `2^j` add up to `2^(j+1) - 1`.
proof fn lemma_sum_over_powers(k: nat, q: int, j: nat)
    requires
        euclid_setting(k, q),
        j <= k,
    ensures
        divisor_sum(pow2(k) * q, pow2(j) as int + 1) == pow2(j + 1) - 1,
    decreases j,
{
    let n = pow2(k) * q;
    lemma_setting(k, q);
    lemma_powers_divide(k, q, j);
    lemma_pow2_unfold(j + 1);
    lemma_pow2_pos(j);
    if j == 0 {
        assert(pow2(0) == 1) by {
            lemma2_to64();
        }
        assert(divisor_sum(n, 2) == divisor_sum(n, 1) + 1);
    } else {
        let below = (j - 1) as nat;
        lemma_sum_over_powers(k, q, below);
        lemma_pow2_unfold(j);
        lemma_pow2_pos(below);
        assert forall|d: int| pow2(below) + 1 <= d < pow2(j) implies #[trigger] (n % d) != 0 by {
            lemma_gaps(k, q, j, d);
        }
        lemma_divisor_sum_skips(n, pow2(below) as int + 1, pow2(j) as int);
    }
}

/// The divisors of `2^k q` below `q` add up to `q`.
proof fn lemma_sum_below_prime(k: nat, q: int)
    requires
        euclid_setting(k, q),
    ensures
        divisor_sum(pow2(k) * q, q) == q,
{
    let n = pow2(k) * q;
    lemma_setting(k, q);
    lemma_sum_over_powers(k, q, k);
    assert forall|d: int| pow2(k) + 1 <= d < q implies #[trigger] (n % d) != 0 by {
        lemma_gaps(k, q, 1, d);
    }
    lemma_divisor_sum_skips(n, pow2(k) as int + 1, q);
}

/// The divisors of `2^k q` up to `2^j q` add up to `q + q (2^(j+1) - 1)`.
proof fn lemma_sum_over_multiples(k: nat, q: int, j: nat)
    requires
        euclid_setting(k, q),
        j <= k,
    ensures
        divisor_sum(pow2(k) * q, pow2(j) * q + 1) == q + q * (pow2(j + 1) - 1),
    decreases j,
{
    let n = pow2(k) * q;
    lemma_setting(k, q);
    lemma_powers_divide(k, q, j);
    lemma_pow2_unfold(j + 1);
    lemma_pow2_pos(j);
    let here = pow2(j) * q;
    assert(here >= 1) by (nonlinear_arith)
        requires
            here == pow2(j) * q,
            pow2(j) >= 1,
            q >= 1,
    ;
    assert(divisor_sum(n, here + 1) == divisor_sum(n, here) + here);
    if j == 0 {
        assert(pow2(0) == 1) by {
            lemma2_to64();
        }
        lemma_sum_below_prime(k, q);
        assert(here == q && q * (pow2(1) - 1) == q) by (nonlinear_arith)
            requires
                here == pow2(0) * q,
                pow2(0) == 1,
                pow2(1) == 2 * pow2(0),
        ;
    } else {
        let below = (j - 1) as nat;
        lemma_sum_over_multiples(k, q, below);
        lemma_pow2_unfold(j);
        lemma_pow2_pos(below);
        let before = pow2(below) * q;
        assert forall|d: int| before + 1 <= d < here implies #[trigger] (n % d) != 0 by {
            assert(before >= 1) by (nonlinear_arith)
                requires
                    before == pow2(below) * q,
                    pow2(below) >= 1,
                    q >= 1,
            ;
            lemma_gaps(k, q, j, d);
        }
        assert(before + 1 <= here) by (nonlinear_arith)
            requires
                before == pow2(below) * q,
                here == pow2(j) * q,
                pow2(j) == 2 * pow2(below),
                pow2(below) >= 1,
                q >= 1,
        ;
        lemma_divisor_sum_skips(n, before + 1, here);
        assert(q + q * (pow2(j) - 1) + here == q + q * (pow2(j + 1) - 1)) by (nonlinear_arith)
            requires
                here == pow2(j) * q,
                pow2(j + 1) == 2 * pow2(j),
        ;
    }
}

/// Euclid's theorem: if `q = 2^(k+1) - 1` is prime, then `2^k q` is a
/// perfect number.
pub proof fn lemma_euclid(k: nat, q: int)
    requires
        euclid_setting(k, q),
    ensures
        is_perfect(pow2(k) * q),
{
    let n = pow2(k) * q;
    let below = (k - 1) as nat;
    lemma_setting(k, q);
    lemma_sum_over_multiples(k, q, below);
    lemma_pow2_unfold(k);
    lemma_pow2_pos(below);
    let before = pow2(below) * q;
    assert(before >= 1 && before + 1 <= n) by (nonlinear_arith)
        requires
            before == pow2(below) * q,
            n == pow2(k) * q,
            pow2(k) == 2 * pow2(below),
            pow2(below) >= 1,
            q >= 1,
    ;
    assert forall|d: int| before + 1 <= d < n implies #[trigger] (n % d) != 0 by {
        lemma_gaps(k, q, k, d);
    }
    lemma_divisor_sum_skips(n, before + 1, n);
    assert(q + q * (pow2(k) - 1) == n) by (nonlinear_arith)
        requires
            n == pow2(k) * q,
    ;
}

} // verus!
