//! Contracts for the arbitrary-precision integers of `num`.
//!
//! Verus cannot look inside a `num::BigInt`. This module names the integer
//! that such a value stands for, [`bigint_value`], and states for each
//! operation the library uses what it does to that integer. These contracts
//! are taken on trust from the documentation and source of `num-bigint`;
//! everything outside this module is proved from them.

use num::rational::Ratio;
use num::BigInt;
use vstd::arithmetic::power::pow;
use vstd::prelude::*;

verus! {

#[verifier::external_type_specification]
#[verifier::external_body]
pub struct ExBigInt(num::BigInt);

#[verifier::external_type_specification]
#[verifier::external_body]
#[verifier::reject_recursive_types(T)]
pub struct ExRatio<T>(num::rational::Ratio<T>);

/// The mathematical integer held by a `BigInt`.
pub uninterp spec fn bigint_value(b: BigInt) -> int;

/// The numerator of a `Ratio<BigInt>`, as `Ratio::numer` gives it.
pub uninterp spec fn ratio_numer(r: Ratio<BigInt>) -> int;

/// The denominator of a `Ratio<BigInt>`, as `Ratio::denom` gives it.
pub uninterp spec fn ratio_denom(r: Ratio<BigInt>) -> int;

/// The integers held by a sequence of `BigInt`s, in order.
pub open spec fn bigint_values(items: Seq<BigInt>) -> Seq<int> {
    Seq::new(items.len(), |i: int| bigint_value(items[i]))
}

/// The character for a single decimal digit.
pub open spec fn digit_char(d: int) -> char {
    if d == 0 {
        '0'
    } else if d == 1 {
        '1'
    } else if d == 2 {
        '2'
    } else if d == 3 {
        '3'
    } else if d == 4 {
        '4'
    } else if d == 5 {
        '5'
    } else if d == 6 {
        '6'
    } else if d == 7 {
        '7'
    } else if d == 8 {
        '8'
    } else {
        '9'
    }
}

/// The decimal digits of a natural number, most significant first, without
/// leading zeros (`"0"` for zero).
pub open spec fn decimal_digits(n: nat) -> Seq<char>
    decreases n,
{
    if n < 10 {
        seq![digit_char(n as int)]
    } else {
        decimal_digits(n / 10).push(digit_char((n % 10) as int))
    }
}

/// The decimal text of an integer: its digits, preceded by `-` if negative.
pub open spec fn decimal_text(v: int) -> Seq<char> {
    if v < 0 {
        seq!['-'] + decimal_digits((-v) as nat)
    } else {
        decimal_digits(v as nat)
    }
}

/// `BigInt::from(u64)`: the result holds exactly `x`.
#[verifier::external_body]
pub(crate) fn bigint_from_u64(x: u64) -> (r: BigInt)
    ensures
        bigint_value(r) == x,
{
    BigInt::from(x)
}

/// `Clone::clone` on a `BigInt`: the copy holds the same integer.
#[verifier::external_body]
pub(crate) fn bigint_clone(a: &BigInt) -> (r: BigInt)
    ensures
        bigint_value(r) == bigint_value(*a),
{
    a.clone()
}

/// `&BigInt + &BigInt`: exact addition.
#[verifier::external_body]
pub(crate) fn bigint_add(a: &BigInt, b: &BigInt) -> (r: BigInt)
    ensures
        bigint_value(r) == bigint_value(*a) + bigint_value(*b),
{
    a + b
}

/// `&BigInt - &BigInt`: exact subtraction.
#[verifier::external_body]
pub(crate) fn bigint_sub(a: &BigInt, b: &BigInt) -> (r: BigInt)
    ensures
        bigint_value(r) == bigint_value(*a) - bigint_value(*b),
{
    a - b
}

/// `&BigInt * &BigInt`: exact multiplication.
#[verifier::external_body]
pub(crate) fn bigint_mul(a: &BigInt, b: &BigInt) -> (r: BigInt)
    ensures
        bigint_value(r) == bigint_value(*a) * bigint_value(*b),
{
    a * b
}

/// `Pow::pow(&BigInt, usize)`: the base raised to a machine-sized exponent,
/// with `x^0 = 1` for every `x`.
#[verifier::external_body]
pub(crate) fn bigint_pow(base: &BigInt, exponent: usize) -> (r: BigInt)
    ensures
        bigint_value(r) == pow(bigint_value(*base), exponent as nat),
{
    num::traits::Pow::pow(base, exponent)
}

/// `&BigInt < &BigInt`: the order of the integers held.
#[verifier::external_body]
pub(crate) fn bigint_lt(a: &BigInt, b: &BigInt) -> (r: bool)
    ensures
        r == (bigint_value(*a) < bigint_value(*b)),
{
    a < b
}

/// `&BigInt == &BigInt`: two values are equal exactly when they hold the
/// same integer.
#[verifier::external_body]
pub(crate) fn bigint_eq(a: &BigInt, b: &BigInt) -> (r: bool)
    ensures
        r == (bigint_value(*a) == bigint_value(*b)),
{
    a == b
}

/// `BigInt::to_str_radix` in base 10: an optional `-` and then the decimal
/// digits, without leading zeros.
#[verifier::external_body]
pub(crate) fn bigint_to_decimal(a: &BigInt) -> (text: String)
    ensures
        text@ == decimal_text(bigint_value(*a)),
{
    a.to_str_radix(10)
}

/// `Ratio::numer`: a copy of the numerator as stored.
#[verifier::external_body]
pub(crate) fn bigratio_numer(r: &Ratio<BigInt>) -> (numer: BigInt)
    ensures
        bigint_value(numer) == ratio_numer(*r),
{
    r.numer().clone()
}

/// `Ratio::denom`: a copy of the denominator as stored.
#[verifier::external_body]
pub(crate) fn bigratio_denom(r: &Ratio<BigInt>) -> (denom: BigInt)
    ensures
        bigint_value(denom) == ratio_denom(*r),
{
    r.denom().clone()
}

} // verus!
