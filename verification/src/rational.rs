//! Contracts for the arbitrary-precision integers and rationals of `dashu`.
//!
//! Verus cannot look inside an `IBig`, a `UBig` or an `RBig`. This module
//! names the integers that such values stand for and states, for each
//! operation the library uses, what it does to them. An `RBig` is always in
//! lowest terms: every operation that returns one says so, and says which
//! rational number the result stands for. These contracts are taken on
//! trust from the documentation and source of `dashu`; everything outside
//! this module is proved from them.

use crate::bigint::decimal_text;
use crate::fraction::{
    canonical, fraction_add, fraction_div, fraction_eq, fraction_mul, magnitude, Fraction,
};
use dashu::base::{ParseError, Sign};
use dashu::float::round::mode::HalfAway;
use dashu::integer::{IBig, UBig};
use dashu::rational::RBig;
use vstd::prelude::*;

verus! {

#[verifier::external_type_specification]
#[verifier::external_body]
pub struct ExIBig(dashu::integer::IBig);

#[verifier::external_type_specification]
#[verifier::external_body]
pub struct ExUBig(dashu::integer::UBig);

#[verifier::external_type_specification]
#[verifier::external_body]
pub struct ExRBig(dashu::rational::RBig);

#[verifier::external_type_specification]
#[verifier::external_body]
pub struct ExParseError(dashu::base::ParseError);

/// The mathematical integer held by an `IBig`.
pub uninterp spec fn ibig_value(x: IBig) -> int;

/// The natural number held by a `UBig`.
pub uninterp spec fn ubig_value(x: UBig) -> nat;

/// The numerator of an `RBig`, as `RBig::numerator` gives it.
pub uninterp spec fn rbig_numer(r: RBig) -> int;

/// The denominator of an `RBig`, as `RBig::denominator` gives it.
pub uninterp spec fn rbig_denom(r: RBig) -> int;

/// The text that `dashu` prints for the fraction `numer / denom`, given in
/// lowest terms, once it has been turned into a decimal number with the
/// given number of significant digits.
pub uninterp spec fn decimal_rendering(numer: int, denom: int, digits: nat) -> Seq<char>;

/// The fraction that an `RBig` holds.
pub open spec fn rbig_view(r: RBig) -> Fraction {
    Fraction { numer: rbig_numer(r), denom: rbig_denom(r) }
}

/// `IBig::from_str_radix` in base 10: the decimal text of any integer is
/// accepted and gives back that integer.
#[verifier::external_body]
pub(crate) fn ibig_from_decimal(text: &str) -> (parsed: Result<IBig, ParseError>)
    ensures
        forall|v: int|
            text@ == #[trigger] decimal_text(v) ==> parsed is Ok && ibig_value(parsed->Ok_0) == v,
{
    IBig::from_str_radix(text, 10)
}

/// `IBig::into_parts`: the sign and the magnitude. The flag is set for a
/// negative number; zero counts as positive.
#[verifier::external_body]
pub(crate) fn ibig_into_parts(x: IBig) -> (parts: (bool, UBig))
    ensures
        parts.0 == (ibig_value(x) < 0),
        ubig_value(parts.1) == magnitude(ibig_value(x)),
{
    let (sign, size) = x.into_parts();
    match sign {
        Sign::Positive => (false, size),
        Sign::Negative => (true, size),
    }
}

/// `IBig::from_parts`: the magnitude with the sign given; the flag asks for
/// the negative.
#[verifier::external_body]
pub(crate) fn ibig_from_parts(negative: bool, size: UBig) -> (x: IBig)
    ensures
        ibig_value(x) == if negative {
            -(ubig_value(size) as int)
        } else {
            ubig_value(size) as int
        },
{
    if negative {
        IBig::from_parts(Sign::Negative, size)
    } else {
        IBig::from_parts(Sign::Positive, size)
    }
}

/// `RBig::from_parts`: the fraction `numer / denom` in lowest terms. The
/// outside function panics on a zero denominator.
#[verifier::external_body]
pub(crate) fn rbig_from_parts(numer: IBig, denom: UBig) -> (r: RBig)
    requires
        ubig_value(denom) != 0,
    ensures
        canonical(rbig_view(r)),
        fraction_eq(
            rbig_view(r),
            (Fraction { numer: ibig_value(numer), denom: ubig_value(denom) as int }),
        ),
{
    RBig::from_parts(numer, denom)
}

/// `RBig::into_parts`: numerator and denominator as stored, which is in
/// lowest terms.
#[verifier::external_body]
pub(crate) fn rbig_into_parts(r: RBig) -> (parts: (IBig, UBig))
    ensures
        ibig_value(parts.0) == rbig_numer(r),
        ubig_value(parts.1) == rbig_denom(r),
        canonical(
            (Fraction { numer: ibig_value(parts.0), denom: ubig_value(parts.1) as int }),
        ),
{
    r.into_parts()
}

/// `RBig::from(u64)`: the integer `x` as the fraction `x / 1`.
#[verifier::external_body]
pub(crate) fn rbig_from_u64(x: u64) -> (r: RBig)
    ensures
        rbig_numer(r) == x,
        rbig_denom(r) == 1,
{
    RBig::from(x)
}

/// `&RBig + &RBig`: the exact sum, in lowest terms.
#[verifier::external_body]
pub(crate) fn rbig_add(a: &RBig, b: &RBig) -> (r: RBig)
    ensures
        canonical(rbig_view(r)),
        fraction_eq(rbig_view(r), fraction_add(rbig_view(*a), rbig_view(*b))),
{
    a + b
}

/// `&RBig * &RBig`: the exact product, in lowest terms.
#[verifier::external_body]
pub(crate) fn rbig_mul(a: &RBig, b: &RBig) -> (r: RBig)
    ensures
        canonical(rbig_view(r)),
        fraction_eq(rbig_view(r), fraction_mul(rbig_view(*a), rbig_view(*b))),
{
    a * b
}

/// `&RBig / &RBig`: the exact quotient, in lowest terms. The outside
/// function panics on a zero divisor.
#[verifier::external_body]
pub(crate) fn rbig_div(a: &RBig, b: &RBig) -> (r: RBig)
    requires
        rbig_numer(*b) != 0,
    ensures
        canonical(rbig_view(r)),
        fraction_eq(rbig_view(r), fraction_div(rbig_view(*a), rbig_view(*b))),
{
    a / b
}

/// `UBig::is_zero`: whether the number held is zero.
#[verifier::external_body]
pub(crate) fn ubig_is_zero(x: &UBig) -> (zero: bool)
    ensures
        zero == (ubig_value(*x) == 0),
{
    x.is_zero()
}

/// `RBig::to_float` into a decimal of the given precision, then
/// `to_string` on the value it holds. The outside function panics on a
/// precision of zero.
#[verifier::external_body]
pub(crate) fn rbig_to_decimal(r: &RBig, digits: usize) -> (text: String)
    requires
        digits > 0,
    ensures
        text@ == decimal_rendering(rbig_numer(*r), rbig_denom(*r), digits as nat),
{
    r.to_float::<HalfAway, 10>(digits).value().to_string()
}

} // verus!
