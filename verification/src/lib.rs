//! Exact number-theoretic utilities: factorials, integer sequences,
//! rational estimates of mathematical constants, primes and perfect
//! numbers.
//!
//! Every result is exact. Arbitrary-precision integers and rationals are
//! supplied by `num` and `dashu`; their operations are reached through the
//! small contracts in [`bigint`] and [`rational`], and everything built on
//! top of them is verified against those contracts.

pub mod bigint;
pub mod constants;
pub mod convergence;
pub mod convert;
pub mod error;
pub mod euclid;
pub mod factorial;
pub mod factorials;
pub mod fraction;
pub mod perfect_numbers;
pub mod primes;
pub mod rational;
pub mod sequences;

use crate::bigint::{
    bigint_from_u64, bigint_lt, bigint_to_decimal, bigint_value, bigratio_denom, bigratio_numer,
    decimal_digits, ratio_denom, ratio_numer,
};
use crate::convert::ratio_of;
use crate::error::NumberError;
use crate::fraction::{canonical, fraction_eq, magnitude, Fraction};
use crate::rational::{decimal_rendering, rbig_to_decimal, rbig_view};
use num::rational::Ratio;
use num::BigInt;
use vstd::prelude::*;

verus! {

/// How many significant digits [`ratio_to_str`] prints for `numer / denom`:
/// as many as the longer of the two has decimal digits.
pub open spec fn rendering_digits(numer: int, denom: int) -> nat {
    let top = decimal_digits(magnitude(numer)).len();
    let bottom = decimal_digits(magnitude(denom)).len();
    if top >= bottom {
        top
    } else {
        bottom
    }
}

/// A number has at least one decimal digit.
pub proof fn lemma_decimal_digits_nonempty(n: nat)
    ensures
        decimal_digits(n).len() >= 1,
    decreases n,
{
    if n >= 10 {
        lemma_decimal_digits_nonempty(n / 10);
    }
}

/// Renders a ratio as a decimal number with as many significant digits as
/// the longer of its numerator and denominator has.
///
/// The ratio is first brought to lowest terms. A ratio whose denominator is
/// not positive is refused.
pub fn ratio_to_str(ratio: Ratio<BigInt>) -> (result: Result<String, NumberError>)
    ensures
        match result {
            Ok(text) => {
                &&& ratio_denom(ratio) > 0
                &&& exists|lowest: Fraction|
                    {
                        &&& canonical(lowest)
                        &&& fraction_eq(
                            lowest,
                            (Fraction { numer: ratio_numer(ratio), denom: ratio_denom(ratio) }),
                        )
                        &&& text@ == #[trigger] decimal_rendering(
                            lowest.numer,
                            lowest.denom,
                            rendering_digits(ratio_numer(ratio), ratio_denom(ratio)),
                        )
                    }
            },
            Err(error) => ratio_denom(ratio) <= 0 && error == NumberError::InvalidArgument,
        },
{
    let numer = bigratio_numer(&ratio);
    let denom = bigratio_denom(&ratio);
    let zero = bigint_from_u64(0);
    if !bigint_lt(&zero, &denom) {
        return Err(NumberError::InvalidArgument);
    }
    let numer_text = bigint_to_decimal(&numer);
    let denom_text = bigint_to_decimal(&denom);
    proof {
        lemma_decimal_digits_nonempty(magnitude(bigint_value(numer)));
        lemma_decimal_digits_nonempty(magnitude(bigint_value(denom)));
    }
    let top: usize = if bigint_lt(&numer, &zero) {
        numer_text.as_str().unicode_len() - 1
    } else {
        numer_text.as_str().unicode_len()
    };
    let bottom: usize = denom_text.as_str().unicode_len();
    let digits: usize = if top >= bottom {
        top
    } else {
        bottom
    };
    let lowest = ratio_of(&numer, &denom);
    let text = rbig_to_decimal(&lowest, digits);
    assert(text@ == decimal_rendering(
        rbig_view(lowest).numer,
        rbig_view(lowest).denom,
        rendering_digits(ratio_numer(ratio), ratio_denom(ratio)),
    ));
    Ok(text)
}

} // verus!
