//! Passing integers from `num` to `dashu`.
//!
//! The sequences and factorials of this crate are `num` integers; the
//! rationals are `dashu` values. An integer crosses over as decimal text:
//! one library writes it, the other reads it, and the value is the same on
//! both sides.

use crate::bigint::{bigint_to_decimal, bigint_value};
use crate::fraction::{canonical, fraction_eq, Fraction};
use crate::rational::{
    ibig_from_decimal, ibig_into_parts, ibig_value, rbig_from_parts, rbig_view,
};
use dashu::integer::IBig;
use dashu::rational::RBig;
use num::BigInt;
use vstd::pervasive::unreached;
use vstd::prelude::*;

verus! {

/// The `dashu` integer that holds the same value as a `num` integer.
pub fn to_ibig(value: &BigInt) -> (converted: IBig)
    ensures
        ibig_value(converted) == bigint_value(*value),
{
    let text = bigint_to_decimal(value);
    match ibig_from_decimal(text.as_str()) {
        Ok(converted) => converted,
        Err(_) => unreached(),
    }
}

/// The rational `numer / denom` in lowest terms, for a positive `denom`.
pub(crate) fn ratio_of(numer: &BigInt, denom: &BigInt) -> (ratio: RBig)
    requires
        bigint_value(*denom) > 0,
    ensures
        canonical(rbig_view(ratio)),
        fraction_eq(
            rbig_view(ratio),
            (Fraction { numer: bigint_value(*numer), denom: bigint_value(*denom) }),
        ),
{
    let top = to_ibig(numer);
    let (_, bottom) = ibig_into_parts(to_ibig(denom));
    rbig_from_parts(top, bottom)
}

} // verus!
