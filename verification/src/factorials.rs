//! Factorials in arbitrary precision.
//!
//! The product is accumulated in a loop, so the size of the argument is
//! limited by memory alone and not by the depth of the call stack.

use crate::bigint::{
    bigint_add, bigint_clone, bigint_from_u64, bigint_lt, bigint_mul, bigint_value,
};
use crate::error::NumberError;
use crate::factorial::factorial_of;
use num::BigInt;
use vstd::prelude::*;

verus! {

/// Computes `n!` exactly. A negative `n` is refused.
pub fn factorial(n: BigInt) -> (result: Result<BigInt, NumberError>)
    ensures
        match result {
            Ok(value) => bigint_value(n) >= 0 && bigint_value(value) == factorial_of(
                bigint_value(n) as nat,
            ),
            Err(error) => bigint_value(n) < 0 && error == NumberError::InvalidArgument,
        },
{
    let zero = bigint_from_u64(0);
    if bigint_lt(&n, &zero) {
        return Err(NumberError::InvalidArgument);
    }
    let one = bigint_from_u64(1);
    let mut product = bigint_from_u64(1);
    let mut i = bigint_from_u64(1);
    while bigint_lt(&i, &n)
        invariant
            bigint_value(one) == 1,
            bigint_value(n) >= 0,
            bigint_value(i) >= 1,
            bigint_value(i) <= bigint_value(n) || bigint_value(i) == 1,
            bigint_value(product) == factorial_of(bigint_value(i) as nat),
        decreases bigint_value(n) - bigint_value(i),
    {
        i = bigint_add(&i, &one);
        proof {
            let k = bigint_value(i);
            assert(factorial_of(k as nat) == k * factorial_of((k - 1) as nat));
            assert(bigint_value(product) * k == k * bigint_value(product)) by (nonlinear_arith);
        }
        product = bigint_mul(&product, &i);
    }
    assert(factorial_of(0) == factorial_of(1));
    Ok(product)
}

/// Lists `1!, 2!, ..., n!` exactly. A negative `n` is refused; zero gives
/// the empty list.
pub fn factorial_list(n: BigInt) -> (result: Result<Vec<BigInt>, NumberError>)
    ensures
        match result {
            Ok(list) => {
                &&& bigint_value(n) >= 0
                &&& list@.len() == bigint_value(n)
                &&& forall|k: int|
                    0 <= k < list@.len() ==> bigint_value(#[trigger] list@[k]) == factorial_of(
                        (k + 1) as nat,
                    )
            },
            Err(error) => bigint_value(n) < 0 && error == NumberError::InvalidArgument,
        },
{
    let zero = bigint_from_u64(0);
    if bigint_lt(&n, &zero) {
        return Err(NumberError::InvalidArgument);
    }
    let one = bigint_from_u64(1);
    let mut list: Vec<BigInt> = Vec::new();
    let mut product = bigint_from_u64(1);
    let mut i = bigint_from_u64(0);
    while bigint_lt(&i, &n)
        invariant
            bigint_value(one) == 1,
            0 <= bigint_value(i) <= bigint_value(n),
            bigint_value(product) == factorial_of(bigint_value(i) as nat),
            list@.len() == bigint_value(i),
            forall|k: int|
                0 <= k < list@.len() ==> bigint_value(#[trigger] list@[k]) == factorial_of(
                    (k + 1) as nat,
                ),
        decreases bigint_value(n) - bigint_value(i),
    {
        i = bigint_add(&i, &one);
        proof {
            let k = bigint_value(i);
            assert(factorial_of(k as nat) == k * factorial_of((k - 1) as nat)) by {
                assert(factorial_of(0) == 1 && factorial_of(1) == 1);
            }
            assert(bigint_value(product) * k == k * bigint_value(product)) by (nonlinear_arith);
        }
        product = bigint_mul(&product, &i);
        let ghost before = list@;
        list.push(bigint_clone(&product));
        assert forall|k: int| 0 <= k < list@.len() implies bigint_value(#[trigger] list@[k])
            == factorial_of((k + 1) as nat) by {
            if k < before.len() {
                assert(list@[k] == before[k]);
            }
        }
    }
    Ok(list)
}

} // verus!
