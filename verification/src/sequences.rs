//! Integer sequences defined by linear recurrences: Lucas, Fibonacci and
//! the "dying rabbits" sequence.
//!
//! Each generator returns the first terms of its sequence as exact
//! integers. What a generator returns is fixed by its argument alone: the
//! predicates [`is_lucas_sequence`], [`is_fibonacci_sequence`] and
//! [`is_dying_rabbits_sequence`] admit one sequence of integers for each
//! length asked for.

use crate::bigint::{
    bigint_add, bigint_clone, bigint_eq, bigint_from_u64, bigint_lt, bigint_sub, bigint_value,
    bigint_values,
};
use crate::fraction::gcd;
use num::BigInt;
use vstd::arithmetic::div_mod::{lemma_mod_add_multiples_vanish, lemma_small_mod};
use vstd::prelude::*;

verus! {

/// The Lucas numbers: `L(0) = 2`, `L(1) = 1`, `L(i) = L(i-1) + L(i-2)`.
pub open spec fn lucas_number(i: nat) -> int
    decreases i,
{
    if i == 0 {
        2
    } else if i == 1 {
        1
    } else {
        lucas_number((i - 1) as nat) + lucas_number((i - 2) as nat)
    }
}

/// The Fibonacci numbers: `F(0) = 0`, `F(1) = 1`, `F(i) = F(i-1) + F(i-2)`.
pub open spec fn fibonacci_number(i: nat) -> int
    decreases i,
{
    if i == 0 {
        0
    } else if i == 1 {
        1
    } else {
        fibonacci_number((i - 1) as nat) + fibonacci_number((i - 2) as nat)
    }
}

/// The dying-rabbits numbers: `R(0) = 1`, `R(i) = F(i)` for `1 <= i <= 12`,
/// and `R(i) = R(i-1) + R(i-2) - R(i-13)` from 13 on.
pub open spec fn dying_rabbits_number(i: nat) -> int
    decreases i,
{
    if i == 0 {
        1
    } else if i <= 12 {
        fibonacci_number(i)
    } else {
        dying_rabbits_number((i - 1) as nat) + dying_rabbits_number((i - 2) as nat)
            - dying_rabbits_number((i - 13) as nat)
    }
}

/// How many terms [`lucas_sequence`] returns for `n`: `n` itself for a
/// non-negative `n`, and the two seed terms for a negative one.
pub open spec fn lucas_length(n: int) -> nat {
    if n < 0 {
        2
    } else {
        n as nat
    }
}

/// How many terms [`fibonacci_sequence`] returns for `n`: `n` itself for a
/// non-negative `n`, and the two seed terms for a negative one.
pub open spec fn fibonacci_length(n: int) -> nat {
    if n < 0 {
        2
    } else {
        n as nat
    }
}

/// How many terms [`dying_rabbits_sequence`] returns for `n`.
pub open spec fn dying_rabbits_length(n: int) -> nat {
    if n < 0 {
        0
    } else {
        n as nat
    }
}

/// `values` is the Lucas sequence as [`lucas_sequence`] returns it for `n`.
pub open spec fn is_lucas_sequence(n: int, values: Seq<int>) -> bool {
    &&& values.len() == lucas_length(n)
    &&& forall|i: int| 0 <= i < values.len() ==> #[trigger] values[i] == lucas_number(i as nat)
}

/// `values` is the Fibonacci sequence as [`fibonacci_sequence`] returns it
/// for `n`.
pub open spec fn is_fibonacci_sequence(n: int, values: Seq<int>) -> bool {
    &&& values.len() == fibonacci_length(n)
    &&& forall|i: int|
        0 <= i < values.len() ==> #[trigger] values[i] == fibonacci_number(i as nat)
}

/// `values` is the dying-rabbits sequence as [`dying_rabbits_sequence`]
/// returns it for `n`.
pub open spec fn is_dying_rabbits_sequence(n: int, values: Seq<int>) -> bool {
    &&& values.len() == dying_rabbits_length(n)
    &&& forall|i: int|
        0 <= i < values.len() ==> #[trigger] values[i] == dying_rabbits_number(i as nat)
}

/// Two runs of the Lucas generator on the same `n` give the same sequence.
pub proof fn lemma_lucas_sequence_deterministic(n: int, first: Seq<int>, second: Seq<int>)
    requires
        is_lucas_sequence(n, first),
        is_lucas_sequence(n, second),
    ensures
        first == second,
{
    assert(first =~= second);
}

/// Two runs of the Fibonacci generator on the same `n` give the same
/// sequence.
pub proof fn lemma_fibonacci_sequence_deterministic(n: int, first: Seq<int>, second: Seq<int>)
    requires
        is_fibonacci_sequence(n, first),
        is_fibonacci_sequence(n, second),
    ensures
        first == second,
{
    assert(first =~= second);
}

/// Two runs of the dying-rabbits generator on the same `n` give the same
/// sequence.
pub proof fn lemma_dying_rabbits_sequence_deterministic(
    n: int,
    first: Seq<int>,
    second: Seq<int>,
)
    requires
        is_dying_rabbits_sequence(n, first),
        is_dying_rabbits_sequence(n, second),
    ensures
        first == second,
{
    assert(first =~= second);
}

/// In a generated Lucas or Fibonacci sequence every term from the third on
/// is the sum of the two before it.
pub proof fn lemma_window_of_two(n: int, values: Seq<int>, i: int)
    requires
        is_lucas_sequence(n, values) || is_fibonacci_sequence(n, values),
        2 <= i < values.len(),
    ensures
        values[i] == values[i - 1] + values[i - 2],
{
}

/// In a generated dying-rabbits sequence every term from the fourteenth on
/// is the sum of the two before it less the term thirteen places back.
pub proof fn lemma_window_of_thirteen(n: int, values: Seq<int>, i: int)
    requires
        is_dying_rabbits_sequence(n, values),
        13 <= i < values.len(),
    ensures
        values[i] == values[i - 1] + values[i - 2] - values[i - 13],
{
}

/// Every Lucas number is positive.
pub proof fn lemma_lucas_positive(i: nat)
    ensures
        lucas_number(i) >= 1,
    decreases i,
{
    if i >= 2 {
        lemma_lucas_positive((i - 1) as nat);
        lemma_lucas_positive((i - 2) as nat);
    }
}

/// From the third on, each Lucas number is greater than the one before.
pub proof fn lemma_lucas_increasing(i: nat)
    requires
        i >= 2,
    ensures
        lucas_number((i - 1) as nat) < lucas_number(i),
{
    lemma_lucas_positive((i - 2) as nat);
}

/// Neighbouring Lucas numbers share no factor.
pub proof fn lemma_lucas_neighbours_coprime(i: nat)
    ensures
        gcd(lucas_number(i + 1) as nat, lucas_number(i) as nat) == 1,
    decreases i,
{
    lemma_lucas_positive(i);
    lemma_lucas_positive(i + 1);
    if i == 0 {
        assert(lucas_number(1) == 1 && lucas_number(0) == 2);
        assert(gcd(1, 2) == gcd(2, 1));
        assert(gcd(2, 1) == gcd(1, 0));
    } else if i == 1 {
        assert(lucas_number(2) == 3 && lucas_number(1) == 1);
        assert(gcd(3, 1) == gcd(1, 0));
    } else {
        let a = lucas_number(i + 1) as nat;
        let b = lucas_number(i) as nat;
        let c = lucas_number((i - 1) as nat) as nat;
        lemma_lucas_neighbours_coprime((i - 1) as nat);
        lemma_lucas_increasing(i);
        lemma_lucas_positive((i - 1) as nat);
        assert(a == b + c);
        lemma_mod_add_multiples_vanish(c as int, b as int);
        lemma_small_mod(c, b);
        assert(a % b == c);
        assert(gcd(a, b) == gcd(b, a % b));
    }
}

/// How close the quotient of neighbouring Lucas numbers is to the golden
/// ratio, the positive root of `x^2 - x - 1`: for `a = L(i+1)` and
/// `b = L(i)`, the value `a^2 - a b - b^2` is 5 or -5, so that `a / b`
/// misses the root by an amount that shrinks like `1 / b^2`.
pub proof fn lemma_lucas_golden_defect(i: nat)
    ensures
        ({
            let a = lucas_number(i + 1);
            let b = lucas_number(i);
            a * a - a * b - b * b == if i % 2 == 0 {
                -5int
            } else {
                5int
            }
        }),
    decreases i,
{
    if i > 0 {
        lemma_lucas_golden_defect((i - 1) as nat);
        let a = lucas_number(i);
        let b = lucas_number((i - 1) as nat);
        assert(lucas_number(i + 1) == a + b);
        assert((a + b) * (a + b) - (a + b) * a - a * a == -(a * a - a * b - b * b))
            by (nonlinear_arith);
    }
}

/// Generates the first `n` Lucas numbers: nothing for 0, `[2]` for 1, and
/// from `[2, 1]` on each term is the sum of the two before it. A negative
/// `n` gives the two seed terms.
pub fn lucas_sequence(n: BigInt) -> (sequence: Vec<BigInt>)
    ensures
        is_lucas_sequence(bigint_value(n), bigint_values(sequence@)),
{
    let zero = bigint_from_u64(0);
    let one = bigint_from_u64(1);
    if bigint_eq(&n, &zero) {
        Vec::new()
    } else if bigint_eq(&n, &one) {
        let mut sequence: Vec<BigInt> = Vec::new();
        sequence.push(bigint_from_u64(2));
        sequence
    } else {
        generate_lucas_sequence(n)
    }
}

/// Generates the Lucas numbers from the seed `[2, 1]` up to length `n`.
fn generate_lucas_sequence(n: BigInt) -> (sequence: Vec<BigInt>)
    ensures
        sequence@.len() == if bigint_value(n) < 2 {
            2
        } else {
            bigint_value(n)
        },
        forall|i: int|
            0 <= i < sequence@.len() ==> bigint_value(#[trigger] sequence@[i]) == lucas_number(
                i as nat,
            ),
{
    let one = bigint_from_u64(1);
    let mut sequence: Vec<BigInt> = Vec::new();
    sequence.push(bigint_from_u64(2));
    sequence.push(bigint_from_u64(1));
    let mut i = bigint_from_u64(2);
    while bigint_lt(&i, &n)
        invariant
            bigint_value(one) == 1,
            bigint_value(i) >= 2,
            bigint_value(i) <= bigint_value(n) || bigint_value(i) == 2,
            sequence@.len() == bigint_value(i),
            forall|k: int|
                0 <= k < sequence@.len() ==> bigint_value(#[trigger] sequence@[k]) == lucas_number(
                    k as nat,
                ),
        decreases bigint_value(n) - bigint_value(i),
    {
        let next = fib_rec(&sequence);
        let ghost before = sequence@;
        sequence.push(next);
        i = bigint_add(&i, &one);
        assert forall|k: int| 0 <= k < sequence@.len() implies bigint_value(
            #[trigger] sequence@[k],
        ) == lucas_number(k as nat) by {
            if k < before.len() {
                assert(sequence@[k] == before[k]);
            } else {
                assert(sequence@[k] == next);
                assert(bigint_value(before[k - 1]) == lucas_number((k - 1) as nat));
                assert(bigint_value(before[k - 2]) == lucas_number((k - 2) as nat));
            }
        }
    }
    sequence
}

/// The next term of a sequence in which each term is the sum of the two
/// before it: the sum of the last two terms so far.
fn fib_rec(terms: &Vec<BigInt>) -> (sum: BigInt)
    requires
        terms@.len() >= 2,
    ensures
        bigint_value(sum) == bigint_value(terms@[terms@.len() - 1]) + bigint_value(
            terms@[terms@.len() - 2],
        ),
{
    let len = terms.len();
    bigint_add(&terms[len - 2], &terms[len - 1])
}

/// Generates the first `n` Fibonacci numbers: nothing for 0, `[0]` for 1,
/// and from `[0, 1]` on each term is the sum of the two before it. A
/// negative `n` gives the two seed terms.
pub fn fibonacci_sequence(n: BigInt) -> (sequence: Vec<BigInt>)
    ensures
        is_fibonacci_sequence(bigint_value(n), bigint_values(sequence@)),
{
    let zero = bigint_from_u64(0);
    if bigint_eq(&n, &zero) {
        return Vec::new();
    }
    let one = bigint_from_u64(1);
    let mut sequence: Vec<BigInt> = Vec::new();
    sequence.push(bigint_from_u64(0));
    if bigint_eq(&n, &one) {
        return sequence;
    }
    sequence.push(bigint_from_u64(1));
    let mut i = bigint_from_u64(2);
    while bigint_lt(&i, &n)
        invariant
            bigint_value(one) == 1,
            bigint_value(i) >= 2,
            bigint_value(i) <= bigint_value(n) || bigint_value(i) == 2,
            sequence@.len() == bigint_value(i),
            forall|k: int|
                0 <= k < sequence@.len() ==> bigint_value(#[trigger] sequence@[k])
                    == fibonacci_number(k as nat),
        decreases bigint_value(n) - bigint_value(i),
    {
        let next = fib_rec(&sequence);
        let ghost before = sequence@;
        sequence.push(next);
        i = bigint_add(&i, &one);
        assert forall|k: int| 0 <= k < sequence@.len() implies bigint_value(
            #[trigger] sequence@[k],
        ) == fibonacci_number(k as nat) by {
            if k < before.len() {
                assert(sequence@[k] == before[k]);
            } else {
                assert(sequence@[k] == next);
                assert(bigint_value(before[k - 1]) == fibonacci_number((k - 1) as nat));
                assert(bigint_value(before[k - 2]) == fibonacci_number((k - 2) as nat));
            }
        }
    }
    sequence
}

/// Generates the first `n` dying-rabbits numbers; nothing for a negative
/// `n`.
pub fn dying_rabbits_sequence(n: BigInt) -> (sequence: Vec<BigInt>)
    ensures
        is_dying_rabbits_sequence(bigint_value(n), bigint_values(sequence@)),
{
    let one = bigint_from_u64(1);
    let mut i = bigint_from_u64(0);
    let mut sequence: Vec<BigInt> = Vec::new();
    while bigint_lt(&i, &n)
        invariant
            bigint_value(one) == 1,
            bigint_value(i) >= 0,
            bigint_value(i) <= bigint_value(n) || bigint_value(i) == 0,
            sequence@.len() == bigint_value(i),
            forall|k: int|
                0 <= k < sequence@.len() ==> bigint_value(#[trigger] sequence@[k])
                    == dying_rabbits_number(k as nat),
        decreases bigint_value(n) - bigint_value(i),
    {
        let next = decide_dying_rabbit(bigint_clone(&i), &sequence);
        let ghost before = sequence@;
        sequence.push(next);
        i = bigint_add(&i, &one);
        assert forall|k: int| 0 <= k < sequence@.len() implies bigint_value(
            #[trigger] sequence@[k],
        ) == dying_rabbits_number(k as nat) by {
            if k < before.len() {
                assert(sequence@[k] == before[k]);
            }
        }
    }
    sequence
}

/// The dying-rabbits number at index `i`, given the terms before it.
fn decide_dying_rabbit(i: BigInt, terms: &Vec<BigInt>) -> (term: BigInt)
    requires
        bigint_value(i) >= 0,
        terms@.len() == bigint_value(i),
        forall|k: int|
            0 <= k < terms@.len() ==> bigint_value(#[trigger] terms@[k]) == dying_rabbits_number(
                k as nat,
            ),
    ensures
        bigint_value(term) == dying_rabbits_number(bigint_value(i) as nat),
{
    let zero = bigint_from_u64(0);
    let thirteen = bigint_from_u64(13);
    if bigint_eq(&i, &zero) {
        bigint_from_u64(1)
    } else if bigint_lt(&i, &thirteen) {
        let one = bigint_from_u64(1);
        let fibonacci = fibonacci_sequence(bigint_add(&i, &one));
        let last = fibonacci.len() - 1;
        assert(bigint_values(fibonacci@)[last as int] == bigint_value(fibonacci@[last as int]));
        bigint_clone(&fibonacci[last])
    } else {
        dying_rec(terms)
    }
}

/// The sum of the last two terms less the term thirteen places from the
/// end.
fn dying_rec(terms: &Vec<BigInt>) -> (term: BigInt)
    requires
        terms@.len() >= 13,
    ensures
        bigint_value(term) == bigint_value(terms@[terms@.len() - 1]) + bigint_value(
            terms@[terms@.len() - 2],
        ) - bigint_value(terms@[terms@.len() - 13]),
{
    let len = terms.len();
    let sum = bigint_add(&terms[len - 1], &terms[len - 2]);
    bigint_sub(&sum, &terms[len - 13])
}

} // verus!
