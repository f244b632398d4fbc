//! Divisors and perfect numbers in fixed width.

use crate::euclid::lemma_euclid;
use crate::primes::{
    generate_primes, is_prime, is_prime_number, is_prime_table, lemma_cofactor, listed,
};
use vstd::arithmetic::div_mod::lemma_mod_multiples_basic;
use vstd::arithmetic::power2::{
    lemma2_to64, lemma_pow2_strictly_increases, lemma_pow2_unfold, pow2,
};
use vstd::prelude::*;

verus! {

/// `list` holds the positive divisors of `n`, `n` itself among them, in
/// increasing order. A number below 1 has none.
pub open spec fn is_divisor_list(n: int, list: Seq<i64>) -> bool {
    &&& forall|i: int, j: int| 0 <= i < j < list.len() ==> list[i] < list[j]
    &&& forall|i: int|
        0 <= i < list.len() ==> 1 <= #[trigger] list[i] <= n && n % (list[i] as int) == 0
    &&& forall|d: int|
        1 <= d <= n && #[trigger] (n % d) == 0 ==> exists|i: int|
            0 <= i < list.len() && #[trigger] list[i] == d
}

/// The sum of the positive divisors of `n` that are less than `below`.
pub open spec fn divisor_sum(n: int, below: int) -> int
    decreases below,
{
    if below <= 1 {
        0
    } else if n % (below - 1) == 0 {
        divisor_sum(n, below - 1) + (below - 1)
    } else {
        divisor_sum(n, below - 1)
    }
}

/// `n` is a perfect number: positive, and the sum of its divisors below
/// itself.
pub open spec fn is_perfect(n: int) -> bool {
    n >= 1 && divisor_sum(n, n) == n
}

/// The sum of the entries of a list.
pub open spec fn list_sum(list: Seq<i64>) -> int
    decreases list.len(),
{
    if list.len() == 0 {
        0
    } else {
        list_sum(list.drop_last()) + list.last()
    }
}

/// The sum of a list with one more entry at its end.
pub proof fn lemma_list_sum_push(list: Seq<i64>, entry: i64)
    ensures
        list_sum(list.push(entry)) == list_sum(list) + entry,
{
    assert(list.push(entry).drop_last() =~= list);
}

/// A sum over divisors does not grow across a range that holds none.
pub proof fn lemma_divisor_sum_skips(n: int, from: int, to: int)
    requires
        1 <= from <= to,
        forall|d: int| from <= d < to ==> #[trigger] (n % d) != 0,
    ensures
        divisor_sum(n, to) == divisor_sum(n, from),
    decreases to - from,
{
    if from < to {
        lemma_divisor_sum_skips(n, from, to - 1);
    }
}

/// The sum of the first entries of a list of positive numbers does not
/// exceed the sum of all.
pub proof fn lemma_list_sum_prefix(list: Seq<i64>, count: int)
    requires
        0 <= count <= list.len(),
        forall|i: int| 0 <= i < list.len() ==> #[trigger] list[i] >= 0,
    ensures
        list_sum(list.take(count)) <= list_sum(list),
    decreases list.len() - count,
{
    if count == list.len() {
        assert(list.take(count) =~= list);
    } else {
        lemma_list_sum_prefix(list, count + 1);
        assert(list.take(count + 1).drop_last() =~= list.take(count));
    }
}

/// Lists the positive divisors of `n` in increasing order, `n` itself
/// last. A number below 1 has none.
pub fn divisors(n: i64) -> (list: Vec<i64>)
    ensures
        is_divisor_list(n as int, list@),
        list_sum(list@) == divisor_sum(n as int, n + 1),
        n >= 1 ==> list@.len() >= 1 && list@.last() == n,
{
    let mut list: Vec<i64> = Vec::new();
    if n < 1 {
        return list;
    }
    let half: i64 = n / 2;
    let mut d: i64 = 1;
    while d <= half
        invariant
            n >= 1,
            half == n / 2,
            1 <= d <= half + 1,
            forall|i: int, j: int| 0 <= i < j < list@.len() ==> list@[i] < list@[j],
            forall|i: int|
                0 <= i < list@.len() ==> 1 <= #[trigger] list@[i] < d && n as int % (
                list@[i] as int) == 0,
            forall|k: int|
                1 <= k < d && #[trigger] (n as int % k) == 0 ==> exists|i: int|
                    0 <= i < list@.len() && #[trigger] list@[i] == k,
            list_sum(list@) == divisor_sum(n as int, d as int),
        decreases half + 1 - d,
    {
        if n % d == 0 {
            let ghost before = list@;
            list.push(d);
            proof {
                lemma_list_sum_push(before, d);
                assert forall|k: int| 1 <= k < d + 1 && #[trigger] (n as int % k)
                    == 0 implies exists|i: int| 0 <= i < list@.len() && #[trigger] list@[i]
                    == k by {
                    if k == d {
                        assert(list@[before.len() as int] == d);
                    } else {
                        let i = choose|i: int| 0 <= i < before.len() && before[i] == k;
                        assert(list@[i] == k);
                    }
                }
            }
        }
        d = d + 1;
    }
    let ghost before = list@;
    list.push(n);
    proof {
        lemma_list_sum_push(before, n);
        lemma_mod_multiples_basic(1, n as int);
        assert forall|k: int| half + 1 <= k < n implies #[trigger] (n as int % k) != 0 by {
            if n as int % k == 0 {
                lemma_cofactor(n as int, k);
            }
        }
        lemma_divisor_sum_skips(n as int, half + 1, n as int);
        assert forall|k: int| 1 <= k <= n && #[trigger] (n as int % k) == 0 implies exists|i: int|
            0 <= i < list@.len() && #[trigger] list@[i] == k by {
            if k == n {
                assert(list@[before.len() as int] == n);
            } else {
                if k > half {
                    lemma_cofactor(n as int, k);
                }
                let i = choose|i: int| 0 <= i < before.len() && before[i] == k;
                assert(list@[i] == k);
            }
        }
    }
    list
}

/// Tests whether `n` equals the sum of its proper divisors, those below
/// `n` itself: for a positive `n`, whether it is a perfect number. Zero,
/// which has no divisors here, equals the empty sum.
pub fn is_perfect_number(n: i64) -> (perfect: bool)
    ensures
        perfect == (divisor_sum(n as int, n as int) == n),
        perfect == (is_perfect(n as int) || n == 0),
{
    let mut list = divisors(n);
    let ghost all = list@;
    list.pop();
    proof {
        if n >= 1 {
            assert(list@ =~= all.drop_last());
        } else {
            assert(list@ =~= all);
        }
        assert(list_sum(list@) == divisor_sum(n as int, n as int));
    }
    let mut i: usize = 0;
    let mut sum: i64 = 0;
    while i < list.len()
        invariant
            i <= list@.len(),
            forall|k: int| 0 <= k < list@.len() ==> #[trigger] list@[k] >= 1,
            list@.len() > 0 ==> n >= 1,
            0 <= sum,
            sum <= n || list@.len() == 0,
            sum == list_sum(list@.take(i as int)),
            list_sum(list@) == divisor_sum(n as int, n as int),
        decreases list@.len() - i,
    {
        let d = list[i];
        proof {
            assert(list@.take(i + 1).drop_last() =~= list@.take(i as int));
            lemma_list_sum_prefix(list@, i + 1);
        }
        if d > n - sum {
            return false;
        }
        sum = sum + d;
        i = i + 1;
    }
    proof {
        assert(list@.take(i as int) =~= list@);
    }
    sum == n
}

/// The even perfect numbers that a list of exponents gives: for each
/// exponent `p` with `2^p - 1` prime, in order, the number
/// `2^(p-1) (2^p - 1)`.
pub open spec fn perfect_from_exponents(exponents: Seq<i64>) -> Seq<int>
    decreases exponents.len(),
{
    if exponents.len() == 0 {
        Seq::empty()
    } else {
        let before = perfect_from_exponents(exponents.drop_last());
        let p = exponents.last();
        if p >= 1 && is_prime_number(pow2(p as nat) - 1) {
            before.push(pow2((p - 1) as nat) * (pow2(p as nat) - 1))
        } else {
            before
        }
    }
}

/// Computes `2^exponent`.
fn power_of_two(exponent: i64) -> (power: i64)
    requires
        0 <= exponent <= 31,
    ensures
        power == pow2(exponent as nat),
        1 <= power <= 0x8000_0000,
{
    let mut power: i64 = 1;
    let mut i: i64 = 0;
    proof {
        lemma2_to64();
    }
    while i < exponent
        invariant
            0 <= i <= exponent <= 31,
            power == pow2(i as nat),
            1 <= power,
            pow2(31) == 0x8000_0000,
        decreases exponent - i,
    {
        proof {
            lemma_pow2_unfold((i + 1) as nat);
            if i + 1 < 31 {
                lemma_pow2_strictly_increases((i + 1) as nat, 31);
            }
        }
        power = power * 2;
        i = i + 1;
    }
    proof {
        if exponent < 31 {
            lemma_pow2_strictly_increases(exponent as nat, 31);
        }
    }
    power
}

/// Lists the even perfect numbers `2^(p-1) (2^p - 1)` over the primes `p`
/// below `n` for which `2^p - 1` is prime; by Euclid's theorem each of them
/// is perfect. The exponents 2 and 3 are tried whatever `n` is. Exponents
/// up to 31 keep the numbers within 64 bits.
pub fn generate_even_perfect_numbers(n: i64) -> (numbers: Vec<i64>)
    requires
        0 <= n <= 32,
    ensures
        exists|exponents: Seq<i64>|
            {
                &&& is_prime_table(n as int, exponents)
                &&& numbers@.map_values(|v: i64| v as int) == #[trigger] perfect_from_exponents(
                    exponents,
                )
            },
        forall|i: int| 0 <= i < numbers@.len() ==> is_perfect(#[trigger] numbers@[i] as int),
{
    let primes = generate_primes(n);
    let mut numbers: Vec<i64> = Vec::new();
    let mut i: usize = 0;
    assert(primes@.take(0) =~= Seq::<i64>::empty());
    assert(numbers@.map_values(|v: i64| v as int) =~= Seq::<int>::empty());
    while i < primes.len()
        invariant
            i <= primes@.len(),
            0 <= n <= 32,
            is_prime_table(n as int, primes@),
            numbers@.map_values(|v: i64| v as int) == perfect_from_exponents(
                primes@.take(i as int),
            ),
            forall|k: int| 0 <= k < numbers@.len() ==> is_perfect(#[trigger] numbers@[k] as int),
        decreases primes@.len() - i,
    {
        let prime = primes[i];
        proof {
            assert(listed(n as int, prime as int));
            assert(primes@.take(i + 1).drop_last() =~= primes@.take(i as int));
            assert(primes@.take(i + 1).last() == prime);
        }
        let high = power_of_two(prime);
        if is_prime(high - 1) {
            let low = power_of_two(prime - 1);
            assert(low * (high - 1) <= 0x8000_0000 * 0x8000_0000) by (nonlinear_arith)
                requires
                    1 <= low <= 0x8000_0000,
                    1 <= high <= 0x8000_0000,
            ;
            let ghost before = numbers@;
            numbers.push(low * (high - 1));
            proof {
                lemma_euclid((prime - 1) as nat, high - 1);
                assert(numbers@.map_values(|v: i64| v as int) =~= before.map_values(
                    |v: i64| v as int,
                ).push(low * (high - 1)));
                assert forall|k: int| 0 <= k < numbers@.len() implies is_perfect(
                    #[trigger] numbers@[k] as int,
                ) by {
                    if k < before.len() {
                        assert(numbers@[k] == before[k]);
                    }
                }
            }
        }
        i = i + 1;
    }
    assert(primes@.take(i as int) =~= primes@);
    numbers
}

} // verus!
