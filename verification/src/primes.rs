//! Primality in fixed width: trial division, a table of primes, and tests
//! that use the table.

use vstd::arithmetic::div_mod::{
    lemma_fundamental_div_mod, lemma_mod_multiples_basic, lemma_small_mod,
};
use vstd::arithmetic::logarithm::{lemma_log0, lemma_log_s, log};
use vstd::prelude::*;

verus! {

/// `n` is a prime number: at least 2 and divisible by nothing in between
/// 1 and itself.
pub open spec fn is_prime_number(n: int) -> bool {
    n >= 2 && forall|d: int| 2 <= d < n ==> #[trigger] (n % d) != 0
}

/// If `a` divides `b` and `b` divides `c`, then `a` divides `c`.
pub proof fn lemma_divides_transitive(a: int, b: int, c: int)
    requires
        a > 0,
        b > 0,
        b % a == 0,
        c % b == 0,
    ensures
        c % a == 0,
{
    lemma_fundamental_div_mod(b, a);
    lemma_fundamental_div_mod(c, b);
    let i = b / a;
    let j = c / b;
    assert(c == (j * i) * a) by (nonlinear_arith)
        requires
            c == b * j,
            b == a * i,
    ;
    lemma_mod_multiples_basic(j * i, a);
}

/// A proper divisor of a positive `n` is at most half of `n`, and the
/// quotient divides `n` as well.
pub proof fn lemma_cofactor(n: int, d: int)
    requires
        0 < d < n,
        n % d == 0,
    ensures
        2 * d <= n,
        n == d * (n / d),
        n / d >= 2,
        n % (n / d) == 0,
{
    lemma_fundamental_div_mod(n, d);
    let c = n / d;
    assert(c >= 2) by (nonlinear_arith)
        requires
            n == d * c,
            0 < d < n,
    ;
    assert(2 * d <= n) by (nonlinear_arith)
        requires
            n == d * c,
            c >= 2,
            d > 0,
    ;
    assert(n == d * c);
    assert(d * c == d * c);
    lemma_mod_multiples_basic(d, c);
}

/// The least divisor of `n` from `k` on, when nothing from 2 up to `k`
/// divides `n`.
proof fn lemma_least_divisor_from(n: int, k: int) -> (q: int)
    requires
        2 <= k <= n,
        forall|d: int| 2 <= d < k ==> #[trigger] (n % d) != 0,
    ensures
        k <= q <= n,
        n % q == 0,
        forall|d: int| 2 <= d < q ==> #[trigger] (n % d) != 0,
    decreases n - k,
{
    if n % k == 0 {
        k
    } else {
        assert(k != n) by {
            lemma_mod_multiples_basic(1, n);
        }
        lemma_least_divisor_from(n, k + 1)
    }
}

/// Every number from 2 on has a prime divisor; a number that is not prime
/// has one whose square does not exceed it. The divisor is returned.
pub proof fn lemma_prime_divisor(n: int) -> (q: int)
    requires
        n >= 2,
    ensures
        is_prime_number(q),
        2 <= q <= n,
        n % q == 0,
        !is_prime_number(n) ==> q * q <= n,
{
    let q = lemma_least_divisor_from(n, 2);
    assert forall|d: int| 2 <= d < q implies #[trigger] (q % d) != 0 by {
        if q % d == 0 {
            lemma_divides_transitive(d, q, n);
        }
    }
    if !is_prime_number(n) {
        assert(q < n);
        lemma_cofactor(n, q);
        let c = n / q;
        assert(c >= q);
        assert(q * q <= n) by (nonlinear_arith)
            requires
                n == q * c,
                c >= q,
                q > 0,
        ;
    }
    q
}

/// An even number above 2 is not prime.
pub proof fn lemma_even_not_prime(n: int)
    requires
        n > 2,
        n % 2 == 0,
    ensures
        !is_prime_number(n),
{
}

/// Tests `n` for primality by trial division: by 2, and then by the odd
/// numbers up to half of `n`.
pub fn is_prime_lazy(n: i64) -> (prime: bool)
    ensures
        prime == is_prime_number(n as int),
{
    if n <= 1 {
        return false;
    }
    if n == 2 {
        return true;
    }
    if n % 2 == 0 {
        return false;
    }
    let mut i: i64 = 3;
    while i <= n / 2
        invariant
            n >= 3,
            n % 2 == 1,
            3 <= i <= n / 2 + 2,
            i % 2 == 1,
            forall|d: int| 2 <= d < i ==> #[trigger] (n as int % d) != 0,
        decreases n / 2 + 2 - i,
    {
        if n % i == 0 {
            assert(2 * (i as int) <= n);
            return false;
        }
        assert forall|d: int| 2 <= d < i + 2 implies #[trigger] (n as int % d) != 0 by {
            if d == i + 1 && n as int % d == 0 {
                lemma_divides_transitive(2, d, n as int);
            }
        }
        i = i + 2;
    }
    assert forall|d: int| 2 <= d < n implies #[trigger] (n as int % d) != 0 by {
        if n as int % d == 0 {
            lemma_cofactor(n as int, d);
        }
    }
    true
}

/// The entry divides `n`, whatever the sign of the entry.
pub open spec fn entry_divides(entry: int, n: int) -> bool {
    if entry < 0 {
        n % (-entry) == 0
    } else {
        n % entry == 0
    }
}

/// The entry lies above the square root of `n`: it is positive and its
/// square exceeds `n`.
pub open spec fn entry_above_root(entry: int, n: int) -> bool {
    entry > 0 && entry * entry > n
}

/// What walking a list of candidate divisors decides about `n`, from the
/// given position on: `Some(false)` at the first entry that divides `n`,
/// `Some(true)` at the first entry above the square root of `n`, whichever
/// comes first, and `None` if the list ends before either.
pub open spec fn list_verdict(n: int, list: Seq<i64>, from: int) -> Option<bool>
    decreases list.len() - from,
{
    if from < 0 || from >= list.len() {
        None
    } else if entry_divides(list[from] as int, n) {
        Some(false)
    } else if entry_above_root(list[from] as int, n) {
        Some(true)
    } else {
        list_verdict(n, list, from + 1)
    }
}

/// Where a verdict comes from: the entry that decided it, with every entry
/// before it neither dividing `n` nor lying above its root; or, for no
/// verdict, all entries of that kind.
pub proof fn lemma_list_verdict(n: int, list: Seq<i64>, from: int) -> (at: int)
    requires
        0 <= from <= list.len(),
    ensures
        from <= at <= list.len(),
        forall|i: int|
            from <= i < at ==> !entry_divides(#[trigger] list[i] as int, n) && !entry_above_root(
                list[i] as int,
                n,
            ),
        list_verdict(n, list, from) is None <==> at == list.len(),
        list_verdict(n, list, from) == Some(false) ==> at < list.len() && entry_divides(
            list[at] as int,
            n,
        ),
        list_verdict(n, list, from) == Some(true) ==> at < list.len() && !entry_divides(
            list[at] as int,
            n,
        ) && entry_above_root(list[at] as int, n),
    decreases list.len() - from,
{
    if from >= list.len() {
        from
    } else if entry_divides(list[from] as int, n) {
        from
    } else if entry_above_root(list[from] as int, n) {
        from
    } else {
        lemma_list_verdict(n, list, from + 1)
    }
}

/// Whether the entry divides `n`.
fn divides(entry: i64, n: i64) -> (yes: bool)
    requires
        n >= 0,
        entry != 0,
    ensures
        yes == entry_divides(entry as int, n as int),
{
    if entry > 0 {
        n % entry == 0
    } else if entry == i64::MIN {
        proof {
            lemma_small_mod(n as nat, 0x8000_0000_0000_0000);
        }
        n == 0
    } else {
        n % (-entry) == 0
    }
}

/// Walks the list as [`list_verdict`] describes.
fn walk(n: i64, list: &Vec<i64>) -> (verdict: Option<bool>)
    requires
        n >= 0,
        forall|i: int| 0 <= i < list@.len() ==> #[trigger] list@[i] != 0,
    ensures
        verdict == list_verdict(n as int, list@, 0),
{
    let mut i: usize = 0;
    while i < list.len()
        invariant
            n >= 0,
            i <= list@.len(),
            forall|k: int| 0 <= k < list@.len() ==> #[trigger] list@[k] != 0,
            list_verdict(n as int, list@, 0) == list_verdict(n as int, list@, i as int),
        decreases list@.len() - i,
    {
        let entry = list[i];
        if divides(entry, n) {
            return Some(false);
        }
        if entry > 0 {
            assert(0 < entry * entry <= 0x7fff_ffff_ffff_ffff * 0x7fff_ffff_ffff_ffff)
                by (nonlinear_arith)
                requires
                    0 < entry <= 0x7fff_ffff_ffff_ffff,
            ;
            if (entry as i128) * (entry as i128) > (n as i128) {
                return Some(true);
            }
        }
        i = i + 1;
    }
    None
}

/// Tests `n` against a list of primes. The list is walked in order: the
/// first entry that divides `n` settles that `n` is not prime, the first
/// entry above the square root of `n` settles that it is. If the list ends
/// before either, or `n` is negative, the answer is `false`. An entry may
/// be negative: it can divide `n`, and never lies above a root. A zero
/// entry divides nothing and is not accepted.
///
/// With a list that holds all primes up to the root of `n`, in increasing
/// order, and one beyond, this is a primality test.
pub fn is_prime_list(n: i64, p: Vec<i64>) -> (prime: bool)
    requires
        forall|i: int| 0 <= i < p@.len() ==> #[trigger] p@[i] != 0,
    ensures
        prime == (n >= 0 && list_verdict(n as int, p@, 0) == Some(true)),
{
    if n < 0 {
        return false;
    }
    match walk(n, &p) {
        Some(verdict) => verdict,
        None => false,
    }
}

/// `k` belongs in the table of primes below `limit`: it is prime, and
/// below the limit or one of 2 and 3, which the table always holds.
pub open spec fn listed(limit: int, k: int) -> bool {
    is_prime_number(k) && (k < limit || k <= 3)
}

/// `table` is the table of primes below `limit`: in increasing order, 2
/// and 3 and every prime below the limit, and nothing else.
pub open spec fn is_prime_table(limit: int, table: Seq<i64>) -> bool {
    &&& forall|i: int, j: int| 0 <= i < j < table.len() ==> table[i] < table[j]
    &&& forall|i: int| 0 <= i < table.len() ==> listed(limit, #[trigger] table[i] as int)
    &&& forall|k: int| #[trigger]
        listed(limit, k) ==> exists|i: int| 0 <= i < table.len() && #[trigger] table[i] == k
}

/// There is one table of primes for each limit.
pub proof fn lemma_prime_table_unique(limit: int, first: Seq<i64>, second: Seq<i64>)
    requires
        is_prime_table(limit, first),
        is_prime_table(limit, second),
    ensures
        first == second,
{
    lemma_tables_agree(limit, first, second, first.len() as int);
    lemma_tables_agree(limit, second, first, second.len() as int);
    assert(first =~= second);
}

/// Two tables for one limit agree on their first `upto` entries, and the
/// second is at least as long as `upto`.
proof fn lemma_tables_agree(limit: int, first: Seq<i64>, second: Seq<i64>, upto: int)
    requires
        is_prime_table(limit, first),
        is_prime_table(limit, second),
        0 <= upto <= first.len(),
    ensures
        upto <= second.len(),
        forall|i: int| 0 <= i < upto ==> first[i] == second[i],
    decreases upto,
{
    if upto > 0 {
        let last = upto - 1;
        lemma_tables_agree(limit, first, second, last);
        // first[last] is listed, so it stands somewhere in second
        let k = first[last] as int;
        assert(listed(limit, k));
        let at = choose|i: int| 0 <= i < second.len() && second[i] == k;
        // it cannot stand before position `last`, where second agrees with first
        if at < last {
            assert(first[at] == second[at]);
            assert(first[at] < first[last]);
        }
        // nor can anything smaller stand at position `last`
        if at > last {
            let other = second[last] as int;
            assert(listed(limit, other));
            let back = choose|i: int| 0 <= i < first.len() && first[i] == other;
            assert(second[last] < second[at]);
            if back < last {
                assert(first[back] == second[back]);
                assert(second[back] < second[last]);
            } else if back > last {
                assert(first[last] < first[back]);
            }
        }
    }
}

/// What is known of `n` once the table of primes below it has been walked
/// without finding a divisor.
proof fn lemma_no_divisor_in_table(n: int, table: Seq<i64>, at: int)
    requires
        n >= 5,
        is_prime_table(n, table),
        0 <= at <= table.len(),
        forall|i: int| 0 <= i < at ==> n % (#[trigger] table[i] as int) != 0,
        at < table.len() ==> table[at] * table[at] > n,
    ensures
        is_prime_number(n),
{
    let q = lemma_prime_divisor(n);
    if !is_prime_number(n) {
        // q is a prime below n, so the table holds it
        assert(q < n) by (nonlinear_arith)
            requires
                q * q <= n,
                q >= 2,
        ;
        assert(listed(n, q));
        let i = choose|i: int| 0 <= i < table.len() && table[i] == q;
        if i >= at {
            // then at < len, and table[at] <= q, so table[at]^2 <= q^2 <= n
            let r = table[at] as int;
            assert(r <= q);
            assert(listed(n, r));
            assert(r * r <= q * q) by (nonlinear_arith)
                requires
                    2 <= r <= q,
            ;
        }
    }
}

/// Lists the primes below `limit` in increasing order. The list begins
/// with 2 and 3 whatever the limit is.
pub fn generate_primes(limit: i64) -> (table: Vec<i64>)
    requires
        limit >= 0,
    ensures
        is_prime_table(limit as int, table@),
{
    let mut table: Vec<i64> = Vec::new();
    table.push(2);
    table.push(3);
    let mut n: i64 = 5;
    proof {
        assert(is_prime_number(2));
        assert(is_prime_number(3)) by {
            assert(3int % 2 == 1);
        }
        assert(!is_prime_number(4)) by {
            assert(4int % 2 == 0);
        }
        assert forall|k: int| #[trigger] listed(5, k) implies exists|i: int|
            0 <= i < table@.len() && #[trigger] table@[i] == k by {
            if k == 2 {
                assert(table@[0] == 2);
            } else {
                assert(k == 3);
                assert(table@[1] == 3);
            }
        }
    }
    while n < limit
        invariant
            5 <= n,
            n % 2 == 1,
            n <= limit + 1 || n == 5,
            is_prime_table(n as int, table@),
        decreases limit + 1 - n,
    {
        let ghost before = table@;
        let verdict = walk_table(n, &table);
        if verdict {
            table.push(n);
        }
        proof {
            let next = n + 2;
            lemma_even_not_prime(n + 1);
            assert forall|i: int, j: int| 0 <= i < j < table@.len() implies table@[i]
                < table@[j] by {
                if j == before.len() {
                    assert(table@[i] == before[i]);
                    assert(listed(n as int, before[i] as int));
                } else {
                    assert(table@[i] == before[i] && table@[j] == before[j]);
                }
            }
            assert forall|i: int| 0 <= i < table@.len() implies listed(
                next,
                #[trigger] table@[i] as int,
            ) by {
                if i < before.len() {
                    assert(table@[i] == before[i]);
                    assert(listed(n as int, before[i] as int));
                }
            }
            assert forall|k: int| #[trigger] listed(next, k) implies exists|i: int|
                0 <= i < table@.len() && #[trigger] table@[i] == k by {
                if k == n {
                    assert(table@[before.len() as int] == n);
                } else {
                    assert(listed(n as int, k));
                    let i = choose|i: int| 0 <= i < before.len() && before[i] == k;
                    assert(table@[i] == k);
                }
            }
        }
        n = n + 2;
    }
    proof {
        // n is the first odd number from 5 on that is not below the limit
        let reached = n as int;
        assert forall|i: int| 0 <= i < table@.len() implies listed(
            limit as int,
            #[trigger] table@[i] as int,
        ) by {
            assert(listed(reached, table@[i] as int));
            if table@[i] >= limit && table@[i] > 3 {
                // limit <= table[i] < n <= limit + 1, so n == 5 or table[i] == limit == n - 1
                if n > 5 {
                    lemma_even_not_prime(table@[i] as int);
                } else {
                    assert(table@[i] == 4);
                    lemma_even_not_prime(4);
                }
            }
        }
        assert forall|k: int| #[trigger] listed(limit as int, k) implies exists|i: int|
            0 <= i < table@.len() && #[trigger] table@[i] == k by {
            assert(listed(reached, k));
        }
    }
    table
}

/// Decides whether the odd number `n` is prime, given the table of the
/// primes below it.
fn walk_table(n: i64, table: &Vec<i64>) -> (prime: bool)
    requires
        n >= 5,
        is_prime_table(n as int, table@),
    ensures
        prime == is_prime_number(n as int),
{
    assert forall|i: int| 0 <= i < table@.len() implies #[trigger] table@[i] > 0 by {
        assert(listed(n as int, table@[i] as int));
    }
    let verdict = walk(n, table);
    proof {
        let at = lemma_list_verdict(n as int, table@, 0);
        if verdict == Some(false) {
            let q = table@[at] as int;
            assert(listed(n as int, q));
            assert(n as int % q == 0);
        } else {
            if at < table@.len() {
                assert(verdict == Some(true));
            }
            lemma_no_divisor_in_table(n as int, table@, at);
        }
    }
    match verdict {
        Some(false) => false,
        _ => true,
    }
}

/// Tests `n` for primality against the table of primes up to half of it.
pub fn is_prime(n: i64) -> (prime: bool)
    ensures
        prime == is_prime_number(n as int),
{
    if n == 2 {
        return true;
    } else if n <= 1 {
        return false;
    }
    let table = generate_primes(n / 2 + 1);
    assert forall|i: int| 0 <= i < table@.len() implies #[trigger] table@[i] > 0 by {
        assert(listed(n / 2 + 1, table@[i] as int));
    }
    let verdict = walk(n, &table);
    proof {
        let limit = (n / 2 + 1) as int;
        let at = lemma_list_verdict(n as int, table@, 0);
        if verdict == Some(false) {
            let q = table@[at] as int;
            assert(listed(limit, q));
            if q == n {
                // only for n == 3, where 2 stands before 3 and settles the matter
                assert(listed(limit, 2));
                let two = choose|i: int| 0 <= i < table@.len() && table@[i] == 2;
                assert(two < at);
                assert(table@[two] * table@[two] <= n);
            }
        } else {
            let q = lemma_prime_divisor(n as int);
            if !is_prime_number(n as int) {
                assert(2 * q <= n) by (nonlinear_arith)
                    requires
                        q * q <= n,
                        q >= 2,
                ;
                assert(listed(limit, q));
                let i = choose|i: int| 0 <= i < table@.len() && table@[i] == q;
                if i >= at {
                    let r = table@[at] as int;
                    assert(r <= q);
                    assert(listed(limit, r));
                    assert(r * r <= q * q) by (nonlinear_arith)
                        requires
                            2 <= r <= q,
                    ;
                }
            }
        }
    }
    match verdict {
        Some(false) => false,
        _ => true,
    }
}

/// The exponent of the largest power of 2 that does not exceed `value`.
fn floor_log2(value: i64) -> (exponent: i64)
    requires
        value >= 1,
    ensures
        exponent == log(2, value as int),
        0 <= exponent < value,
{
    let mut rest: i64 = value;
    let mut exponent: i64 = 0;
    while rest >= 2
        invariant
            rest >= 1,
            0 <= exponent,
            log(2, value as int) == exponent + log(2, rest as int),
            exponent + rest <= value,
        decreases rest,
    {
        proof {
            lemma_log_s(2, rest as int);
        }
        rest = rest / 2;
        exponent = exponent + 1;
    }
    proof {
        lemma_log0(2, rest as int);
    }
    exponent
}

/// Tests whether `m` is a prime whose successor has a prime number of
/// binary digits after the first: both `m` and the whole part of
/// `log2(m + 1)` are prime. For `m = 2^p - 1` this says that `m` is a
/// Mersenne prime.
pub fn is_mersenne_prime(m: i64) -> (mersenne: bool)
    ensures
        mersenne == (is_prime_number(m as int) && is_prime_number(log(2, m + 1))),
{
    if !is_prime_lazy(m) {
        return false;
    }
    proof {
        assert(9223372036854775807int % 7 == 0);
    }
    is_prime_lazy(floor_log2(m + 1))
}

} // verus!
