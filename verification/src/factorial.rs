//! Factorials in fixed width.
//!
//! `u128` holds `n!` up to `n = 34`; the functions here accept exactly that
//! range. For larger arguments use [`crate::factorials`].

use vstd::prelude::*;

verus! {

/// The largest `n` whose factorial fits in a `u128`.
pub const MAX_FACTORIAL_ARGUMENT: u128 = 34;

/// `n!`: the product of the integers from 1 to `n`, with `0! = 1`.
pub open spec fn factorial_of(n: nat) -> nat
    decreases n,
{
    if n <= 1 {
        1
    } else {
        n * factorial_of((n - 1) as nat)
    }
}

/// The defining recurrence: `0! = 1! = 1`, and `n! = n * (n - 1)!` from 2 on.
pub proof fn lemma_factorial_recurrence(n: nat)
    ensures
        factorial_of(0) == 1,
        factorial_of(1) == 1,
        n >= 2 ==> factorial_of(n) == n * factorial_of((n - 1) as nat),
{
}

/// A factorial is never zero.
pub proof fn lemma_factorial_positive(n: nat)
    ensures
        factorial_of(n) >= 1,
    decreases n,
{
    if n > 1 {
        lemma_factorial_positive((n - 1) as nat);
        assert(n * factorial_of((n - 1) as nat) >= 1) by (nonlinear_arith)
            requires
                n >= 1,
                factorial_of((n - 1) as nat) >= 1,
        ;
    }
}

/// Factorials grow with their argument.
pub proof fn lemma_factorial_monotonic(m: nat, n: nat)
    requires
        m <= n,
    ensures
        factorial_of(m) <= factorial_of(n),
    decreases n,
{
    if m < n {
        lemma_factorial_monotonic(m, (n - 1) as nat);
        lemma_factorial_positive((n - 1) as nat);
        if n > 1 {
            assert(n * factorial_of((n - 1) as nat) >= factorial_of((n - 1) as nat))
                by (nonlinear_arith)
                requires
                    n >= 1,
            ;
        }
    }
}

/// `34!`, the largest factorial below `2^128`.
pub proof fn lemma_factorial_34()
    ensures
        factorial_of(34) == 295232799039604140847618609643520000000,
        factorial_of(34) <= u128::MAX,
{
    assert(factorial_of(1) == 1);
    assert(factorial_of(2) == 2);
    assert(factorial_of(3) == 6);
    assert(factorial_of(4) == 24);
    assert(factorial_of(5) == 120);
    assert(factorial_of(6) == 720);
    assert(factorial_of(7) == 5040);
    assert(factorial_of(8) == 40320);
    assert(factorial_of(9) == 362880);
    assert(factorial_of(10) == 3628800);
    assert(factorial_of(11) == 39916800);
    assert(factorial_of(12) == 479001600);
    assert(factorial_of(13) == 6227020800);
    assert(factorial_of(14) == 87178291200);
    assert(factorial_of(15) == 1307674368000);
    assert(factorial_of(16) == 20922789888000);
    assert(factorial_of(17) == 355687428096000);
    assert(factorial_of(18) == 6402373705728000);
    assert(factorial_of(19) == 121645100408832000);
    assert(factorial_of(20) == 2432902008176640000);
    assert(factorial_of(21) == 51090942171709440000);
    assert(factorial_of(22) == 1124000727777607680000);
    assert(factorial_of(23) == 25852016738884976640000);
    assert(factorial_of(24) == 620448401733239439360000);
    assert(factorial_of(25) == 15511210043330985984000000);
    assert(factorial_of(26) == 403291461126605635584000000);
    assert(factorial_of(27) == 10888869450418352160768000000);
    assert(factorial_of(28) == 304888344611713860501504000000);
    assert(factorial_of(29) == 8841761993739701954543616000000);
    assert(factorial_of(30) == 265252859812191058636308480000000);
    assert(factorial_of(31) == 8222838654177922817725562880000000);
    assert(factorial_of(32) == 263130836933693530167218012160000000);
    assert(factorial_of(33) == 8683317618811886495518194401280000000);
    assert(factorial_of(34) == 295232799039604140847618609643520000000);
}

/// `35!` no longer fits in a `u128`.
pub proof fn lemma_factorial_35()
    ensures
        factorial_of(35) > u128::MAX,
{
    lemma_factorial_34();
    assert(factorial_of(35) == 35 * factorial_of(34));
}

/// Computes `n!` for `n` up to [`MAX_FACTORIAL_ARGUMENT`].
pub fn factorial(n: u128) -> (result: u128)
    requires
        n <= MAX_FACTORIAL_ARGUMENT,
    ensures
        result == factorial_of(n as nat),
{
    let mut product: u128 = 1;
    let mut i: u128 = 1;
    while i < n
        invariant
            1 <= i,
            i <= n || (n == 0 && i == 1),
            n <= MAX_FACTORIAL_ARGUMENT,
            product == factorial_of(i as nat),
        decreases n - i,
    {
        i = i + 1;
        proof {
            lemma_factorial_monotonic(i as nat, 34);
            lemma_factorial_34();
            assert(factorial_of(i as nat) == i * factorial_of((i - 1) as nat));
            assert(product * i == i * product) by (nonlinear_arith);
        }
        product = product * i;
    }
    assert(factorial_of(0) == factorial_of(1));
    product
}

/// Lists `1!, 2!, ..., n!` for `n` up to [`MAX_FACTORIAL_ARGUMENT`].
pub fn factorial_list(n: u128) -> (list: Vec<u128>)
    requires
        n <= MAX_FACTORIAL_ARGUMENT,
    ensures
        list@.len() == n,
        forall|k: int| 0 <= k < n ==> #[trigger] list@[k] == factorial_of((k + 1) as nat),
{
    let mut list: Vec<u128> = Vec::new();
    let mut i: u128 = 1;
    while i <= n
        invariant
            1 <= i <= n + 1,
            n <= MAX_FACTORIAL_ARGUMENT,
            list@.len() == i - 1,
            forall|k: int| 0 <= k < i - 1 ==> #[trigger] list@[k] == factorial_of((k + 1) as nat),
        decreases n + 1 - i,
    {
        list.push(factorial(i));
        i = i + 1;
    }
    list
}

} // verus!
