//! Prime numbers, Euclid's lemma, and primality by trial division.

use vstd::arithmetic::div_mod::{
    lemma_fundamental_div_mod, lemma_mod_multiples_basic, lemma_mul_mod_noop_general,
    lemma_small_mod,
};
use vstd::prelude::*;

verus! {

/// Whether `n` is a prime number: at least 2, and divisible by no number
/// between 1 and itself.
pub open spec fn is_prime_number(n: int) -> bool {
    n >= 2 && forall|d: int| 1 < d < n ==> #[trigger] (n % d) != 0
}

/// A multiple of `p` leaves nothing when divided by `p`, whatever its sign.
pub proof fn lemma_multiple_leaves_nothing(p: int, t: int)
    requires
        p > 0,
    ensures
        (p * t) % p == 0,
        (t * p) % p == 0,
{
    lemma_mod_multiples_basic(t, p);
    assert(p * t == t * p) by (nonlinear_arith);
}

/// Euclid's lemma: a prime that divides a product divides one of the factors.
pub proof fn lemma_prime_divides_factor(p: int, a: int, b: int)
    requires
        is_prime_number(p),
        b >= 0,
        (a * b) % p == 0,
    ensures
        a % p == 0 || b % p == 0,
    decreases b,
{
    if b == 0 {
    } else if b >= p {
        let rest = b % p;
        lemma_mul_mod_noop_general(a, b, p);
        lemma_prime_divides_factor(p, a, rest);
        lemma_small_mod(rest as nat, p as nat);
    } else if b == 1 {
        assert(a * 1 == a);
    } else {
        // 1 < b < p: the prime leaves a rest when divided by b
        let rest = p % b;
        let times = p / b;
        lemma_fundamental_div_mod(p, b);
        assert(p % b != 0);
        let t = (a * b) / p;
        lemma_fundamental_div_mod(a * b, p);
        assert(a * rest == p * (a - times * t)) by (nonlinear_arith)
            requires
                p == b * times + rest,
                a * b == p * t,
        ;
        lemma_multiple_leaves_nothing(p, a - times * t);
        lemma_prime_divides_factor(p, a, rest);
        lemma_small_mod(rest as nat, p as nat);
    }
}

/// Whether none of the numbers from `d` up to the square root of `n` divides
/// `n`, for a `d` from 2 on.
pub open spec fn no_divisor_from(n: int, d: int) -> bool
    decreases n - d,
{
    if d < 2 || d >= n || d * d > n {
        d >= 2
    } else {
        n % d != 0 && no_divisor_from(n, d + 1)
    }
}

/// Whether `d` does not stand in the way of the primality of `n`: it does not
/// divide `n`, or lies beyond the square root of `n`.
pub open spec fn passes_trial(n: int, d: int) -> bool {
    d * d > n || n % d != 0
}

/// Twelve steps of trial division at once.
pub proof fn lemma_trial_window(n: int, d: int)
    requires
        d >= 2,
        passes_trial(n, d),
        passes_trial(n, d + 1),
        passes_trial(n, d + 2),
        passes_trial(n, d + 3),
        passes_trial(n, d + 4),
        passes_trial(n, d + 5),
        passes_trial(n, d + 6),
        passes_trial(n, d + 7),
        passes_trial(n, d + 8),
        passes_trial(n, d + 9),
        passes_trial(n, d + 10),
        passes_trial(n, d + 11),
        no_divisor_from(n, d + 12),
    ensures
        no_divisor_from(n, d),
{
    reveal_with_fuel(no_divisor_from, 13);
}

/// A trial that starts at `from` passes every divisor from there up to the
/// square root.
proof fn lemma_trial_reaches(n: int, from: int, d: int)
    requires
        no_divisor_from(n, from),
        2 <= from <= d < n,
        d * d <= n,
    ensures
        n % d != 0,
    decreases d - from,
{
    assert(from * from <= d * d) by (nonlinear_arith)
        requires
            0 <= from <= d,
    ;
    if from < d {
        lemma_trial_reaches(n, from + 1, d);
    }
}

/// Trial division: a number from 2 on that nothing from 2 up to its square
/// root divides is prime.
pub proof fn lemma_prime_by_trial(n: int)
    requires
        n >= 2,
        no_divisor_from(n, 2),
    ensures
        is_prime_number(n),
{
    assert forall|d: int| 1 < d < n implies #[trigger] (n % d) != 0 by {
        if n % d == 0 {
            let e = n / d;
            lemma_fundamental_div_mod(n, d);
            assert(2 <= e < n && (d * d <= n || e * e <= n)) by (nonlinear_arith)
                requires
                    n == d * e,
                    1 < d < n,
            ;
            if d * d <= n {
                lemma_trial_reaches(n, 2, d);
            } else {
                assert(n == e * d) by (nonlinear_arith)
                    requires
                        n == d * e,
                ;
                lemma_multiple_leaves_nothing(e, d);
                lemma_trial_reaches(n, 2, e);
            }
        }
    }
}

} // verus!
