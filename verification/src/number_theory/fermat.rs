//! Fermat's little theorem, by way of the binomial theorem, and the square
//! roots of 1 modulo a prime.

use crate::number_theory::divisors::{
    is_prime_number, lemma_multiple_leaves_nothing, lemma_prime_divides_factor,
};
use vstd::arithmetic::div_mod::{
    lemma_add_mod_noop, lemma_fundamental_div_mod, lemma_mod_multiples_vanish, lemma_small_mod,
    lemma_sub_mod_noop,
};
use vstd::arithmetic::power::{lemma0_pow, lemma_pow_positive, pow};
use vstd::prelude::*;

verus! {

/// The binomial coefficient, by Pascal's rule: the number of ways to pick `k`
/// things out of `n`.
pub open spec fn binomial(n: nat, k: nat) -> nat
    decreases n,
{
    if k == 0 {
        1
    } else if n == 0 {
        0
    } else {
        binomial((n - 1) as nat, (k - 1) as nat) + binomial((n - 1) as nat, k)
    }
}

/// There is no way to pick more than there is.
pub proof fn lemma_binomial_beyond(n: nat, k: nat)
    requires
        k > n,
    ensures
        binomial(n, k) == 0,
    decreases n,
{
    if n > 0 {
        lemma_binomial_beyond((n - 1) as nat, (k - 1) as nat);
        lemma_binomial_beyond((n - 1) as nat, k);
    }
}

/// There is one way to pick everything.
pub proof fn lemma_binomial_all(n: nat)
    ensures
        binomial(n, n) == 1,
    decreases n,
{
    if n > 0 {
        lemma_binomial_all((n - 1) as nat);
        lemma_binomial_beyond((n - 1) as nat, n);
    }
}

/// The absorption rule: `k C(n, k) == n C(n - 1, k - 1)`.
pub proof fn lemma_binomial_absorption(n: nat, k: nat)
    requires
        n >= 1,
        k >= 1,
    ensures
        k * binomial(n, k) == n * binomial((n - 1) as nat, (k - 1) as nat),
    decreases n,
{
    let up = binomial((n - 1) as nat, (k - 1) as nat);
    let right = binomial((n - 1) as nat, k);
    let whole = binomial(n, k);
    assert(whole == up + right);
    if n == 1 {
        if k >= 2 {
            lemma_binomial_beyond(0, (k - 1) as nat);
            lemma_binomial_beyond(0, k);
        }
        assert(k * whole == n * up) by (nonlinear_arith)
            requires
                whole == up + right,
                right == 0,
                n == 1,
                k == 1 || up == 0,
        ;
    } else if k == 1 {
        lemma_binomial_absorption((n - 1) as nat, 1);
        let corner = binomial((n - 2) as nat, 0);
        assert(corner == 1);
        assert(k * whole == n * up) by (nonlinear_arith)
            requires
                whole == up + right,
                1 * right == (n - 1) * corner,
                corner == 1,
                up == 1,
                k == 1,
        ;
    } else {
        let a = binomial((n - 2) as nat, (k - 2) as nat);
        let b = binomial((n - 2) as nat, (k - 1) as nat);
        lemma_binomial_absorption((n - 1) as nat, k);
        lemma_binomial_absorption((n - 1) as nat, (k - 1) as nat);
        assert(up == a + b);
        assert(k * whole == n * up) by (nonlinear_arith)
            requires
                whole == up + right,
                up == a + b,
                k * right == (n - 1) * b,
                (k - 1) * up == (n - 1) * a,
        ;
    }
}

/// A prime divides every binomial coefficient of its row but the two at the
/// ends.
pub proof fn lemma_prime_divides_binomial(p: nat, k: nat)
    requires
        is_prime_number(p as int),
        0 < k < p,
    ensures
        binomial(p, k) % p == 0,
{
    let c = binomial(p, k) as int;
    let d = binomial((p - 1) as nat, (k - 1) as nat) as int;
    lemma_binomial_absorption(p, k);
    assert(c * k == p * d) by (nonlinear_arith)
        requires
            k * c == p * d,
    ;
    lemma_multiple_leaves_nothing(p as int, d);
    lemma_prime_divides_factor(p as int, c, k as int);
    lemma_small_mod(k, p);
}

/// The start of the binomial expansion of `(a + 1)^n`: the terms up to the
/// power `m` of `a`.
pub open spec fn binomial_sum(n: nat, a: int, m: nat) -> int
    decreases m,
{
    binomial(n, m) * pow(a, m) + if m == 0 {
        0
    } else {
        binomial_sum(n, a, (m - 1) as nat)
    }
}

/// Pascal's rule, summed up: a row's expansion is the one of the row above,
/// plus `a` times the one of the row above with one term less.
pub proof fn lemma_binomial_sum_step(n: nat, a: int, m: nat)
    requires
        m >= 1,
    ensures
        binomial_sum(n + 1, a, m) == binomial_sum(n, a, m) + a * binomial_sum(
            n,
            a,
            (m - 1) as nat,
        ),
    decreases m,
{
    let c_up = binomial(n, (m - 1) as nat) as int;
    let c = binomial(n, m) as int;
    let x = pow(a, m);
    let x_less = pow(a, (m - 1) as nat);
    assert(x == a * x_less) by {
        reveal(pow);
    }
    assert(binomial(n + 1, m) == c_up + c);
    if m == 1 {
        assert(x_less == 1) by {
            reveal(pow);
        }
        assert(binomial_sum(n + 1, a, 0) == 1 && binomial_sum(n, a, 0) == 1) by {
            reveal(pow);
        }
        assert((c_up + c) * x + 1 == c * x + 1 + a * 1) by (nonlinear_arith)
            requires
                c_up == 1,
                x == a * 1,
        ;
    } else {
        lemma_binomial_sum_step(n, a, (m - 1) as nat);
        let s1 = binomial_sum(n, a, (m - 1) as nat);
        let s2 = binomial_sum(n, a, (m - 2) as nat);
        assert(s1 == c_up * x_less + s2);
        assert((c_up + c) * x + (s1 + a * s2) == (c * x + s1) + a * (c_up * x_less + s2))
            by (nonlinear_arith)
            requires
                x == a * x_less,
        ;
    }
}

/// The binomial theorem for `(a + 1)^n`.
pub proof fn lemma_binomial_theorem(a: int, n: nat)
    ensures
        pow(a + 1, n) == binomial_sum(n, a, n),
    decreases n,
{
    if n == 0 {
        reveal(pow);
    } else {
        let less = (n - 1) as nat;
        lemma_binomial_theorem(a, less);
        let s = binomial_sum(less, a, less);
        assert(pow(a + 1, n) == (a + 1) * s) by {
            reveal(pow);
        }
        lemma_binomial_sum_step(less, a, n);
        lemma_binomial_beyond(less, n);
        assert(binomial_sum(less, a, n) == 0 * pow(a, n) + s);
        assert((a + 1) * s == 0 * pow(a, n) + s + a * s) by (nonlinear_arith);
    }
}

/// Modulo a prime, the expansion of `(a + 1)^p` without its last term is 1.
pub proof fn lemma_binomial_sum_modulo_prime(p: nat, a: int, m: nat)
    requires
        is_prime_number(p as int),
        m < p,
    ensures
        binomial_sum(p, a, m) % (p as int) == 1,
    decreases m,
{
    if m == 0 {
        reveal(pow);
        lemma_small_mod(1, p);
    } else {
        lemma_binomial_sum_modulo_prime(p, a, (m - 1) as nat);
        lemma_prime_divides_binomial(p, m);
        let c = binomial(p, m) as int;
        let t = c / (p as int);
        lemma_fundamental_div_mod(c, p as int);
        let s = binomial_sum(p, a, (m - 1) as nat);
        assert(c * pow(a, m) + s == p * (t * pow(a, m)) + s) by (nonlinear_arith)
            requires
                c == p * t,
        ;
        lemma_mod_multiples_vanish(t * pow(a, m), s, p as int);
        assert(p * (t * pow(a, m)) == (p as int) * (t * pow(a, m)));
    }
}

/// Modulo a prime `p`, the power `p` of a sum is the sum of the powers.
pub proof fn lemma_power_of_successor(p: nat, a: int)
    requires
        is_prime_number(p as int),
    ensures
        pow(a + 1, p) % (p as int) == (pow(a, p) + 1) % (p as int),
{
    let less = (p - 1) as nat;
    lemma_binomial_theorem(a, p);
    lemma_binomial_all(p);
    lemma_binomial_sum_modulo_prime(p, a, less);
    let s = binomial_sum(p, a, less);
    let x = pow(a, p);
    assert(binomial_sum(p, a, p) == 1 * x + s);
    assert(1 * x == x);
    lemma_add_mod_noop(x, s, p as int);
    lemma_add_mod_noop(x, 1, p as int);
    lemma_small_mod(1, p);
}

/// Fermat's little theorem: the power `p` of a number is the number, modulo a
/// prime `p`.
pub proof fn lemma_power_prime(p: nat, a: nat)
    requires
        is_prime_number(p as int),
    ensures
        pow(a as int, p) % (p as int) == a % p,
    decreases a,
{
    if a == 0 {
        lemma0_pow(p);
    } else {
        let less = (a - 1) as nat;
        lemma_power_prime(p, less);
        lemma_power_of_successor(p, less as int);
        lemma_add_mod_noop(pow(less as int, p), 1, p as int);
        lemma_add_mod_noop(less as int, 1, p as int);
    }
}

/// Fermat's little theorem: the power `p - 1` of a number that a prime `p` does
/// not divide is 1 modulo `p`.
pub proof fn lemma_fermat(p: nat, a: nat)
    requires
        is_prime_number(p as int),
        a % p != 0,
    ensures
        pow(a as int, (p - 1) as nat) % (p as int) == 1,
{
    let x = pow(a as int, (p - 1) as nat);
    let modulus = p as int;
    let base = a as int;
    assert(a > 0) by {
        lemma_small_mod(0, p);
    }
    lemma_power_prime(p, a);
    assert(pow(base, p) == base * x) by {
        reveal(pow);
    }
    lemma_pow_positive(base, (p - 1) as nat);
    // p divides a * x - a, which is a * (x - 1)
    lemma_sub_mod_noop(base * x, base, modulus);
    assert((base * x) % modulus - base % modulus == 0);
    lemma_small_mod(0, p);
    assert((base * x - base) % modulus == 0);
    assert(base * (x - 1) == base * x - base) by (nonlinear_arith);
    lemma_prime_divides_factor(modulus, base, x - 1);
    // so x leaves 1
    let t = (x - 1) / modulus;
    lemma_fundamental_div_mod(x - 1, modulus);
    assert(x == modulus * t + 1);
    lemma_mod_multiples_vanish(t, 1, modulus);
    lemma_small_mod(1, p);
}

/// Modulo a prime, 1 has the two square roots 1 and -1 and no other.
pub proof fn lemma_square_root_of_one(p: int, x: int)
    requires
        is_prime_number(p),
        0 <= x < p,
        (x * x) % p == 1,
    ensures
        x == 1 || x == p - 1,
{
    if x == 0 {
        assert(x * x == 0) by (nonlinear_arith)
            requires
                x == 0,
        ;
        lemma_small_mod(0, p as nat);
    } else {
        let t = (x * x) / p;
        lemma_fundamental_div_mod(x * x, p);
        assert((x + 1) * (x - 1) == p * t) by (nonlinear_arith)
            requires
                x * x == p * t + 1,
        ;
        lemma_multiple_leaves_nothing(p, t);
        lemma_prime_divides_factor(p, x + 1, x - 1);
        if (x - 1) % p == 0 {
            lemma_small_mod((x - 1) as nat, p as nat);
        } else {
            if x + 1 < p {
                lemma_small_mod((x + 1) as nat, p as nat);
            }
        }
    }
}

} // verus!
