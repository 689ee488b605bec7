//! Primitive roots: the test of one against the prime factors of the order,
//! and what the existence of one says of the modulus.

use crate::number_theory::divisors::{
    is_prime_number, lemma_multiple_leaves_nothing, lemma_prime_divides_factor,
};
use vstd::arithmetic::div_mod::{
    lemma_fundamental_div_mod, lemma_mod_multiples_vanish, lemma_mod_self_0, lemma_mod_twice,
    lemma_mul_mod_noop_general, lemma_small_mod,
};
use vstd::arithmetic::power::{
    lemma1_pow, lemma_pow_adds, lemma_pow_mod_noop, lemma_pow_multiplies, pow,
};
use vstd::prelude::*;
use vstd::set_lib::{lemma_int_range, lemma_len_subset, set_int_range};

verus! {

/// Whether `g` is a primitive root modulo `p`: its power is 1 at `p - 1` and
/// at no positive exponent below, so that its powers run through every
/// residue but 0.
pub open spec fn is_primitive_root(g: int, p: int) -> bool {
    &&& p >= 2
    &&& pow(g, (p - 1) as nat) % p == 1
    &&& forall|e: nat| 0 < e < p - 1 ==> #[trigger] pow(g, e) % p != 1
}

/// Where the power of `g` at some exponent is -1 modulo `p`, the power at
/// twice the exponent is 1.
pub proof fn lemma_power_after_minus_one(g: int, p: int, half: nat)
    requires
        p >= 2,
        pow(g, half) % p == p - 1,
    ensures
        pow(g, 2 * half) % p == 1,
{
    let x = pow(g, half);
    lemma_pow_adds(g, half, half);
    assert(half + half == 2 * half);
    lemma_mul_mod_noop_general(x, x, p);
    assert((p - 1) * (p - 1) == p * (p - 2) + 1) by (nonlinear_arith);
    lemma_mod_multiples_vanish(p - 2, 1, p);
    lemma_small_mod(1, p as nat);
}

/// Where two powers of `g` are 1 modulo `p`, so is the power at the rest that
/// one exponent leaves when divided by the other.
pub proof fn lemma_unit_exponent_rest(g: int, p: int, a: nat, b: nat)
    requires
        p >= 2,
        b > 0,
        pow(g, a) % p == 1,
        pow(g, b) % p == 1,
    ensures
        pow(g, a % b) % p == 1,
{
    let times = a / b;
    let rest = a % b;
    lemma_fundamental_div_mod(a as int, b as int);
    // g^a == (g^b)^times * g^rest
    lemma_pow_adds(g, b * times, rest);
    lemma_pow_multiplies(g, b, times);
    let whole = pow(pow(g, b), times);
    lemma_pow_mod_noop(pow(g, b), times, p);
    lemma1_pow(times);
    lemma_small_mod(1, p as nat);
    assert(whole % p == 1);
    lemma_mul_mod_noop_general(whole, pow(g, rest), p);
    assert(1 * (pow(g, rest) % p) == pow(g, rest) % p);
    lemma_mod_twice(pow(g, rest), p);
}

/// Where two powers of `g` are 1 modulo `p`, so is the power at a common
/// divisor of the two exponents.
pub proof fn lemma_unit_exponent_divisor(g: int, p: int, a: nat, b: nat) -> (d: nat)
    requires
        p >= 2,
        b > 0,
        pow(g, a) % p == 1,
        pow(g, b) % p == 1,
    ensures
        0 < d <= b,
        a % d == 0,
        b % d == 0,
        pow(g, d) % p == 1,
    decreases b,
{
    let rest = a % b;
    if rest == 0 {
        lemma_mod_self_0(b as int);
        b
    } else {
        lemma_unit_exponent_rest(g, p, a, b);
        let d = lemma_unit_exponent_divisor(g, p, b, rest);
        // d divides b and the rest, so it divides a
        let times = a / b;
        lemma_fundamental_div_mod(a as int, b as int);
        let in_b = b / d;
        let in_rest = rest / d;
        lemma_fundamental_div_mod(b as int, d as int);
        lemma_fundamental_div_mod(rest as int, d as int);
        assert(a == d * (in_b * times + in_rest)) by (nonlinear_arith)
            requires
                a == b * times + rest,
                b == d * in_b,
                rest == d * in_rest,
        ;
        lemma_multiple_leaves_nothing(d as int, (in_b * times + in_rest) as int);
        d
    }
}

/// The test of a primitive root, for a modulus `p` whose predecessor is twice
/// a prime: a number whose square is not 1 and whose power at half of `p - 1`
/// is -1 is a primitive root modulo `p`.
pub proof fn lemma_primitive_root_test(g: int, p: int)
    requires
        p >= 3,
        p % 2 == 1,
        is_prime_number((p - 1) / 2),
        pow(g, 2) % p != 1,
        pow(g, ((p - 1) / 2) as nat) % p == p - 1,
    ensures
        is_primitive_root(g, p),
{
    let q = ((p - 1) / 2) as nat;
    let order = (p - 1) as nat;
    lemma_power_after_minus_one(g, p, q);
    assert(2 * q == order);
    assert forall|e: nat| 0 < e < p - 1 implies #[trigger] pow(g, e) % p != 1 by {
        if pow(g, e) % p == 1 {
            let d = lemma_unit_exponent_divisor(g, p, order, e);
            let t = order / d;
            lemma_fundamental_div_mod(order as int, d as int);
            assert(d * t == 2 * q);
            assert(((d * t) as int) % (q as int) == 0) by {
                lemma_multiple_leaves_nothing(q as int, 2);
                assert(2 * q == (q as int) * 2);
            }
            lemma_prime_divides_factor(q as int, d as int, t as int);
            if d % q == 0 {
                // d is q itself, at which the power is -1
                let s = d / q;
                lemma_fundamental_div_mod(d as int, q as int);
                assert(s == 1) by (nonlinear_arith)
                    requires
                        d == q * s,
                        0 < d < 2 * q,
                        q > 0,
                ;
                assert(d == q) by (nonlinear_arith)
                    requires
                        d == q * s,
                        s == 1,
                ;
                assert(false);
            } else {
                // d divides 2, at which the power is not 1
                let s = t / q;
                lemma_fundamental_div_mod(t as int, q as int);
                assert(d * s == 2) by (nonlinear_arith)
                    requires
                        d * t == 2 * q,
                        t == q * s,
                        q > 0,
                ;
                assert(d == 1 || d == 2) by (nonlinear_arith)
                    requires
                        d * s == 2,
                        d > 0,
                ;
                if d == 1 {
                    let y = pow(g, 1);
                    lemma_pow_adds(g, 1, 1);
                    lemma_mul_mod_noop_general(y, y, p);
                    assert(1 * 1 == 1);
                }
                assert(false);
            }
        }
    }
}

/// The residues that the first `count` powers of `g` leave modulo `p`.
pub open spec fn power_residues(g: int, p: int, count: nat) -> Set<int> {
    Set::new(|v: int| exists|e: nat| e < count && #[trigger] pow(g, e) % p == v)
}

/// Every power of a primitive root has an inverse: the power that fills its
/// exponent up to `p - 1`.
proof fn lemma_power_has_inverse(g: int, p: int, e: nat)
    requires
        is_primitive_root(g, p),
        e <= p - 1,
    ensures
        ((pow(g, e) % p) * pow(g, (p - 1 - e) as nat)) % p == 1,
{
    let rest = (p - 1 - e) as nat;
    lemma_pow_adds(g, e, rest);
    lemma_mul_mod_noop_general(pow(g, e), pow(g, rest), p);
}

/// The powers of a primitive root at two exponents below `p - 1` differ.
proof fn lemma_powers_differ(g: int, p: int, i: nat, j: nat)
    requires
        is_primitive_root(g, p),
        i < j < p - 1,
    ensures
        pow(g, i) % p != pow(g, j) % p,
{
    if pow(g, i) % p == pow(g, j) % p {
        let k = (j - i) as nat;
        let c = pow(g, (p - 1 - i) as nat);
        let x = pow(g, i);
        let y = pow(g, k);
        // g^j is g^i * g^k, and g^i has the inverse c
        lemma_pow_adds(g, i, k);
        lemma_power_has_inverse(g, p, i);
        lemma_mul_mod_noop_general(x, c, p);
        assert((x * c) % p == 1);
        lemma_mul_mod_noop_general(x * y, c, p);
        assert(((x * y) * c) % p == 1);
        assert((x * y) * c == y * (x * c)) by (nonlinear_arith);
        lemma_mul_mod_noop_general(y, x * c, p);
        assert(y * 1 == y);
        lemma_mod_twice(y, p);
        assert(y % p == 1);
    }
}

/// The first `count` powers of a primitive root leave `count` residues.
proof fn lemma_power_residues_count(g: int, p: int, count: nat)
    requires
        is_primitive_root(g, p),
        count <= p - 1,
    ensures
        power_residues(g, p, count).finite(),
        power_residues(g, p, count).len() == count,
    decreases count,
{
    if count == 0 {
        assert(power_residues(g, p, 0) =~= Set::<int>::empty());
    } else {
        let less = (count - 1) as nat;
        let added = pow(g, less) % p;
        lemma_power_residues_count(g, p, less);
        assert forall|e: nat| e < less implies #[trigger] pow(g, e) % p != added by {
            lemma_powers_differ(g, p, e, less);
        }
        assert(!power_residues(g, p, less).contains(added));
        assert(power_residues(g, p, count) =~= power_residues(g, p, less).insert(added));
    }
}

/// No multiple of a divisor of `p`, other than 1, leaves 1 modulo `p`.
proof fn lemma_divisor_has_no_inverse(p: int, d: int, x: int)
    requires
        p >= 2,
        d >= 2,
        p % d == 0,
    ensures
        (d * x) % p != 1,
{
    if (d * x) % p == 1 {
        let t = (d * x) / p;
        let s = p / d;
        lemma_fundamental_div_mod(d * x, p);
        lemma_fundamental_div_mod(p, d);
        assert(d * (x - s * t) == 1) by (nonlinear_arith)
            requires
                d * x == p * t + 1,
                p == d * s,
        ;
        assert(false) by (nonlinear_arith)
            requires
                d * (x - s * t) == 1,
                d >= 2,
        ;
    }
}

/// A number from 3 on that has a primitive root is prime: the powers of the
/// root are `p - 1` residues, none of them 0 or a divisor of `p`.
pub proof fn lemma_primitive_root_shows_prime(g: int, p: int)
    requires
        p >= 3,
        is_primitive_root(g, p),
    ensures
        is_prime_number(p),
{
    if !is_prime_number(p) {
        let d = choose|d: int| 1 < d < p && #[trigger] (p % d) == 0;
        let powers = power_residues(g, p, (p - 1) as nat);
        let others = set_int_range(1, p).remove(d);
        lemma_power_residues_count(g, p, (p - 1) as nat);
        lemma_int_range(1, p);
        assert forall|v: int| powers.contains(v) implies others.contains(v) by {
            let e = choose|e: nat| e < p - 1 && #[trigger] pow(g, e) % p == v;
            let c = pow(g, (p - 1 - e) as nat);
            lemma_power_has_inverse(g, p, e);
            if v == 0 {
                assert(0 * c == 0);
                lemma_small_mod(0, p as nat);
            }
            lemma_divisor_has_no_inverse(p, d, c);
        }
        lemma_len_subset(powers, others);
    }
}

} // verus!
