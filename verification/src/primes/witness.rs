//! The Miller-Rabin test: witnesses for the compositeness of a number, and the
//! random trial that decides on primality.

use crate::entropy::random_in_range;
use crate::modexp::{lemma_square_and_multiply, mod_exp, mod_pow, Num};
use crate::number_theory::divisors::is_prime_number;
use crate::number_theory::fermat::{lemma_fermat, lemma_square_root_of_one};
use rand::rngs::StdRng;
use vstd::arithmetic::div_mod::lemma_small_mod;
use vstd::arithmetic::power2::{
    lemma2_to64, lemma2_to64_rest, lemma_pow2_strictly_increases, lemma_pow2_unfold, pow2,
};
use vstd::prelude::*;

verus! {

/// What is left of `n` once every factor 2 is divided out.
pub open spec fn odd_part(n: nat) -> nat
    decreases n,
{
    if n == 0 || n % 2 == 1 {
        n
    } else {
        odd_part(n / 2)
    }
}

/// How many times 2 divides `n`.
pub open spec fn twos_in(n: nat) -> nat
    decreases n,
{
    if n == 0 || n % 2 == 1 {
        0
    } else {
        1 + twos_in(n / 2)
    }
}

/// Whether `val` is a Miller-Rabin witness for the compositeness of `n`.
///
/// With `n - 1 == 2^k * q` and `q` odd, `val` is a witness when `val^q` is
/// not 1 modulo `n` and none of `val^q, val^(2q), ..., val^(2^(k-1) q)` is
/// `n - 1` modulo `n`. An `n` below 3 or an even `n` has no witness here.
pub open spec fn witnesses(n: Num, val: Num) -> bool {
    let q = odd_part((n - 1) as nat);
    let k = twos_in((n - 1) as nat);
    &&& n >= 3
    &&& n % 2 == 1
    &&& mod_pow(val as int, q, n as int) != 1
    &&& forall|i: nat| i < k ==> mod_pow(val as int, pow2(i) * q, n as int) != n - 1
}

/// Whether some value from 2 to `n - 2` is a witness for the compositeness of `n`.
pub open spec fn has_witness(n: Num) -> bool {
    exists|val: Num| 2 <= val <= n - 2 && #[trigger] witnesses(n, val)
}

/// Whether some value from 2 to `n - 2` is no witness for the compositeness of `n`.
pub open spec fn has_non_witness(n: Num) -> bool {
    exists|val: Num| 2 <= val <= n - 2 && !#[trigger] witnesses(n, val)
}

/// Every positive number is its odd part times a power of two.
pub proof fn lemma_odd_part_decomposition(n: nat)
    requires
        n > 0,
    ensures
        n == pow2(twos_in(n)) * odd_part(n),
        odd_part(n) % 2 == 1,
    decreases n,
{
    lemma2_to64();
    if n % 2 == 0 {
        let half = n / 2;
        lemma_odd_part_decomposition(half);
        lemma_pow2_unfold(twos_in(n));
        assert(twos_in(n) == 1 + twos_in(half));
        assert(pow2(twos_in(n)) * odd_part(n) == 2 * (pow2(twos_in(half)) * odd_part(half)))
            by (nonlinear_arith)
            requires
                pow2(twos_in(n)) == 2 * pow2(twos_in(half)),
                odd_part(n) == odd_part(half),
        ;
    } else {
        assert(pow2(0) * n == n);
    }
}

/// Where a power of `val` in the chain `val^q, val^(2q), val^(4q), ...` is 1
/// modulo a prime, the chain started with 1 or passed -1 before: each
/// member is the square of the one before, and 1 has no other square roots.
proof fn lemma_chain_to_one(n: Num, val: Num, q: nat, steps: nat)
    requires
        is_prime_number(n as int),
        mod_pow(val as int, pow2(steps) * q, n as int) == 1,
    ensures
        mod_pow(val as int, q, n as int) == 1 || exists|i: nat|
            i < steps && mod_pow(val as int, pow2(i) * q, n as int) == n - 1,
    decreases steps,
{
    lemma2_to64();
    if steps == 0 {
        assert(pow2(0) * q == q);
    } else {
        let less = (steps - 1) as nat;
        let before = mod_pow(val as int, pow2(less) * q, n as int);
        lemma_pow2_unfold(steps);
        assert(pow2(steps) * q == 2 * (pow2(less) * q)) by (nonlinear_arith)
            requires
                pow2(steps) == 2 * pow2(less),
        ;
        lemma_square_and_multiply(val as int, pow2(less) * q, n as int, before);
        lemma_square_root_of_one(n as int, before);
        if before == 1 {
            lemma_chain_to_one(n, val, q, less);
        }
    }
}

/// A prime has no witness: the Miller-Rabin test never speaks against a prime,
/// whatever value it is run with, so long as the prime does not divide the
/// value.
pub proof fn lemma_prime_has_no_witness(n: Num, val: Num)
    requires
        is_prime_number(n as int),
        val % n != 0,
    ensures
        !witnesses(n, val),
{
    if n >= 3 && n % 2 == 1 {
        let q = odd_part((n - 1) as nat);
        let k = twos_in((n - 1) as nat);
        lemma_odd_part_decomposition((n - 1) as nat);
        lemma_fermat(n as nat, val as nat);
        lemma_chain_to_one(n, val, q, k);
    }
}

/// What has a witness is no prime.
pub proof fn lemma_witnessed_is_composite(n: Num)
    requires
        has_witness(n),
    ensures
        !is_prime_number(n as int),
{
    let val = choose|val: Num| 2 <= val <= n - 2 && #[trigger] witnesses(n, val);
    if is_prime_number(n as int) {
        lemma_small_mod(val as nat, n as nat);
        lemma_prime_has_no_witness(n, val);
    }
}

/// A number that a power of two divides into a positive `q` is at least that
/// power of two, so the power's exponent stays below the number's bit width.
proof fn lemma_twos_bounded(q: nat, k: nat, total: nat)
    requires
        q > 0,
        pow2(k) * q == total,
        total < 0x1_0000_0000_0000_0000,
        q % 2 == 0,
    ensures
        k < 63,
{
    lemma2_to64();
    lemma2_to64_rest();
    if k >= 63 {
        if k > 63 {
            lemma_pow2_strictly_increases(63, k);
        }
        assert(pow2(k) * q >= pow2(63) * 2) by (nonlinear_arith)
            requires
                pow2(k) >= pow2(63),
                q >= 2,
        ;
    }
}

/// Returns true if `val` is a witness for the compositeness of `n`, otherwise
/// false. An `n` that is even or below 3 is outside the test and is answered
/// with false.
pub fn is_witness(n: Num, val: Num) -> (result: bool)
    ensures
        result == witnesses(n, val),
{
    if n < 3 || n % 2 == 0 {
        return false;
    }
    let mut k: u32 = 0;
    let mut q = n - 1;
    proof {
        lemma2_to64();
        assert(pow2(0) * q == q);
    }

    // break n-1 up into 2^k * q
    while q % 2 == 0
        invariant
            q > 0,
            k <= 64,
            pow2(k as nat) * q == n - 1,
            odd_part(q as nat) == odd_part((n - 1) as nat),
            k + twos_in(q as nat) == twos_in((n - 1) as nat),
        decreases q,
    {
        proof {
            lemma_pow2_unfold((k + 1) as nat);
            assert(pow2((k + 1) as nat) * (q / 2) == pow2(k as nat) * q) by (nonlinear_arith)
                requires
                    pow2((k + 1) as nat) == 2 * pow2(k as nat),
                    q % 2 == 0,
            ;
            lemma_twos_bounded(q as nat, k as nat, (n - 1) as nat);
        }
        q = q / 2;
        k = k + 1;
    }

    // check fermat's little theorem
    if mod_exp(val, q, n) == 1 {
        return false;
    }
    // check that no val^(2^i * q) is n - 1 (mod n)
    let mut i: u32 = 0;
    let mut exponent = q;
    proof {
        lemma2_to64();
        assert(pow2(0) * q == q);
    }
    while i < k
        invariant
            n >= 3,
            i <= k,
            q > 0,
            pow2(k as nat) * q == n - 1,
            exponent == pow2(i as nat) * q,
            q == odd_part((n - 1) as nat),
            k == twos_in((n - 1) as nat),
            forall|j: nat| j < i ==> mod_pow(val as int, pow2(j) * (q as nat), n as int) != n - 1,
        decreases k - i,
    {
        if mod_exp(val, exponent, n) == n - 1 {
            return false;
        }
        proof {
            lemma_pow2_unfold((i + 1) as nat);
            assert(pow2((i + 1) as nat) * q == 2 * exponent) by (nonlinear_arith)
                requires
                    pow2((i + 1) as nat) == 2 * pow2(i as nat),
                    exponent == pow2(i as nat) * q,
            ;
            lemma_pow2_strictly_increases(i as nat, k as nat);
            if i + 1 < k {
                lemma_pow2_strictly_increases((i + 1) as nat, k as nat);
            }
            assert(pow2((i + 1) as nat) * q <= pow2(k as nat) * q) by (nonlinear_arith)
                requires
                    pow2((i + 1) as nat) <= pow2(k as nat),
                    q > 0,
            ;
        }
        exponent = exponent * 2;
        i = i + 1;
    }
    true
}

/// The number of random candidates that [`is_prime`] tries as witnesses.
pub const WITNESS_COUNT: usize = 25;

/// Run [`is_witness`] on `n` with up to `witness_count` random candidates,
/// each drawn from 2 to `n - 2`, stopping at the first witness.
///
/// Returns true if a witness for the compositeness of `n` was found, otherwise
/// false. Nothing is drawn, and false is returned, where `n` is even or below
/// 5: such an `n` is outside the test or has no candidates.
pub fn check_random_witnesses(n: Num, witness_count: usize, rng: &mut StdRng) -> (found: bool)
    ensures
        found ==> n >= 5 && n % 2 == 1 && witness_count > 0 && has_witness(n),
        found ==> !is_prime_number(n as int),
        !found && n >= 5 && n % 2 == 1 && witness_count > 0 ==> has_non_witness(n),
{
    if n < 5 || n % 2 == 0 {
        return false;
    }
    let mut tried: usize = 0;
    while tried < witness_count
        invariant
            n >= 5,
            tried <= witness_count,
            tried > 0 ==> has_non_witness(n),
        decreases witness_count - tried,
    {
        let val = random_in_range(rng, 2, n - 2);
        if is_witness(n, val) {
            proof {
                lemma_witnessed_is_composite(n);
            }
            return true;
        }
        tried = tried + 1;
    }
    false
}

/// The Miller-Rabin decision on `n`: true where `n` is odd, at least 3, and
/// none of [`WITNESS_COUNT`] random candidates is a witness against it.
///
/// An even `n` and an `n` below 3 are answered with false. Every prime from 3
/// on is answered with true, whatever is drawn. Another odd number may be
/// answered with true too, where every candidate drawn happens to be no
/// witness.
pub fn is_prime(n: Num, rng: &mut StdRng) -> (result: bool)
    ensures
        result ==> n >= 3 && n % 2 == 1,
        result && n >= 5 ==> has_non_witness(n),
        !result && n >= 3 && n % 2 == 1 ==> has_witness(n),
        n >= 3 && is_prime_number(n as int) ==> result,
{
    proof {
        if n >= 3 && is_prime_number(n as int) {
            assert(n % 2 != 0);
        }
    }
    if n < 3 || n % 2 == 0 {
        return false;
    }
    !check_random_witnesses(n, WITNESS_COUNT, rng)
}

} // verus!
