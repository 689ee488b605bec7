//! Modular exponentiation on 64-bit unsigned integers.

use vstd::arithmetic::div_mod::{
    lemma_div_denominator, lemma_fundamental_div_mod, lemma_mul_mod_noop_general, lemma_small_mod,
};
use vstd::arithmetic::power::{
    lemma0_pow, lemma1_pow, lemma_pow0, lemma_pow1, lemma_pow_adds, lemma_pow_mod,
    lemma_pow_mod_noop, pow,
};
use vstd::arithmetic::power2::{lemma2_to64, lemma2_to64_rest, lemma_pow2_unfold, pow2};
use vstd::bits::{lemma_u64_shl_is_mul, lemma_u64_shr_is_div};
use vstd::prelude::*;

verus! {

/// The integer type of moduli, exponents and cipher values.
pub type Num = u64;

/// The wider type in which two `Num` values are multiplied before reduction.
pub type BigNum = u128;

/// The number of bits of a `Num`, which is also the number of rounds of the
/// square-and-multiply loop.
pub const NUM_BITS: u32 = 64;

/// `base` raised to `exponent`, reduced modulo `modulus`.
pub open spec fn mod_pow(base: int, exponent: nat, modulus: int) -> int {
    pow(base, exponent) % modulus
}

/// The result that the degenerate inputs of modular exponentiation have
/// without any multiplication, or `None` where the general algorithm is needed.
/// Earlier branches take precedence over later ones.
pub open spec fn shortcut(base: Num, exponent: Num, modulus: Num) -> Option<Num> {
    if exponent == 0 {
        Some(1u64 % modulus)
    } else if base == 0 || base == modulus || modulus == 1 {
        Some(0u64)
    } else if base == 1 || modulus == 2 {
        Some(base % modulus)
    } else {
        None
    }
}

/// The leading `bits` bits of `exponent`, read as a number.
pub open spec fn leading_bits(exponent: Num, bits: nat) -> nat
    recommends
        bits <= 64,
{
    exponent as nat / pow2((64 - bits) as nat)
}

/// Shortcuts for modular exponentiation: `x^0 == 1`, `0^x == n^x == 0 (mod n)`,
/// `x % 1 == 0`, `1^x == 1` and `x^n == x (mod 2)`.
pub fn get_optimization(base: Num, exponent: Num, modulus: Num) -> (result: Option<Num>)
    requires
        modulus > 0,
    ensures
        result == shortcut(base, exponent, modulus),
{
    if exponent == 0 {
        Some(1 % modulus)
    } else if base == 0 || base == modulus || modulus == 1 {
        Some(0)
    } else if base == 1 || modulus == 2 {
        Some(base % modulus)
    } else {
        None
    }
}

/// Every shortcut agrees with the power it stands for.
pub proof fn lemma_shortcut_is_power(base: Num, exponent: Num, modulus: Num)
    requires
        modulus > 0,
        shortcut(base, exponent, modulus) is Some,
    ensures
        shortcut(base, exponent, modulus) == Some(
            mod_pow(base as int, exponent as nat, modulus as int) as Num,
        ),
{
    let b = base as int;
    let e = exponent as nat;
    let m = modulus as int;
    if exponent == 0 {
        lemma_pow0(b);
    } else if base == 0 {
        lemma0_pow(e);
    } else if base == modulus {
        lemma_pow_mod(base as nat, e);
    } else if modulus == 1 {
    } else if base == 1 {
        lemma1_pow(e);
    } else {
        lemma_power_parity(b, e);
    }
}

/// Raising to a positive power keeps the parity.
pub proof fn lemma_power_parity(b: int, e: nat)
    requires
        e > 0,
    ensures
        pow(b, e) % 2 == b % 2,
{
    lemma_pow_mod_noop(b, e, 2);
    if b % 2 == 0 {
        lemma0_pow(e);
    } else {
        lemma1_pow(e);
    }
}

/// One round of square-and-multiply: squaring doubles the exponent, and a
/// further multiplication by the base adds one to it.
pub proof fn lemma_square_and_multiply(b: int, p: nat, m: int, r: int)
    requires
        m > 0,
        r == pow(b, p) % m,
    ensures
        (r * r) % m == pow(b, 2 * p) % m,
        (((r * r) % m) * b) % m == pow(b, 2 * p + 1) % m,
{
    let x = pow(b, p);
    lemma_mul_mod_noop_general(x, x, m);
    lemma_pow_adds(b, p, p);
    assert(p + p == 2 * p);
    lemma_mul_mod_noop_general(x * x, b, m);
    lemma_pow_adds(b, 2 * p, 1);
    lemma_pow1(b);
}

/// Reading one more bit of the exponent doubles the number read so far and
/// adds the bit, and the bit is the one that the mask `2^k` selects.
pub proof fn lemma_next_bit(exponent: Num, k: nat, mask: Num)
    requires
        k < 64,
        mask == pow2(k),
    ensures
        exponent as nat / pow2(k) == 2 * (exponent as nat / pow2(k + 1)) + (if exponent & mask
            != 0 {
            1nat
        } else {
            0nat
        }),
{
    let e = exponent as nat;
    let x = e / pow2(k);
    lemma_pow2_unfold(k + 1);
    lemma2_to64();
    lemma2_to64_rest();
    vstd::arithmetic::power2::lemma_pow2_pos(k);
    assert(pow2(k + 1) == pow2(k) * 2);
    lemma_div_denominator(e as int, pow2(k) as int, 2);
    lemma_fundamental_div_mod(x as int, 2);
    let s = k as u64;
    vstd::bits::lemma_u64_pow2_no_overflow(k);
    lemma_u64_shl_is_mul(1, s);
    lemma_u64_shr_is_div(exponent, s);
    assert(mask == 1u64 << s);
    assert((exponent & (1u64 << s) != 0) == ((exponent >> s) % 2 == 1)) by (bit_vector)
        requires
            s < 64,
    ;
}

/// What the power is on a zero exponent, on a zero base and on a base equal to
/// the modulus.
pub proof fn lemma_exponent_zero_or_multiple(base: Num, exponent: Num, modulus: Num)
    requires
        modulus > 0,
    ensures
        exponent == 0 ==> mod_pow(base as int, exponent as nat, modulus as int) == 1u64 % modulus,
        exponent > 0 && base == 0 ==> mod_pow(base as int, exponent as nat, modulus as int) == 0,
        exponent > 0 && base == modulus ==> mod_pow(base as int, exponent as nat, modulus as int)
            == 0,
{
    if exponent == 0 {
        lemma_pow0(base as int);
    } else if base == 0 {
        lemma0_pow(exponent as nat);
    } else if base == modulus {
        lemma_pow_mod(base as nat, exponent as nat);
    }
}

/// Calculate `base` raised to `exponent` modulo `modulus`.
///
/// The degenerate inputs are answered by [`get_optimization`]; every other
/// input runs through the exponent's 64 bits from the most significant one,
/// squaring at each bit and multiplying by the base where the bit is set.
pub fn mod_exp(base: Num, exponent: Num, modulus: Num) -> (result: Num)
    requires
        modulus > 0,
    ensures
        result == mod_pow(base as int, exponent as nat, modulus as int),
        result < modulus,
        exponent == 0 ==> result == 1u64 % modulus,
        exponent > 0 && base == 0 ==> result == 0,
        exponent > 0 && base == modulus ==> result == 0,
{
    let reduced = base % modulus;
    proof {
        lemma_pow_mod_noop(base as int, exponent as nat, modulus as int);
        lemma_exponent_zero_or_multiple(base, exponent, modulus);
    }
    if let Some(val) = get_optimization(reduced, exponent, modulus) {
        proof {
            lemma_shortcut_is_power(reduced, exponent, modulus);
        }
        return val;
    }
    let wide_modulus = modulus as BigNum;
    let mut result: BigNum = 1;
    let mut mask: Num = 1u64 << (NUM_BITS - 1);
    proof {
        lemma2_to64();
        lemma2_to64_rest();
        lemma_pow0(reduced as int);
        assert(1u64 << 63 == 0x8000_0000_0000_0000u64) by (bit_vector);
        lemma_small_mod(1, modulus as nat);
        assert(leading_bits(exponent, 0) == 0);
    }
    // iterate through each bit in the exponent, performing the square/multiply ops
    for round in 0..NUM_BITS
        invariant
            modulus > 2,
            wide_modulus == modulus,
            reduced < modulus,
            result < modulus,
            result == pow(reduced as int, leading_bits(exponent, round as nat)) % (modulus as int),
            round < 64 ==> mask == pow2((63 - round) as nat),
    {
        let ghost read = leading_bits(exponent, round as nat);
        proof {
            lemma_square_and_multiply(reduced as int, read, modulus as int, result as int);
            lemma_next_bit(exponent, (63 - round) as nat, mask);
            assert(result * result <= (modulus - 1) * (modulus - 1)) by (nonlinear_arith)
                requires
                    result < modulus,
            ;
            assert((modulus - 1) * reduced < 0x1_0000_0000_0000_0000 * 0x1_0000_0000_0000_0000)
                by (nonlinear_arith)
                requires
                    reduced < modulus,
                    modulus < 0x1_0000_0000_0000_0000,
            ;
            assert((modulus - 1) * (modulus - 1) < 0x1_0000_0000_0000_0000
                * 0x1_0000_0000_0000_0000) by (nonlinear_arith)
                requires
                    0 < modulus < 0x1_0000_0000_0000_0000,
            ;
        }
        result = (result * result) % wide_modulus;
        if exponent & mask != 0 {
            proof {
                assert(result * reduced <= (modulus - 1) * reduced) by (nonlinear_arith)
                    requires
                        result <= modulus - 1,
                ;
            }
            result = (result * (reduced as BigNum)) % wide_modulus;
        }
        proof {
            if round < 63 {
                lemma_pow2_unfold((63 - round) as nat);
            }
            assert(mask >> 1 == mask / 2) by (bit_vector);
        }
        mask = mask >> 1;
    }
    proof {
        lemma2_to64();
        assert(exponent as nat / pow2(0) == exponent as nat);
    }
    result as Num
}

} // verus!
