//! How far a range has to reach for a theorem to fill it with a prime.

use crate::modexp::Num;
use crate::number_theory::divisors::{
    is_prime_number, lemma_prime_by_trial, lemma_trial_window,
};
use vstd::arithmetic::logarithm::{lemma_log0, lemma_log_s, log};
use vstd::arithmetic::power2::{
    lemma2_to64, lemma_pow2_strictly_increases, lemma_pow2_unfold, pow2,
};
use vstd::prelude::*;

verus! {

/// From this minimum on Nagura's bound holds: a prime lies between `x` and
/// `6x / 5`.
pub const NAGURA_1952_MIN: Num = 25;

/// From this minimum on Dusart's bound of 1998 holds: a prime lies between `x`
/// and `x + x / (2 ln^2 x)`.
pub const DUSART_1998_MIN: Num = 3275;

/// From this minimum on Dusart's bound of 2016 holds: a prime lies between `x`
/// and `x + x / ln^3 x`.
pub const DUSART_2016_MIN: Num = 89693;

/// The quotient of `a` by `b`, rounded up.
pub open spec fn ceil_div(a: int, b: int) -> int {
    (a + b - 1) / b
}

/// The end of the shortest range from `min` that a theorem is known to fill
/// with a prime: a range from `min` holds a prime for certain once it reaches
/// this number.
///
/// Below 25 this is Bertrand's postulate, `2 min`. From 25 on it is Nagura's
/// `6 min / 5`, rounded up. From 3275 on it is Dusart's `min + min / (2 ln^2
/// min)` and from 89693 on Dusart's `min + min / ln^3 min`, in which the
/// logarithm is replaced by a number that is not above it, `k ln 2` for the
/// position `k` of the leading bit of `min`, with 12/25 for the square of `ln
/// 2` and 33/100 for its cube, and the quotient is rounded up. Every rounding
/// moves the end away from `min`, never towards it.
pub open spec fn known_prime_bound(min: int) -> int {
    let k = log(2, min);
    if min < NAGURA_1952_MIN {
        2 * min
    } else if min < DUSART_1998_MIN {
        ceil_div(6 * min, 5)
    } else if min < DUSART_2016_MIN {
        min + ceil_div(25 * min, 24 * k * k)
    } else {
        min + ceil_div(100 * min, 33 * k * k * k)
    }
}

/// Whether some prime lies from `min` to `max`.
pub open spec fn holds_prime(min: int, max: int) -> bool {
    exists|p: int| min <= p <= max && #[trigger] is_prime_number(p)
}

/// The first of a list of primes that is not below `min`. The list is dense
/// enough that each of its primes lies within the bound of every `min` that
/// it follows, up to 3275.
pub open spec fn listed_prime(min: int) -> int {
    if min <= 3 {
        3
    } else if min <= 5 {
        5
    } else if min <= 7 {
        7
    } else if min <= 11 {
        11
    } else if min <= 13 {
        13
    } else if min <= 17 {
        17
    } else if min <= 19 {
        19
    } else if min <= 23 {
        23
    } else if min <= 29 {
        29
    } else if min <= 31 {
        31
    } else if min <= 37 {
        37
    } else if min <= 43 {
        43
    } else if min <= 53 {
        53
    } else if min <= 61 {
        61
    } else if min <= 73 {
        73
    } else if min <= 89 {
        89
    } else if min <= 107 {
        107
    } else if min <= 127 {
        127
    } else if min <= 151 {
        151
    } else if min <= 181 {
        181
    } else if min <= 211 {
        211
    } else if min <= 251 {
        251
    } else if min <= 293 {
        293
    } else if min <= 353 {
        353
    } else if min <= 421 {
        421
    } else if min <= 503 {
        503
    } else if min <= 601 {
        601
    } else if min <= 719 {
        719
    } else if min <= 863 {
        863
    } else if min <= 1033 {
        1033
    } else if min <= 1237 {
        1237
    } else if min <= 1483 {
        1483
    } else if min <= 1777 {
        1777
    } else if min <= 2131 {
        2131
    } else if min <= 2557 {
        2557
    } else if min <= 3067 {
        3067
    } else {
        3677
    }
}

/// Every listed prime is a prime, by trial division.
proof fn lemma_listed_prime_is_prime(min: int)
    ensures
        is_prime_number(listed_prime(min)),
{
    assert(is_prime_number(3)) by {
        lemma_prime_by_trial(3);
    }
    assert(is_prime_number(5)) by {
        lemma_trial_window(5, 2);
        lemma_prime_by_trial(5);
    }
    assert(is_prime_number(7)) by {
        lemma_trial_window(7, 2);
        lemma_prime_by_trial(7);
    }
    assert(is_prime_number(11)) by {
        lemma_trial_window(11, 2);
        lemma_prime_by_trial(11);
    }
    assert(is_prime_number(13)) by {
        lemma_trial_window(13, 2);
        lemma_prime_by_trial(13);
    }
    assert(is_prime_number(17)) by {
        lemma_trial_window(17, 2);
        lemma_prime_by_trial(17);
    }
    assert(is_prime_number(19)) by {
        lemma_trial_window(19, 2);
        lemma_prime_by_trial(19);
    }
    assert(is_prime_number(23)) by {
        lemma_trial_window(23, 2);
        lemma_prime_by_trial(23);
    }
    assert(is_prime_number(29)) by {
        lemma_trial_window(29, 2);
        lemma_prime_by_trial(29);
    }
    assert(is_prime_number(31)) by {
        lemma_trial_window(31, 2);
        lemma_prime_by_trial(31);
    }
    assert(is_prime_number(37)) by {
        lemma_trial_window(37, 2);
        lemma_prime_by_trial(37);
    }
    assert(is_prime_number(43)) by {
        lemma_trial_window(43, 2);
        lemma_prime_by_trial(43);
    }
    assert(is_prime_number(53)) by {
        lemma_trial_window(53, 2);
        lemma_prime_by_trial(53);
    }
    assert(is_prime_number(61)) by {
        lemma_trial_window(61, 2);
        lemma_prime_by_trial(61);
    }
    assert(is_prime_number(73)) by {
        lemma_trial_window(73, 2);
        lemma_prime_by_trial(73);
    }
    assert(is_prime_number(89)) by {
        lemma_trial_window(89, 2);
        lemma_prime_by_trial(89);
    }
    assert(is_prime_number(107)) by {
        lemma_trial_window(107, 2);
        lemma_prime_by_trial(107);
    }
    assert(is_prime_number(127)) by {
        lemma_trial_window(127, 2);
        lemma_prime_by_trial(127);
    }
    assert(is_prime_number(151)) by {
        lemma_trial_window(151, 2);
        lemma_prime_by_trial(151);
    }
    assert(is_prime_number(181)) by {
        lemma_trial_window(181, 2);
        lemma_prime_by_trial(181);
    }
    assert(is_prime_number(211)) by {
        lemma_trial_window(211, 14);
        lemma_trial_window(211, 2);
        lemma_prime_by_trial(211);
    }
    assert(is_prime_number(251)) by {
        lemma_trial_window(251, 14);
        lemma_trial_window(251, 2);
        lemma_prime_by_trial(251);
    }
    assert(is_prime_number(293)) by {
        lemma_trial_window(293, 14);
        lemma_trial_window(293, 2);
        lemma_prime_by_trial(293);
    }
    assert(is_prime_number(353)) by {
        lemma_trial_window(353, 14);
        lemma_trial_window(353, 2);
        lemma_prime_by_trial(353);
    }
    assert(is_prime_number(421)) by {
        lemma_trial_window(421, 14);
        lemma_trial_window(421, 2);
        lemma_prime_by_trial(421);
    }
    assert(is_prime_number(503)) by {
        lemma_trial_window(503, 14);
        lemma_trial_window(503, 2);
        lemma_prime_by_trial(503);
    }
    assert(is_prime_number(601)) by {
        lemma_trial_window(601, 14);
        lemma_trial_window(601, 2);
        lemma_prime_by_trial(601);
    }
    assert(is_prime_number(719)) by {
        lemma_trial_window(719, 26);
        lemma_trial_window(719, 14);
        lemma_trial_window(719, 2);
        lemma_prime_by_trial(719);
    }
    assert(is_prime_number(863)) by {
        lemma_trial_window(863, 26);
        lemma_trial_window(863, 14);
        lemma_trial_window(863, 2);
        lemma_prime_by_trial(863);
    }
    assert(is_prime_number(1033)) by {
        lemma_trial_window(1033, 26);
        lemma_trial_window(1033, 14);
        lemma_trial_window(1033, 2);
        lemma_prime_by_trial(1033);
    }
    assert(is_prime_number(1237)) by {
        lemma_trial_window(1237, 26);
        lemma_trial_window(1237, 14);
        lemma_trial_window(1237, 2);
        lemma_prime_by_trial(1237);
    }
    assert(is_prime_number(1483)) by {
        lemma_trial_window(1483, 38);
        lemma_trial_window(1483, 26);
        lemma_trial_window(1483, 14);
        lemma_trial_window(1483, 2);
        lemma_prime_by_trial(1483);
    }
    assert(is_prime_number(1777)) by {
        lemma_trial_window(1777, 38);
        lemma_trial_window(1777, 26);
        lemma_trial_window(1777, 14);
        lemma_trial_window(1777, 2);
        lemma_prime_by_trial(1777);
    }
    assert(is_prime_number(2131)) by {
        lemma_trial_window(2131, 38);
        lemma_trial_window(2131, 26);
        lemma_trial_window(2131, 14);
        lemma_trial_window(2131, 2);
        lemma_prime_by_trial(2131);
    }
    assert(is_prime_number(2557)) by {
        lemma_trial_window(2557, 50);
        lemma_trial_window(2557, 38);
        lemma_trial_window(2557, 26);
        lemma_trial_window(2557, 14);
        lemma_trial_window(2557, 2);
        lemma_prime_by_trial(2557);
    }
    assert(is_prime_number(3067)) by {
        lemma_trial_window(3067, 50);
        lemma_trial_window(3067, 38);
        lemma_trial_window(3067, 26);
        lemma_trial_window(3067, 14);
        lemma_trial_window(3067, 2);
        lemma_prime_by_trial(3067);
    }
    assert(is_prime_number(3677)) by {
        lemma_trial_window(3677, 50);
        lemma_trial_window(3677, 38);
        lemma_trial_window(3677, 26);
        lemma_trial_window(3677, 14);
        lemma_trial_window(3677, 2);
        lemma_prime_by_trial(3677);
    }
}

/// Below 3275 the bound is sound: a range from `min` that reaches
/// [`known_prime_bound`] of `min` holds a prime. This is Bertrand's postulate
/// and Nagura's theorem, for the numbers on which the bound rests on them.
pub proof fn lemma_bound_below_3275_is_sound(min: int, max: int)
    requires
        3 <= min < DUSART_1998_MIN,
        max >= known_prime_bound(min),
    ensures
        holds_prime(min, max),
{
    lemma_listed_prime_is_prime(min);
    assert(min <= listed_prime(min) <= max);
}

/// A number lies below the power of two that follows its leading bit.
proof fn lemma_leading_bit_is_tight(n: int)
    requires
        n > 0,
    ensures
        log(2, n) >= 0,
        n < pow2((log(2, n) + 1) as nat),
    decreases n,
{
    lemma2_to64();
    if n < 2 {
        lemma_log0(2, n);
    } else {
        lemma_log_s(2, n);
        lemma_leading_bit_is_tight(n / 2);
        lemma_pow2_unfold((log(2, n) + 1) as nat);
    }
}

/// A power of two below `2^64` has an exponent below 64.
proof fn lemma_power_of_two_in_reach(k: nat)
    requires
        pow2(k) < 0x1_0000_0000_0000_0000,
    ensures
        k < 64,
{
    lemma2_to64();
    if k > 64 {
        lemma_pow2_strictly_increases(64, k);
    }
}

/// The position of the leading bit of `n`, which is the logarithm of `n` to
/// the base 2, rounded down.
fn leading_bit(n: Num) -> (k: u32)
    requires
        n > 0,
    ensures
        k == log(2, n as int),
        k < 64,
        pow2(k as nat) <= n < pow2((k + 1) as nat),
{
    let mut k: u32 = 0;
    let mut rest = n;
    proof {
        lemma2_to64();
        assert(pow2(0) * rest == rest);
    }
    while rest >= 2
        invariant
            rest > 0,
            k < 64,
            k + log(2, rest as int) == log(2, n as int),
            pow2(k as nat) * rest <= n,
        decreases rest,
    {
        proof {
            lemma_log_s(2, rest as int);
            lemma_pow2_unfold((k + 1) as nat);
            assert(pow2((k + 1) as nat) * (rest / 2) <= pow2(k as nat) * rest && pow2(
                (k + 1) as nat,
            ) <= pow2(k as nat) * rest) by (nonlinear_arith)
                requires
                    pow2((k + 1) as nat) == 2 * pow2(k as nat),
                    rest >= 2,
            ;
            lemma_power_of_two_in_reach((k + 1) as nat);
        }
        rest = rest / 2;
        k = k + 1;
    }
    proof {
        lemma_log0(2, rest as int);
        assert(pow2(k as nat) * 1 == pow2(k as nat));
        lemma_leading_bit_is_tight(n as int);
    }
    k
}

/// Check if the given range is known to contain a prime: whether `max`
/// reaches [`known_prime_bound`] of `min`.
///
/// Returns true if the range is known to contain a prime, or false if it is
/// unknown. A false result does not indicate the lack of primes in the range.
pub fn range_contains_known_prime(min: Num, max: Num) -> (known: bool)
    requires
        min >= 3,
        max >= min,
    ensures
        known == (max >= known_prime_bound(min as int)),
{
    let wide_min = min as u128;
    let wide_max = max as u128;
    if min < NAGURA_1952_MIN {
        // Bertrand's postulate
        return wide_max >= 2 * wide_min;
    }
    if min < DUSART_1998_MIN {
        return wide_max >= (6 * wide_min + 4) / 5;
    }
    let k = leading_bit(min) as u128;
    proof {
        lemma2_to64();
        if k < 11 {
            if k < 10 {
                lemma_pow2_strictly_increases((k + 1) as nat, 11);
            }
        }
        assert(11 * 11 <= k * k <= 63 * 63) by (nonlinear_arith)
            requires
                11 <= k <= 63,
        ;
        assert(11 * 11 * 11 <= k * k * k <= 63 * 63 * 63) by (nonlinear_arith)
            requires
                11 <= k <= 63,
        ;
        assert(24 * k * k == 24 * (k * k) && 33 * k * k * k == 33 * (k * k * k))
            by (nonlinear_arith);
    }
    let square = k * k;
    let (numerator, divisor) = if min < DUSART_2016_MIN {
        (25 * wide_min, 24 * square)
    } else {
        (100 * wide_min, 33 * (square * k))
    };
    let bound = wide_min + (numerator + divisor - 1) / divisor;
    wide_max >= bound
}

} // verus!
