//! The search for a random prime in a range, with or without a primitive
//! root.

use crate::entropy::random_in_range;
use crate::modexp::{mod_exp, mod_pow, Num};
use crate::number_theory::divisors::is_prime_number;
use crate::number_theory::roots::{
    is_primitive_root, lemma_primitive_root_shows_prime, lemma_primitive_root_test,
};
use crate::primes::density::{known_prime_bound, range_contains_known_prime};
use crate::primes::witness::{has_non_witness, is_prime};
use rand::rngs::StdRng;
use vstd::prelude::*;

verus! {

/// Why a search for a prime failed.
#[derive(Debug, Copy, Clone, PartialEq, Eq, Structural)]
pub enum PrimeError {
    /// The range is empty, or ends below 3.
    InvalidRange,
    /// Every attempt that the search allows itself came up without a prime.
    PrimeNotFound,
}

/// The primitive root that [`pick_random_with_root`] returns with every prime.
pub const ROOT: Num = 2;

/// How many draws a search in a range without a known prime allows itself for
/// each number of the range.
pub const ATTEMPTS_PER_CANDIDATE: Num = 10;

/// The number of draws that a search from `min` to `max` allows itself: ten
/// for each number of the range, and as many as a `Num` can count where that is
/// more, or where the search is for any prime and a theorem fills the range
/// with one. The theorems know nothing of the primes that come with a root, so
/// a search for one of those always counts its draws by the range. The lower
/// end counts from 3 for the theorems, since the search accepts nothing below.
pub open spec fn attempt_budget(min: Num, max: Num, rooted: bool) -> int {
    let floor = if min < 3 {
        3
    } else {
        min as int
    };
    let counted = ATTEMPTS_PER_CANDIDATE * (max - min + 1);
    if (!rooted && max >= known_prime_bound(floor)) || counted > Num::MAX {
        Num::MAX as int
    } else {
        counted
    }
}

/// The prime candidate that a draw stands for where a root is wanted: the
/// odd number `2n + 1` for `n = (draw - 1) / 2`, on condition that it is not
/// below `min` and that `n` leaves 5 when divided by 12. Among the primes
/// of that form, with `n` prime too, the search looks for one on which the
/// root 2 can be certified.
pub open spec fn rooted_candidate(draw: Num, min: Num) -> Option<Num> {
    let half = (draw - 1) / 2;
    if draw >= 1 && 2 * half + 1 >= min && half % 12 == 5 {
        Some((2 * half + 1) as Num)
    } else {
        None
    }
}

/// Whether `root` passes the test of a primitive root of a prime `prime` whose
/// predecessor is twice a prime: its power is not 1 at either of the two
/// exponents into which a prime factor divides `prime - 1`. At 2 it is not 1,
/// and at the half of `prime - 1` it is `prime - 1`, which shows that at
/// `prime - 1` it is 1.
pub open spec fn root_certified(prime: Num, root: Num) -> bool {
    &&& prime >= 3
    &&& prime % 2 == 1
    &&& mod_pow(root as int, 2, prime as int) != 1
    &&& mod_pow(root as int, ((prime - 1) / 2) as nat, prime as int) == prime - 1
}

/// What is known of a number that [`is_prime`] has passed, whatever was drawn:
/// it is odd and at least 3, and from 5 on some value from 2 to its
/// predecessor's predecessor is no witness against it.
pub open spec fn passed_for_prime(p: Num) -> bool {
    &&& p >= 3
    &&& p % 2 == 1
    &&& p >= 5 ==> has_non_witness(p)
}

/// What is known of a prime that a search has returned with the root
/// [`ROOT`]: the half of its predecessor leaves 5 when divided by 12 and has
/// passed [`is_prime`] too, and the root is certified for it.
pub open spec fn passed_with_root(p: Num) -> bool {
    &&& p % 24 == 11
    &&& passed_for_prime(((p - 1) / 2) as Num)
    &&& root_certified(p, ROOT)
}

/// Whether a search with a root is certain to accept the candidate `p`: the
/// half of its predecessor is a prime, and the root is certified for it, which
/// makes `p` a prime too. A search accepts another candidate only where chance
/// lets a half that is no prime pass for one.
pub open spec fn is_certain_with_root(p: Num) -> bool {
    &&& is_prime_number((p - 1) / 2)
    &&& root_certified(p, ROOT)
}

/// Where a root is certified for a number whose predecessor is twice a prime,
/// the number is a prime and the root is a primitive root of it.
pub proof fn lemma_certified_root_is_primitive(prime: Num, root: Num)
    requires
        root_certified(prime, root),
        is_prime_number((prime - 1) / 2),
    ensures
        is_prime_number(prime as int),
        is_primitive_root(root as int, prime as int),
{
    lemma_primitive_root_test(root as int, prime as int);
    lemma_primitive_root_shows_prime(root as int, prime as int);
}

/// Decides how long a search from `min` to `max` may go on.
pub fn attempts_for(min: Num, max: Num, rooted: bool) -> (budget: Num)
    requires
        min <= max,
        max >= 3,
    ensures
        budget == attempt_budget(min, max, rooted),
        budget > 0,
{
    let floor = if min < 3 {
        3
    } else {
        min
    };
    if !rooted && range_contains_known_prime(floor, max) {
        Num::MAX
    } else {
        // unknown whether or not the range contains a prime, so use a probabilistic approach
        let width = (max - min).saturating_add(1);
        match ATTEMPTS_PER_CANDIDATE.checked_mul(width) {
            Some(budget) => budget,
            None => Num::MAX,
        }
    }
}

/// Maps a draw to the candidate that it stands for in a search with a root.
pub fn candidate_with_root(draw: Num, min: Num) -> (candidate: Option<Num>)
    ensures
        candidate == rooted_candidate(draw, min),
        candidate matches Some(p) ==> min <= p <= draw && p % 24 == 11,
{
    if draw == 0 {
        return None;
    }
    let half = (draw - 1) / 2;
    let candidate = 2 * half + 1;
    if candidate >= min && half % 12 == 5 {
        Some(candidate)
    } else {
        None
    }
}

/// Tests `root` against the two prime factors of `prime - 1`, for a `prime`
/// whose predecessor is twice an odd prime.
pub fn is_root_certified(prime: Num, root: Num) -> (certified: bool)
    ensures
        certified == root_certified(prime, root),
{
    if prime < 3 || prime % 2 == 0 {
        return false;
    }
    mod_exp(root, 2, prime) != 1 && mod_exp(root, (prime - 1) / 2, prime) == prime - 1
}

/// What a search returns on one draw: the prime that the draw stands for, if
/// it passes every test, or nothing.
fn accept(draw: Num, min: Num, rooted: bool, rng: &mut StdRng) -> (accepted: Option<Num>)
    requires
        min <= draw,
    ensures
        !rooted && draw >= 3 && is_prime_number(draw as int) ==> accepted == Some(draw),
        rooted ==> (rooted_candidate(draw, min) matches Some(p) ==> (is_certain_with_root(p)
            ==> accepted == Some(p))),
        accepted matches Some(p) ==> {
            &&& p <= draw
            &&& min <= p
            &&& passed_for_prime(p)
            &&& !rooted ==> p == draw
            &&& rooted ==> rooted_candidate(draw, min) == Some(p) && passed_with_root(p)
        },
{
    if rooted {
        match candidate_with_root(draw, min) {
            Some(candidate) => {
                proof {
                    if is_certain_with_root(candidate) {
                        lemma_certified_root_is_primitive(candidate, ROOT);
                    }
                }
                if is_prime((candidate - 1) / 2, rng) && is_prime(candidate, rng)
                    && is_root_certified(candidate, ROOT) {
                    Some(candidate)
                } else {
                    None
                }
            },
            None => None,
        }
    } else if is_prime(draw, rng) {
        Some(draw)
    } else {
        None
    }
}

/// Draws candidates from `min` to `max` until one is accepted or the budget of
/// the range is spent. A range of one number is tested once, without a draw.
fn search(min: Num, max: Num, rooted: bool, rng: &mut StdRng) -> (found: Option<Num>)
    requires
        min <= max,
        max >= 3,
    ensures
        found matches Some(p) ==> {
            &&& min <= p <= max
            &&& passed_for_prime(p)
            &&& rooted ==> passed_with_root(p)
        },
        !rooted && min == max && is_prime_number(min as int) ==> found == Some(min),
        rooted && min == max && rooted_candidate(min, min) is Some && is_certain_with_root(min)
            ==> found == Some(min),
{
    if min == max {
        return accept(min, min, rooted, rng);
    }
    let mut attempts = attempts_for(min, max, rooted);
    while attempts > 0
        invariant
            min <= max,
        decreases attempts,
    {
        attempts = attempts - 1;
        let draw = random_in_range(rng, min, max);
        let accepted = accept(draw, min, rooted, rng);
        if accepted.is_some() {
            return accepted;
        }
    }
    None
}

/// Pick a random prime in the inclusive range `[min, max]` using `rng`.
///
/// Every candidate is a uniform draw from the range, put to [`is_prime`]. The
/// search ends with the first candidate that passes, or when
/// [`attempt_budget`] draws have failed. A range of one number is tested once.
pub fn pick_random_prime(min: Num, max: Num, rng: &mut StdRng) -> (result: Result<
    Num,
    PrimeError,
>)
    ensures
        result == Err::<Num, PrimeError>(PrimeError::InvalidRange) <==> min > max || max < 3,
        result matches Ok(p) ==> min <= p <= max && passed_for_prime(p),
        min == max && min >= 3 && is_prime_number(min as int) ==> result == Ok::<
            Num,
            PrimeError,
        >(min),
{
    if min > max || max < 3 {
        return Err(PrimeError::InvalidRange);
    }
    match search(min, max, false, rng) {
        Some(prime) => Ok(prime),
        None => Err(PrimeError::PrimeNotFound),
    }
}

/// Pick a random prime in the inclusive range `[min, max]` using `rng`, and a
/// primitive root of the prime.
///
/// The search is confined to primes `p` for which `(p - 1) / 2` is a prime
/// that leaves 5 when divided by 12. Each of them has the primitive root 2, and
/// the search confirms it on every prime it returns, by [`root_certified`].
/// It draws and gives up as [`pick_random_prime`] does, but always counts its
/// draws.
///
/// On success, returns a pair `(prime, primitive_root)`.
pub fn pick_random_with_root(min: Num, max: Num, rng: &mut StdRng) -> (result: Result<
    (Num, Num),
    PrimeError,
>)
    ensures
        result == Err::<(Num, Num), PrimeError>(PrimeError::InvalidRange) <==> min > max || max
            < 3,
        result matches Ok((p, g)) ==> {
            &&& min <= p <= max
            &&& g == ROOT
            &&& passed_for_prime(p)
            &&& passed_with_root(p)
        },
        min == max && rooted_candidate(min, min) is Some && is_certain_with_root(min) ==> result
            == Ok::<(Num, Num), PrimeError>((min, ROOT)),
{
    if min > max || max < 3 {
        return Err(PrimeError::InvalidRange);
    }
    match search(min, max, true, rng) {
        Some(prime) => Ok((prime, ROOT)),
        None => Err(PrimeError::PrimeNotFound),
    }
}

} // verus!
