//! Primes: the Miller-Rabin test, the ranges that are known to hold a prime,
//! and the search for a random prime.

pub mod density;
pub mod search;
pub mod witness;

pub use self::density::range_contains_known_prime;
pub use self::search::{
    attempts_for, candidate_with_root, is_root_certified, pick_random_prime,
    pick_random_with_root, PrimeError, ROOT,
};
pub use self::witness::{check_random_witnesses, is_prime, is_witness};
