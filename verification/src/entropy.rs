//! The random source of the library: the standard generator of the `rand`
//! crate, and the two draws that the library makes from it.
//!
//! Nothing here is proved. Each contract states what the `rand` crate
//! documents of the call, for whatever the generator hands out.

use rand::rngs::StdRng;
use rand::Rng;
use vstd::prelude::*;

verus! {

#[verifier::external_type_specification]
#[verifier::external_body]
pub struct ExStdRng(StdRng);

/// One draw of `Rng::gen_range` on the closed range from `low` to `high`.
///
/// `gen_range` panics on an empty range, which the precondition rules out. On a
/// range that is not empty it returns a value inside the range; which one is
/// left to the generator.
#[verifier::external_body]
pub(crate) fn random_in_range(rng: &mut StdRng, low: u64, high: u64) -> (value: u64)
    requires
        low <= high,
    ensures
        low <= value <= high,
{
    rng.gen_range(low..=high)
}

/// A fresh buffer of `count` bytes that `Rng::fill` has overwritten with random
/// data. The call keeps the buffer's length and promises nothing of the bytes.
#[verifier::external_body]
pub(crate) fn random_bytes(rng: &mut StdRng, count: usize) -> (bytes: Vec<u8>)
    ensures
        bytes@.len() == count,
{
    let mut bytes = vec![0u8; count];
    rng.fill(&mut bytes[..]);
    bytes
}

} // verus!
