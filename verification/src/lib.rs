//! A small public-key cryptosystem: modular exponentiation, a Miller-Rabin
//! primality test, a search for primes with a known primitive root, and an
//! ElGamal-style block cipher driven in electronic-codebook mode.
//!
//! Every executable function carries a contract over mathematical integers and
//! sequences, and Verus proves every contract. The only code that is taken on
//! trust is the random source in [`entropy`].
//!
//! - [`modexp`]: `base^exponent mod modulus` on 64-bit numbers.
//! - [`number_theory`]: primes, Fermat's little theorem and primitive roots,
//!   as far as the contracts of the other modules need them.
//! - [`primes`]: the witness test, the ranges that are known to hold a prime,
//!   and the search for a random prime.
//! - [`crypt`]: keys and the encryption of single blocks, with the theorem that
//!   decryption undoes encryption.
//! - [`ecb`]: byte streams, cut into padded blocks, with the same theorem for
//!   whole streams.
//! - [`bytes`]: big-endian byte strings, the layout of stored keys and of
//!   cipher text.
//!
//! The library never panics and never ends the process. Inputs that a function
//! cannot work on are either ruled out by its precondition or answered with an
//! error value.

pub mod bytes;
pub mod crypt;
pub mod ecb;
pub mod entropy;
pub mod modexp;
pub mod number_theory;
pub mod primes;
