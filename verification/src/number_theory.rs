//! Primes in the mathematical sense, and the theorems on them that the
//! primality test, the search for primitive roots and the cipher rest on.

pub mod divisors;
pub mod fermat;
pub mod roots;
