//! Keys, key pairs, and the encryption and decryption of single blocks.

use crate::bytes::{
    be_bytes, be_value, lemma_be_bytes_len, lemma_be_bytes_of_value, lemma_be_value_bound,
    lemma_be_value_of_bytes, lemma_byte_strings_values, read_be, u64_to_be_bytes,
};
use crate::entropy::random_in_range;
use crate::modexp::{mod_exp, mod_pow, BigNum, Num};
use crate::number_theory::roots::lemma_power_after_minus_one;
use crate::primes::search::{
    passed_for_prime, passed_with_root, pick_random_with_root, PrimeError, ROOT,
};
use rand::rngs::StdRng;
use vstd::arithmetic::div_mod::{lemma_mul_mod_noop_general, lemma_small_mod};
use vstd::arithmetic::power::{
    lemma1_pow, lemma_pow_adds, lemma_pow_mod_noop, lemma_pow_multiplies, pow,
};
use vstd::prelude::*;

verus! {

/// One unit of plain text.
pub type Block = u32;

/// The number of bytes of a [`Block`].
pub const BLOCK_BYTES: usize = 4;

/// The number of bytes of a [`Num`].
pub const NUM_BYTES: usize = 8;

/// The least prime modulus of a key: every block is a residue of a prime
/// from here on.
pub const PRIME_MIN: Num = 0x1_0000_0000;

/// The greatest prime modulus of a key.
pub const PRIME_MAX: Num = 0xffff_ffff_ffff_ffff;

/// One half of a key pair: a prime modulus, a primitive root of it, and
/// either the private exponent or the public value, which is the root raised
/// to that exponent.
#[derive(Debug, Clone, Copy, PartialEq, Eq, Structural)]
pub struct Key {
    pub prime: Num,
    pub root: Num,
    pub value: Num,
}

impl Key {
    /// The number of bytes of a stored key.
    pub const KEY_BYTES: usize = NUM_BYTES * 3;

    /// The bytes of a stored key: prime, root and value, each as eight bytes
    /// with the most significant first.
    pub open spec fn stored(self) -> Seq<u8> {
        be_bytes(self.prime as nat, 8) + be_bytes(self.root as nat, 8) + be_bytes(
            self.value as nat,
            8,
        )
    }

    /// The key that 24 stored bytes stand for.
    pub open spec fn loaded(bytes: Seq<u8>) -> Key {
        Key {
            prime: be_value(bytes.subrange(0, 8)) as Num,
            root: be_value(bytes.subrange(8, 16)) as Num,
            value: be_value(bytes.subrange(16, 24)) as Num,
        }
    }

    /// Convert key to bytes that can be saved to the disk.
    pub fn serialize(&self) -> (bytes: [u8; Self::KEY_BYTES])
        ensures
            bytes@ == self.stored(),
    {
        let p = u64_to_be_bytes(self.prime);
        let r = u64_to_be_bytes(self.root);
        let v = u64_to_be_bytes(self.value);
        let bytes = [
            p[0],
            p[1],
            p[2],
            p[3],
            p[4],
            p[5],
            p[6],
            p[7],
            r[0],
            r[1],
            r[2],
            r[3],
            r[4],
            r[5],
            r[6],
            r[7],
            v[0],
            v[1],
            v[2],
            v[3],
            v[4],
            v[5],
            v[6],
            v[7],
        ];
        proof {
            lemma_be_bytes_len(self.prime as nat, 8);
            lemma_be_bytes_len(self.root as nat, 8);
            lemma_be_bytes_len(self.value as nat, 8);
            assert(bytes@ =~= self.stored());
        }
        bytes
    }

    /// Read key from serialized bytes. Any 24 bytes are a key: nothing is
    /// checked of the three numbers.
    pub fn deserialize(bytes: &[u8; Self::KEY_BYTES]) -> (key: Key)
        ensures
            key == Key::loaded(bytes@),
    {
        let bytes = bytes.as_slice();
        Key {
            prime: read_be(bytes, 0, NUM_BYTES),
            root: read_be(bytes, NUM_BYTES, NUM_BYTES),
            value: read_be(bytes, NUM_BYTES * 2, NUM_BYTES),
        }
    }
}

/// Storing a key and loading it again gives the key back.
pub proof fn lemma_stored_key_loads(key: Key)
    ensures
        key.stored().len() == Key::KEY_BYTES,
        Key::loaded(key.stored()) == key,
{
    let p = be_bytes(key.prime as nat, 8);
    let r = be_bytes(key.root as nat, 8);
    let v = be_bytes(key.value as nat, 8);
    lemma_be_bytes_len(key.prime as nat, 8);
    lemma_be_bytes_len(key.root as nat, 8);
    lemma_be_bytes_len(key.value as nat, 8);
    lemma_byte_strings_values();
    lemma_be_value_of_bytes(key.prime as nat, 8);
    lemma_be_value_of_bytes(key.root as nat, 8);
    lemma_be_value_of_bytes(key.value as nat, 8);
    assert(key.stored().subrange(0, 8) =~= p);
    assert(key.stored().subrange(8, 16) =~= r);
    assert(key.stored().subrange(16, 24) =~= v);
}

/// Loading a key from 24 bytes and storing it again gives the bytes back.
pub proof fn lemma_loaded_key_stores(bytes: Seq<u8>)
    requires
        bytes.len() == Key::KEY_BYTES,
    ensures
        Key::loaded(bytes).stored() == bytes,
{
    let p = bytes.subrange(0, 8);
    let r = bytes.subrange(8, 16);
    let v = bytes.subrange(16, 24);
    lemma_byte_strings_values();
    lemma_be_value_bound(p);
    lemma_be_value_bound(r);
    lemma_be_value_bound(v);
    lemma_be_bytes_of_value(p);
    lemma_be_bytes_of_value(r);
    lemma_be_bytes_of_value(v);
    assert(p + r + v =~= bytes);
}

/// A public and a private key.
#[derive(Debug, Clone, Copy, PartialEq, Eq, Structural)]
pub struct KeyPair {
    pub public: Key,
    pub private: Key,
}

impl KeyPair {
    /// Whether the two keys belong together: they share a prime above every
    /// block and a root whose power to `prime - 1` is 1, the private exponent
    /// lies from 1 to `prime - 2`, and the public value is the root raised to
    /// the private exponent.
    pub open spec fn is_matched(self) -> bool {
        let prime = self.public.prime;
        let root = self.public.root;
        &&& self.private.prime == prime
        &&& self.private.root == root
        &&& prime > Block::MAX
        &&& mod_pow(root as int, (prime - 1) as nat, prime as int) == 1
        &&& 1 <= self.private.value <= prime - 2
        &&& self.public.value == mod_pow(root as int, self.private.value as nat, prime as int)
    }

    /// Generate a pair of keys, private and public, to use for encryption. The
    /// return value is wrapped in a structure instead of just using a tuple to
    /// avoid confusion about which is the public and which is the private key.
    ///
    /// The prime is searched from [`PRIME_MIN`] to [`PRIME_MAX`], and the search
    /// may fail as [`pick_random_with_root`] may. Every pair that is returned is
    /// matched.
    pub fn generate(rng: &mut StdRng) -> (result: Result<KeyPair, PrimeError>)
        ensures
            result matches Ok(pair) ==> {
                &&& pair.is_matched()
                &&& pair.public.root == ROOT
                &&& passed_for_prime(pair.public.prime)
                &&& passed_with_root(pair.public.prime)
            },
            result matches Err(e) ==> e == PrimeError::PrimeNotFound,
    {
        match pick_random_with_root(PRIME_MIN, PRIME_MAX, rng) {
            Ok((prime, root)) => {
                let priv_exp = random_in_range(rng, 1, prime - 2);
                let pub_exp = mod_exp(root, priv_exp, prime);
                proof {
                    let half = ((prime - 1) / 2) as nat;
                    lemma_power_after_minus_one(root as int, prime as int, half);
                }
                Ok(
                    KeyPair {
                        public: Key { prime, root, value: pub_exp },
                        private: Key { prime, root, value: priv_exp },
                    },
                )
            },
            Err(e) => Err(e),
        }
    }
}

/// What a block becomes under `key` with the exponent `r`: the root raised to
/// `r`, and the block times the key's value raised to `r`, both modulo the
/// prime.
pub open spec fn encrypted(block: Block, key: Key, r: Num) -> (Num, Num) {
    let shared = mod_pow(key.value as int, r as nat, key.prime as int);
    (
        mod_pow(key.root as int, r as nat, key.prime as int) as Num,
        ((block * shared) % (key.prime as int)) as Num,
    )
}

/// Whether `pair` is what `block` becomes under `key` with some exponent from
/// 1 to `prime - 2`.
pub open spec fn is_encryption_of(pair: (Num, Num), block: Block, key: Key) -> bool {
    exists|r: Num| 1 <= r <= key.prime - 2 && pair == #[trigger] encrypted(block, key, r)
}

/// The number that the cipher pair `(c1, c2)` opens to under `key`: `c1`
/// raised to `prime - value - 1`, which inverts the shared secret, times
/// `c2`, modulo the prime.
pub open spec fn decrypted(c1: Num, c2: Num, key: Key) -> int {
    (mod_pow(c1 as int, (key.prime - key.value - 1) as nat, key.prime as int) * (c2 % key.prime))
        % (key.prime as int)
}

/// Why cipher text could not be opened.
#[derive(Debug, Clone, Copy, PartialEq, Eq, Structural)]
pub enum DecodeError {
    /// The key's value is not below its prime.
    MalformedKey,
    /// A cipher pair opens to a number that is no block.
    BlockOutOfRange,
    /// The cipher text is empty, or is no whole number of cipher pairs.
    TruncatedInput,
    /// The last block claims more padding than a block has bytes.
    InvalidPadding,
}

/// The block that the cipher pair `(c1, c2)` opens to under `key`, or the
/// reason why it opens to none.
pub open spec fn opened(c1: Num, c2: Num, key: Key) -> Result<Block, DecodeError> {
    if key.value >= key.prime {
        Err(DecodeError::MalformedKey)
    } else if decrypted(c1, c2, key) > Block::MAX {
        Err(DecodeError::BlockOutOfRange)
    } else {
        Ok(decrypted(c1, c2, key) as Block)
    }
}

/// Encrypt `block` with the given key, using `r` for exponentiation.
///
/// This function is separate from the randomly encrypted block to allow
/// deterministic testing.
pub fn encrypt_block_det(block: Block, key: &Key, r: Num) -> (pair: (Num, Num))
    requires
        key.prime > Block::MAX,
        0 < r < key.prime,
    ensures
        pair == encrypted(block, *key, r),
        pair.0 < key.prime,
        pair.1 < key.prime,
{
    let er_mod_p = mod_exp(key.value, r, key.prime) as BigNum;
    let c1 = mod_exp(key.root, r, key.prime);
    proof {
        assert(block * er_mod_p <= 0xffff_ffff * 0xffff_ffff_ffff_ffff) by (nonlinear_arith)
            requires
                block <= 0xffff_ffff,
                er_mod_p <= 0xffff_ffff_ffff_ffff,
        ;
    }
    let c2 = ((block as BigNum * er_mod_p) % (key.prime as BigNum)) as Num;
    (c1, c2)
}

/// Encrypt `block` with the given public key and a random exponent generated
/// by `rng`, drawn from 1 to `prime - 2`.
pub fn encrypt_block(block: Block, key: &Key, rng: &mut StdRng) -> (pair: (Num, Num))
    requires
        key.prime > Block::MAX,
    ensures
        is_encryption_of(pair, block, *key),
{
    let r = random_in_range(rng, 1, key.prime - 2);
    encrypt_block_det(block, key, r)
}

/// Decrypt the ciphertext block represented by `c1` and `c2` with the given
/// private key.
///
/// A key whose value is not below its prime is refused, and so is a cipher
/// pair that opens to a number above every block: such a pair was not made
/// with the matching public key.
pub fn decrypt_block(c1: Num, c2: Num, key: &Key) -> (result: Result<Block, DecodeError>)
    ensures
        result == opened(c1, c2, *key),
{
    if key.value >= key.prime {
        return Err(DecodeError::MalformedKey);
    }
    let c1_term = mod_exp(c1, key.prime - key.value - 1, key.prime) as BigNum;
    let c2_term = (c2 % key.prime) as BigNum;
    proof {
        assert(c1_term * c2_term <= 0xffff_ffff_ffff_ffff * 0xffff_ffff_ffff_ffff)
            by (nonlinear_arith)
            requires
                c1_term <= 0xffff_ffff_ffff_ffff,
                c2_term <= 0xffff_ffff_ffff_ffff,
        ;
    }
    let result = (c1_term * c2_term) % (key.prime as BigNum);
    if result > Block::MAX as BigNum {
        return Err(DecodeError::BlockOutOfRange);
    }
    Ok(result as Block)
}

/// Decryption undoes encryption: under a matched pair of keys, whatever the
/// exponent `r`, the cipher pair that a block becomes under the public key
/// opens to that block under the private key.
pub proof fn lemma_block_round_trip(keys: KeyPair, block: Block, r: Num)
    requires
        keys.is_matched(),
    ensures
        opened(
            encrypted(block, keys.public, r).0,
            encrypted(block, keys.public, r).1,
            keys.private,
        ) == Ok::<Block, DecodeError>(block),
{
    let p = keys.public.prime as int;
    let g = keys.public.root as int;
    let x = keys.private.value as nat;
    let e = (p - 1 - x) as nat;
    let rn = r as nat;
    let m = block as int;
    let c1 = mod_pow(g, rn, p);
    let shared = mod_pow(keys.public.value as int, rn, p);
    let c2 = (m * shared) % p;
    // the shared secret is the root raised to x * r
    assert(shared == pow(g, x * rn) % p) by {
        lemma_pow_mod_noop(pow(g, x), rn, p);
        lemma_pow_multiplies(g, x, rn);
    }
    // the first cipher value raised to e is the root raised to r * e
    let inverse = mod_pow(c1, e, p);
    assert(inverse == pow(g, rn * e) % p) by {
        lemma_pow_mod_noop(pow(g, rn), e, p);
        lemma_pow_multiplies(g, rn, e);
    }
    // together the two powers are a power of the root raised to prime - 1
    let a = pow(g, rn * e);
    let b = pow(g, x * rn);
    assert((a * b) % p == 1) by {
        lemma_pow_adds(g, rn * e, x * rn);
        assert(rn * e + x * rn == (p - 1) as nat * rn) by (nonlinear_arith)
            requires
                e == p - 1 - x,
                p - 1 - x >= 0,
        ;
        lemma_pow_multiplies(g, (p - 1) as nat, rn);
        lemma_pow_mod_noop(pow(g, (p - 1) as nat), rn, p);
        lemma1_pow(rn);
        lemma_small_mod(1, p as nat);
    }
    assert((inverse * c2) % p == m) by {
        lemma_mul_mod_noop_general(a, m * shared, p);
        lemma_mul_mod_noop_general(m, b, p);
        lemma_mul_mod_noop_general(a, m * b, p);
        assert(a * (m * b) == m * (a * b)) by (nonlinear_arith);
        lemma_mul_mod_noop_general(m, a * b, p);
        lemma_small_mod(m as nat, p as nat);
    }
    lemma_small_mod(c2 as nat, p as nat);
}

} // verus!
