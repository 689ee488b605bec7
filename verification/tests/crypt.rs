use pubcrypt::crypt::{
    decrypt_block, encrypt_block, encrypt_block_det, Block, DecodeError, Key, KeyPair, PRIME_MIN,
};
use pubcrypt::modexp::{mod_exp, Num};
use rand::{rngs::StdRng, Rng, SeedableRng};

// a prime p above every block for which (p - 1) / 2 is prime too, with the root 2
const PRIME: Num = 4294967387;
const PRIVATE: Num = 123456789;
const PUBLIC: Num = 3852191445;

fn fixed_keys() -> KeyPair {
    KeyPair {
        public: Key { prime: PRIME, root: 2, value: PUBLIC },
        private: Key { prime: PRIME, root: 2, value: PRIVATE },
    }
}

#[test]
fn random_test_crypt_block() {
    const KEYS: usize = 10;
    const BLOCKS_PER_KEY: usize = 100_000;
    let mut rng = StdRng::from_entropy();

    for _ in 0..KEYS {
        let keys = KeyPair::generate(&mut rng).unwrap();

        for _ in 0..BLOCKS_PER_KEY {
            let block = rng.gen_range(0..=Block::MAX);
            let (c1, c2) = encrypt_block(block, &keys.public, &mut rng);
            let decrypted_block = decrypt_block(c1, c2, &keys.private).unwrap();

            assert_eq!(
                block, decrypted_block,
                "Encryption process failed. Plaintext = 0x{:x}. Ciphertext = (0x{:x}, 0x{:x}). Decrypted block = 0x{:x}.",
                block, c1, c2, decrypted_block
            );
        }
    }
}

#[test]
fn round_trip_of_a_thousand_blocks_under_a_fresh_pair() {
    let mut rng = StdRng::seed_from_u64(11);
    let keys = KeyPair::generate(&mut rng).unwrap();
    for _ in 0..1000 {
        let block = rng.gen_range(0..=Block::MAX);
        let (c1, c2) = encrypt_block(block, &keys.public, &mut rng);
        assert_eq!(decrypt_block(c1, c2, &keys.private), Ok(block));
    }
    for block in [0, 1, Block::MAX - 1, Block::MAX] {
        let (c1, c2) = encrypt_block(block, &keys.public, &mut rng);
        assert_eq!(decrypt_block(c1, c2, &keys.private), Ok(block));
    }
}

#[test]
fn generated_pairs_are_matched() {
    let mut rng = StdRng::seed_from_u64(12);
    for _ in 0..5 {
        let keys = KeyPair::generate(&mut rng).unwrap();
        let prime = keys.public.prime;
        assert!(prime >= PRIME_MIN);
        assert_eq!(prime % 24, 11);
        assert_eq!(keys.private.prime, prime);
        assert_eq!(keys.public.root, 2);
        assert_eq!(keys.private.root, 2);
        assert!(1 <= keys.private.value && keys.private.value <= prime - 2);
        assert_eq!(keys.public.value, mod_exp(2, keys.private.value, prime));
        assert_eq!(mod_exp(2, prime - 1, prime), 1);
        assert_eq!(mod_exp(2, (prime - 1) / 2, prime), prime - 1);
    }
}

#[test]
fn deterministic_encryption_matches_the_formula() {
    let keys = fixed_keys();
    assert_eq!(mod_exp(2, PRIVATE, PRIME), PUBLIC);
    assert_eq!(
        encrypt_block_det(0xDEADBEEF, &keys.public, 987654321),
        (2811385926, 1203484189)
    );
    assert_eq!(encrypt_block_det(0, &keys.public, 987654321), (2811385926, 0));
    assert_eq!(
        encrypt_block_det(Block::MAX, &keys.public, 987654321),
        (2811385926, 358856508)
    );
    assert_eq!(encrypt_block_det(0xDEADBEEF, &keys.public, 1), (2, 255193362));
    assert_eq!(encrypt_block_det(0xDEADBEEF, &keys.public, PRIME - 1), (1, 3735928559));
}

#[test]
fn deterministic_decryption_matches_the_formula() {
    let keys = fixed_keys();
    assert_eq!(decrypt_block(2811385926, 1203484189, &keys.private), Ok(0xDEADBEEF));
    assert_eq!(decrypt_block(2811385926, 0, &keys.private), Ok(0));
    assert_eq!(decrypt_block(2811385926, 358856508, &keys.private), Ok(Block::MAX));
    // the second value counts modulo the prime
    assert_eq!(decrypt_block(2811385926, 1203484189 + PRIME, &keys.private), Ok(0xDEADBEEF));
    // another private exponent opens the pair to another block
    let other = Key { prime: PRIME, root: 2, value: 5 };
    assert_eq!(decrypt_block(2811385926, 1203484189, &other), Ok(3295677022));
}

#[test]
fn equal_blocks_with_equal_exponents_give_equal_pairs() {
    let keys = fixed_keys();
    for r in [1, 2, 1000, PRIME - 2] {
        assert_eq!(
            encrypt_block_det(42, &keys.public, r),
            encrypt_block_det(42, &keys.public, r)
        );
        let (c1, c2) = encrypt_block_det(42, &keys.public, r);
        assert_eq!(decrypt_block(c1, c2, &keys.private), Ok(42));
    }
}

#[test]
fn random_encryption_draws_its_exponent() {
    let keys = fixed_keys();
    let mut rng = StdRng::seed_from_u64(13);
    let lowest = encrypt_block_det(42, &keys.public, 1);
    let mut differs = false;
    for _ in 0..20 {
        let pair = encrypt_block(42, &keys.public, &mut rng);
        assert!(pair.0 < PRIME && pair.1 < PRIME);
        assert_eq!(decrypt_block(pair.0, pair.1, &keys.private), Ok(42));
        differs = differs || pair != lowest;
    }
    assert!(differs);
}

#[test]
fn numbers_above_every_block_are_refused() {
    let keys = fixed_keys();
    assert_eq!(decrypt_block(1, 4294967295, &keys.private), Ok(Block::MAX));
    assert_eq!(
        decrypt_block(1, 4294967296, &keys.private),
        Err(DecodeError::BlockOutOfRange)
    );
    assert_eq!(decrypt_block(1, PRIME - 1, &keys.private), Err(DecodeError::BlockOutOfRange));
    assert_eq!(decrypt_block(1, PRIME, &keys.private), Ok(0));
}

#[test]
fn malformed_keys_are_refused() {
    let equal = Key { prime: PRIME, root: 2, value: PRIME };
    assert_eq!(decrypt_block(1, 1, &equal), Err(DecodeError::MalformedKey));
    let above = Key { prime: PRIME, root: 2, value: Num::MAX };
    assert_eq!(decrypt_block(1, 1, &above), Err(DecodeError::MalformedKey));
    let zero = Key { prime: 0, root: 0, value: 0 };
    assert_eq!(decrypt_block(1, 1, &zero), Err(DecodeError::MalformedKey));
    // the greatest value that passes
    let last = Key { prime: PRIME, root: 2, value: PRIME - 1 };
    assert_eq!(decrypt_block(7, 9, &last), Ok(9));
}

#[test]
fn keys_are_stored_as_three_big_endian_numbers() {
    let key = fixed_keys().public;
    let bytes = key.serialize();
    assert_eq!(bytes.len(), Key::KEY_BYTES);
    assert_eq!(
        bytes,
        [0, 0, 0, 1, 0, 0, 0, 91, 0, 0, 0, 0, 0, 0, 0, 2, 0, 0, 0, 0, 229, 155, 198, 213]
    );
    let key = Key { prime: 0x0102030405060708, root: 0x1112131415161718, value: Num::MAX };
    assert_eq!(
        key.serialize(),
        [
            1, 2, 3, 4, 5, 6, 7, 8, 0x11, 0x12, 0x13, 0x14, 0x15, 0x16, 0x17, 0x18, 255, 255, 255,
            255, 255, 255, 255, 255
        ]
    );
    assert_eq!(Key { prime: 0, root: 0, value: 0 }.serialize(), [0; Key::KEY_BYTES]);
}

#[test]
fn stored_keys_are_read_back() {
    let key = Key::deserialize(&[
        1, 2, 3, 4, 5, 6, 7, 8, 0x11, 0x12, 0x13, 0x14, 0x15, 0x16, 0x17, 0x18, 255, 255, 255, 255,
        255, 255, 255, 255,
    ]);
    assert_eq!(
        key,
        Key { prime: 0x0102030405060708, root: 0x1112131415161718, value: Num::MAX }
    );
    let mut rng = StdRng::seed_from_u64(14);
    for _ in 0..100 {
        let key = Key { prime: rng.gen(), root: rng.gen(), value: rng.gen() };
        assert_eq!(Key::deserialize(&key.serialize()), key);
        let mut bytes = [0u8; Key::KEY_BYTES];
        rng.fill(&mut bytes);
        assert_eq!(Key::deserialize(&bytes).serialize(), bytes);
    }
}
