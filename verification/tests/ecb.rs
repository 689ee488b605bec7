use pubcrypt::crypt::{encrypt_block_det, DecodeError, Key, KeyPair};
use pubcrypt::ecb::{decrypt_ecb, encrypt_ecb, pad_block};
use pubcrypt::modexp::Num;
use rand::{rngs::StdRng, Rng, SeedableRng};

const PRIME: Num = 4294967387;

fn fixed_keys() -> KeyPair {
    KeyPair {
        public: Key { prime: PRIME, root: 2, value: 3852191445 },
        private: Key { prime: PRIME, root: 2, value: 123456789 },
    }
}

fn units(blocks: &[u32], key: &Key) -> Vec<u8> {
    let mut bytes = Vec::new();
    for (i, block) in blocks.iter().enumerate() {
        let (c1, c2) = encrypt_block_det(*block, key, 1000 + i as Num);
        bytes.extend_from_slice(&c1.to_be_bytes());
        bytes.extend_from_slice(&c2.to_be_bytes());
    }
    bytes
}

#[test]
fn streams_of_every_length_round_trip() {
    let keys = fixed_keys();
    let mut rng = StdRng::seed_from_u64(21);
    for len in 0..=40 {
        let mut plaintext = vec![0u8; len];
        rng.fill(&mut plaintext[..]);
        let ciphertext = encrypt_ecb(&plaintext, &keys.public, &mut rng);
        assert_eq!(ciphertext.len(), 16 * (len / 4 + 1));
        assert_eq!(decrypt_ecb(&ciphertext, &keys.private), Ok(plaintext));
    }
}

#[test]
fn a_long_stream_round_trips_under_a_fresh_pair() {
    let mut rng = StdRng::seed_from_u64(22);
    let keys = KeyPair::generate(&mut rng).unwrap();
    for len in [4096, 4097, 4099] {
        let mut plaintext = vec![0u8; len];
        rng.fill(&mut plaintext[..]);
        let ciphertext = encrypt_ecb(&plaintext, &keys.public, &mut rng);
        assert_eq!(decrypt_ecb(&ciphertext, &keys.private), Ok(plaintext));
    }
}

#[test]
fn the_empty_stream_becomes_one_block_of_padding() {
    let keys = fixed_keys();
    let mut rng = StdRng::seed_from_u64(23);
    let ciphertext = encrypt_ecb(&[], &keys.public, &mut rng);
    assert_eq!(ciphertext.len(), 16);
    assert_eq!(decrypt_ecb(&ciphertext, &keys.private), Ok(vec![]));
}

#[test]
fn a_whole_number_of_blocks_gets_one_more_block() {
    let keys = fixed_keys();
    let mut rng = StdRng::seed_from_u64(24);
    let ciphertext = encrypt_ecb(b"abcdefgh", &keys.public, &mut rng);
    assert_eq!(ciphertext.len(), 48);
    assert_eq!(decrypt_ecb(&ciphertext, &keys.private), Ok(b"abcdefgh".to_vec()));
    // without the last block the second one is taken for the padded one
    assert_eq!(
        decrypt_ecb(&ciphertext[..32], &keys.private),
        Err(DecodeError::InvalidPadding)
    );
}

#[test]
fn cipher_text_is_read_as_big_endian_pairs() {
    let keys = fixed_keys();
    // "abcd", then "ef" with two bytes of padding
    let ciphertext = units(&[0x61626364, 0x65667702], &keys.public);
    assert_eq!(decrypt_ecb(&ciphertext, &keys.private), Ok(b"abcdef".to_vec()));
    // three bytes and the count
    let ciphertext = units(&[0x61626301], &keys.public);
    assert_eq!(decrypt_ecb(&ciphertext, &keys.private), Ok(b"abc".to_vec()));
    // padding only
    let ciphertext = units(&[0x61626364, 0x99999904], &keys.public);
    assert_eq!(decrypt_ecb(&ciphertext, &keys.private), Ok(b"abcd".to_vec()));
    // a count of zero keeps the whole block
    let ciphertext = units(&[0x61626300], &keys.public);
    assert_eq!(decrypt_ecb(&ciphertext, &keys.private), Ok(b"abc\0".to_vec()));
    // only the last block is padded
    let ciphertext = units(&[0x61626302, 0x61626302], &keys.public);
    assert_eq!(decrypt_ecb(&ciphertext, &keys.private), Ok(b"abc\x02ab".to_vec()));
}

#[test]
fn cipher_text_that_is_no_whole_number_of_pairs_is_refused() {
    let keys = fixed_keys();
    assert_eq!(decrypt_ecb(&[], &keys.private), Err(DecodeError::TruncatedInput));
    let ciphertext = units(&[0x61626364, 0x65667702], &keys.public);
    for len in [1, 8, 15, 17, 24, 31] {
        assert_eq!(
            decrypt_ecb(&ciphertext[..len], &keys.private),
            Err(DecodeError::TruncatedInput)
        );
    }
}

#[test]
fn padding_longer_than_a_block_is_refused() {
    let keys = fixed_keys();
    for last in [0x61626305, 0x616263ff] {
        let ciphertext = units(&[0x61626364, last], &keys.public);
        assert_eq!(decrypt_ecb(&ciphertext, &keys.private), Err(DecodeError::InvalidPadding));
    }
}

#[test]
fn pairs_that_open_to_no_block_are_refused() {
    let keys = fixed_keys();
    let mut ciphertext = units(&[0x61626364], &keys.public);
    // the pair (1, 2^32) opens to 2^32
    ciphertext.extend_from_slice(&1u64.to_be_bytes());
    ciphertext.extend_from_slice(&(1u64 << 32).to_be_bytes());
    assert_eq!(decrypt_ecb(&ciphertext, &keys.private), Err(DecodeError::BlockOutOfRange));
    // the first error in the stream is the one reported
    let mut ciphertext = units(&[0x61626364], &keys.public);
    ciphertext.extend_from_slice(&1u64.to_be_bytes());
    ciphertext.extend_from_slice(&(1u64 << 32).to_be_bytes());
    ciphertext.extend_from_slice(&units(&[0x616263ff], &keys.public));
    assert_eq!(decrypt_ecb(&ciphertext, &keys.private), Err(DecodeError::BlockOutOfRange));
}

#[test]
fn malformed_keys_open_nothing() {
    let keys = fixed_keys();
    let ciphertext = units(&[0x61626301], &keys.public);
    let key = Key { prime: PRIME, root: 2, value: PRIME };
    assert_eq!(decrypt_ecb(&ciphertext, &key), Err(DecodeError::MalformedKey));
    let key = Key { prime: 0, root: 0, value: 0 };
    assert_eq!(decrypt_ecb(&ciphertext, &key), Err(DecodeError::MalformedKey));
    assert_eq!(decrypt_ecb(&[], &key), Err(DecodeError::TruncatedInput));
}

#[test]
fn padding_keeps_the_data_and_counts_itself() {
    let mut rng = StdRng::seed_from_u64(25);
    for pad in 1..=4u8 {
        let mut buf = [0xa1, 0xa2, 0xa3, 0xa4];
        pad_block(&mut buf, pad, &mut rng);
        assert_eq!(buf[3], pad);
        for i in 0..4 - pad as usize {
            assert_eq!(buf[i], 0xa1 + i as u8);
        }
    }
}

#[test]
fn padding_is_filled_from_the_random_source() {
    let mut rng = StdRng::seed_from_u64(26);
    let mut seen = [false; 3];
    for _ in 0..64 {
        let mut buf = [0u8; 4];
        pad_block(&mut buf, 4, &mut rng);
        assert_eq!(buf[3], 4);
        for i in 0..3 {
            seen[i] = seen[i] || buf[i] != 0;
        }
    }
    assert_eq!(seen, [true; 3]);
}
