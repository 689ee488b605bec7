//! The block cipher in electronic-codebook mode: a byte stream is cut into
//! blocks, the last block is padded, and every block is encrypted by itself.

use crate::bytes::{
    be_bytes, be_value, lemma_be_bytes_len, lemma_be_bytes_of_value, lemma_be_value_bound,
    lemma_be_value_of_bytes, lemma_byte_strings_values, read_be, u32_to_be_bytes, u64_to_be_bytes,
};
use crate::crypt::{
    decrypt_block, encrypt_block, encrypted, is_encryption_of, lemma_block_round_trip, opened,
    Block, DecodeError, Key, KeyPair, BLOCK_BYTES, NUM_BYTES,
};
use crate::entropy::random_bytes;
use crate::modexp::Num;
use rand::rngs::StdRng;
use vstd::prelude::*;

verus! {

/// The number of bytes of the cipher text of one block: two [`Num`] values.
pub const UNIT_BYTES: usize = 16;

/// The cipher pair at position `index` of a cipher text.
pub open spec fn unit_at(ciphertext: Seq<u8>, index: int) -> (Num, Num) {
    (
        be_value(ciphertext.subrange(16 * index, 16 * index + 8)) as Num,
        be_value(ciphertext.subrange(16 * index + 8, 16 * index + 16)) as Num,
    )
}

/// The block that the four bytes of `plaintext` at position `index` spell.
pub open spec fn block_at(plaintext: Seq<u8>, index: int) -> Block {
    be_value(plaintext.subrange(4 * index, 4 * index + 4)) as Block
}

/// Whether `block` is a last block for the bytes `tail` that the whole blocks
/// leave over: it starts with them, and its last byte counts the bytes that
/// are padding. What lies between is arbitrary.
pub open spec fn is_last_block(block: Block, tail: Seq<u8>) -> bool {
    let bytes = be_bytes(block as nat, 4);
    &&& tail.len() < 4
    &&& bytes[3] == 4 - tail.len()
    &&& bytes.subrange(0, tail.len() as int) == tail
}

/// Whether `ciphertext` is an encryption of `plaintext` under `key`: one
/// cipher pair for every whole block of the plain text, in order, and one more
/// for a last block that holds the rest and the padding.
pub open spec fn is_ecb_ciphertext(ciphertext: Seq<u8>, plaintext: Seq<u8>, key: Key) -> bool {
    let whole = plaintext.len() as int / 4;
    &&& ciphertext.len() == 16 * (whole + 1)
    &&& forall|i: int|
        0 <= i < whole ==> is_encryption_of(
            #[trigger] unit_at(ciphertext, i),
            block_at(plaintext, i),
            key,
        )
    &&& exists|last: Block|
        is_encryption_of(unit_at(ciphertext, whole), last, key) && #[trigger] is_last_block(
            last,
            plaintext.subrange(4 * whole, plaintext.len() as int),
        )
}

/// The plain text of the first `count` cipher pairs of `ciphertext` under
/// `key`, or the first error on the way. The pair that ends the cipher text
/// holds the padding, which is taken off.
pub open spec fn opened_units(ciphertext: Seq<u8>, key: Key, count: nat) -> Result<
    Seq<u8>,
    DecodeError,
>
    decreases count,
{
    if count == 0 {
        Ok(Seq::empty())
    } else {
        let pair = unit_at(ciphertext, count - 1);
        match opened_units(ciphertext, key, (count - 1) as nat) {
            Err(e) => Err(e),
            Ok(before) => match opened(pair.0, pair.1, key) {
                Err(e) => Err(e),
                Ok(block) => {
                    let bytes = be_bytes(block as nat, 4);
                    if 16 * count < ciphertext.len() {
                        Ok(before + bytes)
                    } else if bytes[3] > 4 {
                        Err(DecodeError::InvalidPadding)
                    } else {
                        Ok(before + bytes.subrange(0, 4 - bytes[3]))
                    }
                },
            },
        }
    }
}

/// The plain text of `ciphertext` under `key`, or the reason why there is none.
pub open spec fn ecb_opened(ciphertext: Seq<u8>, key: Key) -> Result<Seq<u8>, DecodeError> {
    if ciphertext.len() == 0 || ciphertext.len() % 16 != 0 {
        Err(DecodeError::TruncatedInput)
    } else {
        opened_units(ciphertext, key, ciphertext.len() / 16)
    }
}

/// Fill unused space in the buffer with random bytes, and place the number of
/// pad bytes at the end of the buffer. The bytes before the padding stay.
pub fn pad_block(buf: &mut [u8; BLOCK_BYTES], pad_bytes: u8, rng: &mut StdRng)
    requires
        1 <= pad_bytes <= BLOCK_BYTES,
    ensures
        final(buf)@[BLOCK_BYTES - 1] == pad_bytes,
        forall|i: int| 0 <= i < BLOCK_BYTES - pad_bytes ==> final(buf)@[i] == old(buf)@[i],
{
    let pad_start = BLOCK_BYTES - pad_bytes as usize;
    let pad_end = BLOCK_BYTES - 1;
    let filling = random_bytes(rng, pad_end - pad_start);
    let mut at: usize = pad_start;
    while at < pad_end
        invariant
            pad_start <= at <= pad_end == BLOCK_BYTES - 1,
            filling@.len() == pad_end - pad_start,
            forall|i: int| 0 <= i < pad_start ==> buf@[i] == old(buf)@[i],
        decreases pad_end - at,
    {
        buf[at] = filling[at - pad_start];
        at = at + 1;
    }
    buf[pad_end] = pad_bytes;
}

/// Encrypts `block` under `key` and appends the cipher pair to `out`, each
/// value as eight bytes with the most significant first.
fn encrypt_block_to(out: &mut Vec<u8>, block: Block, key: &Key, rng: &mut StdRng)
    requires
        key.prime > Block::MAX,
        old(out)@.len() % 16 == 0,
    ensures
        final(out)@.len() == old(out)@.len() + 16,
        final(out)@.subrange(0, old(out)@.len() as int) == old(out)@,
        is_encryption_of(unit_at(final(out)@, old(out)@.len() as int / 16), block, *key),
{
    let ghost before = out@;
    let (c1, c2) = encrypt_block(block, key, rng);
    let first = u64_to_be_bytes(c1);
    let second = u64_to_be_bytes(c2);
    let mut at: usize = 0;
    while at < NUM_BYTES
        invariant
            at <= NUM_BYTES,
            out@ == before + first@.subrange(0, at as int),
        decreases NUM_BYTES - at,
    {
        out.push(first[at]);
        at = at + 1;
    }
    at = 0;
    while at < NUM_BYTES
        invariant
            at <= NUM_BYTES,
            out@ == before + first@ + second@.subrange(0, at as int),
        decreases NUM_BYTES - at,
    {
        out.push(second[at]);
        at = at + 1;
    }
    proof {
        let index = before.len() as int / 16;
        lemma_byte_strings_values();
        lemma_be_value_of_bytes(c1 as nat, 8);
        lemma_be_value_of_bytes(c2 as nat, 8);
        assert(out@.subrange(16 * index, 16 * index + 8) =~= first@);
        assert(out@.subrange(16 * index + 8, 16 * index + 16) =~= second@);
        assert(out@.subrange(0, before.len() as int) =~= before);
    }
}

/// Encrypt `plaintext` under the public key `key`, in electronic-codebook mode.
///
/// Every four bytes make a block. The bytes that are left over, if any, start
/// the last block, which is always there: the rest of it is padding, random
/// bytes and at the end their number, the final byte included. So a plain text
/// of a whole number of blocks gets one more block, of padding only. Each block
/// becomes a cipher pair, written as sixteen bytes.
pub fn encrypt_ecb(plaintext: &[u8], key: &Key, rng: &mut StdRng) -> (ciphertext: Vec<u8>)
    requires
        key.prime > Block::MAX,
    ensures
        is_ecb_ciphertext(ciphertext@, plaintext@, *key),
{
    let len = plaintext.len();
    let whole = len / BLOCK_BYTES;
    let mut ciphertext: Vec<u8> = Vec::new();
    let mut done: usize = 0;
    while done < whole
        invariant
            key.prime > Block::MAX,
            len == plaintext@.len(),
            done <= whole == len / 4,
            ciphertext@.len() == 16 * done,
            forall|i: int|
                0 <= i < done ==> is_encryption_of(
                    #[trigger] unit_at(ciphertext@, i),
                    block_at(plaintext@, i),
                    *key,
                ),
        decreases whole - done,
    {
        let ghost before = ciphertext@;
        proof {
            lemma_byte_strings_values();
        }
        let block = read_be(plaintext, BLOCK_BYTES * done, BLOCK_BYTES) as Block;
        encrypt_block_to(&mut ciphertext, block, key, rng);
        proof {
            assert(before.len() as int / 16 == done);
            assert(block == block_at(plaintext@, done as int));
            assert forall|i: int| 0 <= i < done + 1 implies is_encryption_of(
                #[trigger] unit_at(ciphertext@, i),
                block_at(plaintext@, i),
                *key,
            ) by {
                if i < done {
                    lemma_unit_of_prefix(ciphertext@, before, i);
                }
            }
        }
        done = done + 1;
    }
    // the last block: what is left of the plain text, and the padding
    let rest = len - BLOCK_BYTES * whole;
    let mut buf = [0u8;BLOCK_BYTES];
    let mut at: usize = 0;
    while at < rest
        invariant
            at <= rest < BLOCK_BYTES,
            len == plaintext@.len(),
            rest == len - BLOCK_BYTES * whole,
            forall|i: int| 0 <= i < at ==> buf@[i] == plaintext@[BLOCK_BYTES * whole + i],
        decreases rest - at,
    {
        buf[at] = plaintext[BLOCK_BYTES * whole + at];
        at = at + 1;
    }
    pad_block(&mut buf, (BLOCK_BYTES - rest) as u8, rng);
    proof {
        lemma_byte_strings_values();
    }
    let last = read_be(buf.as_slice(), 0, BLOCK_BYTES) as Block;
    let ghost before = ciphertext@;
    proof {
        assert(buf@.subrange(0, 4) =~= buf@);
        lemma_be_bytes_of_value(buf@);
        let tail = plaintext@.subrange(4 * whole, plaintext@.len() as int);
        assert(buf@.subrange(0, rest as int) =~= tail);
        assert(is_last_block(last, tail));
    }
    encrypt_block_to(&mut ciphertext, last, key, rng);
    proof {
        assert(before.len() as int / 16 == whole);
        assert forall|i: int| 0 <= i < whole implies is_encryption_of(
            #[trigger] unit_at(ciphertext@, i),
            block_at(plaintext@, i),
            *key,
        ) by {
            lemma_unit_of_prefix(ciphertext@, before, i);
        }
    }
    ciphertext
}

/// A cipher pair inside a prefix of a cipher text is the same pair in the
/// whole cipher text.
proof fn lemma_unit_of_prefix(whole: Seq<u8>, prefix: Seq<u8>, index: int)
    requires
        prefix.len() <= whole.len(),
        whole.subrange(0, prefix.len() as int) == prefix,
        0 <= index,
        16 * index + 16 <= prefix.len(),
    ensures
        unit_at(whole, index) == unit_at(prefix, index),
{
    assert(whole.subrange(16 * index, 16 * index + 8) =~= prefix.subrange(
        16 * index,
        16 * index + 8,
    ));
    assert(whole.subrange(16 * index + 8, 16 * index + 16) =~= prefix.subrange(
        16 * index + 8,
        16 * index + 16,
    ));
}

/// Decrypt `ciphertext` under the private key `key`, in electronic-codebook
/// mode.
///
/// The cipher text is a whole number of cipher pairs, and at least one. Every
/// pair opens to a block of four bytes. The last block's final byte counts the
/// bytes of padding at its end, which are dropped.
pub fn decrypt_ecb(ciphertext: &[u8], key: &Key) -> (result: Result<Vec<u8>, DecodeError>)
    ensures
        match result {
            Ok(plaintext) => ecb_opened(ciphertext@, *key) == Ok::<Seq<u8>, DecodeError>(
                plaintext@,
            ),
            Err(e) => ecb_opened(ciphertext@, *key) == Err::<Seq<u8>, DecodeError>(e),
        },
{
    let len = ciphertext.len();
    if len == 0 || len % UNIT_BYTES != 0 {
        return Err(DecodeError::TruncatedInput);
    }
    let count = len / UNIT_BYTES;
    let mut plaintext: Vec<u8> = Vec::new();
    let mut done: usize = 0;
    while done < count
        invariant
            done <= count,
            len == ciphertext@.len() == 16 * count,
            opened_units(ciphertext@, *key, done as nat) == Ok::<Seq<u8>, DecodeError>(
                plaintext@,
            ),
        decreases count - done,
    {
        let c1 = read_be(ciphertext, UNIT_BYTES * done, NUM_BYTES);
        let c2 = read_be(ciphertext, UNIT_BYTES * done + NUM_BYTES, NUM_BYTES);
        let block = match decrypt_block(c1, c2, key) {
            Ok(block) => block,
            Err(e) => {
                proof {
                    lemma_error_stays(ciphertext@, *key, (done + 1) as nat, count as nat);
                }
                return Err(e);
            },
        };
        let block_bytes = u32_to_be_bytes(block);
        // the last ciphertext block contains a pad count
        let kept = if done + 1 == count {
            let pad_bytes = block_bytes[BLOCK_BYTES - 1] as usize;
            if pad_bytes > BLOCK_BYTES {
                return Err(DecodeError::InvalidPadding);
            }
            BLOCK_BYTES - pad_bytes
        } else {
            BLOCK_BYTES
        };
        let ghost before = plaintext@;
        let mut at: usize = 0;
        while at < kept
            invariant
                at <= kept <= BLOCK_BYTES,
                plaintext@ == before + block_bytes@.subrange(0, at as int),
            decreases kept - at,
        {
            plaintext.push(block_bytes[at]);
            at = at + 1;
        }
        proof {
            assert(block_bytes@.subrange(0, 4) =~= block_bytes@);
        }
        done = done + 1;
    }
    Ok(plaintext)
}

/// An error among the first cipher pairs is the error of the whole cipher text.
proof fn lemma_error_stays(ciphertext: Seq<u8>, key: Key, count: nat, total: nat)
    requires
        opened_units(ciphertext, key, count) is Err,
        count <= total,
    ensures
        opened_units(ciphertext, key, total) == opened_units(ciphertext, key, count),
    decreases total - count,
{
    if count < total {
        lemma_error_stays(ciphertext, key, count, (total - 1) as nat);
    }
}

/// Under a matched pair of keys, the whole blocks of a cipher text that was
/// made with the public key open to the plain text they were made from.
proof fn lemma_whole_blocks_round_trip(
    keys: KeyPair,
    plaintext: Seq<u8>,
    ciphertext: Seq<u8>,
    count: nat,
)
    requires
        keys.is_matched(),
        is_ecb_ciphertext(ciphertext, plaintext, keys.public),
        count <= plaintext.len() / 4,
    ensures
        opened_units(ciphertext, keys.private, count) == Ok::<Seq<u8>, DecodeError>(
            plaintext.subrange(0, 4 * (count as int)),
        ),
    decreases count,
{
    if count == 0 {
        assert(plaintext.subrange(0, 0) =~= Seq::<u8>::empty());
    } else {
        let index = count - 1;
        lemma_whole_blocks_round_trip(keys, plaintext, ciphertext, index as nat);
        let pair = unit_at(ciphertext, index);
        let block = block_at(plaintext, index);
        let r = choose|r: Num|
            1 <= r <= keys.public.prime - 2 && pair == #[trigger] encrypted(block, keys.public, r);
        lemma_block_round_trip(keys, block, r);
        let bytes = plaintext.subrange(4 * index, 4 * index + 4);
        lemma_byte_strings_values();
        lemma_be_value_bound(bytes);
        lemma_be_bytes_of_value(bytes);
        let before = plaintext.subrange(0, 4 * index);
        assert(before + bytes =~= plaintext.subrange(0, 4 * (count as int)));
    }
}

/// Decryption undoes encryption of a whole byte stream: under a matched pair
/// of keys, every cipher text that the public key makes of a plain text,
/// whatever the padding and the exponents drawn, opens to that plain text
/// under the private key. This holds of the empty plain text and of one that
/// is a whole number of blocks as of any other.
pub proof fn lemma_ecb_round_trip(keys: KeyPair, plaintext: Seq<u8>, ciphertext: Seq<u8>)
    requires
        keys.is_matched(),
        is_ecb_ciphertext(ciphertext, plaintext, keys.public),
    ensures
        ecb_opened(ciphertext, keys.private) == Ok::<Seq<u8>, DecodeError>(plaintext),
{
    let whole = plaintext.len() as int / 4;
    let tail = plaintext.subrange(4 * whole, plaintext.len() as int);
    lemma_whole_blocks_round_trip(keys, plaintext, ciphertext, whole as nat);
    let pair = unit_at(ciphertext, whole);
    let last = choose|last: Block|
        is_encryption_of(pair, last, keys.public) && #[trigger] is_last_block(last, tail);
    let r = choose|r: Num|
        1 <= r <= keys.public.prime - 2 && pair == #[trigger] encrypted(last, keys.public, r);
    lemma_block_round_trip(keys, last, r);
    lemma_be_bytes_len(last as nat, 4);
    assert(plaintext.subrange(0, 4 * whole) + tail =~= plaintext);
}

} // verus!
