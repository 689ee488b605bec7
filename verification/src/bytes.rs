//! Big-endian byte strings of fixed width, the layout of stored keys and of
//! cipher text.

use vstd::prelude::*;

verus! {

/// The number that a byte string spells out, first byte most significant.
pub open spec fn be_value(bytes: Seq<u8>) -> nat
    decreases bytes.len(),
{
    if bytes.len() == 0 {
        0
    } else {
        be_value(bytes.drop_last()) * 256 + bytes.last() as nat
    }
}

/// The `width` bytes that spell out `value`, first byte most significant.
/// Where `value` needs more than `width` bytes, its low bytes are spelled.
pub open spec fn be_bytes(value: nat, width: nat) -> Seq<u8>
    decreases width,
{
    if width == 0 {
        Seq::empty()
    } else {
        be_bytes(value / 256, (width - 1) as nat).push((value % 256) as u8)
    }
}

/// 256 to the power `width`: the number of byte strings of that width.
pub open spec fn byte_strings(width: nat) -> nat
    decreases width,
{
    if width == 0 {
        1
    } else {
        256 * byte_strings((width - 1) as nat)
    }
}

/// The counts of byte strings of four and of eight bytes.
pub proof fn lemma_byte_strings_values()
    ensures
        byte_strings(4) == 0x1_0000_0000,
        byte_strings(8) == 0x1_0000_0000_0000_0000,
{
    reveal_with_fuel(byte_strings, 9);
}

/// Spelling a number yields as many bytes as asked for.
pub proof fn lemma_be_bytes_len(value: nat, width: nat)
    ensures
        be_bytes(value, width).len() == width,
    decreases width,
{
    if width > 0 {
        lemma_be_bytes_len(value / 256, (width - 1) as nat);
    }
}

/// A byte string spells a number below the count of strings of its width.
pub proof fn lemma_be_value_bound(bytes: Seq<u8>)
    ensures
        be_value(bytes) < byte_strings(bytes.len()),
    decreases bytes.len(),
{
    if bytes.len() > 0 {
        lemma_be_value_bound(bytes.drop_last());
    }
}

/// Reading back the bytes of a number that fits the width gives the number.
pub proof fn lemma_be_value_of_bytes(value: nat, width: nat)
    requires
        value < byte_strings(width),
    ensures
        be_value(be_bytes(value, width)) == value,
    decreases width,
{
    if width > 0 {
        let rest = be_bytes(value / 256, (width - 1) as nat);
        lemma_be_value_of_bytes(value / 256, (width - 1) as nat);
        assert(be_bytes(value, width).drop_last() =~= rest);
    }
}

/// Spelling the number that a byte string stands for gives the string back.
pub proof fn lemma_be_bytes_of_value(bytes: Seq<u8>)
    ensures
        be_bytes(be_value(bytes), bytes.len()) == bytes,
    decreases bytes.len(),
{
    if bytes.len() > 0 {
        lemma_be_bytes_of_value(bytes.drop_last());
        let value = be_value(bytes);
        assert(value / 256 == be_value(bytes.drop_last()));
        assert(value % 256 == bytes.last() as nat);
        assert(be_bytes(value, bytes.len()) =~= bytes);
    } else {
        assert(be_bytes(be_value(bytes), bytes.len()) =~= bytes);
    }
}

/// The eight bytes of `value`, most significant byte first.
pub fn u64_to_be_bytes(value: u64) -> (bytes: [u8; 8])
    ensures
        bytes@ == be_bytes(value as nat, 8),
{
    let b7 = (value % 256) as u8;
    let rest = value / 256;
    let b6 = (rest % 256) as u8;
    let rest = rest / 256;
    let b5 = (rest % 256) as u8;
    let rest = rest / 256;
    let b4 = (rest % 256) as u8;
    let rest = rest / 256;
    let b3 = (rest % 256) as u8;
    let rest = rest / 256;
    let b2 = (rest % 256) as u8;
    let rest = rest / 256;
    let b1 = (rest % 256) as u8;
    let rest = rest / 256;
    let b0 = (rest % 256) as u8;
    let bytes = [b0, b1, b2, b3, b4, b5, b6, b7];
    proof {
        reveal_with_fuel(be_bytes, 9);
        assert(bytes@ =~= be_bytes(value as nat, 8));
    }
    bytes
}

/// The four bytes of `value`, most significant byte first.
pub fn u32_to_be_bytes(value: u32) -> (bytes: [u8; 4])
    ensures
        bytes@ == be_bytes(value as nat, 4),
{
    let b3 = (value % 256) as u8;
    let rest = value / 256;
    let b2 = (rest % 256) as u8;
    let rest = rest / 256;
    let b1 = (rest % 256) as u8;
    let rest = rest / 256;
    let b0 = (rest % 256) as u8;
    let bytes = [b0, b1, b2, b3];
    proof {
        reveal_with_fuel(be_bytes, 5);
        assert(bytes@ =~= be_bytes(value as nat, 4));
    }
    bytes
}

/// The number that the `width` bytes of `bytes` from `start` on spell out, most
/// significant byte first.
pub fn read_be(bytes: &[u8], start: usize, width: usize) -> (value: u64)
    requires
        width <= 8,
        start + width <= bytes@.len(),
    ensures
        value == be_value(bytes@.subrange(start as int, start + width)),
        value < byte_strings(width as nat),
{
    let len = bytes.len();
    let mut value: u64 = 0;
    let mut read: usize = 0;
    while read < width
        invariant
            read <= width <= 8,
            start + width <= len == bytes@.len(),
            value == be_value(bytes@.subrange(start as int, start + read)),
            value < byte_strings(read as nat),
        decreases width - read,
    {
        proof {
            let next = bytes@.subrange(start as int, start + read + 1);
            assert(next.drop_last() =~= bytes@.subrange(start as int, start + read));
            reveal_with_fuel(byte_strings, 9);
        }
        value = value * 256 + bytes[start + read] as u64;
        read = read + 1;
    }
    value
}

} // verus!
