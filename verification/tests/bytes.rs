use pubcrypt::bytes::{read_be, u32_to_be_bytes, u64_to_be_bytes};

#[test]
fn numbers_are_spelled_most_significant_byte_first() {
    assert_eq!(u64_to_be_bytes(0), [0; 8]);
    assert_eq!(u64_to_be_bytes(1), [0, 0, 0, 0, 0, 0, 0, 1]);
    assert_eq!(u64_to_be_bytes(0x0102030405060708), [1, 2, 3, 4, 5, 6, 7, 8]);
    assert_eq!(u64_to_be_bytes(u64::MAX), [255; 8]);
    assert_eq!(u32_to_be_bytes(0), [0; 4]);
    assert_eq!(u32_to_be_bytes(0xdeadbeef), [0xde, 0xad, 0xbe, 0xef]);
    assert_eq!(u32_to_be_bytes(u32::MAX), [255; 4]);
    for value in [0u64, 1, 255, 256, 0xdeadbeef, 1 << 63, u64::MAX] {
        assert_eq!(u64_to_be_bytes(value), value.to_be_bytes());
    }
}

#[test]
fn numbers_are_read_from_any_place_and_width() {
    let bytes = [1, 2, 3, 4, 5, 6, 7, 8, 9, 10];
    assert_eq!(read_be(&bytes, 0, 0), 0);
    assert_eq!(read_be(&bytes, 10, 0), 0);
    assert_eq!(read_be(&bytes, 0, 1), 1);
    assert_eq!(read_be(&bytes, 9, 1), 10);
    assert_eq!(read_be(&bytes, 0, 4), 0x01020304);
    assert_eq!(read_be(&bytes, 1, 8), 0x0203040506070809);
    assert_eq!(read_be(&bytes, 2, 8), 0x030405060708090a);
    assert_eq!(read_be(&[255; 8], 0, 8), u64::MAX);
}
