use dabqlite::crc32::crc32;

#[test]
fn known_vectors() {
    // Standard check value for the IEEE polynomial.
    assert_eq!(crc32(b"123456789"), 0xCBF4_3926);
    assert_eq!(crc32(b""), 0);
}

#[test]
fn detects_single_bit_flip() {
    let a = crc32(b"hello world");
    let b = crc32(b"hello worle");
    assert_ne!(a, b);
}

#[test]
fn changing_any_one_byte_changes_the_sum() {
    let base = *b"0123456789abcdef";
    let sum = crc32(&base);
    for at in 0..base.len() {
        for delta in 1..=255u8 {
            let mut other = base;
            other[at] ^= delta;
            assert_ne!(crc32(&other), sum);
        }
    }
}
