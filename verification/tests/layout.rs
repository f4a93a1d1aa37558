use dabqlite::crc32::crc32;
use dabqlite::layout::{
    decode_manifest, decode_row, decode_sb, decode_sb_any, encode_manifest, encode_row, encode_sb,
    Manifest, SbCopy, SbDecodeError, ROW_SIZE, SB_COPY_SIZE, SCHEMA_HASH, VALUE_LEN,
};

#[test]
fn row_roundtrip() {
    let mut slot = [0u8; ROW_SIZE];
    let value = *b"0123456789abcdef";
    encode_row(42, &value, &mut slot);
    assert_eq!(decode_row(&slot), Some((42, value)));
}

#[test]
fn row_rejects_corruption() {
    let mut slot = [0u8; ROW_SIZE];
    encode_row(42, &[7u8; VALUE_LEN], &mut slot);
    slot[3] ^= 0x01;
    assert_eq!(decode_row(&slot), None);
    // An all-zero slot must not decode.
    assert_eq!(decode_row(&[0u8; ROW_SIZE]), None);
}

#[test]
fn every_single_bit_flip_in_a_slot_is_detected() {
    let mut row = [0u8; ROW_SIZE];
    encode_row(42, &[7u8; VALUE_LEN], &mut row);
    for byte in 0..ROW_SIZE {
        for bit in 0..8 {
            let mut damaged = row;
            damaged[byte] ^= 1 << bit;
            assert_eq!(
                decode_row(&damaged),
                None,
                "row flip at byte {byte} bit {bit} undetected"
            );
        }
    }
    let mut sb = [0u8; SB_COPY_SIZE];
    encode_sb(7, 123, &mut sb);
    for byte in 0..SB_COPY_SIZE {
        for bit in 0..8 {
            let mut damaged = sb;
            damaged[byte] ^= 1 << bit;
            assert!(
                decode_sb(&damaged).is_err(),
                "superblock flip at byte {byte} bit {bit} undetected"
            );
        }
    }
}

#[test]
fn sb_roundtrip() {
    let mut slot = [0u8; SB_COPY_SIZE];
    encode_sb(7, 123, &mut slot);
    assert_eq!(decode_sb(&slot), Ok(SbCopy { generation: 7, row_count: 123 }));
}

#[test]
fn sb_rejects_torn_write() {
    let mut slot = [0u8; SB_COPY_SIZE];
    encode_sb(7, 123, &mut slot);
    // A torn write: only the first 20 bytes reached disk.
    let mut torn = [0u8; SB_COPY_SIZE];
    torn[..20].copy_from_slice(&slot[..20]);
    assert_eq!(decode_sb(&torn), Err(SbDecodeError::Invalid));
}

#[test]
fn sb_rejects_schema_mismatch() {
    let mut slot = [0u8; SB_COPY_SIZE];
    encode_sb(7, 123, &mut slot);
    // Rewrite the schema hash and fix up the checksum: structurally valid,
    // wrong schema.
    slot[24..32].copy_from_slice(&0xDEAD_BEEFu64.to_le_bytes());
    let crc = crc32(&slot[0..32]);
    slot[32..36].copy_from_slice(&crc.to_le_bytes());
    assert_eq!(
        decode_sb(&slot),
        Err(SbDecodeError::SchemaMismatch { file_schema: 0xDEAD_BEEF })
    );
    assert_eq!(
        decode_sb_any(&slot),
        Ok((Manifest { generation: 7, row_count: 123, capacity: 0 }, 0xDEAD_BEEF))
    );
}

#[test]
fn a_manifest_carries_its_capacity() {
    let mut slot = [0u8; SB_COPY_SIZE];
    encode_manifest(9, 4, 1000, &mut slot);
    let m = Manifest { generation: 9, row_count: 4, capacity: 1000 };
    assert_eq!(decode_manifest(&slot), Ok(m));
    assert_eq!(decode_sb_any(&slot), Ok((m, SCHEMA_HASH)));
    // To a reader that expects plain padding, the capacity is damage.
    assert_eq!(decode_sb(&slot), Err(SbDecodeError::Invalid));
    for byte in 0..SB_COPY_SIZE {
        let mut damaged = slot;
        damaged[byte] ^= 0x10;
        assert!(decode_manifest(&damaged).is_err(), "byte {byte}");
    }
}

#[test]
fn a_row_has_the_documented_bytes() {
    let mut slot = [0xAAu8; ROW_SIZE];
    encode_row(0x0102_0304_0506_0708, b"abcdefghijklmnop", &mut slot);
    assert_eq!(&slot[0..8], &[8, 7, 6, 5, 4, 3, 2, 1]);
    assert_eq!(&slot[8..24], b"abcdefghijklmnop");
    assert_eq!(&slot[24..28], &crc32(&slot[0..24]).to_le_bytes());
    assert_eq!(&slot[28..32], &[0, 0, 0, 0]);
}
