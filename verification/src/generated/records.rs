//! The `records` table: a `BIGINT` key and a 16-byte payload.

use crate::bytes::{get_u32, get_u64, put, put_zeros, take_array, u32_to_le, u64_to_le, zero_range};
use crate::crc32::crc32;
use crate::generated::{record_image, record_parsed};
use vstd::prelude::*;
use vstd::slice::slice_subrange;

verus! {

pub const RECORDS_TABLE: &'static str = "records";

pub const RECORDS_SCHEMA_HASH: u64 = 0x181F_56C6_632B_C4E3;

pub const RECORDS_ROW_SIZE: usize = 32;

pub const RECORDS_CRC_OFFSET: usize = 24;

pub const RECORDS_COL_ID_OFFSET: usize = 0;

pub const RECORDS_COL_VALUE_OFFSET: usize = 8;

#[derive(Debug, Clone, Copy, PartialEq, Eq)]
pub struct RecordsRow {
    pub id: u64,
    pub value: [u8; 16],
}

/// Encode a row into its slot.
pub fn encode_records_row(row: &RecordsRow, out: &mut [u8; RECORDS_ROW_SIZE])
    ensures
        final(out)@ == record_image(row.id, row.value@, 32),
{
    let id = u64_to_le(row.id);
    put(out, RECORDS_COL_ID_OFFSET, &id);
    put(out, RECORDS_COL_VALUE_OFFSET, &row.value);
    proof {
        crate::bytes::le64_round_trip(row.id);
        assert(out@.take(24) =~= crate::generated::record_body(row.id, row.value@));
    }
    let sum: u32 = crc32(slice_subrange(out, 0, RECORDS_CRC_OFFSET));
    let tail = u32_to_le(sum);
    proof {
        crate::bytes::le32_round_trip(sum);
    }
    put(out, RECORDS_CRC_OFFSET, &tail);
    put_zeros(out, RECORDS_CRC_OFFSET + 4, RECORDS_ROW_SIZE);
    assert(out@ =~= record_image(row.id, row.value@, 32));
}

/// Decode and verify a slot. `None` if it is short, fails its checksum, or
/// has damaged padding.
pub fn decode_records_row(bytes: &[u8]) -> (row: Option<RecordsRow>)
    ensures
        match row {
            Some(r) => record_parsed(bytes@, 16, 32) == Some((r.id, r.value@)),
            None => record_parsed(bytes@, 16, 32) is None,
        },
{
    if bytes.len() < RECORDS_ROW_SIZE {
        return None;
    }
    let stored: u32 = get_u32(bytes, RECORDS_CRC_OFFSET);
    let sum: u32 = crc32(slice_subrange(bytes, 0, RECORDS_CRC_OFFSET));
    proof {
        crate::bytes::le32_round_trip(sum);
        crate::bytes::from_le32(bytes@.subrange(24, 28));
    }
    if sum != stored {
        return None;
    }
    if !zero_range(bytes, RECORDS_CRC_OFFSET + 4, RECORDS_ROW_SIZE) {
        return None;
    }
    let id: u64 = get_u64(bytes, RECORDS_COL_ID_OFFSET);
    let value: [u8; 16] = take_array(bytes, RECORDS_COL_VALUE_OFFSET);
    Some(RecordsRow { id, value })
}

} // verus!
