//! The hand-written row codec: an independent second implementation of the
//! schema-compiled one, held to the very same image of a row.

use super::{ROW_SIZE, VALUE_LEN};
use crate::bytes::{get_u32, get_u64, put, put_zeros, take_array, u32_to_le, u64_to_le, zero_range};
use crate::crc32::crc32;
use crate::generated::{record_body, record_image, record_parsed};
use vstd::prelude::*;
use vstd::slice::slice_subrange;

verus! {

pub fn encode_row(id: u64, value: &[u8; VALUE_LEN], out: &mut [u8; ROW_SIZE])
    ensures
        final(out)@ == record_image(id, value@, 32),
{
    put_zeros(out, 28, 32);
    put(out, 8, value);
    let key = u64_to_le(id);
    put(out, 0, &key);
    proof {
        crate::bytes::le64_round_trip(id);
        assert(out@.take(24) =~= record_body(id, value@));
    }
    let sum: u32 = crc32(slice_subrange(out, 0, 24));
    let tail = u32_to_le(sum);
    proof {
        crate::bytes::le32_round_trip(sum);
    }
    put(out, 24, &tail);
    assert(out@ =~= record_image(id, value@, 32));
}

pub fn decode_row(bytes: &[u8]) -> (row: Option<(u64, [u8; VALUE_LEN])>)
    ensures
        match row {
            Some((id, value)) => record_parsed(bytes@, 16, 32) == Some((id, value@)),
            None => record_parsed(bytes@, 16, 32) is None,
        },
{
    if bytes.len() < ROW_SIZE {
        return None;
    }
    if !zero_range(bytes, 28, 32) {
        return None;
    }
    let stored: u32 = get_u32(bytes, 24);
    let sum: u32 = crc32(slice_subrange(bytes, 0, 24));
    proof {
        crate::bytes::le32_round_trip(sum);
        crate::bytes::from_le32(bytes@.subrange(24, 28));
    }
    if sum != stored {
        return None;
    }
    let value: [u8; VALUE_LEN] = take_array(bytes, 8);
    Some((get_u64(bytes, 0), value))
}

} // verus!
