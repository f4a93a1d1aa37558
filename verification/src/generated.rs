//! Schema-compiled row codecs, one module per schema the binary can read.
//! `layout` derives its row codec and `SCHEMA_HASH` from [`records`];
//! [`records_v1`] is the legacy schema that `migration` reads; [`queries`] is
//! the declared operation space.

use crate::bytes::{from_le, le32, le64, zeros};
use crate::crc32::crc;
use vstd::prelude::*;

pub mod queries;
pub mod records;
pub mod records_v1;

verus! {

/// The checksummed part of a record: key, then payload.
pub open spec fn record_body(id: u64, value: Seq<u8>) -> Seq<u8> {
    le64(id) + value
}

/// A record's slot of `size` bytes: body, checksum of the body, zero padding.
pub open spec fn record_image(id: u64, value: Seq<u8>, size: nat) -> Seq<u8> {
    let body = record_body(id, value);
    body + le32(crc(body)) + zeros((size - body.len() - 4) as nat)
}

/// What a slot of `size` bytes with a `width`-byte payload holds, or nothing
/// if it is short, its checksum does not match or its padding is not zero.
pub open spec fn record_parsed(bytes: Seq<u8>, width: nat, size: nat) -> Option<(u64, Seq<u8>)> {
    let end = (8 + width) as int;
    if bytes.len() < size {
        None
    } else if bytes.subrange(end, end + 4) != le32(crc(bytes.take(end))) {
        None
    } else if bytes.subrange(end + 4, size as int) != zeros((size - end - 4) as nat) {
        None
    } else {
        Some((from_le(bytes.take(8)) as u64, bytes.subrange(8, end)))
    }
}

/// A slot parses to a record exactly when it is that record's image: what is
/// read back is what was written, and nothing else reads back as it.
pub proof fn record_parses_its_image(bytes: Seq<u8>, id: u64, value: Seq<u8>, size: nat)
    requires
        size >= 12 + value.len(),
        bytes.len() >= size,
    ensures
        record_image(id, value, size).len() == size,
        (record_parsed(bytes, value.len(), size) == Some((id, value))) == (bytes.take(size as int)
            == record_image(id, value, size)),
{
    let end = (8 + value.len()) as int;
    let body = record_body(id, value);
    crate::bytes::le64_round_trip(id);
    crate::bytes::le32_round_trip(crc(body));
    let image = record_image(id, value, size);
    if bytes.take(size as int) == image {
        assert(bytes.take(end) =~= image.take(end));
        assert(image.take(end) =~= body);
        assert(bytes.subrange(end, end + 4) =~= image.subrange(end, end + 4));
        assert(image.subrange(end, end + 4) =~= le32(crc(body)));
        assert(bytes.subrange(end + 4, size as int) =~= image.subrange(end + 4, size as int));
        assert(image.subrange(end + 4, size as int) =~= zeros((size - end - 4) as nat));
        assert(bytes.take(8) =~= image.take(8));
        assert(image.take(8) =~= le64(id));
        assert(bytes.subrange(8, end) =~= image.subrange(8, end));
        assert(image.subrange(8, end) =~= value);
    }
    if record_parsed(bytes, value.len(), size) == Some((id, value)) {
        crate::bytes::from_le64(bytes.take(8));
        assert(bytes.take(end) =~= body) by {
            assert(bytes.take(end) =~= bytes.take(8) + bytes.subrange(8, end));
        }
        assert(bytes.take(size as int) =~= bytes.take(end) + bytes.subrange(end, end + 4)
            + bytes.subrange(end + 4, size as int));
    }
}

/// A record's slot with any one byte changed no longer parses: every byte is
/// covered, by the checksum or by the padding check.
pub proof fn record_damage_is_detected(id: u64, value: Seq<u8>, size: nat, at: int, to: u8)
    requires
        size >= 12 + value.len(),
        0 <= at < size,
        to != record_image(id, value, size)[at],
    ensures
        record_parsed(record_image(id, value, size).update(at, to), value.len(), size) is None,
{
    let image = record_image(id, value, size);
    let bad = image.update(at, to);
    let end = (8 + value.len()) as int;
    let body = record_body(id, value);
    crate::bytes::le64_round_trip(id);
    crate::bytes::le32_round_trip(crc(body));
    assert(image.take(end) =~= body);
    assert(image.subrange(end, end + 4) =~= le32(crc(body)));
    if at < end {
        assert(bad.take(end) =~= body.update(at, to));
        crate::crc32::one_byte_change_changes_crc(body, body.update(at, to), at);
        assert(bad.subrange(end, end + 4) =~= le32(crc(body)));
        crate::bytes::le32_round_trip(crc(body.update(at, to)));
    } else if at < end + 4 {
        assert(bad.take(end) =~= body);
        assert(bad.subrange(end, end + 4)[at - end] != le32(crc(body))[at - end]);
    } else {
        assert(bad.subrange(end + 4, size as int)[at - end - 4] != 0);
        assert(zeros((size - end - 4) as nat)[at - end - 4] == 0);
    }
}

/// Where a record keeps what: the key in the first eight bytes, lowest first,
/// the payload behind it, then the checksum of both, and zeros up to the end.
pub proof fn where_a_record_keeps_its_fields(id: u64, value: Seq<u8>, size: nat)
    requires
        size >= 12 + value.len(),
    ensures
        ({
            let image = record_image(id, value, size);
            let end = (8 + value.len()) as int;
            &&& image.len() == size
            &&& forall|i: nat|
                i < 8 ==> image[i as int] as nat == (id as nat / #[trigger] crate::bytes::pow256(i))
                    % 256
            &&& forall|i: int| 0 <= i < value.len() ==> image[8 + i] == #[trigger] value[i]
            &&& forall|i: nat|
                i < 4 ==> image[end + i] as nat == (crc(image.take(end)) as nat
                    / #[trigger] crate::bytes::pow256(i)) % 256
            &&& forall|i: int| end + 4 <= i < size ==> #[trigger] image[i] == 0
        }),
{
    let image = record_image(id, value, size);
    let end = (8 + value.len()) as int;
    let body = record_body(id, value);
    crate::bytes::le64_round_trip(id);
    crate::bytes::le32_round_trip(crc(body));
    assert(image.take(end) =~= body);
    assert forall|i: nat| i < 8 implies image[i as int] as nat == (id as nat
        / #[trigger] crate::bytes::pow256(i)) % 256 by {
        crate::bytes::bytes_are_digits(id as nat, 8, i);
    }
    assert forall|i: nat| i < 4 implies image[end + i] as nat == (crc(image.take(end)) as nat
        / #[trigger] crate::bytes::pow256(i)) % 256 by {
        crate::bytes::bytes_are_digits(crc(body) as nat, 4, i);
    }
}

} // verus!
