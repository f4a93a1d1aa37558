//! On-disk layout: fixed-width rows and the superblock copy set.
//!
//! Layout is fixed at compile time: field offsets, record widths and the file
//! set are constants.
//!
//! ## Plain row slot (32 bytes)
//!
//! ```text
//! offset  size  field
//!      0     8  id        (u64 LE)
//!      8    16  value     (fixed-width payload)
//!     24     4  crc32     (over bytes 0..24)
//!     28     4  padding   (zero)
//! ```
//!
//! ## Superblock copy (64 bytes, `SB_COPIES` redundant slots in the zone)
//!
//! ```text
//! offset  size  field
//!      0     8  magic       "DABQSB01"
//!      8     8  generation  (u64 LE, monotonic; the atomicity point)
//!     16     8  row_count   (u64 LE, authoritative committed row count)
//!     24     8  schema_hash (u64 LE)
//!     32     4  crc32       (over bytes 0..32)
//!     36    28  padding     (zero)
//! ```
//!
//! A copy may also declare the capacity the database was created with. It
//! then fills part of the padding, under a checksum of its own:
//!
//! ```text
//!     36     8  capacity    (u64 LE, positive)
//!     44     4  crc32       (over bytes 36..44)
//!     48     1  declared    (one)
//!     49    15  padding     (zero)
//! ```

use crate::bytes::{
    from_le, get_u32, get_u64, le32, le64, matches_at, put, put_zeros, u32_to_le, u64_to_le,
    zero_range, zeros,
};
use crate::crc32::{crc, crc32};
use crate::generated::records;
use crate::generated::{record_image, record_parsed};
use vstd::prelude::*;
use vstd::slice::slice_subrange;

pub mod reference;

verus! {

/// Width of the single value field.
pub const VALUE_LEN: usize = 16;

/// Fixed width of one row slot, derived from the compiled schema.
pub const ROW_SIZE: usize = records::RECORDS_ROW_SIZE;

/// Fixed width of one superblock copy.
pub const SB_COPY_SIZE: usize = 64;

/// Number of redundant superblock copies. Commits rotate through the slots,
/// writing the stale pair; a torn write can only corrupt a slot being
/// written, so the previous generation always survives.
pub const SB_COPIES: usize = 4;

/// Total size of the superblock zone.
pub const SB_ZONE_SIZE: usize = SB_COPY_SIZE * SB_COPIES;

/// Magic bytes identifying a superblock copy: `DABQSB01`.
pub const SB_MAGIC: [u8; 8] = [0x44, 0x41, 0x42, 0x51, 0x53, 0x42, 0x30, 0x31];

/// Hash of the compiled schema.
pub const SCHEMA_HASH: u64 = records::RECORDS_SCHEMA_HASH;

/// Encode a row into its slot. Delegates to the schema-compiled codec; the
/// hand-written [`reference`] implementation is held to the same image.
pub fn encode_row(id: u64, value: &[u8; VALUE_LEN], out: &mut [u8; ROW_SIZE])
    ensures
        final(out)@ == record_image(id, value@, 32),
{
    let row = records::RecordsRow { id, value: *value };
    records::encode_records_row(&row, out);
}

/// Decode and verify a row slot. Returns `None` if the slot is too short,
/// fails its checksum, or has damaged padding.
pub fn decode_row(bytes: &[u8]) -> (row: Option<(u64, [u8; VALUE_LEN])>)
    ensures
        match row {
            Some((id, value)) => record_parsed(bytes@, 16, 32) == Some((id, value@)),
            None => record_parsed(bytes@, 16, 32) is None,
        },
{
    match records::decode_records_row(bytes) {
        Some(row) => Some((row.id, row.value)),
        None => None,
    }
}

/// A decoded, checksum-valid superblock copy.
#[derive(Debug, Clone, Copy, PartialEq, Eq)]
pub struct SbCopy {
    pub generation: u64,
    pub row_count: u64,
}

/// A decoded superblock copy together with the capacity it declares (0 when
/// it declares none).
#[derive(Debug, Clone, Copy, PartialEq, Eq)]
pub struct Manifest {
    pub generation: u64,
    pub row_count: u64,
    pub capacity: u64,
}

/// Why a superblock copy was rejected.
#[derive(Debug, Clone, Copy, PartialEq, Eq)]
pub enum SbDecodeError {
    /// Wrong magic, bad checksum, or short read: not a valid copy at all.
    /// Expected for stale/torn slots; recovery just skips it.
    Invalid,
    /// Structurally valid but written by a different schema. Must abort the
    /// open: field offsets cannot be trusted.
    SchemaMismatch { file_schema: u64 },
}

/// The checksummed head of a superblock copy.
pub open spec fn sb_head(generation: u64, row_count: u64, schema: u64) -> Seq<u8> {
    SB_MAGIC@ + le64(generation) + le64(row_count) + le64(schema)
}

/// What follows the head's checksum: nothing but padding, or the declared
/// capacity under its own checksum.
pub open spec fn sb_tail(capacity: u64) -> Seq<u8> {
    if capacity == 0 {
        zeros(28)
    } else {
        le64(capacity) + le32(crc(le64(capacity))) + seq![1u8] + zeros(15)
    }
}

/// A whole superblock copy.
pub open spec fn sb_image(generation: u64, row_count: u64, schema: u64, capacity: u64) -> Seq<u8> {
    let head = sb_head(generation, row_count, schema);
    head + le32(crc(head)) + sb_tail(capacity)
}

/// The capacity a copy's tail declares, if the tail is well formed.
pub open spec fn sb_tail_parsed(tail: Seq<u8>) -> Option<u64> {
    if tail == zeros(28) {
        Some(0)
    } else if tail.subrange(8, 12) == le32(crc(tail.take(8))) && tail[12] == 1 && tail.subrange(
        13,
        28,
    ) == zeros(15) && from_le(tail.take(8)) != 0 {
        Some(from_le(tail.take(8)) as u64)
    } else {
        None
    }
}

/// A structurally valid copy, whatever schema wrote it: manifest and schema
/// hash.
pub open spec fn sb_parsed(bytes: Seq<u8>) -> Option<(Manifest, u64)> {
    if bytes.len() < 64 || bytes.take(8) != SB_MAGIC@ || bytes.subrange(32, 36) != le32(
        crc(bytes.take(32)),
    ) {
        None
    } else {
        match sb_tail_parsed(bytes.subrange(36, 64)) {
            Some(capacity) => Some(
                (
                    Manifest {
                        generation: from_le(bytes.subrange(8, 16)) as u64,
                        row_count: from_le(bytes.subrange(16, 24)) as u64,
                        capacity,
                    },
                    from_le(bytes.subrange(24, 32)) as u64,
                ),
            ),
            None => None,
        }
    }
}

/// Encode a superblock copy that declares no capacity into a 64-byte slot.
pub fn encode_sb(generation: u64, row_count: u64, out: &mut [u8; SB_COPY_SIZE])
    requires
        generation > 0,
    ensures
        final(out)@ == sb_image(generation, row_count, SCHEMA_HASH, 0),
{
    put_head(generation, row_count, out);
    put_zeros(out, 36, SB_COPY_SIZE);
    assert(out@ =~= sb_image(generation, row_count, SCHEMA_HASH, 0));
}

/// Encode a superblock copy that declares `capacity`.
pub fn encode_manifest(
    generation: u64,
    row_count: u64,
    capacity: u64,
    out: &mut [u8; SB_COPY_SIZE],
)
    requires
        generation > 0,
        capacity > 0,
    ensures
        final(out)@ == sb_image(generation, row_count, SCHEMA_HASH, capacity),
{
    put_head(generation, row_count, out);
    let cap = u64_to_le(capacity);
    let sum: u32 = crc32(&cap);
    let tail = u32_to_le(sum);
    proof {
        crate::bytes::le64_round_trip(capacity);
        crate::bytes::le32_round_trip(sum);
    }
    put(out, 36, &cap);
    put(out, 44, &tail);
    put_zeros(out, 49, SB_COPY_SIZE);
    out[48] = 1;
    assert(out@ =~= sb_image(generation, row_count, SCHEMA_HASH, capacity));
}

fn put_head(generation: u64, row_count: u64, out: &mut [u8; SB_COPY_SIZE])
    ensures
        final(out)@.take(36) == ({
            let head = sb_head(generation, row_count, SCHEMA_HASH);
            head + le32(crc(head))
        }),
        sb_head(generation, row_count, SCHEMA_HASH).len() == 32,
{
    let g = u64_to_le(generation);
    let r = u64_to_le(row_count);
    let s = u64_to_le(SCHEMA_HASH);
    proof {
        crate::bytes::le64_round_trip(generation);
        crate::bytes::le64_round_trip(row_count);
        crate::bytes::le64_round_trip(SCHEMA_HASH);
    }
    put(out, 0, &SB_MAGIC);
    put(out, 8, &g);
    put(out, 16, &r);
    put(out, 24, &s);
    let ghost head = sb_head(generation, row_count, SCHEMA_HASH);
    assert(out@.take(32) =~= head);
    let sum: u32 = crc32(slice_subrange(out, 0, 32));
    let tail = u32_to_le(sum);
    proof {
        crate::bytes::le32_round_trip(sum);
    }
    put(out, 32, &tail);
    assert(out@.take(36) =~= head + le32(crc(head)));
}

/// Decode and verify a superblock copy of any schema.
pub fn decode_sb_any(bytes: &[u8]) -> (copy: Result<(Manifest, u64), SbDecodeError>)
    ensures
        match copy {
            Ok(c) => sb_parsed(bytes@) == Some(c),
            Err(e) => sb_parsed(bytes@) is None && e == SbDecodeError::Invalid,
        },
{
    if bytes.len() < SB_COPY_SIZE {
        return Err(SbDecodeError::Invalid);
    }
    if !matches_at(bytes, 0, &SB_MAGIC) {
        return Err(SbDecodeError::Invalid);
    }
    let stored: u32 = get_u32(bytes, 32);
    let sum: u32 = crc32(slice_subrange(bytes, 0, 32));
    proof {
        crate::bytes::le32_round_trip(sum);
        crate::bytes::from_le32(bytes@.subrange(32, 36));
    }
    if sum != stored {
        return Err(SbDecodeError::Invalid);
    }
    let ghost tail = bytes@.subrange(36, 64);
    let capacity: u64 = if zero_range(bytes, 36, SB_COPY_SIZE) {
        0
    } else {
        let declared: u64 = get_u64(bytes, 36);
        let cap_stored: u32 = get_u32(bytes, 44);
        let cap_sum: u32 = crc32(slice_subrange(bytes, 36, 44));
        let padded = bytes[48] == 1 && zero_range(bytes, 49, SB_COPY_SIZE);
        proof {
            crate::bytes::le32_round_trip(cap_sum);
            crate::bytes::from_le32(bytes@.subrange(44, 48));
            assert(tail.take(8) =~= bytes@.subrange(36, 44));
            assert(tail.subrange(8, 12) =~= bytes@.subrange(44, 48));
            assert(tail.subrange(13, 28) =~= bytes@.subrange(49, 64));
        }
        if cap_sum != cap_stored || !padded || declared == 0 {
            return Err(SbDecodeError::Invalid);
        }
        declared
    };
    Ok(
        (
            Manifest { generation: get_u64(bytes, 8), row_count: get_u64(bytes, 16), capacity },
            get_u64(bytes, 24),
        ),
    )
}

/// Decode and verify a superblock copy written under this binary's schema.
pub fn decode_manifest(bytes: &[u8]) -> (copy: Result<Manifest, SbDecodeError>)
    ensures
        copy == manifest_verdict(bytes@),
{
    match decode_sb_any(bytes) {
        Ok((copy, schema)) => {
            if schema != SCHEMA_HASH {
                return Err(SbDecodeError::SchemaMismatch { file_schema: schema });
            }
            Ok(copy)
        },
        Err(e) => Err(e),
    }
}

/// How this binary judges a superblock slot.
pub open spec fn manifest_verdict(bytes: Seq<u8>) -> Result<Manifest, SbDecodeError> {
    match sb_parsed(bytes) {
        Some((copy, schema)) => if schema == SCHEMA_HASH {
            Ok(copy)
        } else {
            Err(SbDecodeError::SchemaMismatch { file_schema: schema })
        },
        None => Err(SbDecodeError::Invalid),
    }
}

/// Decode and verify a superblock copy that declares no capacity.
pub fn decode_sb(bytes: &[u8]) -> (copy: Result<SbCopy, SbDecodeError>)
    ensures
        copy == (match sb_parsed(bytes@) {
            Some((c, schema)) => if c.capacity != 0 {
                Err(SbDecodeError::Invalid)
            } else if schema != SCHEMA_HASH {
                Err(SbDecodeError::SchemaMismatch { file_schema: schema })
            } else {
                Ok(SbCopy { generation: c.generation, row_count: c.row_count })
            },
            None => Err(SbDecodeError::Invalid),
        }),
{
    match decode_sb_any(bytes) {
        Ok((copy, schema)) => {
            if copy.capacity != 0 {
                // Padding is validated for full-slot coverage: no byte of a
                // copy is exempt from corruption detection.
                return Err(SbDecodeError::Invalid);
            }
            if schema != SCHEMA_HASH {
                return Err(SbDecodeError::SchemaMismatch { file_schema: schema });
            }
            Ok(SbCopy { generation: copy.generation, row_count: copy.row_count })
        },
        Err(e) => Err(e),
    }
}

proof fn sb_tail_round_trip(capacity: u64)
    ensures
        sb_tail(capacity).len() == 28,
        sb_tail_parsed(sb_tail(capacity)) == Some(capacity),
{
    crate::bytes::le64_round_trip(capacity);
    crate::bytes::le32_round_trip(crc(le64(capacity)));
    let tail = sb_tail(capacity);
    if capacity != 0 {
        assert(tail.take(8) =~= le64(capacity));
        assert(tail.subrange(8, 12) =~= le32(crc(le64(capacity))));
        assert(tail.subrange(13, 28) =~= zeros(15));
        assert(tail[12] != zeros(28)[12]);
    }
}

proof fn sb_tail_parse_is_image(tail: Seq<u8>, capacity: u64)
    requires
        tail.len() == 28,
        sb_tail_parsed(tail) == Some(capacity),
    ensures
        tail == sb_tail(capacity),
{
    if tail != zeros(28) {
        crate::bytes::from_le64(tail.take(8));
        assert(tail =~= tail.take(8) + tail.subrange(8, 12) + seq![1u8] + tail.subrange(
            13,
            28,
        ));
    }
}

/// A copy parses to a manifest exactly when it is that manifest's image.
pub proof fn sb_parses_its_image(bytes: Seq<u8>, copy: Manifest, schema: u64)
    requires
        bytes.len() >= 64,
    ensures
        sb_image(copy.generation, copy.row_count, schema, copy.capacity).len() == 64,
        (sb_parsed(bytes) == Some((copy, schema))) == (bytes.take(64) == sb_image(
            copy.generation,
            copy.row_count,
            schema,
            copy.capacity,
        )),
{
    let head = sb_head(copy.generation, copy.row_count, schema);
    let image = sb_image(copy.generation, copy.row_count, schema, copy.capacity);
    crate::bytes::le64_round_trip(copy.generation);
    crate::bytes::le64_round_trip(copy.row_count);
    crate::bytes::le64_round_trip(schema);
    crate::bytes::le32_round_trip(crc(head));
    sb_tail_round_trip(copy.capacity);
    if bytes.take(64) == image {
        assert(bytes.take(8) =~= image.take(8));
        assert(image.take(8) =~= SB_MAGIC@);
        assert(bytes.subrange(8, 16) =~= image.subrange(8, 16));
        assert(image.subrange(8, 16) =~= le64(copy.generation));
        assert(bytes.subrange(16, 24) =~= image.subrange(16, 24));
        assert(image.subrange(16, 24) =~= le64(copy.row_count));
        assert(bytes.subrange(24, 32) =~= image.subrange(24, 32));
        assert(image.subrange(24, 32) =~= le64(schema));
        assert(bytes.take(32) =~= image.take(32));
        assert(image.take(32) =~= head);
        assert(bytes.subrange(32, 36) =~= image.subrange(32, 36));
        assert(image.subrange(32, 36) =~= le32(crc(head)));
        assert(bytes.subrange(36, 64) =~= image.subrange(36, 64));
        assert(image.subrange(36, 64) =~= sb_tail(copy.capacity));
    }
    if sb_parsed(bytes) == Some((copy, schema)) {
        crate::bytes::from_le64(bytes.subrange(8, 16));
        crate::bytes::from_le64(bytes.subrange(16, 24));
        crate::bytes::from_le64(bytes.subrange(24, 32));
        sb_tail_parse_is_image(bytes.subrange(36, 64), copy.capacity);
        assert(bytes.take(32) =~= head) by {
            assert(bytes.take(32) =~= bytes.take(8) + bytes.subrange(8, 16) + bytes.subrange(16, 24)
                + bytes.subrange(24, 32));
        }
        assert(bytes.take(64) =~= bytes.take(32) + bytes.subrange(32, 36) + bytes.subrange(36, 64));
    }
}

/// A superblock copy with any one byte changed no longer parses.
pub proof fn sb_damage_is_detected(copy: Manifest, schema: u64, at: int, to: u8)
    requires
        0 <= at < 64,
        to != sb_image(copy.generation, copy.row_count, schema, copy.capacity)[at],
    ensures
        sb_parsed(
            sb_image(copy.generation, copy.row_count, schema, copy.capacity).update(at, to),
        ) is None,
{
    let head = sb_head(copy.generation, copy.row_count, schema);
    let image = sb_image(copy.generation, copy.row_count, schema, copy.capacity);
    let bad = image.update(at, to);
    crate::bytes::le64_round_trip(copy.generation);
    crate::bytes::le64_round_trip(copy.row_count);
    crate::bytes::le64_round_trip(schema);
    crate::bytes::le32_round_trip(crc(head));
    sb_tail_round_trip(copy.capacity);
    assert(image.take(32) =~= head);
    assert(image.subrange(32, 36) =~= le32(crc(head)));
    if at < 32 {
        assert(bad.take(32) =~= head.update(at, to));
        crate::crc32::one_byte_change_changes_crc(head, head.update(at, to), at);
        assert(bad.subrange(32, 36) =~= le32(crc(head)));
        crate::bytes::le32_round_trip(crc(head.update(at, to)));
    } else if at < 36 {
        assert(bad.take(32) =~= head);
        assert(bad.subrange(32, 36)[at - 32] != le32(crc(head))[at - 32]);
    } else {
        let tail = sb_tail(copy.capacity);
        assert(image.subrange(36, 64) =~= tail);
        assert(bad.subrange(36, 64) =~= tail.update(at - 36, to));
        sb_tail_damage(copy.capacity, at - 36, to);
    }
}

proof fn sb_tail_damage(capacity: u64, at: int, to: u8)
    requires
        0 <= at < 28,
        to != sb_tail(capacity)[at],
    ensures
        sb_tail_parsed(sb_tail(capacity).update(at, to)) is None,
{
    let tail = sb_tail(capacity);
    let bad = tail.update(at, to);
    sb_tail_round_trip(capacity);
    crate::bytes::le64_round_trip(capacity);
    let sum = crc(le64(capacity));
    crate::bytes::le32_round_trip(sum);
    let key = bad.take(8);
    if capacity == 0 {
        assert(bad[at] != zeros(28)[at]);
        if at == 12 {
            crate::bytes::le64_round_trip(0);
            reveal_with_fuel(crate::bytes::le, 9);
            assert(le64(0) =~= zeros(8));
            assert(key =~= zeros(8));
        }
    } else {
        assert(tail.take(8) =~= le64(capacity));
        assert(tail.subrange(8, 12) =~= le32(sum));
        if at == 12 {
            if bad == zeros(28) {
                assert(key =~= zeros(8));
                crate::bytes::le64_round_trip(0);
                reveal_with_fuel(crate::bytes::le, 9);
                assert(le64(0) =~= zeros(8));
                assert(key =~= le64(capacity));
            }
        } else {
            assert(bad[12] != zeros(28)[12]);
        }
        if at < 8 {
            assert(key =~= le64(capacity).update(at, to));
            crate::crc32::one_byte_change_changes_crc(le64(capacity), key, at);
            assert(bad.subrange(8, 12) =~= le32(sum));
            crate::bytes::le32_round_trip(crc(key));
        } else if at < 12 {
            assert(key =~= le64(capacity));
            assert(bad.subrange(8, 12)[at - 8] != le32(sum)[at - 8]);
        } else if at > 12 {
            assert(bad.subrange(13, 28)[at - 13] != zeros(15)[at - 13]);
        }
    }
}

/// Where a superblock copy keeps its fields: the magic bytes, the generation,
/// the row count and the schema hash, eight bytes each; the checksum of those;
/// and the declared capacity with a checksum of its own and a one behind it, or
/// zeros where none is declared. Integers are little-endian.
pub proof fn where_a_copy_keeps_its_fields(
    generation: u64,
    row_count: u64,
    schema: u64,
    capacity: u64,
)
    ensures
        ({
            let image = sb_image(generation, row_count, schema, capacity);
            &&& image.len() == 64
            &&& image.subrange(0, 8) == seq![0x44u8, 0x41, 0x42, 0x51, 0x53, 0x42, 0x30, 0x31]
            &&& image.subrange(8, 16) == le64(generation)
            &&& image.subrange(16, 24) == le64(row_count)
            &&& image.subrange(24, 32) == le64(schema)
            &&& image.subrange(32, 36) == le32(crc(image.subrange(0, 32)))
            &&& capacity == 0 ==> image.subrange(36, 64) == zeros(28)
            &&& capacity > 0 ==> image.subrange(36, 44) == le64(capacity)
            &&& capacity > 0 ==> image.subrange(44, 48) == le32(crc(image.subrange(36, 44)))
            &&& capacity > 0 ==> image[48] == 1 && image.subrange(49, 64) == zeros(15)
        }),
{
    let image = sb_image(generation, row_count, schema, capacity);
    let head = sb_head(generation, row_count, schema);
    crate::bytes::le64_round_trip(generation);
    crate::bytes::le64_round_trip(row_count);
    crate::bytes::le64_round_trip(schema);
    crate::bytes::le64_round_trip(capacity);
    crate::bytes::le32_round_trip(crc(head));
    crate::bytes::le32_round_trip(crc(le64(capacity)));
    assert(head.len() == 32);
    assert(image.subrange(0, 8) =~= seq![0x44u8, 0x41, 0x42, 0x51, 0x53, 0x42, 0x30, 0x31]);
    assert(image.subrange(8, 16) =~= le64(generation));
    assert(image.subrange(16, 24) =~= le64(row_count));
    assert(image.subrange(24, 32) =~= le64(schema));
    assert(image.subrange(0, 32) =~= head);
    assert(image.subrange(32, 36) =~= le32(crc(head)));
    if capacity == 0 {
        assert(image.subrange(36, 64) =~= zeros(28));
    } else {
        assert(image.subrange(36, 44) =~= le64(capacity));
        assert(image.subrange(44, 48) =~= le32(crc(le64(capacity))));
        assert(image.subrange(49, 64) =~= zeros(15));
    }
}

} // verus!
