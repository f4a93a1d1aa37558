//! Tagged row slots: what the engine appends to the rows file.
//!
//! A slot is a plain row plus three tag bytes under the same checksum. The
//! *kind* says whether the slot starts a value, supersedes one, continues one
//! or deletes one. The *span* says how many more slots of the same commit
//! follow it, which is what lets recovery recognize a commit group. The
//! *length* byte says how many payload bytes are valid, and (in its top bit)
//! whether the value continues in the next slot.
//!
//! ```text
//! offset  size  field
//!      0     8  id        (u64 LE)
//!      8    16  value     (payload, zero-padded)
//!     24     1  kind      (1 record, 2 update, 3 chunk, 4 tombstone)
//!     25     1  span      (slots of the same commit that follow, at most 127)
//!     26     1  length    (low 7 bits: payload bytes; top bit: continues)
//!     27     4  crc32     (over bytes 0..27)
//!     31     1  padding   (zero)
//! ```

use crate::bytes::{
    from_le, get_u32, get_u64, le32, le64, put, take_array, u32_to_le, u64_to_le, zeros,
};
use crate::crc32::{crc, crc32};
use crate::layout::{ROW_SIZE, VALUE_LEN};
use vstd::prelude::*;
use vstd::slice::slice_subrange;

verus! {

/// The longest commit the span byte can describe, in slots.
pub const MAX_COMMIT_ROWS: usize = 128;

/// What a slot is.
#[derive(Debug, Clone, Copy, PartialEq, Eq, Structural)]
pub enum RowKind {
    /// Starts a value under an id that had none.
    Record,
    /// Starts a value that supersedes the id's live one.
    Update,
    /// Continues the value started in front of it.
    Chunk,
    /// Deletes the id's live value.
    Tombstone,
}

/// A decoded, checksum-valid slot.
#[derive(Debug, Clone, Copy, PartialEq, Eq)]
pub struct RowSlot {
    pub kind: RowKind,
    pub span: u8,
    pub len: u8,
    pub more: bool,
    pub id: u64,
    pub value: [u8; VALUE_LEN],
}

/// A slot's contents, with the payload as a sequence.
#[verifier::ext_equal]
pub struct Slot {
    pub kind: RowKind,
    pub span: u8,
    pub len: u8,
    pub more: bool,
    pub id: u64,
    pub value: Seq<u8>,
}

impl View for RowSlot {
    type V = Slot;

    open spec fn view(&self) -> Slot {
        Slot {
            kind: self.kind,
            span: self.span,
            len: self.len,
            more: self.more,
            id: self.id,
            value: self.value@,
        }
    }
}

impl Slot {
    /// The fields are ones the format can express.
    pub open spec fn valid(self) -> bool {
        &&& self.value.len() == 16
        &&& self.span < 128
        &&& self.len <= 16
    }

    /// Does this slot start a value?
    pub open spec fn starts_value(self) -> bool {
        self.kind == RowKind::Record || self.kind == RowKind::Update
    }

    /// The payload bytes that count.
    pub open spec fn payload(self) -> Seq<u8> {
        self.value.take(self.len as int)
    }
}

/// The kind's byte.
pub open spec fn kind_tag(kind: RowKind) -> u8 {
    match kind {
        RowKind::Record => 1,
        RowKind::Update => 2,
        RowKind::Chunk => 3,
        RowKind::Tombstone => 4,
    }
}

/// The kind that a byte names, if it names one.
pub open spec fn kind_of_tag(tag: u8) -> Option<RowKind> {
    if tag == 1 {
        Some(RowKind::Record)
    } else if tag == 2 {
        Some(RowKind::Update)
    } else if tag == 3 {
        Some(RowKind::Chunk)
    } else if tag == 4 {
        Some(RowKind::Tombstone)
    } else {
        None
    }
}

/// The length byte: payload length, plus the continuation flag on top.
pub open spec fn len_tag(len: u8, more: bool) -> u8 {
    if more {
        (len + 128) as u8
    } else {
        len
    }
}

/// The checksummed part of a slot.
pub open spec fn slot_body(s: Slot) -> Seq<u8> {
    le64(s.id) + s.value + seq![kind_tag(s.kind), s.span, len_tag(s.len, s.more)]
}

/// A whole slot.
pub open spec fn slot_image(s: Slot) -> Seq<u8> {
    slot_body(s) + le32(crc(slot_body(s))) + zeros(1)
}

/// What 32 bytes hold: a slot, or nothing if they are short, fail their
/// checksum, have damaged padding, or carry a tag the format does not define.
pub open spec fn slot_parsed(bytes: Seq<u8>) -> Option<Slot> {
    if bytes.len() < 32 || bytes.subrange(27, 31) != le32(crc(bytes.take(27))) || bytes[31] != 0 {
        None
    } else if kind_of_tag(bytes[24]) is None || bytes[25] >= 128 || bytes[26] % 128 > 16 {
        None
    } else {
        Some(
            Slot {
                kind: kind_of_tag(bytes[24])->0,
                span: bytes[25],
                len: (bytes[26] % 128) as u8,
                more: bytes[26] >= 128,
                id: from_le(bytes.take(8)) as u64,
                value: bytes.subrange(8, 24),
            },
        )
    }
}

fn tag_of(kind: RowKind) -> (tag: u8)
    ensures
        tag == kind_tag(kind),
{
    match kind {
        RowKind::Record => 1,
        RowKind::Update => 2,
        RowKind::Chunk => 3,
        RowKind::Tombstone => 4,
    }
}

fn kind_from(tag: u8) -> (kind: Option<RowKind>)
    ensures
        kind == kind_of_tag(tag),
{
    if tag == 1 {
        Some(RowKind::Record)
    } else if tag == 2 {
        Some(RowKind::Update)
    } else if tag == 3 {
        Some(RowKind::Chunk)
    } else if tag == 4 {
        Some(RowKind::Tombstone)
    } else {
        None
    }
}

/// Encode a slot. The span and length must be ones the format can express.
pub fn encode_slot(
    kind: RowKind,
    span: u8,
    len: u8,
    more: bool,
    id: u64,
    value: &[u8; VALUE_LEN],
    out: &mut [u8; ROW_SIZE],
)
    requires
        span < 128,
        len <= 16,
    ensures
        final(out)@ == slot_image(Slot { kind, span, len, more, id, value: value@ }),
{
    let ghost s = Slot { kind, span, len, more, id, value: value@ };
    let key = u64_to_le(id);
    proof {
        crate::bytes::le64_round_trip(id);
    }
    put(out, 0, &key);
    put(out, 8, value);
    out[24] = tag_of(kind);
    out[25] = span;
    out[26] = if more {
        len + 128
    } else {
        len
    };
    assert(out@.take(27) =~= slot_body(s));
    let sum: u32 = crc32(slice_subrange(out, 0, 27));
    let tail = u32_to_le(sum);
    proof {
        crate::bytes::le32_round_trip(sum);
    }
    put(out, 27, &tail);
    out[31] = 0;
    assert(out@ =~= slot_image(s));
}

/// Decode and verify a slot.
pub fn decode_slot(bytes: &[u8]) -> (slot: Option<RowSlot>)
    ensures
        match slot {
            Some(s) => slot_parsed(bytes@) == Some(s@),
            None => slot_parsed(bytes@) is None,
        },
{
    if bytes.len() < ROW_SIZE {
        return None;
    }
    let stored: u32 = get_u32(bytes, 27);
    let sum: u32 = crc32(slice_subrange(bytes, 0, 27));
    proof {
        crate::bytes::le32_round_trip(sum);
        crate::bytes::from_le32(bytes@.subrange(27, 31));
    }
    if sum != stored || bytes[31] != 0 {
        return None;
    }
    let span: u8 = bytes[25];
    let tag: u8 = bytes[26];
    let len: u8 = tag % 128;
    match kind_from(bytes[24]) {
        Some(kind) => {
            if span >= 128 || len > 16 {
                return None;
            }
            let id: u64 = get_u64(bytes, 0);
            let value: [u8; VALUE_LEN] = take_array(bytes, 8);
            Some(RowSlot { kind, span, len, more: tag >= 128, id, value })
        },
        None => None,
    }
}

impl RowSlot {
    /// The id and value field, when this slot starts a value.
    pub fn record(&self) -> (record: Option<(u64, [u8; VALUE_LEN])>)
        ensures
            record == (if self@.starts_value() {
                Some((self.id, self.value))
            } else {
                None
            }),
    {
        if self.kind == RowKind::Record || self.kind == RowKind::Update {
            Some((self.id, self.value))
        } else {
            None
        }
    }
}

/// A slot parses to its contents exactly when it is their image.
pub proof fn slot_parses_its_image(bytes: Seq<u8>, s: Slot)
    requires
        bytes.len() >= 32,
        s.valid(),
    ensures
        slot_image(s).len() == 32,
        (slot_parsed(bytes) == Some(s)) == (bytes.take(32) == slot_image(s)),
{
    let body = slot_body(s);
    let image = slot_image(s);
    crate::bytes::le64_round_trip(s.id);
    crate::bytes::le32_round_trip(crc(body));
    if bytes.take(32) == image {
        assert(bytes.take(27) =~= image.take(27));
        assert(image.take(27) =~= body);
        assert(bytes.subrange(27, 31) =~= image.subrange(27, 31));
        assert(image.subrange(27, 31) =~= le32(crc(body)));
        assert(bytes[31] == image[31]);
        assert(bytes.take(8) =~= image.take(8));
        assert(image.take(8) =~= le64(s.id));
        assert(bytes.subrange(8, 24) =~= image.subrange(8, 24));
        assert(image.subrange(8, 24) =~= s.value);
        assert(bytes[24] == image[24] == kind_tag(s.kind));
        assert(bytes[25] == image[25] == s.span);
        assert(bytes[26] == image[26] == len_tag(s.len, s.more));
    }
    if slot_parsed(bytes) == Some(s) {
        crate::bytes::from_le64(bytes.take(8));
        assert(bytes.take(27) =~= body);
        assert(bytes.take(32) =~= bytes.take(27) + bytes.subrange(27, 31) + zeros(1));
    }
}

/// What parses is valid.
pub proof fn slot_parsed_is_valid(bytes: Seq<u8>)
    ensures
        slot_parsed(bytes) is Some ==> slot_parsed(bytes)->0.valid(),
{
}

/// A slot with any one byte changed no longer parses: no byte is a dead zone.
pub proof fn slot_damage_is_detected(s: Slot, at: int, to: u8)
    requires
        s.valid(),
        0 <= at < 32,
        to != slot_image(s)[at],
    ensures
        slot_parsed(slot_image(s).update(at, to)) is None,
{
    let body = slot_body(s);
    let image = slot_image(s);
    crate::bytes::le64_round_trip(s.id);
    crate::bytes::le32_round_trip(crc(body));
    let bad = image.update(at, to);
    assert(image.take(27) =~= body);
    assert(image.subrange(27, 31) =~= le32(crc(body)));
    if at < 27 {
        assert(bad.take(27) =~= body.update(at, to));
        crate::crc32::one_byte_change_changes_crc(body, body.update(at, to), at);
        assert(bad.subrange(27, 31) =~= le32(crc(body)));
        crate::bytes::le32_round_trip(crc(body.update(at, to)));
    } else if at < 31 {
        assert(bad.take(27) =~= body);
        assert(bad.subrange(27, 31)[at - 27] != le32(crc(body))[at - 27]);
    }
}

/// Where a slot keeps its fields: the id in its first eight bytes, the value in
/// the sixteen behind them, then a byte each for the kind, the span, and the
/// length with the continuation flag on top; then the checksum of all that, and
/// a zero. Integers are little-endian.
pub proof fn where_a_slot_keeps_its_fields(s: Slot)
    requires
        s.valid(),
    ensures
        ({
            let image = slot_image(s);
            &&& image.len() == 32
            &&& image.subrange(0, 8) == le64(s.id)
            &&& image.subrange(8, 24) == s.value
            &&& s.kind == RowKind::Record ==> image[24] == 1
            &&& s.kind == RowKind::Update ==> image[24] == 2
            &&& s.kind == RowKind::Chunk ==> image[24] == 3
            &&& s.kind == RowKind::Tombstone ==> image[24] == 4
            &&& image[25] == s.span
            &&& image[26] == s.len + if s.more {
                128int
            } else {
                0
            }
            &&& image.subrange(27, 31) == le32(crc(image.subrange(0, 27)))
            &&& image[31] == 0
        }),
{
    let image = slot_image(s);
    let body = slot_body(s);
    crate::bytes::le64_round_trip(s.id);
    crate::bytes::le32_round_trip(crc(body));
    assert(image.subrange(0, 8) =~= le64(s.id));
    assert(image.subrange(8, 24) =~= s.value);
    assert(image.subrange(0, 27) =~= body);
    assert(image.subrange(27, 31) =~= le32(crc(body)));
}

} // verus!
