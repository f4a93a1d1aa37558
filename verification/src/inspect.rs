//! The inspector: read-only forensics over the raw file bytes. What is
//! actually in these files, slot by slot and row by row, and what would a
//! binary of this schema conclude from it?
//!
//! The inspector restates the recovery rules with code of its own and shares
//! only their meaning with the engine. That the two agree is a theorem here:
//! see [`verdict_is_what_recovery_does`].
//!
//! Everything is pure: bytes in, report out. Sample lists are capped; counts
//! are exact.

pub mod counting;
pub mod report;
pub mod reporting;

use crate::defect;
use crate::engine::log::{
    broken_at, broken_from, continues, replay, replay_step, run_at, run_from, Db, Log, Step,
};
use crate::engine::model::{
    created, disagree, min, read_log, readable, rollback_evidence, sb_chunk, sb_counts, sb_foreign,
    sb_newest, sb_slot, Phase,
};
use crate::engine::types::DbError;
use crate::layout::{decode_sb_any, sb_parsed, SB_COPIES, SB_COPY_SIZE, SCHEMA_HASH};
use crate::migration::V1_SCHEMA_HASH;
use crate::slot::{decode_slot, slot_parsed, RowKind, RowSlot};
use std::collections::BTreeSet;
use vstd::prelude::*;
use vstd::slice::slice_subrange;

verus! {

broadcast use vstd::std_specs::btree::group_btree_axioms;

/// At most this many example offsets or ids are collected per defect class;
/// counts are always exact.
pub const SAMPLE_CAP: usize = 16;

/// One superblock slot, as found on disk.
#[derive(Debug, Clone, Copy, PartialEq, Eq)]
pub enum SlotState {
    /// The slot's bytes are absent (short file): never written.
    Missing,
    /// All-zero bytes: allocated but never written.
    Empty,
    /// Present but fails structural verification: a torn write, bit rot, or
    /// garbage. Recovery skips it.
    Invalid,
    /// Structurally valid. A generation only ever lives in its home pair; a
    /// valid copy outside it is the product of a misdirected write, and
    /// recovery distrusts it.
    Valid { generation: u64, row_count: u64, schema: u64, in_home_pair: bool },
}

/// The copy recovery would trust, if any.
#[derive(Debug, Clone, Copy, PartialEq, Eq)]
pub struct LiveCopy {
    pub slot: u8,
    pub generation: u64,
    pub row_count: u64,
    pub schema: u64,
}

/// Row-zone accounting from a full scan of the rows file.
#[derive(Debug, Clone, PartialEq, Eq, Default)]
pub struct RowScan {
    /// Committed rows (within the manifest) that verify.
    pub committed_valid: u64,
    /// Committed rows that fail checksum or padding.
    pub committed_corrupt: u64,
    /// Sample offsets of corrupt committed rows.
    pub corrupt_offsets: Vec<u64>,
    /// Committed rows that are deletions rather than records.
    pub tombstones: u64,
    /// Committed rows that supersede an earlier value for the same id.
    pub superseded: u64,
    /// Rows still live after replaying the whole commit order.
    pub live_records: u64,
    /// Updates of an id that was not live at that point.
    pub orphan_updates: u64,
    /// Deletions of an id that was not live at that point.
    pub orphan_tombstones: u64,
    /// Value continuations with nothing in front of them to continue.
    pub orphan_chunks: u64,
    /// Continuation slots of values that did run to their promised end.
    pub chunks: u64,
    /// Values whose continuations do not run to the end the head promised.
    pub truncated_values: u64,
    /// Records of an id that was live already.
    pub duplicate_ids: u64,
    pub duplicate_samples: Vec<u64>,
    /// Checksum-valid rows beyond the manifest.
    pub orphan_valid: u64,
    /// Slots beyond the manifest that hold garbage.
    pub orphan_invalid: u64,
}

/// What a binary compiled against this schema would conclude at open.
#[derive(Debug, Clone, Copy, PartialEq, Eq)]
pub enum Verdict {
    /// Nothing committed: open would initialize fresh.
    FreshInit,
    /// Open would recover this many rows.
    Recovers { rows: u64 },
    /// Open would refuse: the file belongs to a different schema. If the hash
    /// is the compiled-in legacy schema, the migration path applies.
    SchemaMismatch { file_schema: u64, migratable: bool },
    /// Open would refuse: on-disk state violates a protocol invariant.
    Corrupt { what: &'static str },
}

#[derive(Debug, Clone, PartialEq, Eq)]
pub struct InspectReport {
    pub slots: [SlotState; SB_COPIES],
    pub live: Option<LiveCopy>,
    pub rows: RowScan,
    /// Rows past the manifest that cannot all stem from one interrupted
    /// commit: acknowledged commits were rolled back.
    pub rollback_evidence: bool,
    pub verdict: Verdict,
}

// ---- Superblocks ----

pub open spec fn all_zero(bytes: Seq<u8>) -> bool {
    forall|i: int| 0 <= i < bytes.len() ==> #[trigger] bytes[i] == 0
}

/// What a superblock slot holds.
pub open spec fn slot_state(sb: Seq<u8>, slot: int) -> SlotState {
    match sb_chunk(sb, slot) {
        None => SlotState::Missing,
        Some(chunk) => if all_zero(chunk) {
            SlotState::Empty
        } else {
            match sb_parsed(chunk) {
                None => SlotState::Invalid,
                Some((m, schema)) => SlotState::Valid {
                    generation: m.generation,
                    row_count: m.row_count,
                    schema,
                    in_home_pair: slot == sb_slot(m.generation, 0) || slot == sb_slot(
                        m.generation,
                        1,
                    ),
                },
            }
        },
    }
}

/// The newest current-schema copy in its home pair among the first `n` slots;
/// of equals, the first. Generation zero was never committed.
pub open spec fn elected(sb: Seq<u8>, n: int) -> Option<LiveCopy>
    decreases n,
{
    if n <= 0 {
        None
    } else {
        let before = elected(sb, n - 1);
        match slot_state(sb, n - 1) {
            SlotState::Valid { generation, row_count, schema, in_home_pair } => {
                if schema == SCHEMA_HASH && generation > 0 && in_home_pair && (before is None
                    || generation > before->0.generation) {
                    Some(LiveCopy { slot: (n - 1) as u8, generation, row_count, schema })
                } else {
                    before
                }
            },
            _ => before,
        }
    }
}

/// The schema of the last copy of another schema among the first `n` slots.
pub open spec fn foreign_schema(sb: Seq<u8>, n: int) -> Option<u64>
    decreases n,
{
    if n <= 0 {
        None
    } else {
        match slot_state(sb, n - 1) {
            SlotState::Valid { schema, .. } => if schema != SCHEMA_HASH {
                Some(schema)
            } else {
                foreign_schema(sb, n - 1)
            },
            _ => foreign_schema(sb, n - 1),
        }
    }
}

/// The pair rotation rule, restated.
fn home_pair_slots(generation: u64) -> (slots: [u8; 2])
    ensures
        slots@[0] == sb_slot(generation, 0),
        slots@[1] == sb_slot(generation, 1),
{
    let pair: u8 = (generation % 2) as u8;
    [pair * 2, pair * 2 + 1]
}

fn is_zero(bytes: &[u8]) -> (yes: bool)
    ensures
        yes == all_zero(bytes@),
{
    let mut i: usize = 0;
    while i < bytes.len()
        invariant
            i <= bytes@.len(),
            forall|j: int| 0 <= j < i ==> #[trigger] bytes@[j] == 0,
        decreases bytes@.len() - i,
    {
        if bytes[i] != 0 {
            return false;
        }
        i = i + 1;
    }
    true
}

fn inspect_slot(sb: &[u8], slot: usize) -> (state: SlotState)
    requires
        slot < 4,
    ensures
        state == slot_state(sb@, slot as int),
{
    if sb.len() < (slot + 1) * SB_COPY_SIZE {
        return SlotState::Missing;
    }
    let chunk = slice_subrange(sb, slot * SB_COPY_SIZE, (slot + 1) * SB_COPY_SIZE);
    if is_zero(chunk) {
        return SlotState::Empty;
    }
    match decode_sb_any(chunk) {
        Ok((copy, schema)) => {
            let pair = home_pair_slots(copy.generation);
            SlotState::Valid {
                generation: copy.generation,
                row_count: copy.row_count,
                schema,
                in_home_pair: pair[0] as usize == slot || pair[1] as usize == slot,
            }
        },
        Err(_) => SlotState::Invalid,
    }
}

// ---- Rows ----

/// The first `n` rows of a rows file; a row that the file is too short for is
/// as unreadable as a damaged one.
pub open spec fn file_log(rows: Seq<u8>, n: int) -> Log {
    Seq::new(
        n as nat,
        |r: int|
            if 32 * r + 32 <= rows.len() {
                slot_parsed(rows.subrange(32 * r, 32 * r + 32))
            } else {
                None
            },
    )
}

/// A scan's numbers, with the samples as sequences.
#[verifier::ext_equal]
pub struct ScanView {
    pub committed_valid: int,
    pub committed_corrupt: int,
    pub corrupt_offsets: Seq<u64>,
    pub tombstones: int,
    pub superseded: int,
    pub live_records: int,
    pub orphan_updates: int,
    pub orphan_tombstones: int,
    pub orphan_chunks: int,
    pub chunks: int,
    pub truncated_values: int,
    pub duplicate_ids: int,
    pub duplicate_samples: Seq<u64>,
    pub orphan_valid: int,
    pub orphan_invalid: int,
}

impl View for RowScan {
    type V = ScanView;

    open spec fn view(&self) -> ScanView {
        ScanView {
            committed_valid: self.committed_valid as int,
            committed_corrupt: self.committed_corrupt as int,
            corrupt_offsets: self.corrupt_offsets@,
            tombstones: self.tombstones as int,
            superseded: self.superseded as int,
            live_records: self.live_records as int,
            orphan_updates: self.orphan_updates as int,
            orphan_tombstones: self.orphan_tombstones as int,
            orphan_chunks: self.orphan_chunks as int,
            chunks: self.chunks as int,
            truncated_values: self.truncated_values as int,
            duplicate_ids: self.duplicate_ids as int,
            duplicate_samples: self.duplicate_samples@,
            orphan_valid: self.orphan_valid as int,
            orphan_invalid: self.orphan_invalid as int,
        }
    }
}

pub open spec fn empty_scan() -> ScanView {
    ScanView {
        committed_valid: 0,
        committed_corrupt: 0,
        corrupt_offsets: Seq::empty(),
        tombstones: 0,
        superseded: 0,
        live_records: 0,
        orphan_updates: 0,
        orphan_tombstones: 0,
        orphan_chunks: 0,
        chunks: 0,
        truncated_values: 0,
        duplicate_ids: 0,
        duplicate_samples: Seq::empty(),
        orphan_valid: 0,
        orphan_invalid: 0,
    }
}

/// A scan under way: the next row, the ids live so far, the numbers, and the
/// first defect met.
#[verifier::ext_equal]
pub struct Walked {
    pub at: int,
    pub seen: Set<u64>,
    pub scan: ScanView,
    pub first: Option<&'static str>,
}

pub open spec fn unwalked() -> Walked {
    Walked { at: 0, seen: Set::empty(), scan: empty_scan(), first: None }
}

/// A sample list with one more, while there is room.
pub open spec fn sampled(list: Seq<u64>, x: u64) -> Seq<u64> {
    if list.len() < 16 {
        list.push(x)
    } else {
        list
    }
}

pub open spec fn at_most_u64(n: int) -> u64 {
    if n > u64::MAX {
        u64::MAX
    } else {
        n as u64
    }
}

impl Walked {
    /// `rows` rows on, with these numbers, a defect found on the way.
    pub open spec fn defective(self, rows: int, scan: ScanView, what: &'static str) -> Walked {
        Walked {
            at: self.at + rows,
            scan,
            first: if self.first is Some {
                self.first
            } else {
                Some(what)
            },
            ..self
        }
    }

    /// One row on, with its run.
    pub open spec fn step(self, log: Log) -> Walked {
        let scan = self.scan;
        match log[self.at] {
            None => self.defective(
                1,
                ScanView {
                    committed_corrupt: scan.committed_corrupt + 1,
                    corrupt_offsets: sampled(scan.corrupt_offsets, at_most_u64(32 * self.at)),
                    ..scan
                },
                defect::ROW_CHECKSUM,
            ),
            Some(s) => match s.kind {
                RowKind::Record | RowKind::Update => match run_at(log, self.at) {
                    None => self.defective(
                        broken_at(log, self.at),
                        ScanView { truncated_values: scan.truncated_values + 1, ..scan },
                        defect::TRUNCATED_VALUE,
                    ),
                    Some(n) => {
                        let chunked = ScanView { chunks: scan.chunks + n - 1, ..scan };
                        if s.kind == RowKind::Record {
                            if self.seen.contains(s.id) {
                                self.defective(
                                    n,
                                    ScanView {
                                        duplicate_ids: scan.duplicate_ids + 1,
                                        duplicate_samples: sampled(scan.duplicate_samples, s.id),
                                        ..chunked
                                    },
                                    defect::DUPLICATE_ID,
                                )
                            } else {
                                Walked {
                                    at: self.at + n,
                                    seen: self.seen.insert(s.id),
                                    scan: ScanView {
                                        committed_valid: scan.committed_valid + 1,
                                        ..chunked
                                    },
                                    ..self
                                }
                            }
                        } else if self.seen.contains(s.id) {
                            Walked {
                                at: self.at + n,
                                scan: ScanView {
                                    committed_valid: scan.committed_valid + 1,
                                    superseded: scan.superseded + 1,
                                    ..chunked
                                },
                                ..self
                            }
                        } else {
                            self.defective(
                                n,
                                ScanView { orphan_updates: scan.orphan_updates + 1, ..chunked },
                                defect::ORPHAN_UPDATE,
                            )
                        }
                    },
                },
                RowKind::Tombstone => if !s.more && self.seen.contains(s.id) {
                    Walked {
                        at: self.at + 1,
                        seen: self.seen.remove(s.id),
                        scan: ScanView {
                            committed_valid: scan.committed_valid + 1,
                            tombstones: scan.tombstones + 1,
                            ..scan
                        },
                        ..self
                    }
                } else {
                    self.defective(
                        1,
                        ScanView { orphan_tombstones: scan.orphan_tombstones + 1, ..scan },
                        defect::ORPHAN_TOMBSTONE,
                    )
                },
                RowKind::Chunk => self.defective(
                    1,
                    ScanView { orphan_chunks: scan.orphan_chunks + 1, ..scan },
                    defect::ORPHAN_CHUNK,
                ),
            },
        }
    }

    /// All the way to the log's end.
    pub open spec fn walk(self, log: Log) -> Walked
        decreases log.len() - self.at,
    {
        if self.at >= log.len() {
            self
        } else {
            let next = self.step(log);
            if self.at < next.at <= log.len() {
                next.walk(log)
            } else {
                self
            }
        }
    }
}

/// The bytes past the committed rows.
pub open spec fn past_rows(rows: Seq<u8>, committed: int) -> Seq<u8> {
    if 32 * committed <= rows.len() {
        rows.skip(32 * committed)
    } else {
        Seq::empty()
    }
}

/// Slots that are neither readable nor blank, among the first `n`.
pub open spec fn garbage(past: Seq<u8>, n: int) -> int
    decreases n,
{
    if n <= 0 {
        0
    } else {
        let chunk = past.subrange(32 * (n - 1), 32 * (n - 1) + 32);
        garbage(past, n - 1) + if slot_parsed(chunk) is None && !all_zero(chunk) {
            1int
        } else {
            0
        }
    }
}

pub open spec fn committed_rows(sb: Seq<u8>) -> int {
    match elected(sb, 4) {
        Some(l) => l.row_count as int,
        None => 0,
    }
}

/// The whole row scan.
pub open spec fn row_scan(sb: Seq<u8>, rows: Seq<u8>) -> ScanView {
    let n = committed_rows(sb);
    let w = unwalked().walk(file_log(rows, n));
    let past = past_rows(rows, n);
    ScanView {
        live_records: w.seen.len() as int,
        orphan_valid: readable(past, past.len() as int / 32),
        orphan_invalid: garbage(past, past.len() as int / 32),
        ..w.scan
    }
}

/// What open would conclude.
pub open spec fn verdict_of(sb: Seq<u8>, rows: Seq<u8>) -> Verdict {
    match elected(sb, 4) {
        None => match foreign_schema(sb, 4) {
            Some(file_schema) => Verdict::SchemaMismatch {
                file_schema,
                migratable: file_schema == V1_SCHEMA_HASH,
            },
            None => if rows.len() == 0 {
                Verdict::FreshInit
            } else if sb.len() == 0 {
                Verdict::Corrupt { what: defect::ROWS_WITHOUT_SUPERBLOCK }
            } else {
                Verdict::Corrupt { what: defect::ROWS_WITHOUT_VALID_SUPERBLOCK }
            },
        },
        Some(l) => if 32 * l.row_count > rows.len() {
            Verdict::Corrupt { what: defect::ROWS_MISSING }
        } else {
            match unwalked().walk(file_log(rows, l.row_count as int)).first {
                Some(what) => Verdict::Corrupt { what },
                None => Verdict::Recovers { rows: l.row_count },
            }
        },
    }
}

/// Row `r` of a rows file.
fn file_row(rows: &[u8], r: u64, Ghost(n): Ghost<int>) -> (slot: Option<RowSlot>)
    requires
        r < n,
    ensures
        match slot {
            Some(s) => file_log(rows@, n)[r as int] == Some(s@),
            None => file_log(rows@, n)[r as int] is None,
        },
{
    if r >= (rows.len() / 32) as u64 {
        return None;
    }
    let off: usize = r as usize * 32;
    decode_slot(slice_subrange(rows, off, off + 32))
}

/// Walk a value's run of slots from its head: how many slots it takes, and
/// whether it reached the end it promised. A broken run reports the head plus
/// the continuations that did arrive.
fn walk_run(rows: &[u8], head_row: u64, committed: u64, head: &RowSlot) -> (out: (u64, bool))
    requires
        head_row < committed,
        file_log(rows@, committed as int)[head_row as int] == Some(head@),
    ensures
        ({
            let log = file_log(rows@, committed as int);
            &&& match run_at(log, head_row as int) {
                Some(n) => out == (n as u64, true),
                None => out == (broken_at(log, head_row as int) as u64, false),
            }
            &&& 1 <= out.0
            &&& head_row + out.0 <= committed
            &&& run_at(log, head_row as int) is Some ==> run_at(log, head_row as int)->0 == out.0
            &&& run_at(log, head_row as int) is None ==> broken_at(log, head_row as int) == out.0
        }),
{
    let ghost log = file_log(rows@, committed as int);
    let ghost h = head_row as int;
    let mut slots: u64 = 1;
    let mut more: bool = head.more;
    while more
        invariant
            log == file_log(rows@, committed as int),
            h == head_row,
            head_row < committed,
            log[h] == Some(head@),
            1 <= slots <= 129,
            head_row + slots <= committed,
            broken_from(log, h, slots as int, more) == broken_at(log, h),
            slots <= 128 ==> run_from(log, h, slots as int, more) == run_at(log, h),
            slots > 128 ==> run_at(log, h) is None,
        decreases 129 - slots + more as int,
    {
        if slots > 128 {
            return (slots, false);
        }
        let r: u64 = head_row + slots;
        if r >= committed {
            return (slots, false);
        }
        match file_row(rows, r, Ghost(committed as int)) {
            Some(slot) => {
                if slot.kind == RowKind::Chunk && slot.id == head.id {
                    assert(continues(log, h + slots, head.id));
                    more = slot.more;
                    slots = slots + 1;
                } else {
                    return (slots, false);
                }
            },
            None => {
                return (slots, false);
            },
        }
    }
    (slots, slots <= 128)
}

/// A scan under way.
struct Walk {
    row: u64,
    seen: BTreeSet<u64>,
    scan: RowScan,
    first: Option<&'static str>,
}

impl Walk {
    spec fn view(&self) -> Walked {
        Walked { at: self.row as int, seen: self.seen@, scan: self.scan@, first: self.first }
    }

    /// No number exceeds the rows seen.
    spec fn bounded(&self) -> bool {
        let s = self.scan;
        let r = self.row;
        &&& s.committed_valid <= r
        &&& s.committed_corrupt <= r
        &&& s.tombstones <= r
        &&& s.superseded <= r
        &&& s.orphan_updates <= r
        &&& s.orphan_tombstones <= r
        &&& s.orphan_chunks <= r
        &&& s.chunks <= r
        &&& s.truncated_values <= r
        &&& s.duplicate_ids <= r
        &&& self.seen@.finite()
    }

    fn new() -> (w: Self)
        ensures
            w.view() == unwalked(),
            w.bounded(),
    {
        let w = Walk {
            row: 0,
            seen: BTreeSet::new(),
            scan: RowScan {
                committed_valid: 0,
                committed_corrupt: 0,
                corrupt_offsets: Vec::new(),
                tombstones: 0,
                superseded: 0,
                live_records: 0,
                orphan_updates: 0,
                orphan_tombstones: 0,
                orphan_chunks: 0,
                chunks: 0,
                truncated_values: 0,
                duplicate_ids: 0,
                duplicate_samples: Vec::new(),
                orphan_valid: 0,
                orphan_invalid: 0,
            },
            first: None,
        };
        assert(w.view() =~= unwalked());
        w
    }

    fn note(&mut self, what: &'static str)
        ensures
            *final(self) == (Walk {
                first: if old(self).first is Some {
                    old(self).first
                } else {
                    Some(what)
                },
                ..*old(self)
            }),
    {
        if self.first.is_none() {
            self.first = Some(what);
        }
    }

    #[verifier::rlimit(60)]
    fn step(&mut self, rows: &[u8], committed: u64)
        requires
            old(self).row < committed,
            old(self).bounded(),
        ensures
            final(self).bounded(),
            final(self).view() == old(self).view().step(file_log(rows@, committed as int)),
            old(self).row < final(self).row <= committed,
    {
        let ghost log = file_log(rows@, committed as int);
        let ghost was = self.view();
        let row: u64 = self.row;
        match file_row(rows, row, Ghost(committed as int)) {
            None => {
                self.scan.committed_corrupt = self.scan.committed_corrupt + 1;
                if self.scan.corrupt_offsets.len() < SAMPLE_CAP {
                    let offset: u64 = match row.checked_mul(32) {
                        Some(offset) => offset,
                        None => u64::MAX,
                    };
                    self.scan.corrupt_offsets.push(offset);
                }
                self.note(defect::ROW_CHECKSUM);
                self.row = row + 1;
            },
            Some(slot) => {
                let id: u64 = slot.id;
                match slot.kind {
                    RowKind::Record | RowKind::Update => {
                        let (span, intact) = walk_run(rows, row, committed, &slot);
                        if !intact {
                            self.scan.truncated_values = self.scan.truncated_values + 1;
                            self.note(defect::TRUNCATED_VALUE);
                            self.row = row + span;
                        } else {
                            if slot.kind == RowKind::Record {
                                if self.seen.insert(id) {
                                    self.scan.committed_valid = self.scan.committed_valid + 1;
                                } else {
                                    self.scan.duplicate_ids = self.scan.duplicate_ids + 1;
                                    if self.scan.duplicate_samples.len() < SAMPLE_CAP {
                                        self.scan.duplicate_samples.push(id);
                                    }
                                    self.note(defect::DUPLICATE_ID);
                                    assert(self.seen@ =~= was.seen);
                                }
                            } else if self.seen.contains(&id) {
                                self.scan.committed_valid = self.scan.committed_valid + 1;
                                self.scan.superseded = self.scan.superseded + 1;
                            } else {
                                self.scan.orphan_updates = self.scan.orphan_updates + 1;
                                self.note(defect::ORPHAN_UPDATE);
                            }
                            self.scan.chunks = self.scan.chunks + (span - 1);
                            self.row = row + span;
                        }
                    },
                    RowKind::Tombstone => {
                        if !slot.more && self.seen.remove(&id) {
                            self.scan.committed_valid = self.scan.committed_valid + 1;
                            self.scan.tombstones = self.scan.tombstones + 1;
                        } else {
                            self.scan.orphan_tombstones = self.scan.orphan_tombstones + 1;
                            self.note(defect::ORPHAN_TOMBSTONE);
                            assert(self.seen@ =~= was.seen);
                        }
                        self.row = row + 1;
                    },
                    RowKind::Chunk => {
                        self.scan.orphan_chunks = self.scan.orphan_chunks + 1;
                        self.note(defect::ORPHAN_CHUNK);
                        self.row = row + 1;
                    },
                }
            },
        }
        assert(self.view() =~= was.step(log));
    }
}

/// Look at the slots past the committed rows: readable ones, garbage, and
/// whether they can all stem from one interrupted commit.
fn scan_past(past: &[u8]) -> (out: (u64, u64, bool))
    ensures
        out.0 == readable(past@, past@.len() as int / 32),
        out.1 == garbage(past@, past@.len() as int / 32),
        out.2 == rollback_evidence(past@, past@.len() as int / 32),
{
    let n: usize = past.len() / 32;
    let ghost log = read_log(past@, n as int);
    let mut valid: u64 = 0;
    let mut invalid: u64 = 0;
    let mut claimed: Option<u64> = None;
    let mut disagreed: bool = false;
    let ghost mut first: int = 0;
    let mut j: usize = 0;
    while j < n
        invariant
            j <= n == past.len() / 32,
            log == read_log(past@, n as int),
            valid == readable(past@, j as int),
            invalid == garbage(past@, j as int),
            valid <= j,
            invalid <= j,
            claimed is None ==> !disagreed && forall|i: int|
                0 <= i < j ==> (#[trigger] log[i]) is None,
            claimed is Some ==> {
                &&& 0 <= first < j
                &&& log[first] is Some
                &&& claimed->0 == first + (log[first]->0).span + 1
            },
            disagreed ==> exists|i: int, k: int|
                0 <= i < n && 0 <= k < n && #[trigger] disagree(log, i, k),
            !disagreed && claimed is Some ==> forall|i: int|
                0 <= i < j && (#[trigger] log[i]) is Some ==> i + (log[i]->0).span + 1 == claimed->0,
        decreases n - j,
    {
        let off: usize = j * 32;
        let chunk = slice_subrange(past, off, off + 32);
        assert(read_log(past@, j + 1)[j as int] == log[j as int]);
        match decode_slot(chunk) {
            None => {
                if !is_zero(chunk) {
                    invalid = invalid + 1;
                }
            },
            Some(s) => {
                assert(log[j as int] == Some(s@));
                valid = valid + 1;
                assert(j + 1 + 255 < u64::MAX) by {
                    assert(32 * n <= past.len());
                    assert(past.len() <= usize::MAX);
                }
                let claim: u64 = j as u64 + s.span as u64 + 1;
                match claimed {
                    None => {
                        proof {
                            first = j as int;
                        }
                        claimed = Some(claim);
                    },
                    Some(c) => {
                        if c != claim {
                            assert(disagree(log, first, j as int));
                            disagreed = true;
                        }
                    },
                }
            },
        }
        j = j + 1;
    }
    proof {
        if !disagreed && rollback_evidence(past@, n as int) {
            let (a, b) = choose|a: int, b: int|
                0 <= a < n && 0 <= b < n && #[trigger] disagree(log, a, b);
            assert(log[a] is Some && log[b] is Some);
        }
    }
    (valid, invalid, disagreed)
}

/// Inspect a database from its raw file bytes. Pure and total: any input
/// produces a report.
pub fn inspect(superblock: &[u8], rows: &[u8]) -> (report: InspectReport)
    ensures
        forall|i: int| 0 <= i < 4 ==> #[trigger] report.slots@[i] == slot_state(superblock@, i),
        report.live == elected(superblock@, 4),
        report.rows@ == row_scan(superblock@, rows@),
        report.rollback_evidence == ({
            let past = past_rows(rows@, committed_rows(superblock@));
            rollback_evidence(past, past.len() as int / 32)
        }),
        report.verdict == verdict_of(superblock@, rows@),
{
    let mut slots: [SlotState; SB_COPIES] = [SlotState::Missing;4];
    let mut live: Option<LiveCopy> = None;
    let mut foreign: Option<u64> = None;
    let mut i: usize = 0;
    while i < 4
        invariant
            i <= 4,
            slots@.len() == 4,
            forall|j: int| 0 <= j < i ==> #[trigger] slots@[j] == slot_state(superblock@, j),
            live == elected(superblock@, i as int),
            foreign == foreign_schema(superblock@, i as int),
        decreases 4 - i,
    {
        let state = inspect_slot(superblock, i);
        slots[i] = state;
        if let SlotState::Valid { generation, row_count, schema, in_home_pair } = state {
            if schema != SCHEMA_HASH {
                foreign = Some(schema);
            } else if in_home_pair && generation > 0 {
                let newer: bool = match live {
                    None => true,
                    Some(l) => generation > l.generation,
                };
                if newer {
                    live = Some(LiveCopy { slot: i as u8, generation, row_count, schema });
                }
            }
        }
        i = i + 1;
    }
    let committed: u64 = match live {
        Some(l) => l.row_count,
        None => 0,
    };
    let ghost log = file_log(rows@, committed as int);
    let mut walk = Walk::new();
    while walk.row < committed
        invariant
            walk.row <= committed,
            walk.bounded(),
            log == file_log(rows@, committed as int),
            walk.view().walk(log) == unwalked().walk(log),
        decreases committed - walk.row,
    {
        walk.step(rows, committed);
    }
    let live_records: u64 = walk.seen.len() as u64;
    let file_rows: u64 = (rows.len() / 32) as u64;
    let past = if committed <= file_rows {
        slice_subrange(rows, committed as usize * 32, rows.len())
    } else {
        slice_subrange(rows, 0, 0)
    };
    assert(past@ =~= past_rows(rows@, committed as int));
    let (orphan_valid, orphan_invalid, rollback) = scan_past(past);
    let verdict = match live {
        None => match foreign {
            Some(file_schema) => Verdict::SchemaMismatch {
                file_schema,
                migratable: file_schema == V1_SCHEMA_HASH,
            },
            None => if rows.len() == 0 {
                Verdict::FreshInit
            } else if superblock.len() == 0 {
                Verdict::Corrupt { what: defect::ROWS_WITHOUT_SUPERBLOCK }
            } else {
                Verdict::Corrupt { what: defect::ROWS_WITHOUT_VALID_SUPERBLOCK }
            },
        },
        Some(l) => if l.row_count > file_rows {
            Verdict::Corrupt { what: defect::ROWS_MISSING }
        } else {
            match walk.first {
                Some(what) => Verdict::Corrupt { what },
                None => Verdict::Recovers { rows: l.row_count },
            }
        },
    };
    let mut scan = walk.scan;
    scan.live_records = live_records;
    scan.orphan_valid = orphan_valid;
    scan.orphan_invalid = orphan_invalid;
    assert(scan@ =~= row_scan(superblock@, rows@));
    InspectReport { slots, live, rows: scan, rollback_evidence: rollback, verdict }
}

// ---- Agreement with the engine ----

proof fn zeros_do_not_parse(chunk: Seq<u8>)
    requires
        chunk.len() == 64,
        all_zero(chunk),
    ensures
        sb_parsed(chunk) is None,
{
    assert(chunk.take(8)[0] == 0);
}

pub(crate) proof fn election_agrees(sb: Seq<u8>, n: int)
    requires
        0 <= n <= 4,
    ensures
        elected(sb, n) is Some == sb_newest(sb, n) is Some,
        elected(sb, n) is Some ==> {
            &&& elected(sb, n)->0.generation == sb_newest(sb, n)->0.generation
            &&& elected(sb, n)->0.row_count == sb_newest(sb, n)->0.row_count
        },
        foreign_schema(sb, n) == sb_foreign(sb, n),
    decreases n,
{
    if n > 0 {
        election_agrees(sb, n - 1);
        if let Some(chunk) = sb_chunk(sb, n - 1) {
            assert(sb_chunk(sb, n - 1) is Some);
            if all_zero(chunk) {
                zeros_do_not_parse(chunk);
            }
        }
    }
}

proof fn first_defect_sticks(w: Walked, log: Log)
    requires
        w.first is Some,
        0 <= w.at,
    ensures
        w.walk(log).first == w.first,
    decreases log.len() - w.at,
{
    if w.at < log.len() {
        let next = w.step(log);
        if w.at < next.at <= log.len() {
            first_defect_sticks(next, log);
        }
    }
}

pub(crate) proof fn broken_run_within(log: Log, head: int, rows: int, more: bool)
    requires
        0 <= head,
        1 <= rows,
        head + rows <= log.len(),
    ensures
        rows <= broken_from(log, head, rows, more),
        head + broken_from(log, head, rows, more) <= log.len(),
    decreases log.len() - (head + rows),
{
    if more && rows <= 128 && continues(log, head + rows, (log[head]->0).id) {
        broken_run_within(log, head, rows + 1, (log[head + rows]->0).more);
    }
}

/// The scan keeps step with the replay up to the first defect.
pub(crate) proof fn walk_keeps_step(w: Walked, log: Log, db: Db)
    requires
        w.first is None,
        w.at == db.kept.len() <= log.len(),
        w.seen == db.live.dom(),
    ensures
        ({
            let (d, stopped) = replay(log, db, false);
            &&& w.walk(log).first == stopped
            &&& stopped is None ==> w.walk(log).seen == d.live.dom()
        }),
    decreases log.len() - w.at,
{
    if w.at < log.len() {
        let at = w.at;
        if log[at] is Some && (log[at]->0).starts_value() {
            broken_run_within(log, at, 1, (log[at]->0).more);
            if run_at(log, at) is Some {
                crate::engine::commit::run_facts(log, at, 1, (log[at]->0).more);
            }
        }
        let next = w.step(log);
        match replay_step(log, db, false) {
            Step::Stop(what) => {
                first_defect_sticks(next, log);
            },
            Step::Go(d) => {
                assert(next.seen =~= d.live.dom());
                walk_keeps_step(next, log, d);
            },
        }
    }
}

proof fn zone_prefix(sb: Seq<u8>, n: int)
    requires
        0 <= n <= 4,
    ensures
        forall|i: int|
            0 <= i < 4 ==> #[trigger] sb_chunk(sb.take(min(sb.len() as int, 256)), i) == sb_chunk(
                sb,
                i,
            ),
        sb_newest(sb.take(min(sb.len() as int, 256)), n) == sb_newest(sb, n),
        sb_foreign(sb.take(min(sb.len() as int, 256)), n) == sb_foreign(sb, n),
    decreases n,
{
    let zone = sb.take(min(sb.len() as int, 256));
    assert forall|i: int| 0 <= i < 4 implies #[trigger] sb_chunk(zone, i) == sb_chunk(sb, i) by {
        if sb.len() >= 64 * (i + 1) {
            assert(zone.subrange(64 * i, 64 * i + 64) =~= sb.subrange(64 * i, 64 * i + 64));
        }
    }
    if n > 0 {
        zone_prefix(sb, n - 1);
        assert(sb_chunk(zone, n - 1) == sb_chunk(sb, n - 1));
        assert(sb_counts(zone, n - 1) == sb_counts(sb, n - 1));
    }
}

/// What the inspector concludes is what a strict open does.
///
/// Given the same bytes, and a capacity that admits them, the engine refuses
/// exactly when the inspector says so, with the same error; initializes
/// exactly when it says so; and otherwise recovers the rows it says, with as
/// many of them live as it counts.
pub proof fn verdict_is_what_recovery_does(sb: Seq<u8>, rows: Seq<u8>, caps: u64)
    requires
        crate::engine::tables::sizeable(caps),
        sb.len() <= u64::MAX,
        rows.len() <= u64::MAX,
        elected(sb, 4) is Some ==> elected(sb, 4)->0.row_count <= caps,
    ensures
        ({
            let asked = created(caps).open(sb.len() as u64, rows.len() as u64).0;
            let read = if asked.phase is RecoverReadSb {
                asked.read_done(sb.take(min(sb.len() as int, 256))).0
            } else {
                asked
            };
            let end = if read.phase is RecoverReadRows {
                read.read_done(rows.take(min(rows.len() as int, 32 * caps))).0
            } else {
                read
            };
            match verdict_of(sb, rows) {
                Verdict::FreshInit => end.phase is InitWriteSb,
                Verdict::Recovers { rows: n } => {
                    &&& end.phase matches Phase::RecoverTruncateRows { row_count, .. } ==> row_count
                        == n
                    &&& end.phase matches Phase::RecoverFsyncRows { row_count, .. } ==> row_count
                        == n
                    &&& end.phase is RecoverTruncateRows || end.phase is RecoverFsyncRows
                    &&& row_scan(sb, rows).live_records == end.db.live.dom().len()
                },
                Verdict::SchemaMismatch { file_schema, .. } => end.phase == Phase::Failed(
                    DbError::SchemaMismatch { file_schema, binary_schema: SCHEMA_HASH },
                ),
                Verdict::Corrupt { what } => end.phase == Phase::Failed(DbError::Corrupt { what }),
            }
        }),
{
    let zone = sb.take(min(sb.len() as int, 256));
    zone_prefix(sb, 4);
    election_agrees(sb, 4);
    if sb.len() == 0 {
        reveal_with_fuel(elected, 5);
        reveal_with_fuel(foreign_schema, 5);
    }
    if let Some(l) = elected(sb, 4) {
        let n = l.row_count as int;
        if 32 * n <= rows.len() {
            let log = file_log(rows, n);
            let data = rows.take(min(rows.len() as int, 32 * caps));
            assert(read_log(data, n) =~= log) by {
                assert forall|r: int| 0 <= r < n implies #[trigger] read_log(data, n)[r] == log[r] by {
                    assert(data.subrange(32 * r, 32 * r + 32) =~= rows.subrange(
                        32 * r,
                        32 * r + 32,
                    ));
                }
            }
            assert(Db::empty().live.dom() =~= Set::empty());
            walk_keeps_step(unwalked(), log, Db::empty());
            let (d, stopped) = replay(log, Db::empty(), false);
            if stopped is None {
                crate::engine::durability::replay_keeps_all(log, d);
            }
            if n == 0 {
                assert(log.len() == 0);
            }
        }
    }
}

} // verus!
