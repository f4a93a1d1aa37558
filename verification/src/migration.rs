//! The migration path: legacy rows in, current rows out, by a pure function.
//!
//! A migration runs inside the new binary, offline, single-writer. The row
//! function is total by construction: every value the old type can hold maps
//! to exactly one value of the new type.
//!
//! Widening policy (append, never reorder, never remove): the legacy 8-byte
//! `value` keeps its offset and its bytes; the new tail is zero-filled.

use crate::bytes::{put, zeros};
use crate::defect;
use crate::engine::durability::replays_to;
use crate::engine::laws::contents;
use crate::engine::log::{all_some, Db, Log};
use crate::engine::model::{row_slot, sb_chunk, sb_slot, sb_write};
use crate::engine::types::{Capacities, DbError, FileId, Input, Output, Reply, WriteBuf};
use crate::engine::Engine;
use crate::generated::{record_parsed, records, records_v1};
use crate::layout::{decode_sb_any, sb_parsed, Manifest, ROW_SIZE, SB_ZONE_SIZE, SCHEMA_HASH};
use crate::slot::{encode_slot, slot_image, RowKind, Slot};
use vstd::prelude::*;
use vstd::slice::slice_subrange;

verus! {

/// Legacy row width on disk (id, 8-byte value, checksum, padding).
pub const V1_ROW_SIZE: usize = records_v1::RECORDS_ROW_SIZE;

/// The legacy schema's hash, as it appears in a legacy file's superblock.
pub const V1_SCHEMA_HASH: u64 = records_v1::RECORDS_SCHEMA_HASH;

/// Legacy payload width.
pub const V1_VALUE_LEN: usize = 8;

/// A legacy payload, widened.
pub open spec fn widened(value: Seq<u8>) -> Seq<u8> {
    value + zeros(8)
}

/// The pure migration: total over every legacy row, by construction.
pub fn migrate_row(old: records_v1::RecordsRow) -> (row: records::RecordsRow)
    ensures
        row.id == old.id,
        row.value@ == widened(old.value@),
{
    let mut value: [u8; 16] = [0u8; 16];
    put(&mut value, 0, &old.value);
    assert(value@ =~= widened(old.value@));
    records::RecordsRow { id: old.id, value }
}

/// Where the migration is between inputs.
#[derive(Debug, Clone, Copy, PartialEq, Eq)]
pub enum MState {
    New,
    ReadSb,
    ReadOldRows { generation: u64, row_count: u64 },
    WriteNewRows { generation: u64, row_count: u64, next: u64 },
    FsyncNewRows { generation: u64, row_count: u64 },
    WriteSb { generation: u64, row_count: u64, copy: u8 },
    FsyncSb { row_count: u64 },
    /// An already-current file: sync rows, then superblock, before
    /// acknowledging. The copy that was read may live in a cache only.
    NoopFsyncRows { row_count: u64 },
    NoopFsyncSb { row_count: u64 },
    Done,
    Failed(DbError),
}

/// The migration's state.
#[verifier::ext_equal]
pub struct Progress {
    pub state: MState,
    pub caps: u64,
    pub rows_old_len: u64,
    /// The legacy rows, once they have been read and verified.
    pub old: Seq<u8>,
}

/// Row `i` of a legacy rows file.
pub open spec fn legacy_row(old: Seq<u8>, i: int) -> Option<(u64, Seq<u8>)> {
    record_parsed(old.subrange(24 * i, 24 * i + 24), 8, 24)
}

/// The slot that a legacy row becomes.
pub open spec fn migrated_slot(old: Seq<u8>, i: int) -> Slot {
    let (id, value) = legacy_row(old, i)->0;
    row_slot(RowKind::Record, id, widened(value))
}

/// A trusted superblock copy of any schema: structurally valid, ever
/// committed, and in a slot of its generation's pair.
pub open spec fn copy_at(data: Seq<u8>, slot: int) -> Option<(Manifest, u64)> {
    match sb_chunk(data, slot) {
        None => None,
        Some(chunk) => match sb_parsed(chunk) {
            None => None,
            Some((m, schema)) => if m.generation > 0 && (slot == sb_slot(m.generation, 0) || slot
                == sb_slot(m.generation, 1)) {
                Some((m, schema))
            } else {
                None
            },
        },
    }
}

/// The newest copy of a schema among the first `n` slots: generation and row
/// count. Of equals, the first.
pub open spec fn newest_of(data: Seq<u8>, schema: u64, n: int) -> Option<(u64, u64)>
    decreases n,
{
    if n <= 0 {
        None
    } else {
        let before = newest_of(data, schema, n - 1);
        match copy_at(data, n - 1) {
            Some((m, s)) => if s == schema && (before is None || m.generation > (before->0).0) {
                Some((m.generation, m.row_count))
            } else {
                before
            },
            None => before,
        }
    }
}

/// The last schema among the first `n` slots that this binary knows nothing
/// about.
pub open spec fn unknown_schema(data: Seq<u8>, n: int) -> Option<u64>
    decreases n,
{
    if n <= 0 {
        None
    } else {
        match copy_at(data, n - 1) {
            Some((_, s)) => if s != SCHEMA_HASH && s != V1_SCHEMA_HASH {
                Some(s)
            } else {
                unknown_schema(data, n - 1)
            },
            None => unknown_schema(data, n - 1),
        }
    }
}

impl Progress {
    pub open spec fn finish(self, result: Result<u64, DbError>) -> (Progress, Reply) {
        (
            Progress {
                state: match result {
                    Ok(_) => MState::Done,
                    Err(e) => MState::Failed(e),
                },
                ..self
            },
            Reply::MigrateDone { result },
        )
    }

    pub open spec fn start(self, superblock_len: u64, rows_old_len: u64) -> (Progress, Reply) {
        let p = Progress { rows_old_len, ..self };
        if superblock_len == 0 {
            if rows_old_len == 0 {
                p.finish(Ok(0))
            } else {
                p.finish(Err(DbError::Corrupt { what: defect::LEGACY_WITHOUT_SUPERBLOCK }))
            }
        } else {
            (
                Progress { state: MState::ReadSb, ..p },
                Reply::Read { file: FileId::Superblock, offset: 0, len: 256 },
            )
        }
    }

    pub open spec fn flip(self, generation: u64, row_count: u64, copy: u8) -> (Progress, Reply) {
        (
            Progress { state: MState::WriteSb { generation, row_count, copy }, ..self },
            sb_write((generation + 1) as u64, row_count, self.caps, copy as int),
        )
    }

    pub open spec fn on_sb(self, data: Seq<u8>) -> (Progress, Reply) {
        if let Some((_, rows)) = newest_of(data, SCHEMA_HASH, 4) {
            (
                Progress { state: MState::NoopFsyncRows { row_count: rows }, ..self },
                Reply::Fsync { file: FileId::Rows },
            )
        } else {
            match newest_of(data, V1_SCHEMA_HASH, 4) {
                None => match unknown_schema(data, 4) {
                    Some(file_schema) => self.finish(
                        Err(DbError::SchemaMismatch { file_schema, binary_schema: SCHEMA_HASH }),
                    ),
                    None => if self.rows_old_len > 0 {
                        self.finish(
                            Err(DbError::Corrupt { what: defect::LEGACY_WITHOUT_VALID_SUPERBLOCK }),
                        )
                    } else {
                        self.finish(Ok(0))
                    },
                },
                Some((generation, row_count)) => if generation == u64::MAX {
                    self.finish(Err(DbError::Corrupt { what: defect::GENERATIONS_EXHAUSTED }))
                } else if row_count > self.caps {
                    self.finish(
                        Err(
                            DbError::CapacityBelowData {
                                required: row_count,
                                configured: self.caps,
                            },
                        ),
                    )
                } else if 24 * row_count > self.rows_old_len {
                    self.finish(Err(DbError::Corrupt { what: defect::LEGACY_ROWS_MISSING }))
                } else if row_count == 0 {
                    self.flip(generation, 0, 0)
                } else {
                    (
                        Progress { state: MState::ReadOldRows { generation, row_count }, ..self },
                        Reply::Read {
                            file: FileId::RowsOld,
                            offset: 0,
                            len: (24 * row_count) as u64,
                        },
                    )
                },
            }
        }
    }

    pub open spec fn on_old_rows(self, generation: u64, row_count: u64, data: Seq<u8>) -> (
        Progress,
        Reply,
    ) {
        if data.len() < 24 * row_count {
            self.finish(Err(DbError::Corrupt { what: defect::LEGACY_SHORT_READ }))
        } else {
            let p = Progress { old: data.take(24 * row_count), ..self };
            if exists|i: int| 0 <= i < row_count && (#[trigger] legacy_row(p.old, i)) is None {
                p.finish(Err(DbError::Corrupt { what: defect::LEGACY_ROW_CHECKSUM }))
            } else {
                p.stage(generation, row_count, 0)
            }
        }
    }

    /// Write the next row, or sync if there is none left.
    pub open spec fn stage(self, generation: u64, row_count: u64, next: int) -> (Progress, Reply) {
        if next == row_count {
            (
                Progress { state: MState::FsyncNewRows { generation, row_count }, ..self },
                Reply::Fsync { file: FileId::Rows },
            )
        } else {
            (
                Progress {
                    state: MState::WriteNewRows { generation, row_count, next: next as u64 },
                    ..self
                },
                Reply::Write {
                    file: FileId::Rows,
                    offset: (32 * next) as u64,
                    data: slot_image(migrated_slot(self.old, next)),
                },
            )
        }
    }

    /// What holds of every state between inputs.
    pub open spec fn ok(self) -> bool {
        &&& migratable(self.caps)
        &&& match self.state {
            MState::ReadOldRows { generation, row_count } => {
                &&& 0 < generation < u64::MAX
                &&& row_count <= self.caps
            },
            MState::WriteNewRows { generation, row_count, next } => {
                &&& 0 < generation < u64::MAX
                &&& next < row_count <= self.caps
                &&& forall|i: int|
                    0 <= i < row_count ==> (#[trigger] legacy_row(self.old, i)) is Some
            },
            MState::FsyncNewRows { generation, .. } => 0 < generation < u64::MAX,
            MState::WriteSb { generation, copy, .. } => 0 < generation < u64::MAX && copy < 2,
            _ => true,
        }
    }

    /// The file that the request in flight is about.
    pub open spec fn awaits(self) -> Option<FileId> {
        match self.state {
            MState::ReadSb
            | MState::WriteSb { .. }
            | MState::FsyncSb { .. }
            | MState::NoopFsyncSb { .. } => Some(FileId::Superblock),
            MState::ReadOldRows { .. } => Some(FileId::RowsOld),
            MState::WriteNewRows { .. }
            | MState::FsyncNewRows { .. }
            | MState::NoopFsyncRows { .. } => Some(FileId::Rows),
            MState::New | MState::Done | MState::Failed(_) => None,
        }
    }

    /// The inputs that may come: completions of the request in flight.
    pub open spec fn accepts(self, input: Input) -> bool {
        match input {
            Input::ReadDone { file, .. } => self.awaits() == Some(file) && (self.state is ReadSb
                || self.state is ReadOldRows),
            Input::WriteDone { file } => self.awaits() == Some(file) && (
            self.state is WriteNewRows || self.state is WriteSb),
            Input::FsyncDone { file } => self.awaits() == Some(file) && (
            self.state is FsyncNewRows || self.state is FsyncSb || self.state is NoopFsyncRows
                || self.state is NoopFsyncSb),
            Input::IoFailed { .. } => self.awaits() is Some,
            _ => false,
        }
    }

    /// The next state and the reply.
    pub open spec fn step(self, input: Input) -> (Progress, Reply) {
        match input {
            Input::IoFailed { file } => self.finish(Err(DbError::IoFailed { file })),
            Input::ReadDone { data, .. } => match self.state {
                MState::ReadOldRows { generation, row_count } => self.on_old_rows(
                    generation,
                    row_count,
                    data@,
                ),
                _ => self.on_sb(data@),
            },
            _ => match self.state {
                MState::WriteNewRows { generation, row_count, next } => self.stage(
                    generation,
                    row_count,
                    next + 1,
                ),
                MState::FsyncNewRows { generation, row_count } => self.flip(
                    generation,
                    row_count,
                    0,
                ),
                MState::WriteSb { generation, row_count, copy } => if copy == 0 {
                    self.flip(generation, row_count, 1)
                } else {
                    (
                        Progress { state: MState::FsyncSb { row_count }, ..self },
                        Reply::Fsync { file: FileId::Superblock },
                    )
                },
                MState::NoopFsyncRows { row_count } => (
                    Progress { state: MState::NoopFsyncSb { row_count }, ..self },
                    Reply::Fsync { file: FileId::Superblock },
                ),
                MState::FsyncSb { row_count } => self.finish(Ok(row_count)),
                MState::NoopFsyncSb { row_count } => self.finish(Ok(row_count)),
                _ => arbitrary(),
            },
        }
    }
}

/// The offline migration state machine: the same lockstep protocol as the
/// engine, driven by the host under the single-writer lock.
///
/// - The legacy rows file is read, never written.
/// - The new rows file is fully written and synced before the superblock
///   flips.
/// - The flip writes the next generation, which lives in the other slot pair,
///   so the legacy generation's copies are never touched.
/// - Running against an already-migrated file writes nothing.
pub struct MigrationEngine {
    state: MState,
    caps: Capacities,
    /// Arena for the legacy rows file: the one allocation, made at
    /// construction.
    old: Vec<u8>,
    held: Ghost<nat>,
    rows_old_len: u64,
}

impl View for MigrationEngine {
    type V = Progress;

    closed spec fn view(&self) -> Progress {
        Progress {
            state: self.state,
            caps: self.caps.rows,
            rows_old_len: self.rows_old_len,
            old: self.old@.take(self.held@ as int),
        }
    }
}

/// The row capacities that a migration can be made for.
pub open spec fn migratable(rows: u64) -> bool {
    rows > 0 && 32 * rows <= usize::MAX
}

impl MigrationEngine {
    pub closed spec fn inv(&self) -> bool {
        &&& migratable(self.caps.rows)
        &&& self.old@.len() == 24 * self.caps.rows
        &&& self.held@ <= self.old@.len()
        &&& match self.state {
            MState::ReadOldRows { generation, row_count } => {
                &&& 0 < generation < u64::MAX
                &&& row_count <= self.caps.rows
            },
            MState::WriteNewRows { generation, row_count, next } => {
                &&& 0 < generation < u64::MAX
                &&& next < row_count <= self.caps.rows
                &&& self.verified(row_count)
            },
            MState::FsyncNewRows { generation, .. } => 0 < generation < u64::MAX,
            MState::WriteSb { generation, copy, .. } => 0 < generation < u64::MAX && copy < 2,
            _ => true,
        }
    }

    /// The arena holds that many verified legacy rows.
    spec fn verified(&self, row_count: u64) -> bool {
        &&& self.held@ == 24 * row_count
        &&& forall|i: int|
            0 <= i < row_count ==> (#[trigger] legacy_row(
                self.old@.take(self.held@ as int),
                i,
            )) is Some
    }

    /// What the invariant says of the state.
    pub proof fn facts(&self)
        requires
            self.inv(),
        ensures
            self@.ok(),
    {
    }

    pub fn new(caps: Capacities) -> (m: Self)
        requires
            migratable(caps.rows),
        ensures
            m.inv(),
            m@ == (Progress {
                state: MState::New,
                caps: caps.rows,
                rows_old_len: 0,
                old: Seq::empty(),
            }),
    {
        let bytes: usize = caps.rows as usize * 24;
        let m = MigrationEngine {
            state: MState::New,
            caps,
            old: vec![0u8; bytes],
            held: Ghost(0),
            rows_old_len: 0,
        };
        assert(m@.old =~= Seq::empty());
        m
    }

    /// Begin. The host reports existing file sizes: the shared superblock's
    /// and the legacy rows file's.
    pub fn start(&mut self, superblock_len: u64, rows_old_len: u64) -> (out: Output)
        requires
            old(self).inv(),
            old(self)@.state is New,
        ensures
            final(self).inv(),
            (final(self)@, out@) == old(self)@.start(superblock_len, rows_old_len),
            out.well_formed(),
    {
        self.rows_old_len = rows_old_len;
        if superblock_len == 0 {
            if rows_old_len == 0 {
                return self.finish(Ok(0));
            }
            return self.finish(Err(DbError::Corrupt { what: defect::LEGACY_WITHOUT_SUPERBLOCK }));
        }
        self.state = MState::ReadSb;
        Output::Read { file: FileId::Superblock, offset: 0, len: SB_ZONE_SIZE as u64 }
    }

    fn finish(&mut self, result: Result<u64, DbError>) -> (out: Output)
        requires
            old(self).inv(),
        ensures
            final(self).inv(),
            (final(self)@, out@) == old(self)@.finish(result),
            out.well_formed(),
    {
        self.state = match result {
            Ok(_) => MState::Done,
            Err(e) => MState::Failed(e),
        };
        Output::MigrateDone { result }
    }

    /// Take one completion and give the next request, or the end.
    pub fn tick(&mut self, input: Input<'_>) -> (out: Output)
        requires
            old(self).inv(),
            old(self)@.accepts(input),
        ensures
            final(self).inv(),
            (final(self)@, out@) == old(self)@.step(input),
            out.well_formed(),
    {
        match input {
            Input::IoFailed { file } => self.finish(Err(DbError::IoFailed { file })),
            Input::ReadDone { data, .. } => match self.state {
                MState::ReadOldRows { generation, row_count } => self.on_old_rows(
                    generation,
                    row_count,
                    data,
                ),
                _ => self.on_sb(data),
            },
            _ => match self.state {
                MState::WriteNewRows { generation, row_count, next } => self.stage_row_or_fsync(
                    generation,
                    row_count,
                    next + 1,
                ),
                MState::FsyncNewRows { generation, row_count } => self.flip(
                    generation,
                    row_count,
                    0,
                ),
                MState::WriteSb { generation, row_count, copy } => {
                    if copy == 0 {
                        return self.flip(generation, row_count, 1);
                    }
                    self.state = MState::FsyncSb { row_count };
                    Output::Fsync { file: FileId::Superblock }
                },
                MState::NoopFsyncRows { row_count } => {
                    self.state = MState::NoopFsyncSb { row_count };
                    Output::Fsync { file: FileId::Superblock }
                },
                MState::FsyncSb { row_count } => self.finish(Ok(row_count)),
                MState::NoopFsyncSb { row_count } => self.finish(Ok(row_count)),
                _ => Output::Fsync { file: FileId::Superblock },
            },
        }
    }

    /// Write one copy of the superblock that names the new schema.
    fn flip(&mut self, generation: u64, row_count: u64, copy: u8) -> (out: Output)
        requires
            old(self).inv(),
            0 < generation < u64::MAX,
            copy < 2,
        ensures
            final(self).inv(),
            (final(self)@, out@) == old(self)@.flip(generation, row_count, copy),
            out.well_formed(),
    {
        self.state = MState::WriteSb { generation, row_count, copy };
        Engine::sb_copy_write(generation + 1, row_count, self.caps.rows, copy)
    }

    fn on_sb(&mut self, data: &[u8]) -> (out: Output)
        requires
            old(self).inv(),
        ensures
            final(self).inv(),
            (final(self)@, out@) == old(self)@.on_sb(data@),
            out.well_formed(),
    {
        let mut best_current: Option<(u64, u64)> = None;
        let mut best_legacy: Option<(u64, u64)> = None;
        let mut foreign: Option<u64> = None;
        let mut slot: usize = 0;
        while slot < 4
            invariant
                slot <= 4,
                best_current == newest_of(data@, SCHEMA_HASH, slot as int),
                best_legacy == newest_of(data@, V1_SCHEMA_HASH, slot as int),
                foreign == unknown_schema(data@, slot as int),
                best_legacy is Some ==> (best_legacy->0).0 > 0,
            decreases 4 - slot,
        {
            if data.len() >= 64 * (slot + 1) {
                let chunk = slice_subrange(data, 64 * slot, 64 * slot + 64);
                assert(sb_chunk(data@, slot as int) == Some(chunk@));
                if let Ok((copy, schema)) = decode_sb_any(chunk) {
                    if copy.generation > 0 {
                        let pair = Engine::sb_slots_for(copy.generation);
                        if pair[0] as usize == slot || pair[1] as usize == slot {
                            let found = Some((copy.generation, copy.row_count));
                            if schema == SCHEMA_HASH {
                                if Self::newer(copy.generation, best_current) {
                                    best_current = found;
                                }
                            } else if schema == V1_SCHEMA_HASH {
                                if Self::newer(copy.generation, best_legacy) {
                                    best_legacy = found;
                                }
                            } else {
                                foreign = Some(schema);
                            }
                        }
                    }
                }
            }
            slot = slot + 1;
        }
        if let Some((_, rows)) = best_current {
            self.state = MState::NoopFsyncRows { row_count: rows };
            return Output::Fsync { file: FileId::Rows };
        }
        let (generation, row_count) = match best_legacy {
            Some(found) => found,
            None => {
                if let Some(file_schema) = foreign {
                    return self.finish(
                        Err(DbError::SchemaMismatch { file_schema, binary_schema: SCHEMA_HASH }),
                    );
                }
                if self.rows_old_len > 0 {
                    return self.finish(
                        Err(DbError::Corrupt { what: defect::LEGACY_WITHOUT_VALID_SUPERBLOCK }),
                    );
                }
                return self.finish(Ok(0));
            },
        };
        if generation == u64::MAX {
            return self.finish(Err(DbError::Corrupt { what: defect::GENERATIONS_EXHAUSTED }));
        }
        if row_count > self.caps.rows {
            return self.finish(
                Err(
                    DbError::CapacityBelowData {
                        required: row_count,
                        configured: self.caps.rows,
                    },
                ),
            );
        }
        let need: u64 = row_count * 24;
        if need > self.rows_old_len {
            return self.finish(Err(DbError::Corrupt { what: defect::LEGACY_ROWS_MISSING }));
        }
        if row_count == 0 {
            return self.flip(generation, 0, 0);
        }
        self.state = MState::ReadOldRows { generation, row_count };
        Output::Read { file: FileId::RowsOld, offset: 0, len: need }
    }

    fn newer(generation: u64, best: Option<(u64, u64)>) -> (yes: bool)
        ensures
            yes == (best is None || generation > (best->0).0),
    {
        match best {
            None => true,
            Some((g, _)) => generation > g,
        }
    }

    fn on_old_rows(&mut self, generation: u64, row_count: u64, data: &[u8]) -> (out: Output)
        requires
            old(self).inv(),
            old(self).state == (MState::ReadOldRows { generation, row_count }),
        ensures
            final(self).inv(),
            (final(self)@, out@) == old(self)@.on_old_rows(generation, row_count, data@),
            out.well_formed(),
    {
        let need: usize = row_count as usize * 24;
        if data.len() < need {
            return self.finish(Err(DbError::Corrupt { what: defect::LEGACY_SHORT_READ }));
        }
        let mut k: usize = 0;
        while k < need
            invariant
                k <= need <= data.len(),
                need <= self.old@.len(),
                self.old@.len() == old(self).old@.len(),
                *self == (MigrationEngine { old: self.old, ..*old(self) }),
                forall|j: int| 0 <= j < k ==> #[trigger] self.old@[j] == data@[j],
            decreases need - k,
        {
            self.old.set(k, data[k]);
            k = k + 1;
        }
        self.held = Ghost(need as nat);
        let ghost held = data@.take(24 * row_count);
        assert(self.old@.take(need as int) =~= held);
        // Every legacy row is verified before a single byte is written: a
        // migration must never invent data.
        let mut i: usize = 0;
        while i < row_count as usize
            invariant
                i <= row_count <= self.caps.rows,
                migratable(self.caps.rows),
                self.old@.len() == 24 * self.caps.rows,
                need == 24 * row_count,
                self.old@.take(need as int) == held,
                held.len() == need,
                *self == (MigrationEngine { old: self.old, held: self.held, ..*old(self) }),
                self.held@ == need,
                old(self).inv(),
                old(self).state == (MState::ReadOldRows { generation, row_count }),
                data@.len() >= need,
                held == data@.take(24 * row_count),
                forall|j: int| 0 <= j < i ==> (#[trigger] legacy_row(held, j)) is Some,
            decreases row_count - i,
        {
            let slot = slice_subrange(self.old.as_slice(), i * 24, i * 24 + 24);
            assert(slot@ =~= held.subrange(24 * i, 24 * i + 24));
            if records_v1::decode_records_row(slot).is_none() {
                assert(legacy_row(held, i as int) is None);
                return self.finish(Err(DbError::Corrupt { what: defect::LEGACY_ROW_CHECKSUM }));
            }
            assert(legacy_row(held, i as int) is Some);
            i = i + 1;
        }
        self.stage_row_or_fsync(generation, row_count, 0)
    }

    fn stage_row_or_fsync(&mut self, generation: u64, row_count: u64, next: u64) -> (out: Output)
        requires
            old(self).inv(),
            0 < generation < u64::MAX,
            next <= row_count <= old(self).caps.rows,
            old(self).verified(row_count),
        ensures
            final(self).inv(),
            (final(self)@, out@) == old(self)@.stage(generation, row_count, next as int),
            out.well_formed(),
    {
        if next == row_count {
            self.state = MState::FsyncNewRows { generation, row_count };
            return Output::Fsync { file: FileId::Rows };
        }
        let i: usize = next as usize;
        let slot = slice_subrange(self.old.as_slice(), i * 24, i * 24 + 24);
        proof {
            let held = self.old@.take(self.held@ as int);
            assert(slot@ =~= held.subrange(24 * i, 24 * i + 24));
            assert(legacy_row(held, i as int) is Some);
        }
        let mut out: [u8; ROW_SIZE] = [0u8; 32];
        if let Some(old) = records_v1::decode_records_row(slot) {
            let new = migrate_row(old);
            encode_slot(RowKind::Record, 0, 16, false, new.id, &new.value, &mut out);
        }
        self.state = MState::WriteNewRows { generation, row_count, next };
        let data = WriteBuf::from_slice(slice_subrange(&out, 0, 32));
        assert(out@.subrange(0, 32) =~= out@);
        Output::Write { file: FileId::Rows, offset: next * 32, data }
    }
}

// ---- What a migration promises ----

/// The legacy rows file is only ever read, whatever happens.
pub proof fn legacy_is_never_touched(p: Progress, input: Input)
    requires
        p.accepts(input),
    ensures
        p.step(input).1 matches Reply::Write { file, .. } ==> file != FileId::RowsOld,
        p.step(input).1 matches Reply::Fsync { file } ==> file != FileId::RowsOld,
        !(p.step(input).1 is Truncate),
{
}

/// The flip goes to the slots that the legacy generation does not occupy, and
/// only once the new rows have been synced.
pub proof fn flip_spares_the_legacy_superblock(p: Progress, input: Input)
    requires
        p.accepts(input),
        p.state matches MState::FsyncNewRows { generation, .. } ==> generation < u64::MAX,
        p.state matches MState::WriteSb { generation, .. } ==> generation < u64::MAX,
    ensures
        match p.step(input).1 {
            Reply::Write { file: FileId::Superblock, offset, .. } => match p.step(input).0.state {
                MState::WriteSb { generation, .. } => {
                    &&& offset as int / 64 != sb_slot(generation, 0)
                    &&& offset as int / 64 != sb_slot(generation, 1)
                    &&& p.state is FsyncNewRows || p.state is WriteSb || p.state is ReadSb
                },
                _ => false,
            },
            _ => true,
        },
{
}

/// A file that is current already is not written to.
pub proof fn migrating_twice_writes_nothing(p: Progress, input: Input)
    requires
        p.accepts(input),
        match p.state {
            MState::NoopFsyncRows { .. } | MState::NoopFsyncSb { .. } => true,
            MState::ReadSb => match input {
                Input::ReadDone { data, .. } => newest_of(data@, SCHEMA_HASH, 4) is Some,
                _ => false,
            },
            _ => false,
        },
    ensures
        !(p.step(input).1 is Write),
        !(p.step(input).0.state is WriteNewRows),
        !(p.step(input).0.state is WriteSb),
{
}

/// Two legacy rows with different contents stay different: nothing is lost.
pub proof fn widening_loses_nothing(a: Seq<u8>, b: Seq<u8>)
    requires
        a.len() == b.len(),
        widened(a) == widened(b),
    ensures
        a == b,
{
    assert(a =~= widened(a).take(a.len() as int));
    assert(b =~= widened(b).take(b.len() as int));
}

/// The slots of the first `n` migrated rows.
pub open spec fn migrated_log(old: Seq<u8>, n: int) -> Log {
    Seq::new(n as nat, |i: int| Some(migrated_slot(old, i)))
}

/// The legacy rows' contents, widened.
pub open spec fn legacy_contents(old: Seq<u8>, n: int) -> Map<u64, Seq<u8>>
    decreases n,
{
    if n <= 0 {
        Map::empty()
    } else {
        let (id, value) = legacy_row(old, n - 1)->0;
        legacy_contents(old, n - 1).insert(id, widened(value))
    }
}

proof fn migrated_from(old: Seq<u8>, n: int) -> (db: Db)
    requires
        n >= 0,
        n <= u64::MAX,
        24 * n <= old.len(),
        forall|i: int| 0 <= i < n ==> (#[trigger] legacy_row(old, i)) is Some,
        forall|i: int, j: int|
            0 <= i < j < n ==> (#[trigger] legacy_row(old, i)->0).0 != (#[trigger] legacy_row(
                old,
                j,
            )->0).0,
    ensures
        db.wf(),
        replays_to(migrated_log(old, n), db),
        db.kept == migrated_log(old, n),
        contents(db) == legacy_contents(old, n),
        forall|id: u64| #[trigger]
            db.live.contains_key(id) ==> exists|i: int|
                0 <= i < n && (#[trigger] legacy_row(old, i)->0).0 == id,
    decreases n,
{
    if n == 0 {
        crate::engine::log::empty_wf();
        assert(migrated_log(old, 0) =~= Seq::empty());
        assert(contents(Db::empty()) =~= Map::empty());
        Db::empty()
    } else {
        let before = migrated_from(old, n - 1);
        let slot = migrated_slot(old, n - 1);
        let (id, value) = legacy_row(old, n - 1)->0;
        assert(value.len() == 8);
        assert(!before.live.contains_key(id)) by {
            if before.live.contains_key(id) {
                let i = choose|i: int| 0 <= i < n - 1 && (#[trigger] legacy_row(old, i)->0).0 == id;
                assert((legacy_row(old, i)->0).0 != (legacy_row(old, n - 1)->0).0);
            }
        }
        let e = crate::engine::types::BatchEffect::Store {
            id,
            at: (n - 1) as u64,
            rows: 1,
            supersedes: None,
        };
        assert(all_some(seq![slot])[0] == Some(slot));
        assert(seq![slot][0] == slot);
        crate::engine::laws::one_staged(before.live, n - 1, e, slot);
        crate::engine::durability::commit_is_durable(before, seq![e], seq![slot]);
        crate::engine::laws::one_stored(before, e, slot);
        crate::engine::laws::applied_wf(before, seq![e], seq![slot]);
        let db = crate::engine::log::applied(before, seq![e], seq![slot]);
        assert(before.kept + all_some(seq![slot]) =~= migrated_log(old, n));
        crate::engine::laws::one_applied(before, e, slot);
        assert forall|x: u64| #[trigger] db.live.contains_key(x) implies exists|i: int|
            0 <= i < n && (#[trigger] legacy_row(old, i)->0).0 == x by {
            if x == id {
                assert((legacy_row(old, n - 1)->0).0 == x);
            } else {
                assert(before.live.contains_key(x));
                let i = choose|i: int| 0 <= i < n - 1 && (#[trigger] legacy_row(old, i)->0).0 == x;
                assert((legacy_row(old, i)->0).0 == x);
            }
        }
        db
    }
}

/// A migrated database opens, and holds exactly the legacy rows: each id with
/// its value, widened, in the same order.
pub proof fn migrated_rows_open(old: Seq<u8>, n: int) -> (db: Db)
    requires
        0 <= n <= u64::MAX,
        24 * n <= old.len(),
        forall|i: int| 0 <= i < n ==> (#[trigger] legacy_row(old, i)) is Some,
        forall|i: int, j: int|
            0 <= i < j < n ==> (#[trigger] legacy_row(old, i)->0).0 != (#[trigger] legacy_row(
                old,
                j,
            )->0).0,
    ensures
        replays_to(migrated_log(old, n), db),
        db.kept == migrated_log(old, n),
        contents(db) == legacy_contents(old, n),
{
    migrated_from(old, n)
}

/// A widened value has sixteen bytes: the eight that it had, and zeros behind
/// them.
pub proof fn widening_adds_zeros_behind(value: Seq<u8>)
    requires
        value.len() == 8,
    ensures
        widened(value).len() == 16,
        forall|i: int| 0 <= i < 8 ==> #[trigger] widened(value)[i] == value[i],
        forall|i: int| 8 <= i < 16 ==> #[trigger] widened(value)[i] == 0,
{
}

} // verus!
