//! What the engine does, as a function from state and input to next state and
//! reply.

use crate::bytes::zeros;
use crate::defect;
use crate::engine::log::{
    applied, extent, lookup, replay, value_at, Db, Log,
};
use crate::engine::types::{
    empty_row, BatchEffect, BatchOp, BatchReject, DbError, FileId, Input, PageView, Reply, RowView,
    WindowView,
};
use crate::layout::{manifest_verdict, sb_image, Manifest, SbDecodeError, SCHEMA_HASH};
use crate::slot::{slot_image, slot_parsed, RowKind, Slot};
use crate::trigram::{candidates, scan_top, FindCursor, Indexed, NIL};
use vstd::prelude::*;

verus! {

/// Where the engine is between inputs.
#[derive(Debug, Clone, Copy, PartialEq, Eq)]
pub enum Phase {
    New,
    InitWriteSb { copy: u8 },
    InitFsyncSb,
    RecoverReadSb,
    RecoverReadRows { generation: u64, row_count: u64 },
    RecoverTruncateRows { generation: u64, row_count: u64 },
    RecoverFsyncRows { generation: u64, row_count: u64 },
    RecoverRepairSb { generation: u64, row_count: u64, copy: u8 },
    RecoverFsyncSb { generation: u64, row_count: u64 },
    Ready,
    WriteRow { next: u16 },
    FsyncRows,
    WriteSb { copy: u8 },
    FsyncSb,
    Degraded,
    Failed(DbError),
}

/// The client operation that a commit in flight belongs to.
#[derive(Debug, Clone, Copy, PartialEq, Eq)]
pub enum Op {
    Insert { id: u64 },
    Update { id: u64 },
    Delete { id: u64 },
    Batch,
}

impl Phase {
    /// Opening has not finished.
    pub open spec fn opening(self) -> bool {
        match self {
            Phase::New
            | Phase::InitWriteSb { .. }
            | Phase::InitFsyncSb
            | Phase::RecoverReadSb
            | Phase::RecoverReadRows { .. }
            | Phase::RecoverTruncateRows { .. }
            | Phase::RecoverFsyncRows { .. }
            | Phase::RecoverRepairSb { .. }
            | Phase::RecoverFsyncSb { .. } => true,
            _ => false,
        }
    }

    /// A commit is in flight.
    pub open spec fn committing(self) -> bool {
        match self {
            Phase::WriteRow { .. } | Phase::FsyncRows | Phase::WriteSb { .. } | Phase::FsyncSb => true,
            _ => false,
        }
    }

    /// The file that the request in flight is about.
    pub open spec fn awaits(self) -> Option<FileId> {
        match self {
            Phase::InitWriteSb { .. }
            | Phase::InitFsyncSb
            | Phase::RecoverReadSb
            | Phase::RecoverRepairSb { .. }
            | Phase::RecoverFsyncSb { .. }
            | Phase::WriteSb { .. }
            | Phase::FsyncSb => Some(FileId::Superblock),
            Phase::RecoverReadRows { .. }
            | Phase::RecoverTruncateRows { .. }
            | Phase::RecoverFsyncRows { .. }
            | Phase::WriteRow { .. }
            | Phase::FsyncRows => Some(FileId::Rows),
            _ => None,
        }
    }
}

/// The engine's state.
#[verifier::ext_equal]
pub struct State {
    pub phase: Phase,
    /// The row capacity it was made with.
    pub caps: u64,
    pub generation: u64,
    /// Committed rows.
    pub row_count: u64,
    /// The capacity that the superblock declared.
    pub file_capacity: u64,
    /// The rows file's length as reported at open.
    pub opened_rows_len: u64,
    pub orphan_valid_rows: u64,
    pub orphan_rollback: bool,
    /// Which copy of the live superblock pair needs rewriting.
    pub pending_repair: Option<u8>,
    pub salvage: bool,
    /// What the committed rows amount to.
    pub db: Db,
    /// The commit in flight.
    pub op: Op,
    pub effects: Seq<BatchEffect>,
    pub slots: Seq<Slot>,
    /// Candidate rows that searches have verified so far.
    pub verified: u64,
}

pub open spec fn created(caps: u64) -> State {
    State {
        phase: Phase::New,
        caps,
        generation: 0,
        row_count: 0,
        file_capacity: caps,
        opened_rows_len: 0,
        orphan_valid_rows: 0,
        orphan_rollback: false,
        pending_repair: None,
        salvage: false,
        db: Db::empty(),
        op: Op::Batch,
        effects: Seq::empty(),
        slots: Seq::empty(),
        verified: 0,
    }
}

// ---- Opening ----

/// The superblock slot of copy 0 or 1 of a generation: generations alternate
/// between the two pairs of slots.
pub open spec fn sb_slot(generation: u64, copy: int) -> int {
    2 * (generation % 2) as int + copy
}

/// Write one copy of a superblock.
pub open spec fn sb_write(generation: u64, row_count: u64, capacity: u64, copy: int) -> Reply {
    Reply::Write {
        file: FileId::Superblock,
        offset: (64 * sb_slot(generation, copy)) as u64,
        data: sb_image(generation, row_count, SCHEMA_HASH, capacity),
    }
}

/// Slot `slot` of a superblock zone, if the zone is that long.
pub open spec fn sb_chunk(data: Seq<u8>, slot: int) -> Option<Seq<u8>> {
    if data.len() >= 64 * (slot + 1) {
        Some(data.subrange(64 * slot, 64 * slot + 64))
    } else {
        None
    }
}

/// A superblock copy counts if it decodes, was ever committed, and sits in a
/// slot of its generation's pair.
pub open spec fn sb_counts(data: Seq<u8>, slot: int) -> Option<Manifest> {
    match sb_chunk(data, slot) {
        None => None,
        Some(chunk) => match manifest_verdict(chunk) {
            Ok(m) => if m.generation > 0 && (slot == sb_slot(m.generation, 0) || slot == sb_slot(
                m.generation,
                1,
            )) {
                Some(m)
            } else {
                None
            },
            Err(_) => None,
        },
    }
}

/// The newest copy among the first `n` slots; of equals, the first.
pub open spec fn sb_newest(data: Seq<u8>, n: int) -> Option<Manifest>
    decreases n,
{
    if n <= 0 {
        None
    } else {
        let before = sb_newest(data, n - 1);
        match sb_counts(data, n - 1) {
            None => before,
            Some(m) => match before {
                None => Some(m),
                Some(b) => if m.generation > b.generation {
                    Some(m)
                } else {
                    before
                },
            },
        }
    }
}

/// The schema of the last copy of another schema among the first `n` slots.
pub open spec fn sb_foreign(data: Seq<u8>, n: int) -> Option<u64>
    decreases n,
{
    if n <= 0 {
        None
    } else {
        match sb_chunk(data, n - 1) {
            None => sb_foreign(data, n - 1),
            Some(chunk) => match manifest_verdict(chunk) {
                Err(SbDecodeError::SchemaMismatch { file_schema }) => Some(file_schema),
                _ => sb_foreign(data, n - 1),
            },
        }
    }
}

/// Is copy `copy` of the chosen superblock's pair intact?
pub open spec fn sb_healthy(data: Seq<u8>, m: Manifest, copy: int) -> bool {
    match sb_chunk(data, sb_slot(m.generation, copy)) {
        None => false,
        Some(chunk) => match manifest_verdict(chunk) {
            Ok(c) => c.generation == m.generation && c.row_count == m.row_count,
            Err(_) => false,
        },
    }
}

/// The copy to rewrite.
pub open spec fn sb_repair(data: Seq<u8>, m: Manifest) -> Option<u8> {
    if !sb_healthy(data, m, 1) {
        Some(1)
    } else if !sb_healthy(data, m, 0) {
        Some(0)
    } else {
        None
    }
}

/// The rows that the first `n` slots of a file hold.
pub open spec fn read_log(data: Seq<u8>, n: int) -> Log {
    Seq::new(n as nat, |r: int| slot_parsed(data.subrange(32 * r, 32 * r + 32)))
}

/// Readable rows among the first `n` slots.
pub open spec fn readable(data: Seq<u8>, n: int) -> int
    decreases n,
{
    if n <= 0 {
        0
    } else {
        readable(data, n - 1) + if read_log(data, n)[n - 1] is Some {
            1int
        } else {
            0
        }
    }
}

/// Two readable rows that cannot both stem from one interrupted commit: they
/// disagree about where it would have ended.
pub open spec fn rollback_evidence(data: Seq<u8>, n: int) -> bool {
    exists|i: int, j: int| 0 <= i < n && 0 <= j < n && #[trigger] disagree(read_log(data, n), i, j)
}

pub open spec fn disagree(log: Log, i: int, j: int) -> bool {
    log[i] is Some && log[j] is Some && i + (log[i]->0).span != j + (log[j]->0).span
}

pub open spec fn min(a: int, b: int) -> int {
    if a <= b {
        a
    } else {
        b
    }
}

impl State {
    pub open spec fn fail_open(self, error: DbError) -> (State, Reply) {
        (
            State { phase: Phase::Failed(error), ..self },
            Reply::OpenDone { result: Err(error) },
        )
    }

    pub open spec fn init_sb(self) -> (State, Reply) {
        (
            State { phase: Phase::InitWriteSb { copy: 0 }, ..self },
            sb_write(1, 0, self.caps, 0),
        )
    }

    pub open spec fn open(self, superblock_len: u64, rows_len: u64) -> (State, Reply) {
        let s = State { opened_rows_len: rows_len, ..self };
        if superblock_len == 0 {
            if rows_len != 0 {
                s.fail_open(DbError::Corrupt { what: defect::ROWS_WITHOUT_SUPERBLOCK })
            } else {
                s.init_sb()
            }
        } else {
            (
                State { phase: Phase::RecoverReadSb, ..s },
                Reply::Read { file: FileId::Superblock, offset: 0, len: 256 },
            )
        }
    }

    /// Make what recovery found durable before relying on it: drop the rows
    /// that no superblock references, then sync.
    pub open spec fn settle(self, generation: u64, row_count: u64) -> (State, Reply) {
        if self.opened_rows_len > 32 * row_count {
            (
                State { phase: Phase::RecoverTruncateRows { generation, row_count }, ..self },
                Reply::Truncate { file: FileId::Rows, len: (32 * row_count) as u64 },
            )
        } else {
            (
                State { phase: Phase::RecoverFsyncRows { generation, row_count }, ..self },
                Reply::Fsync { file: FileId::Rows },
            )
        }
    }

    pub open spec fn recover_sb(self, data: Seq<u8>) -> (State, Reply) {
        match sb_newest(data, 4) {
            None => {
                let s = State { pending_repair: None, ..self };
                match sb_foreign(data, 4) {
                    Some(file_schema) => s.fail_open(
                        DbError::SchemaMismatch { file_schema, binary_schema: SCHEMA_HASH },
                    ),
                    None => if self.opened_rows_len > 0 {
                        s.fail_open(DbError::Corrupt { what: defect::ROWS_WITHOUT_VALID_SUPERBLOCK })
                    } else {
                        s.init_sb()
                    },
                }
            },
            Some(m) => {
                let s = State {
                    pending_repair: sb_repair(data, m),
                    file_capacity: m.capacity,
                    ..self
                };
                if m.row_count > self.caps {
                    s.fail_open(
                        DbError::CapacityBelowData { required: m.row_count, configured: self.caps },
                    )
                } else if 32 * m.row_count > self.opened_rows_len {
                    s.fail_open(DbError::Corrupt { what: defect::ROWS_MISSING })
                } else {
                    let len = min(self.opened_rows_len as int, 32 * self.caps);
                    if len == 0 {
                        s.settle(m.generation, 0)
                    } else {
                        (
                            State {
                                phase: Phase::RecoverReadRows {
                                    generation: m.generation,
                                    row_count: m.row_count,
                                },
                                ..s
                            },
                            Reply::Read { file: FileId::Rows, offset: 0, len: len as u64 },
                        )
                    }
                }
            },
        }
    }

    pub open spec fn recover_rows(self, generation: u64, row_count: u64, data: Seq<u8>) -> (
        State,
        Reply,
    ) {
        if data.len() < 32 * row_count {
            self.fail_open(DbError::Corrupt { what: defect::SHORT_READ })
        } else {
            let (db, stopped) = replay(
                read_log(data, row_count as int),
                Db::empty(),
                self.salvage,
            );
            match stopped {
                Some(what) => State { db, ..self }.fail_open(DbError::Corrupt { what }),
                None => {
                    let past = data.skip(32 * row_count);
                    let n = past.len() as int / 32;
                    let s = State {
                        db,
                        orphan_valid_rows: readable(past, n) as u64,
                        orphan_rollback: rollback_evidence(past, n),
                        ..self
                    };
                    if db.quarantined > 0 {
                        State { pending_repair: None, ..s }.finish_open(generation, row_count)
                    } else {
                        s.settle(generation, row_count)
                    }
                },
            }
        }
    }

    pub open spec fn finish_open(self, generation: u64, row_count: u64) -> (State, Reply) {
        (
            State {
                generation,
                row_count,
                phase: if self.db.quarantined > 0 {
                    Phase::Degraded
                } else {
                    Phase::Ready
                },
                ..self
            },
            Reply::OpenDone { result: Ok(row_count) },
        )
    }

    // ---- Writing ----

    /// Why a write is refused outright, if it is.
    pub open spec fn write_gate(self) -> Option<DbError> {
        if self.phase.opening() {
            Some(DbError::NotOpen)
        } else if self.phase.committing() {
            Some(DbError::Busy)
        } else {
            match self.phase {
                Phase::Degraded => Some(
                    DbError::Degraded { quarantined: self.db.quarantined as u64 },
                ),
                Phase::Failed(e) => Some(e),
                _ => None,
            }
        }
    }

    pub open spec fn full(self) -> DbError {
        DbError::Full { entity: "records", capacity: self.caps, dead: self.db.dead() as u64 }
    }

    pub open spec fn row_write(self, next: int) -> Reply {
        Reply::Write {
            file: FileId::Rows,
            offset: (32 * (self.row_count + next)) as u64,
            data: slot_image(self.slots[next]),
        }
    }

    /// Start a commit: the first of its rows is written.
    pub open spec fn begin(self, op: Op, effects: Seq<BatchEffect>, slots: Seq<Slot>) -> (
        State,
        Reply,
    ) {
        let s = State { phase: Phase::WriteRow { next: 0 }, op, effects, slots, ..self };
        (s, s.row_write(0))
    }

    pub open spec fn insert(self, id: u64, value: Seq<u8>) -> (State, Reply) {
        match self.write_gate() {
            Some(e) => (self, Reply::InsertDone { id, result: Err(e) }),
            None => if self.db.live.contains_key(id) {
                (self, Reply::InsertDone { id, result: Err(DbError::DuplicateId { id }) })
            } else if self.row_count == self.caps {
                (self, Reply::InsertDone { id, result: Err(self.full()) })
            } else {
                self.begin(
                    Op::Insert { id },
                    seq![BatchEffect::Store { id, at: self.row_count, rows: 1, supersedes: None }],
                    seq![row_slot(RowKind::Record, id, value)],
                )
            },
        }
    }

    pub open spec fn update(self, id: u64, value: Seq<u8>) -> (State, Reply) {
        match self.write_gate() {
            Some(e) => (self, Reply::UpdateDone { id, result: Err(e) }),
            None => if !self.db.live.contains_key(id) {
                (self, Reply::UpdateDone { id, result: Err(DbError::NotFound { id }) })
            } else if self.row_count == self.caps {
                (self, Reply::UpdateDone { id, result: Err(self.full()) })
            } else {
                self.begin(
                    Op::Update { id },
                    seq![
                        BatchEffect::Store {
                            id,
                            at: self.row_count,
                            rows: 1,
                            supersedes: Some(self.db.live[id]),
                        },
                    ],
                    seq![row_slot(RowKind::Update, id, value)],
                )
            },
        }
    }

    pub open spec fn delete(self, id: u64) -> (State, Reply) {
        match self.write_gate() {
            Some(e) => (self, Reply::DeleteDone { id, result: Err(e) }),
            None => if !self.db.live.contains_key(id) {
                (self, Reply::DeleteDone { id, result: Err(DbError::NotFound { id }) })
            } else if self.row_count == self.caps {
                (self, Reply::DeleteDone { id, result: Err(self.full()) })
            } else {
                self.begin(
                    Op::Delete { id },
                    seq![
                        BatchEffect::Delete {
                            id,
                            at: self.row_count,
                            record_row: self.db.live[id],
                        },
                    ],
                    seq![tombstone_slot(id)],
                )
            },
        }
    }

    pub open spec fn batch(self, ops: Seq<BatchOp>) -> (State, Reply) {
        match self.write_gate() {
            Some(error) => (
                self,
                Reply::BatchDone { rows: 0, result: Err(BatchReject { at: 0, error }) },
            ),
            None => if ops.len() == 0 {
                (self, Reply::BatchDone { rows: 0, result: Ok(()) })
            } else if ops.len() > 128 {
                (
                    self,
                    Reply::BatchDone {
                        rows: 0,
                        result: Err(
                            BatchReject {
                                at: 128,
                                error: DbError::BatchTooLong { rows: ops.len() as u64, max: 128 },
                            },
                        ),
                    },
                )
            } else {
                match self.planned(ops, ops.len() as int) {
                    Err(reject) => (self, Reply::BatchDone { rows: 0, result: Err(reject) }),
                    Ok(p) => if p.effects.len() == 0 {
                        (self, Reply::BatchDone { rows: 0, result: Ok(()) })
                    } else {
                        self.begin(Op::Batch, p.effects, spanned(p.slots))
                    },
                }
            },
        }
    }

    /// What the first `n` operations of a batch come to, each validated
    /// against the state that the ones in front of it leave.
    pub open spec fn planned(self, ops: Seq<BatchOp>, n: int) -> Result<Plan, BatchReject>
        decreases n,
    {
        if n <= 0 {
            Ok(Plan { effects: Seq::empty(), slots: Seq::empty(), live: self.db.live })
        } else {
            match self.planned(ops, n - 1) {
                Err(reject) => Err(reject),
                Ok(p) => match self.plan_op(p, ops[n - 1]) {
                    Err(error) => Err(BatchReject { at: (n - 1) as u16, error }),
                    Ok(q) => Ok(q),
                },
            }
        }
    }

    /// Validate one operation against what the staged ones leave: first its id,
    /// then the room it needs.
    pub open spec fn plan_op(self, p: Plan, op: BatchOp) -> Result<Plan, DbError> {
        let bytes = op_bytes(op);
        let need = op_rows(op);
        if bytes.len() > 2048 {
            Err(DbError::ValueTooLong { len: bytes.len() as u32, max: 2048 })
        } else {
            match id_error(p.live, op) {
                Some(error) => Err(error),
                None => if op is Remove && !p.live.contains_key(op_key(op)) {
                    Ok(p)
                } else if self.row_count + p.slots.len() + need > self.caps {
                    Err(self.full())
                } else if p.slots.len() + need > 128 {
                    Err(DbError::BatchTooLong { rows: (p.slots.len() + need) as u64, max: 128 })
                } else if op is Delete || op is Remove {
                    Ok(p.delete(self.row_count, op_key(op)))
                } else {
                    Ok(p.store(self.row_count, op_key(op), bytes, need))
                },
            }
        }
    }

    /// The reply that ends the commit in flight.
    pub open spec fn done(self, error: Option<DbError>) -> Reply {
        let result = match error {
            None => Ok(()),
            Some(e) => Err(e),
        };
        match self.op {
            Op::Insert { id } => Reply::InsertDone { id, result },
            Op::Update { id } => Reply::UpdateDone { id, result },
            Op::Delete { id } => Reply::DeleteDone { id, result },
            Op::Batch => match error {
                None => Reply::BatchDone { rows: self.slots.len() as u64, result: Ok(()) },
                Some(error) => Reply::BatchDone {
                    rows: 0,
                    result: Err(BatchReject { at: 0, error }),
                },
            },
        }
    }

    pub open spec fn idle(self) -> State {
        State { op: Op::Batch, effects: Seq::empty(), slots: Seq::empty(), ..self }
    }

    /// The superblock is durable: the commit takes effect, all of it at once.
    pub open spec fn commit(self) -> (State, Reply) {
        (
            State {
                phase: Phase::Ready,
                generation: (self.generation + 1) as u64,
                row_count: (self.row_count + self.slots.len()) as u64,
                db: applied(self.db, self.effects, self.slots),
                ..self.idle()
            },
            self.done(None),
        )
    }

    pub open spec fn commit_sb(self, copy: int) -> Reply {
        sb_write(
            (self.generation + 1) as u64,
            (self.row_count + self.slots.len()) as u64,
            self.caps,
            copy,
        )
    }

    // ---- Completions ----

    pub open spec fn read_done(self, data: Seq<u8>) -> (State, Reply) {
        match self.phase {
            Phase::RecoverReadRows { generation, row_count } => self.recover_rows(
                generation,
                row_count,
                data,
            ),
            _ => self.recover_sb(data),
        }
    }

    pub open spec fn write_done(self) -> (State, Reply) {
        match self.phase {
            Phase::InitWriteSb { copy } => if copy == 0 {
                (
                    State { phase: Phase::InitWriteSb { copy: 1 }, ..self },
                    sb_write(1, 0, self.caps, 1),
                )
            } else {
                (
                    State { phase: Phase::InitFsyncSb, ..self },
                    Reply::Fsync { file: FileId::Superblock },
                )
            },
            Phase::RecoverRepairSb { generation, row_count, .. } => (
                State { phase: Phase::RecoverFsyncSb { generation, row_count }, ..self },
                Reply::Fsync { file: FileId::Superblock },
            ),
            Phase::WriteRow { next } => if next + 1 < self.slots.len() {
                (
                    State { phase: Phase::WriteRow { next: (next + 1) as u16 }, ..self },
                    self.row_write(next + 1),
                )
            } else {
                (
                    State { phase: Phase::FsyncRows, ..self },
                    Reply::Fsync { file: FileId::Rows },
                )
            },
            Phase::WriteSb { copy } => if copy == 0 {
                (State { phase: Phase::WriteSb { copy: 1 }, ..self }, self.commit_sb(1))
            } else {
                (
                    State { phase: Phase::FsyncSb, ..self },
                    Reply::Fsync { file: FileId::Superblock },
                )
            },
            _ => arbitrary(),
        }
    }

    pub open spec fn fsync_done(self) -> (State, Reply) {
        match self.phase {
            Phase::InitFsyncSb => self.finish_open(1, 0),
            Phase::RecoverFsyncRows { generation, row_count } => match self.pending_repair {
                Some(copy) => (
                    State {
                        phase: Phase::RecoverRepairSb { generation, row_count, copy },
                        pending_repair: None,
                        ..self
                    },
                    sb_write(generation, row_count, self.caps, copy as int),
                ),
                None => (
                    State { phase: Phase::RecoverFsyncSb { generation, row_count }, ..self },
                    Reply::Fsync { file: FileId::Superblock },
                ),
            },
            Phase::RecoverFsyncSb { generation, row_count } => self.finish_open(
                generation,
                row_count,
            ),
            Phase::FsyncRows => (
                State { phase: Phase::WriteSb { copy: 0 }, ..self },
                self.commit_sb(0),
            ),
            Phase::FsyncSb => self.commit(),
            _ => arbitrary(),
        }
    }

    pub open spec fn truncate_done(self) -> (State, Reply) {
        match self.phase {
            Phase::RecoverTruncateRows { generation, row_count } => (
                State {
                    opened_rows_len: (32 * row_count) as u64,
                    phase: Phase::RecoverFsyncRows { generation, row_count },
                    ..self
                },
                Reply::Fsync { file: FileId::Rows },
            ),
            _ => arbitrary(),
        }
    }

    /// The request in flight failed: whatever it belonged to fails, and so
    /// does everything from here on.
    pub open spec fn io_failed(self, file: FileId) -> (State, Reply) {
        let error = DbError::IoFailed { file };
        if self.phase.committing() {
            (
                State { phase: Phase::Failed(error), ..self.idle() },
                self.done(Some(error)),
            )
        } else {
            self.fail_open(error)
        }
    }

    // ---- Reading ----

    /// Why a read is refused outright, if it is.
    pub open spec fn read_gate(self) -> Option<DbError> {
        if self.phase.opening() {
            Some(DbError::NotOpen)
        } else if self.phase.committing() {
            Some(DbError::Busy)
        } else {
            match self.phase {
                Phase::Failed(e) => Some(e),
                _ => None,
            }
        }
    }

    pub open spec fn get(self, id: u64, offset: u32) -> Reply {
        match self.read_gate() {
            Some(e) => Reply::GetDone { id, result: Err(e) },
            None => if self.db.live.contains_key(id) {
                Reply::GetDone {
                    id,
                    result: Ok(Some(window(self.db.kept, self.db.live[id] as int, offset))),
                }
            } else if self.phase == Phase::Degraded {
                Reply::GetDone {
                    id,
                    result: Err(DbError::Degraded { quarantined: self.db.quarantined as u64 }),
                }
            } else {
                Reply::GetDone { id, result: Ok(None) }
            },
        }
    }

    pub open spec fn range(self, lo: u64, hi: u64) -> Reply {
        match self.read_gate() {
            Some(e) => Reply::RangeDone { result: Err(e) },
            None => {
                let ids = ids_between(self.db.live, lo as int, hi as int);
                let n = min(ids.len() as int, 8);
                Reply::RangeDone {
                    result: Ok(
                        PageView {
                            items: page_items(
                                self.db.kept,
                                ids.take(n).map_values(|id: u64| self.db.live[id]),
                            ),
                            count: n as u8,
                            next: if ids.len() > 8 {
                                Some(ids[8])
                            } else {
                                None
                            },
                            incomplete: self.db.quarantined > 0,
                        },
                    ),
                }
            },
        }
    }

    pub open spec fn find(self, needle: Seq<u8>, after: Option<FindCursor>) -> (State, Reply) {
        match self.read_gate() {
            Some(e) => (self, Reply::FindDone { result: Err(e) }),
            None => {
                let hits = hits(self.db, needle, after);
                (
                    State { verified: capped(self.verified + hits.checks), ..self },
                    Reply::FindDone {
                        result: Ok(
                            PageView {
                                items: page_items(self.db.kept, hits.rows),
                                count: hits.rows.len() as u8,
                                next: hits.next,
                                incomplete: self.db.quarantined > 0,
                            },
                        ),
                    },
                )
            },
        }
    }

    // ---- All of it ----

    /// The inputs that may come in this state: an open only once, a completion
    /// only of the request in flight, a window only where a row begins.
    pub open spec fn accepts(self, input: Input) -> bool {
        match input {
            Input::Open { .. } | Input::OpenSalvage { .. } => self.phase == Phase::New,
            Input::ReadDone { file, .. } => {
                &&& self.phase.awaits() == Some(file)
                &&& self.phase is RecoverReadSb || self.phase is RecoverReadRows
            },
            Input::WriteDone { file } => {
                &&& self.phase.awaits() == Some(file)
                &&& self.phase is InitWriteSb || self.phase is RecoverRepairSb
                    || self.phase is WriteRow || self.phase is WriteSb
            },
            Input::FsyncDone { file } => {
                &&& self.phase.awaits() == Some(file)
                &&& self.phase is InitFsyncSb || self.phase is RecoverFsyncRows
                    || self.phase is RecoverFsyncSb || self.phase is FsyncRows
                    || self.phase is FsyncSb
            },
            Input::TruncateDone { file } => {
                &&& self.phase.awaits() == Some(file)
                &&& self.phase is RecoverTruncateRows
            },
            Input::IoFailed { file } => self.phase.awaits() == Some(file),
            Input::Insert { .. }
            | Input::Update { .. }
            | Input::Delete { .. }
            | Input::Batch { .. } => self.phase is Ready ==> self.generation < u64::MAX,
            Input::Find { needle_len, after, .. } => {
                &&& needle_len <= 16
                &&& after is Some && (after->0).position() is Some ==> (after->0).position()->0 < 16
                    * self.caps
            },
            Input::GetFrom { offset, .. } => offset % 16 == 0,
            _ => true,
        }
    }

    /// The next state and the reply.
    pub open spec fn step(self, input: Input) -> (State, Reply) {
        match input {
            Input::Open { superblock_len, rows_len } => self.open(superblock_len, rows_len),
            Input::OpenSalvage { superblock_len, rows_len } => State {
                salvage: true,
                ..self
            }.open(superblock_len, rows_len),
            Input::ReadDone { data, .. } => self.read_done(data@),
            Input::WriteDone { .. } => self.write_done(),
            Input::FsyncDone { .. } => self.fsync_done(),
            Input::TruncateDone { .. } => self.truncate_done(),
            Input::IoFailed { file } => self.io_failed(file),
            Input::Insert { id, value } => self.insert(id, value@),
            Input::Update { id, value } => self.update(id, value@),
            Input::Delete { id } => self.delete(id),
            Input::Batch { ops } => self.batch(ops@),
            Input::Get { id } => (self, self.get(id, 0)),
            Input::GetFrom { id, offset } => (self, self.get(id, offset)),
            Input::Range { lo, hi } => (self, self.range(lo, hi)),
            Input::Find { needle, needle_len, after } => self.find(
                needle@.take(needle_len as int),
                after,
            ),
        }
    }
}

// ---- Slots that a write puts down ----

/// The slot of a value that fits one row exactly.
pub open spec fn row_slot(kind: RowKind, id: u64, value: Seq<u8>) -> Slot {
    Slot { kind, span: 0, len: 16, more: false, id, value }
}

pub open spec fn tombstone_slot(id: u64) -> Slot {
    Slot { kind: RowKind::Tombstone, span: 0, len: 0, more: false, id, value: zeros(16) }
}

/// The id that an operation is about.
pub open spec fn op_key(op: BatchOp) -> u64 {
    match op {
        BatchOp::Insert { id, .. } => id,
        BatchOp::Update { id, .. } => id,
        BatchOp::Put { id, .. } => id,
        BatchOp::Delete { id } => id,
        BatchOp::Remove { id } => id,
    }
}

/// Why an operation cannot proceed for its id, if it cannot: an insert of a
/// live id, an update or delete of an absent one.
pub open spec fn id_error(live: Map<u64, u64>, op: BatchOp) -> Option<DbError> {
    let id = op_key(op);
    match op {
        BatchOp::Insert { .. } => if live.contains_key(id) {
            Some(DbError::DuplicateId { id })
        } else {
            None
        },
        BatchOp::Update { .. } | BatchOp::Delete { .. } => if live.contains_key(id) {
            None
        } else {
            Some(DbError::NotFound { id })
        },
        BatchOp::Put { .. } | BatchOp::Remove { .. } => None,
    }
}

/// The bytes that an operation writes.
pub open spec fn op_bytes(op: BatchOp) -> Seq<u8> {
    match op {
        BatchOp::Insert { value, .. } => value@,
        BatchOp::Update { value, .. } => value@,
        BatchOp::Put { value, .. } => value@,
        BatchOp::Delete { .. } => Seq::empty(),
        BatchOp::Remove { .. } => Seq::empty(),
    }
}

/// The rows that it takes: one per sixteen bytes, and at least one.
pub open spec fn op_rows(op: BatchOp) -> int {
    rows_for(op_bytes(op).len() as int)
}

pub open spec fn rows_for(len: int) -> int {
    if len == 0 {
        1
    } else {
        (len + 15) / 16
    }
}

/// Sixteen bytes from position `from` on, padded with zeros.
pub open spec fn cut(bytes: Seq<u8>, from: int) -> Seq<u8> {
    Seq::new(
        16,
        |j: int|
            if from + j < bytes.len() {
                bytes[from + j]
            } else {
                0
            },
    )
}

/// The slots of a value over `rows` rows.
pub open spec fn value_slots(head: RowKind, id: u64, bytes: Seq<u8>, rows: int) -> Seq<Slot> {
    Seq::new(
        rows as nat,
        |k: int|
            Slot {
                kind: if k == 0 {
                    head
                } else {
                    RowKind::Chunk
                },
                span: 0,
                len: min(bytes.len() - min(16 * k, bytes.len() as int), 16) as u8,
                more: k + 1 < rows,
                id,
                value: cut(bytes, 16 * k),
            },
    )
}

/// Each slot says how many of its commit follow it.
pub open spec fn spanned(slots: Seq<Slot>) -> Seq<Slot> {
    Seq::new(
        slots.len(),
        |i: int| Slot { span: (slots.len() - 1 - i) as u8, ..slots[i] },
    )
}

/// A batch as far as it has been validated.
#[verifier::ext_equal]
pub struct Plan {
    pub effects: Seq<BatchEffect>,
    pub slots: Seq<Slot>,
    /// The live rows that it would leave.
    pub live: Map<u64, u64>,
}

impl Plan {
    pub open spec fn store(self, base: u64, id: u64, bytes: Seq<u8>, rows: int) -> Plan {
        let at = (base + self.slots.len()) as u64;
        let supersedes = lookup(self.live, id);
        Plan {
            effects: self.effects.push(
                BatchEffect::Store { id, at, rows: rows as u16, supersedes },
            ),
            slots: self.slots + value_slots(
                if supersedes is Some {
                    RowKind::Update
                } else {
                    RowKind::Record
                },
                id,
                bytes,
                rows,
            ),
            live: self.live.insert(id, at),
        }
    }

    pub open spec fn delete(self, base: u64, id: u64) -> Plan {
        let at = (base + self.slots.len()) as u64;
        Plan {
            effects: self.effects.push(BatchEffect::Delete { id, at, record_row: self.live[id] }),
            slots: self.slots.push(tombstone_slot(id)),
            live: self.live.remove(id),
        }
    }
}

// ---- What a read returns ----

/// The window onto a value from `offset` on: the row that the offset falls in,
/// or nothing past the value's end.
pub open spec fn window(kept: Log, head: int, offset: u32) -> WindowView {
    let skip = offset as int / 16;
    let total = value_at(kept, head).len() as u32;
    if skip >= extent(kept, head) {
        WindowView { total, offset, len: 0, bytes: zeros(16) }
    } else {
        let slot = kept[head + skip]->0;
        WindowView { total, offset, len: slot.len, bytes: slot.value }
    }
}

pub open spec fn row_view(kept: Log, head: int) -> RowView {
    RowView {
        id: (kept[head]->0).id,
        len: value_at(kept, head).len() as u32,
        head: (kept[head]->0).value,
    }
}

/// The places of a page that holds the values starting in these rows.
pub open spec fn page_items(kept: Log, rows: Seq<u64>) -> Seq<RowView> {
    Seq::new(
        8,
        |i: int|
            if i < rows.len() {
                row_view(kept, rows[i] as int)
            } else {
                empty_row()
            },
    )
}

/// The ids of a map from `lo` up to `hi`, ascending.
pub open spec fn ids_between(m: Map<u64, u64>, lo: int, hi: int) -> Seq<u64>
    decreases hi - lo + 1,
{
    if lo > hi {
        Seq::empty()
    } else if m.contains_key(lo as u64) {
        seq![lo as u64] + ids_between(m, lo + 1, hi)
    } else {
        ids_between(m, lo + 1, hi)
    }
}

/// The needle occurs in the value.
pub open spec fn contains(value: Seq<u8>, needle: Seq<u8>) -> bool {
    exists|o: int| #[trigger] occurs(value, needle, o)
}

pub open spec fn occurs(value: Seq<u8>, needle: Seq<u8>, o: int) -> bool {
    &&& 0 <= o
    &&& o + needle.len() <= value.len()
    &&& value.subrange(o, o + needle.len()) == needle
}

/// A live value that contains the needle starts in this row.
pub open spec fn is_hit(db: Db, needle: Seq<u8>, row: int) -> bool {
    db.is_live(row) && contains(value_at(db.kept, row), needle)
}

/// The row in which the value that row `row` belongs to starts.
pub open spec fn head_row(kept: Log, row: int) -> Option<u64>
    decreases row + 1,
{
    if !(0 <= row < kept.len()) || kept[row] is None {
        None
    } else if (kept[row]->0).starts_value() {
        Some(row as u64)
    } else if (kept[row]->0).kind == RowKind::Chunk {
        head_row(kept, row - 1)
    } else {
        None
    }
}

/// What a search comes to: the rows found, where to go on, and how many
/// candidates were looked at.
#[verifier::ext_equal]
pub struct Hits {
    pub rows: Seq<u64>,
    pub next: Option<FindCursor>,
    pub checks: int,
}

/// `row` in front of the hits `h`.
pub open spec fn hit_first(row: u64, h: Hits) -> Hits {
    Hits { rows: seq![row] + h.rows, next: h.next, checks: h.checks + 1 }
}

pub open spec fn no_hits() -> Hits {
    Hits { rows: Seq::empty(), next: None, checks: 0 }
}

/// The hits among posting slots, in their order, `room` of them at most.
pub open spec fn sweep(
    db: Db,
    needle: Seq<u8>,
    slots: Seq<int>,
    below: Option<u64>,
    room: int,
) -> Hits
    decreases slots.len(),
{
    if slots.len() == 0 {
        no_hits()
    } else {
        let row = (slots[0] / 16) as u64;
        let rest = slots.drop_first();
        if below is Some && row >= below->0 {
            sweep(db, needle, rest, below, room)
        } else {
            match head_row(db.kept, row as int) {
                None => sweep(db, needle, rest, below, room),
                Some(h) => if !is_hit(db, needle, h as int) {
                    let after = sweep(db, needle, rest, below, room);
                    Hits { checks: after.checks + 1, ..after }
                } else if room == 1 {
                    Hits {
                        rows: seq![h],
                        next: Some(FindCursor { row, slot: slots[0] as u32 }),
                        checks: 1,
                    }
                } else {
                    hit_first(h, sweep(db, needle, rest, below, room - 1))
                },
            }
        }
    }
}

/// The hits among the rows under `top`, newest first, `room` of them at most.
pub open spec fn scan(db: Db, needle: Seq<u8>, top: int, room: int) -> Hits
    decreases top,
{
    if top <= 0 {
        no_hits()
    } else {
        let row = (top - 1) as u64;
        if !is_hit(db, needle, row as int) {
            let after = scan(db, needle, top - 1, room);
            Hits { checks: after.checks + 1, ..after }
        } else if room == 1 {
            Hits {
                rows: seq![row],
                next: if row > 0 {
                    Some(FindCursor { row, slot: NIL })
                } else {
                    None
                },
                checks: 1,
            }
        } else {
            hit_first(row, scan(db, needle, top - 1, room - 1))
        }
    }
}

/// What one page of a search comes to. Needles of three bytes and more are
/// looked up by their first trigram; shorter ones scan the rows.
pub open spec fn hits(db: Db, needle: Seq<u8>, after: Option<FindCursor>) -> Hits {
    let ix = Indexed { values: db.values, rows: db.kept.len() as int };
    if needle.len() < 3 {
        scan(db, needle, scan_top(ix, after), 8)
    } else {
        sweep(
            db,
            needle,
            candidates(ix, needle, after),
            if after is Some {
                Some((after->0).row)
            } else {
                None
            },
            8,
        )
    }
}

pub open spec fn capped(n: int) -> u64 {
    if n > u64::MAX {
        u64::MAX
    } else {
        n as u64
    }
}

} // verus!
