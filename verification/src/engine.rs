//! The storage engine: a deterministic state machine.
//!
//! One input in, one output out. The engine performs no I/O; it *asks* for it,
//! and the host feeds the completion back. The commit protocol, recovery and
//! every read are one function, [`Engine::tick`], whose contract is the step
//! function of the model.
//!
//! A commit writes its rows past the committed ones, syncs them, writes both
//! copies of the next superblock generation into the pair of slots that the
//! live one does not occupy, and syncs that. Only then does anything in memory
//! change. Whatever happens in between, the previous superblock and the rows
//! it counts are intact.

use crate::engine::commit::{live_all, live_all_last, planned_ok, run_facts, spanned_ok};
use crate::engine::laws::{created_ok, step_keeps};
use crate::engine::log::{
    all_some, applied, applied_one, broken_at, broken_from, continues, is_run, live_after, lookup,
    replay, replay_step, run_at, run_from, shaped, staged_ok, Db, Step,
};
use crate::engine::model::{
    created, disagree, op_bytes, op_key, op_rows, read_log, readable, rollback_evidence, row_slot, sb_chunk,
    sb_foreign, sb_healthy, sb_newest, sb_slot, sb_write, spanned, tombstone_slot, value_slots, Op,
    Phase, Plan, State,
};
use crate::engine::tables::reads::{listed, live_values};
use crate::engine::tables::{arena_row, row_bytes, sizeable, Tables};
use crate::layout::{
    decode_manifest, encode_manifest, Manifest, SbDecodeError, SB_COPY_SIZE, SB_ZONE_SIZE,
    SCHEMA_HASH, VALUE_LEN,
};
use crate::slot::{decode_slot, slot_image, RowKind, RowSlot, Slot, MAX_COMMIT_ROWS};
use crate::trigram::FindCursor;
use vstd::prelude::*;
use vstd::slice::slice_subrange;

pub mod answers;
pub mod commit;
pub mod durability;
pub mod laws;
pub mod log;
pub mod model;
pub mod packing;
pub mod queries;
pub mod salvaging;
pub mod tables;
pub mod types;

pub use crate::engine::types::{
    BatchEffect, BatchOp, BatchReject, Capacities, DbError, FileId, FindPage, Input, Output,
    RangePage, RecoveryReport, RowRef, ValueWindow, WriteBuf, FIND_PAGE, MAX_VALUE_LEN, RANGE_PAGE,
};

verus! {

/// The storage engine.
pub struct Engine {
    phase: Phase,
    caps: Capacities,
    generation: u64,
    row_count: u64,
    file_capacity: u64,
    opened_rows_len: u64,
    orphan_valid_rows: u64,
    orphan_rollback: bool,
    pending_repair: Option<u8>,
    salvage: bool,
    op: Op,
    batch: Vec<BatchEffect>,
    batch_rows: u16,
    slots: Ghost<Seq<Slot>>,
    find_verifications: u64,
    tables: Tables,
}

impl View for Engine {
    type V = State;

    closed spec fn view(&self) -> State {
        State {
            phase: self.phase,
            caps: self.caps.rows,
            generation: self.generation,
            row_count: self.row_count,
            file_capacity: self.file_capacity,
            opened_rows_len: self.opened_rows_len,
            orphan_valid_rows: self.orphan_valid_rows,
            orphan_rollback: self.orphan_rollback,
            pending_repair: self.pending_repair,
            salvage: self.salvage,
            db: self.tables@,
            op: self.op,
            effects: self.batch@,
            slots: self.slots@,
            verified: self.find_verifications,
        }
    }
}

/// No row from `from` on reads as one.
spec fn blank_from(t: Tables, from: int) -> bool {
    forall|r: int| from <= r < t.capacity() ==> (#[trigger] arena_row(t.bytes(), r)) is None
}

/// The slots of a commit are in the arena, behind the committed rows.
spec fn staged_in(t: Tables, at: int, slots: Seq<Slot>) -> bool {
    forall|k: int|
        0 <= k < slots.len() ==> #[trigger] row_bytes(t.bytes(), at + k) == slot_image(slots[k])
}

impl Engine {
    /// What holds of every state between inputs: the fields fit the phase, and
    /// the state is a valid one.
    pub closed spec fn inv(&self) -> bool {
        self.fits() && self@.ok()
    }

    /// The fields fit the phase.
    spec fn fits(&self) -> bool {
        &&& self.tables.inv()
        &&& self.tables.capacity() == self.caps.rows
        &&& self.pending_repair is Some ==> self.pending_repair->0 < 2
        &&& self.phase.committing() ==> self.committing_ok()
        &&& !self.phase.committing() ==> {
            &&& self.batch@.len() == 0
            &&& self.batch_rows == 0
            &&& self.slots@.len() == 0
            &&& self.op == Op::Batch
        }
        &&& match self.phase {
            Phase::New | Phase::InitFsyncSb | Phase::RecoverReadSb => self.fresh(),
            Phase::InitWriteSb { copy } => copy < 2 && self.fresh(),
            Phase::RecoverReadRows { generation, row_count } => {
                &&& self.fresh()
                &&& generation > 0
                &&& row_count <= self.caps.rows
            },
            Phase::RecoverTruncateRows { generation, row_count } => self.recovered(
                generation,
                row_count,
            ),
            Phase::RecoverFsyncRows { generation, row_count } => self.recovered(
                generation,
                row_count,
            ),
            Phase::RecoverRepairSb { generation, row_count, copy } => copy < 2 && self.recovered(
                generation,
                row_count,
            ),
            Phase::RecoverFsyncSb { generation, row_count } => self.recovered(
                generation,
                row_count,
            ),
            Phase::Ready
            | Phase::FsyncRows
            | Phase::FsyncSb
            | Phase::WriteRow { .. } => self.opened() && self.tables@.quarantined == 0,
            Phase::WriteSb { copy } => copy < 2 && self.opened() && self.tables@.quarantined == 0,
            Phase::Degraded => self.opened() && self.tables@.quarantined > 0,
            Phase::Failed(_) => true,
        }
    }

    spec fn fresh(&self) -> bool {
        &&& self.tables@ == Db::empty()
        &&& blank_from(self.tables, 0)
    }

    spec fn recovered(&self, generation: u64, row_count: u64) -> bool {
        &&& generation > 0
        &&& row_count == self.tables@.kept.len()
        &&& self.tables@.quarantined == 0
    }

    spec fn opened(&self) -> bool {
        &&& self.generation > 0
        &&& self.row_count == self.tables@.kept.len()
    }

    spec fn committing_ok(&self) -> bool {
        &&& self.generation < u64::MAX
        &&& 1 <= self.slots@.len() <= 128
        &&& self.batch_rows == self.slots@.len()
        &&& self.row_count + self.slots@.len() <= self.caps.rows
        &&& staged_ok(self.tables@.live, self.row_count as int, self.batch@, self.slots@)
        &&& staged_in(self.tables, self.row_count as int, self.slots@)
        &&& self.phase is WriteRow ==> self.phase->next < self.slots@.len()
    }

    /// What the invariant says of the state.
    pub proof fn facts(&self)
        requires
            self.inv(),
        ensures
            self@.ok(),
    {
    }

    /// Make an engine for a row capacity. All memory is taken here.
    pub fn new(caps: Capacities) -> (e: Self)
        requires
            sizeable(caps.rows),
        ensures
            e.inv(),
            e@ == created(caps.rows),
            2 * caps.rows <= e.table_size() < 4 * caps.rows,
            crate::probe::is_pow2(e.table_size() as int),
    {
        let e = Engine {
            phase: Phase::New,
            caps,
            generation: 0,
            row_count: 0,
            file_capacity: caps.rows,
            opened_rows_len: 0,
            orphan_valid_rows: 0,
            orphan_rollback: false,
            pending_repair: None,
            salvage: false,
            op: Op::Batch,
            batch: Vec::with_capacity(MAX_COMMIT_ROWS),
            batch_rows: 0,
            slots: Ghost(Seq::empty()),
            find_verifications: 0,
            tables: Tables::new(caps.rows),
        };
        proof {
            assert(e.batch@ =~= Seq::empty());
            created_ok(caps.rows);
        }
        e
    }

    /// The size of the id table.
    pub closed spec fn table_size(&self) -> nat {
        self.tables.table_size()
    }

    /// Committed rows, and the capacity.
    pub fn usage(&self) -> (u: (u64, u64))
        ensures
            u == (self@.row_count, self@.caps),
    {
        (self.row_count, self.caps.rows)
    }

    pub fn caps(&self) -> (caps: Capacities)
        ensures
            caps.rows == self@.caps,
    {
        self.caps
    }

    /// The committed superblock's generation: 0 before an open completes.
    pub fn generation(&self) -> (g: u64)
        ensures
            g == self@.generation,
    {
        self.generation
    }

    /// What recovery observed.
    pub fn recovery_report(&self) -> (r: RecoveryReport)
        requires
            self.inv(),
        ensures
            r == (RecoveryReport {
                row_count: self@.row_count,
                orphan_valid_rows: self@.orphan_valid_rows,
                rollback_evidence: self@.orphan_rollback,
                declared_capacity: self@.file_capacity,
                quarantined_rows: self@.db.quarantined as u64,
            }),
    {
        RecoveryReport {
            row_count: self.row_count,
            orphan_valid_rows: self.orphan_valid_rows,
            rollback_evidence: self.orphan_rollback,
            declared_capacity: self.file_capacity,
            quarantined_rows: self.tables.quarantined(),
        }
    }

    /// Open in salvage mode with quarantined rows?
    pub fn is_degraded(&self) -> (yes: bool)
        ensures
            yes == (self@.phase is Degraded),
    {
        matches!(self.phase, Phase::Degraded)
    }

    pub fn quarantined(&self) -> (n: u64)
        requires
            self.inv(),
        ensures
            n == self@.db.quarantined,
    {
        self.tables.quarantined()
    }

    /// Candidate rows that searches have verified so far.
    pub fn find_verifications(&self) -> (n: u64)
        ensures
            n == self@.verified,
    {
        self.find_verifications
    }

    /// Every live row's id and value, in the order they were written.
    pub fn live_rows(&self) -> (out: Vec<(u64, Vec<u8>)>)
        requires
            self.inv(),
        ensures
            listed(out@, live_values(self@.db, self@.db.kept.len() as int)),
    {
        self.tables.live_rows()
    }

    pub fn live_count(&self) -> (n: u64)
        requires
            self.inv(),
        ensures
            n == self@.db.live.dom().len(),
    {
        self.tables.live_count()
    }

    /// Rows that hold nothing a reader can reach.
    pub fn dead_slots(&self) -> (n: u64)
        requires
            self.inv(),
        ensures
            n == self@.db.dead(),
    {
        self.tables.dead_slots()
    }

    /// Which slot of the id table an id's probing starts from.
    pub fn hash_slot(&self, id: u64) -> (slot: usize)
        requires
            self.inv(),
        ensures
            slot == crate::engine::tables::id_home(id, self.table_size()),
            slot < self.table_size(),
    {
        self.tables.hash_slot(id)
    }

    pub fn index_len(&self) -> (n: usize)
        ensures
            n == self.table_size(),
    {
        self.tables.index_len()
    }

    // ---- Opening ----

    fn fail_open(&mut self, err: DbError) -> (out: Output)
        requires
            old(self).fits(),
            !old(self).phase.committing(),
        ensures
            final(self).fits(),
            (final(self)@, out@) == old(self)@.fail_open(err),
            out.well_formed(),
    {
        self.phase = Phase::Failed(err);
        Output::OpenDone { result: Err(err) }
    }

    fn on_open(&mut self, superblock_len: u64, rows_len: u64) -> (out: Output)
        requires
            old(self).fits(),
            old(self).phase == Phase::New,
        ensures
            final(self).fits(),
            (final(self)@, out@) == old(self)@.open(superblock_len, rows_len),
            out.well_formed(),
    {
        self.opened_rows_len = rows_len;
        if superblock_len == 0 {
            if rows_len != 0 {
                return self.fail_open(
                    DbError::Corrupt { what: crate::defect::ROWS_WITHOUT_SUPERBLOCK },
                );
            }
            self.stage_initial_superblock()
        } else {
            self.phase = Phase::RecoverReadSb;
            Output::Read { file: FileId::Superblock, offset: 0, len: SB_ZONE_SIZE as u64 }
        }
    }

    /// The pair of superblock slots that a generation writes to. Consecutive
    /// generations alternate, so a commit never touches the live copies.
    pub fn sb_slots_for(generation: u64) -> (slots: [u8; 2])
        requires
            generation > 0,
        ensures
            slots@[0] == sb_slot(generation, 0),
            slots@[1] == sb_slot(generation, 1),
    {
        let pair: u8 = (generation % 2) as u8;
        [pair * 2, pair * 2 + 1]
    }

    /// The request that writes one copy of a superblock.
    pub fn sb_copy_write(generation: u64, row_count: u64, capacity: u64, copy: u8) -> (out: Output)
        requires
            generation > 0,
            capacity > 0,
            copy < 2,
        ensures
            out@ == sb_write(generation, row_count, capacity, copy as int),
            out.well_formed(),
    {
        let mut bytes: [u8; SB_COPY_SIZE] = [0u8; 64];
        encode_manifest(generation, row_count, capacity, &mut bytes);
        let slots = Self::sb_slots_for(generation);
        let slot: u8 = slots[copy as usize];
        let data = WriteBuf::from_slice(slice_subrange(&bytes, 0, 64));
        assert(bytes@.subrange(0, 64) =~= bytes@);
        Output::Write { file: FileId::Superblock, offset: slot as u64 * 64, data }
    }

    fn stage_initial_superblock(&mut self) -> (out: Output)
        requires
            old(self).fits(),
            old(self).fresh(),
            !old(self).phase.committing(),
        ensures
            final(self).fits(),
            (final(self)@, out@) == old(self)@.init_sb(),
            out.well_formed(),
    {
        proof {
            self.tables.facts();
        }
        self.phase = Phase::InitWriteSb { copy: 0 };
        Self::sb_copy_write(1, 0, self.caps.rows, 0)
    }

    fn on_read_done(&mut self, file: FileId, data: &[u8]) -> (out: Output)
        requires
            old(self).fits(),
            old(self)@.accepts(Input::ReadDone { file, data }),
        ensures
            final(self).fits(),
            (final(self)@, out@) == old(self)@.read_done(data@),
            out.well_formed(),
    {
        match self.phase {
            Phase::RecoverReadRows { generation, row_count } => self.recover_from_rows(
                generation,
                row_count,
                data,
            ),
            _ => self.recover_from_sb(data),
        }
    }

    fn recover_from_sb(&mut self, data: &[u8]) -> (out: Output)
        requires
            old(self).fits(),
            old(self).phase is RecoverReadSb,
        ensures
            final(self).fits(),
            (final(self)@, out@) == old(self)@.recover_sb(data@),
            out.well_formed(),
    {
        proof {
            self.tables.facts();
        }
        let mut best: Option<Manifest> = None;
        let mut schema_mismatch: Option<u64> = None;
        let mut slot: usize = 0;
        while slot < 4
            invariant
                slot <= 4,
                best == sb_newest(data@, slot as int),
                schema_mismatch == sb_foreign(data@, slot as int),
                best is Some ==> best->0.generation > 0,
            decreases 4 - slot,
        {
            if data.len() >= 64 * (slot + 1) {
                let chunk = slice_subrange(data, 64 * slot, 64 * slot + 64);
                assert(sb_chunk(data@, slot as int) == Some(chunk@));
                match decode_manifest(chunk) {
                    Ok(copy) => {
                        if copy.generation > 0 {
                            let pair = Self::sb_slots_for(copy.generation);
                            if pair[0] as usize == slot || pair[1] as usize == slot {
                                let newer: bool = match best {
                                    None => true,
                                    Some(b) => copy.generation > b.generation,
                                };
                                if newer {
                                    best = Some(copy);
                                }
                            }
                        }
                    },
                    Err(SbDecodeError::SchemaMismatch { file_schema }) => {
                        schema_mismatch = Some(file_schema);
                    },
                    Err(SbDecodeError::Invalid) => {},
                }
            }
            slot = slot + 1;
        }
        self.pending_repair = None;
        let chosen: Manifest = match best {
            Some(m) => m,
            None => {
                if let Some(file_schema) = schema_mismatch {
                    return self.fail_open(
                        DbError::SchemaMismatch { file_schema, binary_schema: SCHEMA_HASH },
                    );
                }
                if self.opened_rows_len > 0 {
                    return self.fail_open(
                        DbError::Corrupt { what: crate::defect::ROWS_WITHOUT_VALID_SUPERBLOCK },
                    );
                }
                return self.stage_initial_superblock();
            },
        };
        if !Self::twin_healthy(data, chosen, 0) {
            self.pending_repair = Some(0);
        }
        if !Self::twin_healthy(data, chosen, 1) {
            self.pending_repair = Some(1);
        }
        self.file_capacity = chosen.capacity;
        if chosen.row_count > self.caps.rows {
            return self.fail_open(
                DbError::CapacityBelowData {
                    required: chosen.row_count,
                    configured: self.caps.rows,
                },
            );
        }
        if chosen.row_count * 32 > self.opened_rows_len {
            return self.fail_open(DbError::Corrupt { what: crate::defect::ROWS_MISSING });
        }
        let all: u64 = self.caps.rows * 32;
        let scan_len: u64 = if self.opened_rows_len < all {
            self.opened_rows_len
        } else {
            all
        };
        if scan_len == 0 {
            self.stage_recovery_fsyncs(chosen.generation, 0)
        } else {
            self.phase = Phase::RecoverReadRows {
                generation: chosen.generation,
                row_count: chosen.row_count,
            };
            Output::Read { file: FileId::Rows, offset: 0, len: scan_len }
        }
    }

    /// Does copy `copy` of the chosen superblock's pair say the same?
    fn twin_healthy(data: &[u8], chosen: Manifest, copy: usize) -> (yes: bool)
        requires
            chosen.generation > 0,
            copy < 2,
        ensures
            yes == sb_healthy(data@, chosen, copy as int),
    {
        let pair = Self::sb_slots_for(chosen.generation);
        let slot: usize = pair[copy] as usize;
        if data.len() < 64 * (slot + 1) {
            return false;
        }
        let chunk = slice_subrange(data, 64 * slot, 64 * slot + 64);
        match decode_manifest(chunk) {
            Ok(c) => c.generation == chosen.generation && c.row_count == chosen.row_count,
            Err(_) => false,
        }
    }

    fn stage_recovery_fsyncs(&mut self, generation: u64, row_count: u64) -> (out: Output)
        requires
            old(self).fits(),
            old(self).recovered(generation, row_count),
            !old(self).phase.committing(),
        ensures
            final(self).fits(),
            (final(self)@, out@) == old(self)@.settle(generation, row_count),
            out.well_formed(),
    {
        proof {
            self.tables.facts();
        }
        let live: u64 = row_count * 32;
        if self.opened_rows_len > live {
            self.phase = Phase::RecoverTruncateRows { generation, row_count };
            return Output::Truncate { file: FileId::Rows, len: live };
        }
        self.phase = Phase::RecoverFsyncRows { generation, row_count };
        Output::Fsync { file: FileId::Rows }
    }

    fn on_truncate_done(&mut self, file: FileId) -> (out: Output)
        requires
            old(self).fits(),
            old(self)@.accepts(Input::TruncateDone { file }),
        ensures
            final(self).fits(),
            (final(self)@, out@) == old(self)@.truncate_done(),
            out.well_formed(),
    {
        proof {
            self.tables.facts();
        }
        if let Phase::RecoverTruncateRows { generation, row_count } = self.phase {
            self.opened_rows_len = row_count * 32;
            self.phase = Phase::RecoverFsyncRows { generation, row_count };
        }
        Output::Fsync { file: FileId::Rows }
    }

    fn finish_open(&mut self, generation: u64, row_count: u64) -> (out: Output)
        requires
            old(self).fits(),
            !old(self).phase.committing(),
            generation > 0,
            row_count == old(self).tables@.kept.len(),
        ensures
            final(self).fits(),
            (final(self)@, out@) == old(self)@.finish_open(generation, row_count),
            out.well_formed(),
    {
        proof {
            self.tables.facts();
        }
        self.generation = generation;
        self.row_count = row_count;
        self.phase = if self.tables.quarantined() > 0 {
            Phase::Degraded
        } else {
            Phase::Ready
        };
        Output::OpenDone { result: Ok(row_count) }
    }

    /// The run of rows that a head starts, if it is complete.
    fn verify_run(data: &[u8], head_row: u64, row_count: u64, head: &RowSlot) -> (rows: Option<u64>)
        requires
            head_row < row_count,
            32 * row_count <= data.len(),
            read_log(data@, row_count as int)[head_row as int] == Some(head@),
        ensures
            match rows {
                Some(n) => run_at(read_log(data@, row_count as int), head_row as int) == Some(
                    n as int,
                ),
                None => run_at(read_log(data@, row_count as int), head_row as int) is None,
            },
    {
        let ghost log = read_log(data@, row_count as int);
        let mut rows: u64 = 1;
        let mut more: bool = head.more;
        while more
            invariant
                log == read_log(data@, row_count as int),
                head_row < row_count,
                32 * row_count <= data.len(),
                log[head_row as int] == Some(head@),
                1 <= rows <= 128,
                head_row + rows <= row_count,
                run_from(log, head_row as int, rows as int, more) == run_at(log, head_row as int),
            decreases 128 - rows + more as int,
        {
            let r: u64 = head_row + rows;
            if r >= row_count {
                return None;
            }
            let slot = match read_row(data, r, row_count) {
                Some(s) => s,
                None => {
                    return None;
                },
            };
            if slot.kind != RowKind::Chunk || slot.id != head.id {
                return None;
            }
            if rows >= 128 {
                return None;
            }
            assert(continues(log, head_row + rows, head.id));
            more = slot.more;
            rows = rows + 1;
        }
        Some(rows)
    }

    /// How far a broken run reaches.
    fn broken_run_len(data: &[u8], head_row: u64, row_count: u64, head: &RowSlot) -> (rows: u64)
        requires
            head_row < row_count,
            32 * row_count <= data.len(),
            read_log(data@, row_count as int)[head_row as int] == Some(head@),
        ensures
            rows == broken_at(read_log(data@, row_count as int), head_row as int),
            1 <= rows,
            head_row + rows <= row_count,
    {
        let ghost log = read_log(data@, row_count as int);
        let mut rows: u64 = 1;
        let mut more: bool = head.more;
        while more && rows <= 128
            invariant_except_break
                broken_from(log, head_row as int, rows as int, more) == broken_at(
                    log,
                    head_row as int,
                ),
            invariant
                log == read_log(data@, row_count as int),
                head_row < row_count,
                32 * row_count <= data.len(),
                log[head_row as int] == Some(head@),
                1 <= rows <= 129,
                head_row + rows <= row_count,
            ensures
                rows == broken_at(log, head_row as int),
            decreases 129 - rows,
        {
            let r: u64 = head_row + rows;
            if r >= row_count {
                break;
            }
            match read_row(data, r, row_count) {
                Some(slot) => {
                    if slot.kind == RowKind::Chunk && slot.id == head.id {
                        assert(continues(log, head_row + rows, head.id));
                        more = slot.more;
                        rows = rows + 1;
                    } else {
                        break;
                    }
                },
                None => {
                    break;
                },
            }
        }
        rows
    }

    /// Set rows aside in salvage mode; else name the defect.
    fn set_aside(&mut self, rows: u64, what: &'static str) -> (stopped: Option<&'static str>)
        requires
            old(self).tables.inv(),
            rows >= 1,
            old(self).tables@.kept.len() + rows <= old(self).tables.capacity(),
            blank_from(old(self).tables, old(self).tables@.kept.len() as int),
        ensures
            *final(self) == (Engine { tables: final(self).tables, ..*old(self) }),
            final(self).tables.inv(),
            final(self).tables.capacity() == old(self).tables.capacity(),
            blank_from(final(self).tables, final(self).tables@.kept.len() as int),
            match stopped {
                Some(w) => {
                    &&& crate::engine::log::reject(old(self).tables@, rows as int, old(self).salvage, what)
                        == Step::Stop(w)
                    &&& final(self).tables@ == old(self).tables@
                },
                None => crate::engine::log::reject(
                    old(self).tables@,
                    rows as int,
                    old(self).salvage,
                    what,
                ) == Step::Go(final(self).tables@),
            },
    {
        if self.salvage {
            self.tables.quarantine_rows(rows);
            None
        } else {
            Some(what)
        }
    }

    /// Copy a run's rows into the arena and take it in.
    fn take_in(&mut self, data: &[u8], rows: u64, row_count: u64, id: u64)
        requires
            old(self).tables.inv(),
            32 * row_count <= data.len(),
            row_count <= old(self).tables.capacity(),
            blank_from(old(self).tables, old(self).tables@.kept.len() as int),
            old(self).tables@.kept.len() < row_count,
            ({
                let log = read_log(data@, row_count as int);
                let at = old(self).tables@.kept.len() as int;
                &&& run_at(log, at) == Some(rows as int)
                &&& log[at] is Some
                &&& (log[at]->0).id == id
                &&& (log[at]->0).starts_value()
            }),
        ensures
            *final(self) == (Engine { tables: final(self).tables, ..*old(self) }),
            final(self).tables.inv(),
            final(self).tables.capacity() == old(self).tables.capacity(),
            blank_from(final(self).tables, final(self).tables@.kept.len() as int),
            final(self).tables@ == old(self).tables@.store(
                read_log(data@, row_count as int).subrange(
                    old(self).tables@.kept.len() as int,
                    old(self).tables@.kept.len() + rows,
                ),
            ),
    {
        let ghost log = read_log(data@, row_count as int);
        let row: u64 = self.tables.len();
        let ghost run = log.subrange(row as int, row + rows);
        proof {
            self.tables.facts();
            run_facts(log, row as int, 1, (log[row as int]->0).more);
            assert forall|k: int| 0 <= k < run.len() implies (#[trigger] run[k]) is Some && (
            run[k]->0).valid() by {
                if k > 0 {
                    assert(continues(log, row + k, id));
                }
                assert(run[k] == log[row + k]);
                crate::slot::slot_parsed_is_valid(
                    data@.subrange(32 * (row + k), 32 * (row + k) + 32),
                );
            }
            assert forall|k: int| 1 <= k < run.len() implies #[trigger] continues(run, k, id) by {
                assert(continues(log, row + k, id));
            }
            assert(is_run(run));
        }
        let ghost t0 = self.tables;
        let mut k: u64 = 0;
        while k < rows
            invariant
                k <= rows == run.len() <= 128,
                row + rows <= row_count <= self.tables.capacity(),
                32 * row_count <= data.len(),
                log == read_log(data@, row_count as int),
                run == log.subrange(row as int, row + rows),
                self.tables.inv(),
                self.tables@ == t0@,
                row == t0@.kept.len(),
                self.tables.capacity() == t0.capacity(),
                *self == (Engine { tables: self.tables, ..*old(self) }),
                forall|j: int|
                    0 <= j < k ==> #[trigger] arena_row(self.tables.bytes(), row + j) == run[j],
                blank_from(self.tables, row + rows),
            decreases rows - k,
        {
            let ghost before = self.tables;
            let off: usize = (row + k) as usize * 32;
            self.tables.write_row(row + k, slice_subrange(data, off, off + 32));
            proof {
                assert forall|j: int| 0 <= j < k + 1 implies #[trigger] arena_row(
                    self.tables.bytes(),
                    row + j,
                ) == run[j] by {
                    if j < k {
                        assert(row_bytes(self.tables.bytes(), row + j) == row_bytes(
                            before.bytes(),
                            row + j,
                        ));
                        assert(arena_row(before.bytes(), row + j) == run[j]);
                    } else {
                        assert(run[j] == log[row + j]);
                    }
                }
                assert forall|r: int| row + rows <= r < self.tables.capacity() implies (
                #[trigger] arena_row(self.tables.bytes(), r)) is None by {
                    assert(row_bytes(self.tables.bytes(), r) == row_bytes(before.bytes(), r));
                    assert(arena_row(before.bytes(), r) is None);
                }
            }
            k = k + 1;
        }
        let superseded = self.tables.live_row_of(id);
        self.tables.store_run(rows, id, superseded, Ghost(run));
    }

    /// Take in the first row not yet taken in, with its run.
    #[verifier::rlimit(40)]
    fn replay_row(&mut self, data: &[u8], row_count: u64) -> (stopped: Option<&'static str>)
        requires
            old(self).tables.inv(),
            32 * row_count <= data.len(),
            row_count <= old(self).tables.capacity(),
            blank_from(old(self).tables, old(self).tables@.kept.len() as int),
            old(self).tables@.kept.len() < row_count,
        ensures
            *final(self) == (Engine { tables: final(self).tables, ..*old(self) }),
            final(self).tables.inv(),
            final(self).tables.capacity() == old(self).tables.capacity(),
            blank_from(final(self).tables, final(self).tables@.kept.len() as int),
            final(self).tables@.kept.len() <= row_count,
            match stopped {
                Some(what) => {
                    &&& final(self).tables@ == old(self).tables@
                    &&& replay_step(
                        read_log(data@, row_count as int),
                        old(self).tables@,
                        old(self).salvage,
                    ) == Step::Stop(what)
                },
                None => {
                    &&& replay_step(
                        read_log(data@, row_count as int),
                        old(self).tables@,
                        old(self).salvage,
                    ) == Step::Go(final(self).tables@)
                    &&& final(self).tables@.kept.len() > old(self).tables@.kept.len()
                },
            },
    {
        let ghost log = read_log(data@, row_count as int);
        let row: u64 = self.tables.len();
        let slot = match read_row(data, row, row_count) {
            Some(s) => s,
            None => {
                return self.set_aside(1, crate::defect::ROW_CHECKSUM);
            },
        };
        let id: u64 = slot.id;
        match slot.kind {
            RowKind::Record | RowKind::Update => {
                let rows: u64 = match Self::verify_run(data, row, row_count, &slot) {
                    Some(rows) => rows,
                    None => {
                        let broken: u64 = Self::broken_run_len(data, row, row_count, &slot);
                        return self.set_aside(broken, crate::defect::TRUNCATED_VALUE);
                    },
                };
                proof {
                    run_facts(log, row as int, 1, slot.more);
                }
                let live: bool = self.tables.live_row_of(id).is_some();
                if slot.kind == RowKind::Record && live {
                    return self.set_aside(rows, crate::defect::DUPLICATE_ID);
                }
                if slot.kind == RowKind::Update && !live {
                    return self.set_aside(rows, crate::defect::ORPHAN_UPDATE);
                }
                self.take_in(data, rows, row_count, id);
                None
            },
            RowKind::Chunk => self.set_aside(1, crate::defect::ORPHAN_CHUNK),
            RowKind::Tombstone => {
                let record_row: u64 = match self.tables.live_row_of(id) {
                    Some(r) => r,
                    None => {
                        return self.set_aside(1, crate::defect::ORPHAN_TOMBSTONE);
                    },
                };
                if slot.more {
                    return self.set_aside(1, crate::defect::ORPHAN_TOMBSTONE);
                }
                let off: usize = row as usize * 32;
                let ghost before = self.tables;
                self.tables.write_row(row, slice_subrange(data, off, off + 32));
                proof {
                    self.tables.facts();
                    crate::slot::slot_parsed_is_valid(
                        data@.subrange(32 * row, 32 * row + 32),
                    );
                    assert forall|r: int| row + 1 <= r < self.tables.capacity() implies (
                    #[trigger] arena_row(self.tables.bytes(), r)) is None by {
                        assert(row_bytes(self.tables.bytes(), r) == row_bytes(before.bytes(), r));
                        assert(arena_row(before.bytes(), r) is None);
                    }
                    assert(arena_row(self.tables.bytes(), row as int) == Some(slot@));
                }
                self.tables.delete_row(record_row, Ghost(slot@));
                None
            },
        }
    }

    fn recover_from_rows(&mut self, generation: u64, row_count: u64, data: &[u8]) -> (out: Output)
        requires
            old(self).fits(),
            old(self).phase == (Phase::RecoverReadRows { generation, row_count }),
        ensures
            final(self).fits(),
            (final(self)@, out@) == old(self)@.recover_rows(generation, row_count, data@),
            out.well_formed(),
    {
        proof {
            self.tables.facts();
        }
        let live: usize = row_count as usize * 32;
        if data.len() < live {
            return self.fail_open(DbError::Corrupt { what: crate::defect::SHORT_READ });
        }
        let ghost log = read_log(data@, row_count as int);
        while self.tables.len() < row_count
            invariant
                *self == (Engine { tables: self.tables, ..*old(self) }),
                self.tables.inv(),
                self.tables.capacity() == self.caps.rows,
                32 * row_count <= data.len(),
                row_count <= self.caps.rows,
                log == read_log(data@, row_count as int),
                blank_from(self.tables, self.tables@.kept.len() as int),
                self.tables@.kept.len() <= row_count,
                replay(log, self.tables@, self.salvage) == replay(log, Db::empty(), self.salvage),
                old(self).fits(),
                old(self).phase == (Phase::RecoverReadRows { generation, row_count }),
            decreases row_count - self.tables@.kept.len(),
        {
            let ghost before = self.tables@;
            match self.replay_row(data, row_count) {
                Some(what) => {
                    proof {
                        assert(replay(log, before, self.salvage) == (before, Some(what)));
                    }
                    self.phase = Phase::Failed(DbError::Corrupt { what });
                    return Output::OpenDone { result: Err(DbError::Corrupt { what }) };
                },
                None => {},
            }
        }
        let past = slice_subrange(data, live, data.len());
        assert(past@ =~= data@.skip(32 * row_count));
        let (valid, rollback) = scan_orphans(past);
        self.orphan_valid_rows = valid;
        self.orphan_rollback = rollback;
        assert(replay(log, self.tables@, self.salvage) == (self.tables@, None::<&'static str>));
        if self.tables.quarantined() > 0 {
            self.pending_repair = None;
            self.generation = generation;
            self.row_count = row_count;
            self.phase = Phase::Degraded;
            return Output::OpenDone { result: Ok(row_count) };
        }
        self.phase = Phase::RecoverFsyncRows { generation, row_count };
        self.stage_recovery_fsyncs(generation, row_count)
    }

    // ---- Writing ----

    fn write_gate(&self) -> (err: Option<DbError>)
        requires
            self.fits(),
        ensures
            err == self@.write_gate(),
            err is None ==> self.phase is Ready,
    {
        match self.phase {
            Phase::Ready => None,
            Phase::New
            | Phase::InitWriteSb { .. }
            | Phase::InitFsyncSb
            | Phase::RecoverReadSb
            | Phase::RecoverReadRows { .. }
            | Phase::RecoverTruncateRows { .. }
            | Phase::RecoverFsyncRows { .. }
            | Phase::RecoverRepairSb { .. }
            | Phase::RecoverFsyncSb { .. } => Some(DbError::NotOpen),
            Phase::WriteRow { .. } | Phase::FsyncRows | Phase::WriteSb { .. } | Phase::FsyncSb => Some(
                DbError::Busy,
            ),
            Phase::Degraded => Some(DbError::Degraded { quarantined: self.tables.quarantined() }),
            Phase::Failed(e) => Some(e),
        }
    }

    fn full(&self) -> (err: DbError)
        requires
            self.fits(),
        ensures
            err == self@.full(),
    {
        DbError::Full {
            entity: "records",
            capacity: self.caps.rows,
            dead: self.tables.dead_slots(),
        }
    }

    /// The request that writes the next staged row.
    fn row_write(&self, next: u16) -> (out: Output)
        requires
            self.tables.inv(),
            self.tables.capacity() == self.caps.rows,
            next < self.slots@.len(),
            self.row_count + self.slots@.len() <= self.caps.rows,
            staged_in(self.tables, self.row_count as int, self.slots@),
        ensures
            out@ == self@.row_write(next as int),
            out.well_formed(),
    {
        let row: u64 = self.row_count + next as u64;
        proof {
            self.tables.facts();
            assert(row_bytes(self.tables.bytes(), self.row_count + next) == slot_image(
                self.slots@[next as int],
            ));
        }
        let data = WriteBuf::from_slice(self.tables.row_slice(row));
        Output::Write { file: FileId::Rows, offset: row * 32, data }
    }

    /// Start the commit of one row.
    fn begin_one(
        &mut self,
        op: Op,
        effect: BatchEffect,
        kind: RowKind,
        len: u8,
        id: u64,
        value: &[u8; 16],
    ) -> (out: Output)
        requires
            old(self).fits(),
            old(self).phase is Ready,
            old(self).generation < u64::MAX,
            old(self).row_count < old(self).caps.rows,
            len <= 16,
            effect.spec_at() == old(self).row_count,
            effect.spec_rows() == 1,
            shaped(
                old(self).tables@.live,
                effect,
                seq![Slot { kind, span: 0, len, more: false, id, value: value@ }],
            ),
        ensures
            final(self).fits(),
            (final(self)@, out@) == old(self)@.begin(
                op,
                seq![effect],
                seq![Slot { kind, span: 0, len, more: false, id, value: value@ }],
            ),
            out.well_formed(),
    {
        let row: u64 = self.row_count;
        self.tables.stage_row(row, kind, 0, len, false, id, value);
        self.batch.push(effect);
        self.batch_rows = 1;
        let ghost slot = Slot { kind, span: 0, len, more: false, id, value: value@ };
        let ghost slots = seq![slot];
        self.slots = Ghost(slots);
        self.op = op;
        self.phase = Phase::WriteRow { next: 0 };
        proof {
            assert(self.batch@ =~= seq![effect]);
            assert(seq![effect].drop_first() =~= Seq::empty());
            assert(seq![slot].take(1) =~= seq![slot]);
            assert(seq![slot].skip(1) =~= Seq::empty());
            assert(staged_ok(
                live_after(self.tables@.live, effect),
                row + 1,
                Seq::empty(),
                Seq::empty(),
            ));
        }
        self.row_write(0)
    }

    fn on_insert(&mut self, id: u64, value: [u8; VALUE_LEN]) -> (out: Output)
        requires
            old(self).fits(),
            old(self)@.accepts(Input::Insert { id, value }),
        ensures
            final(self).fits(),
            (final(self)@, out@) == old(self)@.insert(id, value@),
            out.well_formed(),
    {
        if let Some(e) = self.write_gate() {
            return Output::InsertDone { id, result: Err(e) };
        }
        if self.tables.live_row_of(id).is_some() {
            return Output::InsertDone { id, result: Err(DbError::DuplicateId { id }) };
        }
        if self.row_count == self.caps.rows {
            return Output::InsertDone { id, result: Err(self.full()) };
        }
        let effect = BatchEffect::Store { id, at: self.row_count, rows: 1, supersedes: None };
        proof {
            self.tables.facts();
            one_slot_run(row_slot(RowKind::Record, id, value@));
        }
        self.begin_one(Op::Insert { id }, effect, RowKind::Record, 16, id, &value)
    }

    fn on_update(&mut self, id: u64, value: [u8; VALUE_LEN]) -> (out: Output)
        requires
            old(self).fits(),
            old(self)@.accepts(Input::Update { id, value }),
        ensures
            final(self).fits(),
            (final(self)@, out@) == old(self)@.update(id, value@),
            out.well_formed(),
    {
        if let Some(e) = self.write_gate() {
            return Output::UpdateDone { id, result: Err(e) };
        }
        let old_row: u64 = match self.tables.live_row_of(id) {
            Some(row) => row,
            None => {
                return Output::UpdateDone { id, result: Err(DbError::NotFound { id }) };
            },
        };
        if self.row_count == self.caps.rows {
            return Output::UpdateDone { id, result: Err(self.full()) };
        }
        let effect = BatchEffect::Store {
            id,
            at: self.row_count,
            rows: 1,
            supersedes: Some(old_row),
        };
        proof {
            self.tables.facts();
            one_slot_run(row_slot(RowKind::Update, id, value@));
        }
        self.begin_one(Op::Update { id }, effect, RowKind::Update, 16, id, &value)
    }

    fn on_delete(&mut self, id: u64) -> (out: Output)
        requires
            old(self).fits(),
            old(self)@.accepts(Input::Delete { id }),
        ensures
            final(self).fits(),
            (final(self)@, out@) == old(self)@.delete(id),
            out.well_formed(),
    {
        if let Some(e) = self.write_gate() {
            return Output::DeleteDone { id, result: Err(e) };
        }
        let record_row: u64 = match self.tables.live_row_of(id) {
            Some(row) => row,
            None => {
                return Output::DeleteDone { id, result: Err(DbError::NotFound { id }) };
            },
        };
        if self.row_count == self.caps.rows {
            return Output::DeleteDone { id, result: Err(self.full()) };
        }
        let effect = BatchEffect::Delete { id, at: self.row_count, record_row };
        let value: [u8; VALUE_LEN] = [0u8; 16];
        proof {
            self.tables.facts();
            assert(value@ =~= crate::bytes::zeros(16));
            let s = seq![tombstone_slot(id)];
            assert(s[0].valid());
        }
        self.begin_one(Op::Delete { id }, effect, RowKind::Tombstone, 0, id, &value)
    }

    /// The row in which an id would be live once the staged effects are
    /// applied.
    fn projected_live_row(&self, id: u64) -> (row: Option<u64>)
        requires
            self.tables.inv(),
        ensures
            row == lookup(live_all(self.tables@.live, self.batch@), id),
    {
        let ghost live = self.tables@.live;
        let ghost es = self.batch@;
        let mut i: usize = self.batch.len();
        while i > 0
            invariant
                i <= es.len(),
                es == self.batch@,
                self.tables.inv(),
                live == self.tables@.live,
                forall|j: int| i <= j < es.len() ==> (#[trigger] es[j]).spec_id() != id,
            decreases i,
        {
            let effect = self.batch[i - 1];
            if effect.id() == id {
                proof {
                    live_all_last(live, es, id, i as int);
                    assert(es.take(i as int).last() == effect);
                }
                return if effect.leaves_live() {
                    Some(effect.at())
                } else {
                    None
                };
            }
            i = i - 1;
        }
        proof {
            live_all_last(live, es, id, 0);
            assert(es.take(0) =~= Seq::empty());
        }
        self.tables.live_row_of(id)
    }

    /// Validate one operation of a batch against what the staged ones leave.
    #[verifier::rlimit(40)]
    fn plan_op(&mut self, op: BatchOp<'_>, Ghost(p): Ghost<Plan>) -> (res: Result<bool, DbError>)
        requires
            old(self).tables.inv(),
            old(self).tables.capacity() == old(self).caps.rows,
            old(self).row_count <= old(self).caps.rows,
            old(self).batch@ == p.effects,
            old(self).batch_rows == p.slots.len() <= 128,
            p.live == live_all(old(self).tables@.live, p.effects),
        ensures
            ({
                let was = State { effects: Seq::empty(), ..old(self)@ };
                match res {
                    Err(e) => {
                        &&& was.plan_op(p, op) == Err::<Plan, DbError>(e)
                        &&& *final(self) == *old(self)
                    },
                    Ok(staged) => {
                        &&& was.plan_op(p, op) is Ok
                        &&& ({
                            let q = was.plan_op(p, op)->Ok_0;
                            &&& *final(self) == (Engine {
                                batch: final(self).batch,
                                batch_rows: final(self).batch_rows,
                                ..*old(self)
                            })
                            &&& final(self).batch@ == q.effects
                            &&& final(self).batch_rows == q.slots.len()
                            &&& staged == (q != p)
                            &&& staged ==> q.effects.len() == p.effects.len() + 1 && q.slots
                                == p.slots + effect_slots(q.effects.last(), op_bytes(op))
                            &&& !staged ==> q == p
                        })
                    },
                }
            }),
    {
        proof {
            self.tables.facts();
        }
        let bytes: &[u8] = op_value(op);
        if bytes.len() > 2048 {
            return Err(DbError::ValueTooLong { len: bytes.len() as u32, max: 2048 });
        }
        let need: u16 = if bytes.len() == 0 {
            1
        } else {
            ((bytes.len() + 15) / 16) as u16
        };
        assert(need == op_rows(op));
        // The id decides first: an operation that could not proceed on an empty
        // store is refused for that, however full this one is.
        let id: u64 = op_id(op);
        let at = self.projected_live_row(id);
        match op {
            BatchOp::Insert { .. } => {
                if at.is_some() {
                    return Err(DbError::DuplicateId { id });
                }
            },
            BatchOp::Update { .. } | BatchOp::Delete { .. } => {
                if at.is_none() {
                    return Err(DbError::NotFound { id });
                }
            },
            BatchOp::Put { .. } => {},
            BatchOp::Remove { .. } => {
                if at.is_none() {
                    return Ok(false);
                }
            },
        }
        let row: u64 = self.row_count + self.batch_rows as u64;
        if row + need as u64 > self.caps.rows {
            return Err(
                DbError::Full {
                    entity: "records",
                    capacity: self.caps.rows,
                    dead: self.tables.dead_slots(),
                },
            );
        }
        if self.batch_rows + need > 128 {
            return Err(
                DbError::BatchTooLong {
                    rows: self.batch_rows as u64 + need as u64,
                    max: 128,
                },
            );
        }
        let effect = match (op, at) {
            (BatchOp::Delete { .. }, Some(record_row)) => BatchEffect::Delete {
                id,
                at: row,
                record_row,
            },
            (BatchOp::Remove { .. }, Some(record_row)) => BatchEffect::Delete {
                id,
                at: row,
                record_row,
            },
            _ => BatchEffect::Store { id, at: row, rows: need, supersedes: at },
        };
        self.batch.push(effect);
        self.batch_rows = self.batch_rows + need;
        proof {
            let was = State { effects: Seq::empty(), ..old(self)@ };
            let q = was.plan_op(p, op)->Ok_0;
            assert(q.effects =~= p.effects.push(effect));
            if effect is Delete {
                assert(q.slots =~= p.slots + effect_slots(effect, op_bytes(op)));
            }
            assert(q.effects.len() != p.effects.len());
        }
        Ok(true)
    }

    /// Put the slots of one staged effect into the arena.
    #[verifier::rlimit(40)]
    fn stage_effect(
        &mut self,
        effect: BatchEffect,
        bytes: &[u8],
        done: u16,
        Ghost(all): Ghost<Seq<Slot>>,
    ) -> (next: u16)
        requires
            old(self).tables.inv(),
            old(self).tables.capacity() == old(self).caps.rows,
            old(self).row_count == old(self).tables@.kept.len(),
            old(self).batch_rows == all.len() <= 128,
            old(self).row_count + all.len() <= old(self).caps.rows,
            done + effect.spec_rows() <= all.len(),
            1 <= effect.spec_rows(),
            all.subrange(done as int, done + effect.spec_rows()) == effect_slots(effect, bytes@),
            staged_in(old(self).tables, old(self).row_count as int, spanned(all).take(done as int)),
        ensures
            *final(self) == (Engine { tables: final(self).tables, ..*old(self) }),
            final(self).tables.inv(),
            final(self).tables@ == old(self).tables@,
            final(self).tables.capacity() == old(self).tables.capacity(),
            next == done + effect.spec_rows(),
            staged_in(
                final(self).tables,
                old(self).row_count as int,
                spanned(all).take(next as int),
            ),
    {
        let base: u64 = self.row_count;
        let rows: u16 = match effect {
            BatchEffect::Store { rows, .. } => rows,
            BatchEffect::Delete { .. } => 1,
        };
        let id: u64 = effect.id();
        let mut k: u16 = 0;
        while k < rows
            invariant
                *self == (Engine { tables: self.tables, ..*old(self) }),
                self.tables.inv(),
                self.tables@ == old(self).tables@,
                self.tables.capacity() == old(self).tables.capacity(),
                self.tables.capacity() == self.caps.rows,
                base == self.row_count == self.tables@.kept.len(),
                self.batch_rows == all.len() <= 128,
                base + all.len() <= self.caps.rows,
                k <= rows,
                rows == effect.spec_rows(),
                id == effect.spec_id(),
                done + rows <= all.len(),
                all.subrange(done as int, done + rows) == effect_slots(effect, bytes@),
                staged_in(self.tables, base as int, spanned(all).take(done + k)),
            decreases rows - k,
        {
            let len: usize = bytes.len();
            let start: usize = k as usize * 16;
            let from: usize = if start < len {
                start
            } else {
                len
            };
            let n: usize = if len - from < 16 {
                len - from
            } else {
                16
            };
            let (kind, more, n) = match effect {
                BatchEffect::Store { supersedes, .. } => (
                    if k > 0 {
                        RowKind::Chunk
                    } else if supersedes.is_some() {
                        RowKind::Update
                    } else {
                        RowKind::Record
                    },
                    k + 1 < rows,
                    n,
                ),
                BatchEffect::Delete { .. } => (RowKind::Tombstone, false, 0),
            };
            let mut value: [u8; VALUE_LEN] = [0u8; 16];
            crate::bytes::put(&mut value, 0, slice_subrange(bytes, from, from + n));
            let ghost t0 = self.tables;
            let row: u64 = base + done as u64 + k as u64;
            let span: u8 = (self.batch_rows - 1 - done - k) as u8;
            self.tables.stage_row(row, kind, span, n as u8, more, id, &value);
            proof {
                let slot = Slot { kind, span, len: n as u8, more, id, value: value@ };
                let want = spanned(all)[done + k];
                assert(all[done + k] == effect_slots(effect, bytes@)[k as int]);
                assert(value@ =~= all[done + k].value);
                assert(slot == want);
                assert forall|j: int| 0 <= j < done + k + 1 implies #[trigger] row_bytes(
                    self.tables.bytes(),
                    base + j,
                ) == slot_image(spanned(all).take(done + k + 1)[j]) by {
                    if j < done + k {
                        assert(row_bytes(self.tables.bytes(), base + j) == row_bytes(
                            t0.bytes(),
                            base + j,
                        ));
                        assert(row_bytes(t0.bytes(), base + j) == slot_image(
                            spanned(all).take(done + k)[j],
                        ));
                    }
                }
            }
            k = k + 1;
        }
        done + rows
    }

    #[verifier::rlimit(60)]
    #[verifier::spinoff_prover]
    fn on_batch(&mut self, ops: &[BatchOp<'_>]) -> (out: Output)
        requires
            old(self).fits(),
            old(self)@.accepts(Input::Batch { ops }),
        ensures
            final(self).fits(),
            (final(self)@, out@) == old(self)@.batch(ops@),
            out.well_formed(),
    {
        if let Some(error) = self.write_gate() {
            return Output::BatchDone { rows: 0, result: Err(BatchReject { at: 0, error }) };
        }
        if ops.len() == 0 {
            return Output::BatchDone { rows: 0, result: Ok(()) };
        }
        if ops.len() > MAX_COMMIT_ROWS {
            return Output::BatchDone {
                rows: 0,
                result: Err(
                    BatchReject {
                        at: 128,
                        error: DbError::BatchTooLong { rows: ops.len() as u64, max: 128 },
                    },
                ),
            };
        }
        let ghost was = self@;
        let ghost e0 = *self;
        proof {
            self.tables.facts();
            assert(self.batch@ =~= Seq::empty());
            assert(self.slots@ =~= Seq::empty());
        }
        let mut sources: [usize; MAX_COMMIT_ROWS] = [0usize; 128];
        let mut i: usize = 0;
        let ghost mut p = Plan { effects: Seq::empty(), slots: Seq::empty(), live: was.db.live };
        while i < ops.len()
            invariant
                i <= ops@.len() <= 128,
                ops@.len() > 0,
                e0.fits(),
                e0.phase is Ready,
                was == e0@,
                was == old(self)@,
                was.row_count <= was.caps,
                was.effects == Seq::<BatchEffect>::empty(),
                *self == (Engine { batch: self.batch, batch_rows: self.batch_rows, ..e0 }),
                was.planned(ops@, i as int) == Ok::<Plan, BatchReject>(p),
                self.batch@ == p.effects,
                self.batch_rows == p.slots.len() <= 128,
                p.effects.len() <= i,
                forall|j: int| 0 <= j < p.effects.len() ==> (#[trigger] sources@[j]) < ops@.len(),
                laid(p.effects, ops@, sources@, p.effects.len() as int) == p.slots,
            decreases ops@.len() - i,
        {
            proof {
                planned_ok(was, ops@, i as int);
                assert(State { effects: Seq::empty(), ..self@ } == was);
            }
            match self.plan_op(ops[i], Ghost(p)) {
                Err(error) => {
                    proof {
                        planned_stops(was, ops@, i + 1, ops@.len() as int);
                    }
                    self.batch.clear();
                    self.batch_rows = 0;
                    assert(self.batch@ =~= Seq::empty());
                    return Output::BatchDone {
                        rows: 0,
                        result: Err(BatchReject { at: i as u16, error }),
                    };
                },
                Ok(staged) => {
                    proof {
                        planned_ok(was, ops@, i + 1);
                    }
                    let ghost q = was.planned(ops@, i + 1)->Ok_0;
                    if staged {
                        let ghost before = sources@;
                        sources[self.batch.len() - 1] = i;
                        proof {
                            assert(q.effects.drop_last() =~= p.effects);
                            laid_same(
                                p.effects,
                                q.effects,
                                ops@,
                                before,
                                sources@,
                                p.effects.len() as int,
                            );
                        }
                    }
                    proof {
                        p = q;
                    }
                },
            }
            i = i + 1;
        }
        if self.batch.len() == 0 {
            assert(self.batch_rows == 0);
            return Output::BatchDone { rows: 0, result: Ok(()) };
        }
        proof {
            planned_ok(was, ops@, ops@.len() as int);
            spanned_ok(was.db.live, was.row_count as int, p.effects, p.slots);
            effects_nonempty(was.db.live, was.row_count as int, p.effects, p.slots);
        }
        let mut e: usize = 0;
        let mut done: u16 = 0;
        let ghost e1 = *self;
        while e < self.batch.len()
            invariant
                e <= p.effects.len() <= 128,
                ops@.len() <= 128,
                self.batch@ == p.effects,
                *self == (Engine { tables: self.tables, ..e1 }),
                self.tables.inv(),
                self.tables@ == was.db,
                self.tables.capacity() == self.caps.rows,
                self.row_count == self.tables@.kept.len(),
                self.batch_rows == p.slots.len() <= 128,
                self.row_count + p.slots.len() <= self.caps.rows,
                forall|j: int| 0 <= j < p.effects.len() ==> (#[trigger] sources@[j]) < ops@.len(),
                forall|j: int| 0 <= j < p.effects.len() ==> (#[trigger] p.effects[j]).spec_rows() >= 1,
                laid(p.effects, ops@, sources@, p.effects.len() as int) == p.slots,
                done == laid(p.effects, ops@, sources@, e as int).len(),
                staged_in(self.tables, self.row_count as int, spanned(p.slots).take(done as int)),
            decreases p.effects.len() - e,
        {
            let effect = self.batch[e];
            proof {
                laid_prefix(p.effects, ops@, sources@, e + 1, p.effects.len() as int);
                let a = laid(p.effects, ops@, sources@, e as int);
                let b = laid(p.effects, ops@, sources@, e + 1);
                let es = effect_slots(effect, op_bytes(ops@[sources@[e as int] as int]));
                assert(es.len() == effect.spec_rows());
                assert(p.slots.subrange(done as int, done + es.len()) =~= es) by {
                    assert forall|j: int| 0 <= j < es.len() implies p.slots[done + j] == es[j] by {
                        assert(b[done + j] == es[j]);
                        assert(p.slots.take(b.len() as int)[done + j] == b[done + j]);
                    }
                }
            }
            let bytes: &[u8] = op_value(ops[sources[e]]);
            done = self.stage_effect(effect, bytes, done, Ghost(p.slots));
            e = e + 1;
        }
        self.slots = Ghost(spanned(p.slots));
        self.op = Op::Batch;
        self.phase = Phase::WriteRow { next: 0 };
        proof {
            assert(spanned(p.slots).take(done as int) =~= spanned(p.slots));
        }
        self.row_write(0)
    }

    /// Apply the commit in flight to the tables.
    #[verifier::rlimit(60)]
    #[verifier::spinoff_prover]
    fn apply_batch(&mut self)
        requires
            old(self).tables.inv(),
            old(self).tables.capacity() == old(self).caps.rows,
            old(self).row_count == old(self).tables@.kept.len(),
            old(self).slots@.len() <= 128,
            old(self).row_count + old(self).slots@.len() <= old(self).caps.rows,
            staged_ok(
                old(self).tables@.live,
                old(self).row_count as int,
                old(self).batch@,
                old(self).slots@,
            ),
            staged_in(old(self).tables, old(self).row_count as int, old(self).slots@),
        ensures
            *final(self) == (Engine { tables: final(self).tables, ..*old(self) }),
            final(self).tables.inv(),
            final(self).tables.capacity() == old(self).tables.capacity(),
            final(self).tables@ == applied(old(self).tables@, old(self).batch@, old(self).slots@),
            final(self).tables@.kept.len() == old(self).row_count + old(self).slots@.len(),
            final(self).tables@.quarantined == old(self).tables@.quarantined,
    {
        let ghost effects = self.batch@;
        let ghost slots = self.slots@;
        let ghost base = self.row_count as int;
        let ghost mut rest = slots;
        let mut i: usize = 0;
        assert(effects.skip(0) =~= effects);
        while i < self.batch.len()
            invariant
                i <= effects.len(),
                *self == (Engine { tables: self.tables, ..*old(self) }),
                effects == self.batch@,
                effects == old(self).batch@,
                slots == old(self).slots@,
                base == old(self).row_count,
                self.tables.inv(),
                self.tables.capacity() == self.caps.rows,
                rest.len() <= slots.len() <= 128,
                base + slots.len() <= self.caps.rows,
                rest == slots.skip(slots.len() - rest.len()),
                self.tables@.kept.len() == base + slots.len() - rest.len(),
                self.tables@.quarantined == old(self).tables@.quarantined,
                staged_ok(
                    self.tables@.live,
                    self.tables@.kept.len() as int,
                    effects.skip(i as int),
                    rest,
                ),
                staged_in(self.tables, base, slots),
                applied(self.tables@, effects.skip(i as int), rest) == applied(
                    old(self).tables@,
                    effects,
                    slots,
                ),
            decreases effects.len() - i,
        {
            let effect = self.batch[i];
            let ghost n = effect.spec_rows();
            let ghost mine = rest.take(n);
            let ghost at = self.tables@.kept.len() as int;
            let ghost t0 = self.tables;
            proof {
                self.tables.facts();
                let es = effects.skip(i as int);
                assert(es[0] == effect);
                assert(es.drop_first() =~= effects.skip(i + 1));
                assert(rest.skip(n) =~= slots.skip(slots.len() - (rest.len() - n)));
                assert forall|k: int| 0 <= k < n implies #[trigger] arena_row(
                    self.tables.bytes(),
                    at + k,
                ) == Some(mine[k]) by {
                    let j = at - base + k;
                    assert(slots[j] == mine[k]);
                    assert(row_bytes(self.tables.bytes(), base + j) == slot_image(slots[j]));
                    crate::slot::slot_parses_its_image(
                        row_bytes(self.tables.bytes(), at + k),
                        mine[k],
                    );
                    assert(slot_image(mine[k]).take(32) =~= slot_image(mine[k]));
                }
            }
            match effect {
                BatchEffect::Store { id, rows, supersedes, .. } => {
                    let ghost run = all_some(mine);
                    proof {
                        assert forall|k: int| 0 <= k < run.len() implies #[trigger] arena_row(
                            self.tables.bytes(),
                            at + k,
                        ) == run[k] && run[k] is Some && (run[k]->0).valid() by {
                            assert(run[k] == Some(mine[k]));
                        }
                        assert(run[0] == Some(mine[0]));
                    }
                    self.tables.store_run(rows as u64, id, supersedes, Ghost(run));
                },
                BatchEffect::Delete { record_row, .. } => {
                    proof {
                        assert(arena_row(self.tables.bytes(), at + 0) == Some(mine[0]));
                    }
                    self.tables.delete_row(record_row, Ghost(mine[0]));
                },
            }
            proof {
                assert(self.tables@ == applied_one(t0@, effect, mine));
                assert(self.tables@.live =~= live_after(t0@.live, effect));
                rest = rest.skip(n);
            }
            i = i + 1;
        }
        assert(effects.skip(i as int) =~= Seq::empty());
    }

    /// The reply that ends the commit in flight.
    fn done(&self, error: Option<DbError>) -> (out: Output)
        requires
            self.batch_rows == self.slots@.len(),
        ensures
            out@ == self@.done(error),
            out.well_formed(),
    {
        let result: Result<(), DbError> = match error {
            None => Ok(()),
            Some(e) => Err(e),
        };
        match self.op {
            Op::Insert { id } => Output::InsertDone { id, result },
            Op::Update { id } => Output::UpdateDone { id, result },
            Op::Delete { id } => Output::DeleteDone { id, result },
            Op::Batch => match error {
                None => Output::BatchDone { rows: self.batch_rows as u64, result: Ok(()) },
                Some(error) => Output::BatchDone {
                    rows: 0,
                    result: Err(BatchReject { at: 0, error }),
                },
            },
        }
    }

    /// Forget the commit in flight.
    fn clear_commit(&mut self)
        ensures
            *final(self) == (Engine {
                op: Op::Batch,
                batch: final(self).batch,
                batch_rows: 0,
                slots: final(self).slots,
                ..*old(self)
            }),
            final(self).batch@ == Seq::<BatchEffect>::empty(),
            final(self).slots@ == Seq::<Slot>::empty(),
    {
        self.op = Op::Batch;
        self.batch.clear();
        self.batch_rows = 0;
        self.slots = Ghost(Seq::empty());
        assert(self.batch@ =~= Seq::empty());
    }

    /// One copy of the superblock that the commit in flight installs.
    fn commit_sb(&self, copy: u8) -> (out: Output)
        requires
            self.fits(),
            self.phase.committing(),
            copy < 2,
        ensures
            out@ == self@.commit_sb(copy as int),
            out.well_formed(),
    {
        proof {
            self.tables.facts();
        }
        Self::sb_copy_write(
            self.generation + 1,
            self.row_count + self.batch_rows as u64,
            self.caps.rows,
            copy,
        )
    }

    fn commit(&mut self) -> (out: Output)
        requires
            old(self).fits(),
            old(self).phase is FsyncSb,
        ensures
            final(self).fits(),
            (final(self)@, out@) == old(self)@.commit(),
            out.well_formed(),
    {
        let out = self.done(None);
        self.generation = self.generation + 1;
        self.apply_batch();
        self.row_count = self.row_count + self.batch_rows as u64;
        self.clear_commit();
        self.phase = Phase::Ready;
        out
    }

    // ---- Completions ----

    fn on_write_done(&mut self, file: FileId) -> (out: Output)
        requires
            old(self).fits(),
            old(self)@.accepts(Input::WriteDone { file }),
        ensures
            final(self).fits(),
            (final(self)@, out@) == old(self)@.write_done(),
            out.well_formed(),
    {
        proof {
            self.tables.facts();
        }
        match self.phase {
            Phase::InitWriteSb { copy } => {
                if copy == 0 {
                    self.phase = Phase::InitWriteSb { copy: 1 };
                    return Self::sb_copy_write(1, 0, self.caps.rows, 1);
                }
                self.phase = Phase::InitFsyncSb;
                Output::Fsync { file: FileId::Superblock }
            },
            Phase::RecoverRepairSb { generation, row_count, .. } => {
                self.phase = Phase::RecoverFsyncSb { generation, row_count };
                Output::Fsync { file: FileId::Superblock }
            },
            Phase::WriteRow { next } => {
                if next + 1 < self.batch_rows {
                    self.phase = Phase::WriteRow { next: next + 1 };
                    return self.row_write(next + 1);
                }
                self.phase = Phase::FsyncRows;
                Output::Fsync { file: FileId::Rows }
            },
            Phase::WriteSb { copy } => {
                if copy == 0 {
                    self.phase = Phase::WriteSb { copy: 1 };
                    return self.commit_sb(1);
                }
                self.phase = Phase::FsyncSb;
                Output::Fsync { file: FileId::Superblock }
            },
            _ => Output::Fsync { file: FileId::Superblock },
        }
    }

    fn on_fsync_done(&mut self, file: FileId) -> (out: Output)
        requires
            old(self).fits(),
            old(self)@.accepts(Input::FsyncDone { file }),
        ensures
            final(self).fits(),
            (final(self)@, out@) == old(self)@.fsync_done(),
            out.well_formed(),
    {
        proof {
            self.tables.facts();
        }
        match self.phase {
            Phase::InitFsyncSb => self.finish_open(1, 0),
            Phase::RecoverFsyncRows { generation, row_count } => {
                if let Some(copy) = self.pending_repair {
                    self.pending_repair = None;
                    self.phase = Phase::RecoverRepairSb { generation, row_count, copy };
                    return Self::sb_copy_write(generation, row_count, self.caps.rows, copy);
                }
                self.phase = Phase::RecoverFsyncSb { generation, row_count };
                Output::Fsync { file: FileId::Superblock }
            },
            Phase::RecoverFsyncSb { generation, row_count } => self.finish_open(
                generation,
                row_count,
            ),
            Phase::FsyncRows => {
                self.phase = Phase::WriteSb { copy: 0 };
                self.commit_sb(0)
            },
            Phase::FsyncSb => self.commit(),
            _ => Output::Fsync { file: FileId::Superblock },
        }
    }

    fn on_io_failed(&mut self, file: FileId) -> (out: Output)
        requires
            old(self).fits(),
            old(self)@.accepts(Input::IoFailed { file }),
        ensures
            final(self).fits(),
            (final(self)@, out@) == old(self)@.io_failed(file),
            out.well_formed(),
    {
        let err = DbError::IoFailed { file };
        match self.phase {
            Phase::WriteRow { .. } | Phase::FsyncRows | Phase::WriteSb { .. } | Phase::FsyncSb => {
                let out = self.done(Some(err));
                self.clear_commit();
                self.phase = Phase::Failed(err);
                out
            },
            _ => self.fail_open(err),
        }
    }

    // ---- Reading ----

    fn read_gate(&self) -> (err: Option<DbError>)
        requires
            self.fits(),
        ensures
            err == self@.read_gate(),
    {
        match self.phase {
            Phase::Ready | Phase::Degraded => None,
            Phase::New
            | Phase::InitWriteSb { .. }
            | Phase::InitFsyncSb
            | Phase::RecoverReadSb
            | Phase::RecoverReadRows { .. }
            | Phase::RecoverTruncateRows { .. }
            | Phase::RecoverFsyncRows { .. }
            | Phase::RecoverRepairSb { .. }
            | Phase::RecoverFsyncSb { .. } => Some(DbError::NotOpen),
            Phase::WriteRow { .. } | Phase::FsyncRows | Phase::WriteSb { .. } | Phase::FsyncSb => Some(
                DbError::Busy,
            ),
            Phase::Failed(e) => Some(e),
        }
    }

    fn read_window(&self, id: u64, offset: u32) -> (out: Output)
        requires
            self.fits(),
        ensures
            out@ == self@.get(id, offset),
            out.well_formed(),
    {
        if let Some(e) = self.read_gate() {
            return Output::GetDone { id, result: Err(e) };
        }
        match self.tables.window_of(id, offset) {
            Some(window) => Output::GetDone { id, result: Ok(Some(window)) },
            None => if self.is_degraded() {
                Output::GetDone {
                    id,
                    result: Err(DbError::Degraded { quarantined: self.tables.quarantined() }),
                }
            } else {
                Output::GetDone { id, result: Ok(None) }
            },
        }
    }

    fn on_range(&self, lo: u64, hi: u64) -> (out: Output)
        requires
            self.fits(),
        ensures
            out@ == self@.range(lo, hi),
            out.well_formed(),
    {
        if let Some(e) = self.read_gate() {
            return Output::RangeDone { result: Err(e) };
        }
        Output::RangeDone { result: Ok(self.tables.scan_page(lo, hi)) }
    }

    fn on_find(&mut self, needle: [u8; VALUE_LEN], needle_len: u8, after: Option<FindCursor>) -> (out:
        Output)
        requires
            old(self).fits(),
            old(self)@.accepts(Input::Find { needle, needle_len, after }),
        ensures
            final(self).fits(),
            (final(self)@, out@) == old(self)@.find(needle@.take(needle_len as int), after),
            out.well_formed(),
    {
        if let Some(e) = self.read_gate() {
            return Output::FindDone { result: Err(e) };
        }
        let pattern = slice_subrange(&needle, 0, needle_len as usize);
        assert(pattern@ =~= needle@.take(needle_len as int));
        let (page, checks) = self.tables.find_page(pattern, after);
        self.find_verifications = self.find_verifications.saturating_add(checks);
        Output::FindDone { result: Ok(page) }
    }

    /// Take one input and give one output: the step function of the model.
    pub fn tick(&mut self, input: Input<'_>) -> (out: Output)
        requires
            old(self).inv(),
            old(self)@.accepts(input),
        ensures
            final(self).inv(),
            (final(self)@, out@) == old(self)@.step(input),
            out.well_formed(),
    {
        proof {
            step_keeps(self@, input);
        }
        match input {
            Input::Open { superblock_len, rows_len } => self.on_open(superblock_len, rows_len),
            Input::OpenSalvage { superblock_len, rows_len } => {
                self.salvage = true;
                self.on_open(superblock_len, rows_len)
            },
            Input::ReadDone { file, data } => self.on_read_done(file, data),
            Input::WriteDone { file } => self.on_write_done(file),
            Input::FsyncDone { file } => self.on_fsync_done(file),
            Input::TruncateDone { file } => self.on_truncate_done(file),
            Input::IoFailed { file } => self.on_io_failed(file),
            Input::Insert { id, value } => self.on_insert(id, value),
            Input::Update { id, value } => self.on_update(id, value),
            Input::Delete { id } => self.on_delete(id),
            Input::Batch { ops } => self.on_batch(ops),
            Input::Get { id } => self.read_window(id, 0),
            Input::GetFrom { id, offset } => self.read_window(id, offset),
            Input::Range { lo, hi } => self.on_range(lo, hi),
            Input::Find { needle, needle_len, after } => self.on_find(needle, needle_len, after),
        }
    }
}

/// The bytes that an operation writes.
fn op_value<'a>(op: BatchOp<'a>) -> (bytes: &'a [u8])
    ensures
        bytes@ == op_bytes(op),
{
    match op {
        BatchOp::Insert { value, .. } => value,
        BatchOp::Update { value, .. } => value,
        BatchOp::Put { value, .. } => value,
        BatchOp::Delete { .. } => empty_slice(),
        BatchOp::Remove { .. } => empty_slice(),
    }
}

fn empty_slice<'a>() -> (bytes: &'a [u8])
    ensures
        bytes@ == Seq::<u8>::empty(),
{
    let none: &'a [u8; 0] = &[];
    assert(none@ =~= Seq::empty());
    none
}

fn op_id(op: BatchOp<'_>) -> (id: u64)
    ensures
        id == op_key(op),
{
    match op {
        BatchOp::Insert { id, .. } => id,
        BatchOp::Update { id, .. } => id,
        BatchOp::Put { id, .. } => id,
        BatchOp::Delete { id } => id,
        BatchOp::Remove { id } => id,
    }
}

/// The slots that an effect writes, but for their spans.
spec fn effect_slots(e: BatchEffect, bytes: Seq<u8>) -> Seq<Slot> {
    match e {
        BatchEffect::Store { id, rows, supersedes, .. } => value_slots(
            if supersedes is Some {
                RowKind::Update
            } else {
                RowKind::Record
            },
            id,
            bytes,
            rows as int,
        ),
        BatchEffect::Delete { id, .. } => seq![tombstone_slot(id)],
    }
}

/// The slots of the first `n` effects, each from its operation's bytes.
spec fn laid(effects: Seq<BatchEffect>, ops: Seq<BatchOp>, sources: Seq<usize>, n: int) -> Seq<Slot>
    decreases n,
{
    if n <= 0 {
        Seq::empty()
    } else {
        laid(effects, ops, sources, n - 1) + effect_slots(
            effects[n - 1],
            op_bytes(ops[sources[n - 1] as int]),
        )
    }
}

proof fn laid_same(
    a: Seq<BatchEffect>,
    b: Seq<BatchEffect>,
    ops: Seq<BatchOp>,
    s: Seq<usize>,
    t: Seq<usize>,
    n: int,
)
    requires
        forall|j: int| 0 <= j < n ==> (#[trigger] a[j]) == b[j],
        forall|j: int| 0 <= j < n ==> (#[trigger] s[j]) == t[j],
    ensures
        laid(a, ops, s, n) == laid(b, ops, t, n),
    decreases n,
{
    if n > 0 {
        laid_same(a, b, ops, s, t, n - 1);
        assert(a[n - 1] == b[n - 1]);
        assert(s[n - 1] == t[n - 1]);
    }
}

proof fn laid_prefix(
    effects: Seq<BatchEffect>,
    ops: Seq<BatchOp>,
    sources: Seq<usize>,
    m: int,
    n: int,
)
    requires
        0 <= m <= n,
    ensures
        laid(effects, ops, sources, m).len() <= laid(effects, ops, sources, n).len(),
        laid(effects, ops, sources, n).take(laid(effects, ops, sources, m).len() as int) == laid(
            effects,
            ops,
            sources,
            m,
        ),
    decreases n - m,
{
    let a = laid(effects, ops, sources, m);
    if m < n {
        laid_prefix(effects, ops, sources, m, n - 1);
        let b = laid(effects, ops, sources, n - 1);
        assert(laid(effects, ops, sources, n).take(a.len() as int) =~= b.take(a.len() as int));
    } else {
        assert(a.take(a.len() as int) =~= a);
    }
}

/// Once an operation is refused, so is the batch.
proof fn planned_stops(s: State, ops: Seq<BatchOp>, m: int, n: int)
    requires
        0 <= m <= n,
        s.planned(ops, m) is Err,
    ensures
        s.planned(ops, n) == s.planned(ops, m),
    decreases n - m,
{
    if m < n {
        planned_stops(s, ops, m, n - 1);
    }
}

proof fn effects_nonempty(
    live: Map<u64, u64>,
    at: int,
    effects: Seq<BatchEffect>,
    slots: Seq<Slot>,
)
    requires
        staged_ok(live, at, effects, slots),
    ensures
        forall|j: int| 0 <= j < effects.len() ==> (#[trigger] effects[j]).spec_rows() >= 1,
    decreases effects.len(),
{
    if effects.len() > 0 {
        let n = effects[0].spec_rows();
        effects_nonempty(
            live_after(live, effects[0]),
            at + n,
            effects.drop_first(),
            slots.skip(n),
        );
        assert forall|j: int| 0 <= j < effects.len() implies (#[trigger] effects[j]).spec_rows()
            >= 1 by {
            if j > 0 {
                assert(effects.drop_first()[j - 1] == effects[j]);
            }
        }
    }
}

proof fn one_slot_run(s: Slot)
    requires
        s.valid(),
        s.starts_value(),
    ensures
        is_run(all_some(seq![s])),
        seq![s][0].valid(),
{
    let run = all_some(seq![s]);
    assert(run.len() == 1);
    assert(run[0] == Some(s));
}

/// Row `row` of a rows file.
fn read_row(data: &[u8], row: u64, row_count: u64) -> (slot: Option<RowSlot>)
    requires
        row < row_count,
        32 * row_count <= data.len(),
    ensures
        match slot {
            Some(s) => read_log(data@, row_count as int)[row as int] == Some(s@),
            None => read_log(data@, row_count as int)[row as int] is None,
        },
{
    let off: usize = row as usize * 32;
    decode_slot(slice_subrange(data, off, off + 32))
}

/// Look at the rows past the committed ones: how many are readable, and can
/// they all stem from one interrupted commit?
fn scan_orphans(past: &[u8]) -> (out: (u64, bool))
    ensures
        out.0 == readable(past@, past@.len() as int / 32),
        out.1 == rollback_evidence(past@, past@.len() as int / 32),
{
    let n: usize = past.len() / 32;
    let ghost log = read_log(past@, n as int);
    let mut valid: u64 = 0;
    let mut claimed: Option<u64> = None;
    let mut disagreed: bool = false;
    let ghost mut first: int = 0;
    let mut j: usize = 0;
    while j < n
        invariant
            j <= n == past.len() / 32,
            log == read_log(past@, n as int),
            valid == readable(past@, j as int),
            valid <= j,
            claimed is None ==> !disagreed && forall|i: int| 0 <= i < j ==> (#[trigger] log[i]) is None,
            claimed is Some ==> {
                &&& 0 <= first < j
                &&& log[first] is Some
                &&& claimed->0 == first + (log[first]->0).span + 1
            },
            disagreed ==> exists|i: int, k: int|
                0 <= i < n && 0 <= k < n && #[trigger] disagree(log, i, k),
            !disagreed && claimed is Some ==> forall|i: int|
                0 <= i < j && (#[trigger] log[i]) is Some ==> i + (log[i]->0).span + 1 == claimed->0,
        decreases n - j,
    {
        let off: usize = j * 32;
        let slot = decode_slot(slice_subrange(past, off, off + 32));
        assert(read_log(past@, j + 1)[j as int] == log[j as int]);
        match slot {
            None => {},
            Some(s) => {
                assert(log[j as int] == Some(s@));
                valid = valid + 1;
                let claim: u64 = (j as u64).saturating_add(s.span as u64 + 1);
                proof {
                    assert(j + 1 + 255 < u64::MAX) by {
                        assert(32 * n <= past.len());
                        assert(past.len() <= usize::MAX);
                    }
                }
                match claimed {
                    None => {
                        proof {
                            first = j as int;
                        }
                        claimed = Some(claim);
                    },
                    Some(c) => {
                        if c != claim {
                            assert(disagree(log, first, j as int));
                            disagreed = true;
                        }
                    },
                }
            },
        }
        j = j + 1;
    }
    proof {
        if !disagreed && rollback_evidence(past@, n as int) {
            let (a, b) = choose|a: int, b: int|
                0 <= a < n && 0 <= b < n && #[trigger] disagree(log, a, b);
            assert(log[a] is Some && log[b] is Some);
        }
    }
    (valid, disagreed)
}

} // verus!
