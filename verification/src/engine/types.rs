//! What goes into the engine and what comes out of it.

use crate::engine::tables::sizeable;
use crate::layout::{SB_COPY_SIZE, VALUE_LEN};
use crate::slot::MAX_COMMIT_ROWS;
use crate::trigram::FindCursor;
use vstd::prelude::*;
use vstd::slice::slice_subrange;

verus! {

/// The declared file set: one file per zone.
#[derive(Debug, Clone, Copy, PartialEq, Eq, Structural)]
pub enum FileId {
    /// The superblock copy set: the sole atomicity point.
    Superblock,
    /// Fixed-width row slots for the `records` table, in the schema this
    /// binary was compiled against.
    Rows,
    /// The LEGACY rows file (previous schema). Only the migration engine ever
    /// touches it, and only to READ.
    RowsOld,
}

/// Capacities supplied at open. Layout is a compile-time constant; capacity is
/// an open-time argument.
#[derive(Debug, Clone, Copy, PartialEq, Eq)]
pub struct Capacities {
    /// Maximum number of rows in the `records` table.
    pub rows: u64,
}

impl Capacities {
    /// Can an engine be made for this?
    pub fn admissible(&self) -> (yes: bool)
        ensures
            yes == sizeable(self.rows),
    {
        self.rows > 0 && self.rows <= (usize::MAX / 32) as u64 && self.rows <= 0x0FFF_FFFF
    }
}

/// User-visible errors. Capacity exhaustion is first-class: the error carries
/// the entity and the configured capacity.
#[derive(Debug, Clone, Copy, PartialEq, Eq)]
pub enum DbError {
    /// The zone is at its declared capacity. `dead` is how many of those slots
    /// hold nothing useful: superseded and deleted values, all their slots, and
    /// the tombstones that retired them. A rebuild reclaims exactly those.
    Full { entity: &'static str, capacity: u64, dead: u64 },
    /// A row with this id already exists.
    DuplicateId { id: u64 },
    /// No row with this id exists.
    NotFound { id: u64 },
    /// An operation is already in flight; all access is serialized.
    Busy,
    /// The engine has not completed `open()` yet.
    NotOpen,
    /// The file was written by a different schema. Migrate before opening.
    SchemaMismatch { file_schema: u64, binary_schema: u64 },
    /// The configured capacity is smaller than the committed data already on
    /// disk. Reopen with at least `required` rows.
    CapacityBelowData { required: u64, configured: u64 },
    /// On-disk state violates an invariant the commit protocol guarantees. A
    /// strict `Open` refuses such a file outright; `OpenSalvage` opens it
    /// read-only with the damaged rows quarantined.
    Corrupt { what: &'static str },
    /// The database is open in SALVAGE mode with `quarantined` unreadable
    /// rows, and this operation cannot be answered honestly: writes are
    /// refused outright, and so is a `Get` miss, because "absent" is no longer
    /// distinguishable from "was in a quarantined slot".
    Degraded { quarantined: u64 },
    /// The batch names more operations, or needs more row slots, than one
    /// commit can carry.
    BatchTooLong { rows: u64, max: u64 },
    /// The value is longer than a single commit can carry.
    ValueTooLong { len: u32, max: u32 },
    /// The host reported an I/O error on this file. The engine fail-stops: the
    /// in-flight operation is failed, all further operations are rejected, and
    /// the host must restart and re-open.
    IoFailed { file: FileId },
}

/// The longest value this store will hold: a value is written as a run of
/// slots inside ONE commit, so its ceiling is the longest commit the row
/// format can describe.
pub const MAX_VALUE_LEN: usize = VALUE_LEN * MAX_COMMIT_ROWS;

/// A bounded window onto a value, which may be longer than one row. `total` is
/// the value's full length, so a caller can never mistake a prefix for the
/// whole.
#[derive(Debug, Clone, Copy, PartialEq, Eq)]
pub struct ValueWindow {
    /// The whole value's length in bytes.
    pub total: u32,
    /// Where this window starts within the value.
    pub offset: u32,
    /// Bytes valid in `bytes`.
    pub len: u8,
    pub bytes: [u8; VALUE_LEN],
}

/// A window, with its bytes as a sequence.
#[verifier::ext_equal]
pub struct WindowView {
    pub total: u32,
    pub offset: u32,
    pub len: u8,
    pub bytes: Seq<u8>,
}

impl View for ValueWindow {
    type V = WindowView;

    open spec fn view(&self) -> WindowView {
        WindowView { total: self.total, offset: self.offset, len: self.len, bytes: self.bytes@ }
    }
}

impl ValueWindow {
    /// The bytes this window carries.
    pub fn payload(&self) -> (bytes: &[u8])
        requires
            self.len <= 16,
        ensures
            bytes@ == self.bytes@.take(self.len as int),
    {
        slice_subrange(&self.bytes, 0, self.len as usize)
    }

    /// Where the next window starts, or `None` when this one ends the value.
    pub fn next_offset(&self) -> (next: Option<u32>)
        requires
            self.offset + self.len <= u32::MAX,
        ensures
            next == (if self.offset + self.len < self.total {
                Some((self.offset + self.len) as u32)
            } else {
                None
            }),
            next == crate::engine::packing::follows(self@),
    {
        let end: u32 = self.offset + self.len as u32;
        if end < self.total {
            Some(end)
        } else {
            None
        }
    }

    /// The whole value, when it fits in one window. `None` means the value is
    /// longer than a row and the caller must read the rest.
    pub fn whole(&self) -> (bytes: Option<&[u8]>)
        requires
            self.len <= 16,
        ensures
            bytes is Some == (self.total == self.len),
            bytes is Some ==> (bytes->0)@ == self.bytes@.take(self.len as int),
    {
        if self.total == self.len as u32 {
            Some(self.payload())
        } else {
            None
        }
    }
}

/// One row of a scan result: the id, the value's full length, and as much of
/// the value as fits in a row.
#[derive(Debug, Clone, Copy, PartialEq, Eq)]
pub struct RowRef {
    pub id: u64,
    /// The value's full length, which may exceed `VALUE_LEN`.
    pub len: u32,
    /// The value's first `min(len, VALUE_LEN)` bytes.
    pub head: [u8; VALUE_LEN],
}

/// A scan result's row, with its bytes as a sequence.
#[verifier::ext_equal]
pub struct RowView {
    pub id: u64,
    pub len: u32,
    pub head: Seq<u8>,
}

impl RowView {
    /// The value, if the whole of it is here.
    pub open spec fn whole(self) -> Option<Seq<u8>> {
        if self.len <= 16 {
            Some(self.head.take(self.len as int))
        } else {
            None
        }
    }
}

impl View for RowRef {
    type V = RowView;

    open spec fn view(&self) -> RowView {
        RowView { id: self.id, len: self.len, head: self.head@ }
    }
}

impl RowRef {
    /// The row that fills the unused places of a page.
    pub fn empty() -> (r: RowRef)
        ensures
            r@ == empty_row(),
    {
        let r = RowRef { id: 0, len: 0, head: [0u8; 16] };
        assert(r.head@ =~= crate::bytes::zeros(16));
        r
    }

    /// The whole value, when it fits in one row; `None` when it spans several
    /// and must be read with `Input::GetFrom`.
    pub fn value(&self) -> (bytes: Option<&[u8]>)
        ensures
            bytes is Some == (self.len <= 16),
            bytes is Some ==> (bytes->0)@ == self.head@.take(self.len as int),
            match bytes {
                Some(b) => self@.whole() == Some(b@),
                None => self@.whole() is None,
            },
    {
        if self.len <= 16 {
            Some(slice_subrange(&self.head, 0, self.len as usize))
        } else {
            None
        }
    }
}

pub open spec fn empty_row() -> RowView {
    RowView { id: 0, len: 0, head: crate::bytes::zeros(16) }
}

/// One operation inside an atomic batch (`Input::Batch`). What a batch changes
/// is not what an operation means but when it becomes true: every op becomes
/// durable under ONE superblock flip.
#[derive(Debug, Clone, Copy, PartialEq, Eq)]
pub enum BatchOp<'a> {
    /// Add a row; refuses the batch if the id is already live.
    Insert { id: u64, value: &'a [u8] },
    /// Replace a live row's value; refuses the batch if the id is absent.
    Update { id: u64, value: &'a [u8] },
    /// Insert or replace, whichever applies. Resolved during validation
    /// against the state that the batch's earlier ops would leave.
    Put { id: u64, value: &'a [u8] },
    /// Delete a live row; refuses the batch if the id is absent.
    Delete { id: u64 },
    /// Delete the row if it is there, and do nothing if it is not. Stages no
    /// row when there is nothing to remove, so a batch is not lost to one
    /// target that had already gone.
    Remove { id: u64 },
}

/// Why a batch was refused, and where.
///
/// A batch is validated in full before any byte is written, against the state
/// that each op would see if its predecessors had already applied. If any op
/// cannot proceed, the whole batch is refused having performed no I/O at all.
/// `at` says which operation stopped it, and `error` is exactly the error that
/// the operation would have returned on its own.
#[derive(Debug, Clone, Copy, PartialEq, Eq)]
pub struct BatchReject {
    pub at: u16,
    pub error: DbError,
}

/// What one staged operation will do at the commit point. Resolved during
/// validation, so that the commit itself has nothing left to decide.
#[derive(Debug, Clone, Copy, PartialEq, Eq)]
pub enum BatchEffect {
    /// A value written into `rows` consecutive slots starting at `at`.
    /// `supersedes` is the slot whose record this retires.
    Store { id: u64, at: u64, rows: u16, supersedes: Option<u64> },
    /// A tombstone in slot `at`, retiring the value that starts at
    /// `record_row`.
    Delete { id: u64, at: u64, record_row: u64 },
}

impl BatchEffect {
    pub open spec fn spec_id(self) -> u64 {
        match self {
            BatchEffect::Store { id, .. } => id,
            BatchEffect::Delete { id, .. } => id,
        }
    }

    pub open spec fn spec_at(self) -> u64 {
        match self {
            BatchEffect::Store { at, .. } => at,
            BatchEffect::Delete { at, .. } => at,
        }
    }

    /// How many slots it takes.
    pub open spec fn spec_rows(self) -> int {
        match self {
            BatchEffect::Store { rows, .. } => rows as int,
            BatchEffect::Delete { .. } => 1,
        }
    }

    pub fn id(self) -> (id: u64)
        ensures
            id == self.spec_id(),
    {
        match self {
            BatchEffect::Store { id, .. } => id,
            BatchEffect::Delete { id, .. } => id,
        }
    }

    /// The slot this effect's head row occupies.
    pub fn at(self) -> (at: u64)
        ensures
            at == self.spec_at(),
    {
        match self {
            BatchEffect::Store { at, .. } => at,
            BatchEffect::Delete { at, .. } => at,
        }
    }

    /// Does this effect leave `id` live in the slot it occupies?
    pub fn leaves_live(self) -> (yes: bool)
        ensures
            yes == (self is Store),
    {
        match self {
            BatchEffect::Store { .. } => true,
            BatchEffect::Delete { .. } => false,
        }
    }
}

/// An owned, bounded write payload. Rows are 32 bytes and superblock copies
/// 64, so every write the core ever issues fits in one fixed buffer.
#[derive(Debug, Clone, Copy, PartialEq, Eq)]
pub struct WriteBuf {
    pub len: u8,
    pub buf: [u8; SB_COPY_SIZE],
}

impl View for WriteBuf {
    type V = Seq<u8>;

    open spec fn view(&self) -> Seq<u8> {
        self.buf@.take(self.len as int)
    }
}

impl WriteBuf {
    pub open spec fn fits(&self) -> bool {
        1 <= self.len <= 64
    }

    pub fn from_slice(src: &[u8]) -> (b: Self)
        requires
            1 <= src@.len() <= 64,
        ensures
            b@ == src@,
            b.fits(),
            forall|i: int| src@.len() <= i < 64 ==> #[trigger] b.buf@[i] == 0,
    {
        let mut buf: [u8; SB_COPY_SIZE] = [0u8; 64];
        crate::bytes::put(&mut buf, 0, src);
        let b = WriteBuf { len: src.len() as u8, buf };
        assert(b@ =~= src@);
        b
    }

    pub fn as_slice(&self) -> (bytes: &[u8])
        requires
            self.len <= 64,
        ensures
            bytes@ == self@,
    {
        slice_subrange(&self.buf, 0, self.len as usize)
    }
}

/// Everything that can happen to the engine. I/O completions are fed back by
/// the host; client operations come from the embedding application.
#[derive(Debug, Clone, Copy, PartialEq, Eq)]
pub enum Input<'a> {
    /// Begin opening. The host reports the existing sizes of the declared file
    /// set (0 = fresh).
    Open { superblock_len: u64, rows_len: u64 },
    /// Begin opening in SALVAGE mode: identical to `Open`, except that a
    /// committed row which fails verification is QUARANTINED instead of
    /// failing the open.
    OpenSalvage { superblock_len: u64, rows_len: u64 },
    /// A read the core requested has completed with these bytes.
    ReadDone { file: FileId, data: &'a [u8] },
    /// A write the core requested has completed.
    WriteDone { file: FileId },
    /// An fsync the core requested has completed.
    FsyncDone { file: FileId },
    /// A truncate the core requested has completed.
    TruncateDone { file: FileId },
    /// The I/O the core requested FAILED. The engine assumes nothing about
    /// what reached the disk. It fail-stops; restart to recover.
    IoFailed { file: FileId },
    /// Client: insert a row.
    Insert { id: u64, value: [u8; VALUE_LEN] },
    /// Client: replace the value of an existing row, in ONE atomic commit.
    Update { id: u64, value: [u8; VALUE_LEN] },
    /// Client: delete a row by primary key, by APPENDING a tombstone.
    Delete { id: u64 },
    /// Client: apply several writes as ONE commit. Each op is validated
    /// against the state its predecessors in the same batch would leave; if
    /// any op is refused, the whole batch is, with no I/O performed.
    Batch { ops: &'a [BatchOp<'a>] },
    /// Client: fetch a row by primary key: the FIRST window of the value.
    Get { id: u64 },
    /// Client: continue reading a value from `offset`, which must be a
    /// multiple of the row width.
    GetFrom { id: u64, offset: u32 },
    /// Client: range scan by primary key, `lo..=hi`, one bounded page per
    /// call. Continue by re-issuing with `lo = page.next`.
    Range { lo: u64, hi: u64 },
    /// Client: substring search over value bytes. One bounded page per call,
    /// newest first; continue by re-issuing with `after = page.next`.
    /// `needle_len` bytes of `needle` are the pattern.
    Find { needle: [u8; VALUE_LEN], needle_len: u8, after: Option<FindCursor> },
}

/// Exactly one output per input. I/O requests must be completed before the
/// next client operation is accepted.
#[derive(Debug, Clone, Copy, PartialEq, Eq)]
pub enum Output {
    /// Host: read `len` bytes at `offset` and feed back `ReadDone`.
    Read { file: FileId, offset: u64, len: u64 },
    /// Host: write these bytes at `offset` and feed back `WriteDone`.
    Write { file: FileId, offset: u64, data: WriteBuf },
    /// Host: fsync the file and feed back `FsyncDone`.
    Fsync { file: FileId },
    /// Host: shorten the file to `len` bytes and feed back `TruncateDone`.
    /// Only ever asked for bytes the manifest does not reference.
    Truncate { file: FileId, len: u64 },
    /// Open finished. `Ok(n)` = recovered `n` committed rows.
    OpenDone { result: Result<u64, DbError> },
    /// Insert finished (durably committed if `Ok`).
    InsertDone { id: u64, result: Result<(), DbError> },
    /// Update finished (durably committed if `Ok`).
    UpdateDone { id: u64, result: Result<(), DbError> },
    /// Delete finished (durably committed if `Ok`).
    DeleteDone { id: u64, result: Result<(), DbError> },
    /// Batch finished. `rows` is the number of row slots it committed, 0 on
    /// refusal.
    BatchDone { rows: u64, result: Result<(), BatchReject> },
    /// Get finished. `None` means the id is absent.
    GetDone { id: u64, result: Result<Option<ValueWindow>, DbError> },
    /// Range page finished.
    RangeDone { result: Result<RangePage, DbError> },
    /// Find page finished.
    FindDone { result: Result<FindPage, DbError> },
    /// Offline migration finished. `Ok(n)` = the file now carries this
    /// binary's schema with `n` rows. Emitted only by the migration engine.
    MigrateDone { result: Result<u64, DbError> },
}

/// Rows per range page.
pub const RANGE_PAGE: usize = 8;

/// Rows per find page.
pub const FIND_PAGE: usize = 8;

/// One bounded page of a substring search, newest row first. `next` is an
/// opaque continuation cursor: a full page sets it, and the final continuation
/// may legitimately return an empty page.
#[derive(Debug, Clone, Copy, PartialEq, Eq)]
pub struct FindPage {
    pub items: [RowRef; FIND_PAGE],
    pub count: u8,
    /// Where to continue from; `None` ends the search.
    pub next: Option<FindCursor>,
    /// True when the database is open in salvage mode with quarantined rows:
    /// every row returned is verified and exact, but rows that would have
    /// matched may be missing.
    pub incomplete: bool,
}

/// One bounded page of a range scan, in strictly ascending key order.
#[derive(Debug, Clone, Copy, PartialEq, Eq)]
pub struct RangePage {
    pub items: [RowRef; RANGE_PAGE],
    pub count: u8,
    /// `Some(k)`: more rows exist; continue with `lo = k`.
    pub next: Option<u64>,
    /// See [`FindPage::incomplete`].
    pub incomplete: bool,
}

/// A page of rows, as sequences. `items` has all eight places; those from
/// `count` on hold the empty row.
#[verifier::ext_equal]
pub struct PageView<C> {
    pub items: Seq<RowView>,
    pub count: u8,
    pub next: Option<C>,
    pub incomplete: bool,
}

impl View for FindPage {
    type V = PageView<FindCursor>;

    open spec fn view(&self) -> PageView<FindCursor> {
        PageView {
            items: Seq::new(8, |i: int| self.items@[i]@),
            count: self.count,
            next: self.next,
            incomplete: self.incomplete,
        }
    }
}

impl View for RangePage {
    type V = PageView<u64>;

    open spec fn view(&self) -> PageView<u64> {
        PageView {
            items: Seq::new(8, |i: int| self.items@[i]@),
            count: self.count,
            next: self.next,
            incomplete: self.incomplete,
        }
    }
}

/// An output, with everything it carries as mathematical values.
pub enum Reply {
    Read { file: FileId, offset: u64, len: u64 },
    Write { file: FileId, offset: u64, data: Seq<u8> },
    Fsync { file: FileId },
    Truncate { file: FileId, len: u64 },
    OpenDone { result: Result<u64, DbError> },
    InsertDone { id: u64, result: Result<(), DbError> },
    UpdateDone { id: u64, result: Result<(), DbError> },
    DeleteDone { id: u64, result: Result<(), DbError> },
    BatchDone { rows: u64, result: Result<(), BatchReject> },
    GetDone { id: u64, result: Result<Option<WindowView>, DbError> },
    RangeDone { result: Result<PageView<u64>, DbError> },
    FindDone { result: Result<PageView<FindCursor>, DbError> },
    MigrateDone { result: Result<u64, DbError> },
}

impl View for Output {
    type V = Reply;

    open spec fn view(&self) -> Reply {
        match *self {
            Output::Read { file, offset, len } => Reply::Read { file, offset, len },
            Output::Write { file, offset, data } => Reply::Write { file, offset, data: data@ },
            Output::Fsync { file } => Reply::Fsync { file },
            Output::Truncate { file, len } => Reply::Truncate { file, len },
            Output::OpenDone { result } => Reply::OpenDone { result },
            Output::InsertDone { id, result } => Reply::InsertDone { id, result },
            Output::UpdateDone { id, result } => Reply::UpdateDone { id, result },
            Output::DeleteDone { id, result } => Reply::DeleteDone { id, result },
            Output::BatchDone { rows, result } => Reply::BatchDone { rows, result },
            Output::GetDone { id, result } => Reply::GetDone {
                id,
                result: match result {
                    Ok(Some(w)) => Ok(Some(w@)),
                    Ok(None) => Ok(None),
                    Err(e) => Err(e),
                },
            },
            Output::RangeDone { result } => Reply::RangeDone {
                result: match result {
                    Ok(p) => Ok(p@),
                    Err(e) => Err(e),
                },
            },
            Output::FindDone { result } => Reply::FindDone {
                result: match result {
                    Ok(p) => Ok(p@),
                    Err(e) => Err(e),
                },
            },
            Output::MigrateDone { result } => Reply::MigrateDone { result },
        }
    }
}

impl Output {
    /// A write request carries a payload that fits its buffer.
    pub open spec fn well_formed(self) -> bool {
        self is Write ==> self->Write_data.fits()
    }
}

/// What recovery observed.
#[derive(Debug, Clone, Copy, PartialEq, Eq)]
pub struct RecoveryReport {
    /// Committed rows recovered.
    pub row_count: u64,
    /// Checksum-valid rows found beyond the manifest.
    pub orphan_valid_rows: u64,
    /// True when those rows cannot all have come from one interrupted commit:
    /// at least one *acknowledged* commit was rolled back.
    pub rollback_evidence: bool,
    /// The row capacity this database was created with, as recorded in its
    /// superblock.
    pub declared_capacity: u64,
    /// Committed rows QUARANTINED by a salvage open. Always 0 after a strict
    /// `Open`.
    pub quarantined_rows: u64,
}

} // verus!
