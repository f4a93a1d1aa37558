//! What the files hold, and what running a machine against them comes to.

use crate::bytes::zeros;
use crate::codegen::text::{hex, hex_spelled, hex_spells_its_number, pow16};
use crate::engine::laws::{is_client, is_io, step_keeps};
use crate::engine::log::{live_after, staged_ok};
use crate::engine::model::{Phase, State};
use crate::engine::types::{BatchEffect, FileId, Input, Reply};
use crate::host::rows_name;
use crate::layout::{sb_image, sb_parses_its_image, Manifest};
use crate::migration::{legacy_row, migrated_slot, MState, Progress};
use crate::slot::{slot_image, Slot};
use vstd::prelude::*;

verus! {

/// The declared file set's contents.
#[verifier::ext_equal]
pub struct Disk {
    pub superblock: Seq<u8>,
    pub rows: Seq<u8>,
    pub rows_old: Seq<u8>,
}

impl Disk {
    pub open spec fn empty() -> Disk {
        Disk { superblock: Seq::empty(), rows: Seq::empty(), rows_old: Seq::empty() }
    }

    pub open spec fn file(self, file: FileId) -> Seq<u8> {
        match file {
            FileId::Superblock => self.superblock,
            FileId::Rows => self.rows,
            FileId::RowsOld => self.rows_old,
        }
    }

    pub open spec fn with(self, file: FileId, bytes: Seq<u8>) -> Disk {
        match file {
            FileId::Superblock => Disk { superblock: bytes, ..self },
            FileId::Rows => Disk { rows: bytes, ..self },
            FileId::RowsOld => Disk { rows_old: bytes, ..self },
        }
    }
}

/// The bytes in `[offset, offset + len)`, as far as the file goes.
pub open spec fn clamped(bytes: Seq<u8>, offset: int, len: int) -> Seq<u8> {
    let n = bytes.len() as int;
    let start = if offset < n {
        offset
    } else {
        n
    };
    let end = if offset + len < n {
        offset + len
    } else {
        n
    };
    bytes.subrange(start, end)
}

/// Where a read of a file of this length starts and ends.
pub fn clamp(file_len: u64, offset: u64, len: u64) -> (range: (u64, u64))
    ensures
        range.0 <= range.1 <= file_len,
        forall|bytes: Seq<u8>|
            bytes.len() == file_len ==> #[trigger] clamped(bytes, offset as int, len as int)
                == bytes.subrange(range.0 as int, range.1 as int),
{
    let start: u64 = if offset < file_len {
        offset
    } else {
        file_len
    };
    let stop: u64 = offset.saturating_add(len);
    let end: u64 = if stop < file_len {
        stop
    } else {
        file_len
    };
    (start, end)
}

/// A file after a write: extended as needed, a gap filled with zeros.
pub open spec fn written(bytes: Seq<u8>, offset: int, data: Seq<u8>) -> Seq<u8> {
    let end = offset + data.len();
    Seq::new(
        if end > bytes.len() {
            end as nat
        } else {
            bytes.len()
        },
        |i: int|
            if offset <= i < end {
                data[i - offset]
            } else if i < bytes.len() {
                bytes[i]
            } else {
                0
            },
    )
}

/// A file cut down to `len` bytes; a shorter one stays as it is.
pub open spec fn shortened(bytes: Seq<u8>, len: int) -> Seq<u8> {
    if bytes.len() > len {
        bytes.take(len)
    } else {
        bytes
    }
}

/// The files after a request that was performed.
pub open spec fn effect(disk: Disk, request: Reply) -> Disk {
    match request {
        Reply::Write { file, offset, data } => disk.with(
            file,
            written(disk.file(file), offset as int, data),
        ),
        Reply::Truncate { file, len } => disk.with(
            file,
            shortened(disk.file(file), len as int),
        ),
        _ => disk,
    }
}

/// What a storage is called for: a file's length, or a machine's request.
pub enum Call {
    Len { file: FileId },
    Perform { request: Reply },
}

/// The machine that completions go to.
pub enum Machine {
    Engine(State),
    Migration(Progress),
}

pub open spec fn of_engine(step: (State, Reply)) -> (Machine, Reply) {
    (Machine::Engine(step.0), step.1)
}

pub open spec fn of_migration(step: (Progress, Reply)) -> (Machine, Reply) {
    (Machine::Migration(step.0), step.1)
}

impl Machine {
    pub open spec fn ok(self) -> bool {
        match self {
            Machine::Engine(s) => s.ok(),
            Machine::Migration(p) => p.ok(),
        }
    }

    pub open spec fn accepts(self, input: Input) -> bool {
        match self {
            Machine::Engine(s) => s.accepts(input),
            Machine::Migration(p) => p.accepts(input),
        }
    }

    pub open spec fn step(self, input: Input) -> (Machine, Reply) {
        match self {
            Machine::Engine(s) => of_engine(s.step(input)),
            Machine::Migration(p) => of_migration(p.step(input)),
        }
    }

    pub open spec fn read_done(self, data: Seq<u8>) -> (Machine, Reply) {
        match self {
            Machine::Engine(s) => of_engine(s.read_done(data)),
            Machine::Migration(p) => of_migration(
                match p.state {
                    MState::ReadOldRows { generation, row_count } => p.on_old_rows(
                        generation,
                        row_count,
                        data,
                    ),
                    _ => p.on_sb(data),
                },
            ),
        }
    }

    /// The requests that are still to come, at most.
    pub open spec fn work(self) -> int {
        match self {
            Machine::Engine(s) => match s.phase {
                Phase::RecoverReadSb => 16,
                Phase::RecoverReadRows { .. } => 15,
                Phase::RecoverTruncateRows { .. } => 14,
                Phase::RecoverFsyncRows { .. } => 13,
                Phase::RecoverRepairSb { .. } => 12,
                Phase::RecoverFsyncSb { .. } => 11,
                Phase::InitWriteSb { copy } => if copy == 0 {
                    10
                } else {
                    9
                },
                Phase::InitFsyncSb => 8,
                Phase::WriteRow { next } => if next < s.slots.len() {
                    5 + s.slots.len() - next
                } else {
                    5
                },
                Phase::FsyncRows => 4,
                Phase::WriteSb { copy } => if copy == 0 {
                    3
                } else {
                    2
                },
                Phase::FsyncSb => 1,
                Phase::New | Phase::Ready | Phase::Degraded | Phase::Failed(_) => 0,
            },
            Machine::Migration(p) => match p.state {
                MState::ReadSb => p.caps + 10,
                MState::ReadOldRows { row_count, .. } => row_count + 9,
                MState::WriteNewRows { row_count, next, .. } => if next < row_count {
                    8 + row_count - next
                } else {
                    8
                },
                MState::FsyncNewRows { .. } => 7,
                MState::WriteSb { copy, .. } => if copy == 0 {
                    6
                } else {
                    5
                },
                MState::FsyncSb { .. } => 4,
                MState::NoopFsyncRows { .. } => 3,
                MState::NoopFsyncSb { .. } => 2,
                MState::New | MState::Done | MState::Failed(_) => 0,
            },
        }
    }

    /// The file that the request in flight is about.
    pub open spec fn awaits(self) -> Option<FileId> {
        match self {
            Machine::Engine(s) => s.phase.awaits(),
            Machine::Migration(p) => p.awaits(),
        }
    }

    /// The reply is the request that the machine waits for; or the machine
    /// waits for nothing.
    pub open spec fn asked(self, reply: Reply) -> bool {
        match reply {
            Reply::Read { file, .. } => {
                &&& self.awaits() == Some(file)
                &&& match self {
                    Machine::Engine(s) => s.phase is RecoverReadSb || s.phase is RecoverReadRows,
                    Machine::Migration(p) => p.state is ReadSb || p.state is ReadOldRows,
                }
            },
            Reply::Write { file, offset, data } => {
                &&& self.awaits() == Some(file)
                &&& offset + data.len() <= usize::MAX
                &&& match self {
                    Machine::Engine(s) => s.phase is InitWriteSb || s.phase is RecoverRepairSb
                        || s.phase is WriteRow || s.phase is WriteSb,
                    Machine::Migration(p) => p.state is WriteNewRows || p.state is WriteSb,
                }
            },
            Reply::Fsync { file } => {
                &&& self.awaits() == Some(file)
                &&& match self {
                    Machine::Engine(s) => s.phase is InitFsyncSb || s.phase is RecoverFsyncRows
                        || s.phase is RecoverFsyncSb || s.phase is FsyncRows || s.phase is FsyncSb,
                    Machine::Migration(p) => p.state is FsyncNewRows || p.state is FsyncSb
                        || p.state is NoopFsyncRows || p.state is NoopFsyncSb,
                }
            },
            Reply::Truncate { file, .. } => {
                &&& self.awaits() == Some(file)
                &&& match self {
                    Machine::Engine(s) => s.phase is RecoverTruncateRows,
                    Machine::Migration(_) => false,
                }
            },
            _ => self.awaits() is None,
        }
    }
}

/// The file that a request is about.
pub open spec fn file_of(reply: Reply) -> FileId {
    match reply {
        Reply::Read { file, .. } => file,
        Reply::Write { file, .. } => file,
        Reply::Fsync { file } => file,
        Reply::Truncate { file, .. } => file,
        _ => arbitrary(),
    }
}

/// One request performed, and the machine's answer to its completion.
pub open spec fn completed(m: Machine, reply: Reply, disk: Disk) -> (Machine, Reply, Disk) {
    match reply {
        Reply::Read { file, offset, len } => {
            let (n, r) = m.read_done(clamped(disk.file(file), offset as int, len as int));
            (n, r, disk)
        },
        Reply::Write { file, offset, data } => {
            let (n, r) = m.step(Input::WriteDone { file });
            (n, r, disk.with(file, written(disk.file(file), offset as int, data)))
        },
        Reply::Fsync { file } => {
            let (n, r) = m.step(Input::FsyncDone { file });
            (n, r, disk)
        },
        Reply::Truncate { file, len } => {
            let (n, r) = m.step(Input::TruncateDone { file });
            (n, r, disk.with(file, shortened(disk.file(file), len as int)))
        },
        _ => (m, reply, disk),
    }
}

/// `k` requests performed.
pub open spec fn after(m: Machine, reply: Reply, disk: Disk, k: nat) -> (Machine, Reply, Disk)
    decreases k,
{
    if k == 0 {
        (m, reply, disk)
    } else {
        let (n, r, d) = after(m, reply, disk, (k - 1) as nat);
        completed(n, r, d)
    }
}

/// Requests performed until there is none left.
pub open spec fn run(m: Machine, reply: Reply, disk: Disk) -> (Machine, Reply, Disk)
    decreases m.work(),
{
    let (n, r, d) = completed(m, reply, disk);
    if is_io(reply) && 0 <= n.work() < m.work() {
        run(n, r, d)
    } else {
        (m, reply, disk)
    }
}

/// A request after some performed ones failed, and so did the machine.
pub open spec fn stopped(m: Machine, reply: Reply, disk: Disk, end: (Machine, Reply)) -> bool {
    exists|k: nat| #[trigger] stopped_at(m, reply, disk, k, end)
}

/// Request number `k` failed, and so did the machine.
pub open spec fn stopped_at(
    m: Machine,
    reply: Reply,
    disk: Disk,
    k: nat,
    end: (Machine, Reply),
) -> bool {
    let (n, r, _) = after(m, reply, disk, k);
    is_io(r) && end == n.step(Input::IoFailed { file: file_of(r) })
}

pub proof fn slot_image_len(s: Slot)
    ensures
        slot_image(s).len() == s.value.len() + 16,
{
    crate::bytes::le_len(s.id as nat, 8);
    crate::bytes::le_len(crate::crc32::crc(crate::slot::slot_body(s)) as nat, 4);
}

pub proof fn sb_image_len()
    ensures
        forall|generation: u64, row_count: u64, schema: u64, capacity: u64|
            (#[trigger] sb_image(generation, row_count, schema, capacity)).len() == 64,
{
    assert forall|generation: u64, row_count: u64, schema: u64, capacity: u64| (#[trigger] sb_image(
        generation,
        row_count,
        schema,
        capacity,
    )).len() == 64 by {
        let m = Manifest { generation, row_count, capacity };
        sb_parses_its_image(zeros(64), m, schema);
    }
}

/// The slots of a commit that can be applied are all valid.
pub proof fn staged_slots_are_valid(
    live: Map<u64, u64>,
    at: int,
    effects: Seq<BatchEffect>,
    slots: Seq<Slot>,
    k: int,
)
    requires
        staged_ok(live, at, effects, slots),
        0 <= k < slots.len(),
    ensures
        slots[k].valid(),
    decreases effects.len(),
{
    if effects.len() > 0 {
        let n = effects[0].spec_rows();
        if k < n {
            assert(slots.take(n)[k] == slots[k]);
        } else {
            staged_slots_are_valid(
                live_after(live, effects[0]),
                at + n,
                effects.drop_first(),
                slots.skip(n),
                k - n,
            );
        }
    }
}

/// What an engine replies is what it waits for from then on, and every
/// completion brings it closer to its end.
#[verifier::rlimit(40)]
#[verifier::spinoff_prover]
pub proof fn engine_asks(s: State, input: Input)
    requires
        s.ok(),
        s.accepts(input),
        s.phase.awaits() is None || !is_client(input),
    ensures
        ({
            let (t, reply) = s.step(input);
            &&& Machine::Engine(t).asked(reply)
            &&& 0 <= Machine::Engine(t).work()
            &&& s.phase.awaits() is Some ==> Machine::Engine(t).work() < Machine::Engine(s).work()
        }),
{
    step_keeps(s, input);
    sb_image_len();
    let (t, reply) = s.step(input);
    if t.phase is WriteRow && t.phase->next < t.slots.len() {
        let next = t.phase->next as int;
        staged_slots_are_valid(t.db.live, t.row_count as int, t.effects, t.slots, next);
        slot_image_len(t.slots[next]);
    }
}

/// The same of a migration.
pub proof fn migration_asks(p: Progress, input: Input)
    requires
        p.ok(),
        p.accepts(input),
    ensures
        ({
            let (q, reply) = p.step(input);
            &&& Machine::Migration(q).asked(reply)
            &&& 0 <= Machine::Migration(q).work() < Machine::Migration(p).work()
        }),
{
    sb_image_len();
    let (q, reply) = p.step(input);
    if let MState::WriteNewRows { next, row_count, .. } = q.state {
        slot_image_len(migrated_slot(q.old, next as int));
        assert(legacy_row(q.old, next as int) is Some);
    }
}

// ---- What files do ----

/// A read gives back what was written. The write leaves every other byte of the
/// file as it was, makes it as long as it must be and no longer, and fills a gap
/// with zeros.
pub proof fn a_read_gives_back_what_was_written(bytes: Seq<u8>, offset: int, data: Seq<u8>)
    requires
        offset >= 0,
    ensures
        ({
            let file = written(bytes, offset, data);
            &&& clamped(file, offset, data.len() as int) == data
            &&& file.len() >= bytes.len() && file.len() >= offset + data.len()
            &&& file.len() == bytes.len() || file.len() == offset + data.len()
            &&& forall|i: int|
                0 <= i < bytes.len() && !(offset <= i < offset + data.len())
                    ==> #[trigger] file[i] == bytes[i]
            &&& forall|i: int| bytes.len() <= i < offset ==> #[trigger] file[i] == 0
        }),
{
    assert(clamped(written(bytes, offset, data), offset, data.len() as int) =~= data);
}

/// A read stops at the end of the file, and reads nothing behind it. A file
/// that is cut short keeps its front.
pub proof fn a_read_stops_at_the_end(bytes: Seq<u8>, offset: int, len: int)
    requires
        offset >= 0,
        len >= 0,
    ensures
        ({
            let read = clamped(bytes, offset, len);
            &&& offset + len <= bytes.len() ==> read == bytes.subrange(offset, offset + len)
            &&& offset <= bytes.len() < offset + len ==> read == bytes.skip(offset)
            &&& offset > bytes.len() ==> read.len() == 0
        }),
        len <= bytes.len() ==> shortened(bytes, len) == bytes.take(len),
        len >= bytes.len() ==> shortened(bytes, len) == bytes,
{
    if offset <= bytes.len() < offset + len {
        assert(clamped(bytes, offset, len) =~= bytes.skip(offset));
    }
    if len == bytes.len() {
        assert(bytes.take(len) =~= bytes);
    }
}

/// The name of a rows file is `rows-`, the schema in sixteen hexadecimal digits,
/// and `.dabq`: no two schemas share a file.
pub proof fn file_names_tell_schemas_apart(a: u64, b: u64)
    ensures
        ({
            let name = rows_name(a);
            &&& name.len() == 26
            &&& name.take(5) == "rows-"@
            &&& hex_spelled(name.subrange(5, 21)) == Some(a as nat)
            &&& name.skip(21) == ".dabq"@
        }),
        rows_name(a) == rows_name(b) ==> a == b,
{
    reveal_strlit("rows-");
    reveal_strlit(".dabq");
    reveal_with_fuel(pow16, 17);
    hex_spells_its_number(a as nat, 16);
    hex_spells_its_number(b as nat, 16);
    assert(rows_name(a).subrange(5, 21) =~= hex(a as nat, 16));
    assert(rows_name(b).subrange(5, 21) =~= hex(b as nat, 16));
    assert(rows_name(a).take(5) =~= "rows-"@);
    assert(rows_name(a).skip(21) =~= ".dabq"@);
}

} // verus!
