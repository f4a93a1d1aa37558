//! What a crash can leave on the files, and what is found there.
//!
//! A crash loses what was not synced. Of every byte that was written to a file
//! since its last sync nothing is known afterwards: the write may have reached
//! the medium, or not, or in part, or as garbage, each independently of every
//! other. A file may have kept the length that it had when it was last synced,
//! or have any length up to the one that it was to have. The same holds of the
//! request that was in flight. Everything else is as it was.

use crate::engine::durability::{newest_is_elected, replay_keeps_all};
use crate::engine::laws::is_io;
use crate::engine::log::{applied, Db};
use crate::engine::model::{
    created, min, read_log, readable, rollback_evidence, sb_chunk, sb_counts, sb_foreign,
    sb_healthy, sb_newest, sb_repair, sb_slot, sb_write, Phase, State,
};
use crate::engine::tables::sizeable;
use crate::engine::types::{FileId, Input, Reply};
use crate::host::disk::{after, clamped, completed, sb_image_len, Disk, Machine};
use crate::host::laws::{
    begun, commit_so_far, committed, copy_goes_on, flipped, foreign_prefix, front_rows, is_write,
    midway, mirrored, new_manifest, none_is_newer, opened, padded, padding_hides_nothing, partly,
    partly_recovers, recoverable, repair_mirrors, reportable, row_goes_on, settled, untouched,
    vacant, write_begins, zone_prefix, zone_with,
};
use crate::inspect::counting::{past_slots_add_up, rows_counted, rows_of};
use crate::layout::{sb_parsed, Manifest, SCHEMA_HASH};
use vstd::prelude::*;

verus! {

/// Does the request write byte `i` of the file?
pub open spec fn lands(request: Reply, file: FileId, i: int) -> bool {
    match request {
        Reply::Write { file: f, offset, data } => f == file && offset <= i < offset + data.len(),
        _ => false,
    }
}

/// `k` requests into a run, has byte `i` of the file been written since the
/// file was last synced? What the files held at the start counts as synced if
/// they are `clean`.
pub open spec fn unsynced(
    start: (Machine, Reply, Disk),
    k: nat,
    clean: bool,
    file: FileId,
    i: int,
) -> bool
    decreases k,
{
    if k == 0 {
        !clean
    } else {
        let request = after(start.0, start.1, start.2, (k - 1) as nat).1;
        let so_far = unsynced(start, (k - 1) as nat, clean, file, i);
        match request {
            Reply::Fsync { file: f } => so_far && f != file,
            _ => so_far || lands(request, file, i),
        }
    }
}

/// `k` requests into a run, the length that the file had when it was last
/// synced.
pub open spec fn synced_len(start: (Machine, Reply, Disk), k: nat, file: FileId) -> int
    decreases k,
{
    if k == 0 {
        start.2.file(file).len() as int
    } else {
        let (_, request, disk) = after(start.0, start.1, start.2, (k - 1) as nat);
        if request == (Reply::Fsync { file }) {
            disk.file(file).len() as int
        } else {
            synced_len(start, (k - 1) as nat, file)
        }
    }
}

/// What a crash may leave of a file, `k` requests into a run, with one more in
/// flight.
pub open spec fn file_remains(
    start: (Machine, Reply, Disk),
    k: nat,
    file: FileId,
    left: Seq<u8>,
) -> bool {
    let flying = after(start.0, start.1, start.2, k).1;
    let now = after(start.0, start.1, start.2, k + 1).2.file(file);
    let synced = synced_len(start, k, file);
    &&& synced <= left.len() || now.len() <= left.len()
    &&& left.len() <= synced || left.len() <= now.len()
    &&& forall|i: int|
        0 <= i < left.len() && i < now.len() && !unsynced(start, k, true, file, i) && !lands(
            flying,
            file,
            i,
        ) ==> #[trigger] left[i] == now[i]
}

/// What a crash may leave, `k` requests into a run that began on files whose
/// contents were synced.
pub open spec fn may_remain(start: (Machine, Reply, Disk), k: nat, left: Disk) -> bool {
    &&& file_remains(start, k, FileId::Superblock, left.superblock)
    &&& file_remains(start, k, FileId::Rows, left.rows)
    &&& file_remains(start, k, FileId::RowsOld, left.rows_old)
}

/// Nothing that is on the files can be lost any more.
pub open spec fn durable(start: (Machine, Reply, Disk), k: nat) -> bool {
    let disk = after(start.0, start.1, start.2, k).2;
    &&& forall|file: FileId, i: int| !#[trigger] unsynced(start, k, true, file, i)
    &&& forall|file: FileId| #[trigger] synced_len(start, k, file) == disk.file(file).len()
}

/// Every superblock copy in what a crash left is one that was there before, or
/// the one that was being written: what was torn fails its checksum.
pub open spec fn genuine(zone: Seq<u8>, left: Seq<u8>, m: Manifest) -> bool {
    forall|j: int|
        0 <= j < 4 && (#[trigger] sb_counts(left, j)) is Some ==> sb_counts(left, j) == sb_counts(
            zone,
            j,
        ) || sb_counts(left, j) == Some(m)
}

// ---- Committing ----

/// How much of a commit has been synced when it has come this far.
spec fn commit_synced(s: State, before: Disk, start: (Machine, Reply, Disk), k: nat) -> bool {
    let at = after(start.0, start.1, start.2, k);
    let w = sb_slot(new_manifest(s).generation, 0);
    let copies = match (at.0->Engine_0).phase {
        Phase::WriteSb { copy } => copy as int,
        _ => 2,
    };
    &&& synced_len(start, k, FileId::RowsOld) == before.rows_old.len()
    &&& match (at.0->Engine_0).phase {
        Phase::WriteRow { .. } | Phase::FsyncRows => {
            &&& forall|file: FileId, i: int| #[trigger]
                unsynced(start, k, true, file, i) ==> file == FileId::Rows && i >= 32 * s.row_count
            &&& synced_len(start, k, FileId::Superblock) == before.superblock.len()
            &&& synced_len(start, k, FileId::Rows) == 32 * s.row_count
        },
        Phase::WriteSb { .. } | Phase::FsyncSb => {
            &&& forall|file: FileId, i: int| #[trigger]
                unsynced(start, k, true, file, i) ==> file == FileId::Superblock && 64 * w <= i < 64
                    * (w + copies)
            &&& synced_len(start, k, FileId::Superblock) == before.superblock.len()
            &&& synced_len(start, k, FileId::Rows) == 32 * (s.row_count + s.slots.len())
        },
        _ => durable(start, k),
    }
}

/// Where a commit goes next.
#[verifier::spinoff_prover]
proof fn commit_phases(s: State, before: Disk, at: (Machine, Reply, Disk))
    requires
        begun(s, before),
        midway(s, before, at),
    ensures
        ({
            let next = completed(at.0, at.1, at.2).0->Engine_0;
            match (at.0->Engine_0).phase {
                Phase::WriteRow { .. } => next.phase is WriteRow || next.phase is FsyncRows,
                Phase::FsyncRows => next.phase == (Phase::WriteSb { copy: 0 }),
                Phase::WriteSb { copy } => if copy == 0 {
                    next.phase == (Phase::WriteSb { copy: 1 })
                } else {
                    next.phase is FsyncSb
                },
                _ => next.phase is Ready,
            }
        }),
{
}

/// What a commit's requests write.
#[verifier::spinoff_prover]
proof fn commit_lands(s: State, before: Disk, at: (Machine, Reply, Disk))
    requires
        begun(s, before),
        midway(s, before, at),
    ensures
        ({
            let w = sb_slot(new_manifest(s).generation, 0);
            match (at.0->Engine_0).phase {
                Phase::WriteRow { .. } => {
                    &&& at.1 is Write
                    &&& forall|file: FileId, i: int| #[trigger]
                        lands(at.1, file, i) ==> file == FileId::Rows && i >= 32 * s.row_count
                },
                Phase::FsyncRows => at.1 == (Reply::Fsync { file: FileId::Rows }),
                Phase::WriteSb { copy } => {
                    &&& at.1 is Write
                    &&& forall|file: FileId, i: int| #[trigger]
                        lands(at.1, file, i) ==> file == FileId::Superblock && 64 * (w + copy) <= i
                            < 64 * (w + copy + 1)
                },
                _ => at.1 == (Reply::Fsync { file: FileId::Superblock }),
            }
        }),
{
    sb_image_len();
    if let Phase::WriteRow { next } = (at.0->Engine_0).phase {
        assert(32 * (s.row_count + next) < 32 * s.caps);
    }
}

/// The lengths of the files while a commit is on its way.
proof fn commit_lengths(s: State, before: Disk, at: (Machine, Reply, Disk))
    requires
        begun(s, before),
        midway(s, before, at),
    ensures
        at.2.rows_old == before.rows_old,
        !((at.0->Engine_0).phase is WriteRow) ==> at.2.rows.len() == 32 * (s.row_count
            + s.slots.len()),
{
    let n = s.slots.len() as int;
    match (at.0->Engine_0).phase {
        Phase::WriteRow { .. } => {},
        Phase::FsyncRows => partly_recovers(s, before, at.2, n, 0),
        Phase::WriteSb { copy } => partly_recovers(s, before, at.2, n, copy as int),
        _ => partly_recovers(s, before, at.2, n, 2),
    }
}

/// One more request.
#[verifier::spinoff_prover]
#[verifier::rlimit(40)]
proof fn commit_syncs_on(s: State, before: Disk, start: (Machine, Reply, Disk), k: nat)
    requires
        begun(s, before),
        midway(s, before, after(start.0, start.1, start.2, k)),
        commit_synced(s, before, start, k),
    ensures
        commit_synced(s, before, start, k + 1),
{
    let at = after(start.0, start.1, start.2, k);
    commit_phases(s, before, at);
    commit_lands(s, before, at);
    commit_lengths(s, before, at);
    let next = after(start.0, start.1, start.2, k + 1);
    assert(next == completed(at.0, at.1, at.2));
    assert forall|file: FileId, i: int| #[trigger]
        unsynced(start, k + 1, true, file, i) implies unsynced(start, k, true, file, i) || lands(
        at.1,
        file,
        i,
    ) by {
    }
    if let Phase::FsyncSb = (at.0->Engine_0).phase {
        assert(next.2 == at.2);
    }
}

/// When no request is in flight, what is durable stays so.
pub(crate) proof fn still_synced(start: (Machine, Reply, Disk), k: nat)
    requires
        durable(start, k),
        !is_io(after(start.0, start.1, start.2, k).1),
    ensures
        after(start.0, start.1, start.2, k + 1) == after(start.0, start.1, start.2, k),
        durable(start, k + 1),
{
    let disk = after(start.0, start.1, start.2, k).2;
    assert forall|file: FileId, i: int| !#[trigger] unsynced(start, k + 1, true, file, i) by {
        assert(!unsynced(start, k, true, file, i));
    }
    assert forall|file: FileId| #[trigger] synced_len(start, k + 1, file) == disk.file(
        file,
    ).len() by {
        assert(synced_len(start, k, file) == disk.file(file).len());
    }
}

proof fn commit_synced_so_far(s: State, before: Disk, first: Reply, k: nat)
    requires
        begun(s, before),
        midway(s, before, (Machine::Engine(s), first, before)),
    ensures
        commit_synced(s, before, (Machine::Engine(s), first, before), k),
    decreases k,
{
    let start = (Machine::Engine(s), first, before);
    if k > 0 {
        let j = (k - 1) as nat;
        commit_synced_so_far(s, before, first, j);
        commit_so_far(s, before, first, j);
        let at = after(start.0, start.1, start.2, j);
        if midway(s, before, at) {
            commit_syncs_on(s, before, start, j);
        } else {
            still_synced(start, j);
        }
    }
}

/// With the old superblock and the committed rows, the old database is there.
proof fn rows_remain(s: State, before: Disk, now: Disk, rows: int, left: Disk)
    requires
        begun(s, before),
        0 <= rows <= s.slots.len(),
        partly(s, before, now, rows, 0),
        left.superblock == before.superblock,
        left.rows.len() >= 32 * s.row_count,
        forall|i: int| 0 <= i < 32 * s.row_count ==> #[trigger] left.rows[i] == now.rows[i],
    ensures
        recoverable(left, s.generation, s.row_count, s.db),
{
    let n = s.row_count as int;
    partly_recovers(s, before, now, rows, 0);
    front_rows(left.rows, 32 * n, n);
    front_rows(now.rows, 32 * n, n);
    assert(left.rows.take(32 * n) =~= now.rows.take(32 * n));
}

/// A zone that differs from the old one in the slots of the new copies alone:
/// the other slots are as they were.
proof fn other_slots(s: State, zone: Seq<u8>, copies: int, left: Seq<u8>, j: int)
    requires
        1 <= copies <= 2,
        64 * sb_slot(new_manifest(s).generation, 0) <= zone.len(),
        zone.len() <= left.len() <= flipped(zone, s, copies).len(),
        forall|i: int|
            0 <= i < left.len() && !(64 * sb_slot(new_manifest(s).generation, 0) <= i < 64 * (
            sb_slot(new_manifest(s).generation, 0) + copies)) ==> #[trigger] left[i] == flipped(
                zone,
                s,
                copies,
            )[i],
        0 <= j < 4,
        j != sb_slot(new_manifest(s).generation, 0),
        j != sb_slot(new_manifest(s).generation, 1),
    ensures
        sb_chunk(left, j) == sb_chunk(zone, j),
{
    sb_image_len();
    let one = flipped(zone, s, 1);
    assert(flipped(zone, s, 0) == zone);
    if copies == 2 {
        assert(flipped(zone, s, 2).len() >= one.len());
    }
    if zone.len() >= 64 * (j + 1) {
        assert(left.subrange(64 * j, 64 * j + 64) =~= zone.subrange(64 * j, 64 * j + 64));
    }
}

/// Whatever became of the copies being written, the live superblock is elected
/// or the new one.
#[verifier::spinoff_prover]
pub(crate) proof fn torn_zone(zone: Seq<u8>, left: Seq<u8>, generation: u64, row_count: u64, m: Manifest)
    requires
        generation > 0,
        m.generation == generation + 1,
        sb_newest(zone, 4) is Some,
        (sb_newest(zone, 4)->0).generation == generation,
        (sb_newest(zone, 4)->0).row_count == row_count,
        mirrored(zone, generation, row_count),
        forall|j: int|
            0 <= j < 4 && j != sb_slot(m.generation, 0) && j != sb_slot(m.generation, 1)
                ==> #[trigger] sb_chunk(left, j) == sb_chunk(zone, j),
        genuine(zone, left, m),
    ensures
        ({
            let e = sb_newest(left, 4);
            &&& e is Some
            &&& e == Some(m) || ((e->0).generation == generation && (e->0).row_count == row_count)
        }),
{
    let live = Manifest { generation, row_count, capacity: 0 };
    let i = sb_slot(generation, 0);
    assert(i != sb_slot(m.generation, 0) && i != sb_slot(m.generation, 1));
    assert(sb_chunk(left, i) == sb_chunk(zone, i));
    assert(sb_healthy(zone, live, 0) && sb_healthy(zone, live, 1));
    assert(sb_counts(left, i) is Some);
    assert((sb_counts(left, i)->0).generation == generation);
    newest_is_elected(left, 4);
    let e = sb_newest(left, 4)->0;
    let x = choose|x: int| 0 <= x < 4 && #[trigger] sb_counts(left, x) == Some(e);
    assert(sb_counts(left, x) == Some(e));
    assert(generation <= e.generation);
    if e != m {
        assert(sb_counts(zone, x) == Some(e));
        none_is_newer(zone, x);
        assert(e.generation == generation);
        assert(x == sb_slot(generation, 0) || x == sb_slot(generation, 1));
    }
}

/// With all rows of the commit and whatever became of the copies of its
/// superblock, the old database is there or the new one.
#[verifier::spinoff_prover]
proof fn copies_remain(s: State, before: Disk, now: Disk, copies: int, left: Disk)
    requires
        begun(s, before),
        1 <= copies <= 2,
        partly(s, before, now, s.slots.len() as int, copies),
        left.rows == now.rows,
        before.superblock.len() <= left.superblock.len() <= now.superblock.len(),
        forall|i: int|
            0 <= i < left.superblock.len() && !(64 * sb_slot(new_manifest(s).generation, 0) <= i
                < 64 * (sb_slot(new_manifest(s).generation, 0) + copies))
                ==> #[trigger] left.superblock[i] == now.superblock[i],
        genuine(before.superblock, left.superblock, new_manifest(s)),
    ensures
        recoverable(left, s.generation, s.row_count, s.db) || recoverable(
            left,
            new_manifest(s).generation,
            new_manifest(s).row_count,
            applied(s.db, s.effects, s.slots),
        ),
{
    let zone = before.superblock;
    let m = new_manifest(s);
    let n = s.slots.len() as int;
    partly_recovers(s, before, now, n, copies);
    let old_disk = Disk { superblock: flipped(zone, s, 0), ..now };
    assert(partly(s, before, old_disk, n, 0));
    partly_recovers(s, before, old_disk, n, 0);
    assert forall|j: int|
        0 <= j < 4 && j != sb_slot(m.generation, 0) && j != sb_slot(m.generation, 1) implies
        #[trigger] sb_chunk(left.superblock, j) == sb_chunk(zone, j) by {
        other_slots(s, zone, copies, left.superblock, j);
    }
    torn_zone(zone, left.superblock, s.generation, s.row_count, m);
}

/// What is durable remains.
pub(crate) proof fn all_remains(start: (Machine, Reply, Disk), k: nat, left: Disk)
    requires
        durable(start, k),
        !is_io(after(start.0, start.1, start.2, k).1),
        may_remain(start, k, left),
    ensures
        left == after(start.0, start.1, start.2, k).2,
{
    let disk = after(start.0, start.1, start.2, k).2;
    assert(after(start.0, start.1, start.2, k + 1).2 == disk);
    assert(synced_len(start, k, FileId::Superblock) == disk.superblock.len());
    assert(synced_len(start, k, FileId::Rows) == disk.rows.len());
    assert(synced_len(start, k, FileId::RowsOld) == disk.rows_old.len());
    assert forall|i: int| 0 <= i < left.superblock.len() implies left.superblock[i]
        == disk.superblock[i] by {
        assert(!unsynced(start, k, true, FileId::Superblock, i));
    }
    assert forall|i: int| 0 <= i < left.rows.len() implies left.rows[i] == disk.rows[i] by {
        assert(!unsynced(start, k, true, FileId::Rows, i));
    }
    assert forall|i: int| 0 <= i < left.rows_old.len() implies left.rows_old[i]
        == disk.rows_old[i] by {
        assert(!unsynced(start, k, true, FileId::RowsOld, i));
    }
    assert(left =~= disk);
}

/// Where nothing is written, everything stays synced.
proof fn still_durable(start: (Machine, Reply, Disk), k: nat)
    requires
        !is_io(start.1),
    ensures
        durable(start, k),
    decreases k,
{
    untouched(start.0, start.1, start.2, k);
    if k > 0 {
        let j = (k - 1) as nat;
        still_durable(start, j);
        untouched(start.0, start.1, start.2, j);
        still_synced(start, j);
    }
}

/// A crash while a commit is on its way.
#[verifier::spinoff_prover]
#[verifier::rlimit(40)]
proof fn crash_midway(s: State, before: Disk, first: Reply, k: nat, left: Disk)
    requires
        begun(s, before),
        midway(s, before, (Machine::Engine(s), first, before)),
        midway(s, before, after(Machine::Engine(s), first, before, k)),
        may_remain((Machine::Engine(s), first, before), k, left),
        genuine(before.superblock, left.superblock, new_manifest(s)),
    ensures
        recoverable(left, s.generation, s.row_count, s.db) || recoverable(
            left,
            new_manifest(s).generation,
            new_manifest(s).row_count,
            applied(s.db, s.effects, s.slots),
        ),
{
    let start = (Machine::Engine(s), first, before);
    let at = after(start.0, start.1, start.2, k);
    let now = after(start.0, start.1, start.2, k + 1).2;
    let n = s.slots.len() as int;
    commit_synced_so_far(s, before, first, k);
    commit_lands(s, before, at);
    commit_lengths(s, before, at);
    assert(after(start.0, start.1, start.2, k + 1) == completed(at.0, at.1, at.2));
    match (at.0->Engine_0).phase {
        Phase::WriteRow { next } => {
            row_goes_on(s, before, at.2, next as int);
            partly_recovers(s, before, now, next + 1, 0);
            assert(flipped(before.superblock, s, 0) == before.superblock);
            assert(left.superblock =~= before.superblock);
            assert forall|i: int| 0 <= i < 32 * s.row_count implies #[trigger] left.rows[i]
                == now.rows[i] by {
                assert(!unsynced(start, k, true, FileId::Rows, i));
                assert(!lands(at.1, FileId::Rows, i));
            }
            rows_remain(s, before, now, next + 1, left);
        },
        Phase::FsyncRows => {
            partly_recovers(s, before, now, n, 0);
            assert(flipped(before.superblock, s, 0) == before.superblock);
            assert(left.superblock =~= before.superblock);
            assert forall|i: int| 0 <= i < 32 * s.row_count implies #[trigger] left.rows[i]
                == now.rows[i] by {
                assert(!unsynced(start, k, true, FileId::Rows, i));
            }
            rows_remain(s, before, now, n, left);
        },
        Phase::WriteSb { copy } => {
            copy_goes_on(s, before, at.2, copy as int);
            partly_recovers(s, before, now, n, copy + 1);
            assert(left.rows =~= now.rows);
            zone_grows(s, before, now, copy + 1);
            copies_remain(s, before, now, copy + 1, left);
        },
        _ => {
            partly_recovers(s, before, now, n, 2);
            assert(left.rows =~= now.rows);
            zone_grows(s, before, now, 2);
            copies_remain(s, before, now, 2, left);
        },
    }
}

/// Writing copies never shortens the zone.
proof fn zone_grows(s: State, before: Disk, now: Disk, copies: int)
    requires
        1 <= copies <= 2,
        partly(s, before, now, s.slots.len() as int, copies),
    ensures
        now.superblock.len() >= before.superblock.len(),
{
    sb_image_len();
    assert(flipped(before.superblock, s, 0) == before.superblock);
    assert(flipped(before.superblock, s, 1).len() >= before.superblock.len());
}

/// Wherever a crash hits a write, what it leaves is the database before the
/// write or the database after it, whole: every write that was not synced may
/// have survived, vanished, been torn, or turned to garbage, as long as what
/// was torn is no superblock.
#[verifier::spinoff_prover]
#[verifier::rlimit(40)]
pub proof fn a_crash_is_all_or_nothing(s: State, disk: Disk, input: Input, k: nat, left: Disk)
    requires
        s.ok(),
        s.phase is Ready,
        settled(disk, s),
        s.accepts(input),
        is_write(input),
        may_remain((Machine::Engine(s.step(input).0), s.step(input).1, disk), k, left),
        genuine(disk.superblock, left.superblock, new_manifest(s.step(input).0)),
    ensures
        ({
            let (t, first) = s.step(input);
            ||| recoverable(left, s.generation, s.row_count, s.db)
            ||| is_io(first) && recoverable(
                left,
                new_manifest(t).generation,
                new_manifest(t).row_count,
                applied(t.db, t.effects, t.slots),
            )
        }),
{
    write_begins(s, disk, input);
    let (t, first) = s.step(input);
    let start = (Machine::Engine(t), first, disk);
    let at = after(start.0, start.1, start.2, k);
    let now = after(start.0, start.1, start.2, k + 1).2;
    if is_io(first) {
        commit_so_far(t, disk, first, k);
        commit_so_far(t, disk, first, k + 1);
        commit_synced_so_far(t, disk, first, k);
        if midway(t, disk, at) {
            crash_midway(t, disk, first, k, left);
        } else {
            all_remains(start, k, left);
        }
    } else {
        untouched(Machine::Engine(t), first, disk, k);
        untouched(Machine::Engine(t), first, disk, k + 1);
        still_durable(start, k);
        all_remains(start, k, left);
    }
}

/// When a write has been acknowledged, it is durable: whatever a crash does
/// then, the files are as they were, and hold the database after the write.
pub proof fn an_acknowledged_write_is_durable(s: State, disk: Disk, input: Input, k: nat, left: Disk)
    requires
        s.ok(),
        s.phase is Ready,
        settled(disk, s),
        s.accepts(input),
        is_write(input),
        is_io(s.step(input).1),
        !is_io(after(Machine::Engine(s.step(input).0), s.step(input).1, disk, k).1),
        may_remain((Machine::Engine(s.step(input).0), s.step(input).1, disk), k, left),
    ensures
        ({
            let (t, first) = s.step(input);
            let end = after(Machine::Engine(t), first, disk, k);
            &&& committed(t, end)
            &&& left == end.2
        }),
{
    write_begins(s, disk, input);
    let (t, first) = s.step(input);
    let start = (Machine::Engine(t), first, disk);
    let at = after(start.0, start.1, start.2, k);
    commit_so_far(t, disk, first, k);
    commit_synced_so_far(t, disk, first, k);
    if midway(t, disk, at) {
        commit_lands(t, disk, at);
    } else {
        all_remains(start, k, left);
    }
}

// ---- Opening ----

/// The zone after the repair that an open makes, if it makes one.
spec fn repaired(zone: Seq<u8>, m: Manifest, caps: u64) -> Seq<u8> {
    match sb_repair(zone, m) {
        None => zone,
        Some(copy) => zone_with(
            zone,
            sb_slot(m.generation, copy as int),
            Manifest { capacity: caps, ..m },
        ),
    }
}

/// The rows that no superblock references, as far as an open reads them.
pub open spec fn past_rows(caps: u64, disk: Disk) -> Seq<u8> {
    let n = (sb_newest(disk.superblock, 4)->0).row_count;
    clamped(disk.rows, 0, min(disk.rows.len() as int, 32 * caps)).skip(32 * n)
}

/// How far the open of a database has come.
spec fn recovering(caps: u64, disk: Disk, db: Db, at: (Machine, Reply, Disk)) -> bool {
    let m = sb_newest(disk.superblock, 4)->0;
    let n = m.row_count as int;
    let cut = Disk { rows: disk.rows.take(32 * n), ..disk };
    let t = at.0->Engine_0;
    let (opening, first) = created(caps).open(disk.superblock.len() as u64, disk.rows.len() as u64);
    let seen = past_rows(caps, disk);
    let noticed = {
        &&& t.orphan_rollback == rollback_evidence(seen, seen.len() as int / 32)
        &&& t.orphan_valid_rows == readable(seen, seen.len() as int / 32) as u64
        &&& t.file_capacity == m.capacity
    };
    let found = State {
        phase: t.phase,
        pending_repair: sb_repair(disk.superblock, m),
        file_capacity: m.capacity,
        ..opening
    };
    &&& at.0 is Engine
    &&& match t.phase {
        Phase::RecoverReadSb => t == opening && at.1 == first && at.2 == disk,
        Phase::RecoverReadRows { generation, row_count } => {
            let len = min(disk.rows.len() as int, 32 * caps);
            &&& generation == m.generation && row_count == m.row_count
            &&& t == found
            &&& len > 0
            &&& at.1 == (Reply::Read { file: FileId::Rows, offset: 0, len: len as u64 })
            &&& at.2 == disk
        },
        Phase::RecoverTruncateRows { generation, row_count } => {
            &&& generation == m.generation && row_count == m.row_count
            &&& t.db == db && t.caps == caps && t.pending_repair == found.pending_repair
            &&& noticed
            &&& disk.rows.len() > 32 * n
            &&& at.1 == (Reply::Truncate { file: FileId::Rows, len: (32 * n) as u64 })
            &&& at.2 == disk
        },
        Phase::RecoverFsyncRows { generation, row_count } => {
            &&& generation == m.generation && row_count == m.row_count
            &&& t.db == db && t.caps == caps && t.pending_repair == found.pending_repair
            &&& noticed
            &&& at.1 == (Reply::Fsync { file: FileId::Rows })
            &&& at.2 == cut
        },
        Phase::RecoverRepairSb { generation, row_count, copy } => {
            &&& generation == m.generation && row_count == m.row_count
            &&& t.db == db && t.caps == caps && noticed
            &&& sb_repair(disk.superblock, m) == Some(copy)
            &&& at.1 == sb_write(m.generation, m.row_count, caps, copy as int)
            &&& at.2 == cut
        },
        Phase::RecoverFsyncSb { generation, row_count } => {
            &&& generation == m.generation && row_count == m.row_count
            &&& t.db == db && t.caps == caps && noticed
            &&& at.1 == (Reply::Fsync { file: FileId::Superblock })
            &&& at.2 == (Disk { superblock: repaired(disk.superblock, m, caps), ..cut })
        },
        Phase::Ready => {
            &&& opened(at, caps, m.generation, m.row_count, db) && noticed
            &&& at.2 == (Disk { superblock: repaired(disk.superblock, m, caps), ..cut })
        },
        _ => false,
    }
}

/// A database that can be opened with this capacity.
spec fn openable(caps: u64, disk: Disk, db: Db) -> bool {
    let m = sb_newest(disk.superblock, 4)->0;
    &&& sizeable(caps)
    &&& m.row_count <= caps
    &&& reportable(disk)
    &&& recoverable(disk, m.generation, m.row_count, db)
}

/// The superblock has been read.
#[verifier::spinoff_prover]
proof fn superblock_read(caps: u64, disk: Disk, db: Db, at: (Machine, Reply, Disk))
    requires
        openable(caps, disk, db),
        recovering(caps, disk, db, at),
        (at.0->Engine_0).phase is RecoverReadSb,
    ensures
        recovering(caps, disk, db, completed(at.0, at.1, at.2)),
{
    let zone = disk.superblock;
    let m = sb_newest(zone, 4)->0;
    if zone.len() == 0 {
        newest_is_elected(zone, 4);
        let i = choose|i: int| 0 <= i < 4 && #[trigger] sb_counts(zone, i) == Some(m);
        assert(sb_counts(zone, i) is None);
    }
    zone_prefix(zone, 4);
    let data = clamped(zone, 0, 256);
    assert(sb_chunk(data, sb_slot(m.generation, 0)) == sb_chunk(zone, sb_slot(m.generation, 0)));
    assert(sb_chunk(data, sb_slot(m.generation, 1)) == sb_chunk(zone, sb_slot(m.generation, 1)));
    assert(sb_repair(data, m) == sb_repair(zone, m));
    if disk.rows.len() == 0 {
        assert(read_log(disk.rows, 0) =~= Seq::empty());
        assert(disk.rows.take(0) =~= disk.rows);
        assert(past_rows(caps, disk).len() == 0);
    }
}

/// The rows have been read.
#[verifier::spinoff_prover]
proof fn rows_read(caps: u64, disk: Disk, db: Db, at: (Machine, Reply, Disk))
    requires
        openable(caps, disk, db),
        recovering(caps, disk, db, at),
        (at.0->Engine_0).phase is RecoverReadRows,
    ensures
        recovering(caps, disk, db, completed(at.0, at.1, at.2)),
{
    let m = sb_newest(disk.superblock, 4)->0;
    let n = m.row_count as int;
    let len = min(disk.rows.len() as int, 32 * caps);
    front_rows(disk.rows, len, n);
    replay_keeps_all(read_log(disk.rows, n), db);
    if disk.rows.len() == 32 * n {
        assert(disk.rows.take(32 * n) =~= disk.rows);
    }
}

/// The files have been put in order.
#[verifier::spinoff_prover]
#[verifier::rlimit(60)]
proof fn files_put_in_order(caps: u64, disk: Disk, db: Db, at: (Machine, Reply, Disk))
    requires
        openable(caps, disk, db),
        recovering(caps, disk, db, at),
        !((at.0->Engine_0).phase is RecoverReadSb),
        !((at.0->Engine_0).phase is RecoverReadRows),
        !((at.0->Engine_0).phase is Ready),
    ensures
        recovering(caps, disk, db, completed(at.0, at.1, at.2)),
{
    let m = sb_newest(disk.superblock, 4)->0;
    let n = m.row_count as int;
    replay_keeps_all(read_log(disk.rows, n), db);
    front_rows(disk.rows, 32 * n, n);
    repair_mirrors(disk.superblock, m, caps);
}

/// One more request of an open is performed.
proof fn recovery_goes_on(caps: u64, disk: Disk, db: Db, at: (Machine, Reply, Disk))
    requires
        openable(caps, disk, db),
        recovering(caps, disk, db, at),
    ensures
        recovering(caps, disk, db, completed(at.0, at.1, at.2)),
{
    match (at.0->Engine_0).phase {
        Phase::RecoverReadSb => superblock_read(caps, disk, db, at),
        Phase::RecoverReadRows { .. } => rows_read(caps, disk, db, at),
        Phase::Ready => {},
        _ => files_put_in_order(caps, disk, db, at),
    }
}

/// Where an open goes next.
#[verifier::spinoff_prover]
proof fn recovery_phases(caps: u64, disk: Disk, db: Db, at: (Machine, Reply, Disk))
    requires
        recovering(caps, disk, db, at),
        recovering(caps, disk, db, completed(at.0, at.1, at.2)),
    ensures
        ({
            let next = completed(at.0, at.1, at.2).0->Engine_0;
            match (at.0->Engine_0).phase {
                Phase::RecoverReadSb => next.phase is RecoverReadRows || next.phase is RecoverTruncateRows
                    || next.phase is RecoverFsyncRows,
                Phase::RecoverReadRows { .. } => next.phase is RecoverTruncateRows
                    || next.phase is RecoverFsyncRows,
                Phase::RecoverTruncateRows { .. } => next.phase is RecoverFsyncRows,
                Phase::RecoverFsyncRows { .. } => next.phase is RecoverRepairSb
                    || next.phase is RecoverFsyncSb,
                Phase::RecoverRepairSb { .. } => next.phase is RecoverFsyncSb,
                _ => next.phase is Ready,
            }
        }),
{
}

/// The slot that an open repairs, as a range of the zone.
spec fn in_repair(zone: Seq<u8>, i: int) -> bool {
    let m = sb_newest(zone, 4)->0;
    match sb_repair(zone, m) {
        None => false,
        Some(copy) => {
            let w = sb_slot(m.generation, copy as int);
            64 * w <= i < 64 * (w + 1)
        },
    }
}

/// How much has been synced when an open has come this far.
spec fn open_synced(disk: Disk, start: (Machine, Reply, Disk), k: nat, clean: bool) -> bool {
    let at = after(start.0, start.1, start.2, k);
    let n = (sb_newest(disk.superblock, 4)->0).row_count;
    &&& synced_len(start, k, FileId::RowsOld) == disk.rows_old.len()
    &&& forall|i: int| clean ==> !#[trigger] unsynced(start, k, clean, FileId::RowsOld, i)
    &&& match (at.0->Engine_0).phase {
        Phase::RecoverRepairSb { .. } | Phase::RecoverFsyncSb { .. } => {
            &&& forall|i: int| !#[trigger] unsynced(start, k, clean, FileId::Rows, i)
            &&& forall|i: int|
                clean && #[trigger] unsynced(start, k, clean, FileId::Superblock, i) ==> in_repair(
                    disk.superblock,
                    i,
                )
            &&& synced_len(start, k, FileId::Superblock) == disk.superblock.len()
            &&& synced_len(start, k, FileId::Rows) == 32 * n
        },
        Phase::Ready => {
            &&& forall|i: int| !#[trigger] unsynced(start, k, clean, FileId::Rows, i)
            &&& forall|i: int| !#[trigger] unsynced(start, k, clean, FileId::Superblock, i)
            &&& synced_len(start, k, FileId::Superblock) == at.2.superblock.len()
            &&& synced_len(start, k, FileId::Rows) == 32 * n
        },
        _ => {
            &&& forall|i: int| clean ==> !#[trigger] unsynced(start, k, clean, FileId::Rows, i)
            &&& forall|i: int|
                clean ==> !#[trigger] unsynced(start, k, clean, FileId::Superblock, i)
            &&& synced_len(start, k, FileId::Superblock) == disk.superblock.len()
            &&& synced_len(start, k, FileId::Rows) == disk.rows.len()
        },
    }
}

/// What an open writes.
proof fn recovery_lands(caps: u64, disk: Disk, db: Db, at: (Machine, Reply, Disk))
    requires
        recovering(caps, disk, db, at),
    ensures
        forall|file: FileId, i: int| #[trigger]
            lands(at.1, file, i) ==> (at.0->Engine_0).phase is RecoverRepairSb && file
                == FileId::Superblock && in_repair(disk.superblock, i),
{
    sb_image_len();
}

/// One more request.
#[verifier::spinoff_prover]
#[verifier::rlimit(40)]
proof fn open_syncs_on(
    caps: u64,
    disk: Disk,
    db: Db,
    start: (Machine, Reply, Disk),
    k: nat,
    clean: bool,
)
    requires
        openable(caps, disk, db),
        recovering(caps, disk, db, after(start.0, start.1, start.2, k)),
        open_synced(disk, start, k, clean),
    ensures
        open_synced(disk, start, k + 1, clean),
{
    let at = after(start.0, start.1, start.2, k);
    recovery_goes_on(caps, disk, db, at);
    recovery_phases(caps, disk, db, at);
    recovery_lands(caps, disk, db, at);
    let next = after(start.0, start.1, start.2, k + 1);
    assert(next == completed(at.0, at.1, at.2));
    assert forall|file: FileId, i: int| #[trigger]
        unsynced(start, k + 1, clean, file, i) implies unsynced(start, k, clean, file, i) || lands(
        at.1,
        file,
        i,
    ) by {
    }
}

/// An open, from its first request on.
spec fn open_start(caps: u64, disk: Disk) -> (Machine, Reply, Disk) {
    let (s, first) = created(caps).open(disk.superblock.len() as u64, disk.rows.len() as u64);
    (Machine::Engine(s), first, disk)
}

proof fn open_so_far(caps: u64, disk: Disk, db: Db, k: nat, clean: bool)
    requires
        openable(caps, disk, db),
    ensures
        ({
            let start = open_start(caps, disk);
            &&& recovering(caps, disk, db, after(start.0, start.1, start.2, k))
            &&& open_synced(disk, start, k, clean)
        }),
    decreases k,
{
    let start = open_start(caps, disk);
    if k == 0 {
        let zone = disk.superblock;
        if zone.len() == 0 {
            newest_is_elected(zone, 4);
            let m = sb_newest(zone, 4)->0;
            let i = choose|i: int| 0 <= i < 4 && #[trigger] sb_counts(zone, i) == Some(m);
            assert(sb_counts(zone, i) is None);
        }
    } else {
        let j = (k - 1) as nat;
        open_so_far(caps, disk, db, j, clean);
        let at = after(start.0, start.1, start.2, j);
        recovery_goes_on(caps, disk, db, at);
        open_syncs_on(caps, disk, db, start, j, clean);
    }
}

/// An open reports what it found: a rollback, exactly if the rows that no
/// superblock references are evidence of one; how many of those can be read;
/// the capacity that the superblock declares; and that no row was set aside.
pub proof fn opening_reports_rollbacks(
    caps: u64,
    disk: Disk,
    generation: u64,
    row_count: u64,
    db: Db,
    k: nat,
)
    requires
        sizeable(caps),
        row_count <= caps,
        reportable(disk),
        recoverable(disk, generation, row_count, db),
        ({
            let (s, first) = created(caps).open(
                disk.superblock.len() as u64,
                disk.rows.len() as u64,
            );
            !is_io(after(Machine::Engine(s), first, disk, k).1)
        }),
    ensures
        ({
            let (s, first) = created(caps).open(
                disk.superblock.len() as u64,
                disk.rows.len() as u64,
            );
            let t = after(Machine::Engine(s), first, disk, k).0->Engine_0;
            let past = past_rows(caps, disk);
            let n = past.len() as int / 32;
            &&& t.orphan_rollback == rollback_evidence(past, n)
            &&& t.orphan_valid_rows == n - rows_of(read_log(past, n), n, None)
            &&& t.file_capacity == (sb_newest(disk.superblock, 4)->0).capacity
            &&& t.db.quarantined == 0
            &&& t.row_count == row_count
        }),
{
    open_so_far(caps, disk, db, k, false);
    let past = past_rows(caps, disk);
    past_slots_add_up(past, past.len() as int / 32);
    replay_keeps_all(read_log(disk.rows, row_count as int), db);
    rows_counted(read_log(past, past.len() as int / 32), past.len() as int / 32);
}

/// Recovery syncs before it serves: when an open has been answered, everything
/// that it found is durable, whether or not it was before.
pub proof fn opening_syncs_before_serving(
    caps: u64,
    disk: Disk,
    generation: u64,
    row_count: u64,
    db: Db,
    k: nat,
)
    requires
        sizeable(caps),
        row_count <= caps,
        reportable(disk),
        recoverable(disk, generation, row_count, db),
        ({
            let (s, first) = created(caps).open(
                disk.superblock.len() as u64,
                disk.rows.len() as u64,
            );
            !is_io(after(Machine::Engine(s), first, disk, k).1)
        }),
    ensures
        ({
            let (s, first) = created(caps).open(
                disk.superblock.len() as u64,
                disk.rows.len() as u64,
            );
            let start = (Machine::Engine(s), first, disk);
            &&& opened(after(start.0, start.1, start.2, k), caps, generation, row_count, db)
            &&& forall|i: int| !#[trigger] unsynced(start, k, false, FileId::Superblock, i)
            &&& forall|i: int| !#[trigger] unsynced(start, k, false, FileId::Rows, i)
        }),
{
    open_so_far(caps, disk, db, k, false);
}

/// Zones whose slots count the same elect the same.
proof fn same_election(a: Seq<u8>, b: Seq<u8>, n: int)
    requires
        n <= 4,
        forall|j: int| 0 <= j < 4 ==> #[trigger] sb_counts(a, j) == sb_counts(b, j),
    ensures
        sb_newest(a, n) == sb_newest(b, n),
    decreases n,
{
    if n > 0 {
        same_election(a, b, n - 1);
        assert(sb_counts(a, n - 1) == sb_counts(b, n - 1));
    }
}

/// Whatever became of the copy being repaired, the election is as it was.
#[verifier::spinoff_prover]
proof fn torn_repair(zone: Seq<u8>, left: Seq<u8>, m: Manifest, copy: int, caps: u64)
    requires
        sb_newest(zone, 4) == Some(m),
        sb_repair(zone, m) == Some(copy as u8),
        0 <= copy < 2,
        forall|j: int|
            0 <= j < 4 && j != sb_slot(m.generation, copy) ==> #[trigger] sb_chunk(left, j)
                == sb_chunk(zone, j),
        genuine(zone, left, Manifest { capacity: caps, ..m }),
    ensures
        sb_newest(left, 4) is Some,
        (sb_newest(left, 4)->0).generation == m.generation,
        (sb_newest(left, 4)->0).row_count == m.row_count,
{
    let w = sb_slot(m.generation, copy);
    assert forall|j: int| 0 <= j < 4 && j != w implies #[trigger] sb_counts(left, j) == sb_counts(
        zone,
        j,
    ) by {
        assert(sb_chunk(left, j) == sb_chunk(zone, j));
    }
    newest_is_elected(zone, 4);
    let i = choose|i: int| 0 <= i < 4 && #[trigger] sb_counts(zone, i) == Some(m);
    assert(sb_counts(zone, i) == Some(m));
    if sb_counts(left, w) == sb_counts(zone, w) {
        same_election(left, zone, 4);
    } else {
        // The intact copy is the one that was elected.
        assert(i != w);
        assert(sb_counts(left, i) == Some(m));
        newest_is_elected(left, 4);
        let e = sb_newest(left, 4)->0;
        let x = choose|x: int| 0 <= x < 4 && #[trigger] sb_counts(left, x) == Some(e);
        assert(sb_counts(left, x) == Some(e));
        if x != w {
            none_is_newer(zone, x);
            assert(x == i);
        }
    }
}

/// A zone in which at most the slot being repaired changed.
proof fn unrepaired_slots(zone: Seq<u8>, m: Manifest, caps: u64, left: Seq<u8>, copy: int, j: int)
    requires
        sb_newest(zone, 4) == Some(m),
        sb_repair(zone, m) == Some(copy as u8),
        0 <= copy < 2,
        zone.len() <= left.len() <= repaired(zone, m, caps).len(),
        forall|i: int|
            0 <= i < left.len() && !in_repair(zone, i) ==> #[trigger] left[i] == repaired(
                zone,
                m,
                caps,
            )[i],
        0 <= j < 4,
        j != sb_slot(m.generation, copy),
    ensures
        sb_chunk(left, j) == sb_chunk(zone, j),
{
    sb_image_len();
    newest_is_elected(zone, 4);
    let i = choose|i: int| 0 <= i < 4 && #[trigger] sb_counts(zone, i) == Some(m);
    assert(sb_counts(zone, i) == Some(m));
    let w = sb_slot(m.generation, copy);
    // The intact copy of the pair stands before the other one, or behind it.
    assert(64 * w <= zone.len());
    if zone.len() >= 64 * (j + 1) {
        assert(left.subrange(64 * j, 64 * j + 64) =~= zone.subrange(64 * j, 64 * j + 64));
    }
}

/// A crash while the repair is on its way.
#[verifier::spinoff_prover]
proof fn repair_remains(caps: u64, disk: Disk, db: Db, left: Disk)
    requires
        openable(caps, disk, db),
        left.rows == disk.rows.take(32 * (sb_newest(disk.superblock, 4)->0).row_count),
        disk.superblock.len() <= left.superblock.len() <= repaired(
            disk.superblock,
            sb_newest(disk.superblock, 4)->0,
            caps,
        ).len(),
        forall|i: int|
            0 <= i < left.superblock.len() && !in_repair(disk.superblock, i)
                ==> #[trigger] left.superblock[i] == repaired(
                disk.superblock,
                sb_newest(disk.superblock, 4)->0,
                caps,
            )[i],
        genuine(
            disk.superblock,
            left.superblock,
            (Manifest { capacity: caps, ..sb_newest(disk.superblock, 4)->0 }),
        ),
    ensures
        recoverable(
            left,
            (sb_newest(disk.superblock, 4)->0).generation,
            (sb_newest(disk.superblock, 4)->0).row_count,
            db,
        ),
{
    let zone = disk.superblock;
    let m = sb_newest(zone, 4)->0;
    let n = m.row_count as int;
    front_rows(disk.rows, 32 * n, n);
    match sb_repair(zone, m) {
        None => {
            assert(left.superblock =~= zone);
        },
        Some(copy) => {
            let c = copy as int;
            assert forall|j: int| 0 <= j < 4 && j != sb_slot(m.generation, c) implies
                #[trigger] sb_chunk(left.superblock, j) == sb_chunk(zone, j) by {
                unrepaired_slots(zone, m, caps, left.superblock, c, j);
            }
            torn_repair(zone, left.superblock, m, c, caps);
        },
    }
}

/// Wherever a crash hits an open, nothing is lost: what it leaves is the same
/// database, as long as what was torn is no superblock.
#[verifier::spinoff_prover]
#[verifier::rlimit(40)]
pub proof fn a_crash_while_opening_loses_nothing(
    caps: u64,
    disk: Disk,
    generation: u64,
    row_count: u64,
    db: Db,
    k: nat,
    left: Disk,
)
    requires
        sizeable(caps),
        row_count <= caps,
        reportable(disk),
        recoverable(disk, generation, row_count, db),
        ({
            let (s, first) = created(caps).open(
                disk.superblock.len() as u64,
                disk.rows.len() as u64,
            );
            may_remain((Machine::Engine(s), first, disk), k, left)
        }),
        genuine(
            disk.superblock,
            left.superblock,
            (Manifest { generation, row_count, capacity: caps }),
        ),
    ensures
        recoverable(left, generation, row_count, db),
{
    let start = open_start(caps, disk);
    let at = after(start.0, start.1, start.2, k);
    let next = after(start.0, start.1, start.2, k + 1);
    let zone = disk.superblock;
    let m = sb_newest(zone, 4)->0;
    let n = row_count as int;
    open_so_far(caps, disk, db, k, true);
    open_so_far(caps, disk, db, k + 1, true);
    assert(next == completed(at.0, at.1, at.2));
    recovery_phases(caps, disk, db, at);
    recovery_lands(caps, disk, db, at);
    sb_image_len();
    assert(repaired(zone, m, caps).len() >= zone.len());
    match (at.0->Engine_0).phase {
        Phase::RecoverRepairSb { .. } | Phase::RecoverFsyncSb { .. } | Phase::Ready => {
            assert(left.rows =~= disk.rows.take(32 * n));
            repair_remains(caps, disk, db, left);
        },
        _ => {
            assert(left.superblock =~= zone);
            front_rows(disk.rows, 32 * n, n);
            front_rows(left.rows, 32 * n, n);
            assert(left.rows.take(32 * n) =~= disk.rows.take(32 * n));
        },
    }
}

// ---- Creating ----

/// The zone after the first `copies` copies of the first superblock.
spec fn begot(zone: Seq<u8>, caps: u64, copies: int) -> Seq<u8> {
    let fresh = Manifest { generation: 1, row_count: 0, capacity: caps };
    if copies <= 0 {
        zone
    } else if copies == 1 {
        zone_with(zone, 2, fresh)
    } else {
        zone_with(zone_with(zone, 2, fresh), 3, fresh)
    }
}

/// How far the creation of a database has come.
spec fn creating(caps: u64, disk: Disk, at: (Machine, Reply, Disk)) -> bool {
    let t = at.0->Engine_0;
    let (opening, first) = created(caps).open(disk.superblock.len() as u64, disk.rows.len() as u64);
    &&& at.0 is Engine
    &&& match t.phase {
        Phase::RecoverReadSb => t == opening && at.1 == first && at.2 == disk,
        Phase::InitWriteSb { copy } => {
            &&& copy < 2
            &&& t.caps == caps && t.db == Db::empty()
            &&& at.1 == sb_write(1, 0, caps, copy as int)
            &&& at.2 == (Disk { superblock: begot(disk.superblock, caps, copy as int), ..disk })
        },
        Phase::InitFsyncSb => {
            &&& t.caps == caps && t.db == Db::empty()
            &&& at.1 == (Reply::Fsync { file: FileId::Superblock })
            &&& at.2 == (Disk { superblock: begot(disk.superblock, caps, 2), ..disk })
        },
        Phase::Ready => {
            &&& !is_io(at.1)
            &&& at.2 == (Disk { superblock: begot(disk.superblock, caps, 2), ..disk })
        },
        _ => false,
    }
}

/// One more request of a creation is performed.
#[verifier::spinoff_prover]
proof fn creation_goes_on(caps: u64, disk: Disk, at: (Machine, Reply, Disk))
    requires
        reportable(disk),
        vacant(disk),
        creating(caps, disk, at),
    ensures
        creating(caps, disk, completed(at.0, at.1, at.2)),
{
    let zone = disk.superblock;
    padding_hides_nothing(zone, 4);
    zone_prefix(zone, 4);
    foreign_prefix(zone, 4);
}

/// What has been synced of a creation: the copies may be lost, nothing else.
spec fn creation_synced(disk: Disk, start: (Machine, Reply, Disk), k: nat) -> bool {
    &&& forall|file: FileId, i: int| #[trigger]
        unsynced(start, k, true, file, i) ==> file == FileId::Superblock && i >= 128
    &&& synced_len(start, k, FileId::Superblock) >= disk.superblock.len()
    &&& synced_len(start, k, FileId::Rows) == 0
}

/// What a creation writes.
proof fn creation_lands(caps: u64, disk: Disk, at: (Machine, Reply, Disk))
    requires
        creating(caps, disk, at),
    ensures
        forall|file: FileId, i: int| #[trigger]
            lands(at.1, file, i) ==> file == FileId::Superblock && i >= 128,
        at.2.superblock.len() >= disk.superblock.len(),
        at.2.rows == disk.rows,
        padded(at.2.superblock).take(128) == padded(disk.superblock).take(128),
{
    sb_image_len();
    let zone = disk.superblock;
    let one = begot(zone, caps, 1);
    assert(padded(one).take(128) =~= padded(zone).take(128));
    assert(padded(begot(zone, caps, 2)).take(128) =~= padded(zone).take(128));
}

proof fn creation_so_far(caps: u64, disk: Disk, k: nat)
    requires
        reportable(disk),
        vacant(disk),
    ensures
        ({
            let start = open_start(caps, disk);
            &&& creating(caps, disk, after(start.0, start.1, start.2, k))
            &&& creation_synced(disk, start, k)
        }),
    decreases k,
{
    let start = open_start(caps, disk);
    if k > 0 {
        let j = (k - 1) as nat;
        creation_so_far(caps, disk, j);
        let at = after(start.0, start.1, start.2, j);
        creation_goes_on(caps, disk, at);
        creation_lands(caps, disk, at);
        assert forall|file: FileId, i: int| #[trigger]
            unsynced(start, k, true, file, i) implies file == FileId::Superblock && i >= 128 by {
            assert(unsynced(start, j, true, file, i) || lands(at.1, file, i));
        }
    }
}

/// What a crash left of the pair of copies being written is each time the copy
/// or no superblock at all.
pub open spec fn cleanly_torn(left: Seq<u8>, m: Manifest) -> bool {
    forall|j: int|
        2 <= j < 4 ==> (#[trigger] sb_chunk(left, j)) is None || sb_parsed(sb_chunk(left, j)->0)
            is None || sb_parsed(sb_chunk(left, j)->0) == Some((m, SCHEMA_HASH))
}

/// Slots that stand before the first copy are as they were.
proof fn front_slots(zone: Seq<u8>, left: Seq<u8>, n: int)
    requires
        n <= 2,
        sb_newest(padded(zone), 4) is None,
        sb_foreign(padded(zone), 4) is None,
        padded(left).take(128) == padded(zone).take(128),
    ensures
        sb_foreign(padded(left), n) is None,
        forall|j: int| 0 <= j < n ==> (#[trigger] sb_counts(padded(left), j)) is None,
    decreases n,
{
    if n > 0 {
        let j = n - 1;
        front_slots(zone, left, j);
        let a = padded(left);
        let b = padded(zone);
        assert(a.subrange(64 * j, 64 * j + 64) =~= a.take(128).subrange(64 * j, 64 * j + 64));
        assert(b.subrange(64 * j, 64 * j + 64) =~= b.take(128).subrange(64 * j, 64 * j + 64));
        assert(sb_chunk(a, j) == sb_chunk(b, j));
        newest_is_elected(b, 4);
        assert(sb_counts(b, j) is None);
        reveal_with_fuel(sb_foreign, 5);
    }
}

/// Wherever a crash hits the creation of a database, what it leaves is the
/// empty database, or files on which it is created anew.
#[verifier::spinoff_prover]
#[verifier::rlimit(40)]
pub proof fn a_crash_while_creating_loses_nothing(caps: u64, disk: Disk, k: nat, left: Disk)
    requires
        reportable(disk),
        vacant(disk),
        ({
            let (s, first) = created(caps).open(
                disk.superblock.len() as u64,
                disk.rows.len() as u64,
            );
            may_remain((Machine::Engine(s), first, disk), k, left)
        }),
        cleanly_torn(
            left.superblock,
            (Manifest { generation: 1, row_count: 0, capacity: caps }),
        ),
    ensures
        vacant(left) || recoverable(left, 1, 0, Db::empty()),
{
    let start = open_start(caps, disk);
    let at = after(start.0, start.1, start.2, k);
    let next = after(start.0, start.1, start.2, k + 1);
    let fresh = Manifest { generation: 1, row_count: 0, capacity: caps };
    creation_so_far(caps, disk, k);
    creation_so_far(caps, disk, k + 1);
    creation_lands(caps, disk, at);
    creation_lands(caps, disk, next);
    let zone = disk.superblock;
    let now = next.2.superblock;
    assert forall|i: int| 0 <= i < 128 implies #[trigger] padded(left.superblock)[i] == padded(
        zone,
    )[i] by {
        assert(padded(now).take(128)[i] == padded(zone).take(128)[i]);
        assert(!unsynced(start, k, true, FileId::Superblock, i));
        assert(!lands(at.1, FileId::Superblock, i));
    }
    let z = left.superblock;
    assert(padded(z).take(128) =~= padded(zone).take(128));
    front_slots(zone, z, 2);
    // The slots behind are not padded.
    assert forall|j: int| 2 <= j < 4 implies #[trigger] sb_chunk(padded(z), j) == sb_chunk(z, j) by {
        if z.len() >= 64 * (j + 1) {
            assert(padded(z) =~= z);
        }
    }
    assert(sb_chunk(padded(z), 2) == sb_chunk(z, 2));
    assert(sb_chunk(padded(z), 3) == sb_chunk(z, 3));
    assert(sb_counts(padded(z), 0) is None && sb_counts(padded(z), 1) is None);
    reveal_with_fuel(sb_newest, 5);
    reveal_with_fuel(sb_foreign, 5);
    if sb_counts(z, 2) is Some || sb_counts(z, 3) is Some {
        assert(z.len() >= 192);
        assert(padded(z) =~= z);
        assert(sb_newest(z, 4) == Some(fresh));
        assert(read_log(left.rows, 0) =~= Seq::empty());
    } else {
        assert(vacant(left));
    }
}

} // verus!
