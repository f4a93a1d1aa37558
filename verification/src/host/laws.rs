//! What a database on its files promises: what was acknowledged is found again,
//! and a crash anywhere in between is all or nothing.

use crate::engine::durability::{commit_is_durable, newest_is_elected, replay_keeps_all, replays_to};
use crate::engine::laws::{is_io, step_keeps};
use crate::engine::log::{all_some, applied, Db};
use crate::engine::model::{
    created, min, read_log, sb_chunk, sb_counts, sb_foreign, sb_healthy, sb_newest, sb_repair,
    sb_slot, sb_write, Phase, State,
};
use crate::engine::tables::sizeable;
use crate::engine::types::{FileId, Input, Reply};
use crate::host::disk::{
    after, clamped, completed, run, sb_image_len, slot_image_len, staged_slots_are_valid, written,
    Disk, Machine,
};
use crate::layout::{manifest_verdict, sb_image, sb_parses_its_image, Manifest, SCHEMA_HASH};
use crate::slot::{slot_image, slot_parses_its_image, Slot};
use vstd::prelude::*;

verus! {

/// The files' lengths can be reported.
pub open spec fn reportable(disk: Disk) -> bool {
    disk.superblock.len() <= u64::MAX && disk.rows.len() <= u64::MAX
}

/// The files hold a database: the newest superblock is of this generation and
/// row count, and its rows replay to this.
pub open spec fn recoverable(disk: Disk, generation: u64, row_count: u64, db: Db) -> bool {
    let m = sb_newest(disk.superblock, 4);
    &&& m is Some
    &&& (m->0).generation == generation
    &&& (m->0).row_count == row_count
    &&& 32 * row_count <= disk.rows.len()
    &&& replays_to(read_log(disk.rows, row_count as int), db)
}

/// Both copies of the live superblock are intact.
pub open spec fn mirrored(zone: Seq<u8>, generation: u64, row_count: u64) -> bool {
    let m = Manifest { generation, row_count, capacity: 0 };
    sb_healthy(zone, m, 0) && sb_healthy(zone, m, 1)
}

/// An open database and its files agree: the files hold exactly what the
/// engine answers from, and nothing else.
pub open spec fn settled(disk: Disk, s: State) -> bool {
    &&& recoverable(disk, s.generation, s.row_count, s.db)
    &&& mirrored(disk.superblock, s.generation, s.row_count)
    &&& disk.rows.len() == 32 * s.row_count
}

// ---- Superblock zones ----

/// Only the first four slots of a zone count.
pub proof fn zone_prefix(zone: Seq<u8>, n: int)
    requires
        n <= 4,
    ensures
        sb_newest(clamped(zone, 0, 256), n) == sb_newest(zone, n),
        forall|i: int| 0 <= i < 4 ==> sb_chunk(clamped(zone, 0, 256), i) == #[trigger] sb_chunk(
            zone,
            i,
        ),
    decreases n,
{
    let data = clamped(zone, 0, 256);
    assert forall|i: int| 0 <= i < 4 implies sb_chunk(data, i) == #[trigger] sb_chunk(zone, i) by {
        if zone.len() >= 64 * (i + 1) {
            assert(data.subrange(64 * i, 64 * i + 64) =~= zone.subrange(64 * i, 64 * i + 64));
        }
    }
    if n > 0 {
        zone_prefix(zone, n - 1);
        assert(sb_chunk(data, n - 1) == sb_chunk(zone, n - 1));
    }
}

/// The zone after one copy is written.
pub open spec fn zone_with(zone: Seq<u8>, slot: int, m: Manifest) -> Seq<u8> {
    written(zone, 64 * slot, sb_image(m.generation, m.row_count, SCHEMA_HASH, m.capacity))
}

/// Writing a copy where the zone goes on, or inside it, changes that slot and
/// no other.
pub proof fn copy_lands(zone: Seq<u8>, slot: int, m: Manifest)
    requires
        0 <= slot < 4,
        64 * slot <= zone.len(),
    ensures
        zone_with(zone, slot, m).len() >= zone.len(),
        zone_with(zone, slot, m).len() >= 64 * slot + 64,
        sb_chunk(zone_with(zone, slot, m), slot) is Some,
        manifest_verdict(sb_chunk(zone_with(zone, slot, m), slot)->0) == Ok::<
            Manifest,
            crate::layout::SbDecodeError,
        >(m),
        forall|j: int|
            0 <= j < 4 && j != slot ==> sb_chunk(zone_with(zone, slot, m), j) == #[trigger] sb_chunk(
                zone,
                j,
            ),
{
    sb_image_len();
    let image = sb_image(m.generation, m.row_count, SCHEMA_HASH, m.capacity);
    let z = zone_with(zone, slot, m);
    let chunk = z.subrange(64 * slot, 64 * slot + 64);
    assert(chunk =~= image);
    sb_parses_its_image(chunk, m, SCHEMA_HASH);
    assert(chunk.take(64) =~= image);
    assert forall|j: int| 0 <= j < 4 && j != slot implies sb_chunk(z, j) == #[trigger] sb_chunk(
        zone,
        j,
    ) by {
        if zone.len() >= 64 * (j + 1) {
            assert(z.subrange(64 * j, 64 * j + 64) =~= zone.subrange(64 * j, 64 * j + 64));
        }
    }
}

/// A copy that is newer than every other, or one of the newest, is found.
pub proof fn copy_is_elected(zone: Seq<u8>, copy: int, m: Manifest)
    requires
        0 <= copy < 2,
        m.generation > 0,
        64 * sb_slot(m.generation, copy) <= zone.len(),
        forall|j: int|
            0 <= j < 4 && j != sb_slot(m.generation, copy) && (#[trigger] sb_counts(
                zone,
                j,
            )) is Some ==> {
                let c = sb_counts(zone, j)->0;
                c.generation < m.generation || (c.generation == m.generation && c.row_count
                    == m.row_count)
            },
    ensures
        ({
            let z = zone_with(zone, sb_slot(m.generation, copy), m);
            let e = sb_newest(z, 4);
            &&& e is Some
            &&& (e->0).generation == m.generation
            &&& (e->0).row_count == m.row_count
            &&& sb_healthy(z, m, copy)
            &&& sb_healthy(zone, m, 1 - copy) ==> sb_healthy(z, m, 1 - copy)
            &&& forall|j: int|
                0 <= j < 4 && (#[trigger] sb_counts(z, j)) is Some ==> {
                    let c = sb_counts(z, j)->0;
                    c.generation < m.generation || (c.generation == m.generation && c.row_count
                        == m.row_count)
                }
        }),
{
    let w = sb_slot(m.generation, copy);
    let z = zone_with(zone, w, m);
    copy_lands(zone, w, m);
    newest_is_elected(z, 4);
    assert(sb_counts(z, w) == Some(m));
    assert forall|j: int| 0 <= j < 4 && (#[trigger] sb_counts(z, j)) is Some implies {
        let c = sb_counts(z, j)->0;
        c.generation < m.generation || (c.generation == m.generation && c.row_count == m.row_count)
    } by {
        if j != w {
            assert(sb_chunk(z, j) == sb_chunk(zone, j));
            assert(sb_counts(z, j) == sb_counts(zone, j));
        }
    }
    let other = sb_slot(m.generation, 1 - copy);
    assert(other != w && 0 <= other < 4);
    assert(sb_chunk(z, other) == sb_chunk(zone, other));
    let e = sb_newest(z, 4)->0;
    let i = choose|i: int| 0 <= i < 4 && #[trigger] sb_counts(z, i) == Some(e);
    assert(sb_counts(z, i) == Some(e));
}

/// No copy that counts is newer than the elected one.
pub(crate) proof fn none_is_newer(zone: Seq<u8>, j: int)
    requires
        0 <= j < 4,
        sb_counts(zone, j) is Some,
    ensures
        sb_newest(zone, 4) is Some,
        (sb_counts(zone, j)->0).generation <= (sb_newest(zone, 4)->0).generation,
{
    newest_is_elected(zone, 4);
}

/// Health only looks at generation and row count.
pub(crate) proof fn health_is_of_the_pair(zone: Seq<u8>, m: Manifest, copy: int)
    ensures
        sb_healthy(zone, m, copy) == sb_healthy(
            zone,
            Manifest { generation: m.generation, row_count: m.row_count, capacity: 0 },
            copy,
        ),
{
}

// ---- Opening ----

/// A request that brings the machine closer to its end is performed.
pub proof fn run_on(m: Machine, reply: Reply, disk: Disk)
    requires
        is_io(reply),
        0 <= completed(m, reply, disk).0.work() < m.work(),
    ensures
        run(m, reply, disk) == run(
            completed(m, reply, disk).0,
            completed(m, reply, disk).1,
            completed(m, reply, disk).2,
        ),
{
}

/// Rows read from the front of a file are the file's.
pub(crate) proof fn front_rows(rows: Seq<u8>, len: int, n: int)
    requires
        0 <= n,
        32 * n <= len <= rows.len(),
    ensures
        read_log(clamped(rows, 0, len), n) == read_log(rows, n),
        read_log(rows.take(len), n) == read_log(rows, n),
{
    let data = clamped(rows, 0, len);
    assert(data =~= rows.take(len));
    assert forall|r: int| 0 <= r < n implies #[trigger] read_log(data, n)[r] == read_log(
        rows,
        n,
    )[r] by {
        assert(data.subrange(32 * r, 32 * r + 32) =~= rows.subrange(32 * r, 32 * r + 32));
    }
    assert(read_log(data, n) =~= read_log(rows, n));
}

/// What an open that found a database ends in.
pub open spec fn opened(end: (Machine, Reply, Disk), caps: u64, generation: u64, row_count: u64, db: Db) -> bool {
    match end.0 {
        Machine::Engine(t) => {
            &&& t.phase == Phase::Ready
            &&& t.caps == caps
            &&& t.generation == generation
            &&& t.row_count == row_count
            &&& t.db == db
            &&& end.1 == (Reply::OpenDone { result: Ok(row_count) })
            &&& settled(end.2, t)
        },
        Machine::Migration(_) => false,
    }
}

/// Rewriting the damaged copy of the elected superblock's pair, if one is,
/// leaves the election as it is and the pair intact.
pub(crate) proof fn repair_mirrors(zone: Seq<u8>, m: Manifest, caps: u64)
    requires
        sb_newest(zone, 4) == Some(m),
    ensures
        match sb_repair(zone, m) {
            None => mirrored(zone, m.generation, m.row_count),
            Some(copy) => {
                let fresh = Manifest { capacity: caps, ..m };
                let z = zone_with(zone, sb_slot(m.generation, copy as int), fresh);
                let e = sb_newest(z, 4);
                &&& copy < 2
                &&& e is Some
                &&& (e->0).generation == m.generation
                &&& (e->0).row_count == m.row_count
                &&& mirrored(z, m.generation, m.row_count)
            },
        },
{
    newest_is_elected(zone, 4);
    let i = choose|i: int| 0 <= i < 4 && #[trigger] sb_counts(zone, i) == Some(m);
    assert(sb_counts(zone, i) == Some(m));
    let mine = if i == sb_slot(m.generation, 0) {
        0int
    } else {
        1int
    };
    assert(sb_healthy(zone, m, mine));
    health_is_of_the_pair(zone, m, 0);
    health_is_of_the_pair(zone, m, 1);
    if let Some(copy) = sb_repair(zone, m) {
        let c = copy as int;
        assert(c == 1 - mine);
        let fresh = Manifest { capacity: caps, ..m };
        let w = sb_slot(m.generation, c);
        assert forall|j: int|
            0 <= j < 4 && j != w && (#[trigger] sb_counts(zone, j)) is Some implies {
            let k = sb_counts(zone, j)->0;
            k.generation < m.generation || (k.generation == m.generation && k.row_count
                == m.row_count)
        } by {
            none_is_newer(zone, j);
            if (sb_counts(zone, j)->0).generation == m.generation {
                assert(j == i);
            }
        }
        assert(64 * w <= zone.len());
        copy_is_elected(zone, c, fresh);
        health_is_of_the_pair(zone, fresh, mine);
        let z = zone_with(zone, w, fresh);
        health_is_of_the_pair(z, fresh, 0);
        health_is_of_the_pair(z, fresh, 1);
    }
}

/// The last leg of a recovery: sync, repair, sync.
#[verifier::spinoff_prover]
proof fn recovery_finishes(s: State, disk: Disk, m: Manifest)
    requires
        s.phase == (Phase::RecoverFsyncRows { generation: m.generation, row_count: m.row_count }),
        s.pending_repair == sb_repair(disk.superblock, m),
        sb_newest(disk.superblock, 4) == Some(m),
        recoverable(disk, m.generation, m.row_count, s.db),
        disk.rows.len() == 32 * m.row_count,
        s.db.quarantined == 0,
    ensures
        opened(
            run(Machine::Engine(s), Reply::Fsync { file: FileId::Rows }, disk),
            s.caps,
            m.generation,
            m.row_count,
            s.db,
        ),
{
    let zone = disk.superblock;
    repair_mirrors(zone, m, s.caps);
    let m0 = Machine::Engine(s);
    let r0 = Reply::Fsync { file: FileId::Rows };
    run_on(m0, r0, disk);
    let (m1, r1, d1) = completed(m0, r0, disk);
    run_on(m1, r1, d1);
    if let Some(copy) = s.pending_repair {
        let (m2, r2, d2) = completed(m1, r1, d1);
        assert(d2.superblock == zone_with(
            zone,
            sb_slot(m.generation, copy as int),
            Manifest { capacity: s.caps, ..m },
        ));
        run_on(m2, r2, d2);
    }
}

/// Whatever else is on the files: a database that is there is opened, and is
/// exactly what its committed rows say. Afterwards the files are settled.
pub proof fn opening_finds_the_database(caps: u64, disk: Disk, generation: u64, row_count: u64, db: Db)
    requires
        sizeable(caps),
        row_count <= caps,
        reportable(disk),
        recoverable(disk, generation, row_count, db),
    ensures
        ({
            let (s, first) = created(caps).open(
                disk.superblock.len() as u64,
                disk.rows.len() as u64,
            );
            opened(run(Machine::Engine(s), first, disk), caps, generation, row_count, db)
        }),
{
    let zone = disk.superblock;
    let m = sb_newest(zone, 4)->0;
    let n = row_count as int;
    if zone.len() == 0 {
        newest_is_elected(zone, 4);
        let i = choose|i: int| 0 <= i < 4 && #[trigger] sb_counts(zone, i) == Some(m);
        assert(sb_counts(zone, i) is None);
    }
    zone_prefix(zone, 4);
    let data = clamped(zone, 0, 256);
    assert(sb_chunk(data, sb_slot(generation, 0)) == sb_chunk(zone, sb_slot(generation, 0)));
    assert(sb_chunk(data, sb_slot(generation, 1)) == sb_chunk(zone, sb_slot(generation, 1)));
    assert(sb_repair(data, m) == sb_repair(zone, m));
    replay_keeps_all(read_log(disk.rows, n), db);
    let (s0, r0) = created(caps).open(zone.len() as u64, disk.rows.len() as u64);
    let m0 = Machine::Engine(s0);
    let (m1, r1, d1) = completed(m0, r0, disk);
    run_on(m0, r0, disk);
    let len = min(disk.rows.len() as int, 32 * caps);
    if len == 0 {
        assert(read_log(disk.rows, 0) =~= Seq::empty());
        assert(db == Db::empty());
        recovery_finishes(m1->Engine_0, d1, m);
    } else {
        let (m2, r2, d2) = completed(m1, r1, d1);
        front_rows(disk.rows, len, n);
        run_on(m1, r1, d1);
        if disk.rows.len() > 32 * n {
            let (m3, r3, d3) = completed(m2, r2, d2);
            front_rows(disk.rows, 32 * n, n);
            run_on(m2, r2, d2);
            recovery_finishes(m3->Engine_0, d3, m);
        } else {
            recovery_finishes(m2->Engine_0, d2, m);
        }
    }
}

/// A superblock zone as it is when the first pair of slots has been reached
/// over: the gap is zeros.
pub open spec fn padded(zone: Seq<u8>) -> Seq<u8> {
    written(zone, 128, Seq::empty())
}

/// The files hold no database, neither of this schema nor of another.
pub open spec fn vacant(disk: Disk) -> bool {
    &&& disk.rows.len() == 0
    &&& sb_newest(padded(disk.superblock), 4) is None
    &&& sb_foreign(padded(disk.superblock), 4) is None
}

/// A zone elects no copy that the padded zone does not.
pub(crate) proof fn padding_hides_nothing(zone: Seq<u8>, n: int)
    requires
        n <= 4,
        sb_newest(padded(zone), 4) is None,
        sb_foreign(padded(zone), n) is None,
    ensures
        sb_newest(zone, n) is None,
        sb_foreign(zone, n) is None,
    decreases n,
{
    if n > 0 {
        let j = n - 1;
        newest_is_elected(padded(zone), 4);
        assert(sb_counts(padded(zone), j) is None);
        padding_hides_nothing(zone, j);
        if zone.len() >= 64 * n {
            assert(padded(zone).subrange(64 * j, 64 * j + 64) =~= zone.subrange(
                64 * j,
                64 * j + 64,
            ));
        }
    }
}

/// Where no database is, an empty one is made.
pub proof fn opening_makes_a_database(caps: u64, disk: Disk)
    requires
        sizeable(caps),
        reportable(disk),
        vacant(disk),
    ensures
        ({
            let (s, first) = created(caps).open(
                disk.superblock.len() as u64,
                disk.rows.len() as u64,
            );
            opened(run(Machine::Engine(s), first, disk), caps, 1, 0, Db::empty())
        }),
{
    let zone = disk.superblock;
    let (s, first) = created(caps).open(zone.len() as u64, 0);
    let m = Machine::Engine(s);
    if zone.len() > 0 {
        padding_hides_nothing(zone, 4);
        zone_prefix(zone, 4);
        foreign_prefix(zone, 4);
        run_on(m, first, disk);
        let (m0, r0, d0) = completed(m, first, disk);
        creation_finishes(caps, d0, m0->Engine_0, r0);
    } else {
        creation_finishes(caps, disk, s, first);
    }
}

/// Only the first four slots of a zone are looked at for another schema.
pub(crate) proof fn foreign_prefix(zone: Seq<u8>, n: int)
    requires
        n <= 4,
    ensures
        sb_foreign(clamped(zone, 0, 256), n) == sb_foreign(zone, n),
    decreases n,
{
    zone_prefix(zone, 4);
    if n > 0 {
        foreign_prefix(zone, n - 1);
        assert(sb_chunk(clamped(zone, 0, 256), n - 1) == sb_chunk(zone, n - 1));
    }
}

/// The last leg of a creation: two copies, sync.
#[verifier::spinoff_prover]
proof fn creation_finishes(caps: u64, disk: Disk, s: State, first: Reply)
    requires
        vacant(disk),
        s.phase == (Phase::InitWriteSb { copy: 0 }),
        s.caps == caps,
        s.db == Db::empty(),
        first == sb_write(1, 0, caps, 0),
    ensures
        opened(run(Machine::Engine(s), first, disk), caps, 1, 0, Db::empty()),
{
    let fresh = Manifest { generation: 1, row_count: 0, capacity: caps };
    fresh_pair(disk.superblock, fresh);
    let m0 = Machine::Engine(s);
    assert(read_log(disk.rows, 0) =~= Seq::empty());
    run_on(m0, first, disk);
    let (m1, r1, d1) = completed(m0, first, disk);
    run_on(m1, r1, d1);
    let (m2, r2, d2) = completed(m1, r1, d1);
    assert(d2.superblock == zone_with(zone_with(disk.superblock, 2, fresh), 3, fresh));
    run_on(m2, r2, d2);
}

/// The first pair of copies, in a zone that held none.
pub(crate) proof fn fresh_pair(zone: Seq<u8>, fresh: Manifest)
    requires
        sb_newest(padded(zone), 4) is None,
        fresh.generation == 1,
    ensures
        ({
            let z = zone_with(zone_with(zone, 2, fresh), 3, fresh);
            let e = sb_newest(z, 4);
            &&& e is Some
            &&& (e->0).generation == 1
            &&& (e->0).row_count == fresh.row_count
            &&& mirrored(z, 1, fresh.row_count)
        }),
{
    sb_image_len();
    let base = padded(zone);
    let one = zone_with(zone, 2, fresh);
    assert(one =~= zone_with(base, 2, fresh));
    newest_is_elected(base, 4);
    assert forall|j: int| 0 <= j < 4 implies (#[trigger] sb_counts(base, j)) is None by {
    }
    copy_is_elected(base, 0, fresh);
    copy_is_elected(one, 1, fresh);
    let z = zone_with(one, 3, fresh);
    health_is_of_the_pair(z, fresh, 0);
    health_is_of_the_pair(z, fresh, 1);
}

/// On empty files there is no database.
pub proof fn empty_files_are_vacant(disk: Disk)
    requires
        disk.superblock.len() == 0,
        disk.rows.len() == 0,
    ensures
        vacant(disk),
{
    let zone = padded(disk.superblock);
    assert(zone =~= crate::bytes::zeros(128));
    assert forall|j: int| 0 <= j < 4 implies (#[trigger] sb_chunk(zone, j)) is None
        || crate::layout::sb_parsed(sb_chunk(zone, j)->0) is None by {
        if j < 2 {
            let chunk = zone.subrange(64 * j, 64 * j + 64);
            assert(chunk[0] == 0);
            if crate::layout::sb_parsed(chunk) is Some {
                let (m, schema) = crate::layout::sb_parsed(chunk)->0;
                sb_parses_its_image(chunk, m, schema);
                assert(chunk.take(64)[0] == crate::layout::SB_MAGIC@[0]);
            }
        }
    }
    nothing_parses(zone, 4);
}

/// A zone of slots that hold nothing.
proof fn nothing_parses(zone: Seq<u8>, n: int)
    requires
        n <= 4,
        forall|j: int|
            0 <= j < 4 ==> (#[trigger] sb_chunk(zone, j)) is None || crate::layout::sb_parsed(
                sb_chunk(zone, j)->0,
            ) is None,
    ensures
        sb_newest(zone, n) is None,
        sb_foreign(zone, n) is None,
    decreases n,
{
    if n > 0 {
        nothing_parses(zone, n - 1);
        assert(sb_chunk(zone, n - 1) is None || crate::layout::sb_parsed(sb_chunk(zone, n - 1)->0)
            is None);
    }
}

// ---- Committing ----

/// The rows of a commit, as bytes.
pub open spec fn images(slots: Seq<Slot>, n: int) -> Seq<u8>
    decreases n,
{
    if n <= 0 {
        Seq::empty()
    } else {
        images(slots, n - 1) + slot_image(slots[n - 1])
    }
}

pub(crate) proof fn images_len(slots: Seq<Slot>, n: int)
    requires
        0 <= n <= slots.len(),
        forall|k: int| 0 <= k < slots.len() ==> (#[trigger] slots[k]).valid(),
    ensures
        images(slots, n).len() == 32 * n,
    decreases n,
{
    if n > 0 {
        images_len(slots, n - 1);
        slot_image_len(slots[n - 1]);
    }
}

/// Rows appended to a file are appended to its log.
proof fn images_read_back(rows: Seq<u8>, at: int, slots: Seq<Slot>, n: int)
    requires
        at >= 0,
        rows.len() == 32 * at,
        0 <= n <= slots.len(),
        forall|k: int| 0 <= k < slots.len() ==> (#[trigger] slots[k]).valid(),
    ensures
        read_log(rows + images(slots, n), at + n) == read_log(rows, at) + all_some(slots.take(n)),
    decreases n,
{
    if n == 0 {
        assert(rows + images(slots, 0) =~= rows);
        assert(read_log(rows, at) + all_some(slots.take(0)) =~= read_log(rows, at));
    } else {
        images_read_back(rows, at, slots, n - 1);
        images_len(slots, n - 1);
        images_len(slots, n);
        let before = rows + images(slots, n - 1);
        let data = rows + images(slots, n);
        let slot = slots[n - 1];
        assert(data =~= before + slot_image(slot));
        front_rows(data, 32 * (at + n - 1), at + n - 1);
        assert(data.take(32 * (at + n - 1)) =~= before);
        let r = at + n - 1;
        let chunk = data.subrange(32 * r, 32 * r + 32);
        assert(chunk =~= slot_image(slot));
        slot_parses_its_image(chunk, slot);
        assert(chunk.take(32) =~= chunk);
        let log = read_log(data, at + n);
        assert forall|k: int| 0 <= k < at + n implies #[trigger] log[k] == (read_log(rows, at)
            + all_some(slots.take(n)))[k] by {
            if k < r {
                assert(log[k] == read_log(data, r)[k]);
                assert((read_log(rows, at) + all_some(slots.take(n - 1)))[k] == (read_log(rows, at)
                    + all_some(slots.take(n)))[k]);
            }
        }
        assert(log =~= read_log(rows, at) + all_some(slots.take(n)));
    }
}

/// The manifest that a commit installs.
pub open spec fn new_manifest(s: State) -> Manifest {
    Manifest {
        generation: (s.generation + 1) as u64,
        row_count: (s.row_count + s.slots.len()) as u64,
        capacity: s.caps,
    }
}

/// The zone after the first `copies` copies of a commit's superblock.
pub open spec fn flipped(zone: Seq<u8>, s: State, copies: int) -> Seq<u8>
    decreases copies,
{
    if copies <= 0 {
        zone
    } else {
        zone_with(
            flipped(zone, s, copies - 1),
            sb_slot(new_manifest(s).generation, copies - 1),
            new_manifest(s),
        )
    }
}

/// A commit that began in `s`, with `rows` of its rows and `copies` of its
/// superblock on the files.
pub open spec fn partly(s: State, before: Disk, disk: Disk, rows: int, copies: int) -> bool {
    disk == (Disk {
        superblock: flipped(before.superblock, s, copies),
        rows: before.rows + images(s.slots, rows),
        ..before
    })
}

/// How far a commit that began in `s` has come.
pub open spec fn midway(s: State, before: Disk, at: (Machine, Reply, Disk)) -> bool {
    match at.0 {
        Machine::Engine(t) => {
            let n = s.slots.len() as int;
            &&& t == (State { phase: t.phase, ..s })
            &&& match t.phase {
                Phase::WriteRow { next } => {
                    &&& next < n
                    &&& at.1 == s.row_write(next as int)
                    &&& partly(s, before, at.2, next as int, 0)
                },
                Phase::FsyncRows => {
                    &&& at.1 == (Reply::Fsync { file: FileId::Rows })
                    &&& partly(s, before, at.2, n, 0)
                },
                Phase::WriteSb { copy } => {
                    &&& copy < 2
                    &&& at.1 == s.commit_sb(copy as int)
                    &&& partly(s, before, at.2, n, copy as int)
                },
                Phase::FsyncSb => {
                    &&& at.1 == (Reply::Fsync { file: FileId::Superblock })
                    &&& partly(s, before, at.2, n, 2)
                },
                _ => false,
            }
        },
        Machine::Migration(_) => false,
    }
}

/// A commit has begun in a settled database.
pub open spec fn begun(s: State, disk: Disk) -> bool {
    &&& s.ok()
    &&& s.phase == (Phase::WriteRow { next: 0 })
    &&& settled(disk, s)
}

/// The end of a commit.
pub open spec fn committed(s: State, end: (Machine, Reply, Disk)) -> bool {
    &&& end.0 == Machine::Engine(s.commit().0)
    &&& end.1 == s.done(None)
    &&& settled(end.2, s.commit().0)
}

/// The files while a commit is on its way: with no copy of the new superblock
/// they hold the old database, with one or two the new one.
pub(crate) proof fn partly_recovers(s: State, before: Disk, disk: Disk, rows: int, copies: int)
    requires
        begun(s, before),
        0 <= rows <= s.slots.len(),
        0 <= copies <= 2,
        copies > 0 ==> rows == s.slots.len(),
        partly(s, before, disk, rows, copies),
    ensures
        disk.rows.len() == 32 * (s.row_count + rows),
        copies == 0 ==> recoverable(disk, s.generation, s.row_count, s.db),
        copies > 0 ==> recoverable(
            disk,
            new_manifest(s).generation,
            new_manifest(s).row_count,
            applied(s.db, s.effects, s.slots),
        ),
        copies < 2 ==> 64 * sb_slot(new_manifest(s).generation, copies) <= disk.superblock.len(),
        copies == 2 ==> mirrored(
            disk.superblock,
            new_manifest(s).generation,
            new_manifest(s).row_count,
        ),
{
    let zone = before.superblock;
    let m = new_manifest(s);
    let n = s.row_count as int;
    assert forall|k: int| 0 <= k < s.slots.len() implies (#[trigger] s.slots[k]).valid() by {
        staged_slots_are_valid(s.db.live, n, s.effects, s.slots, k);
    }
    images_len(s.slots, rows);
    images_read_back(before.rows, n, s.slots, rows);
    front_rows(disk.rows, 32 * n, n);
    assert(disk.rows.take(32 * n) =~= before.rows);
    // The live pair is intact, so the zone reaches to where the new pair goes.
    let live = Manifest { generation: s.generation, row_count: s.row_count, capacity: 0 };
    assert(sb_healthy(zone, live, 0) && sb_healthy(zone, live, 1));
    assert(zone.len() >= 64 * (sb_slot(s.generation, 1) + 1));
    if copies > 0 {
        assert(s.slots.take(rows) =~= s.slots);
        replay_keeps_all(read_log(before.rows, n), s.db);
        commit_is_durable(s.db, s.effects, s.slots);
        assert forall|j: int|
            0 <= j < 4 && (#[trigger] sb_counts(zone, j)) is Some implies (sb_counts(
            zone,
            j,
        )->0).generation < m.generation by {
            none_is_newer(zone, j);
        }
        copy_is_elected(zone, 0, m);
        let one = flipped(zone, s, 1);
        assert(flipped(zone, s, 0) == zone);
        assert(one == zone_with(zone, sb_slot(m.generation, 0), m));
        copy_lands(zone, sb_slot(m.generation, 0), m);
        if copies == 2 {
            copy_is_elected(one, 1, m);
            let two = flipped(zone, s, 2);
            assert(two == zone_with(one, sb_slot(m.generation, 1), m));
            health_is_of_the_pair(two, m, 0);
            health_is_of_the_pair(two, m, 1);
        }
    } else {
        assert(flipped(zone, s, 0) == zone);
    }
}

/// A row of a commit is written.
#[verifier::spinoff_prover]
pub(crate) proof fn row_goes_on(s: State, before: Disk, disk: Disk, k: int)
    requires
        begun(s, before),
        0 <= k < s.slots.len(),
        partly(s, before, disk, k, 0),
    ensures
        match s.row_write(k) {
            Reply::Write { file, offset, data } => {
                &&& file == FileId::Rows
                &&& partly(
                    s,
                    before,
                    disk.with(file, written(disk.file(file), offset as int, data)),
                    k + 1,
                    0,
                )
            },
            _ => false,
        },
{
    partly_recovers(s, before, disk, k, 0);
    let offset = 32 * (s.row_count + k);
    let image = slot_image(s.slots[k]);
    assert(offset < 32 * s.caps);
    staged_slots_are_valid(s.db.live, s.row_count as int, s.effects, s.slots, k);
    slot_image_len(s.slots[k]);
    assert(written(disk.rows, offset, image) =~= disk.rows + image);
    assert(before.rows + images(s.slots, k) + image =~= before.rows + images(s.slots, k + 1));
}

/// A copy of a commit's superblock is written.
#[verifier::spinoff_prover]
pub(crate) proof fn copy_goes_on(s: State, before: Disk, disk: Disk, copy: int)
    requires
        begun(s, before),
        0 <= copy < 2,
        partly(s, before, disk, s.slots.len() as int, copy),
    ensures
        match s.commit_sb(copy) {
            Reply::Write { file, offset, data } => {
                &&& file == FileId::Superblock
                &&& partly(
                    s,
                    before,
                    disk.with(file, written(disk.file(file), offset as int, data)),
                    s.slots.len() as int,
                    copy + 1,
                )
            },
            _ => false,
        },
{
}

/// While rows are written.
#[verifier::spinoff_prover]
proof fn midway_rows(s: State, before: Disk, at: (Machine, Reply, Disk))
    requires
        begun(s, before),
        midway(s, before, at),
        (at.0->Engine_0).phase is WriteRow,
    ensures
        is_io(at.1),
        0 <= completed(at.0, at.1, at.2).0.work() < at.0.work(),
        midway(s, before, completed(at.0, at.1, at.2)),
{
    let t = at.0->Engine_0;
    let next = t.phase->next as int;
    row_goes_on(s, before, at.2, next);
}

/// When the rows have been synced.
#[verifier::spinoff_prover]
proof fn midway_rows_synced(s: State, before: Disk, at: (Machine, Reply, Disk))
    requires
        begun(s, before),
        midway(s, before, at),
        (at.0->Engine_0).phase is FsyncRows,
    ensures
        is_io(at.1),
        0 <= completed(at.0, at.1, at.2).0.work() < at.0.work(),
        midway(s, before, completed(at.0, at.1, at.2)),
{
}

/// While copies of the superblock are written.
#[verifier::spinoff_prover]
proof fn midway_copies(s: State, before: Disk, at: (Machine, Reply, Disk))
    requires
        begun(s, before),
        midway(s, before, at),
        (at.0->Engine_0).phase is WriteSb,
    ensures
        is_io(at.1),
        0 <= completed(at.0, at.1, at.2).0.work() < at.0.work(),
        midway(s, before, completed(at.0, at.1, at.2)),
{
    let t = at.0->Engine_0;
    let copy = t.phase->WriteSb_copy as int;
    copy_goes_on(s, before, at.2, copy);
}

/// When the superblock has been synced.
#[verifier::spinoff_prover]
proof fn midway_synced(s: State, before: Disk, at: (Machine, Reply, Disk))
    requires
        begun(s, before),
        midway(s, before, at),
        (at.0->Engine_0).phase is FsyncSb,
    ensures
        is_io(at.1),
        0 <= completed(at.0, at.1, at.2).0.work() < at.0.work(),
        committed(s, completed(at.0, at.1, at.2)),
{
    partly_recovers(s, before, at.2, s.slots.len() as int, 2);
}

/// One more request of a commit is performed.
pub(crate) proof fn midway_goes_on(s: State, before: Disk, at: (Machine, Reply, Disk))
    requires
        begun(s, before),
        midway(s, before, at),
    ensures
        is_io(at.1),
        0 <= completed(at.0, at.1, at.2).0.work() < at.0.work(),
        midway(s, before, completed(at.0, at.1, at.2)) || committed(
            s,
            completed(at.0, at.1, at.2),
        ),
{
    match (at.0->Engine_0).phase {
        Phase::WriteRow { .. } => midway_rows(s, before, at),
        Phase::FsyncRows => midway_rows_synced(s, before, at),
        Phase::WriteSb { .. } => midway_copies(s, before, at),
        _ => midway_synced(s, before, at),
    }
}

proof fn commit_from(s: State, before: Disk, at: (Machine, Reply, Disk))
    requires
        begun(s, before),
        midway(s, before, at),
    ensures
        committed(s, run(at.0, at.1, at.2)),
    decreases at.0.work(),
{
    midway_goes_on(s, before, at);
    run_on(at.0, at.1, at.2);
    let next = completed(at.0, at.1, at.2);
    if midway(s, before, next) {
        commit_from(s, before, next);
    }
}

/// A client's write.
pub open spec fn is_write(input: Input) -> bool {
    input is Insert || input is Update || input is Delete || input is Batch
}

/// What a settled database does with a write: it refuses it, or it begins a
/// commit.
pub proof fn write_begins(s: State, disk: Disk, input: Input)
    requires
        s.ok(),
        s.phase is Ready,
        settled(disk, s),
        s.accepts(input),
        is_write(input),
    ensures
        ({
            let (t, reply) = s.step(input);
            if is_io(reply) {
                &&& begun(t, disk)
                &&& midway(t, disk, (Machine::Engine(t), reply, disk))
                &&& t.generation == s.generation
                &&& t.row_count == s.row_count
                &&& t.db == s.db
                &&& t.caps == s.caps
            } else {
                t == s
            }
        }),
{
    step_keeps(s, input);
    let (t, reply) = s.step(input);
    if is_io(reply) {
        assert(disk.rows + images(t.slots, 0) =~= disk.rows);
        assert(flipped(disk.superblock, t, 0) == disk.superblock);
        assert(disk =~= (Disk {
            superblock: flipped(disk.superblock, t, 0),
            rows: disk.rows + images(t.slots, 0),
            ..disk
        }));
    }
}

/// An acknowledged write is on the files: a write to a settled database either
/// is refused, with nothing changed, or ends committed and settled.
pub proof fn acknowledged_writes_are_on_file(s: State, disk: Disk, input: Input)
    requires
        s.ok(),
        s.phase is Ready,
        settled(disk, s),
        s.accepts(input),
        is_write(input),
    ensures
        ({
            let (t, first) = s.step(input);
            let end = run(Machine::Engine(t), first, disk);
            if is_io(first) {
                committed(t, end)
            } else {
                end == (Machine::Engine(s), first, disk)
            }
        }),
{
    write_begins(s, disk, input);
    let (t, first) = s.step(input);
    if is_io(first) {
        commit_from(t, disk, (Machine::Engine(t), first, disk));
    }
}

pub proof fn commit_so_far(s: State, before: Disk, first: Reply, k: nat)
    requires
        begun(s, before),
        midway(s, before, (Machine::Engine(s), first, before)),
    ensures
        midway(s, before, after(Machine::Engine(s), first, before, k)) || committed(
            s,
            after(Machine::Engine(s), first, before, k),
        ),
    decreases k,
{
    if k > 0 {
        commit_so_far(s, before, first, (k - 1) as nat);
        let at = after(Machine::Engine(s), first, before, (k - 1) as nat);
        if midway(s, before, at) {
            midway_goes_on(s, before, at);
        }
    }
}

/// Wherever a write is cut off, the files hold either the database before it
/// or the database after it, whole.
pub proof fn a_cut_off_write_is_all_or_nothing(s: State, disk: Disk, input: Input, k: nat)
    requires
        s.ok(),
        s.phase is Ready,
        settled(disk, s),
        s.accepts(input),
        is_write(input),
    ensures
        ({
            let (t, first) = s.step(input);
            let left = after(Machine::Engine(t), first, disk, k).2;
            ||| recoverable(left, s.generation, s.row_count, s.db)
            ||| is_io(first) && recoverable(
                left,
                new_manifest(t).generation,
                new_manifest(t).row_count,
                applied(t.db, t.effects, t.slots),
            )
        }),
{
    write_begins(s, disk, input);
    let (t, first) = s.step(input);
    if is_io(first) {
        commit_so_far(t, disk, first, k);
        let at = after(Machine::Engine(t), first, disk, k);
        if midway(t, disk, at) {
            let n = t.slots.len() as int;
            match (at.0->Engine_0).phase {
                Phase::WriteRow { next } => {
                    partly_recovers(t, disk, at.2, next as int, 0);
                },
                Phase::FsyncRows => {
                    partly_recovers(t, disk, at.2, n, 0);
                },
                Phase::WriteSb { copy } => {
                    partly_recovers(t, disk, at.2, n, copy as int);
                },
                _ => {
                    partly_recovers(t, disk, at.2, n, 2);
                },
            }
        }
    } else {
        untouched(Machine::Engine(t), first, disk, k);
    }
}

pub(crate) proof fn untouched(m: Machine, reply: Reply, disk: Disk, k: nat)
    requires
        !is_io(reply),
    ensures
        after(m, reply, disk, k) == (m, reply, disk),
    decreases k,
{
    if k > 0 {
        untouched(m, reply, disk, (k - 1) as nat);
    }
}

/// A snapshot of a settled database's files, opened anywhere that has room for
/// its rows, is the same database.
pub proof fn a_snapshot_is_the_database(s: State, disk: Disk, caps: u64)
    requires
        settled(disk, s),
        reportable(disk),
        sizeable(caps),
        s.row_count <= caps,
    ensures
        ({
            let (t, first) = created(caps).open(
                disk.superblock.len() as u64,
                disk.rows.len() as u64,
            );
            opened(run(Machine::Engine(t), first, disk), caps, s.generation, s.row_count, s.db)
        }),
{
    opening_finds_the_database(caps, disk, s.generation, s.row_count, s.db);
}

} // verus!
