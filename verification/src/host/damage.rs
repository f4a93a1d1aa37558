//! What becomes of damage at rest: bytes that changed under the database, files
//! that were cut short, and commits that a device took back.

use crate::engine::durability::{
    a_hole_stops_the_replay, commit_is_durable, newest_is_elected, replay_keeps_all,
};
use crate::engine::laws::is_io;
use crate::engine::log::{all_some, applied, Db, Log};
use crate::engine::model::{
    created, disagree, min, read_log, rollback_evidence, sb_chunk, sb_counts, sb_healthy, sb_newest,
    sb_slot, Phase, State,
};
use crate::engine::tables::sizeable;
use crate::engine::types::{Input, Reply};
use crate::host::crash::{genuine, torn_zone};
use crate::host::disk::{completed, run, sb_image_len, Disk, Machine};
use crate::host::laws::{
    front_rows, is_write, new_manifest, none_is_newer, recoverable, reportable, run_on, settled,
    write_begins, zone_prefix,
};
use crate::layout::{
    sb_damage_is_detected, sb_image, sb_parsed, sb_parses_its_image, Manifest, SB_MAGIC, SCHEMA_HASH,
};
use crate::slot::{slot_damage_is_detected, slot_parsed_is_valid, slot_parses_its_image, Slot};
use vstd::prelude::*;

verus! {

// ---- Superblocks ----

/// Slot `j` holds a superblock copy, or nothing but zeros.
pub open spec fn tidy(zone: Seq<u8>, j: int) -> bool {
    match sb_chunk(zone, j) {
        None => true,
        Some(chunk) => sb_parsed(chunk) is Some || chunk == crate::bytes::zeros(64),
    }
}

/// A tidy slot with one byte changed holds nothing.
proof fn rotten_slot(zone: Seq<u8>, at: int, to: u8)
    requires
        0 <= at < zone.len(),
        at < 256,
        tidy(zone, at / 64),
        to != zone[at],
    ensures
        sb_counts(zone.update(at, to), at / 64) is None,
{
    let j = at / 64;
    let rotten = zone.update(at, to);
    if zone.len() >= 64 * (j + 1) {
        let chunk = zone.subrange(64 * j, 64 * j + 64);
        let bad = rotten.subrange(64 * j, 64 * j + 64);
        let p = at - 64 * j;
        assert(bad =~= chunk.update(p, to));
        if sb_parsed(chunk) is Some {
            let (m, schema) = sb_parsed(chunk)->0;
            sb_parses_its_image(chunk, m, schema);
            assert(chunk.take(64) =~= chunk);
            sb_damage_is_detected(m, schema, p, to);
        } else {
            assert(bad[0] == 0 || bad[1] == 0);
            if sb_parsed(bad) is Some {
                let (m, schema) = sb_parsed(bad)->0;
                assert(bad.take(8)[0] == SB_MAGIC@[0]);
                assert(bad.take(8)[1] == SB_MAGIC@[1]);
            }
        }
    }
}

/// One rotten byte in the superblock zone loses nothing: the other copy of the
/// live pair is elected, and the database is found as it was.
pub proof fn one_rotten_superblock_byte_loses_nothing(s: State, disk: Disk, at: int, to: u8)
    requires
        s.generation > 0,
        settled(disk, s),
        0 <= at < disk.superblock.len(),
        at < 256 ==> tidy(disk.superblock, at / 64),
        to != disk.superblock[at],
    ensures
        recoverable(
            (Disk { superblock: disk.superblock.update(at, to), ..disk }),
            s.generation,
            s.row_count,
            s.db,
        ),
{
    let zone = disk.superblock;
    let rotten = zone.update(at, to);
    let hit = at / 64;
    assert forall|j: int| 0 <= j < 4 && j != hit implies sb_chunk(rotten, j) == #[trigger] sb_chunk(
        zone,
        j,
    ) by {
        if zone.len() >= 64 * (j + 1) {
            assert(rotten.subrange(64 * j, 64 * j + 64) =~= zone.subrange(64 * j, 64 * j + 64));
        }
    }
    if at < 256 {
        rotten_slot(zone, at, to);
    }
    // One copy of the live pair was not hit.
    let live = Manifest { generation: s.generation, row_count: s.row_count, capacity: 0 };
    assert(sb_healthy(zone, live, 0) && sb_healthy(zone, live, 1));
    let i = if sb_slot(s.generation, 0) == hit {
        sb_slot(s.generation, 1)
    } else {
        sb_slot(s.generation, 0)
    };
    assert(sb_chunk(rotten, i) == sb_chunk(zone, i));
    assert(sb_counts(rotten, i) is Some);
    newest_is_elected(rotten, 4);
    let e = sb_newest(rotten, 4)->0;
    let x = choose|x: int| 0 <= x < 4 && #[trigger] sb_counts(rotten, x) == Some(e);
    assert(sb_counts(rotten, x) == Some(e));
    assert(x != hit);
    assert(sb_chunk(rotten, x) == sb_chunk(zone, x));
    none_is_newer(zone, x);
    assert(e.generation == s.generation);
    assert(x == sb_slot(s.generation, 0) || x == sb_slot(s.generation, 1));
}

/// A superblock copy that landed in a slot of the other pair is never trusted.
pub proof fn a_misplaced_superblock_is_distrusted(zone: Seq<u8>, j: int, m: Manifest)
    requires
        0 <= j < 4,
        j != sb_slot(m.generation, 0),
        j != sb_slot(m.generation, 1),
        sb_chunk(zone, j) == Some(
            sb_image(m.generation, m.row_count, SCHEMA_HASH, m.capacity),
        ),
    ensures
        sb_counts(zone, j) is None,
{
    let image = sb_image(m.generation, m.row_count, SCHEMA_HASH, m.capacity);
    sb_image_len();
    assert(image.take(64) =~= image);
    sb_parses_its_image(image, m, SCHEMA_HASH);
}

// ---- Rows ----

/// An open that is refused because the files are damaged: the files are left as
/// they are, and the engine serves nothing.
pub open spec fn refused_as_corrupt(end: (Machine, Reply, Disk), disk: Disk) -> bool {
    &&& end.1 matches Reply::OpenDone { result: Err(e) } && e is Corrupt && (end.0->Engine_0).phase
        == Phase::Failed(e)
    &&& end.0 is Engine
    &&& end.2 == disk
}

/// Rows that were cut off are missed.
pub proof fn missing_rows_are_refused(caps: u64, disk: Disk, m: Manifest)
    requires
        sizeable(caps),
        reportable(disk),
        sb_newest(disk.superblock, 4) == Some(m),
        m.row_count <= caps,
        disk.rows.len() < 32 * m.row_count,
    ensures
        ({
            let (s, first) = created(caps).open(
                disk.superblock.len() as u64,
                disk.rows.len() as u64,
            );
            refused_as_corrupt(run(Machine::Engine(s), first, disk), disk)
        }),
{
    let zone = disk.superblock;
    if zone.len() == 0 {
        newest_is_elected(zone, 4);
        let i = choose|i: int| 0 <= i < 4 && #[trigger] sb_counts(zone, i) == Some(m);
        assert(sb_counts(zone, i) is None);
    }
    zone_prefix(zone, 4);
    let (s, first) = created(caps).open(zone.len() as u64, disk.rows.len() as u64);
    run_on(Machine::Engine(s), first, disk);
}

/// A row that was committed reads as a slot, and with one byte changed as
/// nothing.
proof fn rotten_row(rows: Seq<u8>, n: int, db: Db, at: int, to: u8)
    requires
        crate::engine::durability::replays_to(read_log(rows, n), db),
        rows.len() >= 32 * n,
        0 <= at < 32 * n,
        to != rows[at],
    ensures
        read_log(rows.update(at, to), n)[at / 32] is None,
{
    let log = read_log(rows, n);
    let r = at / 32;
    let chunk = rows.subrange(32 * r, 32 * r + 32);
    if log[r] is None {
        assert(Db::empty().kept =~= log.take(0));
        a_hole_stops_the_replay(log, Db::empty(), r);
    }
    let slot = log[r]->0;
    slot_parsed_is_valid(chunk);
    slot_parses_its_image(chunk, slot);
    assert(chunk.take(32) =~= chunk);
    let p = at - 32 * r;
    slot_damage_is_detected(slot, p, to);
    assert(rows.update(at, to).subrange(32 * r, 32 * r + 32) =~= chunk.update(p, to));
}

/// A committed row that cannot be read is always noticed: nothing is served.
#[verifier::spinoff_prover]
pub proof fn an_unreadable_row_is_refused(caps: u64, disk: Disk, m: Manifest, r: int)
    requires
        sizeable(caps),
        reportable(disk),
        sb_newest(disk.superblock, 4) == Some(m),
        m.row_count <= caps,
        32 * m.row_count <= disk.rows.len(),
        0 <= r < m.row_count,
        read_log(disk.rows, m.row_count as int)[r] is None,
    ensures
        ({
            let (s, first) = created(caps).open(
                disk.superblock.len() as u64,
                disk.rows.len() as u64,
            );
            refused_as_corrupt(run(Machine::Engine(s), first, disk), disk)
        }),
{
    let zone = disk.superblock;
    let n = m.row_count as int;
    let log = read_log(disk.rows, n);
    assert(Db::empty().kept =~= log.take(0));
    a_hole_stops_the_replay(log, Db::empty(), r);
    if zone.len() == 0 {
        newest_is_elected(zone, 4);
        let i = choose|i: int| 0 <= i < 4 && #[trigger] sb_counts(zone, i) == Some(m);
        assert(sb_counts(zone, i) is None);
    }
    zone_prefix(zone, 4);
    front_rows(disk.rows, min(disk.rows.len() as int, 32 * caps), n);
    let (t, first) = created(caps).open(zone.len() as u64, disk.rows.len() as u64);
    run_on(Machine::Engine(t), first, disk);
    let (m1, r1, d1) = completed(Machine::Engine(t), first, disk);
    run_on(m1, r1, d1);
}

/// One rotten byte in a committed row is always detected: nothing is served
/// from a database that is not what was committed.
pub proof fn a_rotten_row_is_refused(s: State, disk: Disk, caps: u64, at: int, to: u8)
    requires
        settled(disk, s),
        sizeable(caps),
        s.row_count <= caps,
        reportable(disk),
        0 <= at < disk.rows.len(),
        to != disk.rows[at],
    ensures
        ({
            let rotten = Disk { rows: disk.rows.update(at, to), ..disk };
            let (t, first) = created(caps).open(
                rotten.superblock.len() as u64,
                rotten.rows.len() as u64,
            );
            refused_as_corrupt(run(Machine::Engine(t), first, rotten), rotten)
        }),
{
    let rotten = Disk { rows: disk.rows.update(at, to), ..disk };
    let m = sb_newest(disk.superblock, 4)->0;
    rotten_row(disk.rows, s.row_count as int, s.db, at, to);
    an_unreadable_row_is_refused(caps, rotten, m, at / 32);
}

// ---- Commits that were taken back ----

/// Every slot of a commit tells how many follow it.
pub open spec fn counted_down(slots: Seq<Slot>) -> bool {
    forall|k: int| 0 <= k < slots.len() ==> (#[trigger] slots[k]).span == slots.len() - 1 - k
}

/// The slots of a write are counted down.
pub proof fn commits_count_down(s: State, input: Input)
    requires
        s.ok(),
        s.phase is Ready,
        s.accepts(input),
        is_write(input),
        is_io(s.step(input).1),
    ensures
        counted_down(s.step(input).0.slots),
{
    crate::engine::laws::step_keeps(s, input);
    let t = s.step(input).0;
    assert(t.slots.len() <= 128);
}

/// What an interrupted commit leaves is no evidence of a rollback: among the
/// rows past the committed ones, each is unreadable or the row that the commit
/// wrote there.
pub proof fn an_interrupted_commit_is_no_rollback(slots: Seq<Slot>, past: Seq<u8>, n: int)
    requires
        counted_down(slots),
        forall|r: int|
            0 <= r < n && (#[trigger] read_log(past, n)[r]) is Some ==> r < slots.len() && read_log(
                past,
                n,
            )[r] == Some(slots[r]),
    ensures
        !rollback_evidence(past, n),
{
    let log = read_log(past, n);
    assert forall|i: int, j: int| 0 <= i < n && 0 <= j < n implies !#[trigger] disagree(
        log,
        i,
        j,
    ) by {
        if log[i] is Some && log[j] is Some {
            assert(slots[i].span == slots.len() - 1 - i);
            assert(slots[j].span == slots.len() - 1 - j);
        }
    }
}

/// Row `r` of a log is one of the rows of a commit that began at row `from`.
pub open spec fn row_of(log: Log, r: int, from: int, slots: Seq<Slot>) -> bool {
    &&& 0 <= r < log.len()
    &&& from <= r < from + slots.len()
    &&& log[r] == Some(slots[r - from])
}

/// Commits that were acknowledged and then taken back are noticed as soon as a
/// row of each of two of them is left.
pub proof fn two_lost_commits_are_noticed(
    past: Seq<u8>,
    n: int,
    i: int,
    a: int,
    first: Seq<Slot>,
    j: int,
    b: int,
    second: Seq<Slot>,
)
    requires
        n >= 0,
        counted_down(first),
        counted_down(second),
        a + first.len() <= b,
        row_of(read_log(past, n), i, a, first),
        row_of(read_log(past, n), j, b, second),
    ensures
        rollback_evidence(past, n),
{
    assert(first[i - a].span == first.len() - 1 - (i - a));
    assert(second[j - b].span == second.len() - 1 - (j - b));
    assert(disagree(read_log(past, n), i, j));
}

/// A sync that lied costs at most the last write, and never silently more: of
/// the write's rows each may be unreadable, missing or as written, and of its
/// superblock copies each may be torn, missing or as written. Then the database
/// before the write is there, or the one after it, or the open is refused.
#[verifier::spinoff_prover]
pub proof fn a_lying_sync_costs_at_most_the_last_write(
    s: State,
    disk: Disk,
    input: Input,
    caps: u64,
    left: Disk,
)
    requires
        s.ok(),
        s.phase is Ready,
        settled(disk, s),
        s.accepts(input),
        is_write(input),
        is_io(s.step(input).1),
        sizeable(caps),
        s.caps <= caps,
        reportable(left),
        forall|j: int|
            0 <= j < 4 && j != sb_slot(new_manifest(s.step(input).0).generation, 0) && j != sb_slot(
                new_manifest(s.step(input).0).generation,
                1,
            ) ==> #[trigger] sb_chunk(left.superblock, j) == sb_chunk(disk.superblock, j),
        genuine(disk.superblock, left.superblock, new_manifest(s.step(input).0)),
        left.rows.len() >= disk.rows.len(),
        left.rows.take(disk.rows.len() as int) == disk.rows,
        forall|k: int|
            0 <= k < s.step(input).0.slots.len() && (#[trigger] read_log(
                left.rows,
                s.row_count + s.step(input).0.slots.len(),
            )[s.row_count + k]) is Some ==> read_log(
                left.rows,
                s.row_count + s.step(input).0.slots.len(),
            )[s.row_count + k] == Some(s.step(input).0.slots[k]),
    ensures
        ({
            let t = s.step(input).0;
            let (u, first) = created(caps).open(
                left.superblock.len() as u64,
                left.rows.len() as u64,
            );
            ||| recoverable(left, s.generation, s.row_count, s.db)
            ||| recoverable(
                left,
                new_manifest(t).generation,
                new_manifest(t).row_count,
                applied(t.db, t.effects, t.slots),
            )
            ||| refused_as_corrupt(run(Machine::Engine(u), first, left), left)
        }),
{
    write_begins(s, disk, input);
    let t = s.step(input).0;
    let m = new_manifest(t);
    let n = s.row_count as int;
    let all = n + t.slots.len();
    front_rows(left.rows, 32 * n, n);
    torn_zone(disk.superblock, left.superblock, s.generation, s.row_count, m);
    if sb_newest(left.superblock, 4) == Some(m) {
        let log = read_log(left.rows, all);
        if left.rows.len() < 32 * all {
            missing_rows_are_refused(caps, left, m);
        } else if exists|r: int| 0 <= r < all && (#[trigger] log[r]) is None {
            let r = choose|r: int| 0 <= r < all && (#[trigger] log[r]) is None;
            an_unreadable_row_is_refused(caps, left, m, r);
        } else {
            let old_log = read_log(disk.rows, n);
            replay_keeps_all(old_log, t.db);
            assert forall|r: int| 0 <= r < all implies #[trigger] log[r] == (old_log + all_some(
                t.slots,
            ))[r] by {
                assert(log[r] is Some);
                if r < n {
                    assert(log[r] == read_log(left.rows, n)[r]);
                    assert(read_log(left.rows, n) == read_log(left.rows.take(32 * n), n));
                } else {
                    assert(log[n + (r - n)] is Some);
                }
            }
            assert(log =~= old_log + all_some(t.slots));
            commit_is_durable(t.db, t.effects, t.slots);
        }
    }
}

} // verus!
