//! Opening damaged files in salvage mode, and sound ones.

use crate::engine::durability::{
    kept_of, newest_is_elected, salvage_never_stops, salvage_of_sound_log,
};
use crate::engine::laws::{replay_wf, salvage_without_damage};
use crate::engine::log::{empty_wf, replay, Db};
use crate::engine::model::{created, min, read_log, sb_counts, sb_newest, Phase, State};
use crate::engine::tables::sizeable;
use crate::engine::types::{FileId, Reply};
use crate::host::disk::{clamped, completed, run, Disk, Machine};
use crate::host::laws::{front_rows, reportable, run_on, zone_prefix};
use crate::layout::Manifest;
use crate::slot::slot_parsed_is_valid;
use vstd::prelude::*;

verus! {

/// A state, in salvage mode.
pub open spec fn salvaging(s: State) -> State {
    State { salvage: true, ..s }
}

/// Strict recovery gets through the committed rows, if it comes to reading
/// them.
pub open spec fn rows_are_sound(caps: u64, disk: Disk) -> bool {
    match sb_newest(disk.superblock, 4) {
        Some(m) => {
            m.row_count <= caps && 32 * m.row_count <= disk.rows.len() ==> replay(
                read_log(disk.rows, m.row_count as int),
                Db::empty(),
                false,
            ).1 is None
        },
        None => true,
    }
}

/// An open that has read what it reads, and its request or its answer.
spec fn has_read(s: State, reply: Reply) -> bool {
    match s.phase {
        Phase::RecoverTruncateRows { .. } => reply is Truncate,
        Phase::RecoverFsyncRows { .. } | Phase::RecoverFsyncSb { .. } | Phase::InitFsyncSb => {
            reply is Fsync
        },
        Phase::RecoverRepairSb { .. } | Phase::InitWriteSb { .. } => reply is Write,
        Phase::Ready | Phase::Degraded | Phase::Failed(_) => reply is OpenDone,
        _ => false,
    }
}

/// Once the files are read, the mode makes no difference.
proof fn mode_makes_no_difference(s: State, reply: Reply, disk: Disk)
    requires
        has_read(s, reply),
    ensures
        ({
            let end = run(Machine::Engine(s), reply, disk);
            &&& end.0 is Engine
            &&& run(Machine::Engine(salvaging(s)), reply, disk) == (
                Machine::Engine(salvaging(end.0->Engine_0)),
                end.1,
                end.2,
            )
        }),
    decreases Machine::Engine(s).work(),
{
    if !(reply is OpenDone) {
        let next = completed(Machine::Engine(s), reply, disk);
        let t = next.0->Engine_0;
        assert(completed(Machine::Engine(salvaging(s)), reply, disk) == (
            Machine::Engine(salvaging(t)),
            next.1,
            next.2,
        ));
        run_on(Machine::Engine(s), reply, disk);
        run_on(Machine::Engine(salvaging(s)), reply, disk);
        mode_makes_no_difference(t, next.1, next.2);
    }
}

/// A superblock that is elected is there.
proof fn elected_is_there(zone: Seq<u8>)
    requires
        sb_newest(zone, 4) is Some,
    ensures
        zone.len() > 0,
{
    let m = sb_newest(zone, 4)->0;
    newest_is_elected(zone, 4);
    let i = choose|i: int| 0 <= i < 4 && #[trigger] sb_counts(zone, i) == Some(m);
    if zone.len() == 0 {
        assert(sb_counts(zone, i) is None);
    }
}

/// Opening files without damage in salvage mode is exactly opening them: the
/// same requests lead to the same answer, the same database and the same files.
#[verifier::spinoff_prover]
pub proof fn salvaging_sound_files_is_opening_them(caps: u64, disk: Disk)
    requires
        sizeable(caps),
        reportable(disk),
        rows_are_sound(caps, disk),
    ensures
        ({
            let sizes = (disk.superblock.len() as u64, disk.rows.len() as u64);
            let (s, first) = created(caps).open(sizes.0, sizes.1);
            let (t, same) = salvaging(created(caps)).open(sizes.0, sizes.1);
            let end = run(Machine::Engine(s), first, disk);
            &&& end.0 is Engine
            &&& run(Machine::Engine(t), same, disk) == (
                Machine::Engine(salvaging(end.0->Engine_0)),
                end.1,
                end.2,
            )
        }),
{
    let zone = disk.superblock;
    let (s, first) = created(caps).open(zone.len() as u64, disk.rows.len() as u64);
    let (t, same) = salvaging(created(caps)).open(zone.len() as u64, disk.rows.len() as u64);
    assert(t == salvaging(s) && same == first);
    if zone.len() == 0 {
        mode_makes_no_difference(s, first, disk);
    } else {
        zone_prefix(zone, 4);
        let one = completed(Machine::Engine(s), first, disk);
        let two = completed(Machine::Engine(t), same, disk);
        let u = one.0->Engine_0;
        assert(two == (Machine::Engine(salvaging(u)), one.1, one.2));
        run_on(Machine::Engine(s), first, disk);
        run_on(Machine::Engine(t), same, disk);
        if u.phase is RecoverReadRows {
            let m = sb_newest(zone, 4)->0;
            let n = m.row_count as int;
            let len = min(disk.rows.len() as int, 32 * caps);
            front_rows(disk.rows, len, n);
            let log = read_log(disk.rows, n);
            assert(Db::empty().kept =~= log.take(0));
            salvage_of_sound_log(log, Db::empty(), replay(log, Db::empty(), false).0);
            let read = completed(one.0, one.1, disk);
            assert(completed(two.0, two.1, disk) == (
                Machine::Engine(salvaging(read.0->Engine_0)),
                read.1,
                read.2,
            ));
            run_on(one.0, one.1, disk);
            run_on(two.0, two.1, disk);
            mode_makes_no_difference(read.0->Engine_0, read.1, disk);
        } else {
            mode_makes_no_difference(u, one.1, disk);
        }
    }
}

/// What a salvage of damaged rows ends in: read-only, with the damage set aside
/// and every other row as it was read, and no byte of the files touched.
pub open spec fn salvaged(
    end: (Machine, Reply, Disk),
    caps: u64,
    disk: Disk,
    m: Manifest,
) -> bool {
    match end.0 {
        Machine::Engine(t) => {
            let log = read_log(disk.rows, m.row_count as int);
            &&& t.phase == Phase::Degraded
            &&& t.caps == caps
            &&& t.generation == m.generation
            &&& t.row_count == m.row_count
            &&& t.db == replay(log, Db::empty(), true).0
            &&& t.db.quarantined > 0
            &&& t.db.kept.len() == log.len()
            &&& kept_of(log, t.db)
            &&& end.1 == (Reply::OpenDone { result: Ok(m.row_count) })
            &&& end.2 == disk
        },
        Machine::Migration(_) => false,
    }
}

/// Rows that strict recovery does not get through are set aside in part, and
/// none is invented.
proof fn damage_is_set_aside(rows: Seq<u8>, n: int)
    requires
        0 <= n <= u64::MAX,
        replay(read_log(rows, n), Db::empty(), false).1 is Some,
    ensures
        n > 0,
        ({
            let (d, stopped) = replay(read_log(rows, n), Db::empty(), true);
            &&& stopped is None
            &&& d.quarantined > 0
            &&& d.kept.len() == n
            &&& kept_of(read_log(rows, n), d)
        }),
{
    let log = read_log(rows, n);
    empty_wf();
    salvage_never_stops(log);
    assert forall|r: int| 0 <= r < log.len() && (#[trigger] log[r]) is Some implies (
    log[r]->0).valid() by {
        slot_parsed_is_valid(rows.subrange(32 * r, 32 * r + 32));
    }
    replay_wf(log, Db::empty(), true);
    if replay(log, Db::empty(), true).0.quarantined == 0 {
        salvage_without_damage(log, Db::empty());
    }
}

/// A salvage that has come to reading damaged rows ends there.
proof fn damage_ends_the_open(s: State, disk: Disk, m: Manifest, len: int)
    requires
        s.salvage,
        s.phase == (Phase::RecoverReadRows { generation: m.generation, row_count: m.row_count }),
        32 * m.row_count <= len <= disk.rows.len() <= u64::MAX,
        replay(read_log(disk.rows, m.row_count as int), Db::empty(), false).1 is Some,
    ensures
        salvaged(
            run(
                Machine::Engine(s),
                Reply::Read { file: FileId::Rows, offset: 0, len: len as u64 },
                disk,
            ),
            s.caps,
            disk,
            m,
        ),
{
    let n = m.row_count as int;
    let reply = Reply::Read { file: FileId::Rows, offset: 0, len: len as u64 };
    damage_is_set_aside(disk.rows, n);
    front_rows(disk.rows, len, n);
    let data = clamped(disk.rows, 0, len);
    assert(data =~= disk.rows.take(len));
    let next = completed(Machine::Engine(s), reply, disk);
    assert(next.0 == Machine::Engine(s.recover_rows(m.generation, m.row_count, data).0));
    run_on(Machine::Engine(s), reply, disk);
}

/// Opening damaged rows in salvage mode always succeeds, and writes nothing: a
/// damaged file is never made worse.
#[verifier::spinoff_prover]
pub proof fn salvaging_damage_changes_no_byte(caps: u64, disk: Disk, m: Manifest)
    requires
        sizeable(caps),
        reportable(disk),
        sb_newest(disk.superblock, 4) == Some(m),
        m.row_count <= caps,
        32 * m.row_count <= disk.rows.len(),
        !rows_are_sound(caps, disk),
    ensures
        ({
            let (s, first) = salvaging(created(caps)).open(
                disk.superblock.len() as u64,
                disk.rows.len() as u64,
            );
            salvaged(run(Machine::Engine(s), first, disk), caps, disk, m)
        }),
{
    let zone = disk.superblock;
    elected_is_there(zone);
    zone_prefix(zone, 4);
    damage_is_set_aside(disk.rows, m.row_count as int);
    let (s, first) = salvaging(created(caps)).open(zone.len() as u64, disk.rows.len() as u64);
    let one = completed(Machine::Engine(s), first, disk);
    run_on(Machine::Engine(s), first, disk);
    damage_ends_the_open(one.0->Engine_0, disk, m, min(disk.rows.len() as int, 32 * caps));
}

} // verus!
