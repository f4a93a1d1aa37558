//! The inspector and an open, held against each other on files.

use crate::engine::laws::is_io;
use crate::engine::log::{replay, Db};
use crate::engine::model::{created, min, read_log, rollback_evidence, Phase};
use crate::engine::tables::sizeable;
use crate::engine::types::{DbError, Reply};
use crate::host::crash::opening_reports_rollbacks;
use crate::host::disk::{after, clamped, completed, run, Disk, Machine};
use crate::host::laws::{opening_finds_the_database, recoverable, reportable, run_on};
use crate::host::migrating::{migrating_a_current_database_changes_nothing, newest_is_current};
use crate::host::refusing::{migrated, opening};
use crate::inspect::counting::the_live_copy_is_the_newest;
use crate::inspect::report::{is_healthy, is_reclaimable};
use crate::inspect::{
    committed_rows, elected, election_agrees, file_log, past_rows, unwalked,
    verdict_is_what_recovery_does, verdict_of, walk_keeps_step, InspectReport, Verdict,
};
use crate::layout::SCHEMA_HASH;
use crate::migration::{migratable, V1_SCHEMA_HASH};
use vstd::prelude::*;

verus! {

/// An open that was answered with this error, the files left as they were.
pub open spec fn answered(end: (Machine, Reply, Disk), error: DbError, disk: Disk) -> bool {
    end.1 == (Reply::OpenDone { result: Err(error) }) && end.2 == disk
}

/// Rows that the inspector finds sound replay.
proof fn sound_rows_are_recoverable(disk: Disk)
    requires
        verdict_of(disk.superblock, disk.rows) is Recovers,
    ensures
        exists|db: Db| #[trigger]
            recoverable(
                disk,
                (elected(disk.superblock, 4)->0).generation,
                (elected(disk.superblock, 4)->0).row_count,
                db,
            ),
{
    let l = elected(disk.superblock, 4)->0;
    let n = l.row_count as int;
    election_agrees(disk.superblock, 4);
    let log = file_log(disk.rows, n);
    assert(read_log(disk.rows, n) =~= log);
    assert(Db::empty().live.dom() =~= Set::empty());
    walk_keeps_step(unwalked(), log, Db::empty());
    let db = replay(log, Db::empty(), false).0;
    assert(recoverable(disk, l.generation, l.row_count, db));
}

/// What the inspector concludes is what a strict open of the same files
/// answers, given a capacity that admits them: it initializes afresh, recovers
/// the rows that the inspector counts, or is refused with the error that the
/// inspector names. A refused open leaves the files as they were.
#[verifier::spinoff_prover]
pub proof fn the_verdict_is_what_an_open_answers(caps: u64, disk: Disk)
    requires
        sizeable(caps),
        reportable(disk),
        elected(disk.superblock, 4) is Some ==> elected(disk.superblock, 4)->0.row_count <= caps,
    ensures
        ({
            let (s, first) = created(caps).open(
                disk.superblock.len() as u64,
                disk.rows.len() as u64,
            );
            let end = run(Machine::Engine(s), first, disk);
            match verdict_of(disk.superblock, disk.rows) {
                Verdict::FreshInit => {
                    &&& end.1 == (Reply::OpenDone { result: Ok(0) })
                    &&& (end.0->Engine_0).generation == 1
                },
                Verdict::Recovers { rows } => {
                    &&& end.1 == (Reply::OpenDone { result: Ok(rows) })
                    &&& (end.0->Engine_0).generation == (elected(
                        disk.superblock,
                        4,
                    )->0).generation
                },
                Verdict::SchemaMismatch { file_schema, migratable } => {
                    &&& answered(
                        end,
                        DbError::SchemaMismatch { file_schema, binary_schema: SCHEMA_HASH },
                        disk,
                    )
                    &&& migratable == (file_schema == V1_SCHEMA_HASH)
                },
                Verdict::Corrupt { what } => answered(end, DbError::Corrupt { what }, disk),
            }
        }),
{
    let zone = disk.superblock;
    let rows = disk.rows;
    verdict_is_what_recovery_does(zone, rows, caps);
    let (s, first) = created(caps).open(zone.len() as u64, rows.len() as u64);
    let m0 = Machine::Engine(s);
    if verdict_of(zone, rows) is Recovers {
        sound_rows_are_recoverable(disk);
        let l = elected(zone, 4)->0;
        let db = choose|db: Db| #[trigger] recoverable(disk, l.generation, l.row_count, db);
        opening_finds_the_database(caps, disk, l.generation, l.row_count, db);
    } else {
        assert(clamped(zone, 0, 256) =~= zone.take(min(zone.len() as int, 256)));
        let len = min(rows.len() as int, 32 * caps);
        assert(clamped(rows, 0, len) =~= rows.take(len));
        if s.phase is RecoverReadSb {
            run_on(m0, first, disk);
        }
        let (m1, r1, d1) = if s.phase is RecoverReadSb {
            completed(m0, first, disk)
        } else {
            (m0, first, disk)
        };
        if (m1->Engine_0).phase is RecoverReadRows {
            run_on(m1, r1, d1);
        }
        if (m1->Engine_0).phase is InitWriteSb {
            run_on(m1, r1, d1);
            let (m2, r2, d2) = completed(m1, r1, d1);
            run_on(m2, r2, d2);
            let (m3, r3, d3) = completed(m2, r2, d2);
            run_on(m3, r3, d3);
            assert((completed(m3, r3, d3).0->Engine_0).phase == Phase::Ready);
        }
    }
}

/// The inspector sees evidence of a rollback exactly where an open reports it,
/// given a capacity that covers the whole rows file. (An open reads no further
/// than its capacity.)
pub proof fn the_evidence_is_what_an_open_reports(caps: u64, disk: Disk, k: nat)
    requires
        sizeable(caps),
        reportable(disk),
        disk.rows.len() <= 32 * caps,
        verdict_of(disk.superblock, disk.rows) is Recovers,
        ({
            let (s, first) = created(caps).open(
                disk.superblock.len() as u64,
                disk.rows.len() as u64,
            );
            !is_io(after(Machine::Engine(s), first, disk, k).1)
        }),
    ensures
        ({
            let (s, first) = created(caps).open(
                disk.superblock.len() as u64,
                disk.rows.len() as u64,
            );
            let t = after(Machine::Engine(s), first, disk, k).0->Engine_0;
            let past = past_rows(disk.rows, committed_rows(disk.superblock));
            t.orphan_rollback == rollback_evidence(past, past.len() as int / 32)
        }),
{
    sound_rows_are_recoverable(disk);
    let l = elected(disk.superblock, 4)->0;
    let db = choose|db: Db| #[trigger] recoverable(disk, l.generation, l.row_count, db);
    opening_reports_rollbacks(caps, disk, l.generation, l.row_count, db, k);
    let len = min(disk.rows.len() as int, 32 * caps);
    assert(clamped(disk.rows, 0, len).skip(32 * l.row_count) =~= disk.rows.skip(
        32 * l.row_count,
    ));
}

/// The report is what an inspection of the files gives.
pub open spec fn reports_on(report: InspectReport, disk: Disk) -> bool {
    let past = past_rows(disk.rows, committed_rows(disk.superblock));
    &&& report.live == elected(disk.superblock, 4)
    &&& report.verdict == verdict_of(disk.superblock, disk.rows)
    &&& report.rollback_evidence == rollback_evidence(past, past.len() as int / 32)
}

/// Files are healthy exactly if an open succeeds on them, given a capacity that
/// admits them, and no rows stand behind the committed ones that would show a
/// rollback. The legacy rows file may go exactly if the open finds a database
/// that a superblock of this schema speaks for, and then a migration has
/// nothing left to do.
pub proof fn healthy_files_open(caps: u64, disk: Disk, report: InspectReport)
    requires
        sizeable(caps),
        reportable(disk),
        reports_on(report, disk),
        elected(disk.superblock, 4) is Some ==> elected(disk.superblock, 4)->0.row_count <= caps,
    ensures
        ({
            let past = past_rows(disk.rows, committed_rows(disk.superblock));
            let reply = opening(disk, caps).1;
            let opens = reply matches Reply::OpenDone { result } && result is Ok;
            &&& is_healthy(report) <==> opens && !rollback_evidence(past, past.len() as int / 32)
            &&& is_reclaimable(report) <==> opens && elected(disk.superblock, 4) is Some
            &&& is_reclaimable(report) && migratable(caps) ==> migrated(disk, caps).1 == (
            Reply::MigrateDone { result: Ok(elected(disk.superblock, 4)->0.row_count) }) && migrated(
                disk,
                caps,
            ).2 == disk
        }),
{
    let zone = disk.superblock;
    the_verdict_is_what_an_open_answers(caps, disk);
    the_live_copy_is_the_newest(zone);
    election_agrees(zone, 4);
    if is_reclaimable(report) && migratable(caps) {
        let l = elected(zone, 4)->0;
        newest_is_current(zone, 4);
        migrating_a_current_database_changes_nothing(disk, l.generation, l.row_count, caps);
    }
}

} // verus!
