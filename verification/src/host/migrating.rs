//! What a migration on files promises: the legacy rows are all there
//! afterwards, and a crash anywhere in between loses none of them.

use crate::engine::durability::{newest_is_elected, replay_keeps_all, written_rows_read_back};
use crate::engine::laws::{contents, is_io, replay_wf};
use crate::engine::log::{bytes_of, empty_wf, extent, value_at, Db};
use crate::engine::model::{
    created, read_log, sb_chunk, sb_counts, sb_newest, sb_slot, sb_write, window,
};
use crate::engine::tables::sizeable;
use crate::engine::types::{FileId, Reply, WindowView};
use crate::host::crash::{
    all_remains, durable, lands, may_remain, still_synced, synced_len, unsynced,
};
use crate::host::disk::{
    after, clamped, completed, run, sb_image_len, slot_image_len, written, Disk, Machine,
};
use crate::host::laws::{
    copy_is_elected, copy_lands, opening_finds_the_database, padded, recoverable, reportable,
    run_on, zone_prefix, zone_with,
};
use crate::layout::{Manifest, SCHEMA_HASH};
use crate::migration::{
    copy_at, legacy_contents, legacy_row, migratable, migrated_log, migrated_rows_open,
    migrated_slot, newest_of, widened, MState, Progress, V1_SCHEMA_HASH,
};
use crate::slot::slot_image;
use vstd::prelude::*;

verus! {

/// The files hold a legacy superblock and the `n` rows that it names, each
/// readable.
pub open spec fn legible(disk: Disk, generation: u64, n: u64) -> bool {
    &&& newest_of(disk.superblock, SCHEMA_HASH, 4) is None
    &&& newest_of(disk.superblock, V1_SCHEMA_HASH, 4) == Some((generation, n))
    &&& generation < u64::MAX
    &&& 24 * n <= disk.rows_old.len() <= u64::MAX
    &&& forall|i: int| 0 <= i < n ==> (#[trigger] legacy_row(disk.rows_old, i)) is Some
}

/// The files hold a legacy database: every row has an id of its own. Where the
/// superblock file is short, writing the next generation fills the gap with
/// zeros; what it held must not become a copy of this schema by that which is
/// newer than the legacy one.
pub open spec fn legacy(disk: Disk, generation: u64, n: u64) -> bool {
    &&& legible(disk, generation, n)
    &&& match newest_of(padded(disk.superblock), SCHEMA_HASH, 4) {
        Some((newest, _)) => newest <= generation,
        None => true,
    }
    &&& forall|i: int, j: int|
        0 <= i < j < n ==> (#[trigger] legacy_row(disk.rows_old, i)->0).0 != (#[trigger] legacy_row(
            disk.rows_old,
            j,
        )->0).0
}

/// Zeros behind the superblock file make no copy of it that would count for
/// more than those it has.
pub open spec fn padding_adds_nothing(zone: Seq<u8>, generation: u64, n: u64) -> bool {
    &&& newest_of(padded(zone), SCHEMA_HASH, 4) is None
    &&& newest_of(padded(zone), V1_SCHEMA_HASH, 4) == Some((generation, n))
}

/// A migration as it is made.
pub open spec fn unstarted(caps: u64) -> Progress {
    Progress { state: MState::New, caps, rows_old_len: 0, old: Seq::empty() }
}

/// The files hold the legacy rows as current ones, each in a row of its own and
/// in the same order.
pub open spec fn carried_over(disk: Disk, generation: u64, n: u64, old: Seq<u8>) -> bool {
    exists|db: Db|
        {
            &&& #[trigger] recoverable(disk, (generation + 1) as u64, n, db)
            &&& db.kept == migrated_log(old, n as int)
            &&& contents(db) == legacy_contents(old, n as int)
        }
}

pub(crate) proof fn newest_in_front(zone: Seq<u8>, schema: u64, n: int)
    requires
        n <= 4,
    ensures
        newest_of(clamped(zone, 0, 256), schema, n) == newest_of(zone, schema, n),
    decreases n,
{
    if n > 0 {
        zone_prefix(zone, 4);
        newest_in_front(zone, schema, n - 1);
        assert(sb_chunk(clamped(zone, 0, 256), n - 1) == sb_chunk(zone, n - 1));
    }
}

proof fn none_is_current(zone: Seq<u8>, n: int)
    requires
        newest_of(zone, SCHEMA_HASH, n) is None,
    ensures
        forall|j: int| 0 <= j < n ==> (#[trigger] sb_counts(zone, j)) is None,
    decreases n,
{
    if n > 0 {
        none_is_current(zone, n - 1);
        assert(copy_at(zone, n - 1) is Some ==> (copy_at(zone, n - 1)->0).1 != SCHEMA_HASH);
    }
}

proof fn newest_was_committed(zone: Seq<u8>, schema: u64, n: int)
    ensures
        newest_of(zone, schema, n) is Some ==> (newest_of(zone, schema, n)->0).0 > 0,
    decreases n,
{
    if n > 0 {
        newest_was_committed(zone, schema, n - 1);
    }
}

/// The first `k` rows have been carried over.
pub open spec fn holds(rows: Seq<u8>, old: Seq<u8>, k: int) -> bool {
    &&& rows.len() >= 32 * k
    &&& forall|r: int|
        0 <= r < k ==> #[trigger] rows.subrange(32 * r, 32 * r + 32) == slot_image(
            migrated_slot(old, r),
        )
}

proof fn holds_one_more(rows: Seq<u8>, old: Seq<u8>, k: int)
    requires
        k >= 0,
        holds(rows, old, k),
        legacy_row(old, k) is Some,
    ensures
        holds(written(rows, 32 * k, slot_image(migrated_slot(old, k))), old, k + 1),
{
    let image = slot_image(migrated_slot(old, k));
    slot_image_len(migrated_slot(old, k));
    let next = written(rows, 32 * k, image);
    assert forall|r: int| 0 <= r < k + 1 implies #[trigger] next.subrange(32 * r, 32 * r + 32)
        == slot_image(migrated_slot(old, r)) by {
        if r < k {
            assert(next.subrange(32 * r, 32 * r + 32) =~= rows.subrange(32 * r, 32 * r + 32));
        } else {
            assert(next.subrange(32 * r, 32 * r + 32) =~= image);
        }
    }
}

/// The manifest that the migration installs.
pub open spec fn target(generation: u64, n: u64, caps: u64) -> Manifest {
    Manifest { generation: (generation + 1) as u64, row_count: n, capacity: caps }
}

/// The zone after the first `copies` copies of it.
pub open spec fn turned(zone: Seq<u8>, m: Manifest, copies: int) -> Seq<u8>
    decreases copies,
{
    if copies <= 0 {
        zone
    } else {
        zone_with(turned(zone, m, copies - 1), sb_slot(m.generation, copies - 1), m)
    }
}

/// A migration with `rows` rows carried over and `copies` copies written.
pub open spec fn partly_over(
    before: Disk,
    generation: u64,
    n: u64,
    caps: u64,
    disk: Disk,
    rows: int,
    copies: int,
) -> bool {
    &&& disk.superblock == turned(before.superblock, target(generation, n, caps), copies)
    &&& disk.rows_old == before.rows_old
    &&& holds(disk.rows, before.rows_old.take(24 * n), rows)
    &&& reportable(before) ==> reportable(disk)
}

/// How far a migration that writes has come.
pub open spec fn moving(
    before: Disk,
    generation: u64,
    n: u64,
    caps: u64,
    at: (Machine, Reply, Disk),
) -> bool {
    match at.0 {
        Machine::Migration(q) => {
            let old = before.rows_old.take(24 * n);
            let m = target(generation, n, caps);
            &&& q.caps == caps
            &&& match q.state {
                MState::WriteNewRows { generation: g, row_count, next } => {
                    &&& g == generation && row_count == n && next < n
                    &&& q.old == old
                    &&& at.1 == (Reply::Write {
                        file: FileId::Rows,
                        offset: (32 * next) as u64,
                        data: slot_image(migrated_slot(old, next as int)),
                    })
                    &&& partly_over(before, generation, n, caps, at.2, next as int, 0)
                },
                MState::FsyncNewRows { generation: g, row_count } => {
                    &&& g == generation && row_count == n
                    &&& at.1 == (Reply::Fsync { file: FileId::Rows })
                    &&& partly_over(before, generation, n, caps, at.2, n as int, 0)
                },
                MState::WriteSb { generation: g, row_count, copy } => {
                    &&& g == generation && row_count == n && copy < 2
                    &&& at.1 == sb_write(m.generation, n, caps, copy as int)
                    &&& partly_over(before, generation, n, caps, at.2, n as int, copy as int)
                },
                MState::FsyncSb { row_count } => {
                    &&& row_count == n
                    &&& at.1 == (Reply::Fsync { file: FileId::Superblock })
                    &&& partly_over(before, generation, n, caps, at.2, n as int, 2)
                },
                _ => false,
            }
        },
        Machine::Engine(_) => false,
    }
}

/// The end of a migration that carried everything over.
pub open spec fn moved(
    before: Disk,
    generation: u64,
    n: u64,
    end: (Machine, Reply, Disk),
) -> bool {
    &&& end.1 == (Reply::MigrateDone { result: Ok(n) })
    &&& end.2.rows_old == before.rows_old
    &&& reportable(before) ==> reportable(end.2)
    &&& carried_over(end.2, generation, n, before.rows_old)
}

/// Legacy rows in the front of a file are the file's.
pub(crate) proof fn front_legacy(old: Seq<u8>, n: int)
    requires
        0 <= n,
        24 * n <= old.len(),
    ensures
        forall|i: int| 0 <= i < n ==> #[trigger] legacy_row(old.take(24 * n), i) == legacy_row(
            old,
            i,
        ),
        migrated_log(old.take(24 * n), n) == migrated_log(old, n),
        legacy_contents(old.take(24 * n), n) == legacy_contents(old, n),
{
    let front = old.take(24 * n);
    assert forall|i: int| 0 <= i < n implies #[trigger] legacy_row(front, i) == legacy_row(
        old,
        i,
    ) by {
        assert(front.subrange(24 * i, 24 * i + 24) =~= old.subrange(24 * i, 24 * i + 24));
    }
    assert(migrated_log(front, n) =~= migrated_log(old, n)) by {
        assert forall|i: int| 0 <= i < n implies migrated_log(front, n)[i] == migrated_log(
            old,
            n,
        )[i] by {
            assert(legacy_row(front, i) == legacy_row(old, i));
        }
    }
    same_contents(front, old, n, n);
}

proof fn same_contents(a: Seq<u8>, b: Seq<u8>, k: int, n: int)
    requires
        k <= n,
        forall|i: int| 0 <= i < n ==> #[trigger] legacy_row(a, i) == legacy_row(b, i),
    ensures
        legacy_contents(a, k) == legacy_contents(b, k),
    decreases k,
{
    if k > 0 {
        same_contents(a, b, k - 1, n);
        assert(legacy_row(a, k - 1) == legacy_row(b, k - 1));
    }
}

/// A copy of the newest generation is there.
proof fn newest_is_there(zone: Seq<u8>, schema: u64, n: int)
    requires
        newest_of(zone, schema, n) is Some,
    ensures
        exists|j: int|
            {
                &&& 0 <= j < n
                &&& (#[trigger] copy_at(zone, j)) is Some
                &&& (copy_at(zone, j)->0).1 == schema
                &&& (copy_at(zone, j)->0).0.generation == (newest_of(zone, schema, n)->0).0
                &&& (copy_at(zone, j)->0).0.row_count == (newest_of(zone, schema, n)->0).1
            },
    decreases n,
{
    if n > 0 {
        if newest_of(zone, schema, n) == newest_of(zone, schema, n - 1) {
            newest_is_there(zone, schema, n - 1);
        } else {
            assert(copy_at(zone, n - 1) is Some);
        }
    }
}

/// Writing the next generation's first copy fills the gap in front of it, if
/// there is one, and does nothing else that padding would not do.
proof fn padding_changes_nothing(zone: Seq<u8>, generation: u64, n: u64, m: Manifest)
    requires
        newest_of(zone, V1_SCHEMA_HASH, 4) == Some((generation, n)),
        generation < u64::MAX,
        m.generation == generation + 1,
    ensures
        zone.len() >= 64,
        zone.len() >= 128 ==> padded(zone) == zone,
        zone.len() < 128 ==> sb_slot(m.generation, 0) == 2,
        64 * sb_slot(m.generation, 0) <= padded(zone).len(),
        zone_with(zone, sb_slot(m.generation, 0), m) == zone_with(
            padded(zone),
            sb_slot(m.generation, 0),
            m,
        ),
{
    newest_is_there(zone, V1_SCHEMA_HASH, 4);
    let j = choose|j: int|
        {
            &&& 0 <= j < 4
            &&& (#[trigger] copy_at(zone, j)) is Some
            &&& (copy_at(zone, j)->0).1 == V1_SCHEMA_HASH
            &&& (copy_at(zone, j)->0).0.generation == generation
            &&& (copy_at(zone, j)->0).0.row_count == n
        };
    assert(zone.len() >= 64 * (j + 1));
    if zone.len() >= 128 {
        assert(padded(zone) =~= zone);
    }
    sb_image_len();
    assert(zone_with(zone, sb_slot(m.generation, 0), m) =~= zone_with(
        padded(zone),
        sb_slot(m.generation, 0),
        m,
    ));
}

/// With at least one copy of the new superblock, the files hold the migrated
/// database.
proof fn over_is_recoverable(
    before: Disk,
    generation: u64,
    n: u64,
    caps: u64,
    disk: Disk,
    copies: int,
)
    requires
        legacy(before, generation, n),
        1 <= copies <= 2,
        partly_over(before, generation, n, caps, disk, n as int, copies),
    ensures
        carried_over(disk, generation, n, before.rows_old),
        copies == 1 ==> 64 * sb_slot((generation + 1) as u64, 1) <= disk.superblock.len(),
{
    let zone = before.superblock;
    let m = target(generation, n, caps);
    let old = before.rows_old.take(24 * n);
    let k = n as int;
    let full = padded(zone);
    padding_changes_nothing(zone, generation, n, m);
    assert forall|j: int| 0 <= j < 4 && (#[trigger] sb_counts(full, j)) is Some implies (sb_counts(
        full,
        j,
    )->0).generation < m.generation by {
        newest_is_newest(full, SCHEMA_HASH, 4, j);
    }
    copy_is_elected(full, 0, m);
    copy_lands(full, sb_slot(m.generation, 0), m);
    let one = turned(zone, m, 1);
    assert(turned(zone, m, 0) == zone);
    assert(one == zone_with(full, sb_slot(m.generation, 0), m));
    if copies == 2 {
        copy_is_elected(one, 1, m);
        assert(turned(zone, m, 2) == zone_with(one, sb_slot(m.generation, 1), m));
    }
    front_legacy(before.rows_old, k);
    assert forall|i: int, j: int| 0 <= i < j < k implies (#[trigger] legacy_row(old, i)->0).0 != (
    #[trigger] legacy_row(old, j)->0).0 by {
        assert((legacy_row(before.rows_old, i)->0).0 != (legacy_row(before.rows_old, j)->0).0);
    }
    let log = migrated_log(old, k);
    assert forall|r: int| 0 <= r < k implies (#[trigger] log[r]) is Some && (log[r]->0).valid()
        && disk.rows.subrange(32 * r, 32 * r + 32) == slot_image(log[r]->0) by {
        assert(legacy_row(old, r) is Some);
    }
    written_rows_read_back(disk.rows, k, log);
    let db = migrated_rows_open(old, k);
    assert(recoverable(disk, m.generation, n, db));
}

/// One more request of a migration is performed.
#[verifier::spinoff_prover]
#[verifier::rlimit(40)]
proof fn moving_steps_on(
    before: Disk,
    generation: u64,
    n: u64,
    caps: u64,
    at: (Machine, Reply, Disk),
)
    requires
        legible(before, generation, n),
        migratable(caps),
        n <= caps,
        moving(before, generation, n, caps, at),
    ensures
        is_io(at.1),
        0 <= completed(at.0, at.1, at.2).0.work() < at.0.work(),
        ({
            let next = completed(at.0, at.1, at.2);
            if (at.0->Migration_0).state is FsyncSb {
                &&& next.1 == (Reply::MigrateDone { result: Ok(n) })
                &&& next.2 == at.2
            } else {
                moving(before, generation, n, caps, next)
            }
        }),
{
    let q = at.0->Migration_0;
    let old = before.rows_old.take(24 * n);
    front_legacy(before.rows_old, n as int);
    match q.state {
        MState::WriteNewRows { next, .. } => {
            assert(legacy_row(old, next as int) is Some);
            holds_one_more(at.2.rows, old, next as int);
            slot_image_len(migrated_slot(old, next as int));
            assert(32 * (next + 1) <= 32 * caps);
        },
        MState::WriteSb { .. } => {
            sb_image_len();
        },
        _ => {},
    }
}

proof fn moving_goes_on(
    before: Disk,
    generation: u64,
    n: u64,
    caps: u64,
    at: (Machine, Reply, Disk),
)
    requires
        legacy(before, generation, n),
        migratable(caps),
        n <= caps,
        moving(before, generation, n, caps, at),
    ensures
        is_io(at.1),
        0 <= completed(at.0, at.1, at.2).0.work() < at.0.work(),
        moving(before, generation, n, caps, completed(at.0, at.1, at.2)) || moved(
            before,
            generation,
            n,
            completed(at.0, at.1, at.2),
        ),
{
    moving_steps_on(before, generation, n, caps, at);
    if (at.0->Migration_0).state is FsyncSb {
        over_is_recoverable(before, generation, n, caps, at.2, 2);
    }
}

proof fn moving_ends(
    before: Disk,
    generation: u64,
    n: u64,
    caps: u64,
    at: (Machine, Reply, Disk),
)
    requires
        legacy(before, generation, n),
        migratable(caps),
        n <= caps,
        moving(before, generation, n, caps, at),
    ensures
        moved(before, generation, n, run(at.0, at.1, at.2)),
    decreases at.0.work(),
{
    moving_goes_on(before, generation, n, caps, at);
    run_on(at.0, at.1, at.2);
    let next = completed(at.0, at.1, at.2);
    if moving(before, generation, n, caps, next) {
        moving_ends(before, generation, n, caps, next);
    }
}

/// Reading a legacy database and starting to write.
#[verifier::spinoff_prover]
proof fn migration_starts(before: Disk, generation: u64, n: u64, caps: u64)
    requires
        legible(before, generation, n),
        reportable(before),
        migratable(caps),
        n <= caps,
    ensures
        ({
            let (p, first) = unstarted(caps).start(
                before.superblock.len() as u64,
                before.rows_old.len() as u64,
            );
            let one = completed(Machine::Migration(p), first, before);
            let two = completed(one.0, one.1, one.2);
            &&& is_io(first)
            &&& 0 <= one.0.work() < Machine::Migration(p).work()
            &&& one.2 == before
            &&& if n == 0 {
                moving(before, generation, n, caps, one)
            } else {
                &&& is_io(one.1)
                &&& 0 <= two.0.work() < one.0.work()
                &&& moving(before, generation, n, caps, two)
            }
        }),
{
    let zone = before.superblock;
    newest_in_front(zone, SCHEMA_HASH, 4);
    newest_in_front(zone, V1_SCHEMA_HASH, 4);
    newest_was_committed(zone, V1_SCHEMA_HASH, 4);
    if zone.len() == 0 {
        assert(forall|j: int| 0 <= j < 4 ==> (#[trigger] copy_at(zone, j)) is None);
        reveal_with_fuel(newest_of, 5);
    }
    let (p, first) = unstarted(caps).start(zone.len() as u64, before.rows_old.len() as u64);
    let one = completed(Machine::Migration(p), first, before);
    let old = before.rows_old.take(24 * n);
    assert(turned(zone, target(generation, n, caps), 0) == zone);
    if n > 0 {
        front_legacy(before.rows_old, n as int);
        let data = clamped(before.rows_old, 0, 24 * n);
        assert(data =~= old);
        assert(data.take(24 * n) =~= old);
        assert forall|i: int| 0 <= i < n implies (#[trigger] legacy_row(old, i)) is Some by {
            assert(legacy_row(before.rows_old, i) is Some);
        }
    }
}

/// A migration of a legacy database ends with every row carried over: the
/// files hold a current database with exactly the legacy contents, widened.
pub proof fn migration_carries_everything_over(before: Disk, generation: u64, n: u64, caps: u64)
    requires
        legacy(before, generation, n),
        reportable(before),
        migratable(caps),
        n <= caps,
    ensures
        ({
            let (p, first) = unstarted(caps).start(
                before.superblock.len() as u64,
                before.rows_old.len() as u64,
            );
            moved(before, generation, n, run(Machine::Migration(p), first, before))
        }),
{
    migration_starts(before, generation, n, caps);
    let (p, first) = unstarted(caps).start(
        before.superblock.len() as u64,
        before.rows_old.len() as u64,
    );
    let one = completed(Machine::Migration(p), first, before);
    run_on(Machine::Migration(p), first, before);
    if n == 0 {
        moving_ends(before, generation, n, caps, one);
    } else {
        run_on(one.0, one.1, one.2);
        moving_ends(before, generation, n, caps, completed(one.0, one.1, one.2));
    }
}

/// The first superblock that this binary's engine elects is the one that the
/// migration takes for current.
pub(crate) proof fn newest_is_current(zone: Seq<u8>, n: int)
    ensures
        newest_of(zone, SCHEMA_HASH, n) == (match sb_newest(zone, n) {
            Some(m) => Some((m.generation, m.row_count)),
            None => None,
        }),
    decreases n,
{
    if n > 0 {
        newest_is_current(zone, n - 1);
    }
}

/// Migrating files that are current already says how many rows there are and
/// changes no byte of them.
pub proof fn migrating_a_current_database_changes_nothing(
    disk: Disk,
    generation: u64,
    n: u64,
    caps: u64,
)
    requires
        newest_of(disk.superblock, SCHEMA_HASH, 4) == Some((generation, n)),
        disk.superblock.len() <= u64::MAX,
        migratable(caps),
    ensures
        ({
            let (p, first) = unstarted(caps).start(
                disk.superblock.len() as u64,
                disk.rows_old.len() as u64,
            );
            let end = run(Machine::Migration(p), first, disk);
            end.1 == (Reply::MigrateDone { result: Ok(n) }) && end.2 == disk
        }),
{
    let zone = disk.superblock;
    newest_in_front(zone, SCHEMA_HASH, 4);
    if zone.len() == 0 {
        assert(forall|j: int| 0 <= j < 4 ==> (#[trigger] copy_at(zone, j)) is None);
        reveal_with_fuel(newest_of, 5);
    }
    let (p, first) = unstarted(caps).start(zone.len() as u64, disk.rows_old.len() as u64);
    let start = (Machine::Migration(p), first, disk);
    let one = completed(start.0, start.1, start.2);
    let two = completed(one.0, one.1, one.2);
    run_on(start.0, start.1, start.2);
    run_on(one.0, one.1, one.2);
    run_on(two.0, two.1, two.2);
}

/// Running a migration a second time changes nothing: it ends as the first did,
/// with every byte of every file as the first left it.
pub proof fn migrating_again_changes_nothing(before: Disk, generation: u64, n: u64, caps: u64)
    requires
        legacy(before, generation, n),
        reportable(before),
        migratable(caps),
        n <= caps,
    ensures
        ({
            let (p, first) = unstarted(caps).start(
                before.superblock.len() as u64,
                before.rows_old.len() as u64,
            );
            let once = run(Machine::Migration(p), first, before);
            let (q, again) = unstarted(caps).start(
                once.2.superblock.len() as u64,
                once.2.rows_old.len() as u64,
            );
            let twice = run(Machine::Migration(q), again, once.2);
            twice.1 == once.1 && twice.2 == once.2
        }),
{
    migration_carries_everything_over(before, generation, n, caps);
    let (p, first) = unstarted(caps).start(
        before.superblock.len() as u64,
        before.rows_old.len() as u64,
    );
    let once = run(Machine::Migration(p), first, before);
    newest_is_current(once.2.superblock, 4);
    migrating_a_current_database_changes_nothing(once.2, (generation + 1) as u64, n, caps);
}

/// A value of one full row, as a read of it from its start returns it.
pub open spec fn one_row(value: Seq<u8>) -> WindowView {
    WindowView { total: 16, offset: 0, len: 16, bytes: value }
}

/// What the rows of a migrated log hold.
proof fn migrated_row_reads(old: Seq<u8>, n: int, i: int)
    requires
        0 <= i < n,
        legacy_row(old, i) is Some,
    ensures
        window(migrated_log(old, n), i, 0) == one_row(widened((legacy_row(old, i)->0).1)),
{
    let log = migrated_log(old, n);
    assert(log[i] == Some(migrated_slot(old, i)));
    assert(extent(log, i) == 1);
    reveal_with_fuel(bytes_of, 2);
    assert(value_at(log, i).len() == 16);
}

/// An open of the migrated files finds every legacy row, and no other: reading
/// a legacy id returns its value, widened, and reading any other id finds
/// nothing.
pub proof fn a_migrated_database_serves_the_legacy_rows(
    before: Disk,
    generation: u64,
    n: u64,
    caps: u64,
)
    requires
        legacy(before, generation, n),
        reportable(before),
        sizeable(caps),
        n <= caps,
    ensures
        ({
            let (p, first) = unstarted(caps).start(
                before.superblock.len() as u64,
                before.rows_old.len() as u64,
            );
            let files = run(Machine::Migration(p), first, before).2;
            let (s, asks) = created(caps).open(
                files.superblock.len() as u64,
                files.rows.len() as u64,
            );
            let end = run(Machine::Engine(s), asks, files);
            let t = end.0->Engine_0;
            &&& end.0 is Engine
            &&& end.1 == (Reply::OpenDone { result: Ok(n) })
            &&& forall|i: int|
                0 <= i < n ==> {
                    let (id, value) = (#[trigger] legacy_row(before.rows_old, i))->0;
                    t.get(id, 0) == (Reply::GetDone {
                        id,
                        result: Ok(Some(one_row(widened(value)))),
                    })
                }
            &&& forall|id: u64|
                (forall|i: int|
                    0 <= i < n ==> ((#[trigger] legacy_row(before.rows_old, i))->0).0 != id)
                    ==> #[trigger] t.get(id, 0) == (Reply::GetDone { id, result: Ok(None) })
        }),
{
    migration_carries_everything_over(before, generation, n, caps);
    let (p, first) = unstarted(caps).start(
        before.superblock.len() as u64,
        before.rows_old.len() as u64,
    );
    let files = run(Machine::Migration(p), first, before).2;
    let old = before.rows_old;
    let db = choose|db: Db|
        {
            &&& #[trigger] recoverable(files, (generation + 1) as u64, n, db)
            &&& db.kept == migrated_log(old, n as int)
            &&& contents(db) == legacy_contents(old, n as int)
        };
    opening_finds_the_database(caps, files, (generation + 1) as u64, n, db);
    assert(db.wf()) by {
        replay_keeps_all(read_log(files.rows, n as int), db);
        empty_wf();
        assert forall|r: int| 0 <= r < n implies (#[trigger] db.kept[r]) is Some && (
        db.kept[r]->0).valid() by {
            assert(legacy_row(old, r) is Some);
        }
        replay_wf(db.kept, Db::empty(), false);
    }
    assert forall|i: int| 0 <= i < n implies {
        let (id, value) = (#[trigger] legacy_row(old, i))->0;
        &&& db.live.contains_key(id)
        &&& window(db.kept, db.live[id] as int, 0) == one_row(widened(value))
    } by {
        let (id, value) = legacy_row(old, i)->0;
        legacy_row_is_listed(old, n as int, i);
        assert(contents(db).contains_key(id));
        assert(db.bound.contains_key(id) && db.heads(db.live[id] as int, id));
        let h = db.live[id] as int;
        assert(db.kept[h] == Some(migrated_slot(old, h)));
        if h < i {
            assert((legacy_row(old, h)->0).0 != (legacy_row(old, i)->0).0);
        }
        if i < h {
            assert((legacy_row(old, i)->0).0 != (legacy_row(old, h)->0).0);
        }
        migrated_row_reads(old, n as int, i);
    }
    assert forall|id: u64|
        (forall|i: int| 0 <= i < n ==> ((#[trigger] legacy_row(old, i))->0).0 != id) implies !(
    #[trigger] db.live.contains_key(id)) by {
        if db.live.contains_key(id) {
            assert(db.bound.contains_key(id) && db.heads(db.live[id] as int, id));
            let h = db.live[id] as int;
            assert(db.kept[h] == Some(migrated_slot(old, h)));
            assert((legacy_row(old, h)->0).0 == id);
        }
    }
}

proof fn legacy_row_is_listed(old: Seq<u8>, n: int, i: int)
    requires
        0 <= i < n,
    ensures
        legacy_contents(old, n).contains_key((legacy_row(old, i)->0).0),
    decreases n,
{
    if i < n - 1 {
        legacy_row_is_listed(old, n - 1, i);
    }
}

proof fn migration_so_far(before: Disk, generation: u64, n: u64, caps: u64, k: nat)
    requires
        legacy(before, generation, n),
        reportable(before),
        migratable(caps),
        n <= caps,
    ensures
        ({
            let (p, first) = unstarted(caps).start(
                before.superblock.len() as u64,
                before.rows_old.len() as u64,
            );
            let at = after(Machine::Migration(p), first, before, k);
            let reading: nat = if n == 0 {
                1
            } else {
                2
            };
            if k < reading {
                at.2 == before
            } else {
                moving(before, generation, n, caps, at) || moved(before, generation, n, at)
            }
        }),
    decreases k,
{
    migration_starts(before, generation, n, caps);
    let (p, first) = unstarted(caps).start(
        before.superblock.len() as u64,
        before.rows_old.len() as u64,
    );
    let m = Machine::Migration(p);
    if k > 0 {
        migration_so_far(before, generation, n, caps, (k - 1) as nat);
        assert(after(m, first, before, 0) == (m, first, before));
        assert(after(m, first, before, 1) == completed(m, first, before));
        let at = after(m, first, before, (k - 1) as nat);
        if moving(before, generation, n, caps, at) {
            moving_goes_on(before, generation, n, caps, at);
        }
    }
}

/// Wherever a migration is cut off, nothing is lost: the legacy rows file is
/// as it was; and the superblock is as it was too, so that the migration can
/// start over, or the files hold the migrated database, whole.
pub proof fn a_cut_off_migration_loses_nothing(
    before: Disk,
    generation: u64,
    n: u64,
    caps: u64,
    k: nat,
)
    requires
        legacy(before, generation, n),
        reportable(before),
        migratable(caps),
        n <= caps,
    ensures
        ({
            let (p, first) = unstarted(caps).start(
                before.superblock.len() as u64,
                before.rows_old.len() as u64,
            );
            let left = after(Machine::Migration(p), first, before, k).2;
            &&& left.rows_old == before.rows_old
            &&& left.superblock == before.superblock || carried_over(
                left,
                generation,
                n,
                before.rows_old,
            )
        }),
{
    migration_so_far(before, generation, n, caps, k);
    let (p, first) = unstarted(caps).start(
        before.superblock.len() as u64,
        before.rows_old.len() as u64,
    );
    let at = after(Machine::Migration(p), first, before, k);
    if moving(before, generation, n, caps, at) {
        match (at.0->Migration_0).state {
            MState::WriteSb { copy, .. } => {
                if copy > 0 {
                    over_is_recoverable(before, generation, n, caps, at.2, 1);
                }
            },
            MState::FsyncSb { .. } => {
                over_is_recoverable(before, generation, n, caps, at.2, 2);
            },
            _ => {},
        }
    }
}

// ---- Crashes ----

/// Every copy in what a crash left is one that was there before, or the one
/// that was being written: what was torn fails its checksum.
pub open spec fn copies_genuine(zone: Seq<u8>, left: Seq<u8>, m: Manifest) -> bool {
    forall|j: int|
        0 <= j < 4 && (#[trigger] copy_at(left, j)) is Some ==> copy_at(left, j) == copy_at(
            padded(zone),
            j,
        ) || copy_at(left, j) == Some((m, SCHEMA_HASH))
}

/// A migration, from its first request on.
pub open spec fn migration_start(before: Disk, caps: u64) -> (Machine, Reply, Disk) {
    let (p, first) = unstarted(caps).start(
        before.superblock.len() as u64,
        before.rows_old.len() as u64,
    );
    (Machine::Migration(p), first, before)
}

/// How much of a migration has been synced when it has come this far.
spec fn migration_synced(
    before: Disk,
    generation: u64,
    start: (Machine, Reply, Disk),
    k: nat,
) -> bool {
    let at = after(start.0, start.1, start.2, k);
    let w = sb_slot((generation + 1) as u64, 0);
    let copies = match (at.0->Migration_0).state {
        MState::WriteSb { copy, .. } => copy as int,
        _ => 2,
    };
    match (at.0->Migration_0).state {
        MState::WriteSb { .. } | MState::FsyncSb { .. } => {
            &&& forall|file: FileId, i: int| #[trigger]
                unsynced(start, k, true, file, i) ==> file == FileId::Superblock && 64 * w <= i < 64
                    * (w + copies)
            &&& synced_len(start, k, FileId::Superblock) == before.superblock.len()
            &&& synced_len(start, k, FileId::Rows) == at.2.rows.len()
            &&& synced_len(start, k, FileId::RowsOld) == before.rows_old.len()
        },
        MState::Done => durable(start, k),
        _ => {
            &&& forall|file: FileId, i: int| #[trigger]
                unsynced(start, k, true, file, i) ==> file == FileId::Rows
            &&& synced_len(start, k, FileId::Superblock) == before.superblock.len()
            &&& synced_len(start, k, FileId::RowsOld) == before.rows_old.len()
        },
    }
}

/// What a migration's requests write, and where it goes next.
#[verifier::spinoff_prover]
proof fn moving_lands(
    before: Disk,
    generation: u64,
    n: u64,
    caps: u64,
    at: (Machine, Reply, Disk),
)
    requires
        generation < u64::MAX,
        moving(before, generation, n, caps, at),
    ensures
        ({
            let w = sb_slot((generation + 1) as u64, 0);
            let next = (completed(at.0, at.1, at.2).0->Migration_0).state;
            match (at.0->Migration_0).state {
                MState::WriteNewRows { next: r, .. } => {
                    &&& at.1 is Write
                    &&& if r + 1 < n {
                        next is WriteNewRows && next->next == r + 1
                    } else {
                        next is FsyncNewRows
                    }
                    &&& forall|file: FileId, i: int| #[trigger]
                        lands(at.1, file, i) ==> file == FileId::Rows
                },
                MState::FsyncNewRows { .. } => {
                    &&& at.1 == (Reply::Fsync { file: FileId::Rows })
                    &&& next is WriteSb && next->WriteSb_copy == 0
                },
                MState::WriteSb { copy, .. } => {
                    &&& at.1 is Write
                    &&& if copy == 0 {
                        next is WriteSb && next->WriteSb_copy == 1
                    } else {
                        next is FsyncSb
                    }
                    &&& forall|file: FileId, i: int| #[trigger]
                        lands(at.1, file, i) ==> file == FileId::Superblock && 64 * (w + copy) <= i
                            < 64 * (w + copy + 1)
                    &&& completed(at.0, at.1, at.2).2.rows == at.2.rows
                },
                _ => {
                    &&& at.1 == (Reply::Fsync { file: FileId::Superblock })
                    &&& next is Done
                },
            }
        }),
{
    sb_image_len();
}

/// A migration begins by reading.
#[verifier::spinoff_prover]
proof fn migration_reads(before: Disk, generation: u64, n: u64, caps: u64)
    requires
        legible(before, generation, n),
        reportable(before),
        migratable(caps),
        n <= caps,
    ensures
        ({
            let start = migration_start(before, caps);
            let one = completed(start.0, start.1, start.2);
            &&& start.1 is Read
            &&& start.0 is Migration && (start.0->Migration_0).state is ReadSb
            &&& one.0 is Migration
            &&& n > 0 ==> one.1 is Read && (one.0->Migration_0).state is ReadOldRows
        }),
{
    let zone = before.superblock;
    newest_in_front(zone, SCHEMA_HASH, 4);
    newest_in_front(zone, V1_SCHEMA_HASH, 4);
    if zone.len() == 0 {
        assert(forall|j: int| 0 <= j < 4 ==> (#[trigger] copy_at(zone, j)) is None);
        reveal_with_fuel(newest_of, 5);
    }
}

/// One more request.
#[verifier::spinoff_prover]
#[verifier::rlimit(40)]
proof fn moving_syncs_on(
    before: Disk,
    generation: u64,
    n: u64,
    caps: u64,
    start: (Machine, Reply, Disk),
    k: nat,
)
    requires
        legacy(before, generation, n),
        moving(before, generation, n, caps, after(start.0, start.1, start.2, k)),
        migration_synced(before, generation, start, k),
    ensures
        migration_synced(before, generation, start, k + 1),
{
    let at = after(start.0, start.1, start.2, k);
    moving_lands(before, generation, n, caps, at);
    let next = after(start.0, start.1, start.2, k + 1);
    assert(next == completed(at.0, at.1, at.2));
    assert forall|file: FileId, i: int| #[trigger]
        unsynced(start, k + 1, true, file, i) implies unsynced(start, k, true, file, i) || lands(
        at.1,
        file,
        i,
    ) by {
    }
    if let MState::FsyncSb { .. } = (at.0->Migration_0).state {
        assert(next.2 == at.2);
    }
}

/// While a migration only reads.
proof fn reading_syncs_on(before: Disk, generation: u64, start: (Machine, Reply, Disk), k: nat)
    requires
        start.2 == before,
        forall|j: nat| j < k ==> (#[trigger] after(start.0, start.1, start.2, j)).1 is Read,
    ensures
        forall|file: FileId, i: int| !#[trigger] unsynced(start, k, true, file, i),
        forall|file: FileId| #[trigger] synced_len(start, k, file) == before.file(file).len(),
    decreases k,
{
    if k > 0 {
        let j = (k - 1) as nat;
        reading_syncs_on(before, generation, start, j);
        assert(after(start.0, start.1, start.2, j).1 is Read);
        assert forall|file: FileId, i: int| !#[trigger] unsynced(start, k, true, file, i) by {
            assert(!unsynced(start, j, true, file, i));
        }
        assert forall|file: FileId| #[trigger] synced_len(start, k, file) == before.file(
            file,
        ).len() by {
            assert(synced_len(start, j, file) == before.file(file).len());
        }
    }
}

proof fn migration_synced_so_far(before: Disk, generation: u64, n: u64, caps: u64, k: nat)
    requires
        legacy(before, generation, n),
        reportable(before),
        migratable(caps),
        n <= caps,
    ensures
        ({
            let start = migration_start(before, caps);
            let at = after(start.0, start.1, start.2, k);
            &&& migration_synced(before, generation, start, k)
            &&& at.0 is Migration
            &&& !is_io(at.1) ==> (at.0->Migration_0).state is Done
        }),
    decreases k,
{
    let start = migration_start(before, caps);
    migration_reads(before, generation, n, caps);
    migration_so_far(before, generation, n, caps, k);
    let at = after(start.0, start.1, start.2, k);
    let reading: nat = if n == 0 {
        1
    } else {
        2
    };
    assert(after(start.0, start.1, start.2, 0) == start);
    assert(after(start.0, start.1, start.2, 1) == completed(start.0, start.1, start.2));
    if k <= reading {
        assert forall|j: nat| j < k implies (#[trigger] after(start.0, start.1, start.2, j)).1
            is Read by {
            assert(j == 0 || j == 1);
        }
        reading_syncs_on(before, generation, start, k);
        migration_starts(before, generation, n, caps);
        if k == reading {
            assert(moving(before, generation, n, caps, at)) by {
                if n > 0 {
                    let one = after(start.0, start.1, start.2, 1);
                    assert(at == completed(one.0, one.1, one.2));
                }
            }
            moving_lands(before, generation, n, caps, at);
            assert(at.2 == before);
        }
    } else {
        let j = (k - 1) as nat;
        migration_synced_so_far(before, generation, n, caps, j);
        migration_so_far(before, generation, n, caps, j);
        let last = after(start.0, start.1, start.2, j);
        if moving(before, generation, n, caps, last) {
            moving_syncs_on(before, generation, n, caps, start, j);
            moving_lands(before, generation, n, caps, last);
            if moving(before, generation, n, caps, at) {
                moving_lands(before, generation, n, caps, at);
            }
        } else {
            still_synced(start, j);
        }
    }
}

/// Is there no copy of this schema, or only older ones?
spec fn older(newest: Option<(u64, u64)>, generation: u64) -> bool {
    newest is None || (newest->0).0 < generation
}

/// No copy of a schema is newer than the newest.
proof fn newest_is_newest(zone: Seq<u8>, schema: u64, n: int, j: int)
    requires
        0 <= j < n,
        copy_at(zone, j) is Some,
        (copy_at(zone, j)->0).1 == schema,
    ensures
        newest_of(zone, schema, n) is Some,
        (copy_at(zone, j)->0).0.generation <= (newest_of(zone, schema, n)->0).0,
    decreases n,
{
    if j < n - 1 {
        newest_is_newest(zone, schema, n - 1, j);
    }
}

/// Losing copies that are not of the newest generation changes nothing.
proof fn losing_older_copies(zone: Seq<u8>, left: Seq<u8>, generation: u64, n: int)
    requires
        n <= 4,
        newest_of(zone, V1_SCHEMA_HASH, 4) is Some,
        (newest_of(zone, V1_SCHEMA_HASH, 4)->0).0 == generation,
        forall|j: int|
            0 <= j < 4 ==> #[trigger] copy_at(left, j) == copy_at(zone, j) || (copy_at(left, j)
                is None && ((copy_at(zone, j)->0).1 == V1_SCHEMA_HASH ==> (copy_at(
                zone,
                j,
            )->0).0.generation < generation)),
    ensures
        newest_of(left, V1_SCHEMA_HASH, n) == newest_of(zone, V1_SCHEMA_HASH, n) || (older(
            newest_of(left, V1_SCHEMA_HASH, n),
            generation,
        ) && older(newest_of(zone, V1_SCHEMA_HASH, n), generation)),
    decreases n,
{
    if n > 0 {
        let j = n - 1;
        losing_older_copies(zone, left, generation, j);
        assert(copy_at(left, j) == copy_at(zone, j) || copy_at(left, j) is None);
        if copy_at(zone, j) is Some && (copy_at(zone, j)->0).1 == V1_SCHEMA_HASH {
            newest_is_newest(zone, V1_SCHEMA_HASH, 4, j);
        }
    }
}

/// With no copy of this schema among them.
proof fn none_of_schema(left: Seq<u8>, n: int)
    requires
        n <= 4,
        forall|j: int|
            0 <= j < 4 && (#[trigger] copy_at(left, j)) is Some ==> (copy_at(left, j)->0).1
                != SCHEMA_HASH,
    ensures
        newest_of(left, SCHEMA_HASH, n) is None,
    decreases n,
{
    if n > 0 {
        none_of_schema(left, n - 1);
        assert(copy_at(left, n - 1) is Some ==> (copy_at(left, n - 1)->0).1 != SCHEMA_HASH);
    }
}

/// In front of the new copies, and behind them, a zone is as it was, padded.
proof fn short_of_the_copies(zone: Seq<u8>, m: Manifest, copies: int)
    requires
        1 <= copies <= 2,
        zone.len() >= 128 || sb_slot(m.generation, 0) == 2,
    ensures
        ({
            let w = sb_slot(m.generation, 0);
            let z = turned(zone, m, copies);
            &&& z.len() == if zone.len() < 64 * (w + copies) {
                64 * (w + copies)
            } else {
                zone.len() as int
            }
            &&& forall|i: int|
                0 <= i < z.len() && !(64 * w <= i < 64 * (w + copies)) ==> #[trigger] z[i]
                    == padded(zone)[i]
        }),
{
    sb_image_len();
    let one = turned(zone, m, 1);
    assert(turned(zone, m, 0) == zone);
    assert(one == zone_with(zone, sb_slot(m.generation, 0), m));
    if copies == 2 {
        assert(turned(zone, m, 2) == zone_with(one, sb_slot(m.generation, 1), m));
    }
}

/// Slots that the new copies are not written to are as they were.
proof fn other_copies(zone: Seq<u8>, m: Manifest, copies: int, left: Seq<u8>, j: int)
    requires
        1 <= copies <= 2,
        zone.len() >= 64,
        zone.len() >= 128 || sb_slot(m.generation, 0) == 2,
        zone.len() <= left.len() <= turned(zone, m, copies).len(),
        forall|i: int|
            0 <= i < left.len() && !(64 * sb_slot(m.generation, 0) <= i < 64 * (sb_slot(
                m.generation,
                0,
            ) + copies)) ==> #[trigger] left[i] == turned(zone, m, copies)[i],
        0 <= j < 4,
        j != sb_slot(m.generation, 0),
        j != sb_slot(m.generation, 1),
    ensures
        sb_chunk(left, j) == sb_chunk(
            if left.len() >= 128 {
                padded(zone)
            } else {
                zone
            },
            j,
        ),
{
    sb_image_len();
    let full = padded(zone);
    let w = sb_slot(m.generation, 0);
    short_of_the_copies(zone, m, copies);
    assert(full.len() == if zone.len() < 128 {
        128
    } else {
        zone.len() as int
    });
    if left.len() >= 64 * (j + 1) {
        if zone.len() >= 64 * (j + 1) {
            assert(left.subrange(64 * j, 64 * j + 64) =~= zone.subrange(64 * j, 64 * j + 64));
            assert(full.subrange(64 * j, 64 * j + 64) =~= zone.subrange(64 * j, 64 * j + 64));
        } else {
            assert(left.subrange(64 * j, 64 * j + 64) =~= full.subrange(64 * j, 64 * j + 64));
        }
    }
}

/// Zones with the same copies have the same newest one.
proof fn same_newest(a: Seq<u8>, b: Seq<u8>, schema: u64, n: int)
    requires
        forall|j: int| 0 <= j < n ==> #[trigger] copy_at(a, j) == copy_at(b, j),
    ensures
        newest_of(a, schema, n) == newest_of(b, schema, n),
    decreases n,
{
    if n > 0 {
        same_newest(a, b, schema, n - 1);
        assert(copy_at(a, n - 1) == copy_at(b, n - 1));
    }
}

/// Whatever became of the copies being written: a new one is found, or the
/// legacy database is.
#[verifier::spinoff_prover]
proof fn torn_turn(zone: Seq<u8>, generation: u64, n: u64, m: Manifest, left: Seq<u8>)
    requires
        newest_of(zone, SCHEMA_HASH, 4) is None,
        newest_of(zone, V1_SCHEMA_HASH, 4) == Some((generation, n)),
        generation < u64::MAX,
        m.generation == generation + 1,
        forall|j: int|
            0 <= j < 4 && j != sb_slot(m.generation, 0) && j != sb_slot(m.generation, 1)
                ==> #[trigger] sb_chunk(left, j) == sb_chunk(zone, j),
        forall|j: int|
            0 <= j < 4 && (#[trigger] copy_at(left, j)) is Some ==> copy_at(left, j) == copy_at(
                zone,
                j,
            ) || copy_at(left, j) == Some((m, SCHEMA_HASH)),
    ensures
        sb_newest(left, 4) == Some(m) || (newest_of(left, SCHEMA_HASH, 4) is None && newest_of(
            left,
            V1_SCHEMA_HASH,
            4,
        ) == Some((generation, n))),
{
    none_is_current(zone, 4);
    newest_was_committed(zone, V1_SCHEMA_HASH, 4);
    let fresh = Some((m, SCHEMA_HASH));
    if exists|j: int| 0 <= j < 4 && #[trigger] copy_at(left, j) == fresh {
        let j = choose|j: int| 0 <= j < 4 && #[trigger] copy_at(left, j) == fresh;
        assert(sb_counts(left, j) == Some(m));
        assert forall|x: int| 0 <= x < 4 && (#[trigger] sb_counts(left, x)) is Some implies
            sb_counts(left, x) == Some(m) by {
            assert(copy_at(left, x) is Some);
            assert(sb_counts(zone, x) is None);
        }
        newest_is_elected(left, 4);
        let e = sb_newest(left, 4)->0;
        let x = choose|x: int| 0 <= x < 4 && #[trigger] sb_counts(left, x) == Some(e);
        assert(sb_counts(left, x) == Some(e));
    } else {
        assert forall|j: int| 0 <= j < 4 implies #[trigger] copy_at(left, j) == copy_at(zone, j) || (
        copy_at(left, j) is None && ((copy_at(zone, j)->0).1 == V1_SCHEMA_HASH ==> (copy_at(
            zone,
            j,
        )->0).0.generation < generation)) by {
            if copy_at(left, j) != copy_at(zone, j) {
                assert(copy_at(left, j) is None);
                assert(copy_at(zone, j) is Some);
                assert(j == sb_slot(m.generation, 0) || j == sb_slot(m.generation, 1)) by {
                    if j != sb_slot(m.generation, 0) && j != sb_slot(m.generation, 1) {
                        assert(sb_chunk(left, j) == sb_chunk(zone, j));
                    }
                }
                if (copy_at(zone, j)->0).1 == V1_SCHEMA_HASH {
                    newest_is_newest(zone, V1_SCHEMA_HASH, 4, j);
                }
            }
        }
        losing_older_copies(zone, left, generation, 4);
        assert forall|j: int| 0 <= j < 4 && (#[trigger] copy_at(left, j)) is Some implies (copy_at(
            left,
            j,
        )->0).1 != SCHEMA_HASH by {
            assert(copy_at(left, j) == copy_at(zone, j));
            assert(sb_counts(zone, j) is None);
        }
        none_of_schema(left, 4);
    }
}

/// With the new rows synced, whatever became of the superblock copies.
#[verifier::spinoff_prover]
proof fn turn_remains(
    before: Disk,
    generation: u64,
    n: u64,
    caps: u64,
    now: Disk,
    copies: int,
    left: Disk,
)
    requires
        legacy(before, generation, n),
        1 <= copies <= 2,
        partly_over(before, generation, n, caps, now, n as int, copies),
        left.rows == now.rows,
        left.rows_old == before.rows_old,
        before.superblock.len() <= left.superblock.len() <= now.superblock.len(),
        forall|i: int|
            0 <= i < left.superblock.len() && !(64 * sb_slot((generation + 1) as u64, 0) <= i < 64
                * (sb_slot((generation + 1) as u64, 0) + copies)) ==> #[trigger] left.superblock[i]
                == now.superblock[i],
        padding_adds_nothing(before.superblock, generation, n),
        copies_genuine(before.superblock, left.superblock, target(generation, n, caps)),
    ensures
        legacy(left, generation, n) && padding_adds_nothing(left.superblock, generation, n)
            || carried_over(left, generation, n, before.rows_old),
{
    let m = target(generation, n, caps);
    let zone = before.superblock;
    let rest = left.superblock;
    over_is_recoverable(before, generation, n, caps, now, copies);
    padding_changes_nothing(zone, generation, n, m);
    assert forall|j: int|
        0 <= j < 4 && j != sb_slot(m.generation, 0) && j != sb_slot(m.generation, 1) implies
        #[trigger] sb_chunk(rest, j) == sb_chunk(
        if rest.len() >= 128 {
            padded(zone)
        } else {
            zone
        },
        j,
    ) by {
        other_copies(zone, m, copies, rest, j);
    }
    if rest.len() >= 128 {
        torn_turn(padded(zone), generation, n, m, rest);
        assert(padded(rest) =~= rest);
    } else {
        assert forall|j: int| 0 <= j < 4 implies #[trigger] copy_at(rest, j) == copy_at(zone, j) by {
            if j < 2 {
                assert(sb_chunk(rest, j) == sb_chunk(zone, j));
            }
        }
        same_newest(rest, zone, SCHEMA_HASH, 4);
        same_newest(rest, zone, V1_SCHEMA_HASH, 4);
        short_of_the_copies(zone, m, copies);
        assert forall|i: int| 0 <= i < rest.len() implies rest[i] == padded(zone)[i] by {
            assert(rest[i] == now.superblock[i]);
        }
        assert(padded(rest) =~= padded(zone));
    }
    if sb_newest(left.superblock, 4) == Some(m) {
        let db = choose|db: Db|
            {
                &&& #[trigger] recoverable(now, m.generation, n, db)
                &&& db.kept == migrated_log(before.rows_old, n as int)
                &&& contents(db) == legacy_contents(before.rows_old, n as int)
            };
        assert(recoverable(left, m.generation, n, db));
    }
}

/// Wherever a crash hits a migration, nothing is lost: every write that was not
/// synced may have survived, vanished, been torn, or turned to garbage, as long
/// as what was torn is no superblock; what is left is the legacy database, so
/// that the migration can start over, or the migrated one, whole.
#[verifier::spinoff_prover]
#[verifier::rlimit(40)]
pub proof fn a_crash_while_migrating_loses_nothing(
    before: Disk,
    generation: u64,
    n: u64,
    caps: u64,
    k: nat,
    left: Disk,
)
    requires
        legacy(before, generation, n),
        reportable(before),
        migratable(caps),
        n <= caps,
        may_remain(migration_start(before, caps), k, left),
        padding_adds_nothing(before.superblock, generation, n),
        copies_genuine(before.superblock, left.superblock, target(generation, n, caps)),
    ensures
        legacy(left, generation, n) && padding_adds_nothing(left.superblock, generation, n)
            || carried_over(left, generation, n, before.rows_old),
{
    let start = migration_start(before, caps);
    let at = after(start.0, start.1, start.2, k);
    let next = after(start.0, start.1, start.2, k + 1);
    let now = next.2;
    assert(next == completed(at.0, at.1, at.2));
    migration_so_far(before, generation, n, caps, k);
    migration_synced_so_far(before, generation, n, caps, k);
    migration_so_far(before, generation, n, caps, k + 1);
    if moving(before, generation, n, caps, at) {
        moving_lands(before, generation, n, caps, at);
        moving_goes_on(before, generation, n, caps, at);
        sb_image_len();
        assert(turned(before.superblock, target(generation, n, caps), 0) == before.superblock);
        assert(turned(before.superblock, target(generation, n, caps), 1).len()
            >= before.superblock.len());
        match (at.0->Migration_0).state {
            MState::WriteSb { copy, .. } => {
                assert(left.rows_old =~= before.rows_old);
                assert(left.rows =~= now.rows);
                assert(partly_over(before, generation, n, caps, now, n as int, copy + 1));
                turn_remains(before, generation, n, caps, now, copy + 1, left);
            },
            MState::FsyncSb { .. } => {
                assert(left.rows_old =~= before.rows_old);
                assert(left.rows =~= now.rows);
                assert(now == at.2);
                turn_remains(before, generation, n, caps, now, 2, left);
            },
            _ => {
                assert(now.superblock == before.superblock);
                assert(left.rows_old =~= before.rows_old);
                assert(left.superblock =~= before.superblock);
            },
        }
    } else if is_io(at.1) {
        migration_reads(before, generation, n, caps);
        assert(after(start.0, start.1, start.2, 0) == start);
        assert(after(start.0, start.1, start.2, 1) == completed(start.0, start.1, start.2));
        assert(at.1 is Read);
        assert(left.rows_old =~= before.rows_old);
        assert(left.superblock =~= before.superblock);
    } else {
        all_remains(start, k, left);
    }
}

// ---- The order of requests ----

/// The number of the request that writes the first row, behind the two reads.
/// Where there is no row, the one read stands in the place of the rows' sync.
pub open spec fn first_write(n: u64) -> int {
    if n == 0 {
        0
    } else {
        2
    }
}

/// Request number `k` of a migration.
pub open spec fn request(before: Disk, generation: u64, n: u64, caps: u64, k: int) -> Reply {
    let old = before.rows_old.take(24 * n);
    let at = k - first_write(n);
    if k == 0 {
        Reply::Read { file: FileId::Superblock, offset: 0, len: 256 }
    } else if at < 0 {
        Reply::Read { file: FileId::RowsOld, offset: 0, len: (24 * n) as u64 }
    } else if at < n {
        Reply::Write {
            file: FileId::Rows,
            offset: (32 * at) as u64,
            data: slot_image(migrated_slot(old, at)),
        }
    } else if at == n {
        Reply::Fsync { file: FileId::Rows }
    } else if at <= n + 2 {
        sb_write((generation + 1) as u64, n, caps, at - n - 1)
    } else if at == n + 3 {
        Reply::Fsync { file: FileId::Superblock }
    } else {
        Reply::MigrateDone { result: Ok(n) }
    }
}

/// Where a migration stands once it writes.
spec fn stands_at(state: MState, n: u64, at: int) -> bool {
    match state {
        MState::WriteNewRows { next, .. } => next == at,
        MState::FsyncNewRows { .. } => at == n,
        MState::WriteSb { copy, .. } => at == n + 1 + copy,
        MState::FsyncSb { .. } => at == n + 3,
        _ => false,
    }
}

/// The first request after the reads.
#[verifier::spinoff_prover]
proof fn writing_begins(before: Disk, generation: u64, n: u64, caps: u64)
    requires
        legible(before, generation, n),
        reportable(before),
        migratable(caps),
        n <= caps,
    ensures
        ({
            let start = migration_start(before, caps);
            let one = completed(start.0, start.1, start.2);
            let two = completed(one.0, one.1, one.2);
            &&& start.1 == request(before, generation, n, caps, 0)
            &&& n == 0 ==> stands_at((one.0->Migration_0).state, n, 1)
            &&& n > 0 ==> one.1 == request(before, generation, n, caps, 1) && stands_at(
                (two.0->Migration_0).state,
                n,
                0,
            )
        }),
{
    migration_starts(before, generation, n, caps);
    migration_reads(before, generation, n, caps);
    let zone = before.superblock;
    newest_in_front(zone, SCHEMA_HASH, 4);
    newest_in_front(zone, V1_SCHEMA_HASH, 4);
    newest_was_committed(zone, V1_SCHEMA_HASH, 4);
    if n > 0 {
        let old = before.rows_old.take(24 * n);
        front_legacy(before.rows_old, n as int);
        let data = clamped(before.rows_old, 0, 24 * n);
        assert(data =~= old);
        assert(data.take(24 * n) =~= old);
        assert forall|i: int| 0 <= i < n implies (#[trigger] legacy_row(old, i)) is Some by {
            assert(legacy_row(before.rows_old, i) is Some);
        }
    }
}

proof fn position(before: Disk, generation: u64, n: u64, caps: u64, k: nat)
    requires
        legible(before, generation, n),
        reportable(before),
        migratable(caps),
        n <= caps,
        1 <= k,
        first_write(n) <= k,
    ensures
        ({
            let start = migration_start(before, caps);
            let at = after(start.0, start.1, start.2, k);
            let p = k - first_write(n);
            if p <= n + 3 {
                moving(before, generation, n, caps, at) && stands_at(
                    (at.0->Migration_0).state,
                    n,
                    p,
                )
            } else {
                at.1 == (Reply::MigrateDone { result: Ok(n) })
            }
        }),
    decreases k,
{
    let start = migration_start(before, caps);
    let at = after(start.0, start.1, start.2, k);
    assert(after(start.0, start.1, start.2, 0) == start);
    assert(after(start.0, start.1, start.2, 1) == completed(start.0, start.1, start.2));
    if k == 1 || k == first_write(n) {
        migration_starts(before, generation, n, caps);
        writing_begins(before, generation, n, caps);
        if n > 0 {
            let one = after(start.0, start.1, start.2, 1);
            assert(at == completed(one.0, one.1, one.2));
        }
    } else {
        let j = (k - 1) as nat;
        position(before, generation, n, caps, j);
        let last = after(start.0, start.1, start.2, j);
        assert(at == completed(last.0, last.1, last.2));
        if k - 1 - first_write(n) <= n + 3 {
            moving_steps_on(before, generation, n, caps, last);
            moving_lands(before, generation, n, caps, last);
        }
    }
}

/// A migration's requests come in one order: the reads; the new rows, one after
/// another from the first; their sync; the two copies of the superblock; their
/// sync. Then it answers. The superblock is not touched before every row is
/// durable, and every request is made once.
pub proof fn a_migration_asks_in_order(before: Disk, generation: u64, n: u64, caps: u64, k: nat)
    requires
        legible(before, generation, n),
        reportable(before),
        migratable(caps),
        n <= caps,
    ensures
        ({
            let start = migration_start(before, caps);
            after(start.0, start.1, start.2, k).1 == request(before, generation, n, caps, k as int)
        }),
{
    let start = migration_start(before, caps);
    assert(after(start.0, start.1, start.2, 0) == start);
    assert(after(start.0, start.1, start.2, 1) == completed(start.0, start.1, start.2));
    writing_begins(before, generation, n, caps);
    if k >= 1 && k >= first_write(n) {
        position(before, generation, n, caps, k);
    }
}

} // verus!
