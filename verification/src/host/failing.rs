//! What a failing storage leaves, and what is found there.
//!
//! A storage that fails a request leaves what a crash at that request may leave.
//! So the promises that hold of a crash hold of a failure too: whatever the
//! error was, the files can be opened again.

use crate::engine::laws::is_io;
use crate::engine::log::{applied, Db};
use crate::engine::model::{created, State};
use crate::engine::tables::sizeable;
use crate::engine::types::{Input, Reply};
use crate::host::crash::{
    a_crash_is_all_or_nothing, a_crash_while_creating_loses_nothing,
    a_crash_while_opening_loses_nothing, cleanly_torn, genuine, may_remain,
};
use crate::host::disk::Machine;
use crate::host::laws::{is_write, new_manifest, recoverable, reportable, settled, vacant};
use crate::host::medium::clean;
use crate::host::migrating::{
    a_crash_while_migrating_loses_nothing, carried_over, copies_genuine, legacy, migration_start,
    padding_adds_nothing, target,
};
use crate::host::{driven, failed, Storage};
use crate::layout::Manifest;
use crate::migration::migratable;
use vstd::prelude::*;

verus! {

/// The request at which the storage failed.
proof fn failed_somewhere<S: Storage>(
    m: Machine,
    reply: Reply,
    from: S,
    end: (Machine, Reply),
    to: S,
    error: Option<S::Error>,
) -> (k: nat)
    requires
        clean(from.medium()),
        failed(m, reply, from, end, to, error),
    ensures
        may_remain((m, reply, from.medium().disk), k, to.medium().disk),
{
    let way = choose|way: Seq<S>|
        {
            let k = (way.len() - 1) as nat;
            &&& #[trigger] driven(m, reply, way)
            &&& way[0] == from
            &&& may_remain((m, reply, from.medium().disk), k, to.medium().disk)
        };
    (way.len() - 1) as nat
}

/// A write whose storage failed leaves the database before the write or the
/// database after it, whole, as long as what was torn is no superblock.
pub proof fn a_failed_write_is_all_or_nothing<S: Storage>(
    s: State,
    input: Input,
    from: S,
    end: (Machine, Reply),
    to: S,
    error: Option<S::Error>,
)
    requires
        s.ok(),
        s.phase is Ready,
        settled(from.medium().disk, s),
        clean(from.medium()),
        s.accepts(input),
        is_write(input),
        failed(Machine::Engine(s.step(input).0), s.step(input).1, from, end, to, error),
        genuine(
            from.medium().disk.superblock,
            to.medium().disk.superblock,
            new_manifest(s.step(input).0),
        ),
    ensures
        ({
            let (t, first) = s.step(input);
            let left = to.medium().disk;
            ||| recoverable(left, s.generation, s.row_count, s.db)
            ||| is_io(first) && recoverable(
                left,
                new_manifest(t).generation,
                new_manifest(t).row_count,
                applied(t.db, t.effects, t.slots),
            )
        }),
{
    let (t, first) = s.step(input);
    let k = failed_somewhere(Machine::Engine(t), first, from, end, to, error);
    a_crash_is_all_or_nothing(s, from.medium().disk, input, k, to.medium().disk);
}

/// An open whose storage failed leaves the same database, as long as what was
/// torn is no superblock.
pub proof fn a_failed_open_loses_nothing<S: Storage>(
    caps: u64,
    generation: u64,
    row_count: u64,
    db: Db,
    from: S,
    end: (Machine, Reply),
    to: S,
    error: Option<S::Error>,
)
    requires
        sizeable(caps),
        row_count <= caps,
        reportable(from.medium().disk),
        recoverable(from.medium().disk, generation, row_count, db),
        clean(from.medium()),
        ({
            let (s, first) = created(caps).open(
                from.medium().disk.superblock.len() as u64,
                from.medium().disk.rows.len() as u64,
            );
            failed(Machine::Engine(s), first, from, end, to, error)
        }),
        genuine(
            from.medium().disk.superblock,
            to.medium().disk.superblock,
            (Manifest { generation, row_count, capacity: caps }),
        ),
    ensures
        recoverable(to.medium().disk, generation, row_count, db),
{
    let disk = from.medium().disk;
    let (s, first) = created(caps).open(disk.superblock.len() as u64, disk.rows.len() as u64);
    let k = failed_somewhere(Machine::Engine(s), first, from, end, to, error);
    a_crash_while_opening_loses_nothing(
        caps,
        disk,
        generation,
        row_count,
        db,
        k,
        to.medium().disk,
    );
}

/// The creation of a database whose storage failed leaves the empty database, or
/// files on which it is created anew.
pub proof fn a_failed_creation_loses_nothing<S: Storage>(
    caps: u64,
    from: S,
    end: (Machine, Reply),
    to: S,
    error: Option<S::Error>,
)
    requires
        reportable(from.medium().disk),
        vacant(from.medium().disk),
        clean(from.medium()),
        ({
            let (s, first) = created(caps).open(
                from.medium().disk.superblock.len() as u64,
                from.medium().disk.rows.len() as u64,
            );
            failed(Machine::Engine(s), first, from, end, to, error)
        }),
        cleanly_torn(
            to.medium().disk.superblock,
            (Manifest { generation: 1, row_count: 0, capacity: caps }),
        ),
    ensures
        vacant(to.medium().disk) || recoverable(to.medium().disk, 1, 0, Db::empty()),
{
    let disk = from.medium().disk;
    let (s, first) = created(caps).open(disk.superblock.len() as u64, disk.rows.len() as u64);
    let k = failed_somewhere(Machine::Engine(s), first, from, end, to, error);
    a_crash_while_creating_loses_nothing(caps, disk, k, to.medium().disk);
}

/// A migration whose storage failed leaves the legacy database, so that the
/// migration can start over, or the migrated one, whole, as long as what was
/// torn is no superblock.
pub proof fn a_failed_migration_loses_nothing<S: Storage>(
    generation: u64,
    n: u64,
    caps: u64,
    from: S,
    end: (Machine, Reply),
    to: S,
    error: Option<S::Error>,
)
    requires
        legacy(from.medium().disk, generation, n),
        reportable(from.medium().disk),
        migratable(caps),
        n <= caps,
        clean(from.medium()),
        ({
            let start = migration_start(from.medium().disk, caps);
            failed(start.0, start.1, from, end, to, error)
        }),
        padding_adds_nothing(from.medium().disk.superblock, generation, n),
        copies_genuine(
            from.medium().disk.superblock,
            to.medium().disk.superblock,
            target(generation, n, caps),
        ),
    ensures
        ({
            let left = to.medium().disk;
            ||| legacy(left, generation, n) && padding_adds_nothing(left.superblock, generation, n)
            ||| carried_over(left, generation, n, from.medium().disk.rows_old)
        }),
{
    let start = migration_start(from.medium().disk, caps);
    let k = failed_somewhere(start.0, start.1, from, end, to, error);
    a_crash_while_migrating_loses_nothing(
        from.medium().disk,
        generation,
        n,
        caps,
        k,
        to.medium().disk,
    );
}

} // verus!
