//! What an open and a migration do with files that they cannot use: they say
//! what is wrong with them, and leave every byte as it was.

use crate::defect;
use crate::engine::model::{created, sb_chunk, sb_counts, sb_foreign, sb_newest};
use crate::engine::tables::sizeable;
use crate::engine::types::{DbError, Reply};
use crate::host::disk::{clamped, completed, run, Disk, Machine};
use crate::host::laws::{run_on, zone_prefix};
use crate::host::migrating::{
    front_legacy, migrating_a_current_database_changes_nothing, newest_in_front, unstarted,
};
use crate::layout::{sb_image, sb_parsed, sb_parses_its_image, Manifest, SCHEMA_HASH};
use crate::migration::{
    copy_at, legacy_row, migratable, newest_of, unknown_schema, V1_SCHEMA_HASH,
};
use vstd::prelude::*;

verus! {

/// A trusted superblock copy of the schema stands in the slot.
pub open spec fn of_schema(zone: Seq<u8>, slot: int, schema: u64) -> bool {
    copy_at(zone, slot) is Some && (copy_at(zone, slot)->0).1 == schema
}

/// The slot holds the newest copy of the schema; where several have one
/// generation, it is the first of them.
pub open spec fn leads(zone: Seq<u8>, slot: int, schema: u64) -> bool {
    &&& 0 <= slot < 4
    &&& of_schema(zone, slot, schema)
    &&& forall|j: int|
        0 <= j < 4 && #[trigger] of_schema(zone, j, schema) ==> {
            let (other, newest) = ((copy_at(zone, j)->0).0, (copy_at(zone, slot)->0).0);
            &&& other.generation <= newest.generation
            &&& j < slot ==> other.generation < newest.generation
        }
}

/// A copy is trusted exactly if its slot holds the image of it, it was ever
/// committed, and the slot is one of the two for its generation: the first two
/// are for the even ones, the last two for the odd ones.
pub proof fn a_trusted_copy_is_an_image_in_its_place(
    zone: Seq<u8>,
    slot: int,
    m: Manifest,
    schema: u64,
)
    requires
        0 <= slot < 4,
    ensures
        copy_at(zone, slot) == Some((m, schema)) <==> {
            &&& zone.len() >= 64 * (slot + 1)
            &&& zone.subrange(64 * slot, 64 * slot + 64) == sb_image(
                m.generation,
                m.row_count,
                schema,
                m.capacity,
            )
            &&& m.generation > 0
            &&& slot / 2 == m.generation % 2
        },
{
    if zone.len() >= 64 * (slot + 1) {
        let chunk = zone.subrange(64 * slot, 64 * slot + 64);
        sb_parses_its_image(chunk, m, schema);
        assert(chunk.take(64) =~= chunk);
    }
}

/// How a migration of the files ends.
pub open spec fn migrated(disk: Disk, caps: u64) -> (Machine, Reply, Disk) {
    let (p, first) = unstarted(caps).start(
        disk.superblock.len() as u64,
        disk.rows_old.len() as u64,
    );
    run(Machine::Migration(p), first, disk)
}

/// The migration ends with this answer and has changed nothing.
pub open spec fn answered(disk: Disk, caps: u64, result: Result<u64, DbError>) -> bool {
    &&& migrated(disk, caps).1 == (Reply::MigrateDone { result })
    &&& migrated(disk, caps).2 == disk
}

proof fn newest_leads(zone: Seq<u8>, schema: u64, n: int)
    requires
        0 <= n,
    ensures
        newest_of(zone, schema, n) is None <==> forall|j: int|
            0 <= j < n ==> !#[trigger] of_schema(zone, j, schema),
        newest_of(zone, schema, n) matches Some((generation, rows)) ==> {
            &&& forall|j: int|
                0 <= j < n && #[trigger] of_schema(zone, j, schema) ==> (copy_at(
                    zone,
                    j,
                )->0).0.generation <= generation
            &&& exists|k: int|
                {
                    &&& 0 <= k < n
                    &&& #[trigger] of_schema(zone, k, schema)
                    &&& (copy_at(zone, k)->0).0.generation == generation
                    &&& (copy_at(zone, k)->0).0.row_count == rows
                    &&& forall|j: int|
                        0 <= j < k && #[trigger] of_schema(zone, j, schema) ==> (copy_at(
                            zone,
                            j,
                        )->0).0.generation < generation
                }
        },
    decreases n,
{
    if n > 0 {
        newest_leads(zone, schema, n - 1);
        let before = newest_of(zone, schema, n - 1);
        let now = newest_of(zone, schema, n);
        if of_schema(zone, n - 1, schema) {
            assert(now is Some);
            if before is None || (copy_at(zone, n - 1)->0).0.generation > (before->0).0 {
                assert(now == Some(
                    (
                        (copy_at(zone, n - 1)->0).0.generation,
                        (copy_at(zone, n - 1)->0).0.row_count,
                    ),
                ));
            } else {
                assert(now == before);
            }
        } else {
            assert(now == before);
        }
    }
}

proof fn leader_is_newest(zone: Seq<u8>, slot: int, schema: u64)
    requires
        leads(zone, slot, schema),
    ensures
        newest_of(zone, schema, 4) == Some(
            (
                (copy_at(zone, slot)->0).0.generation,
                (copy_at(zone, slot)->0).0.row_count,
            ),
        ),
{
    newest_leads(zone, schema, 4);
}

proof fn unknown_is_last(zone: Seq<u8>, n: int)
    requires
        0 <= n,
    ensures
        match unknown_schema(zone, n) {
            None => forall|j: int|
                0 <= j < n && (#[trigger] copy_at(zone, j)) is Some ==> (copy_at(zone, j)->0).1
                    == SCHEMA_HASH || (copy_at(zone, j)->0).1 == V1_SCHEMA_HASH,
            Some(schema) => {
                &&& schema != SCHEMA_HASH
                &&& schema != V1_SCHEMA_HASH
                &&& exists|k: int|
                    {
                        &&& 0 <= k < n
                        &&& #[trigger] of_schema(zone, k, schema)
                        &&& forall|j: int|
                            k < j < n && (#[trigger] copy_at(zone, j)) is Some ==> (copy_at(
                                zone,
                                j,
                            )->0).1 == SCHEMA_HASH || (copy_at(zone, j)->0).1 == V1_SCHEMA_HASH
                    }
            },
        },
    decreases n,
{
    if n > 0 {
        unknown_is_last(zone, n - 1);
        if unknown_schema(zone, n) is Some {
            if unknown_schema(zone, n) != unknown_schema(zone, n - 1) || (copy_at(zone, n - 1)
                is Some && (copy_at(zone, n - 1)->0).1 != SCHEMA_HASH && (copy_at(zone, n - 1)->0).1
                != V1_SCHEMA_HASH) {
                assert(of_schema(zone, n - 1, unknown_schema(zone, n)->0));
            }
        }
    }
}

proof fn unknown_in_front(zone: Seq<u8>, n: int)
    requires
        n <= 4,
    ensures
        unknown_schema(clamped(zone, 0, 256), n) == unknown_schema(zone, n),
    decreases n,
{
    if n > 0 {
        zone_prefix(zone, 4);
        unknown_in_front(zone, n - 1);
        assert(sb_chunk(clamped(zone, 0, 256), n - 1) == sb_chunk(zone, n - 1));
    }
}

/// What the migration learns from the superblock file, when that is all it
/// needs.
proof fn told_by_the_superblock(disk: Disk, caps: u64)
    requires
        0 < disk.superblock.len() <= u64::MAX,
        disk.rows_old.len() <= u64::MAX,
        migratable(caps),
    ensures
        ({
            let zone = disk.superblock;
            let (p, first) = unstarted(caps).start(
                zone.len() as u64,
                disk.rows_old.len() as u64,
            );
            let one = completed(Machine::Migration(p), first, disk);
            &&& one.2 == disk
            &&& one.0 == Machine::Migration(p.on_sb(clamped(zone, 0, 256)).0)
            &&& one.1 == p.on_sb(clamped(zone, 0, 256)).1
            &&& newest_of(clamped(zone, 0, 256), SCHEMA_HASH, 4) == newest_of(zone, SCHEMA_HASH, 4)
            &&& newest_of(clamped(zone, 0, 256), V1_SCHEMA_HASH, 4) == newest_of(
                zone,
                V1_SCHEMA_HASH,
                4,
            )
            &&& unknown_schema(clamped(zone, 0, 256), 4) == unknown_schema(zone, 4)
            &&& migrated(disk, caps) == run(one.0, one.1, one.2)
        }),
{
    let zone = disk.superblock;
    newest_in_front(zone, SCHEMA_HASH, 4);
    newest_in_front(zone, V1_SCHEMA_HASH, 4);
    unknown_in_front(zone, 4);
    let (p, first) = unstarted(caps).start(zone.len() as u64, disk.rows_old.len() as u64);
    run_on(Machine::Migration(p), first, disk);
}

proof fn no_zone_no_copies(zone: Seq<u8>)
    requires
        zone.len() == 0,
    ensures
        forall|j: int| 0 <= j < 4 ==> (#[trigger] copy_at(zone, j)) is None,
{
}

/// Files without any superblock copy that can be trusted are no database. An
/// empty directory migrates to nothing; legacy rows that no superblock speaks
/// for, or a copy of a schema that nothing here knows, are refused.
pub proof fn a_migration_without_a_superblock(disk: Disk, caps: u64)
    requires
        disk.superblock.len() <= u64::MAX,
        disk.rows_old.len() <= u64::MAX,
        migratable(caps),
        forall|j: int|
            0 <= j < 4 ==> !(#[trigger] of_schema(disk.superblock, j, SCHEMA_HASH)) && !of_schema(
                disk.superblock,
                j,
                V1_SCHEMA_HASH,
            ),
    ensures
        if exists|j: int| 0 <= j < 4 && (#[trigger] copy_at(disk.superblock, j)) is Some {
            exists|j: int|
                {
                    &&& 0 <= j < 4
                    &&& (#[trigger] copy_at(disk.superblock, j)) is Some
                    &&& forall|k: int|
                        j < k < 4 ==> (#[trigger] copy_at(disk.superblock, k)) is None
                    &&& answered(
                        disk,
                        caps,
                        Err(
                            DbError::SchemaMismatch {
                                file_schema: (copy_at(disk.superblock, j)->0).1,
                                binary_schema: SCHEMA_HASH,
                            },
                        ),
                    )
                }
        } else if disk.rows_old.len() == 0 {
            answered(disk, caps, Ok(0))
        } else {
            answered(
                disk,
                caps,
                Err(
                    DbError::Corrupt {
                        what: if disk.superblock.len() == 0 {
                            defect::LEGACY_WITHOUT_SUPERBLOCK
                        } else {
                            defect::LEGACY_WITHOUT_VALID_SUPERBLOCK
                        },
                    },
                ),
            )
        },
{
    let zone = disk.superblock;
    let (p, first) = unstarted(caps).start(zone.len() as u64, disk.rows_old.len() as u64);
    if zone.len() == 0 {
        no_zone_no_copies(zone);
    } else {
        newest_leads(zone, SCHEMA_HASH, 4);
        assert forall|j: int| 0 <= j < 4 implies !#[trigger] of_schema(zone, j, V1_SCHEMA_HASH) by {
            assert(!of_schema(zone, j, SCHEMA_HASH));
        }
        newest_leads(zone, V1_SCHEMA_HASH, 4);
        unknown_is_last(zone, 4);
        told_by_the_superblock(disk, caps);
        if exists|j: int| 0 <= j < 4 && (#[trigger] copy_at(zone, j)) is Some {
            let j = choose|j: int| 0 <= j < 4 && (#[trigger] copy_at(zone, j)) is Some;
            assert(!of_schema(zone, j, SCHEMA_HASH));
            let schema = unknown_schema(zone, 4)->0;
            let k = choose|k: int|
                {
                    &&& 0 <= k < 4
                    &&& #[trigger] of_schema(zone, k, schema)
                    &&& forall|j: int|
                        k < j < 4 && (#[trigger] copy_at(zone, j)) is Some ==> (copy_at(
                            zone,
                            j,
                        )->0).1 == SCHEMA_HASH || (copy_at(zone, j)->0).1 == V1_SCHEMA_HASH
                };
            assert(copy_at(zone, k) is Some);
            assert forall|j: int| k < j < 4 implies (#[trigger] copy_at(zone, j)) is None by {
                assert(!of_schema(zone, j, SCHEMA_HASH));
            }
        }
    }
}

/// A legacy database that cannot be carried over is refused, with the reason:
/// more rows than there is room for, fewer in the file than the superblock
/// names, or one that cannot be read.
pub proof fn a_migration_refuses_what_it_cannot_carry(disk: Disk, slot: int, caps: u64)
    requires
        disk.superblock.len() <= u64::MAX,
        disk.rows_old.len() <= u64::MAX,
        migratable(caps),
        leads(disk.superblock, slot, V1_SCHEMA_HASH),
        forall|j: int| 0 <= j < 4 ==> !#[trigger] of_schema(disk.superblock, j, SCHEMA_HASH),
        (copy_at(disk.superblock, slot)->0).0.generation < u64::MAX,
    ensures
        ({
            let n = (copy_at(disk.superblock, slot)->0).0.row_count;
            &&& n > caps ==> answered(
                disk,
                caps,
                Err(DbError::CapacityBelowData { required: n, configured: caps }),
            )
            &&& n <= caps && 24 * n > disk.rows_old.len() ==> answered(
                disk,
                caps,
                Err(DbError::Corrupt { what: defect::LEGACY_ROWS_MISSING }),
            )
            &&& n <= caps && 24 * n <= disk.rows_old.len() && (exists|i: int|
                0 <= i < n && (#[trigger] legacy_row(disk.rows_old, i)) is None) ==> answered(
                disk,
                caps,
                Err(DbError::Corrupt { what: defect::LEGACY_ROW_CHECKSUM }),
            )
        }),
{
    let zone = disk.superblock;
    let n = (copy_at(zone, slot)->0).0.row_count;
    if zone.len() == 0 {
        no_zone_no_copies(zone);
    }
    newest_leads(zone, SCHEMA_HASH, 4);
    leader_is_newest(zone, slot, V1_SCHEMA_HASH);
    told_by_the_superblock(disk, caps);
    let (p, first) = unstarted(caps).start(zone.len() as u64, disk.rows_old.len() as u64);
    let one = completed(Machine::Migration(p), first, disk);
    if n <= caps && 24 * n <= disk.rows_old.len() && exists|i: int|
        0 <= i < n && (#[trigger] legacy_row(disk.rows_old, i)) is None {
        let i = choose|i: int| 0 <= i < n && (#[trigger] legacy_row(disk.rows_old, i)) is None;
        let old = disk.rows_old.take(24 * n);
        front_legacy(disk.rows_old, n as int);
        let data = clamped(disk.rows_old, 0, 24 * n);
        assert(data =~= old);
        assert(data.take(24 * n) =~= old);
        assert(legacy_row(old, i) is None);
        run_on(one.0, one.1, one.2);
    }
}

/// Files whose newest copies are of this schema are migrated already: the
/// answer is the number of rows that the newest one names, whatever legacy
/// copies there are beside it.
pub proof fn a_current_database_needs_no_migration(disk: Disk, slot: int, caps: u64)
    requires
        disk.superblock.len() <= u64::MAX,
        migratable(caps),
        leads(disk.superblock, slot, SCHEMA_HASH),
    ensures
        answered(disk, caps, Ok((copy_at(disk.superblock, slot)->0).0.row_count)),
{
    let m = (copy_at(disk.superblock, slot)->0).0;
    leader_is_newest(disk.superblock, slot, SCHEMA_HASH);
    migrating_a_current_database_changes_nothing(disk, m.generation, m.row_count, caps);
}

/// How an open of the files ends.
pub open spec fn opening(disk: Disk, caps: u64) -> (Machine, Reply, Disk) {
    let (s, first) = created(caps).open(disk.superblock.len() as u64, disk.rows.len() as u64);
    run(Machine::Engine(s), first, disk)
}

/// The open fails with this error and has changed nothing.
pub open spec fn turned_away(disk: Disk, caps: u64, error: DbError) -> bool {
    &&& opening(disk, caps).1 == (Reply::OpenDone { result: Err(error) })
    &&& opening(disk, caps).2 == disk
}

/// Whatever the slot holds reads as a superblock copy of another schema.
pub open spec fn foreign_at(zone: Seq<u8>, slot: int) -> bool {
    match sb_chunk(zone, slot) {
        Some(chunk) => sb_parsed(chunk) is Some && (sb_parsed(chunk)->0).1 != SCHEMA_HASH,
        None => false,
    }
}

proof fn counting_copies(zone: Seq<u8>, n: int)
    requires
        0 <= n,
    ensures
        forall|j: int|
            0 <= j < n ==> ((#[trigger] sb_counts(zone, j)) is Some <==> of_schema(
                zone,
                j,
                SCHEMA_HASH,
            )) && (sb_counts(zone, j) is Some ==> sb_counts(zone, j)->0 == (copy_at(
                zone,
                j,
            )->0).0),
        sb_newest(zone, n) is None <==> forall|j: int|
            0 <= j < n ==> !#[trigger] of_schema(zone, j, SCHEMA_HASH),
        sb_newest(zone, n) matches Some(m) ==> {
            &&& forall|j: int|
                0 <= j < n && #[trigger] of_schema(zone, j, SCHEMA_HASH) ==> (copy_at(
                    zone,
                    j,
                )->0).0.generation <= m.generation
            &&& exists|k: int|
                {
                    &&& 0 <= k < n
                    &&& #[trigger] of_schema(zone, k, SCHEMA_HASH)
                    &&& (copy_at(zone, k)->0).0 == m
                    &&& forall|j: int|
                        0 <= j < k && #[trigger] of_schema(zone, j, SCHEMA_HASH) ==> (copy_at(
                            zone,
                            j,
                        )->0).0.generation < m.generation
                }
        },
    decreases n,
{
    if n > 0 {
        counting_copies(zone, n - 1);
        let before = sb_newest(zone, n - 1);
        let now = sb_newest(zone, n);
        let last = sb_counts(zone, n - 1);
        assert(last is Some <==> of_schema(zone, n - 1, SCHEMA_HASH));
        if last is Some {
            assert(now is Some);
            if before is None || (last->0).generation > (before->0).generation {
                assert(now == last);
            } else {
                assert(now == before);
            }
        } else {
            assert(now == before);
        }
    }
}

proof fn foreign_is_last(zone: Seq<u8>, n: int)
    requires
        0 <= n,
    ensures
        match sb_foreign(zone, n) {
            None => forall|j: int| 0 <= j < n ==> !#[trigger] foreign_at(zone, j),
            Some(schema) => exists|k: int|
                {
                    &&& 0 <= k < n
                    &&& #[trigger] foreign_at(zone, k)
                    &&& (sb_parsed(sb_chunk(zone, k)->0)->0).1 == schema
                    &&& forall|j: int| k < j < n ==> !#[trigger] foreign_at(zone, j)
                },
        },
    decreases n,
{
    if n > 0 {
        foreign_is_last(zone, n - 1);
        if foreign_at(zone, n - 1) {
            assert(sb_foreign(zone, n) == Some((sb_parsed(sb_chunk(zone, n - 1)->0)->0).1));
        } else {
            assert(sb_foreign(zone, n) == sb_foreign(zone, n - 1));
        }
    }
}

proof fn foreign_in_front(zone: Seq<u8>, n: int)
    requires
        n <= 4,
    ensures
        sb_foreign(clamped(zone, 0, 256), n) == sb_foreign(zone, n),
    decreases n,
{
    if n > 0 {
        zone_prefix(zone, 4);
        foreign_in_front(zone, n - 1);
        assert(sb_chunk(clamped(zone, 0, 256), n - 1) == sb_chunk(zone, n - 1));
    }
}

/// A database with more rows than the engine has room for is not opened: the
/// error says how many there are and how many there is room for. So it is with
/// one whose rows file is too short for them.
pub proof fn an_open_refuses_what_it_cannot_hold(disk: Disk, slot: int, caps: u64)
    requires
        sizeable(caps),
        disk.superblock.len() <= u64::MAX,
        disk.rows.len() <= u64::MAX,
        leads(disk.superblock, slot, SCHEMA_HASH),
    ensures
        ({
            let n = (copy_at(disk.superblock, slot)->0).0.row_count;
            &&& n > caps ==> turned_away(
                disk,
                caps,
                DbError::CapacityBelowData { required: n, configured: caps },
            )
            &&& n <= caps && 32 * n > disk.rows.len() ==> turned_away(
                disk,
                caps,
                DbError::Corrupt { what: defect::ROWS_MISSING },
            )
        }),
{
    let zone = disk.superblock;
    if zone.len() == 0 {
        no_zone_no_copies(zone);
    }
    counting_copies(zone, 4);
    assert(sb_newest(zone, 4) == Some((copy_at(zone, slot)->0).0));
    zone_prefix(zone, 4);
    let (s, first) = created(caps).open(zone.len() as u64, disk.rows.len() as u64);
    run_on(Machine::Engine(s), first, disk);
}

/// Files without a copy of this schema that can be trusted are not opened if
/// they hold a copy of another schema, or rows.
pub proof fn an_open_refuses_what_is_not_its_own(disk: Disk, caps: u64)
    requires
        sizeable(caps),
        disk.superblock.len() <= u64::MAX,
        disk.rows.len() <= u64::MAX,
        forall|j: int| 0 <= j < 4 ==> !#[trigger] of_schema(disk.superblock, j, SCHEMA_HASH),
    ensures
        if exists|j: int| 0 <= j < 4 && #[trigger] foreign_at(disk.superblock, j) {
            exists|j: int|
                {
                    &&& 0 <= j < 4
                    &&& #[trigger] foreign_at(disk.superblock, j)
                    &&& forall|k: int| j < k < 4 ==> !#[trigger] foreign_at(disk.superblock, k)
                    &&& turned_away(
                        disk,
                        caps,
                        DbError::SchemaMismatch {
                            file_schema: (sb_parsed(sb_chunk(disk.superblock, j)->0)->0).1,
                            binary_schema: SCHEMA_HASH,
                        },
                    )
                }
        } else {
            disk.rows.len() > 0 ==> turned_away(
                disk,
                caps,
                DbError::Corrupt {
                    what: if disk.superblock.len() == 0 {
                        defect::ROWS_WITHOUT_SUPERBLOCK
                    } else {
                        defect::ROWS_WITHOUT_VALID_SUPERBLOCK
                    },
                },
            )
        },
{
    let zone = disk.superblock;
    counting_copies(zone, 4);
    foreign_is_last(zone, 4);
    if zone.len() > 0 {
        zone_prefix(zone, 4);
        foreign_in_front(zone, 4);
        let (s, first) = created(caps).open(zone.len() as u64, disk.rows.len() as u64);
        run_on(Machine::Engine(s), first, disk);
    }
}

} // verus!
