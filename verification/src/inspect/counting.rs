//! What the inspector's numbers count: rows of the file, each in one place.

use crate::engine::commit::run_facts;
use crate::engine::log::{
    broken_at, broken_from, continues, replay, replay_step, run_at, Db, Log, Step,
};
use crate::engine::model::{read_log, readable, sb_chunk};
use crate::inspect::{
    all_zero, broken_run_within, committed_rows, elected, file_log, foreign_schema, garbage,
    past_rows, row_scan, slot_state, unwalked, verdict_of, ScanView, SlotState, Verdict, Walked,
};
use crate::layout::{sb_image, sb_parsed, sb_parses_its_image, Manifest, SCHEMA_HASH};
use crate::migration::V1_SCHEMA_HASH;
use crate::slot::{slot_parsed, RowKind};
use vstd::prelude::*;

verus! {

// ---- Counting rows ----

/// What kind of row it is, if it can be read.
pub open spec fn kind_at(log: Log, r: int) -> Option<RowKind> {
    match log[r] {
        None => None,
        Some(s) => Some(s.kind),
    }
}

/// How many of the first `n` rows are of this kind; `None` asks for those that
/// cannot be read.
pub open spec fn rows_of(log: Log, n: int, kind: Option<RowKind>) -> int
    decreases n,
{
    if n <= 0 {
        0
    } else if kind_at(log, n - 1) == kind {
        rows_of(log, n - 1, kind) + 1
    } else {
        rows_of(log, n - 1, kind)
    }
}

/// The offsets of the rows that cannot be read among the first `n`. (One that
/// no offset reaches has the largest.)
pub open spec fn unreadable_offsets(log: Log, n: int) -> Seq<u64>
    decreases n,
{
    if n <= 0 {
        Seq::empty()
    } else {
        let before = unreadable_offsets(log, n - 1);
        if log[n - 1] is Some {
            before
        } else {
            before.push(
                if 32 * (n - 1) <= u64::MAX {
                    (32 * (n - 1)) as u64
                } else {
                    u64::MAX
                },
            )
        }
    }
}

/// The first sixteen of a list.
pub open spec fn first_sixteen(list: Seq<u64>) -> Seq<u64> {
    if list.len() <= 16 {
        list
    } else {
        list.take(16)
    }
}

/// No more rows of a kind than rows.
pub(crate) proof fn rows_counted(log: Log, n: int)
    requires
        0 <= n,
    ensures
        0 <= rows_of(log, n, None) <= n,
    decreases n,
{
    if n > 0 {
        rows_counted(log, n - 1);
    }
}

proof fn continuations_count(log: Log, head: int, n: int)
    requires
        0 <= head,
        1 <= n,
        head + n <= log.len(),
        log[head] is Some,
        forall|k: int| 1 <= k < n ==> #[trigger] continues(log, head + k, (log[head]->0).id),
    ensures
        forall|kind: Option<RowKind>| #[trigger]
            rows_of(log, head + n, kind) == rows_of(log, head, kind) + (if kind == kind_at(
                log,
                head,
            ) {
                1int
            } else {
                0
            }) + (if kind == Some(RowKind::Chunk) {
                n - 1
            } else {
                0
            }),
        unreadable_offsets(log, head + n) == unreadable_offsets(log, head),
    decreases n,
{
    if n == 1 {
        assert(unreadable_offsets(log, head + 1) == unreadable_offsets(log, head));
    } else {
        continuations_count(log, head, n - 1);
        assert(continues(log, head + (n - 1), (log[head]->0).id));
        assert forall|kind: Option<RowKind>| #[trigger]
            rows_of(log, head + n, kind) == rows_of(log, head, kind) + (if kind == kind_at(
                log,
                head,
            ) {
                1int
            } else {
                0
            }) + (if kind == Some(RowKind::Chunk) {
                n - 1
            } else {
                0
            }) by {
            assert(rows_of(log, head + (n - 1), kind) == rows_of(log, head, kind) + (if kind
                == kind_at(log, head) {
                1int
            } else {
                0
            }) + (if kind == Some(RowKind::Chunk) {
                n - 2
            } else {
                0
            }));
        }
    }
}

proof fn broken_continues(log: Log, head: int, rows: int, more: bool)
    requires
        0 <= head,
        1 <= rows,
        head + rows <= log.len(),
    ensures
        forall|k: int|
            rows <= k < broken_from(log, head, rows, more) ==> #[trigger] continues(
                log,
                head + k,
                (log[head]->0).id,
            ),
    decreases log.len() - (head + rows),
{
    if more && rows <= 128 && continues(log, head + rows, (log[head]->0).id) {
        broken_continues(log, head, rows + 1, (log[head + rows]->0).more);
    }
}

/// The defects that a scan has met.
pub open spec fn defects(scan: ScanView) -> int {
    scan.committed_corrupt + scan.orphan_updates + scan.orphan_tombstones + scan.orphan_chunks
        + scan.truncated_values + scan.duplicate_ids
}

/// The numbers of a scan that has come as far as row `n`, with so many ids live
/// at that point: every row is counted, once, by what it is.
pub open spec fn tallies(scan: ScanView, log: Log, n: int, live: int) -> bool {
    &&& scan.committed_corrupt == rows_of(log, n, None)
    &&& scan.corrupt_offsets == first_sixteen(unreadable_offsets(log, n))
    &&& scan.tombstones + scan.orphan_tombstones == rows_of(log, n, Some(RowKind::Tombstone))
    &&& scan.committed_valid - scan.tombstones + scan.duplicate_ids + scan.orphan_updates
        + scan.truncated_values == rows_of(log, n, Some(RowKind::Record)) + rows_of(
        log,
        n,
        Some(RowKind::Update),
    )
    &&& scan.chunks + scan.orphan_chunks <= rows_of(log, n, Some(RowKind::Chunk))
    &&& scan.truncated_values == 0 ==> {
        &&& scan.superseded + scan.orphan_updates == rows_of(log, n, Some(RowKind::Update))
        &&& scan.chunks + scan.orphan_chunks == rows_of(log, n, Some(RowKind::Chunk))
    }
    &&& scan.committed_valid == live + scan.superseded + 2 * scan.tombstones
    &&& scan.committed_valid >= 0 && scan.committed_corrupt >= 0 && scan.orphan_updates >= 0
        && scan.orphan_tombstones >= 0 && scan.orphan_chunks >= 0 && scan.truncated_values >= 0
        && scan.duplicate_ids >= 0 && scan.tombstones >= 0 && scan.superseded >= 0 && scan.chunks
        >= 0
    &&& scan.duplicate_samples.len() == if scan.duplicate_ids <= 16 {
        scan.duplicate_ids
    } else {
        16
    }
    &&& forall|i: int|
        0 <= i < scan.duplicate_samples.len() ==> is_record_of(
            log,
            n,
            #[trigger] scan.duplicate_samples[i],
        )
}

/// One of the first `n` rows is a record of this id.
pub open spec fn is_record_of(log: Log, n: int, id: u64) -> bool {
    exists|r: int|
        0 <= r < n && kind_at(log, r) == Some(RowKind::Record) && ((#[trigger] log[r])->0).id == id
}

spec fn tallied(w: Walked, log: Log) -> bool {
    &&& 0 <= w.at <= log.len()
    &&& w.seen.finite()
    &&& tallies(w.scan, log, w.at, w.seen.len() as int)
    &&& w.first is None <==> defects(w.scan) == 0
}

proof fn records_stay(log: Log, m: int, n: int, id: u64)
    requires
        m <= n,
        is_record_of(log, m, id),
    ensures
        is_record_of(log, n, id),
{
    let r = choose|r: int|
        0 <= r < m && kind_at(log, r) == Some(RowKind::Record) && ((#[trigger] log[r])->0).id == id;
    assert((log[r]->0).id == id);
}

#[verifier::spinoff_prover]
#[verifier::rlimit(60)]
proof fn one_more_tallied(w: Walked, log: Log)
    requires
        tallied(w, log),
        w.at < log.len(),
    ensures
        w.at < w.step(log).at <= log.len(),
        tallied(w.step(log), log),
{
    let at = w.at;
    let next = w.step(log);
    match log[at] {
        None => {
            let a = unreadable_offsets(log, at);
            assert forall|kind: Option<RowKind>| #[trigger] rows_of(log, at + 1, kind) == rows_of(
                log,
                at,
                kind,
            ) + (if kind is None {
                1int
            } else {
                0
            }) by {}
            assert(next.scan.corrupt_offsets =~= first_sixteen(unreadable_offsets(log, at + 1)));
        },
        Some(s) => {
            let n = if s.kind == RowKind::Record || s.kind == RowKind::Update {
                broken_run_within(log, at, 1, s.more);
                broken_continues(log, at, 1, s.more);
                if run_at(log, at) is Some {
                    run_facts(log, at, 1, s.more);
                }
                match run_at(log, at) {
                    Some(n) => n,
                    None => broken_at(log, at),
                }
            } else {
                1
            };
            continuations_count(log, at, n);
            assert(next.at == at + n);
            if s.kind == RowKind::Record {
                assert(is_record_of(log, at + n, s.id)) by {
                    assert((log[at]->0).id == s.id);
                }
            }
        },
    }
    assert forall|i: int| 0 <= i < next.scan.duplicate_samples.len() implies is_record_of(
        log,
        next.at,
        #[trigger] next.scan.duplicate_samples[i],
    ) by {
        if i < w.scan.duplicate_samples.len() {
            records_stay(log, at, next.at, w.scan.duplicate_samples[i]);
        }
    }
}

proof fn walk_tallies(w: Walked, log: Log)
    requires
        tallied(w, log),
    ensures
        tallied(w.walk(log), log),
        w.walk(log).at == log.len(),
    decreases log.len() - w.at,
{
    if w.at < log.len() {
        one_more_tallied(w, log);
        walk_tallies(w.step(log), log);
    }
}

proof fn nothing_walked_tallies(log: Log)
    ensures
        tallied(unwalked(), log),
{
    assert(first_sixteen(unreadable_offsets(log, 0)) =~= Seq::<u64>::empty());
}

/// The inspector's numbers count the committed rows, each once, by what it is:
/// the unreadable ones, with the offsets of the first of them; the tombstones;
/// the values, sound or not; and their continuations. A sound row makes an id
/// live, supersedes a value, or takes a live id away.
pub proof fn every_committed_row_is_counted_once(sb: Seq<u8>, rows: Seq<u8>)
    ensures
        ({
            let n = committed_rows(sb);
            let scan = row_scan(sb, rows);
            tallies(scan, file_log(rows, n), n, scan.live_records)
        }),
{
    let n = committed_rows(sb);
    let log = file_log(rows, n);
    nothing_walked_tallies(log);
    walk_tallies(unwalked(), log);
}

/// Where an open recovers the rows, none of them is defective, and each is a
/// sound row or the continuation of one.
pub proof fn recovered_rows_are_all_sound(sb: Seq<u8>, rows: Seq<u8>)
    ensures
        verdict_of(sb, rows) matches Verdict::Recovers { rows: n } ==> {
            let scan = row_scan(sb, rows);
            let log = file_log(rows, n as int);
            &&& n == committed_rows(sb)
            &&& 32 * n <= rows.len()
            &&& defects(scan) == 0
            &&& scan.committed_valid + scan.chunks == n
            &&& scan.superseded == rows_of(log, n as int, Some(RowKind::Update))
            &&& scan.tombstones == rows_of(log, n as int, Some(RowKind::Tombstone))
            &&& scan.chunks == rows_of(log, n as int, Some(RowKind::Chunk))
            &&& scan.live_records == rows_of(log, n as int, Some(RowKind::Record))
                - scan.tombstones
        },
{
    every_committed_row_is_counted_once(sb, rows);
    let n = committed_rows(sb);
    let log = file_log(rows, n);
    nothing_walked_tallies(log);
    walk_tallies(unwalked(), log);
    all_kinds(log, n);
}

proof fn all_kinds(log: Log, n: int)
    requires
        0 <= n,
    ensures
        rows_of(log, n, None) + rows_of(log, n, Some(RowKind::Record)) + rows_of(
            log,
            n,
            Some(RowKind::Update),
        ) + rows_of(log, n, Some(RowKind::Tombstone)) + rows_of(log, n, Some(RowKind::Chunk)) == n,
    decreases n,
{
    if n > 0 {
        all_kinds(log, n - 1);
    }
}

// ---- The inspector and a salvage ----

spec fn keeps_line(w: Walked, db: Db) -> bool {
    &&& w.at == db.kept.len()
    &&& w.seen == db.live.dom()
    &&& w.scan.tombstones == db.tombstones
    &&& w.scan.superseded + w.scan.tombstones == db.retired
    &&& w.scan.committed_valid + db.chunks + db.quarantined == db.kept.len()
}

#[verifier::spinoff_prover]
#[verifier::rlimit(40)]
proof fn walk_keeps_line(w: Walked, log: Log, db: Db)
    requires
        keeps_line(w, db),
        db.kept.len() <= log.len(),
    ensures
        keeps_line(w.walk(log), replay(log, db, true).0),
    decreases log.len() - w.at,
{
    let at = w.at;
    if at < log.len() {
        if log[at] is Some && (log[at]->0).starts_value() {
            broken_run_within(log, at, 1, (log[at]->0).more);
            if run_at(log, at) is Some {
                run_facts(log, at, 1, (log[at]->0).more);
            }
        }
        let next = w.step(log);
        match replay_step(log, db, true) {
            Step::Stop(_) => {},
            Step::Go(d) => {
                assert(next.seen =~= d.live.dom());
                walk_keeps_line(next, log, d);
            },
        }
    }
}

/// What the inspector counts is what a salvage of the same rows keeps: as many
/// ids live, tombstones, and values retired; and its sound rows are those that
/// are neither set aside nor the continuation of a value that was kept.
pub proof fn the_inspector_counts_what_a_salvage_keeps(sb: Seq<u8>, rows: Seq<u8>)
    ensures
        ({
            let scan = row_scan(sb, rows);
            let n = committed_rows(sb);
            let (db, _) = replay(file_log(rows, n), Db::empty(), true);
            &&& scan.live_records == db.live.dom().len()
            &&& scan.tombstones == db.tombstones
            &&& scan.superseded + scan.tombstones == db.retired
            &&& scan.committed_valid + db.chunks + db.quarantined == n
        }),
{
    let n = committed_rows(sb);
    let log = file_log(rows, n);
    assert(Db::empty().live.dom() =~= Set::empty());
    walk_keeps_line(unwalked(), log, Db::empty());
    nothing_walked_tallies(log);
    walk_tallies(unwalked(), log);
}

// ---- Past the committed rows ----

/// How many of the first `n` slots are all zeros.
pub open spec fn blank_slots(past: Seq<u8>, n: int) -> int
    decreases n,
{
    if n <= 0 {
        0
    } else if all_zero(past.subrange(32 * (n - 1), 32 * (n - 1) + 32)) {
        blank_slots(past, n - 1) + 1
    } else {
        blank_slots(past, n - 1)
    }
}

pub(crate) proof fn past_slots_add_up(past: Seq<u8>, n: int)
    requires
        0 <= n,
        32 * n <= past.len(),
    ensures
        readable(past, n) + rows_of(read_log(past, n), n, None) == n,
        readable(past, n) + garbage(past, n) + blank_slots(past, n) == n,
    decreases n,
{
    if n > 0 {
        past_slots_add_up(past, n - 1);
        same_rows(read_log(past, n), read_log(past, n - 1), n - 1);
        let chunk = past.subrange(32 * (n - 1), 32 * (n - 1) + 32);
        assert(read_log(past, n)[n - 1] == slot_parsed(chunk));
        if all_zero(chunk) {
            assert(chunk[24] == 0);
        }
    }
}

proof fn same_rows(a: Log, b: Log, n: int)
    requires
        n <= a.len(),
        n <= b.len(),
        forall|r: int| 0 <= r < n ==> #[trigger] a[r] == b[r],
    ensures
        rows_of(a, n, None) == rows_of(b, n, None),
    decreases n,
{
    if n > 0 {
        assert(a[n - 1] == b[n - 1]);
        same_rows(a, b, n - 1);
    }
}

/// Every whole slot past the committed rows is counted as readable or as
/// garbage, but for those that are blank.
pub proof fn every_slot_past_the_rows_is_counted_once(sb: Seq<u8>, rows: Seq<u8>)
    ensures
        ({
            let scan = row_scan(sb, rows);
            let past = past_rows(rows, committed_rows(sb));
            let n = past.len() as int / 32;
            &&& scan.orphan_valid == n - rows_of(read_log(past, n), n, None)
            &&& scan.orphan_valid + scan.orphan_invalid + blank_slots(past, n) == n
        }),
{
    let past = past_rows(rows, committed_rows(sb));
    past_slots_add_up(past, past.len() as int / 32);
}

// ---- Superblocks ----

/// Does slot `i` hold a copy that an open of this schema may trust?
pub open spec fn trusted(sb: Seq<u8>, i: int) -> bool {
    slot_state(sb, i) matches SlotState::Valid { generation, schema, in_home_pair, .. } && schema
        == SCHEMA_HASH && generation > 0 && in_home_pair
}

proof fn election_is_fair(sb: Seq<u8>, n: int)
    requires
        0 <= n <= 4,
    ensures
        match elected(sb, n) {
            None => forall|i: int| 0 <= i < n ==> !#[trigger] trusted(sb, i),
            Some(l) => {
                &&& l.slot < n
                &&& trusted(sb, l.slot as int)
                &&& l.generation == slot_state(sb, l.slot as int)->generation
                &&& l.row_count == slot_state(sb, l.slot as int)->row_count
                &&& l.schema == SCHEMA_HASH
                &&& forall|i: int| #![trigger trusted(sb, i)]
                    0 <= i < n && trusted(sb, i) ==> slot_state(sb, i)->generation <= l.generation
                        && (slot_state(sb, i)->generation == l.generation ==> l.slot <= i)
            },
        },
    decreases n,
{
    if n > 0 {
        election_is_fair(sb, n - 1);
    }
}

/// The live copy is the newest that can be trusted, and of equals the first.
/// Where none can, there is no live copy.
pub proof fn the_live_copy_is_the_newest(sb: Seq<u8>)
    ensures
        match elected(sb, 4) {
            None => forall|i: int| 0 <= i < 4 ==> !#[trigger] trusted(sb, i),
            Some(l) => {
                &&& l.slot < 4
                &&& trusted(sb, l.slot as int)
                &&& l.generation == slot_state(sb, l.slot as int)->generation
                &&& l.row_count == slot_state(sb, l.slot as int)->row_count
                &&& l.schema == SCHEMA_HASH
                &&& forall|i: int| #![trigger trusted(sb, i)]
                    0 <= i < 4 && trusted(sb, i) ==> slot_state(sb, i)->generation <= l.generation
                        && (slot_state(sb, i)->generation == l.generation ==> l.slot <= i)
            },
        },
{
    election_is_fair(sb, 4);
}

/// The slot holds the image of this copy.
pub open spec fn is_copy(
    sb: Seq<u8>,
    slot: int,
    generation: u64,
    row_count: u64,
    schema: u64,
    capacity: u64,
) -> bool {
    sb.subrange(64 * slot, 64 * slot + 64) == sb_image(generation, row_count, schema, capacity)
}

/// A superblock slot is missing if the file does not reach its end; empty if it
/// is all zeros; valid if it is the image of a copy, with that copy's numbers,
/// at home in the pair of its generation's parity; and otherwise invalid.
pub proof fn a_slot_is_what_its_bytes_are(sb: Seq<u8>, slot: int)
    requires
        0 <= slot < 4,
    ensures
        slot_state(sb, slot) is Missing <==> sb.len() < 64 * slot + 64,
        slot_state(sb, slot) is Empty <==> sb.len() >= 64 * slot + 64 && (forall|i: int|
            64 * slot <= i < 64 * slot + 64 ==> #[trigger] sb[i] == 0),
        match slot_state(sb, slot) {
            SlotState::Valid { generation, in_home_pair, .. } => sb.len() >= 64 * slot + 64
                && in_home_pair == (slot / 2 == (generation % 2) as int),
            _ => true,
        },
        match slot_state(sb, slot) {
            SlotState::Valid { generation, row_count, schema, .. } => exists|
                capacity: u64,
            | #[trigger] is_copy(sb, slot, generation, row_count, schema, capacity),
            _ => true,
        },
        slot_state(sb, slot) is Invalid ==> forall|
            generation: u64,
            row_count: u64,
            schema: u64,
            capacity: u64,
        | !#[trigger] is_copy(sb, slot, generation, row_count, schema, capacity),
{
    if let Some(chunk) = sb_chunk(sb, slot) {
        assert(chunk.take(64) =~= chunk);
        if all_zero(chunk) {
            assert forall|i: int| 64 * slot <= i < 64 * slot + 64 implies #[trigger] sb[i] == 0 by {
                assert(chunk[i - 64 * slot] == 0);
            }
        } else {
            let i = choose|i: int| 0 <= i < chunk.len() && #[trigger] chunk[i] != 0;
            assert(sb[64 * slot + i] != 0);
        }
        match slot_state(sb, slot) {
            SlotState::Valid { generation, row_count, schema, .. } => {
                let m = (sb_parsed(chunk)->0).0;
                sb_parses_its_image(chunk, m, schema);
                assert(is_copy(sb, slot, generation, row_count, schema, m.capacity));
            },
            SlotState::Invalid => {
                assert forall|generation: u64, row_count: u64, schema: u64, capacity: u64|
                    !#[trigger] is_copy(sb, slot, generation, row_count, schema, capacity) by {
                    let m = Manifest { generation, row_count, capacity };
                    sb_parses_its_image(chunk, m, schema);
                }
            },
            _ => {},
        }
    }
}

/// Files of another schema are said to be so, and to be migratable exactly if
/// they are of the schema that a migration reads; nothing else is.
pub proof fn foreign_files_are_told_apart(sb: Seq<u8>, rows: Seq<u8>)
    ensures
        match verdict_of(sb, rows) {
            Verdict::SchemaMismatch { file_schema, migratable } => {
                &&& migratable <==> file_schema == V1_SCHEMA_HASH
                &&& file_schema != SCHEMA_HASH
                &&& exists|i: int|
                    0 <= i < 4 && ((#[trigger] slot_state(sb, i)) matches SlotState::Valid {
                        schema,
                        ..
                    } && schema == file_schema)
                &&& forall|i: int| 0 <= i < 4 ==> !#[trigger] trusted(sb, i)
            },
            Verdict::FreshInit => rows.len() == 0 && (forall|i: int|
                0 <= i < 4 ==> !#[trigger] trusted(sb, i)),
            Verdict::Recovers { rows: n } => elected(sb, 4) is Some && (elected(
                sb,
                4,
            )->0).row_count == n,
            Verdict::Corrupt { .. } => rows.len() > 0 || elected(sb, 4) is Some,
        },
{
    election_is_fair(sb, 4);
    reveal_with_fuel(foreign_schema, 5);
    if let Some(f) = foreign_schema(sb, 4) {
        let i = if foreign_schema(sb, 1) == Some(f) {
            0int
        } else if foreign_schema(sb, 2) == Some(f) {
            1
        } else if foreign_schema(sb, 3) == Some(f) {
            2
        } else {
            3
        };
        assert(slot_state(sb, i) matches SlotState::Valid { schema, .. } && schema == f);
    }
}

} // verus!
