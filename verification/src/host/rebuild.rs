//! Repair by rebuilding: every row of a database that can still be read is
//! written into a fresh one.

use crate::engine::laws::{after_ops, batch_means_its_operations, contents, is_io};
use crate::engine::log::{continues, extent, live_slots, value_at, Db};
use crate::engine::model::{op_bytes, rows_for, Op, Phase, Plan, State};
use crate::engine::packing::{filled_rows, packed};
use crate::engine::tables::reads::{listed, live_values};
use crate::engine::types::{BatchOp, BatchReject, DbError, FileId, Input, Output, Reply};
use crate::host::disk::{stopped, stopped_at, Disk, Machine};
use crate::host::laws::{
    acknowledged_writes_are_on_file, begun, commit_so_far, midway, settled, write_begins,
};
use crate::host::medium::safe;
use crate::host::{failed, failed_is_stopped, Host, Storage};
use vstd::prelude::*;

verus! {

/// The row that could not be written, and why.
#[derive(Debug, Clone, Copy, PartialEq, Eq)]
pub struct RebuildError {
    pub id: u64,
    pub error: DbError,
}

/// The contents that the first `n` entries of a list amount to.
pub open spec fn entered(entries: Seq<(u64, Seq<u8>)>, n: int) -> Map<u64, Seq<u8>>
    decreases n,
{
    if n <= 0 {
        Map::empty()
    } else {
        entered(entries, n - 1).insert(entries[n - 1].0, entries[n - 1].1)
    }
}

/// The rows that the first `n` of them take.
pub open spec fn rows_of(entries: Seq<(u64, Seq<u8>)>, n: int) -> int
    decreases n,
{
    if n <= 0 {
        0
    } else {
        rows_of(entries, n - 1) + rows_for(entries[n - 1].1.len() as int)
    }
}

proof fn prefix_same(a: Seq<(u64, Seq<u8>)>, b: Seq<(u64, Seq<u8>)>, n: int)
    requires
        n <= a.len(),
        n <= b.len(),
        forall|i: int| 0 <= i < n ==> #[trigger] a[i] == b[i],
    ensures
        entered(a, n) == entered(b, n),
        rows_of(a, n) == rows_of(b, n),
    decreases n,
{
    if n > 0 {
        prefix_same(a, b, n - 1);
        assert(a[n - 1] == b[n - 1]);
    }
}

/// The end of the last live value that starts in the first `n` rows.
spec fn reach(db: Db, n: int) -> int
    decreases n,
{
    if n <= 0 {
        0
    } else if db.is_live(n - 1) {
        n - 1 + extent(db.kept, n - 1)
    } else {
        reach(db, n - 1)
    }
}

proof fn live_head(db: Db, r: int)
    requires
        db.wf(),
        db.is_live(r),
    ensures
        db.holds(r),
        value_at(db.kept, r).len() <= 16 * extent(db.kept, r),
{
    let id = (db.kept[r]->0).id;
    assert(db.live.contains_key(id) && db.bound.contains_key(id));
    assert(db.heads(db.bound[id] as int, id));
    assert(db.values.contains_key(r));
}

/// Live values do not overlap.
proof fn reach_stops(db: Db, n: int, r: int)
    requires
        db.wf(),
        0 <= n <= r,
        db.is_live(r),
    ensures
        reach(db, n) <= r,
    decreases n,
{
    if n > 0 {
        if db.is_live(n - 1) {
            live_head(db, n - 1);
            live_head(db, r);
            if n - 1 + extent(db.kept, n - 1) > r {
                assert(continues(db.kept, n - 1 + (r - (n - 1)), (db.kept[n - 1]->0).id));
            }
        } else {
            reach_stops(db, n - 1, r);
        }
    }
}

/// What the list of live rows holds: each live id once, with its value, in no
/// more rows than the log has.
proof fn live_entries(db: Db, n: int)
    requires
        db.wf(),
        0 <= n <= db.kept.len(),
    ensures
        ({
            let e = live_values(db, n);
            &&& forall|i: int|
                0 <= i < e.len() ==> {
                    &&& db.live.contains_key((#[trigger] e[i]).0)
                    &&& db.live[e[i].0] < n
                    &&& e[i].1.len() <= 2048
                }
            &&& forall|i: int, j: int| 0 <= i < j < e.len() ==> (#[trigger] e[i]).0 != (#[trigger] e[j]).0
            &&& forall|id: u64| #[trigger]
                entered(e, e.len() as int).contains_key(id) <==> db.live.contains_key(id)
                    && db.live[id] < n
            &&& forall|id: u64| #[trigger]
                entered(e, e.len() as int).contains_key(id) ==> entered(e, e.len() as int)[id]
                    == value_at(db.kept, db.live[id] as int)
            &&& rows_of(e, e.len() as int) <= reach(db, n) <= db.kept.len()
            &&& e.len() <= n
        }),
    decreases n,
{
    if n > 0 {
        live_entries(db, n - 1);
        let before = live_values(db, n - 1);
        let e = live_values(db, n);
        if db.is_live(n - 1) {
            live_head(db, n - 1);
            reach_stops(db, n - 1, n - 1);
            prefix_same(e, before, before.len() as int);
            let id = (db.kept[n - 1]->0).id;
            assert(e.last() == (id, value_at(db.kept, n - 1)));
            assert forall|i: int, j: int| 0 <= i < j < e.len() implies (#[trigger] e[i]).0 != (
            #[trigger] e[j]).0 by {
                assert(e[i] == before[i]);
                if j < before.len() {
                    assert(e[j] == before[j]);
                }
            }
            assert forall|i: int| 0 <= i < e.len() implies {
                &&& db.live.contains_key((#[trigger] e[i]).0)
                &&& db.live[e[i].0] < n
                &&& e[i].1.len() <= 2048
            } by {
                if i < before.len() {
                    assert(e[i] == before[i]);
                }
            }
        } else {
            assert forall|id: u64| db.live.contains_key(id) && db.live[id] < n implies #[trigger] db.live[id]
                < n - 1 by {
                if db.live[id] == n - 1 {
                    assert(db.bound.contains_key(id));
                    assert(db.heads(db.bound[id] as int, id));
                }
            }
        }
    }
}

/// A list of a database's live rows is its contents.
pub proof fn live_rows_are_the_contents(db: Db)
    requires
        db.wf(),
    ensures
        ({
            let e = live_values(db, db.kept.len() as int);
            &&& entered(e, e.len() as int) == contents(db)
            &&& rows_of(e, e.len() as int) <= db.kept.len()
        }),
{
    let n = db.kept.len() as int;
    let e = live_values(db, n);
    live_entries(db, n);
    assert forall|id: u64| db.live.contains_key(id) implies #[trigger] db.live[id] < n by {
        assert(db.bound.contains_key(id));
        assert(db.heads(db.bound[id] as int, id));
    }
    assert(entered(e, e.len() as int) =~= contents(db));
}

proof fn entered_has(entries: Seq<(u64, Seq<u8>)>, n: int, id: u64)
    requires
        0 <= n <= entries.len(),
        entered(entries, n).contains_key(id),
    ensures
        exists|i: int| 0 <= i < n && (#[trigger] entries[i]).0 == id,
    decreases n,
{
    if n > 0 {
        if entries[n - 1].0 != id {
            entered_has(entries, n - 1, id);
        }
    }
}

proof fn rows_add_up(entries: Seq<(u64, Seq<u8>)>, m: int, n: int)
    requires
        0 <= m <= n,
    ensures
        rows_of(entries, m) <= rows_of(entries, n),
    decreases n,
{
    if m < n {
        rows_add_up(entries, m, n - 1);
    }
}

/// Writing one more row of a list.
#[verifier::spinoff_prover]
proof fn one_more_row(s: State, disk: Disk, ops: Seq<BatchOp>, id: u64, bytes: Seq<u8>)
    requires
        s.ok(),
        s.phase is Ready,
        s.generation < u64::MAX,
        settled(disk, s),
        ops.len() == 1,
        ops[0] is Insert,
        ops[0]->Insert_id == id,
        op_bytes(ops[0]) == bytes,
        bytes.len() <= 2048,
        s.row_count + rows_for(bytes.len() as int) <= s.caps,
        !s.db.live.contains_key(id),
    ensures
        ({
            let (t, first) = s.batch(ops);
            let next = t.commit().0;
            &&& is_io(first)
            &&& t.op == Op::Batch
            &&& t.slots.len() == rows_for(bytes.len() as int)
            &&& next.phase is Ready
            &&& next.caps == s.caps
            &&& next.generation == s.generation + 1
            &&& next.row_count == s.row_count + rows_for(bytes.len() as int)
            &&& contents(next.db) == contents(s.db).insert(id, bytes)
        }),
{
    let fresh = Plan { effects: Seq::empty(), slots: Seq::empty(), live: s.db.live };
    assert(s.planned(ops, 0) == Ok::<Plan, BatchReject>(fresh));
    let p = fresh.store(s.row_count, id, bytes, rows_for(bytes.len() as int));
    assert(s.plan_op(fresh, ops[0]) == Ok::<Plan, DbError>(p));
    assert(s.planned(ops, 1) == Ok::<Plan, BatchReject>(p));
    batch_means_its_operations(s, ops);
    assert(after_ops(contents(s.db), ops, 0) == contents(s.db));
    assert(after_ops(contents(s.db), ops, 1) == contents(s.db).insert(id, bytes));
}

/// In a packed database the live values take exactly the rows that a rebuild
/// writes for them.
proof fn rows_of_packed(db: Db, n: int)
    requires
        db.wf(),
        packed(db),
        0 <= n <= db.kept.len(),
    ensures
        rows_of(live_values(db, n), live_values(db, n).len() as int) == live_slots(db, n),
    decreases n,
{
    if n > 0 {
        rows_of_packed(db, n - 1);
        let before = live_values(db, n - 1);
        let e = live_values(db, n);
        if db.is_live(n - 1) {
            live_head(db, n - 1);
            let id = (db.kept[n - 1]->0).id;
            assert(db.bound.contains_key(id) && db.heads(db.bound[id] as int, id));
            filled_rows(db, n - 1);
            prefix_same(e, before, before.len() as int);
        }
    }
}

/// The dead rows are exactly what a rebuild reclaims: what it writes is the
/// rows that there are, less those set aside, less the dead. For every database
/// whose values fill their rows, as all do that this engine wrote.
pub proof fn a_rebuild_reclaims_the_dead(db: Db)
    requires
        db.wf(),
        packed(db),
    ensures
        ({
            let e = live_values(db, db.kept.len() as int);
            rows_of(e, e.len() as int) == db.kept.len() - db.quarantined - db.dead()
        }),
{
    rows_of_packed(db, db.kept.len() as int);
}

/// A commit of a batch that a failing request stopped says so: the engine fails
/// with the error that it answers, and holds what it held before.
proof fn stopped_commit_says_so(s: State, disk: Disk, first: Reply, end: (Machine, Reply))
    requires
        begun(s, disk),
        midway(s, disk, (Machine::Engine(s), first, disk)),
        s.op == Op::Batch,
        stopped(Machine::Engine(s), first, disk, end),
    ensures
        end.1 matches Reply::BatchDone { result: Err(reject), .. } && reject.error is IoFailed && end.0
            is Engine && (end.0->Engine_0).phase == Phase::Failed(reject.error) && (
        end.0->Engine_0).db == s.db,
{
    let m = Machine::Engine(s);
    let k = choose|k: nat| #[trigger] stopped_at(m, first, disk, k, end);
    commit_so_far(s, disk, first, k);
}

/// The row that was refused: the first of the source's live rows that `dest`
/// does not hold, its storage having failed.
pub open spec fn refused_at(source: Db, dest: Db, e: RebuildError) -> bool {
    let entries = live_values(source, source.kept.len() as int);
    &&& e.error is IoFailed
    &&& exists|i: int|
        {
            &&& 0 <= i < entries.len()
            &&& (#[trigger] entries[i]).0 == e.id
            &&& contents(dest) == entered(entries, i)
        }
}

/// All of the superblock and of the rows is on the medium.
pub open spec fn on_medium<S: Storage>(storage: S) -> bool {
    &&& safe(storage.medium(), FileId::Superblock)
    &&& safe(storage.medium(), FileId::Rows)
}

/// Write every readable row of `source` into the empty database `dest`. The
/// result is the number of rows written, and the number of rows that the source
/// had set aside.
pub fn rebuild<S: Storage, T: Storage>(source: &Host<S>, dest: &mut Host<T>) -> (res: Result<
    (u64, u64),
    RebuildError,
>)
    requires
        source.inv(),
        source.engine@.phase is Ready || source.engine@.phase is Degraded,
        old(dest).inv(),
        old(dest).engine@.phase is Ready,
        old(dest).engine@.row_count == 0,
        contents(old(dest).engine@.db) == Map::<u64, Seq<u8>>::empty(),
        settled(old(dest).storage.medium().disk, old(dest).engine@),
        source.engine@.row_count <= old(dest).engine@.caps,
        old(dest).engine@.generation + source.engine@.row_count < u64::MAX,
    ensures
        final(dest).inv(),
        T::never_fails() ==> res is Ok,
        match res {
            Ok((written, dropped)) => {
                &&& written == source.engine@.db.live.dom().len()
                &&& dropped == source.engine@.db.quarantined
                &&& final(dest).engine@.phase is Ready
                &&& contents(final(dest).engine@.db) == contents(source.engine@.db)
                &&& settled(final(dest).storage.medium().disk, final(dest).engine@)
                &&& written > 0 ==> on_medium(final(dest).storage)
                &&& packed(source.engine@.db) ==> final(dest).engine@.row_count
                    == source.engine@.row_count - source.engine@.db.quarantined
                    - source.engine@.db.dead()
            },
            Err(e) => {
                &&& final(dest).last_error is Some
                &&& final(dest).engine@.phase == Phase::Failed(e.error)
                &&& refused_at(source.engine@.db, final(dest).engine@.db, e)
            },
        },
{
    let rows = source.engine.live_rows();
    let ghost db = source.engine@.db;
    let ghost e = live_values(db, db.kept.len() as int);
    let dropped: u64 = source.engine.quarantined();
    let written: u64 = source.engine.live_count();
    proof {
        source.engine.facts();
        live_rows_are_the_contents(db);
        live_entries(db, db.kept.len() as int);
        if packed(db) {
            a_rebuild_reclaims_the_dead(db);
        }
    }
    let mut i: usize = 0;
    while i < rows.len()
        invariant
            i <= rows@.len(),
            listed(rows@, e),
            e.len() <= source.engine@.row_count,
            rows_of(e, e.len() as int) <= source.engine@.row_count,
            forall|j: int| 0 <= j < e.len() ==> (#[trigger] e[j]).1.len() <= 2048,
            forall|j: int, k: int|
                0 <= j < k < e.len() ==> (#[trigger] e[j]).0 != (#[trigger] e[k]).0,
            db == source.engine@.db,
            e == live_values(db, db.kept.len() as int),
            dest.inv(),
            dest.engine@.phase is Ready,
            dest.engine@.caps == old(dest).engine@.caps,
            dest.engine@.generation == old(dest).engine@.generation + i,
            dest.engine@.row_count == rows_of(e, i as int),
            source.engine@.row_count <= old(dest).engine@.caps,
            old(dest).engine@.generation + source.engine@.row_count < u64::MAX,
            contents(dest.engine@.db) == entered(e, i as int),
            settled(dest.storage.medium().disk, dest.engine@),
            i > 0 ==> on_medium(dest.storage),
        decreases rows@.len() - i,
    {
        let id: u64 = rows[i].0;
        let mut ops: Vec<BatchOp> = Vec::new();
        ops.push(BatchOp::Insert { id, value: rows[i].1.as_slice() });
        let ghost s = dest.engine@;
        let ghost from = dest.storage;
        let ghost disk = dest.storage.medium().disk;
        let ghost bytes = e[i as int].1;
        let input = Input::Batch { ops: ops.as_slice() };
        proof {
            dest.engine.facts();
            rows_add_up(e, i + 1, e.len() as int);
            assert(rows@[i as int].0 == e[i as int].0 && rows@[i as int].1@ == e[i as int].1);
            if s.db.live.contains_key(id) {
                assert(contents(s.db).contains_key(id));
                entered_has(e, i as int, id);
            }
            one_more_row(s, disk, ops@, id, bytes);
            write_begins(s, disk, input);
            acknowledged_writes_are_on_file(s, disk, input);
        }
        let out = dest.submit(input);
        proof {
            let (t, first) = s.step(input);
            let end = (Machine::Engine(dest.engine@), out@);
            if failed(Machine::Engine(t), first, from, end, dest.storage, dest.last_error) {
                failed_is_stopped(
                    Machine::Engine(t),
                    first,
                    from,
                    end,
                    dest.storage,
                    dest.last_error,
                );
                stopped_commit_says_so(t, disk, first, end);
            }
        }
        match out {
            Output::BatchDone { result: Ok(()), .. } => {},
            Output::BatchDone { result: Err(reject), .. } => {
                assert(e[i as int].0 == id && contents(dest.engine@.db) == entered(e, i as int));
                return Err(RebuildError { id, error: reject.error });
            },
            _ => {
                assert(false);
                return Err(RebuildError { id, error: DbError::NotOpen });
            },
        }
        i = i + 1;
    }
    proof {
        if e.len() == 0 {
            assert(db.live.dom() =~= Set::empty()) by {
                assert forall|id: u64| !db.live.contains_key(id) by {
                    assert(contents(db).contains_key(id) == db.live.contains_key(id));
                }
            }
        }
    }
    Ok((written, dropped))
}

} // verus!
