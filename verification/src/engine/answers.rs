//! What an open database answers, in terms of what it holds: reads show the
//! contents, and writes change them or are refused, each for its own reason.

use crate::engine::commit::planned_ok;
use crate::engine::laws::{
    after_ops, batch_means_its_operations, contents, error_of, is_io,
    single_writes_mean_what_they_say,
};
use crate::engine::log::{applied, bytes_of, extent, value_at, Db, Log};
use crate::engine::model::{
    contains, hits, ids_between, is_hit, min, op_key, row_view, spanned, window, Phase, Plan,
    State,
};
use crate::engine::packing::{fills, filled_rows, full_rows, row_is_there};
use crate::engine::queries::{find_is_exact, range_is_exact, stands_at};
use crate::engine::tables::reads::live_values;
use crate::engine::types::{
    BatchOp, BatchReject, DbError, FileId, Input, Reply, RowView, WindowView,
};
use crate::trigram::FindCursor;
use vstd::prelude::*;

verus! {

/// The rows of a value in front of row `m` are a prefix of it.
proof fn rows_in_front(log: Log, h: int, k: int, m: int)
    requires
        0 <= k <= m,
    ensures
        bytes_of(log, h, k).len() <= bytes_of(log, h, m).len(),
        bytes_of(log, h, m).take(bytes_of(log, h, k).len() as int) == bytes_of(log, h, k),
    decreases m - k,
{
    let a = bytes_of(log, h, k);
    if k < m {
        rows_in_front(log, h, k, m - 1);
        let b = bytes_of(log, h, m - 1);
        assert(bytes_of(log, h, m).take(a.len() as int) =~= b.take(a.len() as int));
    } else {
        assert(a.take(a.len() as int) =~= a);
    }
}

/// A live id's value starts in the row that it is live in.
proof fn live_row(db: Db, id: u64)
    requires
        db.wf(),
        db.live.contains_key(id),
    ensures
        ({
            let h = db.live[id] as int;
            &&& db.values.contains_key(h)
            &&& db.holds(h)
            &&& (db.kept[h]->0).id == id
            &&& contents(db).contains_key(id)
            &&& contents(db)[id] == value_at(db.kept, h)
            &&& contents(db)[id].len() <= 2048
        }),
{
    assert(db.bound.contains_key(id) && db.heads(db.bound[id] as int, id));
    assert(db.holds(db.live[id] as int));
}

/// Row `k` of a value that fills its rows holds the sixteen bytes from byte
/// `16 * k` on, or those that there are.
proof fn row_of_value(db: Db, h: int, k: int)
    requires
        db.wf(),
        db.values.contains_key(h),
        fills(db.kept, h),
        0 <= k < extent(db.kept, h),
    ensures
        ({
            let v = value_at(db.kept, h);
            let slot = db.kept[h + k]->0;
            &&& 16 * k <= v.len()
            &&& slot.len <= 16
            &&& slot.value.len() == 16
            &&& slot.value.take(slot.len as int) == v.subrange(
                16 * k,
                min(16 * k + 16, v.len() as int),
            )
        }),
{
    let n = extent(db.kept, h);
    let v = value_at(db.kept, h);
    let slot = db.kept[h + k]->0;
    assert(db.holds(h));
    filled_rows(db, h);
    full_rows(db, h, k);
    row_is_there(db, h, k);
    rows_in_front(db.kept, h, k, n);
    rows_in_front(db.kept, h, k + 1, n);
    assert(bytes_of(db.kept, h, k + 1) == bytes_of(db.kept, h, k) + slot.payload());
    if k < n - 1 {
        assert((db.kept[h + k]->0).len == 16);
    }
    assert(slot.payload() == slot.value.take(slot.len as int));
    assert(v.subrange(16 * k, 16 * k + slot.len) =~= v.take(16 * k + slot.len).skip(16 * k));
    assert(bytes_of(db.kept, h, k + 1).skip(16 * k) =~= slot.payload());
}

// ---- One value ----

/// The window shows the value from its offset on: sixteen bytes, or as many as
/// there are; and how long the whole is.
pub open spec fn shows_from(w: WindowView, value: Seq<u8>) -> bool {
    &&& w.total == value.len()
    &&& w.len <= 16
    &&& w.bytes.len() == 16
    &&& w.bytes.take(w.len as int) == value.subrange(
        min(w.offset as int, value.len() as int),
        min(w.offset + 16, value.len() as int),
    )
}

/// Reading an id that is there shows its value from the offset on. Reading one
/// that is not there finds nothing; unless rows were set aside, since it may
/// have been in one of those. A read without an offset begins at the front.
pub proof fn a_get_shows_the_contents(s: State, id: u64, offset: u32)
    requires
        s.ok(),
        s.phase is Ready || s.phase is Degraded,
        offset % 16 == 0,
        s.db.live.contains_key(id) ==> fills(s.db.kept, s.db.live[id] as int),
    ensures
        s.step(Input::Get { id }) == s.step(Input::GetFrom { id, offset: 0 }),
        match s.step(Input::GetFrom { id, offset }).1 {
            Reply::GetDone { id: about, result } => about == id && match result {
                Ok(Some(w)) => {
                    &&& contents(s.db).contains_key(id)
                    &&& w.offset == offset
                    &&& shows_from(w, contents(s.db)[id])
                },
                Ok(None) => !contents(s.db).contains_key(id) && s.db.quarantined == 0,
                Err(e) => {
                    &&& !contents(s.db).contains_key(id)
                    &&& s.db.quarantined > 0
                    &&& e == DbError::Degraded { quarantined: s.db.quarantined as u64 }
                },
            },
            _ => false,
        },
{
    if s.db.live.contains_key(id) {
        live_row(s.db, id);
        let h = s.db.live[id] as int;
        let k = offset as int / 16;
        let n = extent(s.db.kept, h);
        if k < n {
            row_of_value(s.db, h, k);
        } else {
            let v = value_at(s.db.kept, h);
            assert(v.len() <= 16 * n);
            let w = window(s.db.kept, h, offset);
            assert(w.bytes.take(0) =~= v.subrange(v.len() as int, v.len() as int));
        }
    }
}

// ---- Pages ----

/// The item is about a live id: it has the length of the id's value, and the
/// value's first bytes, as many as fit a row. It gives the value itself exactly
/// where the whole of it fits.
pub open spec fn shows(db: Db, item: RowView) -> bool {
    let value = contents(db)[item.id];
    &&& contents(db).contains_key(item.id)
    &&& item.len == value.len()
    &&& item.head.len() == 16
    &&& fills(db.kept, db.live[item.id] as int) ==> {
        &&& item.head.take(min(16, value.len() as int)) == value.take(min(16, value.len() as int))
        &&& item.whole() == if value.len() <= 16 {
            Some(value)
        } else {
            None
        }
    }
}

proof fn row_view_shows(db: Db, id: u64)
    requires
        db.wf(),
        db.live.contains_key(id),
    ensures
        shows(db, row_view(db.kept, db.live[id] as int)),
        row_view(db.kept, db.live[id] as int).id == id,
{
    let h = db.live[id] as int;
    let item = row_view(db.kept, h);
    let value = contents(db)[id];
    live_row(db, id);
    row_is_there(db, h, 0);
    if fills(db.kept, h) {
        let m = min(16, value.len() as int);
        row_of_value(db, h, 0);
        filled_rows(db, h);
        assert(value.take(m) =~= value.subrange(0, m));
        if extent(db.kept, h) > 1 {
            assert((db.kept[h + 0]->0).len == 16);
            row_is_there(db, h, extent(db.kept, h) - 1);
        }
        assert(item.head.take(m) == value.take(m));
        if value.len() <= 16 {
            assert(value.take(m) =~= value);
        }
    }
}

/// A page of a range shows the live ids of the range in ascending order, from
/// the lowest on, each with its value, eight at most. If there are more it is
/// full, and names the next of them.
pub proof fn a_range_page_shows_the_contents(s: State, lo: u64, hi: u64)
    requires
        s.ok(),
        s.phase is Ready || s.phase is Degraded,
    ensures
        s.step(Input::Range { lo, hi }).1 matches Reply::RangeDone { result: Ok(p) } && {
            &&& p.count <= 8
            &&& p.items.len() == 8
            &&& p.incomplete == (s.db.quarantined > 0)
            &&& forall|i: int|
                0 <= i < p.count ==> shows(s.db, #[trigger] p.items[i]) && lo <= p.items[i].id <= hi
            &&& forall|i: int, j: int|
                0 <= i < j < p.count ==> (#[trigger] p.items[i]).id < (#[trigger] p.items[j]).id
            &&& forall|id: u64| #[trigger]
                contents(s.db).contains_key(id) && lo <= id <= hi ==> (exists|i: int|
                    0 <= i < p.count && (#[trigger] p.items[i]).id == id) || (p.next is Some
                    && id >= p.next->0)
            &&& p.next is Some ==> {
                &&& p.count == 8
                &&& contents(s.db).contains_key(p.next->0)
                &&& p.items[7].id < p.next->0 <= hi
            }
        },
{
    let ids = ids_between(s.db.live, lo as int, hi as int);
    range_is_exact(s.db.live, lo as int, hi as int);
    let p = s.range(lo, hi)->RangeDone_result->Ok_0;
    let n = min(ids.len() as int, 8);
    assert forall|i: int| 0 <= i < p.count implies shows(s.db, #[trigger] p.items[i]) && lo
        <= p.items[i].id <= hi && p.items[i].id == ids[i] by {
        row_view_shows(s.db, ids[i]);
        let rows = ids.take(n).map_values(|id: u64| s.db.live[id]);
        assert(rows[i] == s.db.live[ids[i]]);
    }
    assert forall|id: u64| #[trigger]
        contents(s.db).contains_key(id) && lo <= id <= hi implies (exists|i: int|
        0 <= i < p.count && (#[trigger] p.items[i]).id == id) || (p.next is Some && id
        >= p.next->0) by {
        assert(s.db.live.contains_key(id));
        let i = choose|i: int| 0 <= i < ids.len() && ids[i] == id;
        if i < 8 {
            assert(p.items[i].id == id);
        } else {
            assert(ids[8] <= ids[i]);
        }
    }
}

/// The rows of a search's hits are those of live ids whose values contain the
/// needle.
proof fn hit_is_live(db: Db, needle: Seq<u8>, row: int)
    requires
        db.wf(),
        is_hit(db, needle, row),
    ensures
        ({
            let id = (db.kept[row]->0).id;
            &&& db.live.contains_key(id)
            &&& db.live[id] == row
            &&& contents(db).contains_key(id)
            &&& contains(contents(db)[id], needle)
        }),
{
}

/// A page of a search shows live ids whose values contain the needle, newest
/// first, all of them older than where the search stood, each with its value,
/// eight at most; and every one of them, unless it is full and goes on behind
/// its last.
pub proof fn a_find_page_shows_the_contents(
    s: State,
    needle: [u8; 16],
    needle_len: u8,
    after: Option<FindCursor>,
    bar: int,
)
    requires
        s.ok(),
        s.phase is Ready || s.phase is Degraded,
        needle_len <= 16,
        stands_at(s.db, needle@.take(needle_len as int), after, bar),
    ensures
        s.step(Input::Find { needle, needle_len, after }).1 matches Reply::FindDone {
            result: Ok(p),
        } && {
            let wanted = needle@.take(needle_len as int);
            &&& p.count <= 8
            &&& p.items.len() == 8
            &&& p.incomplete == (s.db.quarantined > 0)
            &&& forall|i: int|
                0 <= i < p.count ==> shows(s.db, #[trigger] p.items[i]) && contains(
                    contents(s.db)[p.items[i].id],
                    wanted,
                ) && s.db.live[p.items[i].id] < bar
            &&& forall|i: int, j: int|
                0 <= i < j < p.count ==> s.db.live[(#[trigger] p.items[i]).id]
                    > s.db.live[(#[trigger] p.items[j]).id]
            &&& forall|id: u64| #[trigger]
                contents(s.db).contains_key(id) && contains(contents(s.db)[id], wanted)
                    && s.db.live[id] < bar ==> (exists|i: int|
                    0 <= i < p.count && (#[trigger] p.items[i]).id == id) || (p.next is Some
                    && s.db.live[id] < s.db.live[p.items[7].id])
            &&& p.next is Some ==> p.count == 8 && stands_at(
                s.db,
                wanted,
                p.next,
                s.db.live[p.items[7].id] as int,
            )
        },
{
    let db = s.db;
    let wanted = needle@.take(needle_len as int);
    find_is_exact(db, wanted, after, bar);
    let h = hits(db, wanted, after);
    let p = s.find(wanted, after).1->FindDone_result->Ok_0;
    assert forall|i: int| 0 <= i < p.count implies shows(db, #[trigger] p.items[i]) && contains(
        contents(db)[p.items[i].id],
        wanted,
    ) && db.live[p.items[i].id] == h.rows[i] by {
        let row = h.rows[i] as int;
        assert(is_hit(db, wanted, row));
        hit_is_live(db, wanted, row);
        row_view_shows(db, (db.kept[row]->0).id);
    }
    assert forall|id: u64| #[trigger]
        contents(db).contains_key(id) && contains(contents(db)[id], wanted) && db.live[id]
            < bar implies (exists|i: int| 0 <= i < p.count && (#[trigger] p.items[i]).id == id) || (
    p.next is Some && db.live[id] < db.live[p.items[7].id]) by {
        live_row(db, id);
        let x = db.live[id] as int;
        assert(is_hit(db, wanted, x));
        if h.rows.contains(x as u64) {
            let i = choose|i: int| 0 <= i < h.rows.len() && h.rows[i] == x as u64;
            assert(p.items[i] == row_view(db.kept, x));
            assert(p.items[i].id == id);
        }
    }
}

// ---- Writes ----

/// The rows that a value of this length takes: one for every sixteen bytes that
/// it has or has begun, and one if it has none.
pub open spec fn rows_taken(len: int) -> int {
    if len == 0 {
        1
    } else {
        (len + 15) / 16
    }
}

/// The rows that an operation writes, given the contents that it finds.
pub open spec fn rows_needed(m: Map<u64, Seq<u8>>, op: BatchOp) -> int {
    match op {
        BatchOp::Insert { value, .. } => rows_taken(value@.len() as int),
        BatchOp::Update { value, .. } => rows_taken(value@.len() as int),
        BatchOp::Put { value, .. } => rows_taken(value@.len() as int),
        BatchOp::Delete { .. } => 1,
        BatchOp::Remove { id } => if m.contains_key(id) {
            1
        } else {
            0
        },
    }
}

/// The rows that the first `n` operations write.
pub open spec fn rows_needed_all(m: Map<u64, Seq<u8>>, ops: Seq<BatchOp>, n: int) -> int
    decreases n,
{
    if n <= 0 {
        0
    } else {
        rows_needed_all(m, ops, n - 1) + rows_needed(after_ops(m, ops, n - 1), ops[n - 1])
    }
}

/// What an id must be for the operation: absent, there, or either.
pub open spec fn id_objection(m: Map<u64, Seq<u8>>, op: BatchOp) -> Option<DbError> {
    match op {
        BatchOp::Insert { id, .. } => if m.contains_key(id) {
            Some(DbError::DuplicateId { id })
        } else {
            None
        },
        BatchOp::Update { id, .. } => if m.contains_key(id) {
            None
        } else {
            Some(DbError::NotFound { id })
        },
        BatchOp::Delete { id } => if m.contains_key(id) {
            None
        } else {
            Some(DbError::NotFound { id })
        },
        BatchOp::Put { .. } | BatchOp::Remove { .. } => None,
    }
}

/// Does the operation write a value, and how long is it?
pub open spec fn value_len(op: BatchOp) -> int {
    match op {
        BatchOp::Insert { value, .. } => value@.len() as int,
        BatchOp::Update { value, .. } => value@.len() as int,
        BatchOp::Put { value, .. } => value@.len() as int,
        _ => 0,
    }
}

/// Why an operation cannot be carried out on these contents, behind `used` rows
/// of the same commit: its value is longer than a commit, its id is not as it
/// must be, the table has no room, or the commit has none.
pub open spec fn objection(
    s: State,
    m: Map<u64, Seq<u8>>,
    used: int,
    op: BatchOp,
) -> Option<DbError> {
    let need = rows_needed(m, op);
    if value_len(op) > 2048 {
        Some(DbError::ValueTooLong { len: value_len(op) as u32, max: 2048 })
    } else if id_objection(m, op) is Some {
        id_objection(m, op)
    } else if need == 0 {
        None
    } else if s.row_count + used + need > s.caps {
        Some(DbError::Full { entity: "records", capacity: s.caps, dead: s.db.dead() as u64 })
    } else if used + need > 128 {
        Some(DbError::BatchTooLong { rows: (used + need) as u64, max: 128 })
    } else {
        None
    }
}

/// Why the operation at `k` cannot be carried out behind those in front of it.
pub open spec fn objection_at(s: State, ops: Seq<BatchOp>, k: int) -> Option<DbError> {
    let m = contents(s.db);
    objection(s, after_ops(m, ops, k), rows_needed_all(m, ops, k), ops[k])
}

proof fn plan_follows(s: State, ops: Seq<BatchOp>, n: int)
    requires
        0 <= n <= ops.len() <= 128,
        forall|k: int| 0 <= k < n ==> (#[trigger] objection_at(s, ops, k)) is None,
    ensures
        s.planned(ops, n) matches Ok(p) && {
            &&& p.slots.len() == rows_needed_all(contents(s.db), ops, n)
            &&& p.live.dom() == after_ops(contents(s.db), ops, n).dom()
            &&& p.effects.len() == 0 <==> p.slots.len() == 0
        },
    decreases n,
{
    let m = contents(s.db);
    if n > 0 {
        plan_follows(s, ops, n - 1);
        let p = s.planned(ops, n - 1)->Ok_0;
        let op = ops[n - 1];
        assert(objection_at(s, ops, n - 1) is None);
        let before = after_ops(m, ops, n - 1);
        assert(p.live.contains_key(op_key(op)) == before.contains_key(op_key(op))) by {
            assert(p.live.dom().contains(op_key(op)) == before.dom().contains(op_key(op)));
        }
        let q = s.plan_op(p, op)->Ok_0;
        assert(q.live.dom() =~= after_ops(m, ops, n).dom());
    } else {
        assert(s.db.live.dom() =~= m.dom());
    }
}

proof fn objecting_stops(s: State, ops: Seq<BatchOp>, at: int, n: int)
    requires
        0 <= at < n <= ops.len() <= 128,
        forall|k: int| 0 <= k < at ==> (#[trigger] objection_at(s, ops, k)) is None,
        objection_at(s, ops, at) is Some,
    ensures
        s.planned(ops, n) == Err::<Plan, BatchReject>(
            BatchReject { at: at as u16, error: objection_at(s, ops, at)->0 },
        ),
    decreases n,
{
    if at < n - 1 {
        objecting_stops(s, ops, at, n - 1);
    } else {
        plan_follows(s, ops, at);
        let p = s.planned(ops, at)->Ok_0;
        let op = ops[at];
        let before = after_ops(contents(s.db), ops, at);
        assert(p.live.contains_key(op_key(op)) == before.contains_key(op_key(op))) by {
            assert(p.live.dom().contains(op_key(op)) == before.dom().contains(op_key(op)));
        }
    }
}

/// A batch to which no operation objects goes through: its operations are
/// carried out in turn, and the answer says how many rows they took.
pub proof fn a_batch_without_objection_goes_through(s: State, ops: &[BatchOp])
    requires
        s.ok(),
        s.phase is Ready,
        s.accepts(Input::Batch { ops }),
        ops@.len() <= 128,
        forall|k: int| 0 <= k < ops@.len() ==> (#[trigger] objection_at(s, ops@, k)) is None,
    ensures
        ({
            let (t, reply) = s.step(Input::Batch { ops });
            let n = ops@.len() as int;
            let rows = rows_needed_all(contents(s.db), ops@, n);
            let done = Reply::BatchDone { rows: rows as u64, result: Ok(()) };
            if rows == 0 {
                t == s && reply == done && contents(s.db) == after_ops(contents(s.db), ops@, n)
            } else {
                &&& is_io(reply)
                &&& t.commit().1 == done
                &&& contents(t.commit().0.db) == after_ops(contents(s.db), ops@, n)
                &&& t.commit().0.row_count == s.row_count + rows
            }
        }),
{
    let n = ops@.len() as int;
    plan_follows(s, ops@, n);
    planned_ok(s, ops@, n);
    batch_means_its_operations(s, ops@);
    let p = s.planned(ops@, n)->Ok_0;
    assert(spanned(p.slots).len() == p.slots.len());
    if p.slots.len() == 0 {
        assert(applied(s.db, p.effects, spanned(p.slots)) == s.db);
    }
}

/// A batch is refused for the first operation that objects, with that objection
/// and that operation's place; and one that is too long, for its length. It
/// leaves everything as it was.
pub proof fn a_batch_is_refused_for_its_first_objection(s: State, ops: &[BatchOp], at: int)
    requires
        s.ok(),
        s.phase is Ready,
        s.accepts(Input::Batch { ops }),
        0 <= at < ops@.len(),
        ops@.len() > 128 || objection_at(s, ops@, at) is Some && forall|k: int|
            0 <= k < at ==> (#[trigger] objection_at(s, ops@, k)) is None,
    ensures
        s.step(Input::Batch { ops }) == (
            s,
            Reply::BatchDone {
                rows: 0,
                result: Err(
                    if ops@.len() > 128 {
                        BatchReject {
                            at: 128,
                            error: DbError::BatchTooLong { rows: ops@.len() as u64, max: 128 },
                        }
                    } else {
                        BatchReject { at: at as u16, error: objection_at(s, ops@, at)->0 }
                    },
                ),
            },
        ),
{
    if ops@.len() <= 128 {
        objecting_stops(s, ops@, at, ops@.len() as int);
    }
}

/// A write of one row is refused if its id is not as it must be, or else if the
/// table is full. Otherwise it goes through, changes its own id as asked and no
/// other, takes one row, and says so.
pub proof fn a_single_write_is_carried_out_or_refused(s: State, id: u64, value: [u8; 16])
    requires
        s.ok(),
        s.phase is Ready,
        s.generation < u64::MAX,
    ensures
        ({
            let m = contents(s.db);
            let full = DbError::Full {
                entity: "records",
                capacity: s.caps,
                dead: s.db.dead() as u64,
            };
            let room = s.row_count < s.caps;
            let (i, iv) = s.step(Input::Insert { id, value });
            let (u, uv) = s.step(Input::Update { id, value });
            let (d, dv) = s.step(Input::Delete { id });
            &&& m.contains_key(id) ==> iv == (Reply::InsertDone {
                id,
                result: Err(DbError::DuplicateId { id }),
            }) && i == s
            &&& !m.contains_key(id) && !room ==> iv == (Reply::InsertDone {
                id,
                result: Err(full),
            }) && i == s
            &&& !m.contains_key(id) && room ==> is_io(iv) && i.commit().1 == (Reply::InsertDone {
                id,
                result: Ok(()),
            }) && contents(i.commit().0.db) == m.insert(id, value@) && i.commit().0.row_count
                == s.row_count + 1
            &&& !m.contains_key(id) ==> uv == (Reply::UpdateDone {
                id,
                result: Err(DbError::NotFound { id }),
            }) && u == s
            &&& m.contains_key(id) && !room ==> uv == (Reply::UpdateDone {
                id,
                result: Err(full),
            }) && u == s
            &&& m.contains_key(id) && room ==> is_io(uv) && u.commit().1 == (Reply::UpdateDone {
                id,
                result: Ok(()),
            }) && contents(u.commit().0.db) == m.insert(id, value@) && u.commit().0.row_count
                == s.row_count + 1
            &&& !m.contains_key(id) ==> dv == (Reply::DeleteDone {
                id,
                result: Err(DbError::NotFound { id }),
            }) && d == s
            &&& m.contains_key(id) && !room ==> dv == (Reply::DeleteDone {
                id,
                result: Err(full),
            }) && d == s
            &&& m.contains_key(id) && room ==> is_io(dv) && d.commit().1 == (Reply::DeleteDone {
                id,
                result: Ok(()),
            }) && contents(d.commit().0.db) == m.remove(id) && d.commit().0.row_count
                == s.row_count + 1
        }),
{
    if s.row_count < s.caps {
        single_writes_mean_what_they_say(s, id, value@);
    }
}

/// The reply is the other's, but for the outcome: it answers the same operation
/// on the same id.
pub open spec fn answers_the_same(a: Reply, b: Reply) -> bool {
    match a {
        Reply::InsertDone { id, .. } => b matches Reply::InsertDone { id: other, .. } && id == other,
        Reply::UpdateDone { id, .. } => b matches Reply::UpdateDone { id: other, .. } && id == other,
        Reply::DeleteDone { id, .. } => b matches Reply::DeleteDone { id: other, .. } && id == other,
        Reply::BatchDone { rows, .. } => rows == 0 && b is BatchDone,
        _ => false,
    }
}

/// A request that fails ends the operation that made it, and the engine: the
/// operation is answered with the failure and the file it was on, nothing that
/// it was to write shows, and nothing is asked for any more. An open that fails
/// so is answered in the same way.
pub proof fn a_failed_request_ends_the_operation(s: State, file: FileId)
    requires
        s.phase.committing() || s.phase.opening(),
    ensures
        ({
            let (t, reply) = s.step(Input::IoFailed { file });
            &&& t.phase == Phase::Failed(DbError::IoFailed { file })
            &&& error_of(reply) == Some(DbError::IoFailed { file })
            &&& t.db == s.db
            &&& t.row_count == s.row_count
            &&& t.generation == s.generation
            &&& s.phase.opening() ==> reply is OpenDone
            &&& s.phase.committing() ==> answers_the_same(reply, s.commit().1)
        }),
{
}

// ---- All rows ----

/// The list of live rows has every live id once, with its value, in the order in
/// which the values were written.
pub proof fn live_rows_come_as_written(db: Db, n: int)
    requires
        db.wf(),
        0 <= n <= db.kept.len(),
    ensures
        ({
            let list = live_values(db, n);
            &&& forall|i: int|
                0 <= i < list.len() ==> contents(db).contains_key((#[trigger] list[i]).0)
                    && list[i].1 == contents(db)[list[i].0] && db.live[list[i].0] < n
            &&& forall|i: int, j: int|
                0 <= i < j < list.len() ==> db.live[(#[trigger] list[i]).0]
                    < db.live[(#[trigger] list[j]).0]
            &&& forall|id: u64| #[trigger]
                contents(db).contains_key(id) && db.live[id] < n ==> exists|i: int|
                    0 <= i < list.len() && (#[trigger] list[i]).0 == id
        }),
    decreases n,
{
    let list = live_values(db, n);
    if n > 0 {
        live_rows_come_as_written(db, n - 1);
        let before = live_values(db, n - 1);
        assert forall|i: int| 0 <= i < before.len() implies #[trigger] list[i] == before[i] by {}
        assert forall|id: u64| #[trigger]
            contents(db).contains_key(id) && db.live[id] < n implies exists|i: int|
            0 <= i < list.len() && (#[trigger] list[i]).0 == id by {
            live_row(db, id);
            if db.live[id] == n - 1 {
                assert(db.is_live(n - 1));
                assert(list[before.len() as int].0 == id);
            } else {
                let i = choose|i: int| 0 <= i < before.len() && (#[trigger] before[i]).0 == id;
                assert(list[i].0 == id);
            }
        }
    }
}

} // verus!
