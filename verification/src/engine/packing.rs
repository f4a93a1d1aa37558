//! How values lie in their rows: whatever this engine writes fills every row
//! but the last, so that a value takes exactly the rows that its length asks
//! for, and is read window by window along `next_offset`.

use crate::engine::commit::{but_for_spans, planned_ok, staged_respan, value_slots_run};
use crate::engine::laws::{
    applied_push, applied_wf, is_io, one_applied, planned_grows, staged_prefix_live, step_keeps,
};
use crate::engine::log::{
    all_some, append_keeps_values, applied, applied_one, bytes_of, continues, extent, is_run,
    lookup, store_wf, value_at, Db, Log,
};
use crate::engine::model::{
    op_bytes, op_key, op_rows, rows_for, spanned, tombstone_slot, value_slots, window, Plan, State,
};
use crate::engine::types::{BatchOp, Input, WindowView};
use crate::slot::{RowKind, Slot};
use vstd::prelude::*;

verus! {

/// The value that starts in row `h` fills its rows: all but the last are full,
/// and the last holds something, unless the value is empty.
pub open spec fn fills(kept: Log, h: int) -> bool {
    let n = extent(kept, h);
    &&& forall|k: int| 0 <= k < n - 1 ==> ((#[trigger] kept[h + k])->0).len == 16
    &&& n > 1 ==> (kept[h + (n - 1)]->0).len > 0
}

/// Every value fills its rows.
pub open spec fn packed(db: Db) -> bool {
    forall|h: int| #[trigger] db.values.contains_key(h) ==> fills(db.kept, h)
}

pub(crate) proof fn full_rows(db: Db, h: int, m: int)
    requires
        db.wf(),
        db.values.contains_key(h),
        fills(db.kept, h),
        0 <= m < extent(db.kept, h),
    ensures
        bytes_of(db.kept, h, m).len() == 16 * m,
    decreases m,
{
    if m > 0 {
        full_rows(db, h, m - 1);
        assert(db.holds(h));
        row_is_there(db, h, m - 1);
        assert((db.kept[h + (m - 1)]->0).len == 16);
    }
}

pub(crate) proof fn row_is_there(db: Db, h: int, k: int)
    requires
        db.wf(),
        db.holds(h),
        0 <= k < extent(db.kept, h),
    ensures
        db.kept[h + k] is Some,
        (db.kept[h + k]->0).valid(),
{
    if k > 0 {
        assert(continues(db.kept, h + k, (db.kept[h]->0).id));
    }
}

/// A value that fills its rows takes as many as its length asks for.
pub proof fn filled_rows(db: Db, h: int)
    requires
        db.wf(),
        db.values.contains_key(h),
        fills(db.kept, h),
    ensures
        ({
            let n = extent(db.kept, h);
            let len = value_at(db.kept, h).len();
            &&& len == 16 * (n - 1) + (db.kept[h + (n - 1)]->0).len
            &&& rows_for(len as int) == n
        }),
{
    let n = extent(db.kept, h);
    assert(db.holds(h));
    full_rows(db, h, n - 1);
    row_is_there(db, h, n - 1);
}

// ---- Writing ----

proof fn fills_still(db: Db, d: Db, more: Log, h: int)
    requires
        db.wf(),
        db.values.contains_key(h),
        fills(db.kept, h),
        d.kept == db.kept + more,
        more.len() > 0 ==> !(more[0] is Some && (more[0]->0).kind == RowKind::Chunk),
    ensures
        fills(d.kept, h),
{
    assert(db.holds(h));
    append_keeps_values(db.kept, more, h);
    let n = extent(db.kept, h);
    assert forall|k: int| 0 <= k < n - 1 implies ((#[trigger] d.kept[h + k])->0).len == 16 by {
        assert(d.kept[h + k] == db.kept[h + k]);
    }
    assert(d.kept[h + (n - 1)] == db.kept[h + (n - 1)]);
}

/// Taking in a run that is full but for its last row.
proof fn store_packs(db: Db, run: Log)
    requires
        db.wf(),
        packed(db),
        is_run(run),
        db.kept.len() + run.len() <= u64::MAX,
        forall|k: int| 0 <= k < run.len() - 1 ==> ((#[trigger] run[k])->0).len == 16,
        run.len() > 1 ==> (run[run.len() - 1]->0).len > 0,
    ensures
        packed(db.store(run)),
{
    let d = db.store(run);
    let at = db.kept.len() as int;
    store_wf(db, run);
    assert forall|h: int| #[trigger] d.values.contains_key(h) implies fills(d.kept, h) by {
        if h == at {
            assert forall|k: int| 0 <= k < run.len() - 1 implies ((#[trigger] d.kept[h + k])->0).len
                == 16 by {
                assert(d.kept[h + k] == run[k]);
            }
            assert(d.kept[h + (run.len() - 1)] == run[run.len() - 1]);
        } else {
            assert(db.values.contains_key(h));
            fills_still(db, d, run, h);
        }
    }
}

proof fn delete_packs(db: Db, slot: Slot)
    requires
        db.wf(),
        packed(db),
        slot.kind == RowKind::Tombstone,
    ensures
        packed(db.delete(slot)),
{
    let d = db.delete(slot);
    let more: Log = seq![Some(slot)];
    assert(d.kept =~= db.kept + more);
    assert forall|h: int| #[trigger] d.values.contains_key(h) implies fills(d.kept, h) by {
        assert(db.values.contains_key(h));
        fills_still(db, d, more, h);
    }
}

/// The slots of a value are full but for the last.
proof fn value_slots_pack(db: Db, mine: Seq<Slot>, head: RowKind, id: u64, bytes: Seq<u8>)
    requires
        db.wf(),
        packed(db),
        head == RowKind::Record || head == RowKind::Update,
        bytes.len() <= 2048,
        but_for_spans(mine, value_slots(head, id, bytes, rows_for(bytes.len() as int))),
        db.kept.len() + mine.len() <= u64::MAX,
    ensures
        packed(db.store(all_some(mine))),
{
    let need = rows_for(bytes.len() as int);
    let v = value_slots(head, id, bytes, need);
    value_slots_run(head, id, bytes, need);
    let run = all_some(mine);
    assert forall|i: int| 0 <= i < run.len() implies (#[trigger] run[i]) is Some && (
    run[i]->0).valid() by {
        assert(v[i].valid());
        assert(mine[i] == (Slot { span: mine[i].span, ..v[i] }));
    }
    assert(run[0] == Some(mine[0]) && mine[0] == (Slot { span: mine[0].span, ..v[0] }));
    assert forall|i: int| 1 <= i < run.len() implies #[trigger] continues(
        run,
        i,
        (run[0]->0).id,
    ) by {
        assert(mine[i] == (Slot { span: mine[i].span, ..v[i] }));
        assert(run[i] == Some(mine[i]));
    }
    assert forall|k: int| 0 <= k < run.len() - 1 implies ((#[trigger] run[k])->0).len == 16 by {
        assert(mine[k] == (Slot { span: mine[k].span, ..v[k] }));
    }
    let last = run.len() - 1;
    assert(mine[last] == (Slot { span: mine[last].span, ..v[last] }));
    store_packs(db, run);
}

/// One more operation of a plan.
proof fn one_more_packs(s: State, p: Plan, op: BatchOp, d: Db, mine: Seq<Slot>)
    requires
        s.plan_op(p, op) is Ok,
        d.wf(),
        packed(d),
        d.live == p.live,
        d.kept.len() + mine.len() <= u64::MAX,
        ({
            let q = s.plan_op(p, op)->Ok_0;
            &&& q.slots.len() == p.slots.len() + mine.len()
            &&& forall|i: int|
                0 <= i < mine.len() ==> (#[trigger] mine[i]) == (Slot {
                    span: mine[i].span,
                    ..q.slots[p.slots.len() + i]
                }) && mine[i].span < 128
        }),
    ensures
        ({
            let q = s.plan_op(p, op)->Ok_0;
            ||| q == p && mine.len() == 0
            ||| q.effects == p.effects.push(q.effects.last()) && q.effects.last().spec_rows()
                == mine.len() && packed(applied_one(d, q.effects.last(), mine))
        }),
{
    let q = s.plan_op(p, op)->Ok_0;
    let id = op_key(op);
    let bytes = op_bytes(op);
    if op is Insert || op is Update || op is Put {
        let head = if lookup(p.live, id) is Some {
            RowKind::Update
        } else {
            RowKind::Record
        };
        let v = value_slots(head, id, bytes, op_rows(op));
        assert(q.slots == p.slots + v);
        assert forall|i: int| 0 <= i < mine.len() implies (#[trigger] mine[i]) == (Slot {
            span: mine[i].span,
            ..v[i]
        }) && mine[i].span < 128 by {
            assert(q.slots[p.slots.len() + i] == v[i]);
        }
        value_slots_pack(d, mine, head, id, bytes);
        assert(q.effects =~= p.effects.push(q.effects.last()));
    } else if p.live.contains_key(id) {
        assert(q.slots[p.slots.len() as int] == tombstone_slot(id));
        assert(mine.len() == 1);
        assert(mine[0].kind == RowKind::Tombstone);
        delete_packs(d, mine[0]);
        assert(q.effects =~= p.effects.push(q.effects.last()));
    }
}

#[verifier::spinoff_prover]
#[verifier::rlimit(40)]
proof fn plan_packs(s: State, ops: Seq<BatchOp>, n: int, slots: Seq<Slot>)
    requires
        s.ok(),
        s.phase is Ready,
        packed(s.db),
        0 <= n <= ops.len(),
        s.planned(ops, n) is Ok,
        but_for_spans(slots, s.planned(ops, n)->Ok_0.slots),
    ensures
        packed(applied(s.db, s.planned(ops, n)->Ok_0.effects, slots)),
    decreases n,
{
    planned_ok(s, ops, n);
    if n > 0 {
        planned_ok(s, ops, n - 1);
        let p = s.planned(ops, n - 1)->Ok_0;
        let q = s.planned(ops, n)->Ok_0;
        let m = p.slots.len() as int;
        planned_grows(s, p, ops[n - 1]);
        let before = slots.take(m);
        let mine = slots.skip(m);
        assert(slots =~= before + mine);
        assert forall|i: int| 0 <= i < before.len() implies (#[trigger] before[i]) == (Slot {
            span: before[i].span,
            ..p.slots[i]
        }) && before[i].span < 128 by {
            assert(before[i] == slots[i]);
            assert(q.slots[i] == p.slots[i]);
        }
        plan_packs(s, ops, n - 1, before);
        staged_respan(s.db.live, s.row_count as int, p.effects, before, p.slots);
        let d = applied(s.db, p.effects, before);
        applied_wf(s.db, p.effects, before);
        staged_prefix_live(s.db, p.effects, before);
        assert forall|i: int| 0 <= i < mine.len() implies (#[trigger] mine[i]) == (Slot {
            span: mine[i].span,
            ..q.slots[m + i]
        }) && mine[i].span < 128 by {
            assert(mine[i] == slots[m + i]);
        }
        one_more_packs(s, p, ops[n - 1], d, mine);
        if q.effects.len() > p.effects.len() {
            applied_push(s.db, p.effects, before, q.effects.last(), mine);
        } else {
            assert(before =~= slots);
        }
    } else {
        assert(slots =~= Seq::empty());
    }
}

/// Whatever is written fills its rows, and leaves every other value filling
/// its own: a database that only this engine wrote is packed.
#[verifier::spinoff_prover]
pub proof fn writes_pack_values(s: State, input: Input)
    requires
        s.ok(),
        s.phase is Ready,
        s.accepts(input),
        input is Insert || input is Update || input is Delete || input is Batch,
        is_io(s.step(input).1),
        packed(s.db),
    ensures
        packed(s.step(input).0.commit().0.db),
{
    step_keeps(s, input);
    let t = s.step(input).0;
    match input {
        Input::Batch { ops } => {
            let p = s.planned(ops@, ops@.len() as int)->Ok_0;
            planned_ok(s, ops@, ops@.len() as int);
            assert(but_for_spans(spanned(p.slots), p.slots));
            plan_packs(s, ops@, ops@.len() as int, spanned(p.slots));
        },
        _ => {
            let e = t.effects[0];
            let slot = t.slots[0];
            assert(t.effects =~= seq![e]);
            assert(t.slots =~= seq![slot]);
            one_applied(s.db, e, slot);
            assert(t.slots.take(1) =~= t.slots);
            if e is Store {
                store_packs(s.db, all_some(seq![slot]));
            } else {
                delete_packs(s.db, slot);
            }
        },
    }
}

/// An empty database is packed.
pub proof fn an_empty_database_is_packed()
    ensures
        packed(Db::empty()),
{
}

// ---- Reading ----

/// Where the window after `w` begins, if `w` is not the last.
pub open spec fn follows(w: WindowView) -> Option<u32> {
    if w.offset + w.len < w.total {
        Some((w.offset + w.len) as u32)
    } else {
        None
    }
}

/// What reading a value from `offset` on, along the windows, gives.
pub open spec fn read_along(kept: Log, head: int, offset: u32) -> Seq<u8>
    decreases value_at(kept, head).len() - offset,
{
    let w = window(kept, head, offset);
    match follows(w) {
        Some(next) => if offset < next < value_at(kept, head).len() {
            w.bytes.take(w.len as int) + read_along(kept, head, next)
        } else {
            w.bytes.take(w.len as int)
        },
        None => w.bytes.take(w.len as int),
    }
}

proof fn rest_of_value(db: Db, h: int, k: int)
    requires
        db.wf(),
        db.values.contains_key(h),
        fills(db.kept, h),
        0 <= k < extent(db.kept, h),
    ensures
        bytes_of(db.kept, h, k) + read_along(db.kept, h, (16 * k) as u32) == value_at(db.kept, h),
        follows(window(db.kept, h, (16 * k) as u32)) == (if k + 1 < extent(db.kept, h) {
            Some((16 * (k + 1)) as u32)
        } else {
            None
        }),
    decreases extent(db.kept, h) - k,
{
    let kept = db.kept;
    let n = extent(kept, h);
    assert(db.holds(h));
    filled_rows(db, h);
    row_is_there(db, h, k);
    row_is_there(db, h, n - 1);
    let slot = kept[h + k]->0;
    let w = window(kept, h, (16 * k) as u32);
    assert(w.bytes.take(w.len as int) == slot.payload());
    assert(bytes_of(kept, h, k + 1) == bytes_of(kept, h, k) + slot.payload());
    if k + 1 < n {
        assert((kept[h + k]->0).len == 16);
        rest_of_value(db, h, k + 1);
        assert(bytes_of(kept, h, k) + (slot.payload() + read_along(kept, h, (16 * (k + 1)) as u32))
            =~= bytes_of(kept, h, k + 1) + read_along(kept, h, (16 * (k + 1)) as u32));
    }
}

/// Reading a value window by window, each from where the last one said that the
/// next begins, gives back the whole value, for every value that fills its
/// rows; and each of those places is a multiple of the row width, where a
/// window may begin.
pub proof fn windows_follow_on(db: Db, id: u64, k: int)
    requires
        db.wf(),
        db.live.contains_key(id),
        fills(db.kept, db.live[id] as int),
        0 <= k < extent(db.kept, db.live[id] as int),
    ensures
        ({
            let head = db.live[id] as int;
            &&& read_along(db.kept, head, 0) == value_at(db.kept, head)
            &&& follows(window(db.kept, head, (16 * k) as u32)) == (if k + 1 < extent(
                db.kept,
                head,
            ) {
                Some((16 * (k + 1)) as u32)
            } else {
                None
            })
        }),
{
    let head = db.live[id] as int;
    assert(db.bound.contains_key(id) && db.heads(head, id));
    assert(db.holds(head));
    rest_of_value(db, head, k);
    rest_of_value(db, head, 0);
    assert(bytes_of(db.kept, head, 0) + read_along(db.kept, head, 0) =~= read_along(
        db.kept,
        head,
        0,
    ));
}

} // verus!
