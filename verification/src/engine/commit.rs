//! Why a validated batch can always be applied.

use crate::engine::log::{
    all_some, continues, is_run, live_after, lookup, run_from, shaped, staged_ok, Log,
};
use crate::engine::model::{op_bytes, op_rows, spanned, tombstone_slot, value_slots, Plan, State};
use crate::engine::types::{BatchEffect, BatchOp};
use crate::slot::{RowKind, Slot};
use vstd::prelude::*;

verus! {

/// The live rows once all the effects have been applied.
pub open spec fn live_all(live: Map<u64, u64>, effects: Seq<BatchEffect>) -> Map<u64, u64>
    decreases effects.len(),
{
    if effects.len() == 0 {
        live
    } else {
        live_after(live_all(live, effects.drop_last()), effects.last())
    }
}

pub proof fn live_all_front(live: Map<u64, u64>, effects: Seq<BatchEffect>)
    requires
        effects.len() > 0,
    ensures
        live_all(live, effects) == live_all(live_after(live, effects[0]), effects.drop_first()),
    decreases effects.len(),
{
    reveal_with_fuel(live_all, 2);
    if effects.len() > 1 {
        live_all_front(live, effects.drop_last());
        assert(effects.drop_last().drop_first() =~= effects.drop_first().drop_last());
    } else {
        assert(effects.drop_last() =~= Seq::empty());
        assert(effects.drop_first() =~= Seq::empty());
    }
}

proof fn staged_push(
    live: Map<u64, u64>,
    at: int,
    effects: Seq<BatchEffect>,
    slots: Seq<Slot>,
    e: BatchEffect,
    more: Seq<Slot>,
)
    requires
        staged_ok(live, at, effects, slots),
        e.spec_at() == at + slots.len(),
        more.len() == e.spec_rows(),
        shaped(live_all(live, effects), e, more),
    ensures
        staged_ok(live, at, effects.push(e), slots + more),
    decreases effects.len(),
{
    let es = effects.push(e);
    if effects.len() == 0 {
        assert(es.drop_first() =~= Seq::empty());
        assert((slots + more).take(more.len() as int) =~= more);
        assert((slots + more).skip(more.len() as int) =~= Seq::empty());
        assert(staged_ok(live_after(live, e), at + more.len(), Seq::empty(), Seq::empty()));
    } else {
        let n = effects[0].spec_rows();
        live_all_front(live, effects);
        staged_push(
            live_after(live, effects[0]),
            at + n,
            effects.drop_first(),
            slots.skip(n),
            e,
            more,
        );
        assert(es.drop_first() =~= effects.drop_first().push(e));
        assert((slots + more).take(n) =~= slots.take(n));
        assert((slots + more).skip(n) =~= slots.skip(n) + more);
    }
}

/// Slots that differ in their spans alone.
pub open spec fn but_for_spans(a: Seq<Slot>, b: Seq<Slot>) -> bool {
    &&& a.len() == b.len()
    &&& forall|i: int|
        0 <= i < a.len() ==> (#[trigger] a[i]) == (Slot { span: a[i].span, ..b[i] }) && (
        a[i].span < 128)
}

pub proof fn shaped_respan(live: Map<u64, u64>, e: BatchEffect, a: Seq<Slot>, b: Seq<Slot>)
    requires
        shaped(live, e, b),
        but_for_spans(a, b),
    ensures
        shaped(live, e, a),
{
    assert forall|i: int| 0 <= i < a.len() implies (#[trigger] a[i]).valid() by {
        assert(b[i].valid());
    }
    if e is Store {
        let ra = all_some(a);
        let rb = all_some(b);
        assert(ra[0]->0 == a[0] && rb[0]->0 == b[0]);
        assert forall|i: int| 0 <= i < ra.len() implies (#[trigger] ra[i]) is Some && (
        ra[i]->0).valid() by {
            assert(a[i].valid());
        }
        assert forall|i: int| 1 <= i < ra.len() implies #[trigger] continues(
            ra,
            i,
            (ra[0]->0).id,
        ) by {
            assert(continues(rb, i, (rb[0]->0).id));
            assert(rb[i]->0 == b[i] && ra[i]->0 == a[i]);
        }
        assert forall|i: int| 0 <= i < a.len() implies (#[trigger] a[i]).more == (i + 1
            < a.len()) by {
            assert(b[i].more == (i + 1 < b.len()));
        }
    }
}

pub proof fn staged_respan(
    live: Map<u64, u64>,
    at: int,
    effects: Seq<BatchEffect>,
    a: Seq<Slot>,
    b: Seq<Slot>,
)
    requires
        staged_ok(live, at, effects, b),
        but_for_spans(a, b),
    ensures
        staged_ok(live, at, effects, a),
    decreases effects.len(),
{
    if effects.len() > 0 {
        let n = effects[0].spec_rows();
        assert forall|i: int| 0 <= i < n implies (#[trigger] a.take(n)[i]) == (Slot {
            span: a.take(n)[i].span,
            ..b.take(n)[i]
        }) && a.take(n)[i].span < 128 by {
            assert(a[i] == a.take(n)[i]);
        }
        shaped_respan(live, effects[0], a.take(n), b.take(n));
        assert forall|i: int| 0 <= i < a.skip(n).len() implies (#[trigger] a.skip(n)[i]) == (Slot {
            span: a.skip(n)[i].span,
            ..b.skip(n)[i]
        }) && a.skip(n)[i].span < 128 by {
            assert(a[i + n] == a.skip(n)[i]);
        }
        staged_respan(
            live_after(live, effects[0]),
            at + n,
            effects.drop_first(),
            a.skip(n),
            b.skip(n),
        );
    }
}

/// The slots of a value are those of one run.
pub proof fn value_slots_run(head: RowKind, id: u64, bytes: Seq<u8>, rows: int)
    requires
        head == RowKind::Record || head == RowKind::Update,
        1 <= rows <= 128,
    ensures
        is_run(all_some(value_slots(head, id, bytes, rows))),
        value_slots(head, id, bytes, rows).len() == rows,
        forall|i: int|
            0 <= i < rows ==> (#[trigger] value_slots(head, id, bytes, rows)[i]).valid(),
{
    let s = value_slots(head, id, bytes, rows);
    assert forall|i: int| 0 <= i < rows implies (#[trigger] s[i]).valid() by {}
    let run = all_some(s);
    assert forall|i: int| 0 <= i < run.len() implies (#[trigger] run[i]) is Some && (
    run[i]->0).valid() by {
        assert(s[i].valid());
    }
    assert forall|i: int| 1 <= i < run.len() implies #[trigger] continues(
        run,
        i,
        (run[0]->0).id,
    ) by {
        assert(run[i]->0 == s[i]);
    }
}

/// A plan as far as it goes fits the capacity and can be applied.
pub proof fn planned_ok(s: State, ops: Seq<BatchOp>, n: int)
    requires
        0 <= n <= ops.len(),
        s.row_count <= s.caps,
        s.planned(ops, n) is Ok,
    ensures
        ({
            let p = s.planned(ops, n)->Ok_0;
            &&& p.slots.len() <= 128
            &&& p.effects.len() <= n
            &&& p.effects.len() <= p.slots.len()
            &&& s.row_count + p.slots.len() <= s.caps
            &&& staged_ok(s.db.live, s.row_count as int, p.effects, p.slots)
            &&& p.live == live_all(s.db.live, p.effects)
            &&& p.effects.len() > 0 ==> p.slots.len() > 0
        }),
    decreases n,
{
    if n > 0 {
        let p = s.planned(ops, n - 1)->Ok_0;
        planned_ok(s, ops, n - 1);
        let op = ops[n - 1];
        let bytes = op_bytes(op);
        let need = op_rows(op);
        assert(1 <= need <= 128);
        match op {
            BatchOp::Insert { id, .. } => {
                planned_store(s, p, id, bytes, need);
            },
            BatchOp::Update { id, .. } => {
                planned_store(s, p, id, bytes, need);
            },
            BatchOp::Put { id, .. } => {
                planned_store(s, p, id, bytes, need);
            },
            BatchOp::Delete { id } => {
                planned_delete(s, p, id);
            },
            BatchOp::Remove { id } => {
                if p.live.contains_key(id) {
                    planned_delete(s, p, id);
                }
            },
        }
    }
}

proof fn planned_store(s: State, p: Plan, id: u64, bytes: Seq<u8>, rows: int)
    requires
        1 <= rows <= 128,
        s.row_count + p.slots.len() + rows <= s.caps,
        staged_ok(s.db.live, s.row_count as int, p.effects, p.slots),
        p.live == live_all(s.db.live, p.effects),
    ensures
        ({
            let q = p.store(s.row_count, id, bytes, rows);
            &&& staged_ok(s.db.live, s.row_count as int, q.effects, q.slots)
            &&& q.live == live_all(s.db.live, q.effects)
            &&& q.slots.len() == p.slots.len() + rows
        }),
{
    let q = p.store(s.row_count, id, bytes, rows);
    let e = q.effects.last();
    let head = if lookup(p.live, id) is Some {
        RowKind::Update
    } else {
        RowKind::Record
    };
    let more = value_slots(head, id, bytes, rows);
    value_slots_run(head, id, bytes, rows);
    staged_push(s.db.live, s.row_count as int, p.effects, p.slots, e, more);
    assert(q.effects.drop_last() =~= p.effects);
}

proof fn planned_delete(s: State, p: Plan, id: u64)
    requires
        s.row_count + p.slots.len() + 1 <= s.caps,
        staged_ok(s.db.live, s.row_count as int, p.effects, p.slots),
        p.live == live_all(s.db.live, p.effects),
        p.live.contains_key(id),
    ensures
        ({
            let q = p.delete(s.row_count, id);
            &&& staged_ok(s.db.live, s.row_count as int, q.effects, q.slots)
            &&& q.live == live_all(s.db.live, q.effects)
            &&& q.slots.len() == p.slots.len() + 1
        }),
{
    let q = p.delete(s.row_count, id);
    let more = seq![tombstone_slot(id)];
    staged_push(s.db.live, s.row_count as int, p.effects, p.slots, q.effects.last(), more);
    assert(q.slots =~= p.slots + more);
    assert(q.effects.drop_last() =~= p.effects);
}

/// Giving the slots their spans leaves a commit as applicable as it was.
pub proof fn spanned_ok(live: Map<u64, u64>, at: int, effects: Seq<BatchEffect>, slots: Seq<Slot>)
    requires
        staged_ok(live, at, effects, slots),
        slots.len() <= 128,
    ensures
        staged_ok(live, at, effects, spanned(slots)),
{
    staged_respan(live, at, effects, spanned(slots), slots);
}

/// Why the last effect on an id says what the effects leave of it.
pub proof fn live_all_last(live: Map<u64, u64>, effects: Seq<BatchEffect>, id: u64, n: int)
    requires
        0 <= n <= effects.len(),
        forall|i: int| n <= i < effects.len() ==> (#[trigger] effects[i]).spec_id() != id,
    ensures
        lookup(live_all(live, effects), id) == lookup(live_all(live, effects.take(n)), id),
    decreases effects.len(),
{
    if n < effects.len() {
        live_all_last(live, effects.drop_last(), id, n);
        assert(effects.drop_last().take(n) =~= effects.take(n));
        assert(effects[effects.len() - 1].spec_id() != id);
    } else {
        assert(effects.take(n) =~= effects);
    }
}

/// The rows of a complete run.
pub proof fn run_facts(log: Log, head: int, rows: int, more: bool)
    requires
        0 <= head,
        1 <= rows <= 128,
        head + rows <= log.len(),
        run_from(log, head, rows, more) is Some,
    ensures
        ({
            let n = run_from(log, head, rows, more)->0;
            &&& rows <= n <= 128
            &&& head + n <= log.len()
            &&& forall|k: int|
                rows <= k < n ==> #[trigger] continues(log, head + k, (log[head]->0).id)
            &&& n > rows ==> more
            &&& forall|k: int| rows <= k < n ==> ((#[trigger] log[head + k])->0).more == (k + 1 < n)
            &&& more ==> n > rows
        }),
    decreases log.len() - (head + rows),
{
    if more {
        run_facts(log, head, rows + 1, (log[head + rows]->0).more);
        let n = run_from(log, head, rows, more)->0;
        assert forall|k: int| rows <= k < n implies ((#[trigger] log[head + k])->0).more == (k + 1
            < n) by {
            if k == rows {
                assert(log[head + k] == log[head + rows]);
            }
        }
    }
}

} // verus!
