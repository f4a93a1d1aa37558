//! What the engine promises as a whole.

use crate::engine::commit::{
    but_for_spans, live_all, planned_ok, run_facts, spanned_ok, value_slots_run,
};
use crate::engine::durability::{commit_is_durable, replay_keeps_all, replays_to};
use crate::engine::log::{
    all_some, append_keeps_values, applied, applied_one, bytes_of, continues, delete_wf, is_run,
    live_after, lookup, quarantine_wf, replay, replay_step, run_at, shaped, staged_ok, store_wf,
    value_at, Db, Log, Step,
};
use crate::engine::model::{
    created, cut, min, op_bytes, op_key, op_rows, read_log, row_slot, rows_for, sb_slot, spanned,
    tombstone_slot, value_slots, Phase, Plan, State,
};
use crate::engine::tables::sizeable;
use crate::engine::types::{BatchEffect, BatchOp, BatchReject, DbError, FileId, Input, Reply};
use crate::slot::{RowKind, Slot};
use vstd::prelude::*;

verus! {

impl State {
    /// What holds of every state that an engine can be in: the tables are what
    /// the committed rows replay to, and a commit in flight can be applied.
    pub open spec fn ok(self) -> bool {
        &&& self.db.wf()
        &&& sizeable(self.caps)
        &&& self.db.kept.len() <= self.caps
        &&& self.phase.committing() ==> {
            &&& self.generation < u64::MAX
            &&& 1 <= self.slots.len() <= 128
            &&& self.row_count + self.slots.len() <= self.caps
            &&& staged_ok(self.db.live, self.row_count as int, self.effects, self.slots)
        }
        &&& !self.phase.committing() ==> self.effects.len() == 0 && self.slots.len() == 0
        &&& self.phase.opening() ==> self.generation == 0 && self.row_count == 0
        &&& self.db.quarantined == 0 && !(self.phase is Failed) ==> replays_to(self.db.kept, self.db)
        &&& match self.phase {
            Phase::New
            | Phase::InitFsyncSb
            | Phase::RecoverReadSb
            | Phase::InitWriteSb { .. } => self.db == Db::empty(),
            Phase::RecoverReadRows { generation, row_count } => {
                &&& self.db == Db::empty()
                &&& generation > 0
                &&& row_count <= self.caps
            },
            Phase::RecoverTruncateRows { generation, row_count } => self.found(
                generation,
                row_count,
            ),
            Phase::RecoverFsyncRows { generation, row_count } => self.found(generation, row_count),
            Phase::RecoverRepairSb { generation, row_count, .. } => self.found(
                generation,
                row_count,
            ),
            Phase::RecoverFsyncSb { generation, row_count } => self.found(generation, row_count),
            Phase::Ready
            | Phase::FsyncRows
            | Phase::FsyncSb
            | Phase::WriteRow { .. }
            | Phase::WriteSb { .. } => {
                &&& self.generation > 0
                &&& self.row_count == self.db.kept.len()
                &&& self.db.quarantined == 0
            },
            Phase::Degraded => {
                &&& self.generation > 0
                &&& self.row_count == self.db.kept.len()
                &&& self.db.quarantined > 0
            },
            Phase::Failed(_) => true,
        }
    }

    /// What recovery found.
    pub open spec fn found(self, generation: u64, row_count: u64) -> bool {
        &&& generation > 0
        &&& row_count == self.db.kept.len()
        &&& self.db.quarantined == 0
    }
}

proof fn empty_replays()
    ensures
        replays_to(Seq::empty(), Db::empty()),
{
}

pub proof fn created_ok(caps: u64)
    requires
        sizeable(caps),
    ensures
        created(caps).ok(),
{
    crate::engine::log::empty_wf();
    empty_replays();
}

pub(crate) proof fn step_wf(log: Log, db: Db, salvage: bool)
    requires
        db.wf(),
        db.kept.len() < log.len() <= u64::MAX,
        forall|r: int| 0 <= r < log.len() && (#[trigger] log[r]) is Some ==> (log[r]->0).valid(),
        replay_step(log, db, salvage) is Go,
    ensures
        replay_step(log, db, salvage)->Go_0.wf(),
        db.kept.len() < replay_step(log, db, salvage)->Go_0.kept.len() <= log.len(),
{
    let at = db.kept.len() as int;
    if log[at] is None {
        quarantine_wf(db, 1);
    } else {
        let s = log[at]->0;
        if s.starts_value() {
            if run_at(log, at) is Some {
                run_facts(log, at, 1, s.more);
                let n = run_at(log, at)->0;
                let run = log.subrange(at, at + n);
                assert forall|i: int| 0 <= i < run.len() implies (#[trigger] run[i]) is Some && (
                run[i]->0).valid() by {
                    if i > 0 {
                        assert(continues(log, at + i, s.id));
                    }
                    assert(run[i] == log[at + i]);
                }
                assert forall|i: int| 1 <= i < run.len() implies #[trigger] continues(
                    run,
                    i,
                    s.id,
                ) by {
                    assert(continues(log, at + i, s.id));
                }
                store_wf(db, run);
                quarantine_wf(db, n);
            } else {
                broken_within(log, at, 1, s.more);
                quarantine_wf(db, crate::engine::log::broken_at(log, at));
            }
        } else {
            quarantine_wf(db, 1);
            if s.kind == RowKind::Tombstone && db.live.contains_key(s.id) {
                delete_wf(db, s);
            }
        }
    }
}

proof fn broken_within(log: Log, head: int, rows: int, more: bool)
    requires
        0 <= head,
        1 <= rows,
        head + rows <= log.len(),
    ensures
        rows <= crate::engine::log::broken_from(log, head, rows, more),
        head + crate::engine::log::broken_from(log, head, rows, more) <= log.len(),
    decreases log.len() - (head + rows),
{
    if more && rows <= 128 && continues(log, head + rows, (log[head]->0).id) {
        broken_within(log, head, rows + 1, (log[head + rows]->0).more);
    }
}

/// Replaying keeps the log's invariant.
pub proof fn replay_wf(log: Log, db: Db, salvage: bool)
    requires
        db.wf(),
        db.kept.len() <= log.len() <= u64::MAX,
        forall|r: int| 0 <= r < log.len() && (#[trigger] log[r]) is Some ==> (log[r]->0).valid(),
    ensures
        ({
            let (d, stopped) = replay(log, db, salvage);
            &&& d.wf()
            &&& d.kept.len() <= log.len()
            &&& stopped is None ==> d.kept.len() == log.len()
        }),
    decreases log.len() - db.kept.len(),
{
    if db.kept.len() < log.len() {
        match replay_step(log, db, salvage) {
            Step::Stop(_) => {},
            Step::Go(d) => {
                step_wf(log, db, salvage);
                replay_wf(log, d, salvage);
            },
        }
    }
}

/// In salvage mode, a replay that set nothing aside is a strict one.
pub(crate) proof fn salvage_without_damage(log: Log, from: Db)
    requires
        from.wf(),
        from.kept.len() <= log.len() <= u64::MAX,
        forall|r: int| 0 <= r < log.len() && (#[trigger] log[r]) is Some ==> (log[r]->0).valid(),
        replay(log, from, true).0.quarantined == 0,
    ensures
        from.quarantined == 0,
        replay(log, from, false).0 == replay(log, from, true).0,
        replay(log, from, false).1 is None,
    decreases log.len() - from.kept.len(),
{
    if from.kept.len() < log.len() {
        let d = replay_step(log, from, true)->Go_0;
        step_wf(log, from, true);
        salvage_without_damage(log, d);
    }
}

pub proof fn applied_wf(db: Db, effects: Seq<BatchEffect>, slots: Seq<Slot>)
    requires
        db.wf(),
        staged_ok(db.live, db.kept.len() as int, effects, slots),
        db.kept.len() + slots.len() <= u64::MAX,
    ensures
        applied(db, effects, slots).wf(),
        applied(db, effects, slots).kept.len() == db.kept.len() + slots.len(),
        applied(db, effects, slots).quarantined == db.quarantined,
    decreases effects.len(),
{
    if effects.len() > 0 {
        let e = effects[0];
        let n = e.spec_rows();
        let mine = slots.take(n);
        one_wf(db, e, mine);
        applied_wf(applied_one(db, e, mine), effects.drop_first(), slots.skip(n));
    }
}

proof fn one_wf(db: Db, e: BatchEffect, mine: Seq<Slot>)
    requires
        db.wf(),
        shaped(db.live, e, mine),
        e.spec_at() == db.kept.len(),
        db.kept.len() + mine.len() <= u64::MAX,
    ensures
        applied_one(db, e, mine).wf(),
        applied_one(db, e, mine).kept.len() == db.kept.len() + mine.len(),
        applied_one(db, e, mine).quarantined == db.quarantined,
        applied_one(db, e, mine).live == live_after(db.live, e),
        applied_one(db, e, mine).kept == db.kept + all_some(mine),
{
    match e {
        BatchEffect::Store { .. } => {
            assert(all_some(mine)[0] == Some(mine[0]));
            store_wf(db, all_some(mine));
        },
        BatchEffect::Delete { .. } => {
            assert(mine[0].valid());
            delete_wf(db, mine[0]);
            assert(db.kept.push(Some(mine[0])) =~= db.kept + all_some(mine));
        },
    }
}

/// Every input keeps the state valid. In particular, at every moment the rows
/// committed so far replay to exactly what the engine answers from.
#[verifier::rlimit(60)]
#[verifier::spinoff_prover]
pub proof fn step_keeps(s: State, input: Input)
    requires
        s.ok(),
        s.accepts(input),
    ensures
        s.step(input).0.ok(),
{
    match input {
        Input::ReadDone { data, .. } => {
            read_keeps(s, data@);
        },
        Input::Insert { id, value } => {
            if s.write_gate() is None && !s.db.live.contains_key(id) && s.row_count < s.caps {
                let slot = row_slot(RowKind::Record, id, value@);
                let e = BatchEffect::Store { id, at: s.row_count, rows: 1, supersedes: None };
                assert(all_some(seq![slot])[0] == Some(slot));
                assert(seq![slot][0] == slot);
                one_staged(s.db.live, s.row_count as int, e, slot);
            }
        },
        Input::Update { id, value } => {
            if s.write_gate() is None && s.db.live.contains_key(id) && s.row_count < s.caps {
                let slot = row_slot(RowKind::Update, id, value@);
                let e = BatchEffect::Store {
                    id,
                    at: s.row_count,
                    rows: 1,
                    supersedes: Some(s.db.live[id]),
                };
                assert(all_some(seq![slot])[0] == Some(slot));
                assert(seq![slot][0] == slot);
                one_staged(s.db.live, s.row_count as int, e, slot);
            }
        },
        Input::Delete { id } => {
            if s.write_gate() is None && s.db.live.contains_key(id) && s.row_count < s.caps {
                let e = BatchEffect::Delete {
                    id,
                    at: s.row_count,
                    record_row: s.db.live[id],
                };
                assert(seq![tombstone_slot(id)][0] == tombstone_slot(id));
                one_staged(s.db.live, s.row_count as int, e, tombstone_slot(id));
            }
        },
        Input::Batch { ops } => {
            if s.write_gate() is None && 0 < ops@.len() <= 128 && s.planned(
                ops@,
                ops@.len() as int,
            ) is Ok {
                planned_ok(s, ops@, ops@.len() as int);
                let p = s.planned(ops@, ops@.len() as int)->Ok_0;
                spanned_ok(s.db.live, s.row_count as int, p.effects, p.slots);
            }
        },
        Input::FsyncDone { .. } => {
            if s.phase is FsyncSb {
                applied_wf(s.db, s.effects, s.slots);
                commit_is_durable(s.db, s.effects, s.slots);
            }
        },
        _ => {},
    }
}

pub proof fn one_staged(live: Map<u64, u64>, at: int, e: BatchEffect, slot: Slot)
    requires
        e.spec_at() == at,
        e.spec_rows() == 1,
        shaped(live, e, seq![slot]),
    ensures
        staged_ok(live, at, seq![e], seq![slot]),
{
    assert(seq![e].drop_first() =~= Seq::empty());
    assert(seq![slot].take(1) =~= seq![slot]);
    assert(seq![slot].skip(1) =~= Seq::empty());
    assert(staged_ok(live_after(live, e), at + 1, Seq::empty(), Seq::empty()));
}

proof fn read_keeps(s: State, data: Seq<u8>)
    requires
        s.ok(),
        s.phase is RecoverReadSb || s.phase is RecoverReadRows,
    ensures
        s.read_done(data).0.ok(),
{
    crate::engine::log::empty_wf();
    empty_replays();
    if s.phase is RecoverReadSb {
        crate::engine::durability::newest_is_elected(data, 4);
    } else {
        let n = s.phase->RecoverReadRows_row_count as int;
        if data.len() >= 32 * n {
            let log = read_log(data, n);
            assert forall|r: int| 0 <= r < log.len() && (#[trigger] log[r]) is Some implies (
            log[r]->0).valid() by {
                crate::slot::slot_parsed_is_valid(data.subrange(32 * r, 32 * r + 32));
            }
            replay_wf(log, Db::empty(), s.salvage);
            let (d, stopped) = replay(log, Db::empty(), s.salvage);
            if stopped is None && d.quarantined == 0 {
                if s.salvage {
                    salvage_without_damage(log, Db::empty());
                }
                replay_keeps_all(log, d);
            }
        }
    }
}

// ---- What the database contains ----

/// Each live id's value.
pub open spec fn contents(db: Db) -> Map<u64, Seq<u8>> {
    Map::new(
        |id: u64| db.live.contains_key(id),
        |id: u64| value_at(db.kept, db.live[id] as int),
    )
}

pub(crate) proof fn store_contents(db: Db, run: Log)
    requires
        db.wf(),
        is_run(run),
        db.kept.len() + run.len() <= u64::MAX,
    ensures
        contents(db.store(run)) == contents(db).insert(
            (run[0]->0).id,
            bytes_of(run, 0, run.len() as int),
        ),
{
    let d = db.store(run);
    let id = (run[0]->0).id;
    store_wf(db, run);
    assert forall|x: u64| #[trigger] d.live.contains_key(x) && x != id implies value_at(
        d.kept,
        d.live[x] as int,
    ) == value_at(db.kept, db.live[x] as int) by {
        assert(db.live.contains_key(x) && db.bound.contains_key(x));
        assert(db.heads(db.bound[x] as int, x));
        append_keeps_values(db.kept, run, db.live[x] as int);
    }
    assert(contents(d) =~= contents(db).insert(id, bytes_of(run, 0, run.len() as int)));
}

pub(crate) proof fn delete_contents(db: Db, slot: Slot)
    requires
        db.wf(),
        slot.kind == RowKind::Tombstone,
    ensures
        contents(db.delete(slot)) == contents(db).remove(slot.id),
{
    let d = db.delete(slot);
    let more: Log = seq![Some(slot)];
    assert(d.kept =~= db.kept + more);
    assert forall|x: u64| #[trigger] d.live.contains_key(x) implies value_at(
        d.kept,
        d.live[x] as int,
    ) == value_at(db.kept, db.live[x] as int) by {
        assert(db.live.contains_key(x) && db.bound.contains_key(x));
        assert(db.heads(db.bound[x] as int, x));
        append_keeps_values(db.kept, more, db.live[x] as int);
    }
    assert(contents(d) =~= contents(db).remove(slot.id));
}

proof fn slots_bytes(slots: Seq<Slot>, head: RowKind, id: u64, bytes: Seq<u8>, rows: int, k: int)
    requires
        but_for_spans(slots, value_slots(head, id, bytes, rows)),
        0 <= k <= rows,
    ensures
        bytes_of(all_some(slots), 0, k) == bytes.take(min(16 * k, bytes.len() as int)),
    decreases k,
{
    if k > 0 {
        slots_bytes(slots, head, id, bytes, rows, k - 1);
        let s = slots[k - 1];
        let v = value_slots(head, id, bytes, rows)[k - 1];
        assert(all_some(slots)[k - 1] == Some(s));
        assert(s == (Slot { span: s.span, ..v }));
        let from = min(16 * (k - 1), bytes.len() as int);
        let to = min(16 * k, bytes.len() as int);
        assert(s.payload() =~= bytes.subrange(from, to));
        assert(bytes.take(from) + bytes.subrange(from, to) =~= bytes.take(to));
        assert(bytes_of(all_some(slots), 0, k) =~= bytes.take(to));
    } else {
        assert(bytes_of(all_some(slots), 0, 0) =~= bytes.take(0));
    }
}

/// A value cut into slots is put together again as it was.
pub proof fn value_survives_its_slots(head: RowKind, id: u64, bytes: Seq<u8>)
    ensures
        bytes_of(
            all_some(value_slots(head, id, bytes, rows_for(bytes.len() as int))),
            0,
            rows_for(bytes.len() as int),
        ) == bytes,
{
    let rows = rows_for(bytes.len() as int);
    let slots = value_slots(head, id, bytes, rows);
    assert(but_for_spans(slots, slots));
    slots_bytes(slots, head, id, bytes, rows, rows);
    assert(bytes.take(bytes.len() as int) =~= bytes);
}

/// What an operation means.
pub open spec fn after_op(m: Map<u64, Seq<u8>>, op: BatchOp) -> Map<u64, Seq<u8>> {
    match op {
        BatchOp::Insert { id, value } => m.insert(id, value@),
        BatchOp::Update { id, value } => m.insert(id, value@),
        BatchOp::Put { id, value } => m.insert(id, value@),
        BatchOp::Delete { id } => m.remove(id),
        BatchOp::Remove { id } => m.remove(id),
    }
}

/// What the first `n` operations mean, one after another.
pub open spec fn after_ops(m: Map<u64, Seq<u8>>, ops: Seq<BatchOp>, n: int) -> Map<u64, Seq<u8>>
    decreases n,
{
    if n <= 0 {
        m
    } else {
        after_op(after_ops(m, ops, n - 1), ops[n - 1])
    }
}

pub(crate) proof fn applied_push(db: Db, effects: Seq<BatchEffect>, slots: Seq<Slot>, e: BatchEffect, more: Seq<Slot>)
    requires
        staged_ok(db.live, db.kept.len() as int, effects, slots),
        db.wf(),
        db.kept.len() + slots.len() + more.len() <= u64::MAX,
        e.spec_rows() == more.len(),
    ensures
        applied(db, effects.push(e), slots + more) == applied_one(
            applied(db, effects, slots),
            e,
            more,
        ),
    decreases effects.len(),
{
    let es = effects.push(e);
    let all = slots + more;
    if effects.len() == 0 {
        assert(all.take(more.len() as int) =~= more);
        assert(es.drop_first() =~= Seq::empty());
        assert(applied(applied_one(db, e, more), es.drop_first(), all.skip(more.len() as int))
            == applied_one(db, e, more));
    } else {
        let n = effects[0].spec_rows();
        let d = applied_one(db, effects[0], slots.take(n));
        one_wf(db, effects[0], slots.take(n));
        assert(all.take(n) =~= slots.take(n));
        assert(all.skip(n) =~= slots.skip(n) + more);
        assert(es.drop_first() =~= effects.drop_first().push(e));
        applied_push(d, effects.drop_first(), slots.skip(n), e, more);
    }
}

pub(crate) proof fn staged_prefix_live(db: Db, effects: Seq<BatchEffect>, slots: Seq<Slot>)
    requires
        staged_ok(db.live, db.kept.len() as int, effects, slots),
        db.wf(),
        db.kept.len() + slots.len() <= u64::MAX,
    ensures
        applied(db, effects, slots).live == live_all(db.live, effects),
    decreases effects.len(),
{
    if effects.len() > 0 {
        let n = effects[0].spec_rows();
        one_wf(db, effects[0], slots.take(n));
        staged_prefix_live(
            applied_one(db, effects[0], slots.take(n)),
            effects.drop_first(),
            slots.skip(n),
        );
        crate::engine::commit::live_all_front(db.live, effects);
    }
}

/// Storing a value, whatever its slots' spans.
proof fn stored_means(
    d: Db,
    e: BatchEffect,
    mine: Seq<Slot>,
    head: RowKind,
    id: u64,
    bytes: Seq<u8>,
)
    requires
        d.wf(),
        e is Store,
        head == RowKind::Record || head == RowKind::Update,
        bytes.len() <= 2048,
        but_for_spans(mine, value_slots(head, id, bytes, rows_for(bytes.len() as int))),
        d.kept.len() + mine.len() <= u64::MAX,
    ensures
        contents(applied_one(d, e, mine)) == contents(d).insert(id, bytes),
{
    let need = rows_for(bytes.len() as int);
    let v = value_slots(head, id, bytes, need);
    value_slots_run(head, id, bytes, need);
    let run = all_some(mine);
    let vr = all_some(v);
    assert forall|i: int| 0 <= i < run.len() implies (#[trigger] run[i]) is Some && (
    run[i]->0).valid() by {
        assert(v[i].valid());
        assert(mine[i] == (Slot { span: mine[i].span, ..v[i] }));
    }
    assert(run[0] == Some(mine[0]) && mine[0] == (Slot { span: mine[0].span, ..v[0] }));
    assert forall|i: int| 1 <= i < run.len() implies #[trigger] continues(
        run,
        i,
        (run[0]->0).id,
    ) by {
        assert(mine[i] == (Slot { span: mine[i].span, ..v[i] }));
        assert(run[i] == Some(mine[i]));
    }
    slots_bytes(mine, head, id, bytes, need, need);
    assert(bytes.take(bytes.len() as int) =~= bytes);
    store_contents(d, run);
}

/// One more operation of a plan.
proof fn one_more(s: State, p: Plan, op: BatchOp, d: Db, mine: Seq<Slot>)
    requires
        s.plan_op(p, op) is Ok,
        d.wf(),
        d.live == p.live,
        d.kept.len() + mine.len() <= u64::MAX,
        ({
            let q = s.plan_op(p, op)->Ok_0;
            &&& q.slots.len() == p.slots.len() + mine.len()
            &&& forall|i: int|
                0 <= i < mine.len() ==> (#[trigger] mine[i]) == (Slot {
                    span: mine[i].span,
                    ..q.slots[p.slots.len() + i]
                }) && mine[i].span < 128
        }),
    ensures
        ({
            let q = s.plan_op(p, op)->Ok_0;
            ||| q == p && mine.len() == 0 && contents(d) == after_op(contents(d), op)
            ||| q.effects == p.effects.push(q.effects.last()) && q.effects.last().spec_rows()
                == mine.len() && contents(applied_one(d, q.effects.last(), mine)) == after_op(
                contents(d),
                op,
            )
        }),
{
    let q = s.plan_op(p, op)->Ok_0;
    let id = op_key(op);
    let bytes = op_bytes(op);
    let need = op_rows(op);
    if op is Insert || op is Update || op is Put {
        let head = if lookup(p.live, id) is Some {
            RowKind::Update
        } else {
            RowKind::Record
        };
        let v = value_slots(head, id, bytes, need);
        assert(q.slots == p.slots + v);
        assert forall|i: int| 0 <= i < mine.len() implies (#[trigger] mine[i]) == (Slot {
            span: mine[i].span,
            ..v[i]
        }) && mine[i].span < 128 by {
            assert(q.slots[p.slots.len() + i] == v[i]);
        }
        stored_means(d, q.effects.last(), mine, head, id, bytes);
        assert(q.effects =~= p.effects.push(q.effects.last()));
    } else if p.live.contains_key(id) {
        assert(q.slots[p.slots.len() as int] == tombstone_slot(id));
        assert(mine.len() == 1);
        assert(mine[0].kind == RowKind::Tombstone && mine[0].id == id);
        delete_contents(d, mine[0]);
        assert(q.effects =~= p.effects.push(q.effects.last()));
    } else {
        assert(contents(d).remove(id) =~= contents(d));
    }
}

#[verifier::spinoff_prover]
#[verifier::rlimit(40)]
proof fn plan_means(s: State, ops: Seq<BatchOp>, n: int, slots: Seq<Slot>)
    requires
        s.ok(),
        s.phase is Ready,
        0 <= n <= ops.len(),
        s.planned(ops, n) is Ok,
        but_for_spans(slots, s.planned(ops, n)->Ok_0.slots),
    ensures
        contents(applied(s.db, s.planned(ops, n)->Ok_0.effects, slots)) == after_ops(
            contents(s.db),
            ops,
            n,
        ),
    decreases n,
{
    planned_ok(s, ops, n);
    if n > 0 {
        planned_ok(s, ops, n - 1);
        let p = s.planned(ops, n - 1)->Ok_0;
        let q = s.planned(ops, n)->Ok_0;
        let m = p.slots.len() as int;
        planned_grows(s, p, ops[n - 1]);
        let before = slots.take(m);
        let mine = slots.skip(m);
        assert(slots =~= before + mine);
        assert forall|i: int| 0 <= i < before.len() implies (#[trigger] before[i]) == (Slot {
            span: before[i].span,
            ..p.slots[i]
        }) && before[i].span < 128 by {
            assert(before[i] == slots[i]);
            assert(q.slots[i] == p.slots[i]);
        }
        plan_means(s, ops, n - 1, before);
        crate::engine::commit::staged_respan(
            s.db.live,
            s.row_count as int,
            p.effects,
            before,
            p.slots,
        );
        let d = applied(s.db, p.effects, before);
        applied_wf(s.db, p.effects, before);
        staged_prefix_live(s.db, p.effects, before);
        assert forall|i: int| 0 <= i < mine.len() implies (#[trigger] mine[i]) == (Slot {
            span: mine[i].span,
            ..q.slots[m + i]
        }) && mine[i].span < 128 by {
            assert(mine[i] == slots[m + i]);
        }
        one_more(s, p, ops[n - 1], d, mine);
        if q.effects.len() > p.effects.len() {
            applied_push(s.db, p.effects, before, q.effects.last(), mine);
        } else {
            assert(before =~= slots);
        }
    } else {
        assert(slots =~= Seq::empty());
    }
}

pub(crate) proof fn planned_grows(s: State, p: Plan, op: BatchOp)
    requires
        s.plan_op(p, op) is Ok,
    ensures
        ({
            let q = s.plan_op(p, op)->Ok_0;
            &&& q.slots.len() >= p.slots.len()
            &&& forall|i: int| 0 <= i < p.slots.len() ==> #[trigger] q.slots[i] == p.slots[i]
        }),
{
}

/// A batch means what its operations mean, carried out one after another: the
/// commit leaves exactly the contents that they leave.
pub proof fn batch_means_its_operations(s: State, ops: Seq<BatchOp>)
    requires
        s.ok(),
        s.phase is Ready,
        s.planned(ops, ops.len() as int) is Ok,
    ensures
        ({
            let p = s.planned(ops, ops.len() as int)->Ok_0;
            contents(applied(s.db, p.effects, spanned(p.slots))) == after_ops(
                contents(s.db),
                ops,
                ops.len() as int,
            )
        }),
{
    let p = s.planned(ops, ops.len() as int)->Ok_0;
    planned_ok(s, ops, ops.len() as int);
    assert(but_for_spans(spanned(p.slots), p.slots));
    plan_means(s, ops, ops.len() as int, spanned(p.slots));
}

/// A write as it is made on its own, outside a batch.
pub open spec fn alone(s: State, op: BatchOp) -> (State, Reply) {
    match op {
        BatchOp::Insert { id, value } => s.insert(id, value@),
        BatchOp::Update { id, value } => s.update(id, value@),
        BatchOp::Delete { id } => s.delete(id),
        _ => arbitrary(),
    }
}

/// A batch is refused with exactly the error that its operation returns on its
/// own; where the operation goes through, the batch stages the very same.
pub proof fn a_batch_of_one_is_the_operation(s: State, op: BatchOp)
    requires
        s.ok(),
        op is Insert || op is Update || op is Delete,
        op is Delete || op_bytes(op).len() == 16,
    ensures
        match error_of(alone(s, op).1) {
            Some(error) => s.batch(seq![op]) == (
                s,
                Reply::BatchDone { rows: 0, result: Err(BatchReject { at: 0, error }) },
            ),
            None => {
                &&& s.batch(seq![op]).0.effects == alone(s, op).0.effects
                &&& s.batch(seq![op]).0.slots == alone(s, op).0.slots
                &&& s.batch(seq![op]).1 == alone(s, op).1
                &&& is_io(alone(s, op).1)
            },
        },
{
    if s.write_gate() is None {
        let ops = seq![op];
        let fresh = Plan { effects: Seq::empty(), slots: Seq::empty(), live: s.db.live };
        assert(s.planned(ops, 0) == Ok::<Plan, BatchReject>(fresh));
        assert(op_rows(op) == 1);
        if s.plan_op(fresh, op) is Ok {
            let q = s.plan_op(fresh, op)->Ok_0;
            assert(s.planned(ops, 1) == Ok::<Plan, BatchReject>(q));
            let bytes = op_bytes(op);
            if op !is Delete {
                assert(cut(bytes, 0) =~= bytes);
            }
            assert(spanned(q.slots) =~= alone(s, op).0.slots);
            assert(q.effects =~= alone(s, op).0.effects);
        } else {
            assert(s.planned(ops, 1) is Err);
        }
    }
}

proof fn refused_from_there(s: State, ops: Seq<BatchOp>, at: int, n: int)
    requires
        0 <= at < n <= ops.len() <= 128,
        s.planned(ops, at) is Ok,
        s.plan_op(s.planned(ops, at)->Ok_0, ops[at]) is Err,
    ensures
        s.planned(ops, n) == Err::<Plan, BatchReject>(
            BatchReject {
                at: at as u16,
                error: s.plan_op(s.planned(ops, at)->Ok_0, ops[at])->Err_0,
            },
        ),
    decreases n,
{
    if at < n - 1 {
        refused_from_there(s, ops, at, n - 1);
    }
}

/// A batch is refused at the first operation that cannot proceed against what
/// its predecessors would leave, with that operation's error. It is refused at
/// once: no I/O is asked for, and the engine is as it was, open for writes and
/// answering every read as before.
pub proof fn a_batch_is_refused_at_its_first_bad_operation(s: State, ops: &[BatchOp], at: int)
    requires
        s.ok(),
        s.phase is Ready,
        0 <= at < ops@.len() <= 128,
        s.planned(ops@, at) is Ok,
        s.plan_op(s.planned(ops@, at)->Ok_0, ops@[at]) is Err,
    ensures
        s.planned(ops@, at)->Ok_0.live.dom() == after_ops(contents(s.db), ops@, at).dom(),
        s.step(Input::Batch { ops }) == (
            s,
            Reply::BatchDone {
                rows: 0,
                result: Err(
                    BatchReject {
                        at: at as u16,
                        error: s.plan_op(s.planned(ops@, at)->Ok_0, ops@[at])->Err_0,
                    },
                ),
            },
        ),
        !is_io(s.step(Input::Batch { ops }).1),
{
    refused_from_there(s, ops@, at, ops@.len() as int);
    let p = s.planned(ops@, at)->Ok_0;
    planned_ok(s, ops@, at);
    assert(but_for_spans(spanned(p.slots), p.slots));
    plan_means(s, ops@, at, spanned(p.slots));
    spanned_ok(s.db.live, s.row_count as int, p.effects, p.slots);
    staged_prefix_live(s.db, p.effects, spanned(p.slots));
    assert(contents(applied(s.db, p.effects, spanned(p.slots))).dom() =~= p.live.dom());
}

/// An insert, update or delete that commits changes its own id, as asked, and
/// no other.
pub proof fn single_writes_mean_what_they_say(s: State, id: u64, value: Seq<u8>)
    requires
        s.ok(),
        s.phase is Ready,
        s.row_count < s.caps,
        s.generation < u64::MAX,
        value.len() == 16,
    ensures
        !s.db.live.contains_key(id) ==> contents(s.insert(id, value).0.commit().0.db) == contents(
            s.db,
        ).insert(id, value),
        s.db.live.contains_key(id) ==> contents(s.update(id, value).0.commit().0.db) == contents(
            s.db,
        ).insert(id, value),
        s.db.live.contains_key(id) ==> contents(s.delete(id).0.commit().0.db) == contents(
            s.db,
        ).remove(id),
{
    if s.db.live.contains_key(id) {
        let slot = row_slot(RowKind::Update, id, value);
        one_stored(
            s.db,
            BatchEffect::Store {
                id,
                at: s.row_count,
                rows: 1,
                supersedes: Some(s.db.live[id]),
            },
            slot,
        );
        let t = tombstone_slot(id);
        let e = BatchEffect::Delete { id, at: s.row_count, record_row: s.db.live[id] };
        one_applied(s.db, e, t);
        delete_contents(s.db, t);
    } else {
        let slot = row_slot(RowKind::Record, id, value);
        one_stored(
            s.db,
            BatchEffect::Store { id, at: s.row_count, rows: 1, supersedes: None },
            slot,
        );
    }
}

pub proof fn one_applied(db: Db, e: BatchEffect, slot: Slot)
    requires
        e.spec_rows() == 1,
    ensures
        applied(db, seq![e], seq![slot]) == applied_one(db, e, seq![slot]),
{
    assert(seq![e].drop_first() =~= Seq::empty());
    assert(seq![slot].take(1) =~= seq![slot]);
    assert(applied(applied_one(db, e, seq![slot]), Seq::empty(), seq![slot].skip(1)) == applied_one(
        db,
        e,
        seq![slot],
    ));
}

pub proof fn one_stored(db: Db, e: BatchEffect, slot: Slot)
    requires
        db.wf(),
        db.kept.len() < u64::MAX,
        e is Store,
        e.spec_rows() == 1,
        slot.valid(),
        slot.starts_value(),
        slot.len == 16,
    ensures
        contents(applied(db, seq![e], seq![slot])) == contents(db).insert(slot.id, slot.value),
{
    let run = all_some(seq![slot]);
    assert(run.len() == 1 && run[0] == Some(slot));
    one_applied(db, e, slot);
    store_contents(db, run);
    reveal_with_fuel(bytes_of, 2);
    assert(slot.payload() =~= slot.value);
    assert(bytes_of(run, 0, 1) =~= slot.value);
}

// ---- The protocol ----

/// A client's operation.
pub open spec fn is_client(input: Input) -> bool {
    match input {
        Input::Insert { .. }
        | Input::Update { .. }
        | Input::Delete { .. }
        | Input::Batch { .. }
        | Input::Get { .. }
        | Input::GetFrom { .. }
        | Input::Range { .. }
        | Input::Find { .. } => true,
        _ => false,
    }
}

/// The error that a reply carries.
pub open spec fn error_of(reply: Reply) -> Option<DbError> {
    match reply {
        Reply::OpenDone { result: Err(e) } => Some(e),
        Reply::InsertDone { result: Err(e), .. } => Some(e),
        Reply::UpdateDone { result: Err(e), .. } => Some(e),
        Reply::DeleteDone { result: Err(e), .. } => Some(e),
        Reply::BatchDone { result: Err(r), .. } => Some(r.error),
        Reply::GetDone { result: Err(e), .. } => Some(e),
        Reply::RangeDone { result: Err(e) } => Some(e),
        Reply::FindDone { result: Err(e) } => Some(e),
        _ => None,
    }
}

/// A request for I/O.
pub open spec fn is_io(reply: Reply) -> bool {
    reply is Read || reply is Write || reply is Fsync || reply is Truncate
}

/// A refused operation changes nothing and asks for no I/O.
pub proof fn refusal_is_inert(s: State, input: Input)
    requires
        is_client(input),
        error_of(s.step(input).1) is Some,
    ensures
        s.step(input).0 == s,
        !is_io(s.step(input).1),
{
}

/// After an I/O failure nothing happens any more: every operation is answered
/// with the error, and no request is made.
pub proof fn failure_is_final(s: State, input: Input)
    requires
        s.phase is Failed,
        s.accepts(input),
    ensures
        s.step(input).0 == s,
        error_of(s.step(input).1) == Some(s.phase->Failed_0),
        is_client(input),
{
}

/// While a commit is in flight every operation is turned away, and while the
/// database is being opened too.
pub proof fn one_thing_at_a_time(s: State, input: Input)
    requires
        is_client(input),
        s.phase.committing() || s.phase.opening(),
    ensures
        s.step(input).0 == s,
        error_of(s.step(input).1) == Some(
            if s.phase.opening() {
                DbError::NotOpen
            } else {
                DbError::Busy
            },
        ),
{
}

/// Reads ask for no I/O and leave the database as it is.
pub proof fn reads_change_nothing(s: State, input: Input)
    requires
        input is Get || input is GetFrom || input is Range || input is Find,
    ensures
        s.step(input).0 == (State { verified: s.step(input).0.verified, ..s }),
        !is_io(s.step(input).1),
{
}

/// An open database never overwrites what it stands on: rows are only written
/// behind the committed ones, superblocks only into the slots that the live
/// generation does not occupy, and nothing is ever cut off.
pub proof fn writes_spare_what_is_committed(s: State, input: Input)
    requires
        s.ok(),
        s.accepts(input),
        s.phase is Ready || s.phase.committing(),
    ensures
        !(s.step(input).1 is Truncate),
        s.step(input).1 matches Reply::Write { file, offset, .. } ==> match file {
            FileId::Rows => 32 * s.row_count <= offset < 32 * s.caps,
            FileId::Superblock => offset as int / 64 != sb_slot(s.generation, 0) && offset as int
                / 64 != sb_slot(s.generation, 1),
            FileId::RowsOld => false,
        },
{
    if let Input::Batch { ops } = input {
        if s.write_gate() is None && 0 < ops@.len() <= 128 && s.planned(
            ops@,
            ops@.len() as int,
        ) is Ok {
            planned_ok(s, ops@, ops@.len() as int);
        }
    }
}

/// Only a whole commit changes what is read: until its last sync is done,
/// every step of the protocol leaves the database as it was.
pub proof fn nothing_shows_before_the_commit(s: State, input: Input)
    requires
        s.phase is Ready || s.phase.committing(),
        s.accepts(input),
        !(s.phase is FsyncSb && input is FsyncDone),
    ensures
        s.step(input).0.db == s.db,
        s.step(input).0.row_count == s.row_count,
        s.step(input).0.generation == s.generation,
{
}

/// A database open in salvage mode is read-only.
pub proof fn salvage_is_read_only(s: State, input: Input)
    requires
        s.phase is Degraded,
        s.accepts(input),
    ensures
        !is_io(s.step(input).1),
        s.step(input).0.db == s.db,
        s.step(input).0.phase is Degraded,
        input is Insert || input is Update || input is Delete || input is Batch ==> error_of(
            s.step(input).1,
        ) == Some(DbError::Degraded { quarantined: s.db.quarantined as u64 }),
        input matches Input::Get { id } && !s.db.live.contains_key(id) ==> error_of(s.step(input).1)
            == Some(DbError::Degraded { quarantined: s.db.quarantined as u64 }),
{
}

} // verus!
