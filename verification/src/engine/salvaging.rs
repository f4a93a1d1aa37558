//! What a salvage costs: damage to the rows of one id costs no other.

use crate::engine::commit::run_facts;
use crate::engine::durability::replays_to;
use crate::engine::laws::{contents, delete_contents, step_wf, store_contents};
use crate::engine::log::{
    append_keeps_values, broken_at, broken_from, continues, is_run, replay, replay_step, run_at,
    run_from, value_at, Db, Log,
};
use crate::slot::RowKind;
use vstd::prelude::*;

verus! {

/// The same log, but for rows that cannot be read any more.
pub open spec fn damaged(log: Log, bad: Log) -> bool {
    &&& bad.len() == log.len()
    &&& forall|r: int| 0 <= r < log.len() ==> (#[trigger] bad[r]) is None || bad[r] == log[r]
}

/// None of the rows of this id is damaged.
pub open spec fn spared(log: Log, bad: Log, id: u64) -> bool {
    forall|r: int|
        0 <= r < log.len() && (#[trigger] log[r]) is Some && (log[r]->0).id == id ==> bad[r]
            == log[r]
}

/// Both have the id, with the same value, or neither has it.
pub open spec fn same_about(d: Db, e: Db, id: u64) -> bool {
    &&& contents(d).contains_key(id) == contents(e).contains_key(id)
    &&& contents(d).contains_key(id) ==> contents(d)[id] == contents(e)[id]
}

spec fn valid_rows(log: Log) -> bool {
    forall|r: int| 0 <= r < log.len() && (#[trigger] log[r]) is Some ==> (log[r]->0).valid()
}

proof fn setting_aside_keeps_contents(db: Db, n: int)
    requires
        db.wf(),
        n >= 1,
    ensures
        contents(db.quarantine(n)) == contents(db),
{
    let d = db.quarantine(n);
    let more: Log = Seq::new(n as nat, |i: int| None);
    assert(d.kept == db.kept + more);
    assert forall|x: u64| #[trigger] d.live.contains_key(x) implies value_at(
        d.kept,
        d.live[x] as int,
    ) == value_at(db.kept, db.live[x] as int) by {
        assert(db.bound.contains_key(x) && db.heads(db.bound[x] as int, x));
        append_keeps_values(db.kept, more, db.live[x] as int);
    }
    assert(contents(d) =~= contents(db));
}

/// The rows of a complete run are a run.
proof fn complete_runs_are_runs(log: Log, at: int)
    requires
        valid_rows(log),
        0 <= at < log.len(),
        log[at] is Some,
        (log[at]->0).starts_value(),
        run_at(log, at) is Some,
    ensures
        ({
            let n = run_at(log, at)->0;
            &&& 1 <= n <= 128
            &&& at + n <= log.len()
            &&& is_run(log.subrange(at, at + n))
            &&& log.subrange(at, at + n)[0] == log[at]
        }),
{
    let s = log[at]->0;
    run_facts(log, at, 1, s.more);
    let n = run_at(log, at)->0;
    let run = log.subrange(at, at + n);
    assert forall|i: int| 0 <= i < run.len() implies (#[trigger] run[i]) is Some && (
    run[i]->0).valid() by {
        if i > 0 {
            assert(continues(log, at + i, s.id));
        }
        assert(run[i] == log[at + i]);
    }
    assert forall|i: int| 1 <= i < run.len() implies #[trigger] continues(run, i, s.id) by {
        assert(continues(log, at + i, s.id));
    }
}

/// A step at a row of another id, or at one that cannot be read, leaves this id
/// alone.
proof fn other_steps_spare(log: Log, db: Db, salvage: bool, id: u64)
    requires
        db.wf(),
        valid_rows(log),
        db.kept.len() < log.len() <= u64::MAX,
        replay_step(log, db, salvage) is Go,
        ({
            let row = log[db.kept.len() as int];
            row is Some ==> (row->0).id != id
        }),
    ensures
        same_about(db, replay_step(log, db, salvage)->Go_0, id),
{
    let at = db.kept.len() as int;
    if log[at] is None {
        setting_aside_keeps_contents(db, 1);
    } else {
        let s = log[at]->0;
        if s.starts_value() {
            if run_at(log, at) is Some {
                complete_runs_are_runs(log, at);
                let n = run_at(log, at)->0;
                store_contents(db, log.subrange(at, at + n));
                setting_aside_keeps_contents(db, n);
            } else {
                reaches(log, at, 1, s.more);
                setting_aside_keeps_contents(db, broken_at(log, at));
            }
        } else {
            setting_aside_keeps_contents(db, 1);
            if s.kind == RowKind::Tombstone && db.live.contains_key(s.id) {
                delete_contents(db, s);
            }
        }
    }
}

proof fn reaches(log: Log, head: int, rows: int, more: bool)
    ensures
        broken_from(log, head, rows, more) >= rows,
    decreases log.len() - (head + rows),
{
    if more && rows <= 128 && continues(log, head + rows, (log[head]->0).id) {
        reaches(log, head, rows + 1, (log[head + rows]->0).more);
    }
}

/// Runs end in front of a row that is no continuation.
proof fn ends_there(log: Log, head: int, n: int, rows: int, more: bool)
    requires
        1 <= rows <= n,
        !continues(log, head + n, (log[head]->0).id),
    ensures
        run_from(log, head, rows, more) is Some ==> run_from(log, head, rows, more)->0 <= n,
        broken_from(log, head, rows, more) <= n,
    decreases log.len() - (head + rows),
{
    if more && rows < n && continues(log, head + rows, (log[head]->0).id) {
        ends_there(log, head, n, rows + 1, (log[head + rows]->0).more);
    }
}

/// Whatever damage does to the rows of one value, the salvage gets past them,
/// no further, and leaves every other id alone.
proof fn damage_stays_inside(bad: Log, e: Db, at: int, n: int, sid: u64, id: u64) -> (f: Db)
    requires
        e.wf(),
        valid_rows(bad),
        bad.len() <= u64::MAX,
        sid != id,
        0 <= at <= e.kept.len() <= at + n <= bad.len(),
        forall|r: int|
            at <= r < at + n && (#[trigger] bad[r]) is Some ==> (bad[r]->0).id == sid && (r > at
                ==> (bad[r]->0).kind == RowKind::Chunk),
        bad[at] is Some && !(bad[at]->0).starts_value() ==> n == 1,
        !continues(bad, at + n, sid),
        n >= 1,
    ensures
        f.wf(),
        f.kept.len() == at + n,
        same_about(e, f, id),
        replay(bad, e, true) == replay(bad, f, true),
    decreases at + n - e.kept.len(),
{
    if e.kept.len() == at + n {
        e
    } else {
        let r = e.kept.len() as int;
        let next = replay_step(bad, e, true)->Go_0;
        step_wf(bad, e, true);
        other_steps_spare(bad, e, true, id);
        if bad[r] is Some && (bad[r]->0).starts_value() {
            assert(r == at);
            ends_there(bad, at, n, 1, (bad[at]->0).more);
            reaches(bad, at, 1, (bad[at]->0).more);
            if run_at(bad, at) is Some {
                run_facts(bad, at, 1, (bad[at]->0).more);
            }
        }
        assert(next.kept.len() <= at + n);
        damage_stays_inside(bad, next, at, n, sid, id)
    }
}

proof fn run_is_there(log: Log, bad: Log, head: int, rows: int, more: bool)
    requires
        damaged(log, bad),
        0 <= head,
        1 <= rows <= 128,
        head + rows <= log.len(),
        run_from(log, head, rows, more) is Some,
        bad[head] == log[head],
        forall|r: int|
            head <= r < head + run_from(log, head, rows, more)->0 ==> #[trigger] bad[r] == log[r],
    ensures
        run_from(bad, head, rows, more) == run_from(log, head, rows, more),
    decreases log.len() - (head + rows),
{
    if more {
        run_facts(log, head, rows, more);
        assert(bad[head + rows] == log[head + rows]);
        run_is_there(log, bad, head, rows + 1, (log[head + rows]->0).more);
    }
}

#[verifier::spinoff_prover]
#[verifier::rlimit(40)]
proof fn salvage_follows(log: Log, bad: Log, d0: Db, e0: Db, d: Db, id: u64)
    requires
        damaged(log, bad),
        spared(log, bad, id),
        valid_rows(log),
        log.len() <= u64::MAX,
        d0.wf(),
        e0.wf(),
        d0.kept.len() == e0.kept.len() <= log.len(),
        same_about(d0, e0, id),
        replay(log, d0, false) == (d, None::<&'static str>),
    ensures
        same_about(d, replay(bad, e0, true).0, id),
    decreases log.len() - d0.kept.len(),
{
    let at = d0.kept.len() as int;
    if at < log.len() {
        let d1 = replay_step(log, d0, false)->Go_0;
        step_wf(log, d0, false);
        let n = d1.kept.len() - at;
        let s = log[at]->0;
        assert(replay(log, d1, false) == (d, None::<&'static str>));
        if at + n < log.len() {
            assert(replay_step(log, d1, false) is Go);
            assert((log[at + n]->0).kind != RowKind::Chunk);
        }
        assert(!continues(bad, at + n, s.id));
        if s.starts_value() {
            run_facts(log, at, 1, s.more);
            assert(n == run_at(log, at)->0);
        }
        assert forall|r: int| at <= r < at + n implies (#[trigger] log[r]) is Some && (
        log[r]->0).id == s.id && (r > at ==> (log[r]->0).kind == RowKind::Chunk) by {
            if r > at {
                assert(continues(log, at + (r - at), s.id));
            }
        }
        if s.id == id {
            assert(bad[at] == log[at]);
            let e1 = replay_step(bad, e0, true)->Go_0;
            if s.starts_value() {
                run_is_there(log, bad, at, 1, s.more);
                complete_runs_are_runs(log, at);
                let run = log.subrange(at, at + n);
                assert(bad.subrange(at, at + n) =~= run);
                store_contents(d0, run);
                store_contents(e0, run);
                assert(e1 == e0.store(run));
            } else {
                delete_contents(d0, s);
                delete_contents(e0, s);
            }
            step_wf(bad, e0, true);
            salvage_follows(log, bad, d1, e1, d, id);
        } else {
            other_steps_spare(log, d0, false, id);
            assert forall|r: int| at <= r < at + n && (#[trigger] bad[r]) is Some implies (
            bad[r]->0).id == s.id && (r > at ==> (bad[r]->0).kind == RowKind::Chunk) by {
                assert(bad[r] == log[r]);
            }
            let e1 = damage_stays_inside(bad, e0, at, n, s.id, id);
            salvage_follows(log, bad, d1, e1, d, id);
        }
    }
}

/// Damage costs only what it hits: whatever rows of a sound log cannot be read
/// any more, a salvage finds every id whose own rows were spared exactly as it
/// was, there with its value or not there.
pub proof fn damage_costs_only_what_it_hits(log: Log, bad: Log, db: Db, id: u64)
    requires
        replays_to(log, db),
        log.len() <= u64::MAX,
        forall|r: int| 0 <= r < log.len() && (#[trigger] log[r]) is Some ==> (log[r]->0).valid(),
        damaged(log, bad),
        spared(log, bad, id),
    ensures
        ({
            let (rescued, stopped) = replay(bad, Db::empty(), true);
            &&& stopped is None
            &&& same_about(db, rescued, id)
        }),
{
    crate::engine::log::empty_wf();
    crate::engine::durability::salvage_never_stops(bad);
    salvage_follows(log, bad, Db::empty(), Db::empty(), db, id);
}

} // verus!
