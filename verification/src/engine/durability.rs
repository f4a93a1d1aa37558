//! Why what was committed is what recovery finds.

use crate::engine::commit::run_facts;
use crate::engine::log::{
    all_some, applied, applied_one, continues, live_after, replay, replay_step, run_at, run_from,
    staged_ok, Db, Log, Step,
};
use crate::engine::model::{read_log, sb_counts, sb_newest, State};
use crate::engine::types::{BatchEffect, Reply};
use crate::layout::Manifest;
use crate::slot::{slot_image, Slot};
use vstd::prelude::*;

verus! {

/// A log that replays to this, without a defect.
pub open spec fn replays_to(log: Log, db: Db) -> bool {
    replay(log, Db::empty(), false) == (db, None::<&'static str>)
}

proof fn run_same(a: Log, b: Log, head: int, rows: int, more: bool)
    requires
        0 <= head,
        1 <= rows <= 128,
        head + rows <= a.len() <= b.len(),
        forall|r: int| 0 <= r < a.len() ==> #[trigger] a[r] == b[r],
        run_from(a, head, rows, more) is Some,
    ensures
        run_from(b, head, rows, more) == run_from(a, head, rows, more),
    decreases a.len() - (head + rows),
{
    if more {
        assert(a[head] == b[head]);
        assert(a[head + rows] == b[head + rows]);
        run_same(a, b, head, rows + 1, (a[head + rows]->0).more);
    }
}

/// A replay takes in rows one run after another: what it has taken in is a
/// prefix of the log.
proof fn step_prefix(log: Log, db: Db)
    requires
        db.kept.len() < log.len(),
        db.kept == log.take(db.kept.len() as int),
        replay_step(log, db, false) is Go,
    ensures
        ({
            let d = replay_step(log, db, false)->Go_0;
            &&& db.kept.len() < d.kept.len() <= log.len()
            &&& d.kept == log.take(d.kept.len() as int)
            &&& d.quarantined == db.quarantined
        }),
{
    let at = db.kept.len() as int;
    let d = replay_step(log, db, false)->Go_0;
    let s = log[at]->0;
    if s.starts_value() {
        run_facts(log, at, 1, s.more);
        let n = run_at(log, at)->0;
        assert(d.kept =~= log.take(at + n));
    } else {
        assert(d.kept =~= log.take(at + 1));
    }
}

proof fn step_same(a: Log, b: Log, db: Db)
    requires
        db.kept.len() < a.len() <= b.len(),
        forall|r: int| 0 <= r < a.len() ==> #[trigger] a[r] == b[r],
        replay_step(a, db, false) is Go,
    ensures
        replay_step(b, db, false) == replay_step(a, db, false),
{
    let at = db.kept.len() as int;
    assert(a[at] == b[at]);
    let s = a[at]->0;
    if s.starts_value() {
        run_facts(a, at, 1, s.more);
        run_same(a, b, at, 1, s.more);
        let n = run_at(a, at)->0;
        assert(a.subrange(at, at + n) =~= b.subrange(at, at + n));
    }
}

/// A log that goes on where another ended is replayed by replaying the first
/// and going on.
pub proof fn replay_goes_on(a: Log, b: Log, from: Db, db: Db)
    requires
        a.len() <= b.len(),
        forall|r: int| 0 <= r < a.len() ==> #[trigger] a[r] == b[r],
        from.kept.len() <= a.len(),
        from.kept == a.take(from.kept.len() as int),
        replay(a, from, false) == (db, None::<&'static str>),
    ensures
        replay(b, from, false) == replay(b, db, false),
        db.kept == a,
        db.quarantined == from.quarantined,
    decreases a.len() - from.kept.len(),
{
    if from.kept.len() < a.len() {
        match replay_step(a, from, false) {
            Step::Stop(_) => {},
            Step::Go(d) => {
                step_prefix(a, from);
                step_same(a, b, from);
                replay_goes_on(a, b, d, db);
            },
        }
    } else {
        assert(from.kept =~= a);
    }
}

/// The rows that a complete replay took in are the log's, and none was set
/// aside.
pub proof fn replay_keeps_all(log: Log, db: Db)
    requires
        replays_to(log, db),
    ensures
        db.kept == log,
        db.quarantined == 0,
{
    assert(Db::empty().kept =~= log.take(0));
    replay_goes_on(log, log, Db::empty(), db);
}

/// A strict replay never gets past an unreadable row.
pub proof fn a_hole_stops_the_replay(log: Log, from: Db, r: int)
    requires
        from.kept.len() <= r < log.len(),
        from.kept == log.take(from.kept.len() as int),
        log[r] is None,
    ensures
        replay(log, from, false).1 is Some,
    decreases log.len() - from.kept.len(),
{
    match replay_step(log, from, false) {
        Step::Stop(_) => {},
        Step::Go(d) => {
            step_prefix(log, from);
            let at = from.kept.len() as int;
            let s = log[at]->0;
            if s.starts_value() {
                run_facts(log, at, 1, s.more);
                if r < d.kept.len() {
                    assert(r == at || continues(log, at + (r - at), s.id));
                }
            }
            a_hole_stops_the_replay(log, d, r);
        },
    }
}

proof fn run_is(log: Log, head: int, rows: int, n: int)
    requires
        0 <= head,
        1 <= rows <= n <= 128,
        head + n <= log.len(),
        forall|k: int| rows <= k < n ==> #[trigger] continues(log, head + k, (log[head]->0).id),
        forall|k: int| rows <= k < n ==> ((#[trigger] log[head + k])->0).more == (k + 1 < n),
    ensures
        run_from(log, head, rows, rows < n) == Some(n),
    decreases n - rows,
{
    if rows < n {
        assert(continues(log, head + rows, (log[head]->0).id));
        assert((log[head + rows]->0).more == (rows + 1 < n));
        run_is(log, head, rows + 1, n);
    }
}

/// Appending a commit's slots to a log and replaying them has exactly the
/// effects that the commit had in memory.
pub proof fn commit_replays(db: Db, effects: Seq<BatchEffect>, slots: Seq<Slot>)
    requires
        staged_ok(db.live, db.kept.len() as int, effects, slots),
    ensures
        replay(db.kept + all_some(slots), db, false) == (
            applied(db, effects, slots),
            None::<&'static str>,
        ),
    decreases effects.len(),
{
    let log = db.kept + all_some(slots);
    let at = db.kept.len() as int;
    if effects.len() == 0 {
        assert(log =~= db.kept);
    } else {
        let e = effects[0];
        let n = e.spec_rows();
        let mine = slots.take(n);
        let rest = slots.skip(n);
        let d = applied_one(db, e, mine);
        assert(log[at] == Some(slots[0]));
        assert(mine[0] == slots[0]);
        match e {
            BatchEffect::Store { id, rows, supersedes, .. } => {
                let run = all_some(mine);
                assert(run[0] == Some(mine[0]));
                assert forall|k: int| 1 <= k < n implies #[trigger] continues(
                    log,
                    at + k,
                    (log[at]->0).id,
                ) by {
                    assert(continues(run, k, (run[0]->0).id));
                    assert(run[k] == Some(mine[k]) && log[at + k] == Some(slots[k]) && mine[k]
                        == slots[k]);
                }
                assert forall|k: int| 1 <= k < n implies ((#[trigger] log[at + k])->0).more == (k + 1
                    < n) by {
                    assert(mine[k].more == (k + 1 < n));
                    assert(log[at + k] == Some(slots[k]) && mine[k] == slots[k]);
                }
                run_is(log, at, 1, n);
                assert(mine[0].more == (1 < n));
                assert(log.subrange(at, at + n) =~= run) by {
                    assert forall|k: int| 0 <= k < n implies log.subrange(at, at + n)[k]
                        == #[trigger] run[k] by {
                        assert(run[k] == Some(mine[k]) && mine[k] == slots[k]);
                    }
                }
                assert(d.kept =~= db.kept + run);
                assert(replay_step(log, db, false) == Step::Go(d));
            },
            BatchEffect::Delete { .. } => {
                assert(replay_step(log, db, false) == Step::Go(d));
            },
        }
        assert(d.kept + all_some(rest) =~= log) by {
            assert forall|r: int| 0 <= r < log.len() implies (d.kept + all_some(rest))[r] == #[trigger] log[r] by {
                if r >= at + n {
                    assert(rest[r - at - n] == slots[r - at]);
                } else if r >= at {
                    assert(mine[r - at] == slots[r - at]);
                }
            }
        }
        assert(d.live =~= live_after(db.live, e));
        commit_replays(d, effects.drop_first(), rest);
    }
}

/// Committing keeps a log replayable: after any commit, replaying the rows on
/// disk from scratch gives exactly what is in memory.
pub proof fn commit_is_durable(db: Db, effects: Seq<BatchEffect>, slots: Seq<Slot>)
    requires
        replays_to(db.kept, db),
        staged_ok(db.live, db.kept.len() as int, effects, slots),
    ensures
        replays_to(db.kept + all_some(slots), applied(db, effects, slots)),
        applied(db, effects, slots).kept == db.kept + all_some(slots),
{
    let log = db.kept + all_some(slots);
    assert(Db::empty().kept =~= db.kept.take(0));
    replay_goes_on(db.kept, log, Db::empty(), db);
    commit_replays(db, effects, slots);
    replay_keeps_all(log, applied(db, effects, slots));
}

/// Rows written as these slots read back as them.
pub proof fn written_rows_read_back(data: Seq<u8>, n: int, kept: Log)
    requires
        0 <= n == kept.len(),
        32 * n <= data.len(),
        forall|r: int|
            0 <= r < n ==> (#[trigger] kept[r]) is Some && (kept[r]->0).valid() && data.subrange(
                32 * r,
                32 * r + 32,
            ) == slot_image(kept[r]->0),
    ensures
        read_log(data, n) == kept,
{
    let log = read_log(data, n);
    assert forall|r: int| 0 <= r < n implies #[trigger] log[r] == kept[r] by {
        let chunk = data.subrange(32 * r, 32 * r + 32);
        assert(chunk == slot_image(kept[r]->0));
        crate::slot::slot_parses_its_image(chunk, kept[r]->0);
        assert(chunk.take(32) =~= chunk);
    }
    assert(log =~= kept);
}

// ---- Salvage ----

proof fn broken_facts(log: Log, head: int, rows: int, more: bool)
    requires
        0 <= head,
        1 <= rows,
        head + rows <= log.len(),
    ensures
        crate::engine::log::broken_from(log, head, rows, more) >= rows,
        head + crate::engine::log::broken_from(log, head, rows, more) <= log.len(),
    decreases log.len() - (head + rows),
{
    if more && rows <= 128 && continues(log, head + rows, (log[head]->0).id) {
        broken_facts(log, head, rows + 1, (log[head + rows]->0).more);
    }
}

/// What a salvage has kept of the rows it has been through: each as it was,
/// or set aside.
pub open spec fn kept_of(log: Log, db: Db) -> bool {
    &&& db.kept.len() <= log.len()
    &&& forall|r: int|
        0 <= r < db.kept.len() ==> (#[trigger] db.kept[r]) == log[r] || db.kept[r] is None
}

proof fn salvage_from(log: Log, db: Db)
    requires
        kept_of(log, db),
    ensures
        ({
            let (d, stopped) = replay(log, db, true);
            &&& stopped is None
            &&& d.kept.len() == log.len()
            &&& kept_of(log, d)
        }),
    decreases log.len() - db.kept.len(),
{
    let at = db.kept.len() as int;
    if at < log.len() {
        let step = replay_step(log, db, true);
        if log[at] is Some && (log[at]->0).starts_value() {
            broken_facts(log, at, 1, (log[at]->0).more);
            if run_at(log, at) is Some {
                run_facts(log, at, 1, (log[at]->0).more);
            }
        }
        let d = step->Go_0;
        assert(step is Go);
        assert(at < d.kept.len() <= log.len());
        assert forall|r: int| 0 <= r < d.kept.len() implies (#[trigger] d.kept[r]) == log[r]
            || d.kept[r] is None by {
            if r < at {
                assert(d.kept[r] == db.kept[r]);
            }
        }
        salvage_from(log, d);
    }
}

/// Opening in salvage mode never stops at damage, and never invents a row:
/// every row is either as it was read or set aside.
pub proof fn salvage_never_stops(log: Log)
    ensures
        ({
            let (d, stopped) = replay(log, Db::empty(), true);
            &&& stopped is None
            &&& d.kept.len() == log.len()
            &&& kept_of(log, d)
        }),
{
    salvage_from(log, Db::empty());
}

/// On a log without damage, salvage and strict recovery agree.
pub proof fn salvage_of_sound_log(log: Log, from: Db, db: Db)
    requires
        from.kept.len() <= log.len(),
        from.kept == log.take(from.kept.len() as int),
        replay(log, from, false) == (db, None::<&'static str>),
    ensures
        replay(log, from, true) == (db, None::<&'static str>),
    decreases log.len() - from.kept.len(),
{
    if from.kept.len() < log.len() {
        match replay_step(log, from, false) {
            Step::Stop(_) => {},
            Step::Go(d) => {
                step_prefix(log, from);
                assert(replay_step(log, from, true) == Step::Go(d));
                salvage_of_sound_log(log, d, db);
            },
        }
    }
}

// ---- The superblock flip ----

/// The newest of the copies that count is the one elected.
pub proof fn newest_is_elected(data: Seq<u8>, n: int)
    requires
        n >= 0,
    ensures
        sb_newest(data, n) is None ==> forall|i: int| 0 <= i < n ==> (#[trigger] sb_counts(
            data,
            i,
        )) is None,
        sb_newest(data, n) is Some ==> {
            let m = sb_newest(data, n)->0;
            &&& exists|i: int| 0 <= i < n && #[trigger] sb_counts(data, i) == Some(m)
            &&& forall|i: int|
                0 <= i < n && (#[trigger] sb_counts(data, i)) is Some ==> sb_counts(
                    data,
                    i,
                )->0.generation <= m.generation
        },
    decreases n,
{
    if n > 0 {
        newest_is_elected(data, n - 1);
        let m = sb_newest(data, n);
        if m is Some {
            if sb_counts(data, n - 1) == m {
            } else {
                assert(sb_newest(data, n - 1) == m);
            }
        }
    }
}

/// A crash at any point of a commit is all or nothing.
///
/// The superblock zone holds the live manifest and, besides it, nothing newer
/// than the one that the commit in flight installs; the rows file holds the
/// committed rows and, if a copy of the new manifest made it to disk, the
/// commit's rows too (they are synced first). Then recovery finds either
/// exactly the state before the commit or exactly the state after it.
pub proof fn crash_is_atomic(s: State, zone: Seq<u8>, rows: Seq<u8>, old_m: Manifest, new_m: Manifest)
    requires
        replays_to(s.db.kept, s.db),
        s.row_count == s.db.kept.len(),
        staged_ok(s.db.live, s.row_count as int, s.effects, s.slots),
        s.generation < u64::MAX,
        s.row_count + s.slots.len() <= u64::MAX,
        old_m.generation == s.generation,
        old_m.row_count == s.row_count,
        new_m.generation == s.generation + 1,
        new_m.row_count == s.row_count + s.slots.len(),
        exists|i: int| 0 <= i < 4 && #[trigger] sb_counts(zone, i) == Some(old_m),
        forall|i: int|
            0 <= i < 4 && (#[trigger] sb_counts(zone, i)) is Some ==> {
                let m = sb_counts(zone, i)->0;
                m.generation < s.generation || m == old_m || m == new_m
            },
        read_log(rows, s.row_count as int) == s.db.kept,
        (exists|i: int| 0 <= i < 4 && #[trigger] sb_counts(zone, i) == Some(new_m)) ==> read_log(
            rows,
            s.row_count + s.slots.len(),
        ) == s.db.kept + all_some(s.slots),
    ensures
        ({
            let m = sb_newest(zone, 4);
            let found = replay(read_log(rows, m->0.row_count as int), Db::empty(), false);
            ||| m == Some(old_m) && found == (s.db, None::<&'static str>)
            ||| m == Some(new_m) && found == (
                applied(s.db, s.effects, s.slots),
                None::<&'static str>,
            )
        }),
{
    newest_is_elected(zone, 4);
    let i = choose|i: int| 0 <= i < 4 && #[trigger] sb_counts(zone, i) == Some(old_m);
    assert(sb_counts(zone, i) == Some(old_m));
    let m = sb_newest(zone, 4)->0;
    let j = choose|j: int| 0 <= j < 4 && #[trigger] sb_counts(zone, j) == Some(m);
    assert(sb_counts(zone, j) == Some(m));
    if m == new_m {
        commit_is_durable(s.db, s.effects, s.slots);
    }
}

// ---- Reopening ----

/// The inputs that take a new engine through a clean open: the superblock
/// zone, the rows if there are any, and the completions asked for.
pub open spec fn reopened(caps: u64, zone: Seq<u8>, rows: Seq<u8>) -> (State, Reply) {
    let asked = crate::engine::model::created(caps).open(256, rows.len() as u64).0;
    let read = asked.read_done(zone).0;
    let replayed = if read.phase is RecoverReadRows {
        read.read_done(rows).0
    } else {
        read
    };
    let synced = replayed.fsync_done().0;
    let repaired = if synced.phase is RecoverRepairSb {
        synced.write_done().0
    } else {
        synced
    };
    repaired.fsync_done()
}

/// Reopening a database whose commits all completed gives back exactly the
/// database that was closed.
pub proof fn reopening_restores(s: State, caps: u64, zone: Seq<u8>, rows: Seq<u8>, m: Manifest)
    requires
        s.ok(),
        s.phase is Ready,
        s.row_count <= caps,
        crate::engine::tables::sizeable(caps),
        sb_newest(zone, 4) == Some(m),
        m.generation == s.generation,
        m.row_count == s.row_count,
        rows.len() == 32 * s.row_count,
        read_log(rows, s.row_count as int) == s.db.kept,
    ensures
        ({
            let (t, reply) = reopened(caps, zone, rows);
            &&& t.phase is Ready
            &&& t.db == s.db
            &&& t.generation == s.generation
            &&& t.row_count == s.row_count
            &&& reply == Reply::OpenDone { result: Ok(s.row_count) }
        }),
{
    if s.row_count == 0 {
        assert(s.db.kept =~= Seq::empty());
        assert(replays_to(Seq::empty(), Db::empty()));
        assert(s.db == Db::empty());
    }
}

} // verus!
