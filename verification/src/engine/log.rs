//! What the committed rows mean.
//!
//! The rows file is a log of slots. This module says what a log holds: which
//! slots make up a value, which row an id is live in, and what replaying a log
//! slot by slot yields.

use crate::defect;
use crate::engine::types::BatchEffect;
use crate::slot::{RowKind, Slot};
use vstd::prelude::*;

verus! {

/// A log: one entry per row, `None` where nothing readable is.
pub type Log = Seq<Option<Slot>>;

/// Row `r` continues a value of `id`.
pub open spec fn continues(log: Log, r: int, id: u64) -> bool {
    &&& 0 <= r < log.len()
    &&& log[r] is Some
    &&& (log[r]->0).kind == RowKind::Chunk
    &&& (log[r]->0).id == id
}

/// The rows of the value that starts at `head`, given that the first `rows`
/// belong to it: every continuation that follows does too.
pub open spec fn extent_from(log: Log, head: int, rows: int) -> int
    decreases log.len() - (head + rows),
{
    if continues(log, head + rows, (log[head]->0).id) {
        extent_from(log, head, rows + 1)
    } else {
        rows
    }
}

/// How many rows the value that starts at `head` takes.
pub open spec fn extent(log: Log, head: int) -> int {
    extent_from(log, head, 1)
}

/// The payloads of `rows` rows from `head`, joined.
pub open spec fn bytes_of(log: Log, head: int, rows: int) -> Seq<u8>
    decreases rows,
{
    if rows <= 0 {
        Seq::empty()
    } else {
        bytes_of(log, head, rows - 1) + (log[head + rows - 1]->0).payload()
    }
}

/// The value that starts at `head`.
pub open spec fn value_at(log: Log, head: int) -> Seq<u8> {
    bytes_of(log, head, extent(log, head))
}

/// The rows of a complete run: from its head, one continuation after another
/// as long as a row says that more follows. `None` if a continuation is
/// missing, foreign, or one too many for a commit.
pub open spec fn run_from(log: Log, head: int, rows: int, more: bool) -> Option<int>
    decreases log.len() - (head + rows),
{
    if !more {
        Some(rows)
    } else if !continues(log, head + rows, (log[head]->0).id) || rows >= 128 {
        None
    } else {
        run_from(log, head, rows + 1, (log[head + rows]->0).more)
    }
}

pub open spec fn run_at(log: Log, head: int) -> Option<int> {
    run_from(log, head, 1, (log[head]->0).more)
}

/// How far a broken run reaches: up to its first missing continuation.
pub open spec fn broken_from(log: Log, head: int, rows: int, more: bool) -> int
    decreases log.len() - (head + rows),
{
    if more && rows <= 128 && continues(log, head + rows, (log[head]->0).id) {
        broken_from(log, head, rows + 1, (log[head + rows]->0).more)
    } else {
        rows
    }
}

pub open spec fn broken_at(log: Log, head: int) -> int {
    broken_from(log, head, 1, (log[head]->0).more)
}

pub open spec fn lookup(m: Map<u64, u64>, k: u64) -> Option<u64> {
    if m.contains_key(k) {
        Some(m[k])
    } else {
        None
    }
}

pub open spec fn one_if(b: bool) -> int {
    if b {
        1
    } else {
        0
    }
}

/// What a log amounts to.
#[verifier::ext_equal]
pub struct Db {
    /// The rows taken in, `None` where a row was quarantined.
    pub kept: Log,
    /// The row in which each live id's value starts.
    pub live: Map<u64, u64>,
    /// The row in which each id's last value started, live or not.
    pub bound: Map<u64, u64>,
    /// Every value taken in, by the row it starts in, superseded ones too.
    pub values: Map<int, Seq<u8>>,
    /// Values superseded or deleted.
    pub retired: int,
    pub tombstones: int,
    /// Rows that continue a value.
    pub chunks: int,
    /// Those of them whose value was superseded or deleted.
    pub lost: int,
    /// Values longer than one row.
    pub long_values: int,
    /// Rows set aside as unreadable.
    pub quarantined: int,
}

impl Db {
    pub open spec fn empty() -> Db {
        Db {
            kept: Seq::empty(),
            live: Map::empty(),
            bound: Map::empty(),
            values: Map::empty(),
            retired: 0,
            tombstones: 0,
            chunks: 0,
            lost: 0,
            long_values: 0,
            quarantined: 0,
        }
    }

    /// After setting `n` rows aside.
    pub open spec fn quarantine(self, n: int) -> Db {
        Db {
            kept: self.kept + Seq::new(n as nat, |i: int| None),
            quarantined: self.quarantined + n,
            ..self
        }
    }

    /// The rows that continue an id's live value, if it has one.
    pub open spec fn trailing(self, id: u64) -> int {
        if self.live.contains_key(id) {
            extent(self.kept, self.live[id] as int) - 1
        } else {
            0
        }
    }

    /// After taking in a run: one value, from its head row on.
    pub open spec fn store(self, run: Log) -> Db {
        let id = (run[0]->0).id;
        let at = self.kept.len();
        Db {
            kept: self.kept + run,
            live: self.live.insert(id, at as u64),
            bound: self.bound.insert(id, at as u64),
            values: self.values.insert(at as int, bytes_of(run, 0, run.len() as int)),
            retired: self.retired + one_if(self.live.contains_key(id)),
            chunks: self.chunks + run.len() - 1,
            lost: self.lost + self.trailing(id),
            long_values: self.long_values + one_if(run.len() > 1),
            ..self
        }
    }

    /// After taking in a tombstone for a live id.
    pub open spec fn delete(self, slot: Slot) -> Db {
        Db {
            kept: self.kept.push(Some(slot)),
            live: self.live.remove(slot.id),
            retired: self.retired + 1,
            tombstones: self.tombstones + 1,
            lost: self.lost + self.trailing(slot.id),
            ..self
        }
    }

    /// Does a live value start in this row?
    pub open spec fn is_live(self, row: int) -> bool {
        &&& 0 <= row < self.kept.len()
        &&& self.kept[row] is Some
        &&& self.live.contains_key((self.kept[row]->0).id)
        &&& self.live[(self.kept[row]->0).id] == row
    }

    /// Rows that hold nothing a reader can reach: all but the rows of live
    /// values, and but those set aside.
    pub open spec fn dead(self) -> int {
        self.kept.len() - self.quarantined - live_slots(self, self.kept.len() as int)
    }

    /// The invariant: ids are bound to rows that start their values, the
    /// values are what those rows hold, and every row is accounted for.
    pub open spec fn wf(self) -> bool {
        &&& forall|r: int| 0 <= r < self.kept.len() && (#[trigger] self.kept[r]) is Some ==> (
        self.kept[r]->0).valid()
        &&& self.kept.len() <= u64::MAX
        &&& self.live.dom().finite()
        &&& self.bound.dom().finite()
        &&& self.bound.dom().len() <= self.kept.len()
        &&& forall|id: u64| #[trigger]
            self.live.contains_key(id) ==> self.bound.contains_key(id) && self.live[id]
                == self.bound[id]
        &&& forall|id: u64| #[trigger] self.bound.contains_key(id) ==> self.heads(self.bound[id] as int, id)
        &&& forall|h: int| #[trigger] self.values.contains_key(h) ==> self.holds(h)
        &&& crate::trigram::laid_out(self.values, self.kept.len() as int)
        &&& forall|r: int|
            0 <= r < self.kept.len() && (#[trigger] self.kept[r]) is Some && (self.kept[r]->0).kind
                == RowKind::Chunk ==> self.long_values > 0
        &&& self.retired >= 0
        &&& self.tombstones >= 0
        &&& self.chunks >= 0
        &&& self.long_values >= 0
        &&& self.long_values <= self.chunks
        &&& self.quarantined >= 0
        &&& self.lost >= 0
        &&& self.live.dom().len() + self.retired + self.tombstones + self.chunks + self.quarantined
            == self.kept.len()
        &&& live_slots(self, self.kept.len() as int) == self.live.dom().len() + self.chunks
            - self.lost
    }

    /// Row `r` starts a value of `id`.
    pub open spec fn heads(self, r: int, id: u64) -> bool {
        &&& 0 <= r < self.kept.len()
        &&& self.kept[r] is Some
        &&& (self.kept[r]->0).id == id
        &&& self.values.contains_key(r)
    }

    /// The value recorded for row `h` is the one that starts there.
    pub open spec fn holds(self, h: int) -> bool {
        &&& 0 <= h < self.kept.len()
        &&& self.kept[h] is Some
        &&& (self.kept[h]->0).starts_value()
        &&& 1 <= extent(self.kept, h) <= 128
        &&& h + extent(self.kept, h) <= self.kept.len()
        &&& self.values[h] == value_at(self.kept, h)
        &&& self.values[h].len() <= 16 * extent(self.kept, h)
        &&& forall|k: int|
            1 <= k < extent(self.kept, h) ==> #[trigger] continues(
                self.kept,
                h + k,
                (self.kept[h]->0).id,
            )
    }
}

/// The rows that the live values among the first `n` rows take.
pub open spec fn live_slots(db: Db, n: int) -> int
    decreases n,
{
    if n <= 0 {
        0
    } else {
        live_slots(db, n - 1) + if db.is_live(n - 1) {
            extent(db.kept, n - 1)
        } else {
            0
        }
    }
}

/// A run that a commit may append: a head and its continuations, all valid and
/// of one id.
pub open spec fn is_run(run: Log) -> bool {
    &&& 1 <= run.len() <= 128
    &&& forall|i: int| 0 <= i < run.len() ==> (#[trigger] run[i]) is Some && (run[i]->0).valid()
    &&& (run[0]->0).starts_value()
    &&& forall|i: int| 1 <= i < run.len() ==> #[trigger] continues(run, i, (run[0]->0).id)
}

/// One step of a replay: the first row not yet taken in is taken in, with its
/// whole run, or set aside, or the replay stops at it.
pub enum Step {
    Stop(&'static str),
    Go(Db),
}

pub open spec fn reject(db: Db, rows: int, salvage: bool, what: &'static str) -> Step {
    if salvage {
        Step::Go(db.quarantine(rows))
    } else {
        Step::Stop(what)
    }
}

pub open spec fn replay_step(log: Log, db: Db, salvage: bool) -> Step {
    let at = db.kept.len() as int;
    match log[at] {
        None => reject(db, 1, salvage, defect::ROW_CHECKSUM),
        Some(s) => match s.kind {
            RowKind::Record | RowKind::Update => match run_at(log, at) {
                None => reject(db, broken_at(log, at), salvage, defect::TRUNCATED_VALUE),
                Some(rows) => if s.kind == RowKind::Record && db.live.contains_key(s.id) {
                    reject(db, rows, salvage, defect::DUPLICATE_ID)
                } else if s.kind == RowKind::Update && !db.live.contains_key(s.id) {
                    reject(db, rows, salvage, defect::ORPHAN_UPDATE)
                } else {
                    Step::Go(db.store(log.subrange(at, at + rows)))
                },
            },
            RowKind::Chunk => reject(db, 1, salvage, defect::ORPHAN_CHUNK),
            RowKind::Tombstone => if db.live.contains_key(s.id) && !s.more {
                Step::Go(db.delete(s))
            } else {
                reject(db, 1, salvage, defect::ORPHAN_TOMBSTONE)
            },
        },
    }
}

/// Replay the rest of a log onto what its first rows amount to. The second
/// part names the defect that stopped it, if one did.
pub open spec fn replay(log: Log, db: Db, salvage: bool) -> (Db, Option<&'static str>)
    decreases log.len() - db.kept.len(),
{
    if db.kept.len() >= log.len() {
        (db, None)
    } else {
        match replay_step(log, db, salvage) {
            Step::Stop(what) => (db, Some(what)),
            Step::Go(d) => if db.kept.len() < d.kept.len() <= log.len() {
                replay(log, d, salvage)
            } else {
                (db, None)
            },
        }
    }
}

pub open spec fn all_some(slots: Seq<Slot>) -> Log {
    slots.map_values(|s: Slot| Some(s))
}

/// What one effect of a commit does.
pub open spec fn applied_one(db: Db, e: BatchEffect, slots: Seq<Slot>) -> Db {
    match e {
        BatchEffect::Store { .. } => db.store(all_some(slots)),
        BatchEffect::Delete { .. } => db.delete(slots[0]),
    }
}

/// What a commit does: its effects in turn, each with its own slots.
pub open spec fn applied(db: Db, effects: Seq<BatchEffect>, slots: Seq<Slot>) -> Db
    decreases effects.len(),
{
    if effects.len() == 0 {
        db
    } else {
        let n = effects[0].spec_rows();
        applied(
            applied_one(db, effects[0], slots.take(n)),
            effects.drop_first(),
            slots.skip(n),
        )
    }
}

/// The live rows once `e` has been applied.
pub open spec fn live_after(live: Map<u64, u64>, e: BatchEffect) -> Map<u64, u64> {
    match e {
        BatchEffect::Store { id, at, .. } => live.insert(id, at),
        BatchEffect::Delete { id, .. } => live.remove(id),
    }
}

/// The slots are what the effect says it writes, and the effect is one that
/// the live rows allow.
pub open spec fn shaped(live: Map<u64, u64>, e: BatchEffect, slots: Seq<Slot>) -> bool {
    &&& forall|i: int| 0 <= i < slots.len() ==> (#[trigger] slots[i]).valid()
    &&& match e {
        BatchEffect::Store { id, rows, supersedes, .. } => {
            &&& slots.len() == rows
            &&& is_run(all_some(slots))
            &&& slots[0].id == id
            &&& (slots[0].kind == RowKind::Update) == (supersedes is Some)
            &&& supersedes == lookup(live, id)
            &&& forall|i: int| 0 <= i < slots.len() ==> (#[trigger] slots[i]).more == (i + 1 < rows)
        },
        BatchEffect::Delete { id, record_row, .. } => {
            &&& slots.len() == 1
            &&& slots[0].kind == RowKind::Tombstone
            &&& slots[0].id == id
            &&& !slots[0].more
            &&& lookup(live, id) == Some(record_row)
        },
    }
}

/// A commit that can be applied at row `at`: effects and slots fit each other
/// and the live rows, one after another.
pub open spec fn staged_ok(
    live: Map<u64, u64>,
    at: int,
    effects: Seq<BatchEffect>,
    slots: Seq<Slot>,
) -> bool
    decreases effects.len(),
{
    if effects.len() == 0 {
        slots.len() == 0
    } else {
        let n = effects[0].spec_rows();
        &&& n <= slots.len()
        &&& effects[0].spec_at() == at
        &&& shaped(live, effects[0], slots.take(n))
        &&& staged_ok(
            live_after(live, effects[0]),
            at + n,
            effects.drop_first(),
            slots.skip(n),
        )
    }
}

/// Extents only look at what follows up to the first row that is no
/// continuation, so rows appended behind such a row change nothing.
pub proof fn extent_facts(log: Log, head: int, rows: int)
    requires
        0 <= head,
        1 <= rows,
        head + rows <= log.len(),
    ensures
        extent_from(log, head, rows) >= rows,
        head + extent_from(log, head, rows) <= log.len(),
        forall|k: int|
            rows <= k < extent_from(log, head, rows) ==> #[trigger] continues(
                log,
                head + k,
                (log[head]->0).id,
            ),
        !continues(log, head + extent_from(log, head, rows), (log[head]->0).id),
    decreases log.len() - (head + rows),
{
    if continues(log, head + rows, (log[head]->0).id) {
        extent_facts(log, head, rows + 1);
    }
}

pub proof fn extent_is(log: Log, head: int, rows: int, n: int)
    requires
        0 <= head < log.len(),
        1 <= rows <= n,
        forall|k: int|
            rows <= k < n ==> #[trigger] continues(log, head + k, (log[head]->0).id),
        !continues(log, head + n, (log[head]->0).id),
    ensures
        extent_from(log, head, rows) == n,
    decreases n - rows,
{
    if rows < n {
        assert(continues(log, head + rows, (log[head]->0).id));
        extent_is(log, head, rows + 1, n);
    }
}

pub proof fn bytes_same(a: Log, b: Log, ha: int, hb: int, rows: int)
    requires
        forall|k: int| 0 <= k < rows ==> #[trigger] a[ha + k] == b[hb + k],
    ensures
        bytes_of(a, ha, rows) == bytes_of(b, hb, rows),
    decreases rows,
{
    if rows > 0 {
        bytes_same(a, b, ha, hb, rows - 1);
        assert(a[ha + (rows - 1)] == b[hb + (rows - 1)]);
    }
}

pub proof fn bytes_len(log: Log, head: int, rows: int)
    requires
        forall|k: int|
            0 <= k < rows ==> (#[trigger] log[head + k]) is Some && (log[head + k]->0).valid(),
    ensures
        bytes_of(log, head, rows).len() <= 16 * (if rows < 0 {
            0
        } else {
            rows
        }),
    decreases rows,
{
    if rows > 0 {
        bytes_len(log, head, rows - 1);
        assert((log[head + (rows - 1)]->0).valid());
    }
}

/// Appending rows whose first is no continuation leaves every earlier value as
/// it was.
pub proof fn append_keeps_values(log: Log, more: Log, h: int)
    requires
        0 <= h < log.len(),
        more.len() > 0 ==> !(more[0] is Some && (more[0]->0).kind == RowKind::Chunk),
    ensures
        extent(log + more, h) == extent(log, h),
        value_at(log + more, h) == value_at(log, h),
{
    let all = log + more;
    let n = extent(log, h);
    extent_facts(log, h, 1);
    assert(all[h] == log[h]);
    assert forall|k: int| 1 <= k < n implies #[trigger] continues(all, h + k, (all[h]->0).id) by {
        assert(continues(log, h + k, (log[h]->0).id));
    }
    assert(!continues(all, h + n, (all[h]->0).id)) by {
        if h + n < log.len() {
            assert(all[h + n] == log[h + n]);
        } else if h + n < all.len() {
            assert(all[h + n] == more[0]);
        }
    }
    extent_is(all, h, 1, n);
    bytes_same(all, log, h, h, n);
}

proof fn append_holds(db: Db, d: Db, h: int)
    requires
        db.holds(h),
        exists|more: Log| d.kept == #[trigger] (db.kept + more) && (more.len() > 0 ==> !(
        more[0] is Some && (more[0]->0).kind == RowKind::Chunk)),
        d.values.contains_key(h),
        d.values[h] == db.values[h],
    ensures
        d.holds(h),
        extent(d.kept, h) == extent(db.kept, h),
{
    let more = choose|more: Log| d.kept == #[trigger] (db.kept + more) && (more.len() > 0 ==> !(
    more[0] is Some && (more[0]->0).kind == RowKind::Chunk));
    append_keeps_values(db.kept, more, h);
    assert forall|k: int| 1 <= k < extent(d.kept, h) implies #[trigger] continues(
        d.kept,
        h + k,
        (d.kept[h]->0).id,
    ) by {
        assert(continues(db.kept, h + k, (db.kept[h]->0).id));
    }
}

pub proof fn live_slots_bound(db: Db, n: int)
    requires
        n <= db.kept.len(),
    ensures
        live_slots(db, n) >= 0,
    decreases n,
{
    if n > 0 {
        live_slots_bound(db, n - 1);
        if db.is_live(n - 1) {
            extent_facts(db.kept, n - 1, 1);
        }
    }
}

/// The dead rows are the superseded and deleted values, with the rows that
/// continue them, and the tombstones.
pub proof fn dead_counts(db: Db)
    requires
        db.wf(),
    ensures
        db.dead() == db.retired + db.tombstones + db.lost,
        db.dead() <= db.kept.len(),
{
    live_slots_bound(db, db.kept.len() as int);
}

/// Rows are appended, and the value that starts in row `gone` is live no more.
proof fn live_slots_after(db: Db, d: Db, more: Log, gone: int, n: int)
    requires
        n <= db.kept.len(),
        d.kept == db.kept + more,
        more.len() > 0 ==> !(more[0] is Some && (more[0]->0).kind == RowKind::Chunk),
        forall|r: int|
            0 <= r < n ==> #[trigger] d.is_live(r) == (db.is_live(r) && r != gone),
    ensures
        live_slots(d, n) == live_slots(db, n) - (if 0 <= gone < n && db.is_live(gone) {
            extent(db.kept, gone)
        } else {
            0
        }),
    decreases n,
{
    if n > 0 {
        live_slots_after(db, d, more, gone, n - 1);
        append_keeps_values(db.kept, more, n - 1);
        assert(d.is_live(n - 1) == (db.is_live(n - 1) && n - 1 != gone));
    }
}

/// Rows in which no live value starts take nothing.
proof fn live_slots_flat(db: Db, from: int, n: int)
    requires
        0 <= from <= n,
        forall|r: int| from <= r < n ==> !#[trigger] db.is_live(r),
    ensures
        live_slots(db, n) == live_slots(db, from),
    decreases n,
{
    if from < n {
        live_slots_flat(db, from, n - 1);
        assert(!db.is_live(n - 1));
    }
}

/// The row that a live value starts in.
proof fn live_row_is_live(db: Db, id: u64)
    requires
        db.wf(),
        db.live.contains_key(id),
    ensures
        db.is_live(db.live[id] as int),
        db.holds(db.live[id] as int),
{
    assert(db.heads(db.bound[id] as int, id));
}

pub proof fn quarantine_wf(db: Db, n: int)
    requires
        db.wf(),
        n >= 1,
        db.kept.len() + n <= u64::MAX,
    ensures
        db.quarantine(n).wf(),
{
    let d = db.quarantine(n);
    let more: Log = Seq::new(n as nat, |i: int| None);
    assert(d.kept == db.kept + more);
    assert forall|r: int| 0 <= r < d.kept.len() && (#[trigger] d.kept[r]) is Some implies r
        < db.kept.len() && d.kept[r] == db.kept[r] by {}
    assert forall|h: int| #[trigger] d.values.contains_key(h) implies d.holds(h) by {
        assert(db.values.contains_key(h));
        append_holds(db, d, h);
    }
    assert forall|id: u64| #[trigger] d.bound.contains_key(id) implies d.heads(
        d.bound[id] as int,
        id,
    ) by {
        assert(db.heads(db.bound[id] as int, id));
    }
    assert forall|r: int| 0 <= r < db.kept.len() implies #[trigger] d.is_live(r) == (db.is_live(r)
        && r != -1) by {
        assert(d.kept[r] == db.kept[r]);
    }
    live_slots_after(db, d, more, -1, db.kept.len() as int);
    live_slots_flat(d, db.kept.len() as int, d.kept.len() as int);
}

/// How a run changes what live values take.
proof fn store_slots(db: Db, run: Log)
    requires
        db.wf(),
        is_run(run),
        extent(db.store(run).kept, db.kept.len() as int) == run.len(),
        db.kept.len() + run.len() <= u64::MAX,
    ensures
        live_slots(db.store(run), (db.kept.len() + run.len()) as int) == live_slots(
            db,
            db.kept.len() as int,
        ) + run.len() - (if db.live.contains_key((run[0]->0).id) {
            db.trailing((run[0]->0).id) + 1
        } else {
            0
        }),
{
    let d = db.store(run);
    let at = db.kept.len() as int;
    let id = (run[0]->0).id;
    let gone = if db.live.contains_key(id) {
        db.live[id] as int
    } else {
        -1
    };
    if db.live.contains_key(id) {
        live_row_is_live(db, id);
    }
    assert forall|r: int| 0 <= r < at implies #[trigger] d.is_live(r) == (db.is_live(r) && r
        != gone) by {
        assert(d.kept[r] == db.kept[r]);
    }
    live_slots_after(db, d, run, gone, at);
    assert(d.kept[at] == run[0]);
    assert(d.is_live(at));
    assert(live_slots(d, at + 1) == live_slots(d, at) + run.len());
    assert forall|r: int| at + 1 <= r < at + run.len() implies !#[trigger] d.is_live(r) by {
        assert(continues(run, r - at, id));
        assert(d.kept[r] == run[r - at]);
    }
    live_slots_flat(d, at + 1, at + run.len());
}

#[verifier::rlimit(40)]
pub proof fn store_wf(db: Db, run: Log)
    requires
        db.wf(),
        is_run(run),
        db.kept.len() + run.len() <= u64::MAX,
    ensures
        db.store(run).wf(),
        extent(db.store(run).kept, db.kept.len() as int) == run.len(),
        value_at(db.store(run).kept, db.kept.len() as int) == bytes_of(run, 0, run.len() as int),
        bytes_of(run, 0, run.len() as int).len() <= 16 * run.len(),
{
    let d = db.store(run);
    let at = db.kept.len() as int;
    let n = run.len() as int;
    let id = (run[0]->0).id;
    assert(d.kept == db.kept + run);
    assert(d.kept[at] == run[0]);
    assert forall|r: int| 0 <= r < d.kept.len() && (#[trigger] d.kept[r]) is Some implies (
    d.kept[r]->0).valid() by {
        if r >= at {
            assert(d.kept[r] == run[r - at]);
        } else {
            assert(d.kept[r] == db.kept[r]);
        }
    }
    assert forall|k: int| 1 <= k < n implies #[trigger] continues(d.kept, at + k, id) by {
        assert(continues(run, k, id));
        assert(d.kept[at + k] == run[k]);
    }
    extent_is(d.kept, at, 1, n);
    assert forall|k: int| 0 <= k < n implies #[trigger] d.kept[at + k] == run[0 + k] by {}
    bytes_same(d.kept, run, at, 0, n);
    assert forall|k: int| 0 <= k < n implies (#[trigger] run[0 + k]) is Some && (run[0
        + k]->0).valid() by {}
    bytes_len(run, 0, n);
    assert(!db.values.contains_key(at)) by {
        if db.values.contains_key(at) {
            assert(db.holds(at));
        }
    }
    assert forall|h: int| #[trigger] d.values.contains_key(h) implies d.holds(h) by {
        if h != at {
            assert(db.values.contains_key(h));
            append_holds(db, d, h);
        }
    }
    assert forall|x: u64| #[trigger] d.bound.contains_key(x) implies d.heads(
        d.bound[x] as int,
        x,
    ) by {
        if x != id {
            assert(db.bound.contains_key(x));
            assert(db.heads(db.bound[x] as int, x));
        }
    }
    assert forall|r: int|
        0 <= r < d.kept.len() && (#[trigger] d.kept[r]) is Some && (d.kept[r]->0).kind
            == RowKind::Chunk implies d.long_values > 0 by {
        if r < at {
            assert(d.kept[r] == db.kept[r]);
        } else {
            assert(d.kept[r] == run[r - at]);
        }
    }
    assert(crate::trigram::laid_out(d.values, d.kept.len() as int)) by {
        assert forall|h: int| #[trigger] d.values.contains_key(h) implies 0 <= h < d.kept.len()
            && 16 * h + d.values[h].len() <= 16 * d.kept.len() by {
            if h != at {
                assert(db.values.contains_key(h));
            }
        }
        assert forall|a: int, b: int|
            #[trigger] d.values.contains_key(a) && #[trigger] d.values.contains_key(b) && a
                < b implies 16 * a + d.values[a].len() <= 16 * b by {
            if a != at {
                assert(db.values.contains_key(a));
            }
            if b != at {
                assert(db.values.contains_key(b));
            }
        }
    }
    if db.live.contains_key(id) {
        assert(d.live.dom() =~= db.live.dom());
    }
    if db.bound.contains_key(id) {
        assert(d.bound.dom() =~= db.bound.dom());
    }
    store_slots(db, run);
    if db.live.contains_key(id) {
        live_row_is_live(db, id);
    }
}

pub proof fn delete_wf(db: Db, slot: Slot)
    requires
        db.wf(),
        slot.valid(),
        slot.kind == RowKind::Tombstone,
        db.live.contains_key(slot.id),
        db.kept.len() < u64::MAX,
    ensures
        db.delete(slot).wf(),
{
    let d = db.delete(slot);
    let more: Log = seq![Some(slot)];
    assert(d.kept =~= db.kept + more);
    assert forall|r: int| 0 <= r < db.kept.len() implies #[trigger] d.kept[r] == db.kept[r] by {}
    assert forall|h: int| #[trigger] d.values.contains_key(h) implies d.holds(h) by {
        assert(db.values.contains_key(h));
        append_holds(db, d, h);
    }
    assert forall|id: u64| #[trigger] d.bound.contains_key(id) implies d.heads(
        d.bound[id] as int,
        id,
    ) by {
        assert(db.heads(db.bound[id] as int, id));
    }
    assert(d.live.dom() =~= db.live.dom().remove(slot.id));
    live_row_is_live(db, slot.id);
    let gone = db.live[slot.id] as int;
    let at = db.kept.len() as int;
    assert forall|r: int| 0 <= r < at implies #[trigger] d.is_live(r) == (db.is_live(r) && r
        != gone) by {
        assert(d.kept[r] == db.kept[r]);
    }
    live_slots_after(db, d, more, gone, at);
    assert(!d.is_live(at));
}

pub proof fn empty_wf()
    ensures
        Db::empty().wf(),
{
}

} // verus!
