//! Lexicographic order over value bytes, read straight out of the row arena.
//!
//! An ordered index over values need not store them: a value already lives in
//! the arena, so the index stores the head row of each record and compares by
//! dereferencing. This module is the comparison, and nothing else.
//!
//! - **No assembly.** A comparison walks the two runs slot by slot and stops
//!   at the first differing byte.
//! - **Total order.** Value bytes first, then the id, then the head row, so
//!   two records holding identical bytes still have distinct keys.

use crate::engine::log::{bytes_of, continues, extent, extent_from, value_at, Db, Log};
use crate::engine::model::read_log;
use crate::layout::VALUE_LEN;
use crate::slot::{decode_slot, slot_parsed, RowKind};
use std::cmp::Ordering;
use vstd::prelude::*;
use vstd::slice::slice_subrange;

verus! {

/// The bytes of a run from row `row` on, given the id it must continue. The
/// run ends at the first row that is not a continuation of the same id, and
/// is never longer than a commit can be. A tombstone holds no value.
pub open spec fn run_rest(arena: Seq<u8>, row_count: u64, row: int, id: Option<u64>, steps: int) -> Seq<
    u8,
>
    decreases 128 - steps,
{
    if row >= row_count || steps >= 128 {
        Seq::empty()
    } else {
        match slot_parsed(arena.subrange(32 * row, 32 * row + 32)) {
            None => Seq::empty(),
            Some(s) => if (match id {
                Some(id) => s.kind == RowKind::Chunk && s.id == id,
                None => s.kind != RowKind::Tombstone,
            }) {
                s.payload() + run_rest(arena, row_count, row + 1, Some(s.id), steps + 1)
            } else {
                Seq::empty()
            },
        }
    }
}

/// The value whose run starts in row `head`.
pub open spec fn run_bytes(arena: Seq<u8>, row_count: u64, head: u64) -> Seq<u8> {
    run_rest(arena, row_count, head as int, None, 0)
}

/// Lexicographic order: negative, zero or positive. A prefix sorts before what
/// extends it.
pub open spec fn lex(a: Seq<u8>, b: Seq<u8>) -> int
    decreases a.len(),
{
    if a.len() == 0 && b.len() == 0 {
        0
    } else if a.len() == 0 {
        -1
    } else if b.len() == 0 {
        1
    } else if a[0] < b[0] {
        -1
    } else if a[0] > b[0] {
        1
    } else {
        lex(a.drop_first(), b.drop_first())
    }
}

/// The id stored in a row, zero if nothing readable is there.
pub open spec fn row_id(arena: Seq<u8>, row: u64) -> u64 {
    if 32 * row + 32 <= arena.len() {
        match slot_parsed(arena.subrange(32 * row, 32 * row + 32)) {
            Some(s) => s.id,
            None => 0,
        }
    } else {
        0
    }
}

pub open spec fn sign(a: u64, b: u64) -> int {
    if a < b {
        -1
    } else if a > b {
        1
    } else {
        0
    }
}

/// The index's order: value bytes, then id, then head row.
pub open spec fn row_order(arena: Seq<u8>, row_count: u64, a: u64, b: u64) -> int {
    let by_value = lex(run_bytes(arena, row_count, a), run_bytes(arena, row_count, b));
    if by_value != 0 {
        by_value
    } else if row_id(arena, a) != row_id(arena, b) {
        sign(row_id(arena, a), row_id(arena, b))
    } else {
        sign(a, b)
    }
}

/// A value's bytes, one slot at a time, straight out of the arena.
struct RunReader<'a> {
    arena: &'a [u8],
    row_count: u64,
    row: u64,
    id: Option<u64>,
    steps: u32,
    chunk: [u8; VALUE_LEN],
    at: usize,
    len: usize,
}

impl<'a> RunReader<'a> {
    spec fn ok(&self) -> bool {
        &&& 32 * self.row_count <= self.arena.len()
        &&& self.at <= self.len <= 16
        &&& self.steps <= 128
    }

    /// The bytes still to come.
    spec fn rest(&self) -> Seq<u8> {
        self.chunk@.subrange(self.at as int, self.len as int) + run_rest(
            self.arena@,
            self.row_count,
            self.row as int,
            self.id,
            self.steps as int,
        )
    }

    fn new(arena: &'a [u8], row_count: u64, head: u64) -> (r: Self)
        requires
            32 * row_count <= arena.len(),
        ensures
            r.ok(),
            r.rest() == run_bytes(arena@, row_count, head),
    {
        let r = RunReader {
            arena,
            row_count,
            row: head,
            id: None,
            steps: 0,
            chunk: [0u8; 16],
            at: 0,
            len: 0,
        };
        assert(r.rest() =~= run_bytes(arena@, row_count, head));
        r
    }

    /// The next byte, or `None` at the end of the value.
    fn next_byte(&mut self) -> (byte: Option<u8>)
        requires
            old(self).ok(),
        ensures
            final(self).ok(),
            match byte {
                Some(b) => old(self).rest().len() > 0 && b == old(self).rest()[0]
                    && final(self).rest() == old(self).rest().drop_first(),
                None => old(self).rest().len() == 0 && final(self).rest().len() == 0,
            },
    {
        while self.at == self.len
            invariant
                self.ok(),
                self.rest() == old(self).rest(),
            decreases 128 - self.steps,
        {
            let ghost before = *self;
            if self.row >= self.row_count || self.steps >= 128 {
                assert(self.rest() =~= Seq::empty());
                return None;
            }
            let off: usize = self.row as usize * 32;
            let slot = match decode_slot(slice_subrange(self.arena, off, off + 32)) {
                Some(slot) => slot,
                None => {
                    assert(self.rest() =~= Seq::empty());
                    return None;
                },
            };
            let belongs: bool = match self.id {
                Some(id) => slot.kind == RowKind::Chunk && slot.id == id,
                None => slot.kind != RowKind::Tombstone,
            };
            if !belongs {
                assert(self.rest() =~= Seq::empty());
                return None;
            }
            proof {
                crate::slot::slot_parsed_is_valid(self.arena@.subrange(off as int, off + 32));
            }
            self.id = Some(slot.id);
            self.row = self.row + 1;
            self.steps = self.steps + 1;
            self.chunk = slot.value;
            self.at = 0;
            self.len = slot.len as usize;
            proof {
                assert(slot@.payload() =~= self.chunk@.subrange(0, self.len as int));
                assert(before.rest() =~= self.rest());
            }
        }
        let b: u8 = self.chunk[self.at];
        let ghost before = *self;
        self.at = self.at + 1;
        proof {
            assert(before.rest()[0] == b);
            assert(self.rest() =~= before.rest().drop_first());
        }
        Some(b)
    }
}

/// Compare the value stored at `a` against the value stored at `b`.
pub fn cmp_runs(arena: &[u8], row_count: u64, a: u64, b: u64) -> (o: Ordering)
    requires
        32 * row_count <= arena.len(),
    ensures
        match o {
            Ordering::Less => lex(
                run_bytes(arena@, row_count, a),
                run_bytes(arena@, row_count, b),
            ) < 0,
            Ordering::Equal => lex(
                run_bytes(arena@, row_count, a),
                run_bytes(arena@, row_count, b),
            ) == 0,
            Ordering::Greater => lex(
                run_bytes(arena@, row_count, a),
                run_bytes(arena@, row_count, b),
            ) > 0,
        },
{
    if a == b {
        proof {
            lex_same(run_bytes(arena@, row_count, a));
        }
        return Ordering::Equal;
    }
    let mut ra = RunReader::new(arena, row_count, a);
    let mut rb = RunReader::new(arena, row_count, b);
    let ghost goal = lex(run_bytes(arena@, row_count, a), run_bytes(arena@, row_count, b));
    loop
        invariant
            ra.ok(),
            rb.ok(),
            goal == lex(ra.rest(), rb.rest()),
            goal == lex(run_bytes(arena@, row_count, a), run_bytes(arena@, row_count, b)),
        decreases ra.rest().len(),
    {
        match (ra.next_byte(), rb.next_byte()) {
            (None, None) => {
                return Ordering::Equal;
            },
            (None, Some(_)) => {
                return Ordering::Less;
            },
            (Some(_), None) => {
                return Ordering::Greater;
            },
            (Some(x), Some(y)) => {
                if x < y {
                    return Ordering::Less;
                }
                if x > y {
                    return Ordering::Greater;
                }
            },
        }
    }
}

/// Compare the value stored at `row` against `needle`.
pub fn cmp_run_bytes(arena: &[u8], row_count: u64, row: u64, needle: &[u8]) -> (o: Ordering)
    requires
        32 * row_count <= arena.len(),
    ensures
        match o {
            Ordering::Less => lex(run_bytes(arena@, row_count, row), needle@) < 0,
            Ordering::Equal => lex(run_bytes(arena@, row_count, row), needle@) == 0,
            Ordering::Greater => lex(run_bytes(arena@, row_count, row), needle@) > 0,
        },
{
    let mut r = RunReader::new(arena, row_count, row);
    let mut at: usize = 0;
    let ghost goal = lex(run_bytes(arena@, row_count, row), needle@);
    assert(slice_from(needle@, 0) =~= needle@);
    loop
        invariant
            r.ok(),
            at <= needle.len(),
            goal == lex(r.rest(), slice_from(needle@, at)),
            goal == lex(run_bytes(arena@, row_count, row), needle@),
        decreases needle.len() - at,
    {
        match r.next_byte() {
            None => {
                return if at < needle.len() {
                    Ordering::Less
                } else {
                    Ordering::Equal
                };
            },
            Some(x) => {
                if at == needle.len() {
                    return Ordering::Greater;
                }
                let y: u8 = needle[at];
                proof {
                    step_from(needle@, at);
                }
                if x < y {
                    return Ordering::Less;
                }
                if x > y {
                    return Ordering::Greater;
                }
                at = at + 1;
            },
        }
    }
}

spec fn slice_from(s: Seq<u8>, at: usize) -> Seq<u8> {
    s.skip(at as int)
}

proof fn step_from(s: Seq<u8>, at: usize)
    requires
        at < s.len(),
        at < usize::MAX,
    ensures
        slice_from(s, at).len() > 0,
        slice_from(s, at)[0] == s[at as int],
        slice_from(s, at).drop_first() == slice_from(s, (at + 1) as usize),
{
    assert(s.skip(at as int).drop_first() =~= s.skip(at + 1));
}

/// The id stored in a row, for the order's tie-break.
fn id_at(arena: &[u8], row: u64) -> (id: u64)
    ensures
        id == row_id(arena@, row),
{
    if row >= (arena.len() / 32) as u64 {
        return 0;
    }
    let off: usize = row as usize * 32;
    match decode_slot(slice_subrange(arena, off, off + 32)) {
        Some(slot) => slot.id,
        None => 0,
    }
}

/// The index's total order: value bytes, then id, then head row.
///
/// The bytes are the order the caller asked for. The id breaks a tie between
/// two records holding the same bytes, because it is the only tie-break that
/// a caller can predict. The row is last: writing the same value to the same
/// id twice leaves the superseded row in the index beside its replacement.
pub fn order(arena: &[u8], row_count: u64, a: u64, b: u64) -> (o: Ordering)
    requires
        32 * row_count <= arena.len(),
    ensures
        match o {
            Ordering::Less => row_order(arena@, row_count, a, b) < 0,
            Ordering::Equal => row_order(arena@, row_count, a, b) == 0,
            Ordering::Greater => row_order(arena@, row_count, a, b) > 0,
        },
{
    match cmp_runs(arena, row_count, a, b) {
        Ordering::Less => Ordering::Less,
        Ordering::Greater => Ordering::Greater,
        Ordering::Equal => {
            let x: u64 = id_at(arena, a);
            let y: u64 = id_at(arena, b);
            if x < y {
                Ordering::Less
            } else if x > y {
                Ordering::Greater
            } else if a < b {
                Ordering::Less
            } else if a > b {
                Ordering::Greater
            } else {
                Ordering::Equal
            }
        },
    }
}

// ---- The order of bytes ----

/// The two agree on their first `k` bytes, and there `a` ends in front of `b`,
/// or has the smaller byte.
pub open spec fn smaller_at(a: Seq<u8>, b: Seq<u8>, k: int) -> bool {
    &&& 0 <= k <= a.len()
    &&& k < b.len()
    &&& a.take(k) == b.take(k)
    &&& k < a.len() ==> (a[k] as int) < (b[k] as int)
}

/// `a` comes before `b` where they first part.
pub open spec fn comes_before(a: Seq<u8>, b: Seq<u8>) -> bool {
    exists|k: int| #[trigger] smaller_at(a, b, k)
}

proof fn one_byte_on(a: Seq<u8>, b: Seq<u8>, k: int)
    requires
        a.len() > 0,
        b.len() > 0,
        a[0] == b[0],
        k >= 0,
    ensures
        smaller_at(a, b, k + 1) == smaller_at(a.drop_first(), b.drop_first(), k),
{
    let c = a.drop_first();
    let d = b.drop_first();
    if k < a.len() && k < b.len() {
        assert(a.take(k + 1) =~= seq![a[0]] + c.take(k));
        assert(b.take(k + 1) =~= seq![b[0]] + d.take(k));
        assert(a.take(k + 1).drop_first() =~= c.take(k));
        assert(b.take(k + 1).drop_first() =~= d.take(k));
    }
}

/// Values are ordered by their bytes, as numbers: the first byte in which they
/// differ decides, and a value comes before what extends it.
pub proof fn values_are_ordered_by_their_bytes(a: Seq<u8>, b: Seq<u8>)
    ensures
        lex(a, b) < 0 <==> comes_before(a, b),
        lex(a, b) > 0 <==> comes_before(b, a),
        lex(a, b) == 0 <==> a == b,
    decreases a.len(),
{
    lex_zero_is_equality(a, b);
    assert(a.take(0) =~= b.take(0));
    if a.len() > 0 && b.len() > 0 && a[0] == b[0] {
        let c = a.drop_first();
        let d = b.drop_first();
        values_are_ordered_by_their_bytes(c, d);
        if comes_before(c, d) {
            let k = choose|k: int| #[trigger] smaller_at(c, d, k);
            one_byte_on(a, b, k);
            assert(smaller_at(a, b, k + 1));
        }
        if comes_before(a, b) {
            let k = choose|k: int| #[trigger] smaller_at(a, b, k);
            one_byte_on(a, b, k - 1);
            assert(smaller_at(c, d, k - 1));
        }
        if comes_before(d, c) {
            let k = choose|k: int| #[trigger] smaller_at(d, c, k);
            one_byte_on(b, a, k);
            assert(smaller_at(b, a, k + 1));
        }
        if comes_before(b, a) {
            let k = choose|k: int| #[trigger] smaller_at(b, a, k);
            one_byte_on(b, a, k - 1);
            assert(smaller_at(d, c, k - 1));
        }
    } else {
        first_byte_decides(a, b);
        first_byte_decides(b, a);
    }
}

proof fn first_byte_decides(a: Seq<u8>, b: Seq<u8>)
    requires
        a.len() == 0 || b.len() == 0 || a[0] != b[0],
    ensures
        comes_before(a, b) <==> b.len() > 0 && (a.len() == 0 || a[0] < b[0]),
{
    assert(a.take(0) =~= b.take(0));
    if b.len() > 0 && (a.len() == 0 || a[0] < b[0]) {
        assert(smaller_at(a, b, 0));
    }
    if comes_before(a, b) {
        let k = choose|k: int| #[trigger] smaller_at(a, b, k);
        if k > 0 {
            assert(a.take(k)[0] == a[0] && b.take(k)[0] == b[0]);
        }
    }
}

/// Rows are ordered by the bytes of their values; those with the same value by
/// their ids; and those with the same id by where they are.
pub proof fn rows_are_ordered_by_value_id_and_place(
    arena: Seq<u8>,
    row_count: u64,
    a: u64,
    b: u64,
)
    ensures
        ({
            let v = run_bytes(arena, row_count, a);
            let w = run_bytes(arena, row_count, b);
            let i = row_id(arena, a);
            let j = row_id(arena, b);
            row_order(arena, row_count, a, b) < 0 <==> {
                ||| comes_before(v, w)
                ||| v == w && i < j
                ||| v == w && i == j && a < b
            }
        }),
{
    values_are_ordered_by_their_bytes(
        run_bytes(arena, row_count, a),
        run_bytes(arena, row_count, b),
    );
}

/// The rest of a value, from its row `rows` on, is the rest of its run.
proof fn rest_is_read(arena: Seq<u8>, row_count: u64, h: int, rows: int)
    requires
        ({
            let log = read_log(arena, row_count as int);
            &&& 0 <= h < row_count
            &&& log[h] is Some
            &&& 1 <= rows <= extent(log, h)
            &&& extent(log, h) <= 128
            &&& forall|k: int|
                1 <= k < extent(log, h) ==> #[trigger] continues(log, h + k, (log[h]->0).id)
            &&& !continues(log, h + extent(log, h), (log[h]->0).id)
        }),
    ensures
        ({
            let log = read_log(arena, row_count as int);
            bytes_of(log, h, rows) + run_rest(
                arena,
                row_count,
                h + rows,
                Some((log[h]->0).id),
                rows,
            ) == value_at(log, h)
        }),
    decreases 128 - rows,
{
    let log = read_log(arena, row_count as int);
    let id = (log[h]->0).id;
    let rest = run_rest(arena, row_count, h + rows, Some(id), rows);
    if rows < extent(log, h) {
        assert(continues(log, h + rows, id));
        rest_is_read(arena, row_count, h, rows + 1);
        let next = run_rest(arena, row_count, h + rows + 1, Some(id), rows + 1);
        assert(log[h + rows] == slot_parsed(arena.subrange(32 * (h + rows), 32 * (h + rows) + 32)));
        assert(rest == (log[h + rows]->0).payload() + next);
        assert(bytes_of(log, h, rows + 1) == bytes_of(log, h, rows) + (log[h
            + rows]->0).payload());
        assert(bytes_of(log, h, rows) + rest =~= bytes_of(log, h, rows + 1) + next);
    } else {
        if h + rows < row_count {
            assert(log[h + rows] == slot_parsed(
                arena.subrange(32 * (h + rows), 32 * (h + rows) + 32),
            ));
        }
        assert(rest =~= Seq::empty());
        assert(bytes_of(log, h, rows) + rest =~= bytes_of(log, h, rows));
    }
}

/// What is compared is what is read: the bytes of a run are the value that the
/// database has there, and the id is its id.
pub proof fn what_is_ordered_is_what_is_read(arena: Seq<u8>, row_count: u64, db: Db, h: u64)
    requires
        db.wf(),
        32 * row_count <= arena.len(),
        db.kept == read_log(arena, row_count as int),
        db.values.contains_key(h as int),
    ensures
        run_bytes(arena, row_count, h) == db.values[h as int],
        row_id(arena, h) == (db.kept[h as int]->0).id,
{
    let log = db.kept;
    let head = h as int;
    assert(db.holds(head));
    extent_ends(log, head, 1);
    rest_is_read(arena, row_count, head, 1);
    assert(log[head] == slot_parsed(arena.subrange(32 * head, 32 * head + 32)));
    let id = (log[head]->0).id;
    reveal_with_fuel(bytes_of, 2);
    assert(bytes_of(log, head, 1) =~= (log[head]->0).payload());
    assert(run_bytes(arena, row_count, h) == (log[head]->0).payload() + run_rest(
        arena,
        row_count,
        head + 1,
        Some(id),
        1,
    ));
}

proof fn extent_ends(log: Log, head: int, rows: int)
    requires
        rows >= 1,
    ensures
        !continues(log, head + extent_from(log, head, rows), (log[head]->0).id),
    decreases log.len() - (head + rows),
{
    if continues(log, head + rows, (log[head]->0).id) {
        extent_ends(log, head, rows + 1);
    }
}

// ---- A total order ----

proof fn lex_same(a: Seq<u8>)
    ensures
        lex(a, a) == 0,
    decreases a.len(),
{
    if a.len() > 0 {
        lex_same(a.drop_first());
    }
}

/// Only equal values compare equal.
pub proof fn lex_zero_is_equality(a: Seq<u8>, b: Seq<u8>)
    ensures
        (lex(a, b) == 0) == (a == b),
    decreases a.len(),
{
    if a.len() > 0 && b.len() > 0 && a[0] == b[0] {
        lex_zero_is_equality(a.drop_first(), b.drop_first());
        assert(a =~= seq![a[0]] + a.drop_first());
        assert(b =~= seq![b[0]] + b.drop_first());
    } else if a.len() == 0 && b.len() == 0 {
        assert(a =~= b);
    }
}

proof fn lex_flips(a: Seq<u8>, b: Seq<u8>)
    ensures
        lex(a, b) == -lex(b, a),
    decreases a.len(),
{
    if a.len() > 0 && b.len() > 0 && a[0] == b[0] {
        lex_flips(a.drop_first(), b.drop_first());
    }
}

proof fn lex_chains(a: Seq<u8>, b: Seq<u8>, c: Seq<u8>)
    requires
        lex(a, b) <= 0,
        lex(b, c) <= 0,
    ensures
        lex(a, c) <= 0,
        lex(a, b) < 0 || lex(b, c) < 0 ==> lex(a, c) < 0,
    decreases a.len(),
{
    if a.len() > 0 && b.len() > 0 && c.len() > 0 && a[0] == b[0] && b[0] == c[0] {
        lex_chains(a.drop_first(), b.drop_first(), c.drop_first());
    }
}

/// Swapping the rows turns the order round, and only a row compares equal to
/// itself.
pub proof fn order_is_antisymmetric(arena: Seq<u8>, row_count: u64, a: u64, b: u64)
    ensures
        row_order(arena, row_count, a, b) == -row_order(arena, row_count, b, a),
        (row_order(arena, row_count, a, b) == 0) == (a == b),
{
    lex_flips(run_bytes(arena, row_count, a), run_bytes(arena, row_count, b));
    lex_same(run_bytes(arena, row_count, a));
}

/// The order is transitive.
pub proof fn order_is_transitive(arena: Seq<u8>, row_count: u64, a: u64, b: u64, c: u64)
    requires
        row_order(arena, row_count, a, b) < 0,
        row_order(arena, row_count, b, c) < 0,
    ensures
        row_order(arena, row_count, a, c) < 0,
{
    lex_chains(
        run_bytes(arena, row_count, a),
        run_bytes(arena, row_count, b),
        run_bytes(arena, row_count, c),
    );
}

} // verus!
