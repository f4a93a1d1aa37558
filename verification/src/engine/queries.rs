//! What reads promise: windows add up to the value, pages add up to the whole
//! answer, and a search finds exactly the values that contain the needle.

use crate::engine::log::{bytes_of, continues, extent, value_at, Db, Log};
use crate::engine::model::{
    contains, head_row, hits, ids_between, is_hit, occurs, scan, sweep, window, Hits, State,
};
use crate::engine::types::Reply;
use crate::trigram::{
    candidates, first_at, laid_out, posted, postings, posts_at, tri_at, FindCursor, Indexed, NIL,
};
use vstd::prelude::*;

verus! {

// ---- Windows ----

/// The payloads of a value's first `n` windows, joined.
pub open spec fn windows_joined(kept: Log, head: int, n: int) -> Seq<u8>
    decreases n,
{
    if n <= 0 {
        Seq::empty()
    } else {
        let w = window(kept, head, (16 * (n - 1)) as u32);
        windows_joined(kept, head, n - 1) + w.bytes.take(w.len as int)
    }
}

proof fn windows_are_rows(db: Db, head: int, n: int)
    requires
        db.wf(),
        db.values.contains_key(head),
        0 <= n <= extent(db.kept, head),
    ensures
        windows_joined(db.kept, head, n) == bytes_of(db.kept, head, n),
    decreases n,
{
    if n > 0 {
        assert(db.holds(head));
        windows_are_rows(db, head, n - 1);
    }
}

/// Reading a value window by window gives back the whole value, and each
/// window says how long the whole is.
pub proof fn windows_add_up(db: Db, id: u64)
    requires
        db.wf(),
        db.live.contains_key(id),
    ensures
        ({
            let head = db.live[id] as int;
            &&& windows_joined(db.kept, head, extent(db.kept, head)) == value_at(db.kept, head)
            &&& forall|offset: u32|
                (#[trigger] window(db.kept, head, offset)).total == value_at(db.kept, head).len()
            &&& forall|offset: u32|
                offset >= 16 * extent(db.kept, head) ==> (#[trigger] window(
                    db.kept,
                    head,
                    offset,
                )).len == 0
        }),
{
    let head = db.live[id] as int;
    assert(db.bound.contains_key(id) && db.heads(head, id));
    assert(db.holds(head));
    windows_are_rows(db, head, extent(db.kept, head));
}

// ---- Ranges ----

/// The ids of a range are those of the map that lie in it, ascending.
pub proof fn range_is_exact(m: Map<u64, u64>, lo: int, hi: int)
    requires
        lo >= 0,
        hi <= u64::MAX,
    ensures
        ({
            let ids = ids_between(m, lo, hi);
            &&& forall|i: int, j: int| 0 <= i < j < ids.len() ==> #[trigger] ids[i] < #[trigger] ids[j]
            &&& forall|i: int|
                0 <= i < ids.len() ==> m.contains_key(#[trigger] ids[i]) && lo <= ids[i] <= hi
            &&& forall|k: u64| #[trigger] m.contains_key(k) && lo <= k <= hi ==> ids.contains(k)
        }),
    decreases hi - lo + 1,
{
    if lo <= hi {
        range_is_exact(m, lo + 1, hi);
        let rest = ids_between(m, lo + 1, hi);
        let ids = ids_between(m, lo, hi);
        assert forall|k: u64| #[trigger] m.contains_key(k) && lo <= k <= hi implies ids.contains(
            k,
        ) by {
            if k == lo {
                assert(ids[0] == k);
            } else {
                assert(rest.contains(k));
                let j = choose|j: int| 0 <= j < rest.len() && rest[j] == k;
                if m.contains_key(lo as u64) {
                    assert(ids[j + 1] == k);
                } else {
                    assert(ids[j] == k);
                }
            }
        }
        if m.contains_key(lo as u64) {
            assert forall|i: int, j: int| 0 <= i < j < ids.len() implies #[trigger] ids[i]
                < #[trigger] ids[j] by {
                assert(ids[j] == rest[j - 1]);
                if i > 0 {
                    assert(ids[i] == rest[i - 1]);
                }
            }
            assert forall|i: int| 0 <= i < ids.len() implies m.contains_key(#[trigger] ids[i])
                && lo <= ids[i] <= hi by {
                if i > 0 {
                    assert(ids[i] == rest[i - 1]);
                }
            }
        }
    }
}

/// Continuing a range at one of its ids gives the rest of it: pages follow on
/// each other without a gap and without an overlap.
pub proof fn range_pages_follow_on(m: Map<u64, u64>, lo: int, hi: int, n: int)
    requires
        lo >= 0,
        hi <= u64::MAX,
        0 <= n < ids_between(m, lo, hi).len(),
    ensures
        ids_between(m, lo, hi).skip(n) == ids_between(m, ids_between(m, lo, hi)[n] as int, hi),
    decreases hi - lo + 1,
{
    let ids = ids_between(m, lo, hi);
    if lo <= hi {
        let rest = ids_between(m, lo + 1, hi);
        if m.contains_key(lo as u64) {
            if n > 0 {
                range_pages_follow_on(m, lo + 1, hi, n - 1);
                assert(ids.skip(n) =~= rest.skip(n - 1));
            } else {
                assert(ids.skip(0) =~= ids);
            }
        } else {
            range_pages_follow_on(m, lo + 1, hi, n);
        }
    }
}

// ---- Searches ----

proof fn head_of_row(kept: Log, h: int, row: int)
    requires
        0 <= h <= row < kept.len() <= u64::MAX,
        kept[h] is Some,
        (kept[h]->0).starts_value(),
        forall|k: int| h < k <= row ==> #[trigger] continues(kept, k, (kept[h]->0).id),
    ensures
        head_row(kept, row) == Some(h as u64),
    decreases row - h,
{
    if row > h {
        assert(continues(kept, row, (kept[h]->0).id));
        head_of_row(kept, h, row - 1);
    }
}

/// A posting leads to the head of the value it is about.
proof fn posting_leads_home(db: Db, h: int, s: int, tri: u32)
    requires
        db.wf(),
        posts_at(db.values, h, s, tri),
    ensures
        head_row(db.kept, s / 16) == Some(h as u64),
        0 <= h <= s / 16,
        s / 16 < h + extent(db.kept, h),
        0 <= s < 16 * db.kept.len(),
{
    assert(db.holds(h));
    let row = s / 16;
    let kept = db.kept;
    assert forall|k: int| h < k <= row implies #[trigger] continues(kept, k, (kept[h]->0).id) by {
        assert(continues(kept, h + (k - h), (kept[h]->0).id));
    }
    head_of_row(kept, h, row);
}

/// Two values never post at the same slot.
proof fn poster_is_unique(values: Map<int, Seq<u8>>, rows: int, a: int, b: int, s: int, t: u32, u: u32)
    requires
        laid_out(values, rows),
        posts_at(values, a, s, t),
        posts_at(values, b, s, u),
    ensures
        a == b,
        t == u,
{
    assert(values.contains_key(a) && values.contains_key(b));
}

/// Every hit is posted under the needle's first trigram.
proof fn hit_is_posted(db: Db, needle: Seq<u8>, h: int) -> (s: int)
    requires
        db.wf(),
        needle.len() >= 3,
        is_hit(db, needle, h),
    ensures
        posts_at(db.values, h, s, tri_at(needle, 0)),
{
    let id = (db.kept[h]->0).id;
    assert(db.live.contains_key(id) && db.bound.contains_key(id));
    assert(db.heads(db.bound[id] as int, id));
    assert(db.holds(h));
    let v = db.values[h];
    let tri = tri_at(needle, 0);
    let o = choose|o: int| #[trigger] occurs(v, needle, o);
    assert(tri_at(v, o) == tri) by {
        let part = v.subrange(o, o + needle.len());
        assert(part[0] == v[o] && part[1] == v[o + 1] && part[2] == v[o + 2]);
    }
    let first = first_with(v, tri, o);
    16 * h + first
}

proof fn first_with(v: Seq<u8>, tri: u32, o: int) -> (f: int)
    requires
        0 <= o,
        o + 3 <= v.len(),
        tri_at(v, o) == tri,
    ensures
        first_at(v, f),
        tri_at(v, f) == tri,
    decreases o,
{
    if exists|j: int| 0 <= j < o && #[trigger] tri_at(v, j) == tri {
        let j = choose|j: int| 0 <= j < o && #[trigger] tri_at(v, j) == tri;
        first_with(v, tri, j)
    } else {
        o
    }
}

/// Does row `x` hold a hit that is posted under `bound` and under the row bar?
spec fn in_reach(db: Db, needle: Seq<u8>, bound: int, below: Option<u64>, x: int) -> bool {
    &&& is_hit(db, needle, x)
    &&& exists|s: int| #[trigger]
        posts_at(db.values, x, s, tri_at(needle, 0)) && s < bound && (below is Some ==> s / 16
            < below->0)
}

/// A page of hits: hits only, newest first, and nothing left out but behind a
/// full page's cursor.
spec fn page_exact(db: Db, needle: Seq<u8>, bound: int, below: Option<u64>, room: int, h: Hits) -> bool {
    &&& h.rows.len() <= room
    &&& forall|i: int, j: int| 0 <= i < j < h.rows.len() ==> #[trigger] h.rows[i] > #[trigger] h.rows[j]
    &&& forall|i: int|
        0 <= i < h.rows.len() ==> in_reach(db, needle, bound, below, (#[trigger] h.rows[i]) as int)
    &&& forall|x: int| #[trigger]
        in_reach(db, needle, bound, below, x) ==> h.rows.contains(x as u64) || (h.rows.len()
            == room && h.next is Some && x < h.rows[room - 1])
    &&& h.next is Some ==> {
        &&& h.rows.len() == room
        &&& (h.next->0).slot != NIL
        &&& posts_at(
            db.values,
            h.rows[room - 1] as int,
            (h.next->0).slot as int,
            tri_at(needle, 0),
        )
        &&& (h.next->0).row == (h.next->0).slot / 16
    }
}

#[verifier::rlimit(60)]
#[verifier::spinoff_prover]
proof fn sweep_is_exact(db: Db, needle: Seq<u8>, bound: int, below: Option<u64>, room: int)
    requires
        db.wf(),
        needle.len() >= 3,
        room >= 1,
        bound <= 16 * db.kept.len() <= u32::MAX,
    ensures
        page_exact(
            db,
            needle,
            bound,
            below,
            room,
            sweep(db, needle, postings(db.values, tri_at(needle, 0), bound), below, room),
        ),
    decreases bound,
{
    let tri = tri_at(needle, 0);
    let slots = postings(db.values, tri, bound);
    let out = sweep(db, needle, slots, below, room);
    if bound <= 0 {
        assert forall|x: int| !#[trigger] in_reach(db, needle, bound, below, x) by {
            if in_reach(db, needle, bound, below, x) {
                let s = choose|s: int| #[trigger]
                    posts_at(db.values, x, s, tri) && s < bound && (below is Some ==> s / 16
                        < below->0);
                posting_leads_home(db, x, s, tri);
            }
        }
    } else {
        let s = bound - 1;
        sweep_is_exact(db, needle, bound - 1, below, room);
        if posted(db.values, s, tri) {
            let h = choose|h: int| #[trigger] posts_at(db.values, h, s, tri);
            posting_leads_home(db, h, s, tri);
            let rest = postings(db.values, tri, bound - 1);
            assert(slots.drop_first() =~= rest);
            let row = (s / 16) as u64;
            // What is in reach now: what was, and this one.
            assert forall|x: int| x != h implies #[trigger] in_reach(db, needle, bound, below, x)
                == in_reach(db, needle, bound - 1, below, x) by {
                if in_reach(db, needle, bound, below, x) {
                    let t = choose|t: int| #[trigger]
                        posts_at(db.values, x, t, tri) && t < bound && (below is Some ==> t / 16
                            < below->0);
                    if t == s {
                        poster_is_unique(db.values, db.kept.len() as int, x, h, s, tri, tri);
                    }
                    assert(posts_at(db.values, x, t, tri) && t < bound - 1);
                }
            }
            assert(!in_reach(db, needle, bound - 1, below, h)) by {
                if in_reach(db, needle, bound - 1, below, h) {
                    let t = choose|t: int| #[trigger]
                        posts_at(db.values, h, t, tri) && t < bound - 1 && (below is Some ==> t / 16
                            < below->0);
                    assert(tri_at(db.values[h], t - 16 * h) == tri_at(db.values[h], s - 16 * h));
                }
            }
            assert forall|x: int| #[trigger] in_reach(db, needle, bound - 1, below, x) implies x
                < h by {
                let t = choose|t: int| #[trigger]
                    posts_at(db.values, x, t, tri) && t < bound - 1 && (below is Some ==> t / 16
                        < below->0);
                posting_leads_home(db, x, t, tri);
                assert(db.values.contains_key(x) && db.values.contains_key(h));
            }
            if below is Some && row >= below->0 {
                assert(!in_reach(db, needle, bound, below, h)) by {
                    if in_reach(db, needle, bound, below, h) {
                        let t = choose|t: int| #[trigger]
                            posts_at(db.values, h, t, tri) && t < bound && (below is Some ==> t / 16
                                < below->0);
                        assert(t != s);
                        assert(in_reach(db, needle, bound - 1, below, h));
                    }
                }
            } else if !is_hit(db, needle, h) {
            } else {
                assert(in_reach(db, needle, bound, below, h)) by {
                    assert(posts_at(db.values, h, s, tri) && s < bound);
                }
                if room == 1 {
                    assert(out.rows =~= seq![h as u64]);
                    assert(out.rows[0] == h as u64);
                } else {
                    sweep_is_exact(db, needle, bound - 1, below, room - 1);
                    let after = sweep(db, needle, rest, below, room - 1);
                    assert(out.rows =~= seq![h as u64] + after.rows);
                    assert forall|i: int, j: int| 0 <= i < j < out.rows.len() implies #[trigger] out.rows[i]
                        > #[trigger] out.rows[j] by {
                        assert(out.rows[j] == after.rows[j - 1]);
                        assert(in_reach(db, needle, bound - 1, below, after.rows[j - 1] as int));
                        if i > 0 {
                            assert(out.rows[i] == after.rows[i - 1]);
                        }
                    }
                    assert forall|i: int| 0 <= i < out.rows.len() implies in_reach(
                        db,
                        needle,
                        bound,
                        below,
                        (#[trigger] out.rows[i]) as int,
                    ) by {
                        if i > 0 {
                            assert(out.rows[i] == after.rows[i - 1]);
                            assert(in_reach(db, needle, bound - 1, below, after.rows[i - 1] as int));
                        }
                    }
                    assert forall|x: int| #[trigger]
                        in_reach(db, needle, bound, below, x) implies out.rows.contains(x as u64)
                        || (out.rows.len() == room && out.next is Some && x < out.rows[room
                        - 1]) by {
                        if x == h {
                            assert(out.rows[0] == x as u64);
                        } else {
                            assert(in_reach(db, needle, bound - 1, below, x));
                            if after.rows.contains(x as u64) {
                                let j = choose|j: int|
                                    0 <= j < after.rows.len() && after.rows[j] == x as u64;
                                assert(out.rows[j + 1] == x as u64);
                            } else {
                                assert(out.rows[room - 1] == after.rows[room - 2]);
                            }
                        }
                    }
                }
            }
        } else {
            assert forall|x: int| #[trigger] in_reach(db, needle, bound, below, x) == in_reach(
                db,
                needle,
                bound - 1,
                below,
                x,
            ) by {
                if in_reach(db, needle, bound, below, x) {
                    let t = choose|t: int| #[trigger]
                        posts_at(db.values, x, t, tri) && t < bound && (below is Some ==> t / 16
                            < below->0);
                    assert(t != s);
                    assert(posts_at(db.values, x, t, tri) && t < bound - 1);
                }
            }
        }
    }
}

/// Where a search stands: at its start, or behind the hit in row `bar` that
/// ended a page.
pub open spec fn stands_at(db: Db, needle: Seq<u8>, after: Option<FindCursor>, bar: int) -> bool {
    match after {
        None => bar == db.kept.len(),
        Some(c) => {
            &&& is_hit(db, needle, bar)
            &&& if needle.len() < 3 {
                c.row == bar && c.slot == NIL
            } else {
                &&& c.slot != NIL
                &&& posts_at(db.values, bar, c.slot as int, tri_at(needle, 0))
                &&& c.row == c.slot / 16
            }
        },
    }
}

/// One page of a search is exact.
///
/// Every row on it holds a live value that contains the needle; the rows come
/// newest first, all older than where the search stood; and every such value
/// is on the page, unless the page is full and the value is older than its
/// last row. The cursor, if there is one, stands behind that row, so the pages
/// of a search together find exactly the live values that contain the needle,
/// each once.
pub proof fn find_is_exact(db: Db, needle: Seq<u8>, after: Option<FindCursor>, bar: int)
    requires
        db.wf(),
        16 * db.kept.len() <= u32::MAX,
        stands_at(db, needle, after, bar),
    ensures
        ({
            let h = hits(db, needle, after);
            &&& h.rows.len() <= 8
            &&& forall|i: int, j: int|
                0 <= i < j < h.rows.len() ==> #[trigger] h.rows[i] > #[trigger] h.rows[j]
            &&& forall|i: int|
                0 <= i < h.rows.len() ==> is_hit(db, needle, (#[trigger] h.rows[i]) as int)
                    && h.rows[i] < bar
            &&& forall|x: int| #[trigger]
                is_hit(db, needle, x) && x < bar ==> h.rows.contains(x as u64) || (h.rows.len() == 8
                    && h.next is Some && x < h.rows[7])
            &&& h.next is Some ==> h.rows.len() == 8 && stands_at(
                db,
                needle,
                h.next,
                h.rows[7] as int,
            )
        }),
{
    let ix = Indexed { values: db.values, rows: db.kept.len() as int };
    let h = hits(db, needle, after);
    if needle.len() < 3 {
        scan_is_exact(db, needle, bar, 8);
    } else {
        let tri = tri_at(needle, 0);
        let below = if after is Some {
            Some((after->0).row)
        } else {
            None
        };
        let bound = match after {
            None => 16 * db.kept.len() as int,
            Some(c) => c.slot as int,
        };
        if after is Some {
            let s = (after->0).slot as int;
            posting_leads_home(db, bar, s, tri);
            assert(posted(db.values, s, tri));
            let t = choose|t: u32| posted(db.values, s, t);
            let a = choose|a: int| #[trigger] posts_at(db.values, a, s, t);
            poster_is_unique(db.values, db.kept.len() as int, bar, a, s, tri, t);
        }
        assert(candidates(ix, needle, after) == postings(db.values, tri, bound));
        sweep_is_exact(db, needle, bound, below, 8);
        assert forall|x: int| #[trigger] is_hit(db, needle, x) && x < bar implies in_reach(
            db,
            needle,
            bound,
            below,
            x,
        ) by {
            let s = hit_is_posted(db, needle, x);
            posting_leads_home(db, x, s, tri);
            if after is Some {
                assert(db.values.contains_key(x) && db.values.contains_key(bar));
                posting_leads_home(db, bar, bound, tri);
            }
            assert(posts_at(db.values, x, s, tri) && s < bound);
        }
        assert forall|i: int| 0 <= i < h.rows.len() implies is_hit(
            db,
            needle,
            (#[trigger] h.rows[i]) as int,
        ) && h.rows[i] < bar by {
            let x = h.rows[i] as int;
            assert(in_reach(db, needle, bound, below, x));
            if after is Some {
                let s = choose|s: int| #[trigger]
                    posts_at(db.values, x, s, tri) && s < bound && (below is Some ==> s / 16
                        < below->0);
                posting_leads_home(db, x, s, tri);
                posting_leads_home(db, bar, bound, tri);
                assert(db.values.contains_key(x) && db.values.contains_key(bar));
                if x == bar {
                    assert(tri_at(db.values[x], s - 16 * x) == tri_at(
                        db.values[x],
                        bound - 16 * x,
                    ));
                }
            }
        }
    }
}

proof fn scan_is_exact(db: Db, needle: Seq<u8>, top: int, room: int)
    requires
        room >= 1,
        top <= db.kept.len() <= u64::MAX,
    ensures
        ({
            let h = scan(db, needle, top, room);
            &&& h.rows.len() <= room
            &&& forall|i: int, j: int|
                0 <= i < j < h.rows.len() ==> #[trigger] h.rows[i] > #[trigger] h.rows[j]
            &&& forall|i: int|
                0 <= i < h.rows.len() ==> is_hit(db, needle, (#[trigger] h.rows[i]) as int)
                    && h.rows[i] < top
            &&& forall|x: int| #[trigger]
                is_hit(db, needle, x) && x < top ==> h.rows.contains(x as u64) || (h.rows.len()
                    == room && h.next is Some && x < h.rows[room - 1])
            &&& h.next is Some ==> h.rows.len() == room && (h.next->0).row == h.rows[room - 1] && (
            h.next->0).slot == NIL
        }),
    decreases top,
{
    let h = scan(db, needle, top, room);
    if top > 0 {
        let row = (top - 1) as u64;
        if !is_hit(db, needle, row as int) {
            scan_is_exact(db, needle, top - 1, room);
        } else if room == 1 {
            assert(h.rows[0] == row);
            assert forall|x: int| #[trigger] is_hit(db, needle, x) && x < top implies h.rows.contains(
                x as u64,
            ) || (h.rows.len() == room && h.next is Some && x < h.rows[room - 1]) by {
                if x == row {
                    assert(h.rows[0] == x as u64);
                }
            }
        } else {
            scan_is_exact(db, needle, top - 1, room - 1);
            let after = scan(db, needle, top - 1, room - 1);
            assert(h.rows =~= seq![row] + after.rows);
            assert forall|i: int, j: int| 0 <= i < j < h.rows.len() implies #[trigger] h.rows[i]
                > #[trigger] h.rows[j] by {
                assert(h.rows[j] == after.rows[j - 1]);
                if i > 0 {
                    assert(h.rows[i] == after.rows[i - 1]);
                }
            }
            assert forall|i: int| 0 <= i < h.rows.len() implies is_hit(
                db,
                needle,
                (#[trigger] h.rows[i]) as int,
            ) && h.rows[i] < top by {
                if i > 0 {
                    assert(h.rows[i] == after.rows[i - 1]);
                }
            }
            assert forall|x: int| #[trigger] is_hit(db, needle, x) && x < top implies h.rows.contains(
                x as u64,
            ) || (h.rows.len() == room && h.next is Some && x < h.rows[room - 1]) by {
                if x == row {
                    assert(h.rows[0] == x as u64);
                } else if after.rows.contains(x as u64) {
                    let j = choose|j: int| 0 <= j < after.rows.len() && after.rows[j] == x as u64;
                    assert(h.rows[j + 1] == x as u64);
                } else {
                    assert(h.rows[room - 1] == after.rows[room - 2]);
                }
            }
        }
    }
}

// ---- What a search costs ----

/// The slots of a list that lie under the row bar.
pub open spec fn under(slots: Seq<int>, below: Option<u64>) -> int
    decreases slots.len(),
{
    if slots.len() == 0 {
        0
    } else if below is Some && slots[0] / 16 >= below->0 {
        under(slots.drop_first(), below)
    } else {
        1 + under(slots.drop_first(), below)
    }
}

proof fn sweep_counts(db: Db, needle: Seq<u8>, bound: int, below: Option<u64>, room: int)
    requires
        db.wf(),
        room >= 1,
        bound <= 16 * db.kept.len() <= u32::MAX,
    ensures
        ({
            let slots = postings(db.values, tri_at(needle, 0), bound);
            let h = sweep(db, needle, slots, below, room);
            &&& h.rows.len() <= h.checks <= under(slots, below)
            &&& h.next is None ==> h.checks == under(slots, below)
        }),
    decreases bound,
{
    let tri = tri_at(needle, 0);
    let slots = postings(db.values, tri, bound);
    if bound > 0 {
        sweep_counts(db, needle, bound - 1, below, room);
        if room > 1 {
            sweep_counts(db, needle, bound - 1, below, room - 1);
        }
        let s = bound - 1;
        if posted(db.values, s, tri) {
            let h = choose|h: int| #[trigger] posts_at(db.values, h, s, tri);
            posting_leads_home(db, h, s, tri);
            let rest = postings(db.values, tri, bound - 1);
            assert(slots.drop_first() =~= rest);
            assert(slots[0] == s);
        }
    }
}

proof fn scan_counts(db: Db, needle: Seq<u8>, top: int, room: int)
    requires
        room >= 1,
        0 <= top,
    ensures
        ({
            let h = scan(db, needle, top, room);
            &&& h.rows.len() <= h.checks <= top
            &&& h.rows.len() < room ==> h.checks == top
        }),
    decreases top,
{
    if top > 0 {
        scan_counts(db, needle, top - 1, room);
        if room > 1 {
            scan_counts(db, needle, top - 1, room - 1);
        }
    }
}

/// A search looks at its candidates, each once: no fewer than it finds, and no
/// more than there are, which is one for every value that holds the needle's
/// first trigram, and one for every row if the needle is shorter than that. A
/// search that ends on its first page, with room left, has looked at all of
/// them.
pub proof fn a_search_looks_at_each_candidate_once(db: Db, needle: Seq<u8>)
    requires
        db.wf(),
        16 * db.kept.len() <= u32::MAX,
    ensures
        ({
            let h = hits(db, needle, None);
            let all = if needle.len() < 3 {
                db.kept.len() as int
            } else {
                postings(db.values, tri_at(needle, 0), 16 * db.kept.len() as int).len() as int
            };
            &&& h.rows.len() <= h.checks <= all
            &&& h.rows.len() < 8 ==> h.checks == all
        }),
{
    let n = db.kept.len() as int;
    if needle.len() < 3 {
        scan_counts(db, needle, n, 8);
    } else {
        let ix = Indexed { values: db.values, rows: n };
        let slots = postings(db.values, tri_at(needle, 0), 16 * n);
        sweep_counts(db, needle, 16 * n, None, 8);
        all_under(slots);
        find_is_exact(db, needle, None, n);
        assert(candidates(ix, needle, None) == slots);
    }
}

/// The engine counts the candidates that its searches look at, and stops
/// counting only where the counter ends. A search that ends on its first page,
/// with room left, adds one for each.
pub proof fn searches_are_counted(s: State, needle: Seq<u8>)
    requires
        s.db.wf(),
        16 * s.db.kept.len() <= u32::MAX,
        s.read_gate() is None,
    ensures
        ({
            let (t, reply) = s.find(needle, None);
            let all = if needle.len() < 3 {
                s.db.kept.len() as int
            } else {
                postings(s.db.values, tri_at(needle, 0), 16 * s.db.kept.len() as int).len() as int
            };
            &&& t == (State { verified: t.verified, ..s })
            &&& reply matches Reply::FindDone { result }
            &&& result matches Ok(page)
            &&& t.verified < u64::MAX ==> s.verified + page.count <= t.verified <= s.verified + all
            &&& t.verified == u64::MAX ==> s.verified + all >= u64::MAX
            &&& page.count < 8 && s.verified + all <= u64::MAX ==> t.verified == s.verified + all
        }),
{
    a_search_looks_at_each_candidate_once(s.db, needle);
    find_is_exact(s.db, needle, None, s.db.kept.len() as int);
}

proof fn all_under(slots: Seq<int>)
    ensures
        under(slots, None) == slots.len(),
    decreases slots.len(),
{
    if slots.len() > 0 {
        all_under(slots.drop_first());
    }
}

} // verus!
