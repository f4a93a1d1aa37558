//! What the index promises of itself: how chains grow, and that the pages of a
//! search follow on each other, whatever the callbacks decide.

use crate::trigram::{
    candidates, first_at, found_page, laid_out, paged, posted, posted_once, postings,
    postings_facts, postings_same, postings_skip, postings_step, posts_at, resumed, scan_top,
    scanned, swept, tri_at, FindCursor, Indexed, NIL,
};
use vstd::prelude::*;

verus! {

// ---- Chains ----

/// The trigram occurs in `v`.
pub open spec fn holds_trigram(v: Seq<u8>, tri: u32) -> bool {
    exists|o: int| 0 <= o && o + 3 <= v.len() && #[trigger] tri_at(v, o) == tri
}

/// A trigram that occurs has a first occurrence, at `o` or before.
proof fn first_occurrence(v: Seq<u8>, o: int) -> (first: int)
    requires
        0 <= o,
        o + 3 <= v.len(),
    ensures
        first <= o,
        first_at(v, first),
        tri_at(v, first) == tri_at(v, o),
    decreases o,
{
    if first_at(v, o) {
        o
    } else {
        let j = choose|j: int| 0 <= j < o && #[trigger] tri_at(v, j) == tri_at(v, o);
        first_occurrence(v, j)
    }
}

/// Indexing a value makes a trigram's chain longer by one posting, at the
/// front, exactly if the value holds the trigram; however often it occurs in
/// the value. Otherwise the chain stays as it is.
pub proof fn a_chain_grows_by_one_per_value(
    values: Map<int, Seq<u8>>,
    rows: int,
    more: int,
    v: Seq<u8>,
    tri: u32,
)
    requires
        laid_out(values, rows),
        rows >= 0,
        more >= 1,
        v.len() <= 16 * more,
    ensures
        ({
            let before = postings(values, tri, 16 * rows);
            let after = postings(values.insert(rows, v), tri, 16 * (rows + more));
            if holds_trigram(v, tri) {
                after.len() == before.len() + 1 && after.drop_first() == before && 16 * rows
                    <= after[0]
            } else {
                after == before
            }
        }),
{
    let added = values.insert(rows, v);
    let low = 16 * rows;
    let top = 16 * (rows + more);
    assert forall|s: int| 0 <= s < low implies #[trigger] posted(added, s, tri) == posted(
        values,
        s,
        tri,
    ) by {
        if posted(added, s, tri) {
            let h = choose|h: int| #[trigger] posts_at(added, h, s, tri);
            assert(posts_at(values, h, s, tri));
        }
        if posted(values, s, tri) {
            let h = choose|h: int| #[trigger] posts_at(values, h, s, tri);
            assert(values.contains_key(h));
            assert(posts_at(added, h, s, tri));
        }
    }
    postings_same(added, values, tri, low);
    assert forall|s: int| low <= s && #[trigger] posted(added, s, tri) implies first_at(
        v,
        s - low,
    ) && tri_at(v, s - low) == tri by {
        let h = choose|h: int| #[trigger] posts_at(added, h, s, tri);
        if h != rows {
            assert(values.contains_key(h));
        }
    }
    if holds_trigram(v, tri) {
        let o = choose|o: int| 0 <= o && o + 3 <= v.len() && #[trigger] tri_at(v, o) == tri;
        let first = first_occurrence(v, o);
        let s = low + first;
        assert(posts_at(added, rows, s, tri));
        assert forall|x: int| s < x < top implies !#[trigger] posted(added, x, tri) by {
            if posted(added, x, tri) {
                assert(tri_at(v, first) != tri_at(v, x - low));
            }
        }
        assert forall|x: int| low <= x < s implies !#[trigger] posted(added, x, tri) by {
            if posted(added, x, tri) {
                assert(tri_at(v, x - low) != tri_at(v, first));
            }
        }
        postings_skip(added, tri, s + 1, top);
        postings_skip(added, tri, low, s);
        assert(postings(added, tri, s + 1).drop_first() =~= postings(added, tri, s));
    } else {
        postings_skip(added, tri, low, top);
    }
}

// ---- Pages ----

/// The callbacks decide by row alone: `matches` as `accepts` says, `head_of` as
/// `owner` says.
pub open spec fn decided<M: Fn(u64) -> bool, H: Fn(u64) -> Option<u64>>(
    matches: M,
    head_of: H,
    accepts: spec_fn(u64) -> bool,
    owner: spec_fn(u64) -> Option<u64>,
) -> bool {
    &&& forall|row: u64, yes: bool| #[trigger] matches.ensures((row,), yes) ==> yes == accepts(row)
    &&& forall|row: u64, head: Option<u64>| #[trigger]
        head_of.ensures((row,), head) ==> head == owner(row)
}

/// The rows that the walk over these postings finds if nothing stops it.
pub open spec fn walked(
    slots: Seq<int>,
    below: Option<u64>,
    accepts: spec_fn(u64) -> bool,
    owner: spec_fn(u64) -> Option<u64>,
) -> Seq<u64>
    decreases slots.len(),
{
    if slots.len() == 0 {
        Seq::empty()
    } else {
        let row = (slots[0] / 16) as u64;
        let rest = walked(slots.drop_first(), below, accepts, owner);
        if below is Some && row >= below->0 {
            rest
        } else {
            match owner(row) {
                Some(head) => if accepts(head) {
                    seq![head] + rest
                } else {
                    rest
                },
                None => rest,
            }
        }
    }
}

/// The rows below `top` that are accepted, newest first.
pub open spec fn accepted(top: int, accepts: spec_fn(u64) -> bool) -> Seq<u64>
    decreases top,
{
    if top <= 0 {
        Seq::empty()
    } else if accepts((top - 1) as u64) {
        seq![(top - 1) as u64] + accepted(top - 1, accepts)
    } else {
        accepted(top - 1, accepts)
    }
}

/// Everything that a search finds from a cursor on, newest first.
pub open spec fn finds(
    ix: Indexed,
    needle: Seq<u8>,
    cursor: Option<FindCursor>,
    accepts: spec_fn(u64) -> bool,
    owner: spec_fn(u64) -> Option<u64>,
) -> Seq<u64> {
    if needle.len() < 3 {
        accepted(scan_top(ix, cursor), accepts)
    } else {
        walked(
            candidates(ix, needle, cursor),
            (if cursor is Some {
                Some((cursor->0).row)
            } else {
                None
            }),
            accepts,
            owner,
        )
    }
}

/// A scan's page is the front of what there is, and the next one the rest.
proof fn scan_follows_on<M: Fn(u64) -> bool>(
    matches: M,
    accepts: spec_fn(u64) -> bool,
    top: int,
    room: int,
    rows: Seq<u64>,
    next: Option<FindCursor>,
    checks: int,
)
    requires
        top <= u64::MAX,
        room >= 1,
        forall|row: u64, yes: bool| #[trigger]
            matches.ensures((row,), yes) ==> yes == accepts(row),
        scanned(matches, top, room, rows, next, checks),
    ensures
        match next {
            Some(c) => {
                &&& rows.len() == room
                &&& c.row < top
                &&& accepted(top, accepts) == rows + accepted(c.row as int, accepts)
            },
            None => rows.len() <= room && rows == accepted(top, accepts),
        },
    decreases top,
{
    if top > 0 {
        let row = (top - 1) as u64;
        let yes = choose|yes: bool|
            #![trigger matches.ensures((row,), yes)]
            matches.ensures((row,), yes) && (if yes {
                &&& rows.len() >= 1
                &&& rows[0] == row
                &&& if room == 1 {
                    rows.len() == 1 && checks == 1 && next == (if row > 0 {
                        Some(FindCursor { row, slot: NIL })
                    } else {
                        None
                    })
                } else {
                    scanned(matches, top - 1, room - 1, rows.drop_first(), next, checks - 1)
                }
            } else {
                scanned(matches, top - 1, room, rows, next, checks - 1)
            });
        assert(yes == accepts(row));
        if !yes {
            scan_follows_on(matches, accepts, top - 1, room, rows, next, checks - 1);
        } else if room == 1 {
            assert(rows =~= seq![row]);
            if row == 0 {
                assert(accepted(top - 1, accepts) =~= Seq::empty());
                assert(rows =~= accepted(top, accepts));
            }
        } else {
            let tail = rows.drop_first();
            scan_follows_on(matches, accepts, top - 1, room - 1, tail, next, checks - 1);
            assert(rows =~= seq![row] + tail);
            if let Some(c) = next {
                assert(accepted(top, accepts) =~= rows + accepted(c.row as int, accepts));
            }
        }
    }
}

/// The postings behind a posting of a chain, which is also what the cursor that
/// names it resumes at.
pub open spec fn chained(values: Map<int, Seq<u8>>, tri: u32, slots: Seq<int>) -> bool {
    slots.len() > 0 ==> {
        &&& posted(values, slots[0], tri)
        &&& slots == seq![slots[0]] + postings(values, tri, slots[0])
    }
}

/// A chain has at most one posting per row, so the row of a posting bounds all
/// that come behind it.
proof fn behind_is_below(values: Map<int, Seq<u8>>, rows: int, tri: u32, s: int)
    requires
        laid_out(values, rows),
        posted(values, s, tri),
    ensures
        forall|i: int|
            0 <= i < postings(values, tri, s).len() ==> 0 <= (#[trigger] postings(
                values,
                tri,
                s,
            )[i]) && postings(values, tri, s)[i] / 16 < s / 16,
{
    let behind = postings(values, tri, s);
    postings_facts(values, tri, s);
    let h = choose|h: int| #[trigger] posts_at(values, h, s, tri);
    assert(values.contains_key(h));
    assert forall|i: int| 0 <= i < behind.len() implies 0 <= (#[trigger] behind[i]) && behind[i]
        / 16 < s / 16 by {
        let x = behind[i];
        assert(posted(values, x, tri));
        let g = choose|g: int| #[trigger] posts_at(values, g, x, tri);
        assert(values.contains_key(g));
        if g == h {
            assert(tri_at(values[h], x - 16 * h) != tri_at(values[h], s - 16 * h));
        }
        if h < g {
            assert(16 * h + values[h].len() <= 16 * g);
        }
        assert(16 * g + values[g].len() <= 16 * h);
    }
}

/// A bound that no posting reaches bounds nothing.
proof fn bound_is_idle(
    slots: Seq<int>,
    a: Option<u64>,
    b: Option<u64>,
    accepts: spec_fn(u64) -> bool,
    owner: spec_fn(u64) -> Option<u64>,
)
    requires
        forall|i: int|
            0 <= i < slots.len() ==> {
                let row = ((#[trigger] slots[i]) / 16) as u64;
                (a is Some ==> row < a->0) && (b is Some ==> row < b->0)
            },
    ensures
        walked(slots, a, accepts, owner) == walked(slots, b, accepts, owner),
    decreases slots.len(),
{
    if slots.len() > 0 {
        let rest = slots.drop_first();
        assert forall|i: int| 0 <= i < rest.len() implies {
            let row = ((#[trigger] rest[i]) / 16) as u64;
            (a is Some ==> row < a->0) && (b is Some ==> row < b->0)
        } by {
            assert(rest[i] == slots[i + 1]);
        }
        bound_is_idle(rest, a, b, accepts, owner);
        assert((slots[0] / 16) as u64 == (slots[0] / 16) as u64);
    }
}

/// A walk's page is the front of what there is, and the next one the rest.
#[verifier::spinoff_prover]
#[verifier::rlimit(40)]
proof fn walk_follows_on<M: Fn(u64) -> bool, H: Fn(u64) -> Option<u64>>(
    ix: Indexed,
    tri: u32,
    matches: M,
    head_of: H,
    accepts: spec_fn(u64) -> bool,
    owner: spec_fn(u64) -> Option<u64>,
    slots: Seq<int>,
    below: Option<u64>,
    room: int,
    rows: Seq<u64>,
    next: Option<FindCursor>,
    checks: int,
)
    requires
        laid_out(ix.values, ix.rows),
        16 * ix.rows <= u32::MAX,
        room >= 1,
        decided(matches, head_of, accepts, owner),
        chained(ix.values, tri, slots),
        swept(matches, head_of, slots, below, room, rows, next, checks),
    ensures
        match next {
            Some(c) => {
                &&& rows.len() == room
                &&& c.position() is Some
                &&& walked(slots, below, accepts, owner) == rows + walked(
                    resumed(ix.values, c.position()->0),
                    Some(c.row),
                    accepts,
                    owner,
                )
            },
            None => rows.len() <= room && rows == walked(slots, below, accepts, owner),
        },
    decreases slots.len(),
{
    if slots.len() > 0 {
        let s = slots[0];
        let row = (s / 16) as u64;
        let rest = slots.drop_first();
        assert(rest =~= postings(ix.values, tri, s));
        let h = choose|h: int| #[trigger] posts_at(ix.values, h, s, tri);
        assert(ix.values.contains_key(h));
        assert(0 <= s < 16 * ix.rows);
        if rest.len() > 0 {
            postings_step(ix.values, tri, s);
        }
        assert(chained(ix.values, tri, rest));
        if below is Some && row >= below->0 {
            walk_follows_on(ix, tri, matches, head_of, accepts, owner, rest, below, room, rows, next, checks);
        } else {
            let head = choose|head: Option<u64>|
                #![trigger head_of.ensures((row,), head)]
                head_of.ensures((row,), head) && match head {
                    None => swept(matches, head_of, rest, below, room, rows, next, checks),
                    Some(h) => exists|yes: bool|
                        #![trigger matches.ensures((h,), yes)]
                        matches.ensures((h,), yes) && (if yes {
                            &&& rows.len() >= 1
                            &&& rows[0] == h
                            &&& if room == 1 {
                                rows.len() == 1 && next == Some(FindCursor { row, slot: s as u32 })
                                    && checks == 1
                            } else {
                                swept(matches, head_of, rest, below, room - 1, rows.drop_first(), next, checks - 1)
                            }
                        } else {
                            swept(matches, head_of, rest, below, room, rows, next, checks - 1)
                        }),
                };
            assert(head == owner(row));
            match head {
                None => {
                    walk_follows_on(ix, tri, matches, head_of, accepts, owner, rest, below, room, rows, next, checks);
                },
                Some(h) => {
                    let yes = choose|yes: bool|
                        #![trigger matches.ensures((h,), yes)]
                        matches.ensures((h,), yes) && (if yes {
                            &&& rows.len() >= 1
                            &&& rows[0] == h
                            &&& if room == 1 {
                                rows.len() == 1 && next == Some(FindCursor { row, slot: s as u32 })
                                    && checks == 1
                            } else {
                                swept(matches, head_of, rest, below, room - 1, rows.drop_first(), next, checks - 1)
                            }
                        } else {
                            swept(matches, head_of, rest, below, room, rows, next, checks - 1)
                        });
                    assert(yes == accepts(h));
                    if !yes {
                        walk_follows_on(ix, tri, matches, head_of, accepts, owner, rest, below, room, rows, next, checks - 1);
                    } else if room == 1 {
                        assert(rows =~= seq![h]);
                        page_ends(ix, tri, accepts, owner, s, below);
                    } else {
                        let tail = rows.drop_first();
                        walk_follows_on(ix, tri, matches, head_of, accepts, owner, rest, below, room - 1, tail, next, checks - 1);
                        assert(rows =~= seq![h] + tail);
                        if let Some(c) = next {
                            assert(walked(slots, below, accepts, owner) =~= rows + walked(
                                resumed(ix.values, c.position()->0),
                                Some(c.row),
                                accepts,
                                owner,
                            ));
                        }
                    }
                },
            }
        }
    }
}

/// Where a page ends, the cursor resumes at the rest of the chain.
proof fn page_ends(
    ix: Indexed,
    tri: u32,
    accepts: spec_fn(u64) -> bool,
    owner: spec_fn(u64) -> Option<u64>,
    s: int,
    below: Option<u64>,
)
    requires
        laid_out(ix.values, ix.rows),
        16 * ix.rows <= u32::MAX,
        posted(ix.values, s, tri),
        0 <= s < 16 * ix.rows,
        below is Some ==> s / 16 < below->0,
    ensures
        resumed(ix.values, s) == postings(ix.values, tri, s),
        walked(postings(ix.values, tri, s), below, accepts, owner) == walked(
            postings(ix.values, tri, s),
            Some((s / 16) as u64),
            accepts,
            owner,
        ),
{
    let chosen = choose|t: u32| posted(ix.values, s, t);
    posted_once(ix.values, ix.rows, s, tri, chosen);
    behind_is_below(ix.values, ix.rows, tri, s);
    bound_is_idle(postings(ix.values, tri, s), below, Some((s / 16) as u64), accepts, owner);
}

/// Pages follow on each other without a gap and without an overlap: what a
/// search finds from its cursor on is its page and then what it finds from the
/// cursor that the page ends with. A page without one is the last. This holds
/// of every search, whatever its callbacks decide, as long as they decide by
/// row alone.
pub proof fn index_pages_follow_on<M: Fn(u64) -> bool, H: Fn(u64) -> Option<u64>>(
    ix: Indexed,
    needle: Seq<u8>,
    cursor: Option<FindCursor>,
    matches: M,
    head_of: H,
    accepts: spec_fn(u64) -> bool,
    owner: spec_fn(u64) -> Option<u64>,
    room: int,
    rows: Seq<u64>,
    next: Option<FindCursor>,
)
    requires
        laid_out(ix.values, ix.rows),
        16 * ix.rows <= u32::MAX,
        room >= 1,
        decided(matches, head_of, accepts, owner),
        found_page(ix, needle, cursor, matches, head_of, room, rows, next),
    ensures
        match next {
            Some(_) => rows.len() == room && finds(ix, needle, cursor, accepts, owner) == rows
                + finds(ix, needle, next, accepts, owner),
            None => rows.len() <= room && rows == finds(ix, needle, cursor, accepts, owner),
        },
{
    let checks = choose|checks: int| #[trigger]
        paged(ix, needle, cursor, matches, head_of, room, rows, next, checks);
    if needle.len() < 3 {
        let top = scan_top(ix, cursor);
        scan_follows_on(matches, accepts, top, room, rows, next, checks);
    } else {
        let below: Option<u64> = if cursor is Some {
            Some((cursor->0).row)
        } else {
            None
        };
        let slots = candidates(ix, needle, cursor);
        let tri = match cursor {
            Some(c) => match c.position() {
                Some(p) => choose|t: u32| posted(ix.values, p, t),
                None => tri_at(needle, 0),
            },
            None => tri_at(needle, 0),
        };
        if slots.len() > 0 {
            if cursor is Some && (cursor->0).position() is Some {
                postings_step(ix.values, tri, (cursor->0).position()->0);
            } else {
                postings_step(ix.values, tri, 16 * ix.rows);
            }
        }
        walk_follows_on(ix, tri, matches, head_of, accepts, owner, slots, below, room, rows, next, checks);
    }
}

/// A walk finds what its postings lead to.
proof fn walk_meets(
    slots: Seq<int>,
    accepts: spec_fn(u64) -> bool,
    owner: spec_fn(u64) -> Option<u64>,
    i: int,
)
    requires
        0 <= i < slots.len(),
        owner((slots[i] / 16) as u64) is Some,
        accepts(owner((slots[i] / 16) as u64)->0),
    ensures
        walked(slots, None, accepts, owner).contains(owner((slots[i] / 16) as u64)->0),
    decreases i,
{
    let rest = slots.drop_first();
    let all = walked(slots, None, accepts, owner);
    let head = owner((slots[i] / 16) as u64)->0;
    if i == 0 {
        assert(all[0] == head);
    } else {
        assert(rest[i - 1] == slots[i]);
        walk_meets(rest, accepts, owner, i - 1);
        let later = walked(rest, None, accepts, owner);
        let k = choose|k: int| 0 <= k < later.len() && later[k] == head;
        let shift = all.len() - later.len();
        assert(all[k + shift] == head);
    }
}

/// The index misses nothing: a value that holds the needle's first trigram is
/// found, if `head_of` leads from its rows to it and `matches` accepts it.
pub proof fn a_search_misses_no_value(
    ix: Indexed,
    needle: Seq<u8>,
    accepts: spec_fn(u64) -> bool,
    owner: spec_fn(u64) -> Option<u64>,
    head: u64,
)
    requires
        laid_out(ix.values, ix.rows),
        ix.rows <= u64::MAX,
        needle.len() >= 3,
        ix.values.contains_key(head as int),
        holds_trigram(ix.values[head as int], tri_at(needle, 0)),
        forall|row: u64|
            head <= row && 16 * row < 16 * head + ix.values[head as int].len() ==> #[trigger] owner(
                row,
            ) == Some(head),
        accepts(head),
    ensures
        finds(ix, needle, None, accepts, owner).contains(head),
{
    let h = head as int;
    let v = ix.values[h];
    let tri = tri_at(needle, 0);
    let o = choose|o: int| 0 <= o && o + 3 <= v.len() && #[trigger] tri_at(v, o) == tri;
    let first = first_occurrence(v, o);
    let s = 16 * h + first;
    assert(posts_at(ix.values, h, s, tri));
    let slots = postings(ix.values, tri, 16 * ix.rows);
    postings_facts(ix.values, tri, 16 * ix.rows);
    assert(posted(ix.values, s, tri));
    let i = choose|i: int| 0 <= i < slots.len() && slots[i] == s;
    assert(owner((s / 16) as u64) == Some(head));
    walk_meets(slots, accepts, owner, i);
}

/// A search that goes on from a cursor sees the rows as they stood: a value
/// that is indexed in the meantime is not visited, and nothing else changes.
pub proof fn later_values_do_not_disturb_a_search(
    ix: Indexed,
    needle: Seq<u8>,
    c: FindCursor,
    accepts: spec_fn(u64) -> bool,
    owner: spec_fn(u64) -> Option<u64>,
    more: int,
    v: Seq<u8>,
)
    requires
        laid_out(ix.values, ix.rows),
        0 <= ix.rows,
        more >= 1,
        ix.rows + more <= u64::MAX,
        v.len() <= 16 * more,
        c.row <= ix.rows,
        c.position() is Some ==> c.position()->0 < 16 * ix.rows,
    ensures
        ({
            let later = Indexed { values: ix.values.insert(ix.rows, v), rows: ix.rows + more };
            finds(later, needle, Some(c), accepts, owner) == finds(
                ix,
                needle,
                Some(c),
                accepts,
                owner,
            )
        }),
{
    let added = ix.values.insert(ix.rows, v);
    assert forall|x: int, t: u32| x < 16 * ix.rows implies #[trigger] posted(added, x, t) == posted(
        ix.values,
        x,
        t,
    ) by {
        if posted(added, x, t) {
            let h = choose|h: int| #[trigger] posts_at(added, h, x, t);
            assert(posts_at(ix.values, h, x, t));
        }
        if posted(ix.values, x, t) {
            let h = choose|h: int| #[trigger] posts_at(ix.values, h, x, t);
            assert(ix.values.contains_key(h));
            assert(posts_at(added, h, x, t));
        }
    }
    if needle.len() >= 3 {
        match c.position() {
            Some(s) => {
                if exists|t: u32| posted(ix.values, s, t) {
                    let t = choose|t: u32| posted(ix.values, s, t);
                    assert(posted(added, s, t));
                    let u = choose|u: u32| posted(added, s, u);
                    assert(posted(ix.values, s, u));
                    posted_once(ix.values, ix.rows, s, t, u);
                    postings_same(added, ix.values, t, s);
                } else {
                    assert forall|t: u32| !posted(added, s, t) by {
                        assert(!posted(ix.values, s, t));
                    }
                }
                assert(resumed(added, s) == resumed(ix.values, s));
            },
            None => {
                let tri = tri_at(needle, 0);
                let top = 16 * (ix.rows + more);
                a_chain_grows_by_one_per_value(ix.values, ix.rows, more, v, tri);
                if holds_trigram(v, tri) {
                    let after = postings(added, tri, top);
                    postings_facts(added, tri, top);
                    assert(after[0] < top);
                    assert(after[0] / 16 >= ix.rows);
                }
            },
        }
    }
}

} // verus!
