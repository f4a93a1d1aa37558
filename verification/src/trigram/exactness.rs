//! What a search of the index finds, all its pages together: exactly the values
//! that contain the needle, each once, newest first.

use crate::engine::model::{contains, occurs};
use crate::trigram::paging::{
    a_search_misses_no_value, accepted, decided, finds, holds_trigram, index_pages_follow_on,
    walked,
};
use crate::trigram::{
    found_page, laid_out, posted, postings, posts_at, tri_at, FindCursor, Indexed,
};
use vstd::prelude::*;

verus! {

/// `accepts` is true of a row exactly if a value starts there that contains the
/// needle.
pub open spec fn verifies(
    ix: Indexed,
    needle: Seq<u8>,
    accepts: spec_fn(u64) -> bool,
) -> bool {
    forall|row: u64| #[trigger]
        accepts(row) <==> ix.values.contains_key(row as int) && contains(
            ix.values[row as int],
            needle,
        )
}

/// `owner` leads from every row that a value has bytes in to the row that the
/// value starts in.
pub open spec fn leads_home(ix: Indexed, owner: spec_fn(u64) -> Option<u64>) -> bool {
    forall|row: u64, head: u64|
        #![trigger owner(row), ix.values.contains_key(head as int)]
        ix.values.contains_key(head as int) && head <= row && 16 * row < 16 * head
            + ix.values[head as int].len() ==> owner(row) == Some(head)
}

/// Strictly descending.
pub open spec fn descends(rows: Seq<u64>) -> bool {
    forall|i: int, j: int| 0 <= i < j < rows.len() ==> #[trigger] rows[i] > #[trigger] rows[j]
}

/// A scan finds the accepted rows, newest first.
proof fn scan_is_exact(top: int, accepts: spec_fn(u64) -> bool)
    requires
        top <= u64::MAX,
    ensures
        descends(accepted(top, accepts)),
        forall|i: int|
            0 <= i < accepted(top, accepts).len() ==> (#[trigger] accepted(top, accepts)[i]) < top
                && accepts(accepted(top, accepts)[i]),
        forall|row: u64|
            row < top && #[trigger] accepts(row) ==> accepted(top, accepts).contains(row),
    decreases top,
{
    if top > 0 {
        scan_is_exact(top - 1, accepts);
        let last = (top - 1) as u64;
        let rest = accepted(top - 1, accepts);
        let all = accepted(top, accepts);
        if accepts(last) {
            in_front(last, rest);
        }
        assert forall|row: u64| row < top && #[trigger] accepts(row) implies all.contains(row) by {
            if row == last {
                assert(all[0] == row);
            } else {
                assert(rest.contains(row));
            }
        }
        assert forall|i: int| 0 <= i < all.len() implies (#[trigger] all[i]) < top && accepts(
            all[i],
        ) by {
            if accepts(last) && i > 0 {
                assert(all[i] == rest[i - 1]);
            }
        }
    }
}

/// A row in front of older ones.
proof fn in_front(row: u64, rest: Seq<u64>)
    requires
        descends(rest),
        forall|i: int| 0 <= i < rest.len() ==> (#[trigger] rest[i]) < row,
    ensures
        descends(seq![row] + rest),
        forall|x: u64| rest.contains(x) ==> #[trigger] (seq![row] + rest).contains(x),
{
    let all = seq![row] + rest;
    assert forall|i: int, j: int| 0 <= i < j < all.len() implies #[trigger] all[i]
        > #[trigger] all[j] by {
        assert(all[j] == rest[j - 1]);
        if i > 0 {
            assert(all[i] == rest[i - 1]);
        }
    }
    assert forall|x: u64| rest.contains(x) implies #[trigger] all.contains(x) by {
        let i = choose|i: int| 0 <= i < rest.len() && rest[i] == x;
        assert(all[i + 1] == x);
    }
}

/// The value that starts in this row posts the trigram below `bound`.
spec fn posts_below(ix: Indexed, tri: u32, head: u64, bound: int) -> bool {
    exists|s: int| 0 <= s < bound && #[trigger] posts_at(ix.values, head as int, s, tri)
}

/// A walk finds values that post the trigram, newest first.
#[verifier::spinoff_prover]
proof fn walk_descends(
    ix: Indexed,
    tri: u32,
    accepts: spec_fn(u64) -> bool,
    owner: spec_fn(u64) -> Option<u64>,
    bound: int,
)
    requires
        laid_out(ix.values, ix.rows),
        leads_home(ix, owner),
        bound <= 16 * ix.rows,
        ix.rows <= u64::MAX,
    ensures
        ({
            let w = walked(postings(ix.values, tri, bound), None, accepts, owner);
            &&& descends(w)
            &&& forall|i: int|
                0 <= i < w.len() ==> accepts(#[trigger] w[i]) && posts_below(ix, tri, w[i], bound)
        }),
    decreases bound,
{
    if bound > 0 {
        walk_descends(ix, tri, accepts, owner, bound - 1);
        let s = bound - 1;
        let slots = postings(ix.values, tri, bound);
        let older = postings(ix.values, tri, s);
        let rest = walked(older, None, accepts, owner);
        let w = walked(slots, None, accepts, owner);
        assert forall|i: int| 0 <= i < rest.len() implies accepts(#[trigger] rest[i])
            && posts_below(ix, tri, rest[i], bound) by {
            let x = choose|x: int|
                0 <= x < s && #[trigger] posts_at(ix.values, rest[i] as int, x, tri);
            assert(posts_at(ix.values, rest[i] as int, x, tri));
        }
        if posted(ix.values, s, tri) {
            let h = choose|h: int| #[trigger] posts_at(ix.values, h, s, tri);
            assert(ix.values.contains_key(h));
            let head = h as u64;
            let row = (s / 16) as u64;
            assert(ix.values.contains_key(head as int));
            assert(owner(row) == Some(head));
            assert(slots.drop_first() =~= older);
            assert forall|i: int| 0 <= i < rest.len() implies (#[trigger] rest[i]) < head by {
                let g = rest[i] as int;
                let x = choose|x: int| 0 <= x < s && #[trigger] posts_at(ix.values, g, x, tri);
                assert(ix.values.contains_key(g));
                if g == h {
                    assert(tri_at(ix.values[h], x - 16 * h) != tri_at(ix.values[h], s - 16 * h));
                }
                if h < g {
                    assert(16 * h + ix.values[h].len() <= 16 * g);
                }
            }
            if accepts(head) {
                in_front(head, rest);
                assert(posts_below(ix, tri, head, bound));
                assert forall|i: int| 0 <= i < w.len() implies accepts(#[trigger] w[i])
                    && posts_below(ix, tri, w[i], bound) by {
                    if i > 0 {
                        assert(w[i] == rest[i - 1]);
                    }
                }
            }
        }
    }
}

/// A value that contains a needle of three bytes or more holds its first
/// trigram.
proof fn needles_hold_their_trigram(v: Seq<u8>, needle: Seq<u8>)
    requires
        needle.len() >= 3,
        contains(v, needle),
    ensures
        holds_trigram(v, tri_at(needle, 0)),
{
    let o = choose|o: int| #[trigger] occurs(v, needle, o);
    let part = v.subrange(o, o + needle.len());
    assert(part[0] == v[o] && part[1] == v[o + 1] && part[2] == v[o + 2]);
    assert(tri_at(v, o) == tri_at(needle, 0));
}

/// From its start, a search finds exactly the values that contain the needle,
/// each once and newest first, whatever the needle's length; given callbacks
/// that verify a value as they should and lead from a row to the value it is
/// part of.
pub proof fn a_search_finds_exactly_the_matches(
    ix: Indexed,
    needle: Seq<u8>,
    accepts: spec_fn(u64) -> bool,
    owner: spec_fn(u64) -> Option<u64>,
)
    requires
        laid_out(ix.values, ix.rows),
        0 <= ix.rows <= u64::MAX,
        verifies(ix, needle, accepts),
        leads_home(ix, owner),
    ensures
        ({
            let found = finds(ix, needle, None, accepts, owner);
            &&& descends(found)
            &&& forall|row: u64| #[trigger]
                found.contains(row) <==> ix.values.contains_key(row as int) && contains(
                    ix.values[row as int],
                    needle,
                )
        }),
{
    let found = finds(ix, needle, None, accepts, owner);
    if needle.len() < 3 {
        scan_is_exact(ix.rows, accepts);
        assert forall|row: u64| #[trigger] found.contains(row) <==> ix.values.contains_key(row as int)
            && contains(ix.values[row as int], needle) by {
            if found.contains(row) {
                let i = choose|i: int| 0 <= i < found.len() && found[i] == row;
                assert(accepts(found[i]));
            }
            if ix.values.contains_key(row as int) && contains(ix.values[row as int], needle) {
                assert(accepts(row));
            }
        }
    } else {
        walk_descends(ix, tri_at(needle, 0), accepts, owner, 16 * ix.rows);
        assert forall|row: u64| #[trigger] found.contains(row) <==> ix.values.contains_key(row as int)
            && contains(ix.values[row as int], needle) by {
            if found.contains(row) {
                let i = choose|i: int| 0 <= i < found.len() && found[i] == row;
                assert(accepts(found[i]));
            }
            if ix.values.contains_key(row as int) && contains(ix.values[row as int], needle) {
                assert(accepts(row));
                needles_hold_their_trigram(ix.values[row as int], needle);
                a_search_misses_no_value(ix, needle, accepts, owner, row);
            }
        }
    }
}

// ---- All pages together ----

/// The rows of the first `n` pages, one behind the other.
pub open spec fn joined(pages: Seq<(Seq<u64>, Option<FindCursor>)>, n: int) -> Seq<u64>
    decreases n,
{
    if n <= 0 {
        Seq::empty()
    } else {
        joined(pages, n - 1) + pages[n - 1].0
    }
}

/// The cursor that page number `i` was asked for with.
pub open spec fn cursor_for(pages: Seq<(Seq<u64>, Option<FindCursor>)>, i: int) -> Option<
    FindCursor,
> {
    if i <= 0 {
        None
    } else {
        pages[i - 1].1
    }
}

/// Pages taken one after the other from the start, each from where the one
/// before it ended.
pub open spec fn taken<M: Fn(u64) -> bool, H: Fn(u64) -> Option<u64>>(
    ix: Indexed,
    needle: Seq<u8>,
    matches: M,
    head_of: H,
    room: int,
    pages: Seq<(Seq<u64>, Option<FindCursor>)>,
) -> bool {
    &&& forall|i: int|
        0 <= i < pages.len() ==> found_page(
            ix,
            needle,
            cursor_for(pages, i),
            matches,
            head_of,
            room,
            (#[trigger] pages[i]).0,
            pages[i].1,
        )
    &&& forall|i: int| 0 <= i < pages.len() - 1 ==> (#[trigger] pages[i]).1 is Some
}

proof fn pages_so_far<M: Fn(u64) -> bool, H: Fn(u64) -> Option<u64>>(
    ix: Indexed,
    needle: Seq<u8>,
    matches: M,
    head_of: H,
    accepts: spec_fn(u64) -> bool,
    owner: spec_fn(u64) -> Option<u64>,
    room: int,
    pages: Seq<(Seq<u64>, Option<FindCursor>)>,
    n: int,
)
    requires
        laid_out(ix.values, ix.rows),
        0 <= ix.rows,
        16 * ix.rows <= u32::MAX,
        room >= 1,
        decided(matches, head_of, accepts, owner),
        taken(ix, needle, matches, head_of, room, pages),
        0 <= n <= pages.len(),
    ensures
        ({
            let all = finds(ix, needle, None, accepts, owner);
            let so_far = joined(pages, n);
            if n == 0 || pages[n - 1].1 is Some {
                &&& so_far.len() == room * n
                &&& all == so_far + finds(ix, needle, cursor_for(pages, n), accepts, owner)
            } else {
                &&& so_far.len() <= room * n
                &&& so_far.len() >= room * (n - 1)
                &&& all == so_far
            }
        }),
    decreases n,
{
    let all = finds(ix, needle, None, accepts, owner);
    if n == 0 {
        assert(Seq::<u64>::empty() + all =~= all);
    } else {
        pages_so_far(ix, needle, matches, head_of, accepts, owner, room, pages, n - 1);
        let (rows, next) = pages[n - 1];
        if n - 1 > 0 {
            assert(pages[n - 2].1 is Some);
        }
        let cursor = cursor_for(pages, n - 1);
        assert(found_page(ix, needle, cursor, matches, head_of, room, rows, next));
        index_pages_follow_on(
            ix,
            needle,
            cursor,
            matches,
            head_of,
            accepts,
            owner,
            room,
            rows,
            next,
        );
        let before = joined(pages, n - 1);
        assert(room * n == room * (n - 1) + room) by (nonlinear_arith);
        if next is Some {
            let rest = finds(ix, needle, next, accepts, owner);
            assert(before + (rows + rest) =~= (before + rows) + rest);
        }
    }
}

/// Searching page by page, from the start until a page comes without a cursor,
/// finds exactly the values that contain the needle, each once and newest
/// first, whatever the needle's length and the pages' size. It ends: every page
/// but the last is full.
pub proof fn the_pages_are_exactly_the_matches<M: Fn(u64) -> bool, H: Fn(u64) -> Option<u64>>(
    ix: Indexed,
    needle: Seq<u8>,
    matches: M,
    head_of: H,
    accepts: spec_fn(u64) -> bool,
    owner: spec_fn(u64) -> Option<u64>,
    room: int,
    pages: Seq<(Seq<u64>, Option<FindCursor>)>,
)
    requires
        laid_out(ix.values, ix.rows),
        0 <= ix.rows,
        16 * ix.rows <= u32::MAX,
        room >= 1,
        decided(matches, head_of, accepts, owner),
        verifies(ix, needle, accepts),
        leads_home(ix, owner),
        taken(ix, needle, matches, head_of, room, pages),
        pages.len() > 0,
    ensures
        ({
            let all = joined(pages, pages.len() as int);
            &&& room * (pages.len() - 1) <= all.len() <= room * pages.len()
            &&& descends(all)
            &&& forall|row: u64| #[trigger]
                all.contains(row) ==> ix.values.contains_key(row as int) && contains(
                    ix.values[row as int],
                    needle,
                )
            &&& pages.last().1 is None ==> forall|row: u64|
                ix.values.contains_key(row as int) && contains(ix.values[row as int], needle)
                    ==> #[trigger] all.contains(row)
        }),
{
    let n = pages.len() as int;
    let all = joined(pages, n);
    let found = finds(ix, needle, None, accepts, owner);
    pages_so_far(ix, needle, matches, head_of, accepts, owner, room, pages, n);
    a_search_finds_exactly_the_matches(ix, needle, accepts, owner);
    assert(room * (n - 1) <= room * n) by (nonlinear_arith)
        requires
            room >= 1,
    ;
    assert(forall|i: int| 0 <= i < all.len() ==> #[trigger] all[i] == found[i]);
    assert forall|row: u64| #[trigger] all.contains(row) implies found.contains(row) by {
        let i = choose|i: int| 0 <= i < all.len() && all[i] == row;
        assert(found[i] == row);
    }
    assert forall|i: int, j: int| 0 <= i < j < all.len() implies #[trigger] all[i]
        > #[trigger] all[j] by {
        assert(found[i] > found[j]);
    }
}

} // verus!
