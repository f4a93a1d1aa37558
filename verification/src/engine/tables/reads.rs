//! Reading the tables: windows, range pages and searches.

use crate::btree::{folded, scan_of};
use crate::engine::log::{value_at, Db};
use crate::engine::model::{
    contains, head_row, hits, ids_between, is_hit, min, occurs, page_items, row_view, scan, sweep,
    window, Hits,
};
use crate::engine::tables::Tables;
use crate::engine::types::{
    empty_row, FindPage, PageView, RangePage, RowRef, ValueWindow, RANGE_PAGE,
};
use crate::slot::RowKind;
use crate::trigram::{candidates, scan_top, scanned, swept, FindCursor, Indexed};
use vstd::prelude::*;
use vstd::slice::slice_subrange;

verus! {

/// A range page under construction.
#[derive(Clone, Copy)]
pub struct Gathered {
    rows: [u64; RANGE_PAGE],
    n: usize,
    next: Option<u64>,
}

/// What visiting one entry does to the page: the new page, and whether to go
/// on.
spec fn gathered(db: Db, hi: u64, acc: Gathered, key: u64, row: u64, out: (Gathered, bool)) -> bool {
    if key > hi {
        out == (acc, false)
    } else if !db.is_live(row as int) {
        out == (acc, true)
    } else if acc.n == 8 {
        &&& out.0 == (Gathered { next: Some(key), ..acc })
        &&& !out.1
    } else {
        &&& out.0.rows@ == acc.rows@.update(acc.n as int, row)
        &&& out.0.n == acc.n + 1
        &&& out.0.next == acc.next
        &&& out.1
    }
}

/// The live entries up to `hi` among the visited ones.
spec fn live_entries(db: Db, hi: u64, es: Seq<(u64, u64)>) -> Seq<(u64, u64)>
    decreases es.len(),
{
    if es.len() == 0 || es[0].0 > hi {
        Seq::empty()
    } else if db.is_live(es[0].1 as int) {
        seq![es[0]] + live_entries(db, hi, es.drop_first())
    } else {
        live_entries(db, hi, es.drop_first())
    }
}

proof fn gather_all<F: Fn(Gathered, u64, u64) -> (Gathered, bool)>(
    f: F,
    db: Db,
    hi: u64,
    es: Seq<(u64, u64)>,
    init: Gathered,
    fin: Gathered,
)
    requires
        folded(f, es, init, fin),
        init.n <= 8,
        init.next is None,
        forall|a: Gathered, k: u64, v: u64, out: (Gathered, bool)|
            a.n <= 8 && #[trigger] f.ensures((a, k, v), out) ==> gathered(db, hi, a, k, v, out),
    ensures
        ({
            let found = live_entries(db, hi, es);
            let room = 8 - init.n;
            let n = min(found.len() as int, room);
            &&& fin.n == init.n + n
            &&& forall|i: int| 0 <= i < init.n ==> #[trigger] fin.rows@[i] == init.rows@[i]
            &&& forall|i: int| 0 <= i < n ==> #[trigger] fin.rows@[init.n + i] == found[i].1
            &&& fin.next == (if found.len() > room {
                Some(found[room].0)
            } else {
                None
            })
        }),
    decreases es.len(),
{
    if es.len() > 0 {
        let (k, v) = es[0];
        let (mid, go) = choose|mid: Gathered, go: bool|
            #![trigger f.ensures((init, k, v), (mid, go))]
            f.ensures((init, k, v), (mid, go)) && (if go {
                folded(f, es.drop_first(), mid, fin)
            } else {
                fin == mid
            });
        assert(gathered(db, hi, init, k, v, (mid, go)));
        if go {
            gather_all(f, db, hi, es.drop_first(), mid, fin);
            let rest = live_entries(db, hi, es.drop_first());
            if k <= hi && db.is_live(v as int) {
                let found = live_entries(db, hi, es);
                assert(found =~= seq![es[0]] + rest);
                let n = min(found.len() as int, 8 - init.n);
                assert forall|i: int| 0 <= i < n implies #[trigger] fin.rows@[init.n + i]
                    == found[i].1 by {
                    if i > 0 {
                        assert(fin.rows@[mid.n + (i - 1)] == rest[i - 1].1);
                    } else {
                        assert(fin.rows@[init.n as int] == mid.rows@[init.n as int]);
                    }
                }
            }
        } else if k <= hi {
            let found = live_entries(db, hi, es);
            assert(found[0] == es[0]);
        }
    }
}

proof fn ids_skip(m: Map<u64, u64>, lo: int, mid: int, hi: int)
    requires
        0 <= lo <= mid,
        hi <= u64::MAX,
        forall|k: u64| lo <= k < mid && k <= hi ==> !#[trigger] m.contains_key(k),
    ensures
        ids_between(m, lo, hi) == ids_between(m, mid, hi),
    decreases mid - lo,
{
    if lo < mid && lo <= hi {
        assert(!m.contains_key(lo as u64));
        ids_skip(m, lo + 1, mid, hi);
    }
}

proof fn entries_are_ids(db: Db, es: Seq<(u64, u64)>, lo: int, hi: u64)
    requires
        db.wf(),
        lo >= 0,
        crate::btree::model::in_order(es),
        forall|i: int|
            0 <= i < es.len() ==> db.bound.contains_key((#[trigger] es[i]).0) && db.bound[es[i].0]
                == es[i].1 && es[i].0 >= lo,
        forall|k: u64| #[trigger] db.live.contains_key(k) && k >= lo ==> es.contains((k, db.live[k])),
    ensures
        live_entries(db, hi, es).len() == ids_between(db.live, lo, hi as int).len(),
        forall|i: int|
            0 <= i < live_entries(db, hi, es).len() ==> (#[trigger] live_entries(db, hi, es)[i]).0
                == ids_between(db.live, lo, hi as int)[i] && db.live.contains_key(
                live_entries(db, hi, es)[i].0,
            ) && live_entries(db, hi, es)[i].1 == db.live[live_entries(db, hi, es)[i].0],
    decreases es.len(),
{
    if es.len() == 0 {
        assert forall|k: u64| lo <= k && k <= hi implies !#[trigger] db.live.contains_key(k) by {
            if db.live.contains_key(k) {
                assert(es.contains((k, db.live[k])));
            }
        }
        ids_skip(db.live, lo, if lo <= hi { hi + 1 } else { lo }, hi as int);
    } else {
        let (k, row) = es[0];
        let rest = es.drop_first();
        assert(db.bound.contains_key(k) && db.heads(row as int, k));
        assert forall|x: u64| lo <= x < k implies !#[trigger] db.live.contains_key(x) by {
            if db.live.contains_key(x) {
                assert(es.contains((x, db.live[x])));
                let j = choose|j: int| 0 <= j < es.len() && es[j] == (x, db.live[x]);
                assert(es[0].0 <= es[j].0);
            }
        }
        if k > hi {
            ids_skip(db.live, lo, if lo <= hi { hi + 1 } else { lo }, hi as int);
        } else {
            ids_skip(db.live, lo, k as int, hi as int);
            assert forall|i: int| 0 <= i < rest.len() implies db.bound.contains_key(
                (#[trigger] rest[i]).0,
            ) && db.bound[rest[i].0] == rest[i].1 && rest[i].0 >= k + 1 by {
                assert(rest[i] == es[i + 1]);
                assert(es[0].0 < es[i + 1].0);
            }
            assert forall|x: u64| #[trigger] db.live.contains_key(x) && x >= k + 1 implies rest.contains(
                (x, db.live[x]),
            ) by {
                assert(es.contains((x, db.live[x])));
                let j = choose|j: int| 0 <= j < es.len() && es[j] == (x, db.live[x]);
                assert(rest[j - 1] == es[j]);
            }
            assert(crate::btree::model::in_order(rest)) by {
                assert forall|i: int, j: int| 0 <= i < j < rest.len() implies (#[trigger] rest[i]).0
                    < (#[trigger] rest[j]).0 by {
                    assert(es[i + 1].0 < es[j + 1].0);
                }
            }
            entries_are_ids(db, rest, k + 1, hi);
            if db.is_live(row as int) {
                assert(live_entries(db, hi, es) =~= seq![es[0]] + live_entries(db, hi, rest));
                assert(ids_between(db.live, k as int, hi as int) =~= seq![k] + ids_between(
                    db.live,
                    k + 1,
                    hi as int,
                ));
                let a = live_entries(db, hi, es);
                assert forall|i: int| 0 <= i < a.len() implies (#[trigger] a[i]).0 == ids_between(
                    db.live,
                    lo,
                    hi as int,
                )[i] && db.live.contains_key(a[i].0) && a[i].1 == db.live[a[i].0] by {
                    if i > 0 {
                        assert(a[i] == live_entries(db, hi, rest)[i - 1]);
                    }
                }
            } else {
                assert(!db.live.contains_key(k));
            }
        }
    }
}

impl Tables {
    /// The window onto an id's value from `offset` on.
    pub fn window_of(&self, id: u64, offset: u32) -> (w: Option<ValueWindow>)
        requires
            self.inv(),
        ensures
            match w {
                Some(w) => self@.live.contains_key(id) && w@ == window(
                    self@.kept,
                    self@.live[id] as int,
                    offset,
                ),
                None => !self@.live.contains_key(id),
            },
    {
        let head: u64 = match self.live_row_of(id) {
            Some(row) => row,
            None => {
                return None;
            },
        };
        proof {
            self.facts();
            assert(self@.heads(self@.bound[id] as int, id));
            assert(self@.holds(head as int));
        }
        let (rows, total) = self.value_extent(head);
        let skip: u64 = (offset / 16) as u64;
        if skip < rows {
            proof {
                if skip > 0 {
                    assert(crate::engine::log::continues(
                        self@.kept,
                        head + skip,
                        (self@.kept[head as int]->0).id,
                    ));
                }
            }
            if let Some(s) = self.row_at(head + skip) {
                return Some(ValueWindow { total, offset, len: s.len, bytes: s.value });
            }
        }
        let bytes: [u8; 16] = [0u8; 16];
        assert(bytes@ =~= crate::bytes::zeros(16));
        Some(ValueWindow { total, offset, len: 0, bytes })
    }

    /// A value's row in a page.
    fn row_ref(&self, head: u64) -> (r: RowRef)
        requires
            self.inv(),
            self@.values.contains_key(head as int),
        ensures
            r@ == row_view(self@.kept, head as int),
    {
        proof {
            self.facts();
            assert(self@.holds(head as int));
        }
        let (_rows, total) = self.value_extent(head);
        match self.row_at(head) {
            Some(s) => RowRef { id: s.id, len: total, head: s.value },
            None => RowRef::empty(),
        }
    }

    /// Fill a page's places.
    fn fill(&self, rows: &[u64; 8], n: usize) -> (items: [RowRef; 8])
        requires
            self.inv(),
            n <= 8,
            forall|i: int| 0 <= i < n ==> self@.values.contains_key((#[trigger] rows@[i]) as int),
        ensures
            Seq::new(8, |i: int| items@[i]@) == page_items(self@.kept, rows@.take(n as int)),
    {
        let mut items: [RowRef; 8] = [RowRef::empty();8];
        let mut k: usize = 0;
        while k < n
            invariant
                self.inv(),
                k <= n <= 8,
                items@.len() == 8,
                forall|i: int|
                    0 <= i < n ==> self@.values.contains_key((#[trigger] rows@[i]) as int),
                forall|i: int|
                    0 <= i < 8 ==> (#[trigger] items@[i])@ == (if i < k {
                        row_view(self@.kept, rows@[i] as int)
                    } else {
                        empty_row()
                    }),
            decreases n - k,
        {
            items[k] = self.row_ref(rows[k]);
            k = k + 1;
        }
        assert(Seq::new(8, |i: int| items@[i]@) =~= page_items(self@.kept, rows@.take(n as int)));
        items
    }

    fn gather(&self, acc: Gathered, key: u64, row: u64, hi: u64) -> (out: (Gathered, bool))
        requires
            self.inv(),
            acc.n <= 8,
        ensures
            gathered(self@, hi, acc, key, row, out),
    {
        if key > hi {
            (acc, false)
        } else if !self.is_live(row) {
            (acc, true)
        } else if acc.n == 8 {
            (Gathered { rows: acc.rows, n: acc.n, next: Some(key) }, false)
        } else {
            let mut rows = acc.rows;
            rows[acc.n] = row;
            (Gathered { rows, n: acc.n + 1, next: acc.next }, true)
        }
    }

    /// One page of the live rows from `lo` to `hi`, by id.
    pub fn scan_page(&self, lo: u64, hi: u64) -> (page: RangePage)
        requires
            self.inv(),
        ensures
            ({
                let ids = ids_between(self@.live, lo as int, hi as int);
                let n = min(ids.len() as int, 8);
                page@ == (PageView {
                    items: page_items(
                        self@.kept,
                        ids.take(n).map_values(|id: u64| self@.live[id]),
                    ),
                    count: n as u8,
                    next: if ids.len() > 8 {
                        Some(ids[8])
                    } else {
                        None
                    },
                    incomplete: self@.quarantined > 0,
                })
            }),
    {
        let ghost db = self@;
        let ghost ids = ids_between(db.live, lo as int, hi as int);
        let incomplete: bool = self.quarantined() > 0;
        let init = Gathered { rows: [0u64; 8], n: 0, next: None };
        let f = |acc: Gathered, key: u64, row: u64| -> (out: (Gathered, bool))
            ensures
                acc.n <= 8 ==> gathered(self@, hi, acc, key, row, out),
            {
                if acc.n <= 8 {
                    self.gather(acc, key, row, hi)
                } else {
                    (acc, false)
                }
            };
        let fin: Gathered = self.ordered.for_each_from(lo, init, f);
        proof {
            self.facts();
            let es = choose|es: Seq<(u64, u64)>| #[trigger]
                scan_of(db.bound, lo, es) && folded(f, es, init, fin);
            gather_all(f, db, hi, es, init, fin);
            assert forall|k: u64| #[trigger] db.live.contains_key(k) && k >= lo implies es.contains(
                (k, db.live[k]),
            ) by {
                assert(db.bound.contains_key(k) && db.live[k] == db.bound[k]);
            }
            entries_are_ids(db, es, lo as int, hi);
            let found = live_entries(db, hi, es);
            assert forall|i: int| 0 <= i < fin.n implies fin.rows@[i] == db.live[ids[i]]
                && db.values.contains_key((#[trigger] fin.rows@[i]) as int) by {
                assert(fin.rows@[init.n + i] == found[i].1);
                assert(found[i].0 == ids[i]);
                assert(db.heads(db.bound[ids[i]] as int, ids[i]));
            }
            assert(fin.rows@.take(fin.n as int) =~= ids.take(fin.n as int).map_values(
                |id: u64| db.live[id],
            ));
            if found.len() > 8 {
                assert(found[8].0 == ids[8]);
            }
        }
        let items = self.fill(&fin.rows, fin.n);
        RangePage { items, count: fin.n as u8, next: fin.next, incomplete }
    }

    /// The row in which the value that a row belongs to starts.
    fn head_of(&self, row: u64) -> (head: Option<u64>)
        requires
            self.inv(),
            row < self@.kept.len(),
        ensures
            head == head_row(self@.kept, row as int),
    {
        proof {
            self.facts();
        }
        let mut r: u64 = row;
        loop
            invariant
                self.inv(),
                r < self@.kept.len() <= self.capacity(),
                head_row(self@.kept, row as int) == head_row(self@.kept, r as int),
            decreases r,
        {
            match self.row_at(r) {
                None => {
                    return None;
                },
                Some(s) => {
                    if s.kind == RowKind::Record || s.kind == RowKind::Update {
                        return Some(r);
                    }
                    if s.kind != RowKind::Chunk || r == 0 {
                        return None;
                    }
                    r = r - 1;
                },
            }
        }
    }

    /// Does a live value that contains the needle start in this row?
    fn matches(&self, needle: &[u8], row: u64) -> (yes: bool)
        requires
            self.inv(),
        ensures
            yes == is_hit(self@, needle@, row as int),
    {
        if !self.is_live(row) {
            return false;
        }
        proof {
            self.facts();
            let id = (self@.kept[row as int]->0).id;
            assert(self@.live.contains_key(id) && self@.bound.contains_key(id));
            assert(self@.heads(self@.bound[id] as int, id));
        }
        let mut value: [u8; 2048] = [0u8; 2048];
        let n: usize = self.value_bytes(row, &mut value);
        let ghost v = value_at(self@.kept, row as int);
        assert(value@.subrange(0, n as int) =~= v);
        occurs_in(slice_subrange(&value, 0, n), needle)
    }

    /// One page of the values that contain the needle, newest first, and how
    /// many candidates were looked at.
    pub fn find_page(&self, needle: &[u8], after: Option<FindCursor>) -> (out: (FindPage, u64))
        requires
            self.inv(),
            after is Some && (after->0).position() is Some ==> (after->0).position()->0 < 16
                * self.capacity(),
        ensures
            ({
                let h = hits(self@, needle@, after);
                &&& out.0@ == (PageView {
                    items: page_items(self@.kept, h.rows),
                    count: h.rows.len() as u8,
                    next: h.next,
                    incomplete: self@.quarantined > 0,
                })
                &&& out.1 == h.checks
            }),
    {
        let ghost db = self@;
        proof {
            self.facts();
        }
        let incomplete: bool = self.quarantined() > 0;
        let mut rows: [u64; 8] = [0u64; 8];
        let matches = |row: u64| -> (yes: bool)
            ensures
                yes == is_hit(self@, needle@, row as int),
            { self.matches(needle, row) };
        let head_of = |row: u64| -> (head: Option<u64>)
            requires
                row < self@.kept.len(),
            ensures
                head == head_row(self@.kept, row as int),
            { self.head_of(row) };
        let (n, next, checks) = self.trigram.find_page_counted(
            needle,
            after,
            &mut rows,
            matches,
            head_of,
        );
        proof {
            let ix = Indexed { values: db.values, rows: db.kept.len() as int };
            let h = hits(db, needle@, after);
            if needle@.len() < 3 {
                scanned_is(
                    matches,
                    db,
                    needle@,
                    scan_top(ix, after),
                    8,
                    rows@.take(n as int),
                    next,
                    checks as int,
                );
                scan_facts(db, needle@, scan_top(ix, after), 8);
            } else {
                let below = if after is Some {
                    Some((after->0).row)
                } else {
                    None
                };
                let slots = candidates(ix, needle@, after);
                swept_is(
                    matches,
                    head_of,
                    db,
                    needle@,
                    slots,
                    below,
                    8,
                    rows@.take(n as int),
                    next,
                    checks as int,
                );
                sweep_facts(db, needle@, slots, below, 8);
            }
            assert forall|i: int| 0 <= i < n implies db.values.contains_key(
                (#[trigger] rows@[i]) as int,
            ) by {
                assert(rows@.take(n as int)[i] == rows@[i]);
                assert(is_hit(db, needle@, h.rows[i] as int));
                let id = (db.kept[rows@[i] as int]->0).id;
                assert(db.live.contains_key(id) && db.bound.contains_key(id));
                assert(db.heads(db.bound[id] as int, id));
            }
        }
        let items = self.fill(&rows, n);
        (FindPage { items, count: n as u8, next, incomplete }, checks)
    }

    /// Every live row's id and value, in the order of the rows.
    pub fn live_rows(&self) -> (out: Vec<(u64, Vec<u8>)>)
        requires
            self.inv(),
        ensures
            listed(out@, live_values(self@, self@.kept.len() as int)),
    {
        let mut out: Vec<(u64, Vec<u8>)> = Vec::new();
        let len: u64 = self.trigram.len();
        let mut row: u64 = 0;
        while row < len
            invariant
                self.inv(),
                row <= len == self@.kept.len(),
                listed(out@, live_values(self@, row as int)),
            decreases len - row,
        {
            proof {
                self.facts();
            }
            if self.is_live(row) {
                proof {
                    let id = (self@.kept[row as int]->0).id;
                    assert(self@.live.contains_key(id) && self@.bound.contains_key(id));
                    assert(self@.heads(self@.bound[id] as int, id));
                }
                let id: u64 = self.row_id_at(row);
                let mut value: [u8; 2048] = [0u8; 2048];
                let n: usize = self.value_bytes(row, &mut value);
                let mut bytes: Vec<u8> = Vec::new();
                let mut k: usize = 0;
                while k < n
                    invariant
                        k <= n <= 2048,
                        value@.len() == 2048,
                        bytes@ =~= value@.take(k as int),
                    decreases n - k,
                {
                    bytes.push(value[k]);
                    k = k + 1;
                }
                out.push((id, bytes));
            }
            row = row + 1;
        }
        out
    }
}

/// The live rows' ids and values among the first `n` rows.
pub open spec fn live_values(db: Db, n: int) -> Seq<(u64, Seq<u8>)>
    decreases n,
{
    if n <= 0 {
        Seq::empty()
    } else if db.is_live(n - 1) {
        live_values(db, n - 1).push(((db.kept[n - 1]->0).id, value_at(db.kept, n - 1)))
    } else {
        live_values(db, n - 1)
    }
}

/// A list of rows is this one.
pub open spec fn listed(out: Seq<(u64, Vec<u8>)>, rows: Seq<(u64, Seq<u8>)>) -> bool {
    &&& out.len() == rows.len()
    &&& forall|i: int|
        0 <= i < out.len() ==> (#[trigger] out[i]).0 == rows[i].0 && out[i].1@ == rows[i].1
}

/// Does the needle occur in the value?
fn occurs_in(value: &[u8], needle: &[u8]) -> (yes: bool)
    ensures
        yes == contains(value@, needle@),
{
    if needle.len() > value.len() {
        return false;
    }
    let last: usize = value.len() - needle.len();
    let mut o: usize = 0;
    loop
        invariant
            o <= last,
            last + needle.len() == value.len(),
            forall|p: int| 0 <= p < o ==> !#[trigger] occurs(value@, needle@, p),
        decreases last - o,
    {
        let mut k: usize = 0;
        while k < needle.len() && value[o + k] == needle[k]
            invariant
                k <= needle@.len(),
                o <= last,
                last + needle.len() == value.len(),
                forall|j: int| 0 <= j < k ==> #[trigger] needle@[j] == value@[o + j],
            decreases needle@.len() - k,
        {
            k = k + 1;
        }
        if k == needle.len() {
            assert(value@.subrange(o as int, o + needle@.len()) =~= needle@);
            assert(occurs(value@, needle@, o as int));
            return true;
        }
        proof {
            if occurs(value@, needle@, o as int) {
                assert(value@.subrange(o as int, o + needle@.len())[k as int] == needle@[k as int]);
            }
        }
        if o == last {
            assert forall|p: int| !#[trigger] occurs(value@, needle@, p) by {
                if 0 <= p < o {
                    assert(!occurs(value@, needle@, p));
                }
            }
            return false;
        }
        o = o + 1;
    }
}

proof fn scanned_is<M: Fn(u64) -> bool>(
    matches: M,
    db: Db,
    needle: Seq<u8>,
    top: int,
    room: int,
    rows: Seq<u64>,
    next: Option<FindCursor>,
    checks: int,
)
    requires
        room >= 1,
        scanned(matches, top, room, rows, next, checks),
        forall|row: u64, yes: bool| #[trigger]
            matches.ensures((row,), yes) ==> yes == is_hit(db, needle, row as int),
    ensures
        scan(db, needle, top, room) == (Hits { rows, next, checks }),
    decreases top,
{
    if top > 0 {
        let row = (top - 1) as u64;
        if is_hit(db, needle, row as int) {
            if room == 1 {
                assert(rows =~= seq![row]);
            } else {
                scanned_is(
                    matches,
                    db,
                    needle,
                    top - 1,
                    room - 1,
                    rows.drop_first(),
                    next,
                    checks - 1,
                );
                assert(rows =~= seq![row] + rows.drop_first());
            }
        } else {
            scanned_is(matches, db, needle, top - 1, room, rows, next, checks - 1);
        }
    } else {
        assert(rows =~= Seq::empty());
    }
}

proof fn swept_is<M: Fn(u64) -> bool, H: Fn(u64) -> Option<u64>>(
    matches: M,
    head_of: H,
    db: Db,
    needle: Seq<u8>,
    slots: Seq<int>,
    below: Option<u64>,
    room: int,
    rows: Seq<u64>,
    next: Option<FindCursor>,
    checks: int,
)
    requires
        room >= 1,
        swept(matches, head_of, slots, below, room, rows, next, checks),
        forall|row: u64, yes: bool| #[trigger]
            matches.ensures((row,), yes) ==> yes == is_hit(db, needle, row as int),
        forall|row: u64, head: Option<u64>| #[trigger]
            head_of.ensures((row,), head) ==> head == head_row(db.kept, row as int),
    ensures
        sweep(db, needle, slots, below, room) == (Hits { rows, next, checks }),
    decreases slots.len(),
{
    if slots.len() > 0 {
        let row = (slots[0] / 16) as u64;
        let rest = slots.drop_first();
        if below is Some && row >= below->0 {
            swept_is(matches, head_of, db, needle, rest, below, room, rows, next, checks);
        } else {
            match head_row(db.kept, row as int) {
                None => {
                    swept_is(matches, head_of, db, needle, rest, below, room, rows, next, checks);
                },
                Some(h) => {
                    if !is_hit(db, needle, h as int) {
                        swept_is(
                            matches,
                            head_of,
                            db,
                            needle,
                            rest,
                            below,
                            room,
                            rows,
                            next,
                            checks - 1,
                        );
                    } else if room == 1 {
                        assert(rows =~= seq![h]);
                    } else {
                        swept_is(
                            matches,
                            head_of,
                            db,
                            needle,
                            rest,
                            below,
                            room - 1,
                            rows.drop_first(),
                            next,
                            checks - 1,
                        );
                        assert(rows =~= seq![h] + rows.drop_first());
                    }
                },
            }
        }
    } else {
        assert(rows =~= Seq::empty());
    }
}

/// What a scan finds are hits, and no more than there is room for.
pub proof fn scan_facts(db: Db, needle: Seq<u8>, top: int, room: int)
    requires
        room >= 1,
    ensures
        scan(db, needle, top, room).rows.len() <= room,
        forall|i: int|
            0 <= i < scan(db, needle, top, room).rows.len() ==> is_hit(
                db,
                needle,
                (#[trigger] scan(db, needle, top, room).rows[i]) as int,
            ),
    decreases top,
{
    if top > 0 {
        let row = (top - 1) as u64;
        if !is_hit(db, needle, row as int) {
            scan_facts(db, needle, top - 1, room);
        } else if room > 1 {
            scan_facts(db, needle, top - 1, room - 1);
        }
    }
}

/// What a sweep finds are hits, and no more than there is room for.
pub proof fn sweep_facts(db: Db, needle: Seq<u8>, slots: Seq<int>, below: Option<u64>, room: int)
    requires
        room >= 1,
    ensures
        sweep(db, needle, slots, below, room).rows.len() <= room,
        forall|i: int|
            0 <= i < sweep(db, needle, slots, below, room).rows.len() ==> is_hit(
                db,
                needle,
                (#[trigger] sweep(db, needle, slots, below, room).rows[i]) as int,
            ),
    decreases slots.len(),
{
    if slots.len() > 0 {
        let row = (slots[0] / 16) as u64;
        let rest = slots.drop_first();
        sweep_facts(db, needle, rest, below, room);
        if room > 1 {
            sweep_facts(db, needle, rest, below, room - 1);
        }
    }
}

} // verus!
