//! The trigram index: substring search over value bytes.
//!
//! - **Byte trigrams**: every 3 consecutive bytes of a value. The trigram that
//!   starts at byte `o` of a value whose first row is `h` is posted in slot
//!   `h * TRIGRAMS_PER_ROW + o`, so the pool bound is arithmetic.
//! - Postings of one trigram form a chain, newest first. A value posts each of
//!   its distinct trigrams once, where it occurs first.
//! - **Candidates are verified**: the index only accelerates. Every returned
//!   row went through the caller's `matches`.
//! - Bounded paging: a page resumes exactly where the previous one stopped.

pub mod exactness;
pub mod paging;

use crate::layout::VALUE_LEN;
use crate::probe::{at, probed};
use vstd::prelude::*;

verus! {

/// Posting slots reserved per row: one per byte, so that the slot of a window
/// is a function of its offset in the value, for values of any length.
pub const TRIGRAMS_PER_ROW: usize = VALUE_LEN;

/// No posting: the end of a chain, or a cursor without a chain position.
pub const NIL: u32 = 0xFFFF_FFFF;

/// Table entry sentinel: a free slot.
const EMPTY: u64 = 0;

/// Where a paged substring search left off.
///
/// Opaque to callers: `row` is the row the last match was posted in and `slot`
/// the chain position it came from.
#[derive(Debug, Clone, Copy, PartialEq, Eq)]
pub struct FindCursor {
    pub row: u64,
    pub slot: u32,
}

impl FindCursor {
    /// The chain position, if the cursor has one.
    pub open spec fn position(self) -> Option<int> {
        if self.slot == NIL {
            None
        } else {
            Some(self.slot as int)
        }
    }

    /// A cursor that resumes strictly below `row`, with no chain position.
    pub fn below(row: u64) -> (c: Self)
        ensures
            c.row == row,
            c.position() is None,
    {
        FindCursor { row, slot: NIL }
    }
}

/// The trigram at offset `o`, as a 24-bit number.
pub open spec fn tri_at(v: Seq<u8>, o: int) -> u32 {
    (v[o] * 65536 + v[o + 1] * 256 + v[o + 2]) as u32
}

/// Offset `o` is where its trigram first occurs in `v`.
pub open spec fn first_at(v: Seq<u8>, o: int) -> bool {
    &&& 0 <= o
    &&& o + 3 <= v.len()
    &&& forall|j: int| 0 <= j < o ==> #[trigger] tri_at(v, j) != tri_at(v, o)
}

/// What the index holds: the values, by first row, and how many rows are
/// accounted for.
#[verifier::ext_equal]
pub struct Indexed {
    pub values: Map<int, Seq<u8>>,
    pub rows: int,
}

/// Value `h` posts `tri` in slot `s`.
pub open spec fn posts_at(values: Map<int, Seq<u8>>, h: int, s: int, tri: u32) -> bool {
    &&& values.contains_key(h)
    &&& first_at(values[h], s - 16 * h)
    &&& tri_at(values[h], s - 16 * h) == tri
}

/// Some value posts `tri` in slot `s`.
pub open spec fn posted(values: Map<int, Seq<u8>>, s: int, tri: u32) -> bool {
    exists|h: int| #[trigger] posts_at(values, h, s, tri)
}

/// The slots below `bound` that `tri` is posted in, newest first.
pub open spec fn postings(values: Map<int, Seq<u8>>, tri: u32, bound: int) -> Seq<int>
    decreases bound,
{
    if bound <= 0 {
        Seq::empty()
    } else if posted(values, bound - 1, tri) {
        seq![bound - 1] + postings(values, tri, bound - 1)
    } else {
        postings(values, tri, bound - 1)
    }
}

/// Values lie one after the other, within the rows accounted for.
pub open spec fn laid_out(values: Map<int, Seq<u8>>, rows: int) -> bool {
    &&& forall|h: int| #[trigger]
        values.contains_key(h) ==> 0 <= h < rows && 16 * h + values[h].len() <= 16 * rows
    &&& forall|a: int, b: int|
        #[trigger] values.contains_key(a) && #[trigger] values.contains_key(b) && a < b ==> 16 * a
            + values[a].len() <= 16 * b
}

proof fn posted_once(values: Map<int, Seq<u8>>, rows: int, s: int, t1: u32, t2: u32)
    requires
        laid_out(values, rows),
        posted(values, s, t1),
        posted(values, s, t2),
    ensures
        t1 == t2,
{
    let a = choose|h: int| #[trigger] posts_at(values, h, s, t1);
    let b = choose|h: int| #[trigger] posts_at(values, h, s, t2);
    if a < b {
        assert(values.contains_key(a) && values.contains_key(b));
    }
    if b < a {
        assert(values.contains_key(a) && values.contains_key(b));
    }
}

proof fn posted_below(values: Map<int, Seq<u8>>, rows: int, s: int, tri: u32)
    requires
        laid_out(values, rows),
        posted(values, s, tri),
    ensures
        0 <= s < 16 * rows,
        tri < 0x100_0000,
{
    let h = choose|h: int| #[trigger] posts_at(values, h, s, tri);
    assert(values.contains_key(h));
}

pub proof fn postings_same(a: Map<int, Seq<u8>>, b: Map<int, Seq<u8>>, tri: u32, bound: int)
    requires
        forall|s: int| 0 <= s < bound ==> #[trigger] posted(a, s, tri) == posted(b, s, tri),
    ensures
        postings(a, tri, bound) == postings(b, tri, bound),
    decreases bound,
{
    if bound > 0 {
        assert(posted(a, bound - 1, tri) == posted(b, bound - 1, tri));
        postings_same(a, b, tri, bound - 1);
    }
}

pub proof fn postings_skip(values: Map<int, Seq<u8>>, tri: u32, lo: int, hi: int)
    requires
        0 <= lo <= hi,
        forall|s: int| lo <= s < hi ==> !#[trigger] posted(values, s, tri),
    ensures
        postings(values, tri, hi) == postings(values, tri, lo),
    decreases hi,
{
    if lo < hi {
        assert(!posted(values, hi - 1, tri));
        postings_skip(values, tri, lo, hi - 1);
    }
}

/// The posting list is exactly the posted slots below the bound, descending.
pub proof fn postings_facts(values: Map<int, Seq<u8>>, tri: u32, bound: int)
    ensures
        forall|i: int|
            0 <= i < postings(values, tri, bound).len() ==> 0 <= #[trigger] postings(
                values,
                tri,
                bound,
            )[i] < bound && posted(values, postings(values, tri, bound)[i], tri),
        forall|i: int, j: int|
            0 <= i < j < postings(values, tri, bound).len() ==> #[trigger] postings(
                values,
                tri,
                bound,
            )[i] > #[trigger] postings(values, tri, bound)[j],
        forall|s: int|
            0 <= s < bound && #[trigger] posted(values, s, tri) ==> postings(
                values,
                tri,
                bound,
            ).contains(s),
    decreases bound,
{
    let p = postings(values, tri, bound);
    if bound > 0 {
        let q = postings(values, tri, bound - 1);
        postings_facts(values, tri, bound - 1);
        if posted(values, bound - 1, tri) {
            assert(p == seq![bound - 1] + q);
            assert forall|i: int| 0 <= i < p.len() implies 0 <= #[trigger] p[i] < bound && posted(
                values,
                p[i],
                tri,
            ) by {
                if i > 0 {
                    assert(p[i] == q[i - 1]);
                }
            }
            assert forall|i: int, j: int| 0 <= i < j < p.len() implies #[trigger] p[i]
                > #[trigger] p[j] by {
                assert(p[j] == q[j - 1]);
                if i > 0 {
                    assert(p[i] == q[i - 1]);
                }
            }
            assert forall|s: int| 0 <= s < bound && #[trigger] posted(
                values,
                s,
                tri,
            ) implies p.contains(s) by {
                if s == bound - 1 {
                    assert(p[0] == s);
                } else {
                    assert(q.contains(s));
                    let i = choose|i: int| 0 <= i < q.len() && q[i] == s;
                    assert(p[i + 1] == s);
                }
            }
        }
    }
}

/// A nonempty posting list starts at its first slot and goes on below it.
pub proof fn postings_step(values: Map<int, Seq<u8>>, tri: u32, bound: int)
    requires
        postings(values, tri, bound).len() > 0,
    ensures
        ({
            let s = postings(values, tri, bound)[0];
            0 <= s < bound && posted(values, s, tri) && postings(values, tri, bound) == seq![s]
                + postings(values, tri, s)
        }),
    decreases bound,
{
    if bound > 0 && !posted(values, bound - 1, tri) {
        postings_step(values, tri, bound - 1);
    }
}

/// The trigram of three bytes.
fn tri_key(window: &[u8], o: usize) -> (tri: u32)
    requires
        o + 3 <= window.len(),
    ensures
        tri == tri_at(window@, o as int),
        tri < 0x100_0000,
{
    (window[o] as u32) * 65536 + (window[o + 1] as u32) * 256 + (window[o + 2] as u32)
}

/// The trigram a table entry is for.
spec fn entry_tri(e: u64) -> u32 {
    ((e >> 32) & 0x00FF_FFFF) as u32
}

/// The newest posting a table entry points at.
spec fn entry_head(e: u64) -> int {
    (e & 0xFFFF_FFFF) - 1
}

fn pack(tri: u32, head: u32) -> (e: u64)
    requires
        tri < 0x100_0000,
        head < NIL,
    ensures
        e != EMPTY,
        entry_tri(e) == tri,
        entry_head(e) == head,
{
    let low: u64 = head as u64 + 1;
    let e: u64 = (1u64 << 63) | ((tri as u64) << 32) | low;
    assert(e != 0 && ((e >> 32) & 0x00FF_FFFF) as u32 == tri && e & 0xFFFF_FFFF == low)
        by (bit_vector)
        requires
            e == (1u64 << 63) | ((tri as u64) << 32) | low,
            tri < 0x100_0000,
            low <= 0xFFFF_FFFF,
    ;
    e
}

fn unpack(entry: u64) -> (out: (u32, u32))
    requires
        entry_head(entry) >= 0,
    ensures
        out.0 == entry_tri(entry),
        out.1 == entry_head(entry),
        out.1 < NIL,
{
    let low: u64 = entry & 0xFFFF_FFFF;
    assert(entry & 0xFFFF_FFFF <= 0xFFFF_FFFF) by (bit_vector);
    assert((entry >> 32) & 0x00FF_FFFF <= 0xFF_FFFF) by (bit_vector);
    (((entry >> 32) & 0x00FF_FFFF) as u32, (low - 1) as u32)
}

/// The table's keys, slot by slot.
spec fn table_keys(table: Seq<u64>) -> Seq<Option<u64>> {
    Seq::new(
        table.len(),
        |i: int|
            if table[i] == EMPTY {
                None
            } else {
                Some(entry_tri(table[i]) as u64)
            },
    )
}

/// The table slot that probing for a trigram starts from, in a table of `n`.
pub open spec fn slot_home(tri: u64, n: nat) -> int {
    (tri.wrapping_mul(0x9E37_79B9_7F4A_7C15) as usize & (n - 1) as usize) as int
}

spec fn homes(n: nat) -> spec_fn(u64) -> int {
    |tri: u64| slot_home(tri, n)
}

proof fn home_in_table(tri: u64, n: nat)
    requires
        0 < n <= usize::MAX,
    ensures
        0 <= slot_home(tri, n) < n,
{
    let a = tri.wrapping_mul(0x9E37_79B9_7F4A_7C15) as usize;
    let b = (n - 1) as usize;
    assert(a & b <= b) by (bit_vector);
}

/// The head slot of a posting list, NIL if it is empty.
spec fn head_link(list: Seq<int>) -> u32 {
    if list.len() > 0 {
        list[0] as u32
    } else {
        NIL
    }
}

pub struct TrigramIndex {
    /// Open addressing: packed `(1 << 63) | (tri << 32) | (head + 1)`; EMPTY
    /// (0) = free slot.
    table: Vec<u64>,
    /// Posting slot: the next posting in this trigram's chain (a slot index),
    /// or NIL at the end. The row a posting refers to is its own slot index
    /// over TRIGRAMS_PER_ROW.
    next: Vec<u32>,
    /// Rows currently accounted for.
    len: u64,
    /// Postings walked to CHOOSE a chain. See `peek_steps`.
    peeks: u64,
    values: Ghost<Map<int, Seq<u8>>>,
}

impl View for TrigramIndex {
    type V = Indexed;

    closed spec fn view(&self) -> Indexed {
        Indexed { values: self.values@, rows: self.len as int }
    }
}

/// Table and links spell the posting lists of `values`.
spec fn linked(table: Seq<u64>, next: Seq<u32>, values: Map<int, Seq<u8>>, bound: int) -> bool {
    &&& forall|i: int|
        0 <= i < table.len() && #[trigger] table[i] != EMPTY ==> {
            let list = postings(values, entry_tri(table[i]), bound);
            list.len() > 0 && list[0] == entry_head(table[i])
        }
    &&& forall|tri: u32|
        #[trigger] postings(values, tri, bound).len() > 0 ==> table_keys(table).contains(
            Some(tri as u64),
        )
    &&& forall|s: int, tri: u32|
        0 <= s < next.len() && #[trigger] posted(values, s, tri) ==> next[s] == head_link(
            postings(values, tri, s),
        )
    &&& forall|s: int|
        0 <= s < next.len() && (forall|tri: u32| !posted(values, s, tri)) ==> #[trigger] next[s]
            == NIL
}

impl TrigramIndex {
    /// Rows that the postings pool has room for.
    pub closed spec fn capacity(&self) -> int {
        self.next@.len() as int / 16
    }

    /// Postings walked while choosing which chain to search.
    pub closed spec fn peeked(&self) -> int {
        self.peeks as int
    }

    spec fn shape(&self) -> bool {
        let n = self.table@.len();
        let m = self.next@.len();
        &&& m <= u32::MAX
        &&& m % 16 == 0
        &&& n <= usize::MAX
        &&& n >= 2
        &&& n >= 2 * m || n >= 2 * 0x100_0000
    }

    pub closed spec fn inv(&self) -> bool {
        let values = self.values@;
        &&& self.shape()
        &&& 16 * self.len <= self.next@.len()
        &&& laid_out(values, self.len as int)
        &&& probed(table_keys(self.table@), homes(self.table@.len()))
        &&& linked(self.table@, self.next@, values, 16 * self.len)
    }
}

/// A table this big, holding distinct trigrams each with a posting of its
/// own, has a free slot.
proof fn free_slot(table: Seq<u64>, next: Seq<u32>, values: Map<int, Seq<u8>>, rows: int) -> (e: int)
    requires
        laid_out(values, rows),
        probed(table_keys(table), homes(table.len())),
        linked(table, next, values, 16 * rows),
        0 <= 16 * rows <= next.len(),
        table.len() >= 2,
        table.len() >= 2 * next.len() || table.len() >= 2 * 0x100_0000,
    ensures
        0 <= e < table.len(),
        table[e] == EMPTY,
{
    let n = table.len();
    assert(rows >= 0);
    if exists|e: int| 0 <= e < n && #[trigger] table[e] == EMPTY {
        choose|e: int| 0 <= e < n && #[trigger] table[e] == EMPTY
    } else {
        let keys = table_keys(table);
        let tris = Seq::new(n, |i: int| entry_tri(table[i]) as int);
        let heads = Seq::new(n, |i: int| entry_head(table[i]));
        assert forall|i: int, j: int| 0 <= i < n && 0 <= j < n && i != j implies tris[i] != tris[j] by {
            assert(keys[i] != keys[j]);
        }
        assert forall|i: int| 0 <= i < n implies 0 <= #[trigger] tris[i] < 0x100_0000 by {
            let e = table[i];
            assert((e >> 32) & 0x00FF_FFFF <= 0xFF_FFFF) by (bit_vector);
        }
        crate::probe::pigeonhole(tris, 0x100_0000);
        assert forall|i: int| 0 <= i < n implies 0 <= #[trigger] heads[i] < 16 * rows && posted(
            values,
            heads[i],
            tris[i] as u32,
        ) by {
            assert(table[i] != EMPTY);
            postings_step(values, entry_tri(table[i]), 16 * rows);
        }
        assert forall|i: int, j: int| 0 <= i < n && 0 <= j < n && i != j implies heads[i]
            != heads[j] by {
            if heads[i] == heads[j] {
                posted_once(values, rows, heads[i], tris[i] as u32, tris[j] as u32);
                assert(tris[i] == tris[j]);
            }
        }
        crate::probe::pigeonhole(heads, 16 * rows);
        assert(false);
        0
    }
}

impl TrigramIndex {
    /// One allocation pair, sized from the declared capacity. Postings are
    /// addressed by 32-bit slots, so the pool must stay below that.
    pub fn new(rows: u64) -> (index: Self)
        requires
            rows * 16 <= u32::MAX,
        ensures
            index.inv(),
            index@ == (Indexed { values: Map::empty(), rows: 0 }),
            index.capacity() == rows,
            index.peeked() == 0,
            crate::probe::is_pow2(index.table_size()),
            index.table_size() >= 2 * (if rows * 16 < 0x100_0000 {
                rows * 16
            } else {
                0x100_0000
            }),
            index.table_size() == 2 || index.table_size() / 2 < 2 * (if rows * 16 < 0x100_0000 {
                rows * 16
            } else {
                0x100_0000
            }),
    {
        let postings_len: usize = rows as usize * TRIGRAMS_PER_ROW;
        // Load factor <= 0.5 over the worst-case DISTINCT trigram count, which
        // is capped by the 24-bit key space itself.
        let distinct_max: usize = if postings_len < 0x100_0000 {
            postings_len
        } else {
            0x100_0000
        };
        let mut table_len: usize = 2;
        proof {
            reveal_with_fuel(crate::probe::is_pow2, 3);
            vstd::arithmetic::power2::lemma2_to64();
            assert(small_pow2(2)) by {
                assert(vstd::arithmetic::power2::pow2(1int as nat) == 2);
            }
        }
        while table_len < 2 * distinct_max
            invariant
                distinct_max <= 0x100_0000,
                2 <= table_len <= 0x200_0000,
                table_len == 2 || table_len / 2 < 2 * distinct_max,
                crate::probe::is_pow2(table_len as int),
                small_pow2(table_len as int),
            decreases 0x200_0000 - table_len,
        {
            proof {
                small_pow2_doubles(table_len as int);
            }
            table_len = table_len * 2;
        }
        let table: Vec<u64> = vec![EMPTY; table_len];
        let next: Vec<u32> = vec![NIL; postings_len];
        let index = TrigramIndex {
            table,
            next,
            len: 0,
            peeks: 0,
            values: Ghost(Map::empty()),
        };
        proof {
            let n = index.table@.len();
            assert forall|k: u64| 0 <= #[trigger] homes(n)(k) < n by {
                home_in_table(k, n);
            }
            crate::probe::empty_probed(table_keys(index.table@), homes(n));
        }
        index
    }

    /// Slots in the hash table.
    pub closed spec fn table_size(&self) -> int {
        self.table@.len() as int
    }

    pub fn table_len(&self) -> (n: usize)
        ensures
            n == self.table_size(),
    {
        self.table.len()
    }

    /// Posting slots in the pool.
    pub fn pool_len(&self) -> (n: usize)
        requires
            self.inv(),
        ensures
            n == 16 * self.capacity(),
    {
        self.next.len()
    }

    pub fn len(&self) -> (n: u64)
        ensures
            n == self@.rows,
    {
        self.len
    }

    pub fn is_empty(&self) -> (yes: bool)
        ensures
            yes == (self@.rows == 0),
    {
        self.len == 0
    }

    /// The table slot that probing for `tri` starts from.
    pub fn slot_of(&self, tri: u32) -> (slot: usize)
        requires
            self.inv(),
        ensures
            slot == slot_home(tri as u64, self.table_size() as nat),
            slot < self.table_size(),
    {
        proof {
            home_in_table(tri as u64, self.table@.len());
        }
        let mixed: u64 = (tri as u64).wrapping_mul(0x9E37_79B9_7F4A_7C15);
        (mixed as usize) & (self.table.len() - 1)
    }
}

/// A power of two from 2 up to 2^25.
spec fn small_pow2(p: int) -> bool {
    exists|k: int| 1 <= k <= 25 && p == #[trigger] vstd::arithmetic::power2::pow2(k as nat)
}

proof fn small_pow2_doubles(p: int)
    requires
        small_pow2(p),
        p < 0x200_0000,
        crate::probe::is_pow2(p),
    ensures
        small_pow2(2 * p),
        2 * p <= 0x200_0000,
        crate::probe::is_pow2(2 * p),
{
    let k = choose|k: int| 1 <= k <= 25 && p == #[trigger] vstd::arithmetic::power2::pow2(k as nat);
    vstd::arithmetic::power2::lemma2_to64();
    vstd::arithmetic::power2::lemma_pow2_unfold((k + 1) as nat);
    if k < 25 {
        vstd::arithmetic::power2::lemma_pow2_strictly_increases(k as nat, 25);
        assert(vstd::arithmetic::power2::pow2((k + 1) as nat) == 2 * p);
        if k + 1 < 25 {
            vstd::arithmetic::power2::lemma_pow2_strictly_increases((k + 1) as nat, 25);
        }
    }
    assert((2 * p) / 2 == p);
}

/// Posting `tri` in slot `s`, above every other posting, on the lists.
proof fn post_one(
    table: Seq<u64>,
    next: Seq<u32>,
    a: Map<int, Seq<u8>>,
    b: Map<int, Seq<u8>>,
    bound: int,
    rows: int,
    s: int,
    tri: u32,
    t: int,
    e: u64,
)
    requires
        linked(table, next, a, bound),
        laid_out(b, rows),
        forall|x: int, y: u32|
            #[trigger] posted(b, x, y) <==> (posted(a, x, y) || (x == s && y == tri)),
        forall|x: int, y: u32| x >= s ==> !#[trigger] posted(a, x, y),
        0 <= s < bound <= next.len(),
        next.len() <= u32::MAX,
        0 <= t < table.len(),
        e != EMPTY,
        entry_tri(e) == tri,
        entry_head(e) == s,
        table_keys(table)[t] == Some(tri as u64) || (table_keys(table)[t] is None
            && !table_keys(table).contains(Some(tri as u64))),
        forall|i: int, j: int|
            0 <= i < table.len() && 0 <= j < table.len() && i != j && table_keys(table)[i] is Some
                ==> #[trigger] table_keys(table)[i] != #[trigger] table_keys(table)[j],
    ensures
        linked(
            table.update(t, e),
            next.update(s, head_link(postings(a, tri, bound))),
            b,
            bound,
        ),
        table_keys(table.update(t, e)) == table_keys(table).update(t, Some(tri as u64)),
{
    let table2 = table.update(t, e);
    let next2 = next.update(s, head_link(postings(a, tri, bound)));
    let keys = table_keys(table);
    let keys2 = table_keys(table2);
    assert(keys2 =~= keys.update(t, Some(tri as u64)));
    assert forall|y: u32, x: int| x <= s implies #[trigger] postings(b, y, x) == postings(a, y, x) by {
        assert forall|z: int| 0 <= z < x implies #[trigger] posted(b, z, y) == posted(a, z, y) by {}
        postings_same(b, a, y, x);
    }
    assert forall|y: u32| y != tri implies #[trigger] postings(b, y, bound) == postings(
        a,
        y,
        bound,
    ) by {
        postings_same(b, a, y, bound);
    }
    assert(postings(a, tri, bound) == postings(a, tri, s)) by {
        postings_skip(a, tri, s, bound);
    }
    assert(postings(b, tri, bound) == seq![s] + postings(a, tri, s)) by {
        assert(posted(b, s, tri));
        assert forall|x: int| s + 1 <= x < bound implies !#[trigger] posted(b, x, tri) by {
            assert(!posted(a, x, tri));
        }
        postings_skip(b, tri, s + 1, bound);
        assert(postings(b, tri, s + 1) == seq![s] + postings(b, tri, s));
    }
    assert forall|i: int| 0 <= i < table2.len() && #[trigger] table2[i] != EMPTY implies {
        let list = postings(b, entry_tri(table2[i]), bound);
        list.len() > 0 && list[0] == entry_head(table2[i])
    } by {
        if i != t {
            assert(table2[i] == table[i]);
            assert(keys[i] is Some);
            if keys[t] is Some {
                assert(keys[i] != keys[t]);
            } else if keys[i] == Some(tri as u64) {
                assert(keys.contains(Some(tri as u64)));
            }
            assert(entry_tri(table[i]) != tri);
        }
    }
    assert forall|y: u32| #[trigger] postings(b, y, bound).len() > 0 implies keys2.contains(
        Some(y as u64),
    ) by {
        assert(keys2[t] == Some(tri as u64));
        if y != tri {
            assert(keys.contains(Some(y as u64)));
            let i = choose|i: int| 0 <= i < keys.len() && keys[i] == Some(y as u64);
            assert(keys2[i] == Some(y as u64));
        }
    }
    assert forall|x: int, y: u32| 0 <= x < next2.len() && #[trigger] posted(b, x, y) implies next2[x]
        == head_link(postings(b, y, x)) by {
        if x == s {
            posted_once(b, rows, s, y, tri);
        } else {
            assert(posted(a, x, y));
            assert(x < s);
        }
    }
    assert forall|x: int|
        0 <= x < next2.len() && (forall|y: u32| !posted(b, x, y)) implies #[trigger] next2[x]
        == NIL by {
        if x == s {
            assert(posted(b, s, tri));
        }
        assert forall|y: u32| !posted(a, x, y) by {
            assert(!posted(b, x, y));
        }
        assert(next[x] == NIL);
    }
}

/// The values with the first `o` windows of a new one indexed.
spec fn upto(values: Map<int, Seq<u8>>, h: int, v: Seq<u8>, o: int) -> Map<int, Seq<u8>> {
    values.insert(h, v.take(if o + 2 < v.len() { o + 2 } else { v.len() as int }))
}

proof fn upto_zero(values: Map<int, Seq<u8>>, rows: int, h: int, v: Seq<u8>)
    requires
        laid_out(values, rows),
        h == rows,
    ensures
        forall|x: int, y: u32| #[trigger] posted(upto(values, h, v, 0), x, y) <==> posted(values, x, y),
{
    let b = upto(values, h, v, 0);
    assert forall|x: int, y: u32| #[trigger] posted(b, x, y) <==> posted(values, x, y) by {
        if posted(b, x, y) {
            let g = choose|g: int| #[trigger] posts_at(b, g, x, y);
            assert(posts_at(values, g, x, y));
        }
        if posted(values, x, y) {
            let g = choose|g: int| #[trigger] posts_at(values, g, x, y);
            assert(values.contains_key(g));
            assert(posts_at(b, g, x, y));
        }
    }
}

proof fn upto_step(values: Map<int, Seq<u8>>, rows: int, h: int, v: Seq<u8>, o: int)
    requires
        laid_out(values, rows),
        h == rows,
        0 <= o,
        o + 3 <= v.len(),
    ensures
        forall|x: int, y: u32|
            #[trigger] posted(upto(values, h, v, o + 1), x, y) <==> (posted(
                upto(values, h, v, o),
                x,
                y,
            ) || (first_at(v, o) && x == 16 * h + o && y == tri_at(v, o))),
        forall|x: int, y: u32|
            x >= 16 * h + o ==> !#[trigger] posted(upto(values, h, v, o), x, y),
{
    let a = upto(values, h, v, o);
    let b = upto(values, h, v, o + 1);
    let va = v.take(o + 2);
    let vb = v.take(o + 3);
    assert(a[h] == va);
    assert(b[h] == vb);
    assert forall|j: int| 0 <= j && j + 3 <= o + 2 implies tri_at(va, j) == tri_at(v, j) by {}
    assert forall|j: int| 0 <= j && j + 3 <= o + 3 implies tri_at(vb, j) == tri_at(v, j) by {}
    assert forall|x: int, y: u32| #[trigger] posted(b, x, y) <==> (posted(a, x, y) || (first_at(
        v,
        o,
    ) && x == 16 * h + o && y == tri_at(v, o))) by {
        if posted(b, x, y) {
            let g = choose|g: int| #[trigger] posts_at(b, g, x, y);
            if g != h {
                assert(posts_at(a, g, x, y));
            } else if x - 16 * h < o {
                assert(first_at(va, x - 16 * h)) by {
                    assert forall|j: int| 0 <= j < x - 16 * h implies #[trigger] tri_at(va, j)
                        != tri_at(va, x - 16 * h) by {
                        assert(tri_at(vb, j) != tri_at(vb, x - 16 * h));
                    }
                }
                assert(posts_at(a, h, x, y));
            } else {
                assert(x - 16 * h == o);
                assert(first_at(v, o)) by {
                    assert forall|j: int| 0 <= j < o implies #[trigger] tri_at(v, j) != tri_at(
                        v,
                        o,
                    ) by {
                        assert(tri_at(vb, j) != tri_at(vb, o));
                    }
                }
            }
        }
        if posted(a, x, y) {
            let g = choose|g: int| #[trigger] posts_at(a, g, x, y);
            if g == h {
                assert(first_at(vb, x - 16 * h)) by {
                    assert forall|j: int| 0 <= j < x - 16 * h implies #[trigger] tri_at(vb, j)
                        != tri_at(vb, x - 16 * h) by {
                        assert(tri_at(va, j) != tri_at(va, x - 16 * h));
                    }
                }
            }
            assert(posts_at(b, g, x, y));
        }
        if first_at(v, o) && x == 16 * h + o && y == tri_at(v, o) {
            assert(first_at(vb, o)) by {
                assert forall|j: int| 0 <= j < o implies #[trigger] tri_at(vb, j) != tri_at(
                    vb,
                    o,
                ) by {
                    assert(tri_at(v, j) != tri_at(v, o));
                }
            }
            assert(posts_at(b, h, x, y));
        }
    }
    assert forall|x: int, y: u32| x >= 16 * h + o implies !#[trigger] posted(a, x, y) by {
        if posted(a, x, y) {
            let g = choose|g: int| #[trigger] posts_at(a, g, x, y);
            if g != h {
                assert(values.contains_key(g));
            }
        }
    }
}

proof fn upto_laid_out(values: Map<int, Seq<u8>>, rows: int, h: int, v: Seq<u8>, more: int, o: int)
    requires
        laid_out(values, rows),
        h == rows,
        rows >= 0,
        more >= 1,
        v.len() <= 16 * more,
        o >= 0,
    ensures
        laid_out(upto(values, h, v, o), rows + more),
{
    let b = upto(values, h, v, o);
    assert forall|g: int| #[trigger] b.contains_key(g) implies 0 <= g < rows + more && 16 * g
        + b[g].len() <= 16 * (rows + more) by {
        if g != h {
            assert(values.contains_key(g));
        }
    }
    assert forall|x: int, y: int|
        #[trigger] b.contains_key(x) && #[trigger] b.contains_key(y) && x < y implies 16 * x
        + b[x].len() <= 16 * y by {
        if x != h {
            assert(values.contains_key(x));
        }
        if y != h {
            assert(values.contains_key(y));
        }
    }
}

/// More rows, same postings: the lists stand.
proof fn linked_same(
    table: Seq<u64>,
    next: Seq<u32>,
    a: Map<int, Seq<u8>>,
    b: Map<int, Seq<u8>>,
    rows: int,
    bound: int,
)
    requires
        laid_out(a, rows),
        linked(table, next, a, 16 * rows),
        forall|x: int, y: u32| #[trigger] posted(b, x, y) <==> posted(a, x, y),
        0 <= rows,
        16 * rows <= bound,
    ensures
        linked(table, next, b, bound),
{
    assert forall|y: u32, x: int| #[trigger] postings(b, y, x) == postings(a, y, x) by {
        postings_same(b, a, y, x);
    }
    assert forall|y: u32| #[trigger] postings(b, y, bound) == postings(a, y, 16 * rows) by {
        assert forall|x: int| 16 * rows <= x < bound implies !#[trigger] posted(b, x, y) by {
            if posted(a, x, y) {
                posted_below(a, rows, x, y);
            }
        }
        postings_skip(b, y, 16 * rows, bound);
    }
    assert forall|i: int| 0 <= i < table.len() && #[trigger] table[i] != EMPTY implies {
        let list = postings(b, entry_tri(table[i]), bound);
        list.len() > 0 && list[0] == entry_head(table[i])
    } by {}
    assert forall|tri: u32| #[trigger] postings(b, tri, bound).len() > 0 implies table_keys(
        table,
    ).contains(Some(tri as u64)) by {
        assert(postings(a, tri, 16 * rows).len() > 0);
    }
    assert forall|s: int, tri: u32| 0 <= s < next.len() && #[trigger] posted(b, s, tri) implies next[s]
        == head_link(postings(b, tri, s)) by {
        assert(posted(a, s, tri));
    }
    assert forall|s: int|
        0 <= s < next.len() && (forall|tri: u32| !posted(b, s, tri)) implies #[trigger] next[s]
        == NIL by {
        assert forall|tri: u32| !posted(a, s, tri) by {
            assert(!posted(b, s, tri));
        }
    }
}

impl TrigramIndex {
    /// The table slot of `tri`: the one that holds it, or the free one where
    /// it belongs.
    fn locate(&self, tri: u32, Ghost(free): Ghost<int>) -> (slot: usize)
        requires
            probed(table_keys(self.table@), homes(self.table@.len())),
            0 <= free < self.table@.len() <= usize::MAX,
            self.table@[free] == EMPTY,
        ensures
            slot < self.table@.len(),
            self.table@[slot as int] != EMPTY ==> entry_tri(self.table@[slot as int]) == tri,
            self.table@[slot as int] == EMPTY ==> {
                &&& !table_keys(self.table@).contains(Some(tri as u64))
                &&& probed(
                    table_keys(self.table@).update(slot as int, Some(tri as u64)),
                    homes(self.table@.len()),
                )
            },
    {
        let n: usize = self.table.len();
        let ghost keys = table_keys(self.table@);
        let ghost home = homes(n as nat);
        let ghost h = home(tri as u64);
        proof {
            home_in_table(tri as u64, n as nat);
        }
        let mixed: u64 = (tri as u64).wrapping_mul(0x9E37_79B9_7F4A_7C15);
        let mut slot: usize = (mixed as usize) & (n - 1);
        let ghost mut d: int = 0;
        let ghost last = crate::probe::steps(h, free, n as int);
        assert(at(h, last, n as int) == free);
        assert(keys[free] is None);
        loop
            invariant
                n == self.table@.len(),
                keys == table_keys(self.table@),
                home == homes(n as nat),
                probed(keys, home),
                h == home(tri as u64),
                0 <= h < n,
                0 <= last < n,
                keys[at(h, last, n as int)] is None,
                0 <= d <= last,
                slot == at(h, d, n as int),
                forall|e: int|
                    0 <= e < d ==> (#[trigger] keys[at(h, e, n as int)]) is Some && keys[at(
                        h,
                        e,
                        n as int,
                    )] != Some(tri as u64),
            decreases last - d,
        {
            let entry: u64 = self.table[slot];
            if entry == EMPTY {
                proof {
                    crate::probe::miss(keys, home, tri as u64, d);
                    crate::probe::put(keys, home, tri as u64, d);
                }
                return slot;
            }
            let key: u32 = ((entry >> 32) & 0x00FF_FFFF) as u32;
            if key == tri {
                return slot;
            }
            proof {
                assert(keys[slot as int] == Some(key as u64));
                if d == last {
                    assert(false);
                }
                d = d + 1;
            }
            slot = if slot + 1 == n {
                0
            } else {
                slot + 1
            };
        }
    }

    /// Chain head for a trigram, or NIL.
    fn head(&self, tri: u32) -> (head: u32)
        requires
            self.inv(),
        ensures
            head == head_link(postings(self@.values, tri, 16 * self@.rows)),
    {
        let ghost free = free_slot(self.table@, self.next@, self.values@, self.len as int);
        let slot: usize = self.locate(tri, Ghost(free));
        let entry: u64 = self.table[slot];
        proof {
            postings_facts(self.values@, tri, 16 * self.len);
        }
        if entry == EMPTY {
            return NIL;
        }
        proof {
            let list = postings(self.values@, tri, 16 * self.len);
            assert(0 <= list[0] < 16 * self.len);
        }
        unpack(entry).1
    }

    /// Index the next row's value. Rows are append-only and must be inserted
    /// in row order.
    pub fn insert(&mut self, row: u64, value: &[u8; VALUE_LEN])
        requires
            old(self).inv(),
            row == old(self)@.rows,
            row < old(self).capacity(),
        ensures
            final(self).inv(),
            final(self)@ == (Indexed {
                values: old(self)@.values.insert(row as int, value@),
                rows: row + 1,
            }),
            final(self).capacity() == old(self).capacity(),
            final(self).peeked() == old(self).peeked(),
    {
        self.insert_value(row, 1, value);
    }

    /// Index one value, which occupies `rows` consecutive rows from `head_row`
    /// on. Trigrams are taken over the WHOLE value, so a substring straddling
    /// a slot boundary is found like any other.
    #[verifier::rlimit(40)]
    pub fn insert_value(&mut self, head_row: u64, rows: u64, value: &[u8])
        requires
            old(self).inv(),
            head_row == old(self)@.rows,
            rows >= 1,
            head_row + rows <= old(self).capacity(),
            value@.len() <= rows * 16,
        ensures
            final(self).inv(),
            final(self)@ == (Indexed {
                values: old(self)@.values.insert(head_row as int, value@),
                rows: head_row + rows,
            }),
            final(self).capacity() == old(self).capacity(),
            final(self).peeked() == old(self).peeked(),
    {
        let ghost vals = self.values@;
        let ghost h = head_row as int;
        let ghost bound = 16 * (head_row + rows);
        let ghost v = value@;
        let windows: usize = if value.len() < 2 {
            0
        } else {
            value.len() - 2
        };
        proof {
            upto_zero(vals, self.len as int, h, v);
            upto_laid_out(vals, self.len as int, h, v, rows as int, 0);
            linked_same(
                self.table@,
                self.next@,
                vals,
                upto(vals, h, v, 0),
                self.len as int,
                bound,
            );
        }
        let mut o: usize = 0;
        while o < windows
            invariant
                self.shape(),
                h == head_row,
                head_row == self.len,
                v == value@,
                laid_out(vals, h),
                rows >= 1,
                v.len() <= rows * 16,
                bound == 16 * (head_row + rows),
                bound <= self.next@.len(),
                windows == (if v.len() < 2 {
                    0
                } else {
                    v.len() - 2
                }),
                o <= windows,
                self.peeks == old(self).peeks,
                self.next@.len() == old(self).next@.len(),
                laid_out(upto(vals, h, v, o as int), head_row + rows),
                probed(table_keys(self.table@), homes(self.table@.len())),
                linked(self.table@, self.next@, upto(vals, h, v, o as int), bound),
            decreases windows - o,
        {
            let tri: u32 = tri_key(value, o);
            let ghost a = upto(vals, h, v, o as int);
            let ghost b = upto(vals, h, v, o + 1);
            proof {
                upto_step(vals, h, h, v, o as int);
                upto_laid_out(vals, h, h, v, rows as int, o + 1);
            }
            // One posting per DISTINCT trigram per VALUE.
            let mut seen: bool = false;
            let mut j: usize = 0;
            while j < o && !seen
                invariant
                    j <= o,
                    v == value@,
                    o + 3 <= v.len(),
                    tri == tri_at(v, o as int),
                    seen ==> exists|i: int| 0 <= i < o && #[trigger] tri_at(v, i) == tri,
                    !seen ==> forall|i: int| 0 <= i < j ==> #[trigger] tri_at(v, i) != tri,
                decreases o - j + (if seen { 0int } else { 1int }),
            {
                if tri_key(value, j) == tri {
                    seen = true;
                } else {
                    j = j + 1;
                }
            }
            if seen {
                proof {
                    assert(!first_at(v, o as int));
                    same_links(self.table@, self.next@, a, b, bound);
                }
            } else {
                assert(first_at(v, o as int));
                let slot: usize = head_row as usize * TRIGRAMS_PER_ROW + o;
                let ghost free = free_slot(self.table@, self.next@, a, head_row + rows);
                let t: usize = self.locate(tri, Ghost(free));
                let entry: u64 = self.table[t];
                proof {
                    postings_facts(a, tri, bound);
                }
                let prev: u32 = if entry == EMPTY {
                    proof {
                        if postings(a, tri, bound).len() > 0 {
                            assert(table_keys(self.table@).contains(Some(tri as u64)));
                        }
                    }
                    NIL
                } else {
                    proof {
                        let list = postings(a, tri, bound);
                        assert(0 <= list[0] < bound);
                    }
                    unpack(entry).1
                };
                let e: u64 = pack(tri, slot as u32);
                proof {
                    assert(table_keys(self.table@)[t as int] == (if entry == EMPTY {
                        None::<u64>
                    } else {
                        Some(tri as u64)
                    }));
                    post_one(
                        self.table@,
                        self.next@,
                        a,
                        b,
                        bound,
                        head_row + rows,
                        slot as int,
                        tri,
                        t as int,
                        e,
                    );
                    assert(prev == head_link(postings(a, tri, bound)));
                    if entry != EMPTY {
                        assert(table_keys(self.table@).update(t as int, Some(tri as u64))
                            =~= table_keys(self.table@));
                    }
                }
                self.next[slot] = prev;
                self.table[t] = e;
            }
            o = o + 1;
        }
        proof {
            let last = upto(vals, h, v, windows as int);
            assert(v.take(v.len() as int) =~= v);
            assert(last == vals.insert(h, v));
        }
        self.values = Ghost(vals.insert(h, v));
        self.len = head_row + rows;
    }

    /// Account for a row WITHOUT indexing it, so that every later row keeps
    /// its number.
    pub fn skip_row(&mut self, row: u64)
        requires
            old(self).inv(),
            row == old(self)@.rows,
            row < old(self).capacity(),
        ensures
            final(self).inv(),
            final(self)@ == (Indexed { values: old(self)@.values, rows: row + 1 }),
            final(self).capacity() == old(self).capacity(),
            final(self).peeked() == old(self).peeked(),
    {
        proof {
            linked_same(
                self.table@,
                self.next@,
                self.values@,
                self.values@,
                self.len as int,
                16 * (self.len + 1),
            );
        }
        self.len = row + 1;
    }
}

/// The same postings, the same lists.
proof fn same_links(
    table: Seq<u64>,
    next: Seq<u32>,
    a: Map<int, Seq<u8>>,
    b: Map<int, Seq<u8>>,
    bound: int,
)
    requires
        linked(table, next, a, bound),
        forall|x: int, y: u32| #[trigger] posted(b, x, y) <==> posted(a, x, y),
    ensures
        linked(table, next, b, bound),
{
    assert forall|y: u32, x: int| #[trigger] postings(b, y, x) == postings(a, y, x) by {
        postings_same(b, a, y, x);
    }
    assert forall|i: int| 0 <= i < table.len() && #[trigger] table[i] != EMPTY implies {
        let list = postings(b, entry_tri(table[i]), bound);
        list.len() > 0 && list[0] == entry_head(table[i])
    } by {}
    assert forall|tri: u32| #[trigger] postings(b, tri, bound).len() > 0 implies table_keys(
        table,
    ).contains(Some(tri as u64)) by {
        assert(postings(a, tri, bound).len() > 0);
    }
    assert forall|s: int, tri: u32| 0 <= s < next.len() && #[trigger] posted(b, s, tri) implies next[s]
        == head_link(postings(b, tri, s)) by {
        assert(posted(a, s, tri));
    }
    assert forall|s: int|
        0 <= s < next.len() && (forall|tri: u32| !posted(b, s, tri)) implies #[trigger] next[s]
        == NIL by {
        assert forall|tri: u32| !posted(a, s, tri) by {
            assert(!posted(b, s, tri));
        }
    }
}

/// The postings after slot `s`, in the chain that `s` is posted in.
pub open spec fn resumed(values: Map<int, Seq<u8>>, s: int) -> Seq<int> {
    if exists|tri: u32| posted(values, s, tri) {
        postings(values, choose|tri: u32| posted(values, s, tri), s)
    } else {
        Seq::empty()
    }
}

/// The candidate postings of a search for a needle that has a trigram: the
/// chain of its first trigram, or what is left of the cursor's chain.
pub open spec fn candidates(
    ix: Indexed,
    needle: Seq<u8>,
    cursor: Option<FindCursor>,
) -> Seq<int> {
    match cursor {
        Some(c) => match c.position() {
            Some(s) => resumed(ix.values, s),
            None => postings(ix.values, tri_at(needle, 0), 16 * ix.rows),
        },
        None => postings(ix.values, tri_at(needle, 0), 16 * ix.rows),
    }
}

/// Walking candidate postings: each is resolved to the row that owns its
/// value, and that row is put to `matches`, until `room` rows were found.
/// `checks` counts the rows put to `matches`.
pub open spec fn swept<M: Fn(u64) -> bool, H: Fn(u64) -> Option<u64>>(
    matches: M,
    head_of: H,
    slots: Seq<int>,
    below: Option<u64>,
    room: int,
    rows: Seq<u64>,
    next: Option<FindCursor>,
    checks: int,
) -> bool
    decreases slots.len(),
{
    if slots.len() == 0 {
        rows.len() == 0 && next is None && checks == 0
    } else {
        let s = slots[0];
        let row = (s / 16) as u64;
        let rest = slots.drop_first();
        if below is Some && row >= below->0 {
            swept(matches, head_of, rest, below, room, rows, next, checks)
        } else {
            exists|head: Option<u64>|
                #![trigger head_of.ensures((row,), head)]
                head_of.ensures((row,), head) && match head {
                    None => swept(matches, head_of, rest, below, room, rows, next, checks),
                    Some(h) => exists|yes: bool|
                        #![trigger matches.ensures((h,), yes)]
                        matches.ensures((h,), yes) && (if yes {
                            &&& rows.len() >= 1
                            &&& rows[0] == h
                            &&& if room == 1 {
                                rows.len() == 1 && next == Some(FindCursor { row, slot: s as u32 })
                                    && checks == 1
                            } else {
                                swept(
                                    matches,
                                    head_of,
                                    rest,
                                    below,
                                    room - 1,
                                    rows.drop_first(),
                                    next,
                                    checks - 1,
                                )
                            }
                        } else {
                            swept(matches, head_of, rest, below, room, rows, next, checks - 1)
                        }),
                }
        }
    }
}

/// Walking every row below `top`, newest first, until `room` rows were found.
pub open spec fn scanned<M: Fn(u64) -> bool>(
    matches: M,
    top: int,
    room: int,
    rows: Seq<u64>,
    next: Option<FindCursor>,
    checks: int,
) -> bool
    decreases top,
{
    if top <= 0 {
        rows.len() == 0 && next is None && checks == 0
    } else {
        let row = (top - 1) as u64;
        exists|yes: bool|
            #![trigger matches.ensures((row,), yes)]
            matches.ensures((row,), yes) && (if yes {
                &&& rows.len() >= 1
                &&& rows[0] == row
                &&& if room == 1 {
                    rows.len() == 1 && checks == 1 && next == (if row > 0 {
                        Some(FindCursor { row, slot: NIL })
                    } else {
                        None
                    })
                } else {
                    scanned(matches, top - 1, room - 1, rows.drop_first(), next, checks - 1)
                }
            } else {
                scanned(matches, top - 1, room, rows, next, checks - 1)
            })
    }
}

/// The row that a scan without a trigram starts below.
pub open spec fn scan_top(ix: Indexed, cursor: Option<FindCursor>) -> int {
    match cursor {
        Some(c) => c.row as int,
        None => ix.rows,
    }
}

/// What a page of a search holds, where it resumes, and what it cost.
pub open spec fn paged<M: Fn(u64) -> bool, H: Fn(u64) -> Option<u64>>(
    ix: Indexed,
    needle: Seq<u8>,
    cursor: Option<FindCursor>,
    matches: M,
    head_of: H,
    room: int,
    rows: Seq<u64>,
    next: Option<FindCursor>,
    checks: int,
) -> bool {
    if needle.len() < 3 {
        scanned(matches, scan_top(ix, cursor), room, rows, next, checks)
    } else {
        swept(
            matches,
            head_of,
            candidates(ix, needle, cursor),
            (if cursor is Some {
                Some((cursor->0).row)
            } else {
                None
            }),
            room,
            rows,
            next,
            checks,
        )
    }
}

/// What a page of a search holds and where it resumes.
pub open spec fn found_page<M: Fn(u64) -> bool, H: Fn(u64) -> Option<u64>>(
    ix: Indexed,
    needle: Seq<u8>,
    cursor: Option<FindCursor>,
    matches: M,
    head_of: H,
    room: int,
    rows: Seq<u64>,
    next: Option<FindCursor>,
) -> bool {
    exists|checks: int| #[trigger]
        paged(ix, needle, cursor, matches, head_of, room, rows, next, checks)
}

/// The callbacks accept every row that a search can hand them.
pub open spec fn callable<M: Fn(u64) -> bool, H: Fn(u64) -> Option<u64>>(
    ix: Indexed,
    needle: Seq<u8>,
    cursor: Option<FindCursor>,
    matches: M,
    head_of: H,
) -> bool {
    if needle.len() < 3 {
        forall|row: u64| row < scan_top(ix, cursor) ==> #[trigger] matches.requires((row,))
    } else {
        &&& forall|row: u64| row < ix.rows ==> #[trigger] head_of.requires((row,))
        &&& forall|row: u64, h: u64|
            row < ix.rows && #[trigger] head_of.ensures((row,), Some(h))
                ==> #[trigger] matches.requires((h,))
    }
}

impl TrigramIndex {
    /// What holds of every index: values lie one behind the other, within the
    /// rows accounted for, and those fit the pool.
    pub proof fn facts(&self)
        requires
            self.inv(),
        ensures
            laid_out(self@.values, self@.rows),
            0 <= self@.rows <= self.capacity(),
            16 * self.capacity() <= u32::MAX,
    {
    }

    /// A cursor this index can resume from: no chain position, or one within
    /// the pool.
    pub open spec fn resumable(&self, cursor: Option<FindCursor>) -> bool {
        cursor is Some && (cursor->0).position() is Some ==> (cursor->0).position()->0 < 16
            * self.capacity()
    }

    /// One bounded page of matching rows, NEWEST FIRST, resuming exactly where
    /// the previous page stopped.
    ///
    /// `matches(row)` is the caller's verifier: the index never trusts itself.
    /// A posting names the row its window STARTS in, which for a value
    /// spanning several rows is a continuation; `head_of` maps it back to the
    /// row that owns the value. Needles shorter than a trigram scan every row.
    pub fn find_page<M: Fn(u64) -> bool, H: Fn(u64) -> Option<u64>>(
        &self,
        needle: &[u8],
        cursor: Option<FindCursor>,
        page: &mut [u64],
        matches: M,
        head_of: H,
    ) -> (out: (usize, Option<FindCursor>))
        requires
            self.inv(),
            self.resumable(cursor),
            old(page)@.len() > 0,
            callable(self@, needle@, cursor, matches, head_of),
        ensures
            final(page)@.len() == old(page)@.len(),
            out.0 <= old(page)@.len(),
            final(page)@.skip(out.0 as int) == old(page)@.skip(out.0 as int),
            found_page(
                self@,
                needle@,
                cursor,
                matches,
                head_of,
                old(page)@.len() as int,
                final(page)@.take(out.0 as int),
                out.1,
            ),
    {
        let ghost room = page@.len() as int;
        let (found, next, checks) = self.find_page_counted(needle, cursor, page, matches, head_of);
        assert(paged(
            self@,
            needle@,
            cursor,
            matches,
            head_of,
            room,
            page@.take(found as int),
            next,
            checks as int,
        ));
        (found, next)
    }

    /// [`TrigramIndex::find_page`], also saying how many rows were put to
    /// `matches`.
    #[verifier::rlimit(40)]
    pub fn find_page_counted<M: Fn(u64) -> bool, H: Fn(u64) -> Option<u64>>(
        &self,
        needle: &[u8],
        cursor: Option<FindCursor>,
        page: &mut [u64],
        matches: M,
        head_of: H,
    ) -> (out: (usize, Option<FindCursor>, u64))
        requires
            self.inv(),
            self.resumable(cursor),
            old(page)@.len() > 0,
            callable(self@, needle@, cursor, matches, head_of),
        ensures
            final(page)@.len() == old(page)@.len(),
            out.0 <= old(page)@.len(),
            final(page)@.skip(out.0 as int) == old(page)@.skip(out.0 as int),
            paged(
                self@,
                needle@,
                cursor,
                matches,
                head_of,
                old(page)@.len() as int,
                final(page)@.take(out.0 as int),
                out.1,
                out.2 as int,
            ),
    {
        let room: usize = page.len();
        let ghost page0 = page@;
        let mut found: usize = 0;
        let mut checks: u64 = 0;
        if needle.len() < 3 {
            // Descending scan from just below the cursor.
            let top: u64 = match cursor {
                Some(c) => c.row,
                None => self.len,
            };
            let mut row: u64 = top;
            assert(page@.take(0) =~= Seq::<u64>::empty());
            while row > 0
                invariant
                    self.inv(),
                    needle@.len() < 3,
                    callable(self@, needle@, cursor, matches, head_of),
                    top == scan_top(self@, cursor),
                    row <= top,
                    checks == top - row,
                    page0 == old(page)@,
                page@.len() == page0.len(),
                    page@.len() == room,
                    found < room,
                    page@.skip(found as int) == page0.skip(found as int),
                    forall|rs: Seq<u64>, nx: Option<FindCursor>, ck: int|
                        #[trigger] scanned(matches, row as int, room - found, rs, nx, ck)
                            ==> scanned(
                            matches,
                            top as int,
                            room as int,
                            page@.take(found as int) + rs,
                            nx,
                            checks + ck,
                        ),
                decreases row,
            {
                let r: u64 = row - 1;
                let yes: bool = matches(r);
                let ghost page1 = page@;
                let ghost found1 = found;
                let ghost checks1 = checks;
                checks = checks + 1;
                if yes {
                    page[found] = r;
                    found = found + 1;
                    proof {
                        assert(page@.take(found as int) =~= page1.take(found1 as int) + seq![r]);
                        assert(page@.skip(found as int) =~= page0.skip(found as int)) by {
                            assert forall|k: int| found <= k < room implies page@[k] == page0[k] by {
                                assert(page1.skip(found1 as int)[k - found1] == page0.skip(
                                    found1 as int,
                                )[k - found1]);
                            }
                        }
                    }
                    if found == room {
                        let next: Option<FindCursor> = if r > 0 {
                            Some(FindCursor { row: r, slot: NIL })
                        } else {
                            None
                        };
                        proof {
                            assert(matches.ensures((r,), yes));
                            assert(scanned(matches, row as int, room - found1, seq![r], next, 1));
                        }
                        return (found, next, checks);
                    }
                }
                proof {
                    assert(matches.ensures((r,), yes));
                    assert forall|rs: Seq<u64>, nx: Option<FindCursor>, ck: int|
                        #[trigger] scanned(matches, r as int, room - found, rs, nx, ck) implies scanned(
                        matches,
                        top as int,
                        room as int,
                        page@.take(found as int) + rs,
                        nx,
                        checks + ck,
                    ) by {
                        let before = if yes {
                            seq![r] + rs
                        } else {
                            rs
                        };
                        if yes {
                            assert(before.drop_first() =~= rs);
                        }
                        assert(scanned(matches, row as int, room - found1, before, nx, ck + 1));
                        assert(page1.take(found1 as int) + before =~= page@.take(found as int) + rs);
                        assert(checks1 + (ck + 1) == checks + ck);
                    }
                }
                row = r;
            }
            proof {
                let none = Seq::<u64>::empty();
                assert(scanned(matches, 0, room - found, none, None, 0));
                assert(page@.take(found as int) + none =~= page@.take(found as int));
            }
            return (found, None, checks);
        }
        let tri: u32 = tri_key(needle, 0);
        let ghost values = self.values@;
        let ghost all = candidates(self@, needle@, cursor);
        // Resume where the last page stopped, or start at the chain head. A
        // resume point was already returned, so the walk goes on after it.
        let mut slot: u32 = match cursor {
            Some(c) => if c.slot != NIL {
                self.next[c.slot as usize]
            } else {
                self.head(tri)
            },
            None => self.head(tri),
        };
        let below: Option<u64> = match cursor {
            Some(c) => Some(c.row),
            None => None,
        };
        // The chain being walked.
        let ghost chain: u32 = match cursor {
            Some(c) => match c.position() {
                Some(p) => choose|t: u32| posted(values, p, t),
                None => tri,
            },
            None => tri,
        };
        let ghost mut left = all;
        proof {
            assert(slot == head_link(left));
            assert(left.len() > 0 ==> {
                &&& 0 <= left[0] < self.next@.len()
                &&& posted(values, left[0], chain)
                &&& left == seq![left[0]] + postings(values, chain, left[0])
            }) by {
                if left.len() > 0 {
                    if cursor is Some && (cursor->0).position() is Some {
                        let p = (cursor->0).position()->0;
                        assert(exists|t: u32| posted(values, p, t));
                        postings_step(values, chain, p);
                    } else {
                        postings_step(values, chain, 16 * self.len);
                    }
                }
            }
        }
        assert(page@.take(0) =~= Seq::<u64>::empty());
        let ghost mut steps: int = 0;
        while slot != NIL
            invariant
                self.inv(),
                needle@.len() >= 3,
                callable(self@, needle@, cursor, matches, head_of),
                values == self.values@,
                all == candidates(self@, needle@, cursor),
                below == (if cursor is Some {
                    Some((cursor->0).row)
                } else {
                    None
                }),
                slot == head_link(left),
                left.len() > 0 ==> {
                    &&& 0 <= left[0] < self.next@.len()
                    &&& posted(values, left[0], chain)
                    &&& left == seq![left[0]] + postings(values, chain, left[0])
                },
                0 <= checks <= steps,
                steps + (if left.len() > 0 {
                    left[0] + 1
                } else {
                    0
                }) <= u32::MAX + 1,
                page0 == old(page)@,
                page@.len() == page0.len(),
                page@.len() == room,
                found < room,
                page@.skip(found as int) == page0.skip(found as int),
                forall|rs: Seq<u64>, nx: Option<FindCursor>, ck: int|
                    #[trigger] swept(matches, head_of, left, below, room - found, rs, nx, ck)
                        ==> swept(
                        matches,
                        head_of,
                        all,
                        below,
                        room as int,
                        page@.take(found as int) + rs,
                        nx,
                        checks + ck,
                    ),
            decreases left.len(),
        {
            let ghost left1 = left;
            let ghost page1 = page@;
            let ghost found1 = found;
            let ghost checks1 = checks;
            assert(left.len() > 0);
            assert(slot == left[0]);
            let row: u64 = (slot as usize / TRIGRAMS_PER_ROW) as u64;
            let ghost rest = left.drop_first();
            proof {
                assert(rest =~= postings(values, chain, left[0]));
                posted_below(values, self.len as int, left[0], chain);
                assert(row < self.len);
                assert(row == (left[0] / 16) as u64);
            }
            // A cursor whose slot was lost still bounds the walk by row.
            let past: bool = match below {
                Some(b) => row >= b,
                None => false,
            };
            let ghost mut head0: Option<u64> = None;
            let ghost mut yes0: bool = false;
            if !past {
                let resolved: Option<u64> = head_of(row);
                proof {
                    head0 = resolved;
                }
                if let Some(head) = resolved {
                    let yes: bool = matches(head);
                    proof {
                        yes0 = yes;
                    }
                    checks = checks + 1;
                    if yes {
                        page[found] = head;
                        found = found + 1;
                        proof {
                            assert(page@.take(found as int) =~= page1.take(found1 as int) + seq![
                                head,
                            ]);
                            assert(page@.skip(found as int) =~= page0.skip(found as int)) by {
                                assert forall|k: int| found <= k < room implies page@[k]
                                    == page0[k] by {
                                    assert(page1.skip(found1 as int)[k - found1] == page0.skip(
                                        found1 as int,
                                    )[k - found1]);
                                }
                            }
                        }
                        if found == room {
                            let next = Some(FindCursor { row, slot });
                            proof {
                                assert(head_of.ensures((row,), Some(head)));
                                assert(matches.ensures((head,), yes));
                                assert(swept(
                                    matches,
                                    head_of,
                                    left1,
                                    below,
                                    room - found1,
                                    seq![head],
                                    next,
                                    1,
                                ));
                            }
                            return (found, next, checks);
                        }
                    }
                }
            }
            proof {
                assert forall|rs: Seq<u64>, nx: Option<FindCursor>, ck: int|
                    #[trigger] swept(
                        matches,
                        head_of,
                        rest,
                        below,
                        room - found,
                        rs,
                        nx,
                        ck,
                    ) implies swept(
                    matches,
                    head_of,
                    all,
                    below,
                    room as int,
                    page@.take(found as int) + rs,
                    nx,
                    checks + ck,
                ) by {
                    let before = if yes0 {
                        seq![head0->0] + rs
                    } else {
                        rs
                    };
                    if yes0 {
                        assert(before.drop_first() =~= rs);
                    }
                    let more = checks - checks1;
                    if !past {
                        assert(head_of.ensures((row,), head0));
                        if head0 is Some {
                            assert(matches.ensures((head0->0,), yes0));
                        }
                    }
                    assert(swept(
                        matches,
                        head_of,
                        left1,
                        below,
                        room - found1,
                        before,
                        nx,
                        ck + more,
                    ));
                    assert(page1.take(found1 as int) + before =~= page@.take(found as int) + rs);
                    assert(checks1 + (ck + more) == checks + ck);
                }
                if rest.len() > 0 {
                    postings_step(values, chain, left1[0]);
                }
                left = rest;
                steps = steps + 1;
            }
            slot = self.next[slot as usize];
        }
        proof {
            let none = Seq::<u64>::empty();
            assert(left.len() == 0) by {
                if left.len() > 0 {
                    assert(slot == left[0]);
                }
            }
            assert(swept(matches, head_of, left, below, room - found, none, None, 0));
            assert(page@.take(found as int) + none =~= page@.take(found as int));
        }
        (found, None, checks)
    }

    /// How many postings the candidate chain for `needle` holds, counted up to
    /// `cap`: the number a compound search needs in order to choose which of
    /// its predicates drives the walk. A needle too short to have a trigram
    /// reports the worst possible cost.
    pub fn chain_len_capped(&mut self, needle: &[u8], cap: u32) -> (n: u32)
        requires
            old(self).inv(),
        ensures
            final(self).inv(),
            final(self)@ == old(self)@,
            final(self).capacity() == old(self).capacity(),
            needle@.len() < 3 ==> n == u32::MAX && final(self).peeked() == old(self).peeked(),
            needle@.len() >= 3 ==> {
                let chain = postings(old(self)@.values, tri_at(needle@, 0), 16 * old(self)@.rows);
                &&& n == (if chain.len() < cap {
                    chain.len() as int
                } else {
                    cap as int
                })
                &&& final(self).peeked() == (if old(self).peeked() + n > u64::MAX {
                    u64::MAX as int
                } else {
                    old(self).peeked() + n
                })
            },
    {
        if needle.len() < 3 {
            return u32::MAX;
        }
        let tri: u32 = tri_key(needle, 0);
        let mut slot: u32 = self.head(tri);
        let mut n: u32 = 0;
        let ghost values = self.values@;
        let ghost all = postings(values, tri, 16 * self.len);
        let ghost mut left = all;
        proof {
            if left.len() > 0 {
                postings_step(values, tri, 16 * self.len);
            }
        }
        while slot != NIL && n < cap
            invariant
                self.inv(),
                values == self.values@,
                slot == head_link(left),
                left.len() > 0 ==> {
                    &&& 0 <= left[0] < self.next@.len()
                    &&& posted(values, left[0], tri)
                    &&& left == seq![left[0]] + postings(values, tri, left[0])
                },
                n <= cap,
                n + left.len() == all.len(),
            decreases left.len(),
        {
            assert(left.len() > 0);
            assert(slot == left[0]);
            let ghost first = left[0];
            let ghost rest = left.drop_first();
            proof {
                assert(rest =~= postings(values, tri, first));
                if rest.len() > 0 {
                    postings_step(values, tri, first);
                }
                left = rest;
            }
            n = n + 1;
            slot = self.next[slot as usize];
        }
        proof {
            if slot == NIL && left.len() > 0 {
                assert(slot == left[0]);
            }
        }
        self.peeks = self.peeks.saturating_add(n as u64);
        n
    }

    /// Postings walked while CHOOSING which chain to search, since this index
    /// was built.
    pub fn peek_steps(&self) -> (n: u64)
        ensures
            n == self.peeked(),
    {
        self.peeks
    }
}

} // verus!
