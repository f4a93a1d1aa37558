//! The blob-zone allocator.
//!
//! - Power-of-two size classes from [`MIN_BLOCK`] to [`BLOB_HARD_MAX`].
//! - Per-class intrusive LIFO free lists: a free block's first four bytes
//!   hold the arena offset of the next free block of its class.
//! - O(1) allocation and free. No coalescing, no external fragmentation. Internal
//!   fragmentation is bounded by the class ratio and published via
//!   [`BlobAllocator::stats`].
//! - Capacity fixed at open; one arena allocation; no allocation afterward.

use crate::bytes::{from_le, get_u32, le32, splice, u32_to_le};
use vstd::prelude::*;
use vstd::slice::slice_subrange;

verus! {

/// Hard ceiling on a single blob: 256 KiB.
pub const BLOB_HARD_MAX: u32 = 262_144;

/// Smallest block class: 64 bytes (must hold at least the 4-byte free link).
pub const MIN_BLOCK: u32 = 64;

/// 64 B, 128 B, ..., 256 KiB.
pub const NUM_CLASSES: usize = 13;

/// Sentinel for "no next free block".
pub const NIL: u32 = 0xFFFF_FFFF;

/// A ticket for a live blob. `offset` and `class` locate the block; `len` is
/// the exact byte length stored.
#[derive(Debug, Clone, Copy, PartialEq, Eq)]
pub struct BlobHandle {
    pub offset: u32,
    pub class: u8,
    pub len: u32,
}

/// Allocation failures.
#[derive(Debug, Clone, Copy, PartialEq, Eq)]
pub enum BlobError {
    /// The value exceeds the ceiling.
    TooLarge { len: u32, hard_max: u32 },
    /// The blob zone is out of space for this class. The error names the
    /// block size that failed and the configured capacity.
    Full { block_bytes: u32, capacity: u64 },
}

/// Exact accounting, published so that hosts can alarm before hitting the
/// wall.
#[derive(Debug, Clone, Copy, PartialEq, Eq)]
pub struct BlobStats {
    /// Arena bytes configured at open.
    pub capacity: u64,
    /// Bytes ever carved from the arena (monotonic; freed blocks recycle
    /// within their class rather than returning here).
    pub high_water: u64,
    /// Bytes in blocks currently allocated to live handles.
    pub live_block_bytes: u64,
    /// Bytes of those blocks actually requested. The difference is the
    /// published internal fragmentation.
    pub live_payload_bytes: u64,
    /// Bytes sitting on free lists, reusable for their class.
    pub free_list_bytes: u64,
    /// Live handle count.
    pub live_count: u64,
}

/// Block size in bytes of a class.
pub open spec fn block_bytes(class: int) -> int
    decreases class,
{
    if class <= 0 {
        64
    } else {
        2 * block_bytes(class - 1)
    }
}

/// The smallest class from `class` on whose block holds `len` bytes.
pub open spec fn class_from(len: int, class: int) -> int
    decreases 13 - class,
{
    if class >= 12 || block_bytes(class) >= len {
        class
    } else {
        class_from(len, class + 1)
    }
}

/// The smallest class whose block holds `len` bytes.
pub open spec fn class_of(len: int) -> int {
    class_from(len, 0)
}

/// Bytes on the free lists of the first `n` classes.
pub open spec fn free_bytes(free: Seq<Seq<u32>>, n: int) -> int
    decreases n,
{
    if n <= 0 {
        0
    } else {
        free_bytes(free, n - 1) + free[n - 1].len() * block_bytes(n - 1)
    }
}

/// The bytes requested by the live handles below an offset.
pub open spec fn lens_below(live: Map<u32, BlobHandle>, end: int) -> int
    decreases end,
{
    if end <= 0 {
        0
    } else {
        lens_below(live, end - 1) + if live.contains_key((end - 1) as u32) {
            live[(end - 1) as u32].len as int
        } else {
            0
        }
    }
}

/// The bytes of their blocks.
pub open spec fn blocks_below(live: Map<u32, BlobHandle>, end: int) -> int
    decreases end,
{
    if end <= 0 {
        0
    } else {
        blocks_below(live, end - 1) + if live.contains_key((end - 1) as u32) {
            block_bytes(live[(end - 1) as u32].class as int)
        } else {
            0
        }
    }
}

/// One past the largest offset.
pub open spec fn offset_end() -> int {
    0x1_0000_0000
}

/// The zone: what has been carved, what is live, what is free, and the bytes.
#[verifier::ext_equal]
pub struct Zone {
    pub capacity: int,
    pub high_water: int,
    /// Live handles, by offset.
    pub live: Map<u32, BlobHandle>,
    /// Free blocks per class; the first of a list is handed out next.
    pub free: Seq<Seq<u32>>,
    /// Bytes requested by the live handles.
    pub payload: int,
    pub bytes: Seq<u8>,
}

impl Zone {
    /// What allocating `len` bytes does.
    pub open spec fn allocate(self, len: u32) -> Result<(Zone, BlobHandle), BlobError> {
        let class = class_of(len as int);
        let size = block_bytes(class);
        if len > BLOB_HARD_MAX {
            Err(BlobError::TooLarge { len, hard_max: BLOB_HARD_MAX })
        } else if self.free[class].len() > 0 {
            let offset = self.free[class][0];
            let handle = BlobHandle { offset, class: class as u8, len };
            Ok(
                (
                    Zone {
                        live: self.live.insert(offset, handle),
                        free: self.free.update(class, self.free[class].drop_first()),
                        payload: self.payload + len,
                        ..self
                    },
                    handle,
                ),
            )
        } else if self.high_water + size <= self.capacity {
            let offset = self.high_water as u32;
            let handle = BlobHandle { offset, class: class as u8, len };
            Ok(
                (
                    Zone {
                        live: self.live.insert(offset, handle),
                        high_water: self.high_water + size,
                        payload: self.payload + len,
                        ..self
                    },
                    handle,
                ),
            )
        } else {
            Err(BlobError::Full { block_bytes: size as u32, capacity: self.capacity as u64 })
        }
    }

    /// What freeing a live handle does. The block's first four bytes take the
    /// link to the block that was free before it.
    pub open spec fn release(self, h: BlobHandle) -> Zone {
        let list = self.free[h.class as int];
        Zone {
            live: self.live.remove(h.offset),
            free: self.free.update(h.class as int, seq![h.offset] + list),
            payload: self.payload - h.len,
            bytes: splice(self.bytes, h.offset as int, le32(head_of(list))),
            ..self
        }
    }

    /// The handle is live.
    pub open spec fn holds(self, h: BlobHandle) -> bool {
        self.live.contains_key(h.offset) && self.live[h.offset] == h
    }

    /// The payload of a live handle.
    pub open spec fn data(self, h: BlobHandle) -> Seq<u8> {
        self.bytes.subrange(h.offset as int, h.offset + h.len)
    }
}

proof fn block_facts(class: int)
    requires
        0 <= class <= 12,
    ensures
        64 <= block_bytes(class) <= 262_144,
        block_bytes(12) == 262_144,
    decreases 12 - class,
{
    reveal_with_fuel(block_bytes, 14);
}

proof fn block_grows(a: int, b: int)
    requires
        0 <= a <= b,
    ensures
        64 <= block_bytes(a) <= block_bytes(b),
        a < b ==> 2 * block_bytes(a) <= block_bytes(b),
    decreases b,
{
    if a < b {
        block_grows(a, b - 1);
    } else if b > 0 {
        block_grows(b - 1, b - 1);
    }
}

/// The chosen class fits, and the one below would not.
pub proof fn class_is_tight(len: int)
    requires
        0 <= len <= 262_144,
    ensures
        0 <= class_of(len) <= 12,
        block_bytes(class_of(len)) >= len,
        class_of(len) > 0 ==> block_bytes(class_of(len) - 1) < len,
{
    class_tight_from(len, 0);
}

proof fn class_tight_from(len: int, class: int)
    requires
        0 <= class <= 12,
        len <= 262_144,
        class > 0 ==> block_bytes(class - 1) < len,
    ensures
        class <= class_from(len, class) <= 12,
        block_bytes(class_from(len, class)) >= len,
        class_from(len, class) > 0 ==> block_bytes(class_from(len, class) - 1) < len,
    decreases 12 - class,
{
    block_facts(class);
    if class < 12 && block_bytes(class) < len {
        class_tight_from(len, class + 1);
    }
}

/// Block size in bytes for a class index.
pub fn block_size(class: u8) -> (size: u32)
    requires
        class < 13,
    ensures
        size == block_bytes(class as int),
{
    let mut size: u32 = MIN_BLOCK;
    let mut k: u8 = 0;
    while k < class
        invariant
            k <= class < 13,
            size == block_bytes(k as int),
        decreases class - k,
    {
        proof {
            block_facts(k as int);
        }
        size = size * 2;
        k = k + 1;
    }
    size
}

/// Smallest class whose block holds `len` bytes.
pub fn class_for(len: u32) -> (class: u8)
    requires
        len <= BLOB_HARD_MAX,
    ensures
        class == class_of(len as int),
        class < 13,
{
    let mut class: u8 = 0;
    let mut size: u32 = MIN_BLOCK;
    while class < 12 && size < len
        invariant
            class <= 12,
            size == block_bytes(class as int),
            class_from(len as int, class as int) == class_of(len as int),
        decreases 12 - class,
    {
        proof {
            block_facts(class as int);
        }
        size = size * 2;
        class = class + 1;
    }
    class
}

/// The link stored in a free block.
spec fn link(bytes: Seq<u8>, offset: u32) -> u32 {
    from_le(bytes.subrange(offset as int, offset + 4)) as u32
}

/// The first block of a free list.
pub open spec fn head_of(list: Seq<u32>) -> u32 {
    if list.len() > 0 {
        list[0]
    } else {
        NIL
    }
}

spec fn linked(bytes: Seq<u8>, list: Seq<u32>, i: int) -> bool {
    link(bytes, list[i]) == head_of(list.skip(i + 1))
}

/// Blocks carved from the arena: each within the high-water mark, none
/// overlapping another.
spec fn apart(carved: Map<u32, u8>, a: u32, b: u32) -> bool {
    a + block_bytes(carved[a] as int) <= b || b + block_bytes(carved[b] as int) <= a
}

spec fn carved_ok(carved: Map<u32, u8>, high_water: int) -> bool {
    &&& forall|o: u32| #[trigger]
        carved.contains_key(o) ==> carved[o] < 13 && o + block_bytes(carved[o] as int) <= high_water
    &&& forall|a: u32, b: u32|
        #[trigger] carved.contains_key(a) && #[trigger] carved.contains_key(b) && a != b ==> apart(
            carved,
            a,
            b,
        )
}

spec fn live_ok(live: Map<u32, BlobHandle>, carved: Map<u32, u8>) -> bool {
    forall|o: u32| #[trigger]
        live.contains_key(o) ==> {
            &&& live[o].offset == o
            &&& carved.contains_key(o)
            &&& carved[o] == live[o].class
            &&& live[o].len <= BLOB_HARD_MAX
            &&& live[o].class == class_of(live[o].len as int)
        }
}

spec fn free_ok(
    free: Seq<Seq<u32>>,
    carved: Map<u32, u8>,
    live: Map<u32, BlobHandle>,
    bytes: Seq<u8>,
    c: int,
) -> bool {
    &&& forall|i: int|
        0 <= i < free[c].len() ==> carved.contains_key(#[trigger] free[c][i]) && carved[free[c][i]]
            == c && !live.contains_key(free[c][i])
    &&& free[c].no_duplicates()
    &&& forall|i: int| 0 <= i < free[c].len() ==> #[trigger] linked(bytes, free[c], i)
}

spec fn sum_blocks(s: Seq<BlobHandle>) -> int
    decreases s.len(),
{
    if s.len() == 0 {
        0
    } else {
        sum_blocks(s.drop_last()) + block_bytes(s.last().class as int)
    }
}

spec fn sum_lens(s: Seq<BlobHandle>) -> int
    decreases s.len(),
{
    if s.len() == 0 {
        0
    } else {
        sum_lens(s.drop_last()) + s.last().len
    }
}

proof fn sums_remove(s: Seq<BlobHandle>, i: int)
    requires
        0 <= i < s.len(),
    ensures
        sum_blocks(s.remove(i)) == sum_blocks(s) - block_bytes(s[i].class as int),
        sum_lens(s.remove(i)) == sum_lens(s) - s[i].len,
    decreases s.len(),
{
    if i == s.len() - 1 {
        assert(s.remove(i) =~= s.drop_last());
    } else {
        sums_remove(s.drop_last(), i);
        assert(s.remove(i).drop_last() =~= s.drop_last().remove(i));
    }
}

proof fn sums_bound(s: Seq<BlobHandle>)
    requires
        forall|i: int|
            0 <= i < s.len() ==> (#[trigger] s[i]).class < 13 && s[i].len <= block_bytes(
                s[i].class as int,
            ),
    ensures
        0 <= sum_lens(s) <= sum_blocks(s),
    decreases s.len(),
{
    if s.len() > 0 {
        assert forall|i: int| 0 <= i < s.drop_last().len() implies (#[trigger] s.drop_last()[i]).class
            < 13 && s.drop_last()[i].len <= block_bytes(s.drop_last()[i].class as int) by {
            assert(s.drop_last()[i] == s[i]);
        }
        sums_bound(s.drop_last());
        assert(s[s.len() - 1] == s.last());
    }
}

spec fn roster_ok(roster: Seq<BlobHandle>, live: Map<u32, BlobHandle>) -> bool {
    &&& forall|i: int|
        0 <= i < roster.len() ==> live.contains_key((#[trigger] roster[i]).offset)
            && live[roster[i].offset] == roster[i]
    &&& forall|i: int, j: int|
        0 <= i < j < roster.len() ==> (#[trigger] roster[i]).offset != (#[trigger] roster[j]).offset
    &&& forall|o: u32| #[trigger]
        live.contains_key(o) ==> live[o].offset == o && roster.contains(live[o])
    &&& live.dom().finite()
    &&& live.dom().len() == roster.len()
}

proof fn free_bytes_update(free: Seq<Seq<u32>>, c: int, list: Seq<u32>, n: int)
    requires
        0 <= c < free.len(),
        0 <= n <= free.len(),
    ensures
        free_bytes(free.update(c, list), n) == free_bytes(free, n) + (if c < n {
            (list.len() - free[c].len()) * block_bytes(c)
        } else {
            0
        }),
    decreases n,
{
    if n > 0 {
        free_bytes_update(free, c, list, n - 1);
        if c == n - 1 {
            assert((list.len() - free[c].len()) * block_bytes(c) == list.len() * block_bytes(c)
                - free[c].len() * block_bytes(c)) by (nonlinear_arith);
        }
    }
}

proof fn free_bytes_bound(free: Seq<Seq<u32>>, c: int, n: int)
    requires
        0 <= n <= 13,
        0 <= c < n,
    ensures
        free_bytes(free, n) >= free[c].len() * block_bytes(c),
        free_bytes(free, n) >= 64 * free[c].len(),
    decreases n,
{
    free_bytes_nonneg(free, n - 1);
    block_facts(c);
    assert(free[c].len() * block_bytes(c) >= 64 * free[c].len()) by (nonlinear_arith)
        requires
            block_bytes(c) >= 64,
    ;
    if c < n - 1 {
        free_bytes_bound(free, c, n - 1);
        block_facts(n - 1);
        assert(free[n - 1].len() * block_bytes(n - 1) >= 0) by (nonlinear_arith)
            requires
                block_bytes(n - 1) >= 64,
        ;
    }
}

proof fn free_bytes_nonneg(free: Seq<Seq<u32>>, n: int)
    requires
        n <= 13,
    ensures
        free_bytes(free, n) >= 0,
    decreases n,
{
    if n > 0 {
        free_bytes_nonneg(free, n - 1);
        block_facts(n - 1);
        assert(free[n - 1].len() * block_bytes(n - 1) >= 0) by (nonlinear_arith)
            requires
                block_bytes(n - 1) >= 64,
        ;
    }
}

pub struct BlobAllocator {
    arena: Vec<u8>,
    /// Head of the free list per class (arena offset), NIL when empty.
    free_heads: [u32; NUM_CLASSES],
    /// Free blocks per class.
    free_counts: [u32; NUM_CLASSES],
    high_water: u32,
    live_block_bytes: u64,
    live_payload_bytes: u64,
    live_count: u64,
    free: Ghost<Seq<Seq<u32>>>,
    carved: Ghost<Map<u32, u8>>,
    live: Ghost<Map<u32, BlobHandle>>,
    roster: Ghost<Seq<BlobHandle>>,
}

impl View for BlobAllocator {
    type V = Zone;

    closed spec fn view(&self) -> Zone {
        Zone {
            capacity: self.arena@.len() as int,
            high_water: self.high_water as int,
            live: self.live@,
            free: self.free@,
            payload: self.live_payload_bytes as int,
            bytes: self.arena@,
        }
    }
}

impl BlobAllocator {
    pub closed spec fn inv(&self) -> bool {
        &&& 64 <= self.arena@.len() < u32::MAX
        &&& self.high_water <= self.arena@.len()
        &&& self.free@.len() == 13
        &&& forall|c: int|
            0 <= c < 13 ==> #[trigger] self.free_heads@[c] == head_of(self.free@[c])
        &&& forall|c: int| 0 <= c < 13 ==> #[trigger] self.free_counts@[c] == self.free@[c].len()
        &&& carved_ok(self.carved@, self.high_water as int)
        &&& live_ok(self.live@, self.carved@)
        &&& forall|c: int|
            0 <= c < 13 ==> #[trigger] free_ok(
                self.free@,
                self.carved@,
                self.live@,
                self.arena@,
                c,
            )
        &&& roster_ok(self.roster@, self.live@)
        &&& self.live_block_bytes == sum_blocks(self.roster@)
        &&& self.live_payload_bytes == sum_lens(self.roster@)
        &&& self.live_count == self.roster@.len()
        &&& self.live_block_bytes + free_bytes(self.free@, 13) == self.high_water
    }

    /// One arena allocation for the whole zone. Offsets are u32, so the zone
    /// is capped below 4 GiB.
    pub fn new(capacity: u64) -> (a: Self)
        requires
            MIN_BLOCK <= capacity < u32::MAX,
        ensures
            a.inv(),
            a@ == (Zone {
                capacity: capacity as int,
                high_water: 0,
                live: Map::empty(),
                free: Seq::new(13, |c: int| Seq::empty()),
                payload: 0,
                bytes: crate::bytes::zeros(capacity as nat),
            }),
    {
        let a = BlobAllocator {
            arena: vec![0u8; capacity as usize],
            free_heads: [NIL; 13],
            free_counts: [0u32; 13],
            high_water: 0,
            live_block_bytes: 0,
            live_payload_bytes: 0,
            live_count: 0,
            free: Ghost(Seq::new(13, |c: int| Seq::empty())),
            carved: Ghost(Map::empty()),
            live: Ghost(Map::empty()),
            roster: Ghost(Seq::empty()),
        };
        proof {
            no_free_bytes(a.free@, 13);
            assert(a.arena@ =~= crate::bytes::zeros(capacity as nat));
            assert forall|c: int| 0 <= c < 13 implies #[trigger] free_ok(
                a.free@,
                a.carved@,
                a.live@,
                a.arena@,
                c,
            ) by {
                assert(a.free@[c] =~= Seq::empty());
            }
        }
        a
    }

    pub fn stats(&self) -> (s: BlobStats)
        requires
            self.inv(),
        ensures
            s.capacity == self@.capacity,
            s.high_water == self@.high_water,
            s.free_list_bytes == free_bytes(self@.free, 13),
            s.live_block_bytes == self@.high_water - free_bytes(self@.free, 13),
            s.live_block_bytes == blocks_below(self@.live, offset_end()),
            s.live_payload_bytes == self@.payload,
            s.live_payload_bytes == lens_below(self@.live, offset_end()),
            s.live_payload_bytes <= s.live_block_bytes,
            s.live_count == self@.live.dom().len(),
    {
        proof {
            sums_are_of_the_live(self.roster@, self.live@);
            sums_of_live(self.roster@, self.live@, self.carved@);
        }
        BlobStats {
            capacity: self.arena.len() as u64,
            high_water: self.high_water as u64,
            live_block_bytes: self.live_block_bytes,
            live_payload_bytes: self.live_payload_bytes,
            free_list_bytes: self.free_list_bytes(),
            live_count: self.live_count,
        }
    }

    fn free_list_bytes(&self) -> (total: u64)
        requires
            self.inv(),
        ensures
            total == free_bytes(self@.free, 13),
    {
        let mut total: u64 = 0;
        let mut class: usize = 0;
        while class < 13
            invariant
                class <= 13,
                self.inv(),
                total == free_bytes(self.free@, class as int),
                total <= u32::MAX,
            decreases 13 - class,
        {
            let size: u32 = block_size(class as u8);
            proof {
                free_bytes_part(self.free@, class as int, 13);
                free_bytes_part(self.free@, class + 1, 13);
                block_facts(class as int);
                assert(self.free_counts@[class as int] == self.free@[class as int].len());
                assert(0 <= self.free@[class as int].len() * block_bytes(class as int))
                    by (nonlinear_arith)
                    requires
                        block_bytes(class as int) >= 64,
                ;
            }
            total = total + self.free_counts[class] as u64 * size as u64;
            class = class + 1;
        }
        total
    }

    /// Allocate a block for `len` bytes: pop the class free list or bump the
    /// high-water mark.
    #[verifier::rlimit(100)]
    #[verifier::spinoff_prover]
    pub fn allocate(&mut self, len: u32) -> (res: Result<BlobHandle, BlobError>)
        requires
            old(self).inv(),
        ensures
            final(self).inv(),
            match res {
                Ok(h) => old(self)@.allocate(len) == Ok::<(Zone, BlobHandle), BlobError>(
                    (final(self)@, h),
                ) && !old(self)@.live.contains_key(h.offset),
                Err(e) => old(self)@.allocate(len) == Err::<(Zone, BlobHandle), BlobError>(e)
                    && final(self)@ == old(self)@,
            },
    {
        if len > BLOB_HARD_MAX {
            return Err(BlobError::TooLarge { len, hard_max: BLOB_HARD_MAX });
        }
        let class: u8 = class_for(len);
        let size: u32 = block_size(class);
        let c: usize = class as usize;
        let ghost carved = self.carved@;
        let ghost free = self.free@;
        let ghost live = self.live@;
        proof {
            class_is_tight(len as int);
            block_facts(class as int);
            assert(free_ok(free, carved, live, self.arena@, c as int));
            assert(self.free_heads@[c as int] == head_of(free[c as int]));
            assert(self.free_counts@[c as int] == free[c as int].len());
            free_bytes_nonneg(free, 13);
        }
        let offset: u32;
        if self.free_heads[c] != NIL {
            offset = self.free_heads[c];
            proof {
                assert(carved.contains_key(free[c as int][0]));
                assert(linked(self.arena@, free[c as int], 0));
                assert(free[c as int].skip(1) =~= free[c as int].drop_first());
            }
            let next: u32 = get_u32(self.arena.as_slice(), offset as usize);
            self.free_heads[c] = next;
            self.free_counts[c] = self.free_counts[c] - 1;
            proof {
                self.free = Ghost(free.update(c as int, free[c as int].drop_first()));
                free_bytes_update(free, c as int, free[c as int].drop_first(), 13);
                assert((free[c as int].drop_first().len() - free[c as int].len()) * block_bytes(
                    c as int,
                ) == -block_bytes(c as int)) by (nonlinear_arith)
                    requires
                        free[c as int].drop_first().len() - free[c as int].len() == -1,
                ;
            }
        } else {
            assert(free[c as int].len() == 0) by {
                if free[c as int].len() > 0 {
                    assert(carved.contains_key(free[c as int][0]));
                }
            }
            offset = self.high_water;
            let new_high: u64 = offset as u64 + size as u64;
            if new_high > self.arena.len() as u64 {
                return Err(
                    BlobError::Full { block_bytes: size, capacity: self.arena.len() as u64 },
                );
            }
            self.high_water = new_high as u32;
            proof {
                self.carved = Ghost(carved.insert(offset, class));
                assert(!carved.contains_key(offset)) by {
                    if carved.contains_key(offset) {
                        block_facts(carved[offset] as int);
                    }
                }
                new_block(carved, offset, class, size as int);
            }
        }
        let handle = BlobHandle { offset, class, len };
        proof {
            sums_of_live(self.roster@, live, carved);
        }
        self.live_block_bytes = self.live_block_bytes + size as u64;
        self.live_payload_bytes = self.live_payload_bytes + len as u64;
        proof {
            assert(!live.contains_key(offset)) by {
                if live.contains_key(offset) {
                    assert(carved.contains_key(offset));
                }
            }
            live_count_bound(self.roster@, live, carved, self.high_water as int);
        }
        self.live_count = self.live_count + 1;
        proof {
            let roster = self.roster@.push(handle);
            assert(roster.drop_last() =~= self.roster@);
            self.live = Ghost(live.insert(offset, handle));
            roster_push(self.roster@, live, handle);
            self.roster = Ghost(roster);
            assert forall|k: int| 0 <= k < 13 implies #[trigger] free_ok(
                self.free@,
                self.carved@,
                self.live@,
                self.arena@,
                k,
            ) by {
                assert(free_ok(free, carved, live, self.arena@, k));
                free_after_alloc(
                    free,
                    self.free@,
                    carved,
                    self.carved@,
                    live,
                    handle,
                    self.arena@,
                    k,
                );
            }
        }
        Ok(handle)
    }

    /// Return a block to its class free list.
    #[verifier::rlimit(100)]
    #[verifier::spinoff_prover]
    pub fn free(&mut self, handle: BlobHandle)
        requires
            old(self).inv(),
            old(self)@.holds(handle),
        ensures
            final(self).inv(),
            final(self)@ == old(self)@.release(handle),
            forall|h: BlobHandle|
                old(self)@.holds(h) && h != handle ==> final(self)@.holds(h)
                    && #[trigger] final(self)@.data(h) == old(self)@.data(h),
    {
        let ghost carved = self.carved@;
        let ghost free = self.free@;
        let ghost live = self.live@;
        let ghost roster = self.roster@;
        let ghost bytes = self.arena@;
        let offset: u32 = handle.offset;
        let c: usize = handle.class as usize;
        proof {
            assert(live.contains_key(offset) && carved.contains_key(offset));
            class_is_tight(handle.len as int);
            block_facts(c as int);
            assert(self.free_heads@[c as int] == head_of(free[c as int]));
            assert(self.free_counts@[c as int] == free[c as int].len());
            free_bytes_bound(free, c as int, 13);
            sums_of_live(roster, live, carved);
        }
        let size: u32 = block_size(handle.class);
        let head: u32 = self.free_heads[c];
        self.write_link(offset, head);
        self.free_heads[c] = offset;
        self.free_counts[c] = self.free_counts[c] + 1;
        proof {
            assert(roster.contains(live[offset]));
            let i = choose|i: int| 0 <= i < roster.len() && roster[i] == live[offset];
            sums_remove(roster, i);
            roster_remove(roster, live, i);
            self.roster = Ghost(roster.remove(i));
            self.live = Ghost(live.remove(offset));
            sums_of_live(self.roster@, self.live@, carved);
        }
        self.live_block_bytes = self.live_block_bytes - size as u64;
        self.live_payload_bytes = self.live_payload_bytes - handle.len as u64;
        self.live_count = self.live_count - 1;
        proof {
            let list = seq![offset] + free[c as int];
            self.free = Ghost(free.update(c as int, list));
            free_bytes_update(free, c as int, list, 13);
            assert((list.len() - free[c as int].len()) * block_bytes(c as int) == block_bytes(
                c as int,
            )) by (nonlinear_arith)
                requires
                    list.len() - free[c as int].len() == 1,
            ;
            assert forall|k: int| 0 <= k < 13 implies #[trigger] free_ok(
                self.free@,
                self.carved@,
                self.live@,
                self.arena@,
                k,
            ) by {
                assert(free_ok(free, carved, live, bytes, k));
                free_after_release(free, carved, live, handle, bytes, self.high_water as int, k);
            }
            crate::bytes::le32_round_trip(head);
            assert(self.free@[c as int][0] == offset);
            assert forall|k: int| 0 <= k < 13 implies #[trigger] self.free_heads@[k] == head_of(
                self.free@[k],
            ) by {
                assert(old(self).free_heads@[k] == head_of(free[k]));
            }
            assert forall|k: int| 0 <= k < 13 implies #[trigger] self.free_counts@[k]
                == self.free@[k].len() by {
                assert(old(self).free_counts@[k] == free[k].len());
            }
            assert(self.arena@.len() == bytes.len());
            assert forall|h: BlobHandle| old(self)@.holds(h) && h != handle implies self@.holds(h)
                && #[trigger] self@.data(h) == old(self)@.data(h) by {
                assert(h.offset != offset);
                assert(live.contains_key(h.offset) && carved.contains_key(h.offset));
                assert(apart(carved, h.offset, offset));
                class_is_tight(h.len as int);
                block_facts(h.class as int);
                assert(self@.data(h) =~= old(self)@.data(h));
            }
        }
    }

    fn write_link(&mut self, offset: u32, next: u32)
        requires
            offset + 4 <= old(self).arena.len(),
        ensures
            *final(self) == (BlobAllocator { arena: final(self).arena, ..*old(self) }),
            final(self).arena@ == splice(old(self).arena@, offset as int, le32(next)),
    {
        let part = u32_to_le(next);
        let at: usize = offset as usize;
        proof {
            crate::bytes::le32_round_trip(next);
        }
        self.arena.set(at, part[0]);
        self.arena.set(at + 1, part[1]);
        self.arena.set(at + 2, part[2]);
        self.arena.set(at + 3, part[3]);
        assert(self.arena@ =~= splice(old(self).arena@, offset as int, le32(next)));
    }

    /// The payload bytes for a live handle.
    pub fn data(&self, handle: BlobHandle) -> (bytes: &[u8])
        requires
            self.inv(),
            self@.holds(handle),
        ensures
            bytes@ == self@.data(handle),
            bytes@.len() == handle.len,
    {
        proof {
            self.handle_fits(handle);
        }
        let start: usize = handle.offset as usize;
        slice_subrange(self.arena.as_slice(), start, start + handle.len as usize)
    }

    /// A live handle's payload lies within the arena.
    proof fn handle_fits(&self, h: BlobHandle)
        requires
            self.inv(),
            self@.holds(h),
        ensures
            h.offset + h.len <= h.offset + block_bytes(h.class as int) <= self.high_water,
            self.carved@.contains_key(h.offset),
            h.class < 13,
    {
        assert(self.live@.contains_key(h.offset) && self.carved@.contains_key(h.offset));
        class_is_tight(h.len as int);
    }

    /// Writing one payload leaves every other as it is.
    proof fn others_stay(&self, h: BlobHandle)
        requires
            self.inv(),
            self@.holds(h),
        ensures
            forall|new: Seq<u8>, g: BlobHandle|
                new.len() == h.len && self@.holds(g) && g != h ==> (#[trigger] splice(
                    self@.bytes,
                    h.offset as int,
                    new,
                )).subrange(g.offset as int, g.offset + g.len) == #[trigger] self@.data(g),
    {
        assert forall|new: Seq<u8>, g: BlobHandle|
            new.len() == h.len && self@.holds(g) && g != h implies (#[trigger] splice(
            self@.bytes,
            h.offset as int,
            new,
        )).subrange(g.offset as int, g.offset + g.len) == #[trigger] self@.data(g) by {
            self.handle_fits(h);
            self.handle_fits(g);
            assert(apart(self.carved@, g.offset, h.offset));
            assert(splice(self@.bytes, h.offset as int, new).subrange(
                g.offset as int,
                g.offset + g.len,
            ) =~= self@.data(g));
        }
    }

    /// Mutable payload bytes for a live handle. What is written through them
    /// is the handle's new payload; nothing else changes.
    pub fn data_mut(&mut self, handle: BlobHandle) -> (bytes: &mut [u8])
        requires
            old(self).inv(),
            old(self)@.holds(handle),
        ensures
            bytes@ == old(self)@.data(handle),
            bytes@.len() == handle.len,
            final(bytes)@.len() == handle.len ==> {
                &&& final(self).inv()
                &&& final(self)@ == (Zone {
                    bytes: splice(old(self)@.bytes, handle.offset as int, final(bytes)@),
                    ..old(self)@
                })
                &&& final(self)@.data(handle) == final(bytes)@
                &&& forall|g: BlobHandle|
                    old(self)@.holds(g) && g != handle ==> final(self)@.holds(g)
                        && #[trigger] final(self)@.data(g) == old(self)@.data(g)
            },
    {
        proof {
            self.others_stay(handle);
            self.handle_fits(handle);
            write_keeps(*self, handle);
        }
        let start: usize = handle.offset as usize;
        let len: usize = handle.len as usize;
        let ghost ar = self.arena@;
        proof {
            let rest = ar.subrange(start as int, ar.len() as int);
            assert forall|new: Seq<u8>| new.len() == len implies #[trigger] splice(
                ar,
                start as int,
                new,
            ) == ar.subrange(0, start as int) + (new + rest.subrange(len as int, rest.len() as int))
                && splice(ar, start as int, new).subrange(start as int, start + len) == new by {
                assert(splice(ar, start as int, new) =~= ar.subrange(0, start as int) + (new
                    + rest.subrange(len as int, rest.len() as int)));
                assert(splice(ar, start as int, new).subrange(start as int, start + len) =~= new);
            }
        }
        let (_before, rest) = self.arena.as_mut_slice().split_at_mut(start);
        let (part, _after) = rest.split_at_mut(len);
        part
    }

    /// Visit every free block, class by class, each list from its head.
    pub fn for_each_free_block<A, F: Fn(A, u32, u8) -> A>(&self, init: A, f: F) -> (fin: A)
        requires
            self.inv(),
            forall|a: A, o: u32, c: u8| #[trigger] f.requires((a, o, c)),
        ensures
            visited(f, free_blocks(self@.free, 0, 0), init, fin),
    {
        let ghost free = self.free@;
        let ghost all = free_blocks(free, 0, 0);
        let mut acc: A = init;
        let mut class: usize = 0;
        while class < 13
            invariant
                class <= 13,
                self.inv(),
                free == self.free@,
                all == free_blocks(free, 0, 0),
                forall|a: A, o: u32, c: u8| #[trigger] f.requires((a, o, c)),
                forall|r: A| #[trigger]
                    visited(f, free_blocks(free, class as int, 0), acc, r) ==> visited(
                        f,
                        all,
                        init,
                        r,
                    ),
            decreases 13 - class,
        {
            let mut cursor: u32 = self.free_heads[class];
            let ghost mut i: int = 0;
            proof {
                assert(self.free_heads@[class as int] == head_of(free[class as int]));
                assert(free[class as int].skip(0) =~= free[class as int]);
            }
            while cursor != NIL
                invariant
                    class < 13,
                    self.inv(),
                    free == self.free@,
                    all == free_blocks(free, 0, 0),
                    forall|a: A, o: u32, c: u8| #[trigger] f.requires((a, o, c)),
                    0 <= i <= free[class as int].len(),
                    cursor == head_of(free[class as int].skip(i)),
                    forall|r: A| #[trigger]
                        visited(f, free_blocks(free, class as int, i), acc, r) ==> visited(
                            f,
                            all,
                            init,
                            r,
                        ),
                decreases free[class as int].len() - i,
            {
                let ghost list = free[class as int];
                let ghost before = acc;
                proof {
                    assert(free_ok(free, self.carved@, self.live@, self.arena@, class as int));
                    assert(list.skip(i)[0] == list[i]);
                    assert(self.carved@.contains_key(list[i]));
                    block_facts(class as int);
                    assert(linked(self.arena@, list, i));
                }
                acc = f(acc, cursor, class as u8);
                cursor = get_u32(self.arena.as_slice(), cursor as usize);
                proof {
                    assert forall|r: A| #[trigger]
                        visited(f, free_blocks(free, class as int, i + 1), acc, r) implies visited(
                        f,
                        all,
                        init,
                        r,
                    ) by {
                        let bs = free_blocks(free, class as int, i);
                        assert(bs.drop_first() =~= free_blocks(free, class as int, i + 1));
                        assert(f.ensures((before, bs[0].0, bs[0].1), acc));
                        assert(visited(f, bs, before, r));
                    }
                    i = i + 1;
                }
            }
            proof {
                let list = free[class as int];
                assert(i == list.len()) by {
                    if i < list.len() {
                        assert(free_ok(free, self.carved@, self.live@, self.arena@, class as int));
                        assert(list.skip(i)[0] == list[i]);
                        assert(self.carved@.contains_key(list[i]));
                        block_facts(class as int);
                    }
                }
                assert(free_blocks(free, class as int, i) == free_blocks(free, class + 1, 0));
            }
            class = class + 1;
        }
        assert(visited(f, free_blocks(free, 13, 0), acc, acc));
        acc
    }
}

/// The free blocks from entry `i` of class `class` on, with their classes.
pub open spec fn free_blocks(free: Seq<Seq<u32>>, class: int, i: int) -> Seq<(u32, u8)>
    decreases 13 - class, free[class].len() - i,
{
    if class >= 13 {
        Seq::empty()
    } else if i < free[class].len() {
        seq![(free[class][i], class as u8)] + free_blocks(free, class, i + 1)
    } else {
        free_blocks(free, class + 1, 0)
    }
}

/// `f` applied to the blocks in turn, its accumulator passed along.
pub open spec fn visited<A, F: Fn(A, u32, u8) -> A>(
    f: F,
    blocks: Seq<(u32, u8)>,
    init: A,
    fin: A,
) -> bool
    decreases blocks.len(),
{
    if blocks.len() == 0 {
        fin == init
    } else {
        exists|mid: A|
            #![trigger f.ensures((init, blocks[0].0, blocks[0].1), mid)]
            f.ensures((init, blocks[0].0, blocks[0].1), mid) && visited(
                f,
                blocks.drop_first(),
                mid,
                fin,
            )
    }
}

proof fn no_free_bytes(free: Seq<Seq<u32>>, n: int)
    requires
        forall|c: int| 0 <= c < n ==> (#[trigger] free[c]).len() == 0,
    ensures
        free_bytes(free, n) == 0,
    decreases n,
{
    if n > 0 {
        no_free_bytes(free, n - 1);
        assert(free[n - 1].len() * block_bytes(n - 1) == 0) by (nonlinear_arith)
            requires
                free[n - 1].len() == 0,
        ;
    }
}

proof fn roster_remove(roster: Seq<BlobHandle>, live: Map<u32, BlobHandle>, i: int)
    requires
        roster_ok(roster, live),
        0 <= i < roster.len(),
    ensures
        roster_ok(roster.remove(i), live.remove(roster[i].offset)),
{
    let h = roster[i];
    let new = live.remove(h.offset);
    let all = roster.remove(i);
    assert forall|j: int| 0 <= j < all.len() implies new.contains_key((#[trigger] all[j]).offset)
        && new[all[j].offset] == all[j] by {
        let k = if j < i {
            j
        } else {
            j + 1
        };
        assert(all[j] == roster[k]);
        assert(live.contains_key(roster[k].offset));
        if k < i {
            assert(roster[k].offset != roster[i].offset);
        } else {
            assert(roster[i].offset != roster[k].offset);
        }
    }
    assert forall|a: int, b: int| 0 <= a < b < all.len() implies (#[trigger] all[a]).offset != (
    #[trigger] all[b]).offset by {
        let x = if a < i {
            a
        } else {
            a + 1
        };
        let y = if b < i {
            b
        } else {
            b + 1
        };
        assert(roster[x].offset != roster[y].offset);
    }
    assert forall|o: u32| #[trigger] new.contains_key(o) implies new[o].offset == o && all.contains(
        new[o],
    ) by {
        assert(live.contains_key(o));
        let k = choose|k: int| 0 <= k < roster.len() && roster[k] == live[o];
        assert(live.contains_key(roster[i].offset) && live[roster[i].offset] == roster[i]);
        assert(live.contains_key(roster[k].offset) && live[roster[k].offset] == roster[k]);
        if k < i {
            assert(all[k] == roster[k]);
        } else if k > i {
            assert(all[k - 1] == roster[k]);
        }
    }
    assert(live.contains_key(h.offset));
    assert(new.dom() =~= live.dom().remove(h.offset));
}

proof fn free_after_release(
    free: Seq<Seq<u32>>,
    carved: Map<u32, u8>,
    live: Map<u32, BlobHandle>,
    h: BlobHandle,
    bytes: Seq<u8>,
    high_water: int,
    k: int,
)
    requires
        0 <= k < free.len() == 13,
        free_ok(free, carved, live, bytes, k),
        carved_ok(carved, high_water),
        live_ok(live, carved),
        high_water <= bytes.len(),
        live.contains_key(h.offset),
        live[h.offset] == h,
    ensures
        free_ok(
            free.update(h.class as int, seq![h.offset] + free[h.class as int]),
            carved,
            live.remove(h.offset),
            splice(bytes, h.offset as int, le32(head_of(free[h.class as int]))),
            k,
        ),
{
    let after = free.update(h.class as int, seq![h.offset] + free[h.class as int]);
    let head = head_of(free[h.class as int]);
    let new = splice(bytes, h.offset as int, le32(head));
    let list = free[k];
    assert(carved.contains_key(h.offset));
    block_facts(h.class as int);
    crate::bytes::le32_round_trip(head);
    // Links of blocks that were free stay as they were.
    assert forall|i: int| 0 <= i < list.len() implies #[trigger] link(new, list[i]) == link(
        bytes,
        list[i],
    ) by {
        assert(carved.contains_key(list[i]));
        assert(list[i] != h.offset);
        assert(apart(carved, list[i], h.offset));
        block_facts(k);
        assert(new.subrange(list[i] as int, list[i] + 4) =~= bytes.subrange(
            list[i] as int,
            list[i] + 4,
        ));
    }
    if k == h.class {
        let longer = after[k];
        assert forall|i: int| 0 <= i < longer.len() implies carved.contains_key(
            #[trigger] longer[i],
        ) && carved[longer[i]] == k && !live.remove(h.offset).contains_key(longer[i]) by {
            if i > 0 {
                assert(longer[i] == list[i - 1]);
                assert(carved.contains_key(list[i - 1]));
            }
        }
        assert(longer.no_duplicates()) by {
            assert forall|i: int, j: int| 0 <= i < longer.len() && 0 <= j < longer.len() && i
                != j implies longer[i] != longer[j] by {
                if i > 0 {
                    assert(longer[i] == list[i - 1]);
                    assert(!live.contains_key(list[i - 1]));
                }
                if j > 0 {
                    assert(longer[j] == list[j - 1]);
                    assert(!live.contains_key(list[j - 1]));
                }
            }
        }
        assert forall|i: int| 0 <= i < longer.len() implies #[trigger] linked(new, longer, i) by {
            if i == 0 {
                assert(longer.skip(1) =~= list);
                assert(new.subrange(h.offset as int, h.offset + 4) =~= le32(head));
            } else {
                assert(longer[i] == list[i - 1]);
                assert(linked(bytes, list, i - 1));
                assert(link(new, list[i - 1]) == link(bytes, list[i - 1]));
                assert(longer.skip(i + 1) =~= list.skip(i));
            }
        }
    } else {
        assert(after[k] == list);
        assert forall|i: int| 0 <= i < list.len() implies !live.remove(h.offset).contains_key(
            #[trigger] list[i],
        ) by {
            assert(!live.contains_key(list[i]));
        }
        assert forall|i: int| 0 <= i < list.len() implies #[trigger] linked(new, list, i) by {
            assert(linked(bytes, list, i));
            assert(link(new, list[i]) == link(bytes, list[i]));
        }
    }
}

/// Writing a live payload leaves the allocator as it is.
proof fn write_keeps(a: BlobAllocator, h: BlobHandle)
    requires
        a.inv(),
        a@.holds(h),
    ensures
        forall|b: BlobAllocator, new: Seq<u8>|
            new.len() == h.len && b == (BlobAllocator { arena: b.arena, ..a }) && b.arena@
                == #[trigger] splice(a.arena@, h.offset as int, new) ==> #[trigger] b.inv(),
{
    a.handle_fits(h);
    assert forall|b: BlobAllocator, new: Seq<u8>|
        new.len() == h.len && b == (BlobAllocator { arena: b.arena, ..a }) && b.arena@
            == #[trigger] splice(a.arena@, h.offset as int, new) implies #[trigger] b.inv() by {
        assert forall|k: int| 0 <= k < 13 implies #[trigger] free_ok(
            b.free@,
            b.carved@,
            b.live@,
            b.arena@,
            k,
        ) by {
            assert(free_ok(a.free@, a.carved@, a.live@, a.arena@, k));
            let list = a.free@[k];
            assert forall|i: int| 0 <= i < list.len() implies #[trigger] linked(
                b.arena@,
                list,
                i,
            ) by {
                assert(linked(a.arena@, list, i));
                assert(a.carved@.contains_key(list[i]));
                assert(a.live@.contains_key(h.offset));
                assert(apart(a.carved@, list[i], h.offset));
                block_facts(k);
                assert(b.arena@.subrange(list[i] as int, list[i] + 4) =~= a.arena@.subrange(
                    list[i] as int,
                    list[i] + 4,
                ));
            }
        }
    }
}

// ---- What the allocator promises ----

impl BlobAllocator {
    /// Live blobs never overlap, and lie below the high-water mark.
    pub proof fn live_blobs_are_apart(&self, a: BlobHandle, b: BlobHandle)
        requires
            self.inv(),
            self@.holds(a),
            self@.holds(b),
            a != b,
        ensures
            a.offset + block_bytes(a.class as int) <= b.offset || b.offset + block_bytes(
                b.class as int,
            ) <= a.offset,
            a.len <= block_bytes(a.class as int),
            a.offset + block_bytes(a.class as int) <= self@.high_water <= self@.capacity,
    {
        self.handle_fits(a);
        self.handle_fits(b);
        assert(apart(self.carved@, a.offset, b.offset));
    }

    /// Every byte below the high-water mark is in a live block or on a free
    /// list; once nothing is live, all of them are free again.
    pub proof fn nothing_leaks(&self)
        requires
            self.inv(),
        ensures
            0 <= self@.payload <= self@.high_water - free_bytes(self@.free, 13),
            self@.live.dom().len() == 0 ==> free_bytes(self@.free, 13) == self@.high_water
                && self@.payload == 0,
    {
        sums_of_live(self.roster@, self.live@, self.carved@);
    }
}

impl BlobAllocator {
    /// What every allocator has: a list of free blocks per class, and an arena
    /// of the declared capacity.
    pub proof fn facts(&self)
        requires
            self.inv(),
        ensures
            self@.free.len() == 13,
            self@.bytes.len() == self@.capacity,
            64 <= self@.capacity < u32::MAX,
            0 <= self@.high_water <= self@.capacity,
            self@.live.dom().finite(),
            forall|o: u32| #[trigger]
                self@.live.contains_key(o) ==> self@.live[o].offset == o && self@.live[o].class
                    < 13,
    {
        assert forall|o: u32| #[trigger] self@.live.contains_key(o) implies self@.live[o].offset
            == o && self@.live[o].class < 13 by {
            assert(self.carved@.contains_key(o));
        }
    }

    /// The published bytes are those of the live handles: their lengths, and
    /// their blocks.
    pub proof fn accounts_are_of_the_live(&self)
        requires
            self.inv(),
        ensures
            self@.payload == lens_below(self@.live, offset_end()),
            self@.high_water - free_bytes(self@.free, 13) == blocks_below(
                self@.live,
                offset_end(),
            ),
    {
        sums_are_of_the_live(self.roster@, self.live@);
    }

    /// A free block was carved, in its class, and is not live.
    proof fn free_block_facts(&self, k: int)
        requires
            self.inv(),
            0 <= k < free_blocks(self@.free, 0, 0).len(),
        ensures
            ({
                let (offset, class) = free_blocks(self@.free, 0, 0)[k];
                &&& class < 13
                &&& self.carved@.contains_key(offset)
                &&& self.carved@[offset] == class
                &&& !self.live@.contains_key(offset)
            }),
    {
        let (offset, class) = free_blocks(self@.free, 0, 0)[k];
        listed_free(self.free@, 0, 0, k);
        let i = choose|i: int|
            0 <= i < self.free@[class as int].len() && #[trigger] self.free@[class as int][i]
                == offset;
        assert(free_ok(self.free@, self.carved@, self.live@, self.arena@, class as int));
        assert(self.carved@.contains_key(self.free@[class as int][i]));
    }

    /// Free blocks never overlap, and lie below the high-water mark.
    pub proof fn free_blocks_are_apart(&self, a: int, b: int)
        requires
            self.inv(),
            0 <= a < b < free_blocks(self@.free, 0, 0).len(),
        ensures
            ({
                let x = free_blocks(self@.free, 0, 0)[a];
                let y = free_blocks(self@.free, 0, 0)[b];
                &&& x.0 + block_bytes(x.1 as int) <= y.0 || y.0 + block_bytes(y.1 as int) <= x.0
                &&& x.0 + block_bytes(x.1 as int) <= self@.high_water
                &&& y.0 + block_bytes(y.1 as int) <= self@.high_water
            }),
    {
        let x = free_blocks(self@.free, 0, 0)[a];
        let y = free_blocks(self@.free, 0, 0)[b];
        self.free_block_facts(a);
        self.free_block_facts(b);
        assert(x.0 != y.0) by {
            if x.0 == y.0 {
                assert(x.1 == y.1);
                assert(free_ok(self.free@, self.carved@, self.live@, self.arena@, x.1 as int));
                listed_once(self.free@, 0, 0, a, b);
            }
        }
        assert(apart(self.carved@, x.0, y.0));
    }

    /// No free block overlaps a live one.
    pub proof fn free_blocks_spare_the_live(&self, a: int, h: BlobHandle)
        requires
            self.inv(),
            0 <= a < free_blocks(self@.free, 0, 0).len(),
            self@.holds(h),
        ensures
            ({
                let x = free_blocks(self@.free, 0, 0)[a];
                x.0 + block_bytes(x.1 as int) <= h.offset || h.offset + block_bytes(h.class as int)
                    <= x.0
            }),
    {
        let x = free_blocks(self@.free, 0, 0)[a];
        self.free_block_facts(a);
        self.handle_fits(h);
        assert(apart(self.carved@, x.0, h.offset));
    }

    /// What is allocated was not live, and its block overlaps no live one.
    proof fn allocated_is_fresh(&self, len: u32, g: BlobHandle)
        requires
            self.inv(),
            self@.allocate(len) is Ok,
            self@.holds(g),
        ensures
            ({
                let h = (self@.allocate(len)->Ok_0).1;
                &&& h.offset != g.offset
                &&& h.offset + 4 <= self@.capacity
                &&& h.offset + block_bytes(h.class as int) <= g.offset || g.offset + block_bytes(
                    g.class as int,
                ) <= h.offset
            }),
    {
        let h = (self@.allocate(len)->Ok_0).1;
        let c = class_of(len as int);
        class_is_tight(len as int);
        block_facts(c);
        self.handle_fits(g);
        if self.free@[c].len() > 0 {
            assert(free_ok(self.free@, self.carved@, self.live@, self.arena@, c));
            assert(self.carved@.contains_key(self.free@[c][0]));
            assert(apart(self.carved@, h.offset, g.offset));
        }
    }

    /// Allocating and freeing again leaves every published number of the live
    /// blobs as it was, and every live blob with its bytes; and the block is
    /// the next one handed out for its class, without carving another.
    pub proof fn a_cycle_is_neutral(&self, len: u32, g: BlobHandle, again: u32)
        requires
            self.inv(),
            self@.allocate(len) is Ok,
            self@.holds(g),
            again <= BLOB_HARD_MAX,
            class_of(again as int) == class_of(len as int),
        ensures
            ({
                let (after, h) = self@.allocate(len)->Ok_0;
                let back = after.release(h);
                &&& back.live == self@.live
                &&& back.payload == self@.payload
                &&& back.high_water - free_bytes(back.free, 13) == self@.high_water - free_bytes(
                    self@.free,
                    13,
                )
                &&& back.data(g) == self@.data(g)
                &&& back.allocate(again) matches Ok((next, reused)) && reused.offset == h.offset
                    && reused.class == h.class && next.high_water == back.high_water
            }),
    {
        let (after, h) = self@.allocate(len)->Ok_0;
        self.allocated_is_fresh(len, g);
        class_is_tight(len as int);
        self.handle_fits(g);
        assert(!self@.live.contains_key(h.offset)) by {
            if self@.live.contains_key(h.offset) {
                self.facts();
                self.allocated_is_fresh(len, self@.live[h.offset]);
            }
        }
        allocate_then_free_is_neutral(self@, len);
        reuse_is_last_in_first_out(after, h, again);
        let back = after.release(h);
        crate::bytes::le32_round_trip(head_of(after.free[h.class as int]));
        block_facts(h.class as int);
        assert(back.data(g) =~= self@.data(g));
    }
}

/// Every entry of the list of free blocks stands on the free list of its class.
proof fn listed_free(free: Seq<Seq<u32>>, class: int, i: int, k: int)
    requires
        0 <= class,
        0 <= i,
        0 <= k < free_blocks(free, class, i).len(),
    ensures
        ({
            let (offset, c) = free_blocks(free, class, i)[k];
            &&& class <= c < 13
            &&& exists|x: int|
                (c == class ==> i <= x) && 0 <= x < free[c as int].len() && #[trigger] free[c as int][x]
                    == offset
        }),
    decreases 13 - class, free[class].len() - i,
{
    if class < 13 {
        if i < free[class].len() {
            if k == 0 {
                assert(free[class][i] == free_blocks(free, class, i)[0].0);
            } else {
                listed_free(free, class, i + 1, k - 1);
                assert(free_blocks(free, class, i)[k] == free_blocks(free, class, i + 1)[k - 1]);
            }
        } else {
            listed_free(free, class + 1, 0, k);
        }
    }
}

/// Within one class, no block is listed twice.
proof fn listed_once(free: Seq<Seq<u32>>, class: int, i: int, a: int, b: int)
    requires
        0 <= class,
        0 <= i,
        0 <= a < b < free_blocks(free, class, i).len(),
        free_blocks(free, class, i)[a].1 == free_blocks(free, class, i)[b].1,
        free[free_blocks(free, class, i)[a].1 as int].no_duplicates(),
    ensures
        free_blocks(free, class, i)[a].0 != free_blocks(free, class, i)[b].0,
    decreases 13 - class, free[class].len() - i,
{
    if class < 13 {
        let all = free_blocks(free, class, i);
        if i < free[class].len() {
            let rest = free_blocks(free, class, i + 1);
            assert(all[b] == rest[b - 1]);
            if a == 0 {
                listed_free(free, class, i + 1, b - 1);
            } else {
                assert(all[a] == rest[a - 1]);
                listed_once(free, class, i + 1, a - 1, b - 1);
            }
        } else {
            listed_once(free, class + 1, 0, a, b);
        }
    }
}

/// The bytes of a list of blocks.
pub open spec fn listed_bytes(blocks: Seq<(u32, u8)>) -> int
    decreases blocks.len(),
{
    if blocks.len() == 0 {
        0
    } else {
        block_bytes(blocks[0].1 as int) + listed_bytes(blocks.drop_first())
    }
}

proof fn listed_bytes_from(free: Seq<Seq<u32>>, class: int, i: int)
    requires
        0 <= class <= 13,
        0 <= i,
        class < 13 ==> i <= free[class].len(),
        class == 13 ==> i == 0,
    ensures
        listed_bytes(free_blocks(free, class, i)) == free_bytes(free, 13) - free_bytes(free, class)
            - i * block_bytes(class),
    decreases 13 - class, free[class].len() - i,
{
    if class < 13 {
        if i < free[class].len() {
            listed_bytes_from(free, class, i + 1);
            let all = free_blocks(free, class, i);
            assert(all.drop_first() =~= free_blocks(free, class, i + 1));
            assert((i + 1) * block_bytes(class) == i * block_bytes(class) + block_bytes(class))
                by (nonlinear_arith);
        } else {
            listed_bytes_from(free, class + 1, 0);
            assert(i == free[class].len());
        }
    }
}

/// The blocks that a visit of the free blocks sees are all the free bytes.
pub proof fn free_blocks_are_the_free_bytes(free: Seq<Seq<u32>>)
    ensures
        listed_bytes(free_blocks(free, 0, 0)) == free_bytes(free, 13),
{
    listed_bytes_from(free, 0, 0);
}

proof fn below_without(live: Map<u32, BlobHandle>, o: u32, end: int)
    requires
        live.contains_key(o),
        end <= offset_end(),
    ensures
        lens_below(live, end) == lens_below(live.remove(o), end) + (if o < end {
            live[o].len as int
        } else {
            0
        }),
        blocks_below(live, end) == blocks_below(live.remove(o), end) + (if o < end {
            block_bytes(live[o].class as int)
        } else {
            0
        }),
    decreases end,
{
    if end > 0 {
        below_without(live, o, end - 1);
    }
}

proof fn below_nothing(live: Map<u32, BlobHandle>, end: int)
    requires
        forall|o: u32| !#[trigger] live.contains_key(o),
    ensures
        lens_below(live, end) == 0,
        blocks_below(live, end) == 0,
    decreases end,
{
    if end > 0 {
        below_nothing(live, end - 1);
    }
}

/// The sums over the roster are those over the live handles.
proof fn sums_are_of_the_live(roster: Seq<BlobHandle>, live: Map<u32, BlobHandle>)
    requires
        roster_ok(roster, live),
    ensures
        sum_lens(roster) == lens_below(live, offset_end()),
        sum_blocks(roster) == blocks_below(live, offset_end()),
    decreases roster.len(),
{
    if roster.len() == 0 {
        assert forall|o: u32| !#[trigger] live.contains_key(o) by {
            if live.contains_key(o) {
                assert(roster.contains(live[o]));
            }
        }
        below_nothing(live, offset_end());
    } else {
        let i = roster.len() - 1;
        let h = roster[i];
        roster_remove(roster, live, i);
        assert(roster.remove(i) =~= roster.drop_last());
        sums_are_of_the_live(roster.drop_last(), live.remove(h.offset));
        below_without(live, h.offset, offset_end());
    }
}

/// A freed block is the next one handed out for its class, and no other is
/// carved.
pub proof fn reuse_is_last_in_first_out(z: Zone, h: BlobHandle, len: u32)
    requires
        z.free.len() == 13,
        h.class < 13,
        len <= BLOB_HARD_MAX,
        class_of(len as int) == h.class,
    ensures
        z.release(h).allocate(len) matches Ok((next, again)) && again.offset == h.offset
            && again.class == h.class && next.high_water == z.high_water,
{
}

/// Allocating and freeing again leaves the free lists and the live blobs as
/// they were, but for a block carved on the way; and the bytes in live blocks
/// in any case.
pub proof fn allocate_then_free_is_neutral(z: Zone, len: u32)
    requires
        z.free.len() == 13,
        z.allocate(len) is Ok,
        !z.live.contains_key((z.allocate(len)->Ok_0).1.offset),
    ensures
        ({
            let (after, h) = z.allocate(len)->Ok_0;
            let back = after.release(h);
            &&& back.live == z.live
            &&& back.payload == z.payload
            &&& back.high_water - free_bytes(back.free, 13) == z.high_water - free_bytes(z.free, 13)
            &&& z.free[class_of(len as int)].len() > 0 ==> back.free == z.free && back.high_water
                == z.high_water
        }),
{
    class_is_tight(len as int);
    let (after, h) = z.allocate(len)->Ok_0;
    let back = after.release(h);
    assert(back.live =~= z.live);
    let c = class_of(len as int);
    if z.free[c].len() > 0 {
        assert(seq![h.offset] + z.free[c].drop_first() =~= z.free[c]);
        assert(back.free =~= z.free);
    } else {
        let list = seq![h.offset] + z.free[c];
        free_bytes_update(z.free, c, list, 13);
        assert((list.len() - z.free[c].len()) * block_bytes(c) == block_bytes(c))
            by (nonlinear_arith)
            requires
                list.len() - z.free[c].len() == 1,
        ;
    }
}

/// An allocation wastes less than half its block, beyond the smallest class.
pub proof fn waste_is_bounded(len: u32)
    requires
        len <= BLOB_HARD_MAX,
    ensures
        block_bytes(class_of(len as int)) <= 64 || block_bytes(class_of(len as int)) < 2 * len,
{
    class_is_tight(len as int);
    let c = class_of(len as int);
    if c > 0 {
        assert(block_bytes(c) == 2 * block_bytes(c - 1));
    }
}

proof fn free_bytes_part(free: Seq<Seq<u32>>, m: int, n: int)
    requires
        0 <= m <= n <= 13,
    ensures
        free_bytes(free, m) <= free_bytes(free, n),
    decreases n - m,
{
    if m < n {
        free_bytes_part(free, m, n - 1);
        block_facts(n - 1);
        assert(free[n - 1].len() * block_bytes(n - 1) >= 0) by (nonlinear_arith)
            requires
                block_bytes(n - 1) >= 64,
        ;
    }
}

/// A block carved at the high-water mark overlaps none.
proof fn new_block(carved: Map<u32, u8>, offset: u32, class: u8, size: int)
    requires
        carved_ok(carved, offset as int),
        class < 13,
        size == block_bytes(class as int),
    ensures
        carved_ok(carved.insert(offset, class), offset + size),
{
    let new = carved.insert(offset, class);
    block_facts(class as int);
    assert forall|o: u32| #[trigger] new.contains_key(o) implies new[o] < 13 && o + block_bytes(
        new[o] as int,
    ) <= offset + size by {
        if o != offset {
            assert(carved.contains_key(o));
        }
    }
    assert forall|a: u32, b: u32|
        #[trigger] new.contains_key(a) && #[trigger] new.contains_key(b) && a != b implies apart(
        new,
        a,
        b,
    ) by {
        if a != offset {
            assert(carved.contains_key(a));
        }
        if b != offset {
            assert(carved.contains_key(b));
        }
        if a != offset && b != offset {
            assert(apart(carved, a, b));
        }
    }
}

proof fn sums_of_live(roster: Seq<BlobHandle>, live: Map<u32, BlobHandle>, carved: Map<u32, u8>)
    requires
        roster_ok(roster, live),
        live_ok(live, carved),
    ensures
        0 <= sum_lens(roster) <= sum_blocks(roster),
{
    assert forall|i: int| 0 <= i < roster.len() implies (#[trigger] roster[i]).class < 13
        && roster[i].len <= block_bytes(roster[i].class as int) by {
        assert(live.contains_key(roster[i].offset));
        class_is_tight(roster[i].len as int);
    }
    sums_bound(roster);
}

proof fn live_count_bound(
    roster: Seq<BlobHandle>,
    live: Map<u32, BlobHandle>,
    carved: Map<u32, u8>,
    high_water: int,
)
    requires
        roster_ok(roster, live),
        live_ok(live, carved),
    ensures
        roster.len() <= u32::MAX + 1,
{
    let offsets = Seq::new(roster.len(), |i: int| roster[i].offset as int);
    assert forall|i: int, j: int| 0 <= i < offsets.len() && 0 <= j < offsets.len() && i
        != j implies offsets[i] != offsets[j] by {
        if i < j {
            assert(roster[i].offset != roster[j].offset);
        } else {
            assert(roster[j].offset != roster[i].offset);
        }
    }
    crate::probe::pigeonhole(offsets, u32::MAX + 1);
}

proof fn roster_push(roster: Seq<BlobHandle>, live: Map<u32, BlobHandle>, h: BlobHandle)
    requires
        roster_ok(roster, live),
        !live.contains_key(h.offset),
    ensures
        roster_ok(roster.push(h), live.insert(h.offset, h)),
{
    let new = live.insert(h.offset, h);
    let all = roster.push(h);
    assert forall|i: int| 0 <= i < all.len() implies new.contains_key((#[trigger] all[i]).offset)
        && new[all[i].offset] == all[i] by {
        if i < roster.len() {
            assert(live.contains_key(roster[i].offset));
        }
    }
    assert forall|i: int, j: int| 0 <= i < j < all.len() implies (#[trigger] all[i]).offset != (
    #[trigger] all[j]).offset by {
        if j < roster.len() {
            assert(roster[i].offset != roster[j].offset);
        } else {
            assert(live.contains_key(roster[i].offset));
        }
    }
    assert forall|o: u32| #[trigger] new.contains_key(o) implies new[o].offset == o && all.contains(
        new[o],
    ) by {
        if o == h.offset {
            assert(all[roster.len() as int] == h);
        } else {
            assert(roster.contains(live[o]));
            let i = choose|i: int| 0 <= i < roster.len() && roster[i] == live[o];
            assert(all[i] == live[o]);
        }
    }
}

proof fn free_after_alloc(
    free: Seq<Seq<u32>>,
    after: Seq<Seq<u32>>,
    carved: Map<u32, u8>,
    more: Map<u32, u8>,
    live: Map<u32, BlobHandle>,
    h: BlobHandle,
    bytes: Seq<u8>,
    k: int,
)
    requires
        0 <= k < free.len() == after.len(),
        free_ok(free, carved, live, bytes, k),
        forall|o: u32| #[trigger]
            carved.contains_key(o) ==> more.contains_key(o) && more[o] == carved[o],
        after[k] == free[k] || (k == h.class && free[k].len() > 0 && h.offset == free[k][0]
            && after[k] == free[k].drop_first()),
        after[k] == free[k] ==> !(carved.contains_key(h.offset) && carved[h.offset] == k),
    ensures
        free_ok(after, more, live.insert(h.offset, h), bytes, k),
{
    let list = free[k];
    assert forall|i: int| 0 <= i < after[k].len() implies more.contains_key(
        #[trigger] after[k][i],
    ) && more[after[k][i]] == k && !live.insert(h.offset, h).contains_key(after[k][i]) by {
        if after[k] == list {
            assert(carved.contains_key(list[i]));
        } else {
            assert(after[k][i] == list[i + 1]);
            assert(carved.contains_key(list[i + 1]));
            assert(list[0] != list[i + 1]);
        }
    }
    assert forall|i: int| 0 <= i < after[k].len() implies #[trigger] linked(bytes, after[k], i) by {
        if after[k] == list {
            assert(linked(bytes, list, i));
        } else {
            assert(linked(bytes, list, i + 1));
            assert(list.drop_first().skip(i + 1) =~= list.skip(i + 2));
        }
    }
}

/// The blocks of a class are 64 bytes, doubled as often as the class says.
pub proof fn blocks_double_from_class_to_class(class: nat)
    ensures
        block_bytes(class as int) == 64 * vstd::arithmetic::power2::pow2(class),
    decreases class,
{
    if class == 0 {
        vstd::arithmetic::power2::lemma2_to64();
    } else {
        blocks_double_from_class_to_class((class - 1) as nat);
        vstd::arithmetic::power2::lemma_pow2_unfold(class);
    }
}

/// An allocation fails only if the value is over the ceiling, or if the zone has
/// no block for it: neither a free one of the smallest class that holds it, nor
/// room to carve one. Otherwise it hands out such a block, a free one first, for
/// a value of just this length, and leaves the bytes and the other blobs alone.
pub proof fn an_allocation_fails_only_for_want_of_room(z: Zone, len: u32)
    requires
        z.free.len() == 13,
        0 <= z.high_water <= z.capacity <= u32::MAX,
    ensures
        ({
            let class = class_of(len as int);
            let size = block_bytes(class);
            match z.allocate(len) {
                Err(BlobError::TooLarge { len: l, hard_max }) => l == len && hard_max == 262_144
                    && len > 262_144,
                Err(BlobError::Full { block_bytes: b, capacity }) => {
                    &&& len <= 262_144
                    &&& b == size
                    &&& capacity == z.capacity
                    &&& z.free[class].len() == 0
                    &&& z.capacity - z.high_water < size
                },
                Ok((next, h)) => {
                    &&& len <= 262_144
                    &&& h.len == len
                    &&& size >= len && (class > 0 ==> size / 2 < len)
                    &&& h.class == class
                    &&& next.live == z.live.insert(h.offset, h)
                    &&& next.bytes == z.bytes
                    &&& next.capacity == z.capacity
                    &&& next.payload == z.payload + len
                    &&& if z.free[class].len() > 0 {
                        &&& h.offset == z.free[class][0]
                        &&& next.high_water == z.high_water
                    } else {
                        &&& h.offset == z.high_water
                        &&& next.high_water == z.high_water + size
                        &&& next.free == z.free
                    }
                },
            }
        }),
{
    if len <= 262_144 {
        class_is_tight(len as int);
        block_facts(class_of(len as int));
    }
}

} // verus!
