//! The committed rows in memory, and the indices over them.
//!
//! Everything here is sized once, when the engine is made. The tables are a
//! pure function of the log: each of their three changes (a run taken in, a
//! deletion, rows set aside) is the change of the same name in the log's
//! model.

use crate::btree::BTreeIndex;
use crate::bytes::{get_u64, put};
use crate::engine::log::{
    bytes_of, bytes_same, continues, dead_counts, delete_wf, empty_wf, extent, extent_facts, extent_from, is_run,
    lookup, quarantine_wf, store_wf, value_at, Db, Log,
};
use crate::probe;
use crate::slot::{decode_slot, encode_slot, slot_image, slot_parsed, RowKind, RowSlot, Slot};
use crate::trigram::{Indexed, TrigramIndex};
use vstd::prelude::*;
use vstd::slice::slice_subrange;

pub mod reads;

verus! {

/// Row `r` of an arena.
pub open spec fn arena_row(arena: Seq<u8>, r: int) -> Option<Slot> {
    slot_parsed(row_bytes(arena, r))
}

/// The arena's first rows are these.
pub open spec fn arena_holds(arena: Seq<u8>, kept: Log) -> bool {
    forall|r: int| 0 <= r < kept.len() ==> #[trigger] arena_row(arena, r) == kept[r]
}

/// The slot that probing for an id starts from, in a table of `n` slots.
pub open spec fn id_home(id: u64, n: nat) -> int {
    ((id ^ (id >> 32)).wrapping_mul(0x9E37_79B9_7F4A_7C15) as usize & (n - 1) as usize) as int
}

spec fn home(n: nat) -> spec_fn(u64) -> int {
    |id: u64| id_home(id, n)
}

/// The ids in a hash table, slot by slot. An entry is a row plus one; zero
/// is an empty slot.
spec fn keys_of(index: Seq<u64>, kept: Log) -> Seq<Option<u64>> {
    Seq::new(
        index.len(),
        |i: int|
            if index[i] == 0 {
                None
            } else {
                Some((kept[index[i] - 1]->0).id)
            },
    )
}

/// The entry of slot `i` names the row that its id is bound to.
spec fn entry_ok(index: Seq<u64>, kept: Log, bound: Map<u64, u64>, i: int) -> bool {
    index[i] > 0 ==> {
        let row = index[i] - 1;
        &&& row < kept.len()
        &&& kept[row] is Some
        &&& bound.contains_key((kept[row]->0).id)
        &&& bound[(kept[row]->0).id] == row
    }
}

spec fn index_ok(index: Seq<u64>, kept: Log, bound: Map<u64, u64>) -> bool {
    &&& probe::probed(keys_of(index, kept), home(index.len()))
    &&& forall|i: int| 0 <= i < index.len() ==> #[trigger] entry_ok(index, kept, bound, i)
    &&& forall|id: u64| #[trigger]
        bound.contains_key(id) ==> keys_of(index, kept).contains(Some(id))
}

spec fn bit(bits: Seq<u64>, r: int) -> bool {
    bits[r / 64] & (1u64 << (r % 64) as u64) != 0
}

/// Exactly the live rows' bits are set.
spec fn bits_ok(bits: Seq<u64>, db: Db, rows: int) -> bool {
    forall|r: int| 0 <= r < rows ==> #[trigger] bit(bits, r) == db.is_live(r)
}

pub struct Tables {
    rows: u64,
    arena: Vec<u8>,
    index: Vec<u64>,
    ordered: BTreeIndex,
    trigram: TrigramIndex,
    live_bits: Vec<u64>,
    live_count: u64,
    retired: u64,
    tombstones: u64,
    chunks: u64,
    lost: u64,
    long_values: u64,
    quarantined: u64,
    db: Ghost<Db>,
}

impl View for Tables {
    type V = Db;

    closed spec fn view(&self) -> Db {
        self.db@
    }
}

/// The row capacities that the tables can be made for.
pub open spec fn sizeable(rows: u64) -> bool {
    &&& rows > 0
    &&& 32 * rows <= usize::MAX
    &&& 16 * rows <= u32::MAX
}

impl Tables {
    /// The row capacity.
    pub closed spec fn capacity(&self) -> u64 {
        self.rows
    }

    /// The bytes of the rows, committed or staged.
    pub closed spec fn bytes(&self) -> Seq<u8> {
        self.arena@
    }

    /// The size of the id table.
    pub closed spec fn table_size(&self) -> nat {
        self.index@.len()
    }

    spec fn sized(&self) -> bool {
        &&& sizeable(self.rows)
        &&& self.arena@.len() == 32 * self.rows
        &&& self.index@.len() >= 2 * self.rows
        &&& probe::is_pow2(self.index@.len() as int)
        &&& self.live_bits@.len() == (self.rows + 63) / 64
        &&& self.ordered.inv()
        &&& self.ordered.pool_nodes() == self.rows / 3 + 16
        &&& self.trigram.inv()
        &&& self.trigram.capacity() == self.rows
    }

    spec fn counted(&self, db: Db) -> bool {
        &&& self.live_count == db.live.dom().len()
        &&& self.retired == db.retired
        &&& self.tombstones == db.tombstones
        &&& self.chunks == db.chunks
        &&& self.lost == db.lost
        &&& self.long_values == db.long_values
        &&& self.quarantined == db.quarantined
    }

    /// The tables hold what the log amounts to.
    pub closed spec fn inv(&self) -> bool {
        let db = self.db@;
        &&& self.sized()
        &&& db.wf()
        &&& db.kept.len() <= self.rows
        &&& arena_holds(self.arena@, db.kept)
        &&& index_ok(self.index@, db.kept, db.bound)
        &&& self.ordered@ == db.bound
        &&& self.trigram@ == (Indexed { values: db.values, rows: db.kept.len() as int })
        &&& bits_ok(self.live_bits@, db, self.rows as int)
        &&& self.counted(db)
    }

    /// What the invariant says of the log and of the sizes.
    pub proof fn facts(&self)
        requires
            self.inv(),
        ensures
            self@.wf(),
            self@.kept.len() <= self.capacity(),
            sizeable(self.capacity()),
            self.bytes().len() == 32 * self.capacity(),
            arena_holds(self.bytes(), self@.kept),
    {
    }

    pub fn new(rows: u64) -> (t: Self)
        requires
            sizeable(rows),
        ensures
            t.inv(),
            t@ == Db::empty(),
            t.capacity() == rows,
            t.table_size() >= 2 * rows,
            probe::is_pow2(t.table_size() as int),
            t.table_size() < 4 * rows,
            forall|r: int| 0 <= r < rows ==> (#[trigger] arena_row(t.bytes(), r)) is None,
    {
        let n: usize = rows as usize;
        let index_len: usize = match probe::next_power_of_two(2 * n) {
            Some(p) => p,
            None => {
                proof {
                    let q = probe::pow2_above(2 * n as int);
                }
                0
            },
        };
        proof {
            assert(index_len >= 2 * n && index_len < 4 * n);
        }
        let words: usize = (n + 63) / 64;
        let t = Tables {
            rows,
            arena: vec![0u8; 32 * n],
            index: vec![0u64; index_len],
            ordered: BTreeIndex::new(rows),
            trigram: TrigramIndex::new(rows),
            live_bits: vec![0u64; words],
            live_count: 0,
            retired: 0,
            tombstones: 0,
            chunks: 0,
            lost: 0,
            long_values: 0,
            quarantined: 0,
            db: Ghost(Db::empty()),
        };
        proof {
            empty_wf();
            let keys = keys_of(t.index@, t.db@.kept);
            assert forall|k: u64| 0 <= #[trigger] home(t.index@.len())(k) < keys.len() by {
                home_bound(k, t.index@.len());
            }
            probe::empty_probed(keys, home(t.index@.len()));
            assert forall|r: int| 0 <= r < rows implies (#[trigger] arena_row(
                t.arena@,
                r,
            )) is None by {
                assert(row_bytes(t.arena@, r)[24] == 0);
            }
            assert forall|r: int| 0 <= r < rows implies #[trigger] bit(t.live_bits@, r)
                == t.db@.is_live(r) by {
                let b = (r % 64) as u64;
                assert(0u64 & (1u64 << b) == 0) by (bit_vector);
            }
        }
        t
    }

    /// Which slot an id's probing starts from.
    pub fn hash_slot(&self, id: u64) -> (slot: usize)
        requires
            self.inv(),
        ensures
            slot == id_home(id, self.table_size()),
            slot < self.table_size(),
    {
        let h: u64 = (id ^ (id >> 32)).wrapping_mul(0x9E37_79B9_7F4A_7C15);
        let len: usize = self.index.len();
        proof {
            home_bound(id, len as nat);
        }
        (h as usize) & (len - 1)
    }

    pub fn index_len(&self) -> (n: usize)
        ensures
            n == self.table_size(),
    {
        self.index.len()
    }

    /// The slot in row `row` of the arena.
    pub fn row_at(&self, row: u64) -> (slot: Option<RowSlot>)
        requires
            self.inv(),
            row < self.capacity(),
        ensures
            match slot {
                Some(s) => arena_row(self.bytes(), row as int) == Some(s@),
                None => arena_row(self.bytes(), row as int) is None,
            },
            row < self@.kept.len() ==> match slot {
                Some(s) => self@.kept[row as int] == Some(s@),
                None => self@.kept[row as int] is None,
            },
    {
        let off: usize = row as usize * 32;
        let slot = decode_slot(slice_subrange(self.arena.as_slice(), off, off + 32));
        assert(arena_row(self.arena@, row as int) == slot_parsed(
            self.arena@.subrange(32 * row, 32 * row + 32),
        ));
        slot
    }

    fn row_id_at(&self, row: u64) -> (id: u64)
        requires
            self.inv(),
            row < self@.kept.len(),
            self@.kept[row as int] is Some,
        ensures
            id == (self@.kept[row as int]->0).id,
    {
        let off: usize = row as usize * 32;
        let id: u64 = get_u64(self.arena.as_slice(), off);
        proof {
            let bytes = self.arena@.subrange(32 * row, 32 * row + 32);
            assert(arena_row(self.arena@, row as int) == slot_parsed(bytes));
            assert(bytes.take(8) =~= self.arena@.subrange(off as int, off + 8));
        }
        id
    }

    /// The row that an id is bound to, live or not.
    fn index_lookup(&self, id: u64) -> (row: Option<u64>)
        requires
            self.inv(),
        ensures
            row == lookup(self@.bound, id),
    {
        let ghost db = self.db@;
        let ghost keys = keys_of(self.index@, db.kept);
        let ghost h = home(self.index@.len());
        let ghost n = self.index@.len() as int;
        let mut slot: usize = self.hash_slot(id);
        let mut d: usize = 0;
        while d < self.index.len()
            invariant
                self.inv(),
                db == self.db@,
                keys == keys_of(self.index@, db.kept),
                h == home(self.index@.len()),
                n == self.index@.len(),
                0 <= d <= n,
                0 <= h(id) < n,
                d < n ==> slot == probe::at(h(id), d as int, n),
                forall|e: int|
                    0 <= e < d ==> (#[trigger] keys[probe::at(h(id), e, n)]) is Some && keys[probe::at(
                        h(id),
                        e,
                        n,
                    )] != Some(id),
            decreases n - d,
        {
            let entry: u64 = self.index[slot];
            assert(keys[slot as int] == keys[probe::at(h(id), d as int, n)]);
            if entry == 0 {
                proof {
                    probe::miss(keys, h, id, d as int);
                    if db.bound.contains_key(id) {
                        assert(keys.contains(Some(id)));
                    }
                }
                return None;
            }
            proof {
                assert(entry_ok(self.index@, db.kept, db.bound, slot as int));
            }
            if self.row_id_at(entry - 1) == id {
                return Some(entry - 1);
            }
            slot = if slot + 1 == self.index.len() {
                0
            } else {
                slot + 1
            };
            d = d + 1;
        }
        proof {
            not_full(self.index@, db.kept, db.bound, h(id));
        }
        None
    }

    /// Does a live value start in this row?
    fn is_live(&self, row: u64) -> (yes: bool)
        requires
            self.inv(),
        ensures
            yes == self@.is_live(row as int),
    {
        if row >= self.rows {
            return false;
        }
        let word: u64 = self.live_bits[(row / 64) as usize];
        assert(bit(self.live_bits@, row as int) == self.db@.is_live(row as int));
        word & (1u64 << (row % 64)) != 0
    }

    /// The row in which an id's live value starts.
    pub fn live_row_of(&self, id: u64) -> (row: Option<u64>)
        requires
            self.inv(),
        ensures
            row == lookup(self@.live, id),
    {
        match self.index_lookup(id) {
            None => {
                assert(!self@.live.contains_key(id));
                None
            },
            Some(row) => {
                assert(self@.heads(self@.bound[id] as int, id));
                if self.is_live(row) {
                    Some(row)
                } else {
                    assert(!self@.live.contains_key(id));
                    None
                }
            },
        }
    }

    /// The slot of the id table that binding `id` will fill: the one that
    /// already names it, or the first empty one on its way.
    fn bind_slot(&self, id: u64) -> (slot: usize)
        requires
            self.inv(),
        ensures
            slot < self.table_size(),
            bindable(self.index@, self@.kept, id, slot as int),
    {
        let ghost db = self.db@;
        let ghost keys = keys_of(self.index@, db.kept);
        let ghost h = home(self.index@.len());
        let ghost n = self.index@.len() as int;
        let mut slot: usize = self.hash_slot(id);
        let mut d: usize = 0;
        while d < self.index.len()
            invariant
                self.inv(),
                db == self.db@,
                keys == keys_of(self.index@, db.kept),
                h == home(self.index@.len()),
                n == self.index@.len(),
                0 <= d <= n,
                0 <= h(id) < n,
                d < n ==> slot == probe::at(h(id), d as int, n),
                forall|e: int|
                    0 <= e < d ==> (#[trigger] keys[probe::at(h(id), e, n)]) is Some && keys[probe::at(
                        h(id),
                        e,
                        n,
                    )] != Some(id),
            decreases n - d,
        {
            let entry: u64 = self.index[slot];
            assert(keys[slot as int] == keys[probe::at(h(id), d as int, n)]);
            if entry == 0 {
                proof {
                    probe::miss(keys, h, id, d as int);
                    probe::put(keys, h, id, d as int);
                }
                return slot;
            }
            proof {
                assert(entry_ok(self.index@, db.kept, db.bound, slot as int));
            }
            if self.row_id_at(entry - 1) == id {
                assert(keys.update(slot as int, Some(id)) =~= keys);
                return slot;
            }
            slot = if slot + 1 == self.index.len() {
                0
            } else {
                slot + 1
            };
            d = d + 1;
        }
        proof {
            not_full(self.index@, db.kept, db.bound, h(id));
        }
        0
    }

    /// Set or clear a row's bit.
    fn set_live(&mut self, row: u64, live: bool)
        requires
            row / 64 < old(self).live_bits@.len(),
        ensures
            *final(self) == (Tables { live_bits: final(self).live_bits, ..*old(self) }),
            final(self).live_bits@.len() == old(self).live_bits@.len(),
            forall|r: int|
                0 <= r && r / 64 < old(self).live_bits@.len() ==> #[trigger] bit(
                    final(self).live_bits@,
                    r,
                ) == (if r == row {
                    live
                } else {
                    bit(old(self).live_bits@, r)
                }),
    {
        let at: usize = (row / 64) as usize;
        let b: u64 = row % 64;
        let mask: u64 = 1u64 << b;
        let w: u64 = self.live_bits[at];
        let new: u64 = if live {
            w | mask
        } else {
            w & !mask
        };
        self.live_bits.set(at, new);
        proof {
            assert forall|r: int| 0 <= r && r / 64 < old(self).live_bits@.len() implies #[trigger] bit(
                self.live_bits@,
                r,
            ) == (if r == row {
                live
            } else {
                bit(old(self).live_bits@, r)
            }) by {
                let j = (r % 64) as u64;
                if r / 64 == at {
                    assert(((w | (1u64 << b)) & (1u64 << j) != 0) == (j == b || w & (1u64 << j)
                        != 0)) by (bit_vector)
                        requires
                            j < 64,
                            b < 64,
                    ;
                    assert(((w & !(1u64 << b)) & (1u64 << j) != 0) == (j != b && w & (1u64 << j)
                        != 0)) by (bit_vector)
                        requires
                            j < 64,
                            b < 64,
                    ;
                }
            }
        }
    }

    /// Join the payloads of a run's rows. Says how many bytes there are.
    fn assemble(&self, head: u64, rows: u64, out: &mut [u8; 2048], Ghost(run): Ghost<Log>) -> (n:
        usize)
        requires
            sizeable(self.rows),
            self.arena@.len() == 32 * self.rows,
            head + rows <= self.rows,
            rows == run.len() <= 128,
            run_in(self.arena@, head as int, run),
        ensures
            n <= 16 * rows,
            final(out)@.take(n as int) == bytes_of(run, 0, rows as int),
    {
        let mut n: usize = 0;
        let mut k: u64 = 0;
        assert(out@.take(0) =~= bytes_of(run, 0, 0));
        while k < rows
            invariant
                sizeable(self.rows),
                self.arena@.len() == 32 * self.rows,
                head + rows <= self.rows,
                rows == run.len() <= 128,
                run_in(self.arena@, head as int, run),
                k <= rows,
                n <= 16 * k,
                out@.len() == 2048,
                out@.take(n as int) == bytes_of(run, 0, k as int),
            decreases rows - k,
        {
            assert(arena_row(self.arena@, head + k) == run[k as int]);
            let slot = decode_at(self.arena.as_slice(), head + k);
            match slot {
                Some(s) => {
                    let ghost before = out@;
                    let len: usize = s.len as usize;
                    put(out, n, slice_subrange(&s.value, 0, len));
                    proof {
                        assert(s@ == run[k as int]->0);
                        assert(out@.take(n + len) =~= before.take(n as int) + s@.payload());
                    }
                    n = n + len;
                },
                None => {},
            }
            k = k + 1;
        }
        n
    }

    /// Take in the run that starts in the first free row. Its rows are in the
    /// arena already.
    #[verifier::rlimit(60)]
    #[verifier::spinoff_prover]
    pub fn store_run(&mut self, rows: u64, id: u64, superseded: Option<u64>, Ghost(run): Ghost<Log>)
        requires
            old(self).inv(),
            is_run(run),
            run.len() == rows,
            (run[0]->0).id == id,
            old(self)@.kept.len() + rows <= old(self).capacity(),
            run_in(old(self).bytes(), old(self)@.kept.len() as int, run),
            superseded == lookup(old(self)@.live, id),
        ensures
            final(self).inv(),
            final(self)@ == old(self)@.store(run),
            final(self).bytes() == old(self).bytes(),
            final(self).capacity() == old(self).capacity(),
            final(self).table_size() == old(self).table_size(),
    {
        let ghost db = self.db@;
        let ghost d = db.store(run);
        let row: u64 = self.trigram.len();
        proof {
            store_wf(db, run);
        }
        let mut value: [u8; 2048] = [0u8; 2048];
        let len: usize = self.assemble(row, rows, &mut value, Ghost(run));
        let slot: usize = self.bind_slot(id);
        let trailing: u64 = match superseded {
            Some(old_row) => {
                assert(db.heads(db.bound[id] as int, id));
                self.value_extent(old_row).0 - 1
            },
            None => 0,
        };
        proof {
            dead_counts(d);
        }
        if let Some(old_row) = superseded {
            assert(db.heads(db.bound[id] as int, id));
            self.set_live(old_row, false);
            self.retired = self.retired + 1;
            self.lost = self.lost + trailing;
        } else {
            self.live_count = self.live_count + 1;
        }
        self.set_live(row, true);
        let ghost index = self.index@;
        self.index.set(slot, row + 1);
        if !self.ordered.repoint(id, row) {
            proof {
                self.ordered.declared_rows_fit(self.rows, id);
            }
            self.ordered.insert(id, row);
        }
        self.trigram.insert_value(row, rows, slice_subrange(&value, 0, len));
        if rows > 1 {
            self.long_values = self.long_values + 1;
        }
        self.chunks = self.chunks + (rows - 1);
        self.db = Ghost(d);
        proof {
            assert(value@.subrange(0, len as int) =~= value@.take(len as int));
            assert(arena_holds(self.arena@, d.kept)) by {
                assert forall|r: int| 0 <= r < d.kept.len() implies #[trigger] arena_row(
                    self.arena@,
                    r,
                ) == d.kept[r] by {
                    if r >= row {
                        assert(arena_row(self.arena@, row + (r - row)) == run[r - row]);
                    } else {
                        assert(arena_row(self.arena@, r) == db.kept[r]);
                    }
                }
            }
            rebound(index, db.kept, db.bound, id, slot as int, row, d.kept);
            assert(bits_ok(self.live_bits@, d, self.rows as int)) by {
                assert forall|r: int| 0 <= r < self.rows implies #[trigger] bit(
                    self.live_bits@,
                    r,
                ) == d.is_live(r) by {
                    assert(bit(old(self).live_bits@, r) == db.is_live(r));
                    store_live(db, run, r);
                }
            }
            if db.live.contains_key(id) {
                assert(d.live.dom() =~= db.live.dom());
            }
        }
    }

    /// Take in the tombstone in the first free row: the value that starts in
    /// `record_row` is live no more.
    #[verifier::rlimit(40)]
    pub fn delete_row(&mut self, record_row: u64, Ghost(slot): Ghost<Slot>)
        requires
            old(self).inv(),
            slot.valid(),
            slot.kind == RowKind::Tombstone,
            lookup(old(self)@.live, slot.id) == Some(record_row),
            old(self)@.kept.len() < old(self).capacity(),
            arena_row(old(self).bytes(), old(self)@.kept.len() as int) == Some(slot),
        ensures
            final(self).inv(),
            final(self)@ == old(self)@.delete(slot),
            final(self).bytes() == old(self).bytes(),
            final(self).capacity() == old(self).capacity(),
            final(self).table_size() == old(self).table_size(),
    {
        let ghost db = self.db@;
        let ghost d = db.delete(slot);
        let row: u64 = self.trigram.len();
        proof {
            delete_wf(db, slot);
            assert(db.heads(db.bound[slot.id] as int, slot.id));
            assert(db.live.dom().contains(slot.id));
            assert(db.live.dom().len() > 0) by {
                if db.live.dom().len() == 0 {
                    assert(db.live.dom() =~= Set::empty());
                }
            }
        }
        let trailing: u64 = self.value_extent(record_row).0 - 1;
        proof {
            dead_counts(d);
        }
        self.set_live(record_row, false);
        self.trigram.skip_row(row);
        self.lost = self.lost + trailing;
        self.live_count = self.live_count - 1;
        self.retired = self.retired + 1;
        self.tombstones = self.tombstones + 1;
        self.db = Ghost(d);
        proof {
            assert forall|r: int| 0 <= r < d.kept.len() implies #[trigger] arena_row(
                self.arena@,
                r,
            ) == d.kept[r] by {
                if r < row {
                    assert(arena_row(self.arena@, r) == db.kept[r]);
                }
            }
            grown(self.index@, db.kept, db.bound, d.kept);
            assert forall|r: int| 0 <= r < self.rows implies #[trigger] bit(self.live_bits@, r)
                == d.is_live(r) by {
                assert(bit(old(self).live_bits@, r) == db.is_live(r));
                if r < row {
                    assert(d.kept[r] == db.kept[r]);
                }
            }
            assert(d.live.dom() =~= db.live.dom().remove(slot.id));
        }
    }

    /// Set the first `n` free rows aside. What the arena has there must not
    /// read as a row.
    #[verifier::rlimit(40)]
    pub fn quarantine_rows(&mut self, n: u64)
        requires
            old(self).inv(),
            n >= 1,
            old(self)@.kept.len() + n <= old(self).capacity(),
            forall|r: int|
                old(self)@.kept.len() <= r < old(self)@.kept.len() + n ==> (#[trigger] arena_row(
                    old(self).bytes(),
                    r,
                )) is None,
        ensures
            final(self).inv(),
            final(self)@ == old(self)@.quarantine(n as int),
            final(self).bytes() == old(self).bytes(),
            final(self).capacity() == old(self).capacity(),
            final(self).table_size() == old(self).table_size(),
    {
        let ghost db = self.db@;
        let ghost d = db.quarantine(n as int);
        proof {
            quarantine_wf(db, n as int);
        }
        let row: u64 = self.trigram.len();
        let mut k: u64 = 0;
        while k < n
            invariant
                k <= n,
                row == db.kept.len(),
                row + n <= self.rows,
                self.trigram.inv(),
                self.trigram.capacity() == self.rows,
                self.trigram@ == (Indexed { values: db.values, rows: row + k }),
                *self == (Tables { trigram: self.trigram, ..*old(self) }),
            decreases n - k,
        {
            self.trigram.skip_row(row + k);
            k = k + 1;
        }
        self.quarantined = self.quarantined + n;
        self.db = Ghost(d);
        proof {
            assert forall|r: int| 0 <= r < d.kept.len() implies #[trigger] arena_row(
                self.arena@,
                r,
            ) == d.kept[r] by {
                if r < row {
                    assert(arena_row(self.arena@, r) == db.kept[r]);
                } else {
                    assert(arena_row(old(self).bytes(), r) is None);
                    assert(d.kept[r] is None);
                }
            }
            grown(self.index@, db.kept, db.bound, d.kept);
            assert forall|r: int| 0 <= r < self.rows implies #[trigger] bit(self.live_bits@, r)
                == d.is_live(r) by {
                assert(bit(old(self).live_bits@, r) == db.is_live(r));
                if r < row {
                    assert(d.kept[r] == db.kept[r]);
                }
            }
        }
    }

    /// Put 32 bytes into a free row.
    pub fn write_row(&mut self, row: u64, src: &[u8])
        requires
            old(self).inv(),
            old(self)@.kept.len() <= row < old(self).capacity(),
            src@.len() == 32,
        ensures
            final(self).inv(),
            final(self)@ == old(self)@,
            final(self).capacity() == old(self).capacity(),
            final(self).table_size() == old(self).table_size(),
            final(self).bytes().len() == old(self).bytes().len(),
            row_bytes(final(self).bytes(), row as int) == src@,
            forall|r: int|
                0 <= r < old(self).capacity() && r != row ==> #[trigger] row_bytes(
                    final(self).bytes(),
                    r,
                ) == row_bytes(old(self).bytes(), r),
    {
        let off: usize = row as usize * 32;
        let mut k: usize = 0;
        while k < 32
            invariant
                k <= 32,
                sizeable(self.rows),
                row < self.rows,
                off == 32 * row,
                src@.len() == 32,
                self.arena@.len() == 32 * self.rows,
                *self == (Tables { arena: self.arena, ..*old(self) }),
                old(self).arena@.len() == 32 * self.rows,
                forall|i: int|
                    0 <= i < self.arena@.len() ==> #[trigger] self.arena@[i] == (if off <= i < off + k {
                        src@[i - off]
                    } else {
                        old(self).arena@[i]
                    }),
            decreases 32 - k,
        {
            self.arena.set(off + k, src[k]);
            k = k + 1;
        }
        proof {
            assert(row_bytes(self.arena@, row as int) =~= src@);
            assert forall|r: int| 0 <= r < old(self).rows && r != row implies #[trigger] row_bytes(
                self.arena@,
                r,
            ) == row_bytes(old(self).arena@, r) by {
                assert(row_bytes(self.arena@, r) =~= row_bytes(old(self).arena@, r));
            }
            assert forall|r: int| 0 <= r < self.db@.kept.len() implies #[trigger] arena_row(
                self.arena@,
                r,
            ) == self.db@.kept[r] by {
                assert(row_bytes(self.arena@, r) == row_bytes(old(self).arena@, r));
                assert(arena_row(old(self).arena@, r) == self.db@.kept[r]);
            }
        }
    }

    /// Put a slot into a free row.
    pub fn stage_row(
        &mut self,
        row: u64,
        kind: RowKind,
        span: u8,
        len: u8,
        more: bool,
        id: u64,
        value: &[u8; 16],
    )
        requires
            old(self).inv(),
            old(self)@.kept.len() <= row < old(self).capacity(),
            span < 128,
            len <= 16,
        ensures
            final(self).inv(),
            final(self)@ == old(self)@,
            final(self).capacity() == old(self).capacity(),
            final(self).table_size() == old(self).table_size(),
            final(self).bytes().len() == old(self).bytes().len(),
            row_bytes(final(self).bytes(), row as int) == slot_image(
                Slot { kind, span, len, more, id, value: value@ },
            ),
            forall|r: int|
                0 <= r < old(self).capacity() && r != row ==> #[trigger] row_bytes(
                    final(self).bytes(),
                    r,
                ) == row_bytes(old(self).bytes(), r),
    {
        let mut out: [u8; 32] = [0u8; 32];
        encode_slot(kind, span, len, more, id, value, &mut out);
        self.write_row(row, slice_subrange(&out, 0, 32));
    }

    /// The bytes of a row.
    pub fn row_slice(&self, row: u64) -> (bytes: &[u8])
        requires
            self.inv(),
            row < self.capacity(),
        ensures
            bytes@ == row_bytes(self.bytes(), row as int),
            bytes@.len() == 32,
    {
        let off: usize = row as usize * 32;
        slice_subrange(self.arena.as_slice(), off, off + 32)
    }

    /// Rows taken in or set aside.
    pub fn len(&self) -> (n: u64)
        requires
            self.inv(),
        ensures
            n == self@.kept.len(),
    {
        self.trigram.len()
    }

    pub fn live_count(&self) -> (n: u64)
        requires
            self.inv(),
        ensures
            n == self@.live.dom().len(),
    {
        self.live_count
    }

    pub fn dead_slots(&self) -> (n: u64)
        requires
            self.inv(),
        ensures
            n == self@.dead(),
    {
        proof {
            dead_counts(self.db@);
        }
        self.retired + self.tombstones + self.lost
    }

    pub fn quarantined(&self) -> (n: u64)
        requires
            self.inv(),
        ensures
            n == self@.quarantined,
    {
        self.quarantined
    }

    /// How many rows a value takes, and how many bytes it has.
    fn value_extent(&self, head: u64) -> (out: (u64, u32))
        requires
            self.inv(),
            self@.values.contains_key(head as int),
        ensures
            out.0 == extent(self@.kept, head as int),
            out.1 == value_at(self@.kept, head as int).len(),
            1 <= out.0 <= 128,
            head + out.0 <= self@.kept.len(),
            out.1 <= 2048,
    {
        let ghost db = self.db@;
        let ghost kept = db.kept;
        let ghost id = (kept[head as int]->0).id;
        assert(db.holds(head as int));
        let mut rows: u64 = 1;
        let mut total: u32 = 0;
        match self.row_at(head) {
            Some(s) => {
                total = s.len as u32;
            },
            None => {},
        }
        proof {
            reveal_with_fuel(bytes_of, 2);
            assert((kept[head as int]->0).valid());
            assert(bytes_of(kept, head as int, 1).len() == total);
        }
        if self.long_values == 0 {
            return (1, total);
        }
        let len: u64 = self.trigram.len();
        while head + rows < len
            invariant_except_break
                extent_from(kept, head as int, rows as int) == extent(kept, head as int),
            invariant
                self.inv(),
                db == self.db@,
                kept == db.kept,
                len == kept.len(),
                len <= self.rows,
                db.holds(head as int),
                id == (kept[head as int]->0).id,
                1 <= rows <= extent(kept, head as int),
                extent(kept, head as int) <= 128,
                total == bytes_of(kept, head as int, rows as int).len(),
                total <= 16 * rows,
            ensures
                rows == extent(kept, head as int),
            decreases len - rows,
        {
            let next = self.row_at(head + rows);
            let go: bool = match next {
                Some(s) => if s.kind == RowKind::Chunk && s.id == self.row_id_at(head) {
                    proof {
                        assert((kept[head + rows]->0).valid());
                        extent_facts(kept, head as int, rows + 1);
                        assert(continues(kept, head + rows, id));
                    }
                    total = total + s.len as u32;
                    true
                } else {
                    false
                },
                None => false,
            };
            if !go {
                assert(!continues(kept, head + rows, id));
                break;
            }
            rows = rows + 1;
        }
        (rows, total)
    }

    /// A value's bytes, in `out` from its start.
    fn value_bytes(&self, head: u64, out: &mut [u8; 2048]) -> (n: usize)
        requires
            self.inv(),
            self@.values.contains_key(head as int),
        ensures
            n <= 2048,
            final(out)@.take(n as int) == value_at(self@.kept, head as int),
    {
        let (rows, _total) = self.value_extent(head);
        let ghost kept = self.db@.kept;
        let ghost run = kept.subrange(head as int, head + rows);
        proof {
            assert(self.db@.holds(head as int));
            assert forall|k: int| 0 <= k < run.len() implies #[trigger] arena_row(
                self.arena@,
                head + k,
            ) == run[k] && run[k] is Some && (run[k]->0).valid() by {
                assert(arena_row(self.arena@, head + k) == kept[head + k]);
                if k > 0 {
                    assert(continues(kept, head + k, (kept[head as int]->0).id));
                }
                assert(kept[head + k] is Some);
            }
            bytes_same(run, kept, 0, head as int, rows as int);
        }
        self.assemble(head, rows, out, Ghost(run))
    }
}

pub open spec fn row_bytes(arena: Seq<u8>, r: int) -> Seq<u8> {
    arena.subrange(32 * r, 32 * r + 32)
}

/// These rows are in the arena from row `at` on.
pub open spec fn run_in(arena: Seq<u8>, at: int, run: Log) -> bool {
    forall|k: int|
        0 <= k < run.len() ==> #[trigger] arena_row(arena, at + k) == run[k] && run[k] is Some && (
        run[k]->0).valid()
}

/// The slot in row `row` of an arena.
fn decode_at(arena: &[u8], row: u64) -> (slot: Option<RowSlot>)
    requires
        32 * row + 32 <= arena.len(),
    ensures
        match slot {
            Some(s) => arena_row(arena@, row as int) == Some(s@) && s@.valid(),
            None => arena_row(arena@, row as int) is None,
        },
{
    let off: usize = row as usize * 32;
    let slot = decode_slot(slice_subrange(arena, off, off + 32));
    proof {
        crate::slot::slot_parsed_is_valid(arena@.subrange(32 * row, 32 * row + 32));
    }
    slot
}

/// What storing a run does to a row's liveness.
proof fn store_live(db: Db, run: Log, r: int)
    requires
        db.wf(),
        is_run(run),
        db.kept.len() + run.len() <= u64::MAX,
    ensures
        db.store(run).is_live(r) == (r == db.kept.len() || (db.is_live(r) && lookup(
            db.live,
            (run[0]->0).id,
        ) != Some(r as u64))),
{
    let d = db.store(run);
    let at = db.kept.len() as int;
    let id = (run[0]->0).id;
    assert(d.kept[at] == run[0]);
    if 0 <= r < at {
        assert(d.kept[r] == db.kept[r]);
    } else if at < r < d.kept.len() {
        assert(d.kept[r] == run[r - at]);
        assert(continues(run, r - at, id));
    }
}

/// More rows behind the ones an id table names leave it as it was.
proof fn grown(index: Seq<u64>, kept: Log, bound: Map<u64, u64>, more: Log)
    requires
        index_ok(index, kept, bound),
        more.len() >= kept.len(),
        forall|r: int| 0 <= r < kept.len() ==> #[trigger] more[r] == kept[r],
    ensures
        index_ok(index, more, bound),
        keys_of(index, more) == keys_of(index, kept),
{
    let keys = keys_of(index, kept);
    let after = keys_of(index, more);
    assert forall|i: int| 0 <= i < index.len() implies #[trigger] after[i] == keys[i] by {
        assert(entry_ok(index, kept, bound, i));
    }
    assert(after =~= keys);
    assert forall|i: int| 0 <= i < index.len() implies #[trigger] entry_ok(index, more, bound, i) by {
        assert(entry_ok(index, kept, bound, i));
    }
}

/// Binding an id to a new row, in the slot that may take it.
proof fn rebound(
    index: Seq<u64>,
    kept: Log,
    bound: Map<u64, u64>,
    id: u64,
    slot: int,
    row: u64,
    more: Log,
)
    requires
        index_ok(index, kept, bound),
        0 <= slot < index.len(),
        bindable(index, kept, id, slot),
        row == kept.len(),
        row < u64::MAX,
        more.len() > kept.len(),
        forall|r: int| 0 <= r < kept.len() ==> #[trigger] more[r] == kept[r],
        more[row as int] is Some,
        (more[row as int]->0).id == id,
    ensures
        index_ok(index.update(slot, (row + 1) as u64), more, bound.insert(id, row)),
{
    let new = index.update(slot, (row + 1) as u64);
    let nb = bound.insert(id, row);
    let keys = keys_of(index, kept);
    let after = keys_of(new, more);
    assert forall|i: int| 0 <= i < index.len() implies #[trigger] after[i] == keys.update(
        slot,
        Some(id),
    )[i] by {
        assert(entry_ok(index, kept, bound, i));
    }
    assert(after =~= keys.update(slot, Some(id)));
    assert forall|i: int| 0 <= i < new.len() implies #[trigger] entry_ok(new, more, nb, i) by {
        assert(entry_ok(index, kept, bound, i));
        if i != slot {
            assert(keys[i] != Some(id));
        }
    }
    assert forall|x: u64| #[trigger] nb.contains_key(x) implies after.contains(Some(x)) by {
        if x == id {
            assert(after[slot] == Some(id));
        } else {
            assert(bound.contains_key(x));
            let i = choose|i: int| 0 <= i < keys.len() && keys[i] == Some(x);
            assert(after[i] == Some(x));
        }
    }
}

/// Naming `id` in slot `i` keeps the id table a probing table with every id in
/// it once.
spec fn bindable(index: Seq<u64>, kept: Log, id: u64, i: int) -> bool {
    let keys = keys_of(index, kept);
    &&& probe::probed(keys.update(i, Some(id)), home(index.len()))
    &&& keys[i] is None || keys[i] == Some(id)
    &&& forall|j: int| 0 <= j < keys.len() && j != i ==> (#[trigger] keys[j]) != Some(id)
}

proof fn home_bound(id: u64, n: nat)
    requires
        0 < n <= usize::MAX,
    ensures
        0 <= id_home(id, n) < n,
{
    let a = (id ^ (id >> 32)).wrapping_mul(0x9E37_79B9_7F4A_7C15) as usize;
    let b = (n - 1) as usize;
    assert(a & b <= b) by (bit_vector);
}

/// The id table is never full: entries name distinct rows, and there are more
/// slots than rows.
proof fn not_full(index: Seq<u64>, kept: Log, bound: Map<u64, u64>, start: int)
    requires
        index_ok(index, kept, bound),
        0 <= start < index.len(),
        kept.len() < index.len(),
    ensures
        exists|e: int|
            0 <= e < index.len() && (#[trigger] keys_of(index, kept)[probe::at(
                start,
                e,
                index.len() as int,
            )]) is None,
{
    let n = index.len() as int;
    let keys = keys_of(index, kept);
    let rows = Seq::new(index.len(), |i: int| index[i] - 1);
    if forall|i: int| 0 <= i < n ==> (#[trigger] keys[i]) is Some {
        assert forall|i: int| 0 <= i < n implies 0 <= #[trigger] rows[i] < kept.len() by {
            assert(keys[i] is Some);
            assert(entry_ok(index, kept, bound, i));
        }
        assert forall|i: int, j: int| 0 <= i < n && 0 <= j < n && i != j implies rows[i]
            != rows[j] by {
            assert(keys[i] is Some && keys[i] != keys[j]);
        }
        probe::pigeonhole(rows, kept.len() as int);
    } else {
        let i = choose|i: int| 0 <= i < n && (#[trigger] keys[i]) is None;
        let e = probe::steps(start, i, n);
        assert(keys[probe::at(start, e, n)] is None);
    }
}

} // verus!
