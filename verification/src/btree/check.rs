//! Deep structural validation of the B+tree, from the pool alone: whether the
//! nodes below the root are a search tree is decided, not presumed.

use super::model::{
    self, ascending, bounded, child_hi, child_lo, flat, in_order, leaves, leaves_kids, wf, within,
    Tree,
};
use super::{chain, chain_join, chain_split, first_id, key_end, repr, BTreeIndex, Node, NIL, ORDER};
use vstd::arithmetic::power2::{lemma2_to64, lemma_pow2_strictly_increases, lemma_pow2_unfold, pow2};
use vstd::prelude::*;

verus! {

spec fn low(lo: Option<u64>) -> int {
    match lo {
        Some(k) => k as int,
        None => 0,
    }
}

spec fn high(hi: Option<u64>) -> int {
    match hi {
        Some(k) => k as int,
        None => key_end(),
    }
}

/// From node `id` down the pool holds the tree `t` of height `h`: a search tree
/// over keys in `lo..hi`, its leaves linked in key order and the last of them
/// to `end`.
spec fn held(
    pool: Seq<Node>,
    id: u32,
    lo: int,
    hi: int,
    root: bool,
    end: u32,
    t: Tree,
    h: nat,
) -> bool {
    &&& t.id() == id
    &&& repr(pool, t, h)
    &&& wf(t, h, lo, hi, root)
    &&& chain(pool, leaves(t, h), end)
}

/// The children of node `n` from number `c` on are the trees `kids`.
spec fn kids_held(
    pool: Seq<Node>,
    n: Node,
    keys: Seq<u64>,
    c: int,
    lo: int,
    hi: int,
    end: u32,
    kids: Seq<Tree>,
    g: nat,
) -> bool {
    &&& kids.len() == keys.len() + 1 - c
    &&& forall|j: int| 0 <= j < kids.len() ==> (#[trigger] kids[j]).id() == n.children@[c + j]
    &&& forall|j: int| 0 <= j < kids.len() ==> repr(pool, #[trigger] kids[j], g)
    &&& forall|j: int|
        0 <= j < kids.len() ==> wf(
            #[trigger] kids[j],
            g,
            child_lo(keys, c + j, lo),
            child_hi(keys, c + j, hi),
            false,
        )
    &&& chain(pool, leaves_kids(kids, g), end)
}

/// What a subtree turned out to be.
struct Checked {
    /// Levels below its top node.
    height: u32,
    /// Its first leaf.
    first: u32,
    /// How many entries it holds.
    entries: u128,
    tree: Ghost<Tree>,
}

/// A node is the top of at most one tree.
proof fn one_tree(
    pool: Seq<Node>,
    t: Tree,
    h: nat,
    a: (int, int, bool),
    u: Tree,
    g: nat,
    b: (int, int, bool),
)
    requires
        t.id() == u.id(),
        repr(pool, t, h),
        repr(pool, u, g),
        wf(t, h, a.0, a.1, a.2),
        wf(u, g, b.0, b.1, b.2),
    ensures
        t == u,
        h == g,
    decreases h,
{
    if let (Tree::Inner { keys, kids, .. }, Tree::Inner { keys: keys_u, kids: kids_u, .. }) = (
        t,
        u,
    ) {
        assert forall|i: int| 0 <= i < kids.len() implies #[trigger] kids[i] == kids_u[i] && h
            == g by {
            one_tree(
                pool,
                kids[i],
                (h - 1) as nat,
                (child_lo(keys, i, a.0), child_hi(keys, i, a.1), false),
                kids_u[i],
                (g - 1) as nat,
                (child_lo(keys_u, i, b.0), child_hi(keys_u, i, b.1), false),
            );
        }
        assert(kids[0] == kids_u[0]);
        assert(kids =~= kids_u);
    }
}

/// Every level doubles the keys that a tree spans.
proof fn levels_span(t: Tree, h: nat, lo: int, hi: int, root: bool)
    requires
        wf(t, h, lo, hi, root),
        h > 0 || !root,
    ensures
        hi - lo >= pow2(h),
    decreases h,
{
    match t {
        Tree::Leaf { keys, .. } => {
            lemma2_to64();
            assert(lo <= keys[0] < hi);
        },
        Tree::Inner { keys, kids, .. } => {
            let g = (h - 1) as nat;
            assert(wf(kids[0], g, child_lo(keys, 0, lo), child_hi(keys, 0, hi), false));
            assert(wf(kids[1], g, child_lo(keys, 1, lo), child_hi(keys, 1, hi), false));
            levels_span(kids[0], g, child_lo(keys, 0, lo), child_hi(keys, 0, hi), false);
            levels_span(kids[1], g, child_lo(keys, 1, lo), child_hi(keys, 1, hi), false);
            lemma_pow2_unfold(h);
        },
    }
}

/// No tree over all keys has more levels than a key has bits.
proof fn levels_bounded(t: Tree, h: nat)
    requires
        wf(t, h, 0, key_end(), true),
    ensures
        h <= 64,
{
    if h > 64 {
        levels_span(t, h, 0, key_end(), true);
        lemma2_to64();
        lemma_pow2_strictly_increases(64, h);
    }
}

proof fn keys_rise(es: Seq<(u64, u64)>, lo: int, hi: int, i: int)
    requires
        in_order(es),
        within(es, lo, hi),
        0 <= i < es.len(),
    ensures
        es[i].0 >= lo + i,
    decreases i,
{
    if i > 0 {
        keys_rise(es, lo, hi, i - 1);
        assert(es[i - 1].0 < es[i].0);
    } else {
        assert(lo <= es[0].0);
    }
}

/// A tree holds no more entries than there are keys.
proof fn entries_bounded(t: Tree, h: nat, lo: int, hi: int, root: bool)
    requires
        wf(t, h, lo, hi, root),
        0 <= lo,
        hi <= key_end(),
    ensures
        flat(leaves(t, h)).len() <= key_end(),
{
    model::leaves_facts(t, h, lo, hi, root);
    let es = flat(leaves(t, h));
    if es.len() > 0 {
        keys_rise(es, lo, hi, es.len() - 1);
        assert(es[es.len() - 1].0 < hi);
    }
}

/// A node of the tree `t` whose children after number `c` are known: child `c`
/// is a subtree of `t`, linked to the leaf that comes next.
proof fn child_is_held(
    pool: Seq<Node>,
    id: u32,
    lo: int,
    hi: int,
    root: bool,
    end: u32,
    t: Tree,
    h: nat,
    c: int,
    kids: Seq<Tree>,
    g: nat,
)
    requires
        held(pool, id, lo, hi, root, end, t, h),
        !pool[id as int].leaf,
        0 <= c <= pool[id as int].len,
        pool[id as int].len <= 8,
        kids_held(
            pool,
            pool[id as int],
            pool[id as int].keys@.take(pool[id as int].len as int),
            c + 1,
            lo,
            hi,
            end,
            kids,
            g,
        ),
    ensures
        h > 0,
        kids.len() > 0 ==> h == g + 1,
        ({
            let n = pool[id as int];
            let keys = n.keys@.take(n.len as int);
            held(
                pool,
                n.children@[c],
                child_lo(keys, c, lo),
                child_hi(keys, c, hi),
                false,
                first_id(leaves_kids(kids, g), end),
                t->kids[c],
                (h - 1) as nat,
            )
        }),
{
    let n = pool[id as int];
    let keys = n.keys@.take(n.len as int);
    let all = t->kids;
    let f = (h - 1) as nat;
    assert forall|j: int| 0 <= j < kids.len() implies #[trigger] kids[j] == all[c + 1 + j] && f
        == g by {
        let i = c + 1 + j;
        assert(wf(all[i], f, child_lo(keys, i, lo), child_hi(keys, i, hi), false));
        one_tree(
            pool,
            kids[j],
            g,
            (child_lo(keys, i, lo), child_hi(keys, i, hi), false),
            all[i],
            f,
            (child_lo(keys, i, lo), child_hi(keys, i, hi), false),
        );
    }
    if kids.len() > 0 {
        assert(kids[0] == all[c + 1]);
    }
    assert(kids =~= all.skip(c + 1));
    assert(leaves_kids(kids, g) == leaves_kids(all.skip(c + 1), f));
    let m = all[c];
    assert(wf(m, f, child_lo(keys, c, lo), child_hi(keys, c, hi), false));
    model::leaves_facts(m, f, child_lo(keys, c, lo), child_hi(keys, c, hi), false);
    model::split_kids(all, c, f);
    chain_split(pool, leaves_kids(all.take(c), f), leaves(m, f), leaves_kids(kids, g), end);
}

/// One more child is known.
proof fn kid_joins(
    pool: Seq<Node>,
    n: Node,
    keys: Seq<u64>,
    c: int,
    lo: int,
    hi: int,
    end: u32,
    kids: Seq<Tree>,
    g: nat,
    t: Tree,
    h: nat,
)
    requires
        0 <= c <= keys.len(),
        kids_held(pool, n, keys, c + 1, lo, hi, end, kids, g),
        held(
            pool,
            n.children@[c],
            child_lo(keys, c, lo),
            child_hi(keys, c, hi),
            false,
            first_id(leaves_kids(kids, g), end),
            t,
            h,
        ),
        kids.len() > 0 ==> g == h,
    ensures
        kids_held(pool, n, keys, c, lo, hi, end, seq![t] + kids, h),
        leaves(t, h).len() > 0,
        first_id(leaves_kids(seq![t] + kids, h), end) == leaves(t, h)[0].id(),
        flat(leaves_kids(seq![t] + kids, h)).len() == flat(leaves(t, h)).len() + flat(
            leaves_kids(kids, g),
        ).len(),
{
    let all = seq![t] + kids;
    assert(leaves_kids(kids, g) == leaves_kids(kids, h));
    assert(all.take(0) =~= Seq::<Tree>::empty());
    assert(all.skip(1) =~= kids);
    assert(leaves_kids(all.take(0), h) =~= Seq::<Tree>::empty());
    model::split_kids(all, 0, h);
    model::leaves_facts(t, h, child_lo(keys, c, lo), child_hi(keys, c, hi), false);
    let none = Seq::<Tree>::empty();
    assert(flat(none) =~= Seq::<(u64, u64)>::empty());
    chain_join(pool, none, leaves(t, h), leaves_kids(kids, h), end);
    assert(leaves_kids(all, h) =~= none + leaves(t, h) + leaves_kids(kids, h));
    assert forall|j: int| 0 <= j < all.len() implies (#[trigger] all[j]).id() == n.children@[c + j]
        && repr(pool, all[j], h) && wf(
        all[j],
        h,
        child_lo(keys, c + j, lo),
        child_hi(keys, c + j, hi),
        false,
    ) by {
        if j > 0 {
            assert(all[j] == kids[j - 1]);
        }
    }
}

/// Are the first `len` keys in strict order, and within the bounds?
fn ordered(keys: &[u64; ORDER], len: usize, lo: Option<u64>, hi: Option<u64>) -> (ok: bool)
    requires
        len <= 8,
    ensures
        ok == (ascending(keys@.take(len as int)) && bounded(
            keys@.take(len as int),
            low(lo),
            high(hi),
        )),
{
    let ghost ks = keys@.take(len as int);
    let mut i: usize = 0;
    while i < len
        invariant
            i <= len <= 8,
            ks == keys@.take(len as int),
            ascending(ks.take(i as int)),
            bounded(ks.take(i as int), low(lo), high(hi)),
        decreases len - i,
    {
        let k: u64 = keys[i];
        assert(ks[i as int] == k);
        if i > 0 && keys[i - 1] >= k {
            assert(ks[i - 1] >= ks[i as int]);
            return false;
        }
        if let Some(l) = lo {
            if k < l {
                return false;
            }
        }
        if let Some(u) = hi {
            if k >= u {
                return false;
            }
        }
        proof {
            let before = ks.take(i as int);
            let after = ks.take(i + 1);
            if i > 0 {
                assert(before[i - 1] == ks[i - 1]);
            }
            assert forall|a: int, b: int| 0 <= a < b < after.len() implies after[a] < after[b] by {
                if b < i {
                    assert(before[a] < before[b]);
                } else if a < i - 1 {
                    assert(before[a] < before[i - 1]);
                }
            }
            assert forall|a: int| 0 <= a < after.len() implies low(lo) <= #[trigger] after[a]
                < high(hi) by {
                if a < i {
                    assert(before[a] == after[a]);
                }
            }
        }
        i = i + 1;
    }
    assert(ks.take(len as int) =~= ks);
    true
}

impl BTreeIndex {
    /// From the root down the pool holds a search tree: strict key order within
    /// and across nodes, uniform leaf depth, at least half-full nodes below the
    /// root, keys within their separators. The leaf chain visits exactly the
    /// leaves, in key order, and the recorded length is the number of entries.
    pub closed spec fn sound(&self) -> bool {
        exists|t: Tree, h: nat|
            #[trigger] held(self.pool@, self.root, 0, key_end(), true, NIL, t, h)
                && flat(leaves(t, h)).len() == self.len
    }

    /// Deep structural validation, for tests. An index that was only ever built
    /// through its own operations always passes.
    pub fn check_invariants(&self) -> (ok: bool)
        ensures
            ok == self.sound(),
            self.inv() ==> ok,
    {
        let out = self.check_node(self.root, 64, None, None, true, NIL);
        proof {
            assert(low(None) == 0 && high(None) == key_end());
            assert forall|t: Tree, h: nat| #[trigger]
                held(self.pool@, self.root, 0, key_end(), true, NIL, t, h) implies h <= 64 by {
                levels_bounded(t, h);
            }
            if self.inv() {
                assert(held(
                    self.pool@,
                    self.root,
                    0,
                    key_end(),
                    true,
                    NIL,
                    self.tree@,
                    self.height@,
                ));
            }
            if out is Some {
                let c = out->0;
                let h = c.height as nat;
                assert(held(self.pool@, self.root, 0, key_end(), true, NIL, c.tree@, h));
                assert forall|t: Tree, h: nat| #[trigger]
                    held(self.pool@, self.root, 0, key_end(), true, NIL, t, h) implies t == c.tree@
                    && h == c.height by {
                    let all = (0int, key_end(), true);
                    one_tree(self.pool@, t, h, all, c.tree@, c.height as nat, all);
                }
            }
        }
        match out {
            Some(c) => c.entries == self.len as u128,
            None => false,
        }
    }

    /// Check a subtree of at most `levels` levels below node `id`, whose last
    /// leaf is to be linked to `end`.
    fn check_node(
        &self,
        id: u32,
        levels: u32,
        lo: Option<u64>,
        hi: Option<u64>,
        is_root: bool,
        end: u32,
    ) -> (out: Option<Checked>)
        ensures
            match out {
                Some(c) => {
                    let (t, h) = (c.tree@, c.height as nat);
                    &&& held(self.pool@, id, low(lo), high(hi), is_root, end, t, h)
                    &&& c.height <= levels
                    &&& c.first == first_id(leaves(t, h), end)
                    &&& c.entries == flat(leaves(t, h)).len()
                    &&& c.entries <= key_end()
                },
                None => forall|t: Tree, h: nat|
                    h <= levels ==> !#[trigger] held(
                        self.pool@,
                        id,
                        low(lo),
                        high(hi),
                        is_root,
                        end,
                        t,
                        h,
                    ),
            },
        decreases levels,
    {
        if id as usize >= self.pool.len() {
            return None;
        }
        let n: Node = self.pool[id as usize];
        let len: usize = n.len as usize;
        if len > 8 || (!is_root && len < 4) {
            return None;
        }
        let ghost keys = n.keys@.take(len as int);
        if !ordered(&n.keys, len, lo, hi) {
            return None;
        }
        if n.leaf {
            let ghost t = Tree::Leaf { id, keys, vals: n.vals@.take(len as int) };
            if n.next != end {
                proof {
                    assert forall|u: Tree, h: nat| h <= levels implies !#[trigger] held(
                        self.pool@,
                        id,
                        low(lo),
                        high(hi),
                        is_root,
                        end,
                        u,
                        h,
                    ) by {
                        if held(self.pool@, id, low(lo), high(hi), is_root, end, u, h) {
                            assert(super::linked(self.pool@, leaves(u, h), end, 0));
                        }
                    }
                }
                return None;
            }
            proof {
                model::one_leaf_flat(t);
                assert(leaves(t, 0) =~= seq![t]);
            }
            return Some(Checked { height: 0, first: id, entries: len as u128, tree: Ghost(t) });
        }
        if len == 0 || levels == 0 {
            return None;
        }
        let mut below: Option<u32> = None;
        let mut first: u32 = end;
        let mut entries: u128 = 0;
        let mut c: usize = len + 1;
        let ghost mut kids = Seq::<Tree>::empty();
        let ghost mut g: nat = 0;
        proof {
            assert(leaves_kids(kids, g) =~= Seq::<Tree>::empty());
            assert(flat(leaves_kids(kids, g)) =~= Seq::<(u64, u64)>::empty());
        }
        while c > 0
            invariant
                id < self.pool@.len(),
                n == self.pool@[id as int],
                !n.leaf,
                len == n.len,
                1 <= len <= 8,
                c <= len + 1,
                levels > 0,
                keys == n.keys@.take(len as int),
                kids_held(self.pool@, n, keys, c as int, low(lo), high(hi), end, kids, g),
                below == (if c == len + 1 {
                    None
                } else {
                    Some(g as u32)
                }),
                g <= levels - 1,
                first == first_id(leaves_kids(kids, g), end),
                entries == flat(leaves_kids(kids, g)).len(),
                entries <= key_end() * (len + 1 - c),
            decreases c,
        {
            c = c - 1;
            let ghost ci = c as int;
            let child_lo_key: Option<u64> = if c == 0 {
                lo
            } else {
                Some(n.keys[c - 1])
            };
            let child_hi_key: Option<u64> = if c == len {
                hi
            } else {
                Some(n.keys[c])
            };
            proof {
                if c > 0 {
                    assert(keys[ci - 1] == n.keys@[ci - 1]);
                }
                if c < len {
                    assert(keys[ci] == n.keys@[ci]);
                }
                assert(low(child_lo_key) == child_lo(keys, ci, low(lo)));
                assert(high(child_hi_key) == child_hi(keys, ci, high(hi)));
            }
            let child = self.check_node(
                n.children[c],
                levels - 1,
                child_lo_key,
                child_hi_key,
                false,
                first,
            );
            proof {
                assert forall|t: Tree, h: nat|
                    h <= levels && #[trigger] held(
                        self.pool@,
                        id,
                        low(lo),
                        high(hi),
                        is_root,
                        end,
                        t,
                        h,
                    ) implies child is Some && h == (child->0).height + 1 && (below is None || h
                    == g + 1) by {
                    child_is_held(
                        self.pool@,
                        id,
                        low(lo),
                        high(hi),
                        is_root,
                        end,
                        t,
                        h,
                        ci,
                        kids,
                        g,
                    );
                    if child is Some {
                        let k = child->0;
                        let span = (child_lo(keys, ci, low(lo)), child_hi(keys, ci, high(hi)), false);
                        one_tree(
                            self.pool@,
                            t->kids[ci],
                            (h - 1) as nat,
                            span,
                            k.tree@,
                            k.height as nat,
                            span,
                        );
                    }
                }
            }
            match child {
                None => {
                    return None;
                },
                Some(k) => {
                    // Leaves at one depth, whichever child they are under.
                    if let Some(d) = below {
                        if d != k.height {
                            return None;
                        }
                    }
                    proof {
                        kid_joins(
                            self.pool@,
                            n,
                            keys,
                            ci,
                            low(lo),
                            high(hi),
                            end,
                            kids,
                            g,
                            k.tree@,
                            k.height as nat,
                        );
                        kids = seq![k.tree@] + kids;
                        g = k.height as nat;
                    }
                    below = Some(k.height);
                    first = k.first;
                    entries = entries + k.entries;
                },
            }
        }
        let ghost t = Tree::Inner { id, keys, kids };
        let height: u32 = match below {
            Some(d) => d + 1,
            None => 0,
        };
        proof {
            entries_bounded(t, height as nat, low(lo), high(hi), is_root);
        }
        Some(Checked { height, first, entries, tree: Ghost(t) })
    }
}

} // verus!
