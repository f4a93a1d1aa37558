//! The B+tree index: an ordered `u64 key -> u64 row` mapping backing range
//! queries.
//!
//! - **Fixed node pool**, sized from the declared row capacity; no node is
//!   ever allocated anywhere else. That the pool suffices is proved
//!   ([`BTreeIndex::declared_rows_fit`]): every node but the root keeps at
//!   least half its keys, so a tree of `n` entries has at most `n / 3 + 1`
//!   nodes.
//! - **Small order (8)** on purpose: splits happen constantly.
//! - No deletes: retired keys are repointed, never removed.

use self::model::{
    as_map, ascending, child_hi, child_lo, count, distinct, entered, flat, grow, grown_leaves,
    in_order, leaves, leaves_kids, overflows, owns, present, rank, splits, wf, widened, Grown, Tree,
};
use vstd::prelude::*;

mod check;
pub mod model;

verus! {

/// Max keys per node. Even, small (see module docs).
pub const ORDER: usize = 8;

const NIL: u32 = 0xFFFF_FFFF;

#[derive(Clone, Copy)]
struct Node {
    keys: [u64; ORDER],
    /// Leaf: row indices, parallel to `keys`. Internal: unused.
    vals: [u64; ORDER],
    /// Internal: `len + 1` children. Leaf: unused.
    children: [u32; 9],
    /// Leaf: the next leaf in key order (the scan chain), NIL at the end.
    next: u32,
    len: u8,
    leaf: bool,
}

impl Node {
    fn empty_leaf() -> (n: Node)
        ensures
            n.leaf,
            n.len == 0,
            n.next == NIL,
    {
        Node {
            keys: [0u64; 8],
            vals: [0u64; 8],
            children: [NIL; 9],
            next: NIL,
            len: 0,
            leaf: true,
        }
    }
}

pub struct BTreeIndex {
    pool: Vec<Node>,
    used: u32,
    root: u32,
    len: u64,
    tree: Ghost<Tree>,
    height: Ghost<nat>,
}

/// Pool size for a declared row capacity. See module docs for the bound
/// argument; the +16 covers small-N cases and root chains.
pub fn pool_nodes_for(rows: u64) -> (n: u64)
    ensures
        n == rows / 3 + 16,
{
    rows / 3 + 16
}

/// One past the largest key.
spec fn key_end() -> int {
    0x1_0000_0000_0000_0000
}

/// The pool holds this subtree: every node sits in its slot, keys, values and
/// children in place.
spec fn repr(pool: Seq<Node>, t: Tree, h: nat) -> bool
    decreases h,
{
    match t {
        Tree::Leaf { id, keys, vals } => {
            &&& id < pool.len()
            &&& pool[id as int].leaf
            &&& pool[id as int].len == keys.len()
            &&& keys.len() <= 8
            &&& pool[id as int].keys@.take(keys.len() as int) == keys
            &&& pool[id as int].vals@.take(keys.len() as int) == vals
        },
        Tree::Inner { id, keys, kids } => {
            &&& h > 0
            &&& id < pool.len()
            &&& !pool[id as int].leaf
            &&& pool[id as int].len == keys.len()
            &&& keys.len() <= 8
            &&& kids.len() == keys.len() + 1
            &&& pool[id as int].keys@.take(keys.len() as int) == keys
            &&& forall|i: int|
                0 <= i < kids.len() ==> pool[id as int].children@[i] == (#[trigger] kids[i]).id()
            &&& forall|i: int| 0 <= i < kids.len() ==> repr(pool, #[trigger] kids[i], (h - 1) as nat)
        },
    }
}

/// Leaf `i` of the list links to the next one, or to `end` if it is the last.
spec fn linked(pool: Seq<Node>, ls: Seq<Tree>, end: u32, i: int) -> bool {
    pool[ls[i].id() as int].next == (if i + 1 < ls.len() {
        ls[i + 1].id()
    } else {
        end
    })
}

/// Consecutive leaves are linked, and the last one links to `end`.
spec fn chain(pool: Seq<Node>, ls: Seq<Tree>, end: u32) -> bool {
    forall|i: int| 0 <= i < ls.len() ==> #[trigger] linked(pool, ls, end, i)
}

spec fn first_id(ls: Seq<Tree>, end: u32) -> u32 {
    if ls.len() > 0 {
        ls[0].id()
    } else {
        end
    }
}

proof fn chain_split(pool: Seq<Node>, a: Seq<Tree>, m: Seq<Tree>, b: Seq<Tree>, end: u32)
    requires
        m.len() > 0,
        chain(pool, a + m + b, end),
    ensures
        chain(pool, a, m[0].id()),
        chain(pool, m, first_id(b, end)),
        chain(pool, b, end),
{
    let all = a + m + b;
    assert forall|i: int| 0 <= i < a.len() implies #[trigger] linked(pool, a, m[0].id(), i) by {
        assert(linked(pool, all, end, i));
    }
    assert forall|i: int| 0 <= i < m.len() implies #[trigger] linked(
        pool,
        m,
        first_id(b, end),
        i,
    ) by {
        assert(linked(pool, all, end, a.len() + i));
    }
    assert forall|i: int| 0 <= i < b.len() implies #[trigger] linked(pool, b, end, i) by {
        assert(linked(pool, all, end, a.len() + m.len() + i));
    }
}

proof fn chain_join(pool: Seq<Node>, a: Seq<Tree>, m: Seq<Tree>, b: Seq<Tree>, end: u32)
    requires
        m.len() > 0,
        chain(pool, a, m[0].id()),
        chain(pool, m, first_id(b, end)),
        chain(pool, b, end),
    ensures
        chain(pool, a + m + b, end),
{
    let all = a + m + b;
    assert forall|i: int| 0 <= i < all.len() implies #[trigger] linked(pool, all, end, i) by {
        if i < a.len() {
            assert(linked(pool, a, m[0].id(), i));
        } else if i < a.len() + m.len() {
            assert(linked(pool, m, first_id(b, end), i - a.len()));
        } else {
            assert(linked(pool, b, end, i - a.len() - m.len()));
        }
    }
}

proof fn chain_frame(p1: Seq<Node>, p2: Seq<Node>, ls: Seq<Tree>, end: u32)
    requires
        chain(p1, ls, end),
        forall|i: int|
            0 <= i < ls.len() ==> p1[(#[trigger] ls[i]).id() as int].next
                == p2[ls[i].id() as int].next,
    ensures
        chain(p2, ls, end),
{
    assert forall|i: int| 0 <= i < ls.len() implies #[trigger] linked(p2, ls, end, i) by {
        assert(linked(p1, ls, end, i));
    }
}

proof fn repr_frame(p1: Seq<Node>, p2: Seq<Node>, t: Tree, h: nat)
    requires
        repr(p1, t, h),
        p1.len() == p2.len(),
        forall|x: int| owns(t, h, x) ==> p1[x] == p2[x],
    ensures
        repr(p2, t, h),
    decreases h,
{
    match t {
        Tree::Leaf { id, .. } => {
            assert(owns(t, h, id as int));
        },
        Tree::Inner { id, keys, kids } => {
            assert(owns(t, h, id as int));
            let g = (h - 1) as nat;
            assert forall|i: int| 0 <= i < kids.len() implies repr(p2, #[trigger] kids[i], g) by {
                assert(repr(p1, kids[i], g));
                assert forall|x: int| owns(kids[i], g, x) implies p1[x] == p2[x] by {
                    assert(owns(t, h, x));
                }
                repr_frame(p1, p2, kids[i], g);
            }
        },
    }
}

/// Well formed within some bounds.
spec fn some_wf(t: Tree, h: nat) -> bool {
    exists|l: int, u: int| wf(t, h, l, u, false)
}

/// A leaf's slot belongs to the subtree.
proof fn leaves_owned(t: Tree, h: nat, lo: int, hi: int, root: bool, n: int)
    requires
        wf(t, h, lo, hi, root),
        0 <= n < leaves(t, h).len(),
    ensures
        owns(t, h, leaves(t, h)[n].id() as int),
    decreases h, 0nat,
{
    match t {
        Tree::Leaf { .. } => {},
        Tree::Inner { keys, kids, .. } => {
            let g = (h - 1) as nat;
            assert forall|i: int| 0 <= i < kids.len() implies some_wf(#[trigger] kids[i], g) by {
                assert(wf(kids[i], g, child_lo(keys, i, lo), child_hi(keys, i, hi), false));
            }
            let j = kid_leaves_owned(kids, g, n);
            assert(owns(kids[j], g, leaves(t, h)[n].id() as int));
        },
    }
}

proof fn kid_leaves_owned(kids: Seq<Tree>, g: nat, n: int) -> (j: int)
    requires
        forall|i: int|
            0 <= i < kids.len() ==> some_wf(#[trigger] kids[i], g),
        0 <= n < leaves_kids(kids, g).len(),
    ensures
        0 <= j < kids.len(),
        owns(kids[j], g, leaves_kids(kids, g)[n].id() as int),
    decreases g, kids.len() + 1,
{
    let front = kids.drop_last();
    let m = leaves_kids(front, g).len();
    if n < m {
        assert forall|i: int| 0 <= i < front.len() implies some_wf(#[trigger] front[i], g) by {
            assert(front[i] == kids[i]);
        }
        let j = kid_leaves_owned(front, g, n);
        assert(front[j] == kids[j]);
        j
    } else {
        let k = kids.len() - 1;
        assert(some_wf(kids[k], g));
        let (l, u) = choose|l: int, u: int| wf(kids[k], g, l, u, false);
        leaves_owned(kids[k], g, l, u, false, n - m);
        k
    }
}

/// `src`'s first `len` elements with `x` put in at `pos`.
fn shifted<T: Copy, const N: usize, const M: usize>(
    src: &[T; N],
    len: usize,
    pos: usize,
    x: T,
) -> (out: [T; M])
    requires
        pos <= len <= N,
        len < M,
    ensures
        out@.take(len + 1) == src@.take(len as int).insert(pos as int, x),
{
    let mut out: [T; M] = [x; M];
    let mut i: usize = 0;
    while i < len
        invariant
            i <= len,
            pos <= len <= N,
            len < M,
            forall|k: int| 0 <= k < i && k < pos ==> out@[k] == src@[k],
            forall|k: int| pos < k <= i ==> out@[k] == src@[k - 1],
            out@[pos as int] == x,
        decreases len - i,
    {
        if i < pos {
            out[i] = src[i];
        } else {
            out[i + 1] = src[i];
        }
        i = i + 1;
    }
    let ghost want = src@.take(len as int).insert(pos as int, x);
    assert(out@.take(len + 1) =~= want);
    out
}

/// The `n` elements of `src` from `from` on, padded with `fill`.
fn window<T: Copy, const N: usize, const M: usize>(
    src: &[T; N],
    from: usize,
    n: usize,
    fill: T,
) -> (out: [T; M])
    requires
        from + n <= N,
        n <= M,
    ensures
        out@.take(n as int) == src@.subrange(from as int, from + n),
{
    let mut out: [T; M] = [fill; M];
    let mut i: usize = 0;
    while i < n
        invariant
            i <= n,
            from + n <= N,
            n <= M,
            forall|k: int| 0 <= k < i ==> out@[k] == src@[from + k],
        decreases n - i,
    {
        out[i] = src[from + i];
        i = i + 1;
    }
    assert(out@.take(n as int) =~= src@.subrange(from as int, from + n));
    out
}

/// Where `key` belongs among the first `len` of `keys`.
fn place(keys: &[u64; ORDER], len: usize, key: u64) -> (pos: usize)
    requires
        len <= 8,
        ascending(keys@.take(len as int)),
    ensures
        pos == rank(keys@.take(len as int), key),
        pos <= len,
{
    let ghost ks = keys@.take(len as int);
    let mut i: usize = 0;
    while i < len
        invariant_except_break
            i <= len <= 8,
            ks == keys@.take(len as int),
            forall|j: int| 0 <= j < i ==> ks[j] <= key,
        ensures
            i <= len,
            forall|j: int| 0 <= j < i ==> ks[j] <= key,
            i < len ==> key < ks[i as int],
        decreases len - i,
    {
        if key < keys[i] {
            break;
        }
        i = i + 1;
    }
    proof {
        model::rank_is(ks, key, i as int);
    }
    i
}

impl BTreeIndex {
    /// The structure is a search tree, laid out in the pool, its leaves
    /// chained in order and its accounting exact.
    pub closed spec fn inv(&self) -> bool {
        let t = self.tree@;
        let h = self.height@;
        &&& self.pool@.len() <= u32::MAX
        &&& self.used == count(t, h)
        &&& self.used <= self.pool@.len()
        &&& self.root == t.id()
        &&& wf(t, h, 0, key_end(), true)
        &&& distinct(t, h)
        &&& forall|x: int| owns(t, h, x) ==> 0 <= x < self.used
        &&& repr(self.pool@, t, h)
        &&& chain(self.pool@, leaves(t, h), NIL)
        &&& self.len == flat(leaves(t, h)).len()
    }

    /// The entries, in key order.
    pub closed spec fn entries(&self) -> Seq<(u64, u64)> {
        flat(leaves(self.tree@, self.height@))
    }

    /// Nodes in use.
    pub closed spec fn nodes(&self) -> int {
        self.used as int
    }

    /// Nodes in the pool.
    pub closed spec fn pool_nodes(&self) -> int {
        self.pool@.len() as int
    }

    /// Does the pool have the nodes that inserting `key` will take?
    pub closed spec fn has_room(&self, key: u64) -> bool {
        let t = self.tree@;
        let h = self.height@;
        self.used + splits(t, h, key) + (if overflows(t, h, key) {
            1int
        } else {
            0
        }) <= self.pool@.len()
    }

    /// The pool made for a declared number of rows holds that many keys,
    /// whatever they are and in whatever order they come.
    pub proof fn declared_rows_fit(&self, rows: u64, key: u64)
        requires
            self.inv(),
            self.pool_nodes() >= rows / 3 + 16,
            self@.dom().len() < rows,
        ensures
            self.has_room(key),
    {
        let t = self.tree@;
        let h = self.height@;
        model::leaves_facts(t, h, 0, key_end(), true);
        model::as_map_len(self.entries());
        let fresh = self.used as int;
        model::grow_wf(t, h, key, 0, fresh, 0, key_end(), true);
        model::grow_lists(t, h, key, 0, fresh, 0, key_end(), true);
        model::grow_flat(t, h, key, 0, fresh, 0, key_end(), true);
        let g = grow(t, h, key, 0, fresh);
        let (t2, h2) = topped(g, h, 0);
        topped_facts(g, h, 0, fresh);
        model::leaves_facts(t2, h2, 0, key_end(), true);
        let n = flat(leaves(t2, h2)).len();
        assert(n <= self@.dom().len() + 1) by {
            let es = flat(leaves(t, h));
            assert(entered(es, flat(leaves(t2, h2)), key, 0));
        }
    }

    /// The tree never uses more nodes than a third of its keys and one.
    pub proof fn nodes_bounded(&self)
        requires
            self.inv(),
        ensures
            self.nodes() <= self@.dom().len() / 3 + 1,
    {
        model::leaves_facts(self.tree@, self.height@, 0, key_end(), true);
        model::as_map_len(self.entries());
    }
}

/// The tree that results from an insertion at the root: a split root gets a
/// new node on top.
spec fn topped(g: Grown, h: nat, id: u32) -> (Tree, nat) {
    match g {
        Grown::One(t) => (t, h),
        Grown::Two(l, sep, r) => (Tree::Inner { id, keys: seq![sep], kids: seq![l, r] }, h + 1),
    }
}

proof fn topped_facts(g: Grown, h: nat, id: u32, fresh: int)
    requires
        model::grown_wf(g, h, 0, key_end(), true),
    ensures
        wf(topped(g, h, id).0, topped(g, h, id).1, 0, key_end(), true),
        leaves(topped(g, h, id).0, topped(g, h, id).1) == grown_leaves(g, h),
        count(topped(g, h, id).0, topped(g, h, id).1) == model::grown_count(g, h) + (if g is Two {
            1int
        } else {
            0
        }),
{
    match g {
        Grown::One(t) => {},
        Grown::Two(l, sep, r) => {
            let kids = seq![l, r];
            let t = Tree::Inner { id, keys: seq![sep], kids };
            assert(kids[0] == l && kids[1] == r);
            assert forall|i: int| 0 <= i < kids.len() implies wf(
                #[trigger] kids[i],
                h,
                child_lo(seq![sep], i, 0),
                child_hi(seq![sep], i, key_end()),
                false,
            ) by {}
            assert(kids =~= seq![l] + seq![r]);
            model::leaves_kids_append(seq![l], seq![r], h);
            model::count_kids_append(seq![l], seq![r], h);
            model::one_kid(l, h);
            model::one_kid(r, h);
        },
    }
}

impl View for BTreeIndex {
    type V = Map<u64, u64>;

    closed spec fn view(&self) -> Map<u64, u64> {
        as_map(self.entries())
    }
}

proof fn top_owns(g: Grown, h: nat, id: u32)
    requires
        g is Two,
        model::grown_distinct(g, h),
        forall|x: int| #[trigger] model::grown_owns(g, h, x) ==> x != id,
    ensures
        distinct(topped(g, h, id).0, topped(g, h, id).1),
        forall|x: int|
            #[trigger] owns(topped(g, h, id).0, topped(g, h, id).1, x) <==> (x == id
                || model::grown_owns(g, h, x)),
{
    let l = g->Two_0;
    let r = g->Two_2;
    let kids = seq![l, r];
    let top = topped(g, h, id);
    assert(kids[0] == l && kids[1] == r);
    assert forall|x: int| #[trigger] owns(top.0, top.1, x) <==> (x == id || model::grown_owns(
        g,
        h,
        x,
    )) by {
        model::owns_inner(top.0, top.1, x);
        if model::held(kids, h, x) {
            let c = choose|c: int| 0 <= c < kids.len() && owns(#[trigger] kids[c], h, x);
            assert(c == 0 || c == 1);
        }
        if owns(l, h, x) {
            assert(owns(kids[0], h, x));
        }
        if owns(r, h, x) {
            assert(owns(kids[1], h, x));
        }
    }
    model::distinct_inner(top.0, top.1);
    assert(model::kids_distinct(kids, h, id)) by {
        assert forall|i: int| 0 <= i < kids.len() implies !#[trigger] owns(kids[i], h, id as int) by {
            assert(!model::grown_owns(g, h, id as int));
        }
    }
}

proof fn grow_keeps_id(t: Tree, h: nat, k: u64, v: u64, fresh: int)
    ensures
        match grow(t, h, k, v, fresh) {
            Grown::One(c) => c.id() == t.id(),
            Grown::Two(l, _, _) => l.id() == t.id(),
        },
{
}

/// A key that is there takes no new node.
proof fn present_needs_no_room(t: Tree, h: nat, k: u64, lo: int, hi: int, root: bool)
    requires
        wf(t, h, lo, hi, root),
        lo <= k < hi,
        exists|i: int| 0 <= i < flat(leaves(t, h)).len() && (#[trigger] flat(leaves(t, h))[i]).0 == k,
    ensures
        splits(t, h, k) == 0,
        !overflows(t, h, k),
    decreases h,
{
    let es = flat(leaves(t, h));
    let i = choose|i: int| 0 <= i < es.len() && (#[trigger] es[i]).0 == k;
    match t {
        Tree::Leaf { id, keys, vals } => {
            model::one_leaf_flat(t);
            model::rank_spec(keys, k);
            assert(keys[i] == k);
            assert(present(keys, k)) by {
                let p = rank(keys, k);
                assert(i < p);
                if i < p - 1 {
                    assert(keys[i] < keys[p - 1]);
                }
            }
        },
        Tree::Inner { id, keys, kids } => {
            let g = (h - 1) as nat;
            let c = rank(keys, k);
            model::rank_spec(keys, k);
            assert(wf(kids[c], g, child_lo(keys, c, lo), child_hi(keys, c, hi), false));
            model::descend(keys, kids, g, lo, hi, k, c);
            let a = flat(leaves_kids(kids.take(c), g));
            let m = flat(leaves(kids[c], g));
            let b = flat(leaves_kids(kids.skip(c + 1), g));
            assert(es == a + m + b);
            if i < a.len() {
                assert(es[i] == a[i]);
            } else if i >= a.len() + m.len() {
                assert(es[i] == b[i - a.len() - m.len()]);
            } else {
                assert(m[i - a.len()].0 == k);
            }
            present_needs_no_room(
                kids[c],
                g,
                k,
                child_lo(keys, c, lo),
                child_hi(keys, c, hi),
                false,
            );
        },
    }
}

/// The entries of a mapping from `start` on, in key order.
pub open spec fn scan_of(m: Map<u64, u64>, start: u64, visit: Seq<(u64, u64)>) -> bool {
    &&& in_order(visit)
    &&& forall|i: int|
        0 <= i < visit.len() ==> m.contains_key((#[trigger] visit[i]).0) && m[visit[i].0]
            == visit[i].1 && visit[i].0 >= start
    &&& forall|k: u64| m.contains_key(k) && k >= start ==> visit.contains((k, #[trigger] m[k]))
}

/// `f` applied to the entries in turn, its accumulator passed along, until it
/// asks to stop.
pub open spec fn folded<A, F: Fn(A, u64, u64) -> (A, bool)>(
    f: F,
    es: Seq<(u64, u64)>,
    init: A,
    fin: A,
) -> bool
    decreases es.len(),
{
    if es.len() == 0 {
        fin == init
    } else {
        exists|mid: A, go: bool|
            #![trigger f.ensures((init, es[0].0, es[0].1), (mid, go))]
            f.ensures((init, es[0].0, es[0].1), (mid, go)) && (if go {
                folded(f, es.drop_first(), mid, fin)
            } else {
                fin == mid
            })
    }
}

impl BTreeIndex {
    /// One pool allocation for the declared capacity.
    pub fn new(rows: u64) -> (index: Self)
        requires
            rows / 3 + 16 <= u32::MAX,
        ensures
            index.inv(),
            index@ == Map::<u64, u64>::empty(),
            index.pool_nodes() == rows / 3 + 16,
            index.nodes() == 1,
    {
        let cap: u64 = pool_nodes_for(rows);
        let pool: Vec<Node> = vec![Node::empty_leaf(); cap as usize];
        let ghost t = Tree::Leaf { id: 0, keys: Seq::empty(), vals: Seq::empty() };
        let mut index = BTreeIndex {
            pool,
            used: 0,
            root: 0,
            len: 0,
            tree: Ghost(t),
            height: Ghost(0),
        };
        index.root = index.alloc_node();
        proof {
            assert(index.pool@[0].keys@.take(0) =~= Seq::<u64>::empty());
            assert(index.pool@[0].vals@.take(0) =~= Seq::<u64>::empty());
            model::one_leaf_flat(t);
            assert(t.entries() =~= Seq::<(u64, u64)>::empty());
            assert(leaves(t, 0) =~= seq![t]);
            assert(linked(index.pool@, seq![t], NIL, 0));
            assert(index@ =~= Map::<u64, u64>::empty());
        }
        index
    }

    /// How many keys the index holds.
    pub fn len(&self) -> (n: u64)
        requires
            self.inv(),
        ensures
            n == self@.dom().len(),
    {
        proof {
            model::leaves_facts(self.tree@, self.height@, 0, key_end(), true);
            model::as_map_len(self.entries());
        }
        self.len
    }

    pub fn is_empty(&self) -> (yes: bool)
        requires
            self.inv(),
        ensures
            yes == (self@.dom().len() == 0),
    {
        self.len() == 0
    }

    /// Nodes in use, for the pool-bound assertions in tests.
    pub fn nodes_used(&self) -> (n: u32)
        ensures
            n == self.nodes(),
    {
        self.used
    }

    fn alloc_node(&mut self) -> (id: u32)
        requires
            old(self).used < old(self).pool@.len() <= u32::MAX,
        ensures
            id == old(self).used,
            final(self).used == old(self).used + 1,
            final(self).root == old(self).root,
            final(self).len == old(self).len,
            final(self).tree == old(self).tree,
            final(self).height == old(self).height,
            final(self).pool@.len() == old(self).pool@.len(),
            forall|x: int|
                0 <= x < old(self).pool@.len() && x != id ==> final(self).pool@[x] == old(
                    self,
                ).pool@[x],
            final(self).pool@[id as int].leaf,
            final(self).pool@[id as int].len == 0,
            final(self).pool@[id as int].next == NIL,
    {
        let id: u32 = self.used;
        self.pool[id as usize] = Node::empty_leaf();
        self.used = self.used + 1;
        id
    }

    /// Insert a key that is not there yet.
    pub fn insert(&mut self, key: u64, row: u64)
        requires
            old(self).inv(),
            !old(self)@.contains_key(key),
            old(self).has_room(key),
        ensures
            final(self).inv(),
            final(self)@ == old(self)@.insert(key, row),
            final(self).pool_nodes() == old(self).pool_nodes(),
    {
        self.enter(key, row, true);
    }

    /// Point an existing key at another row. `false`, and nothing done, if the
    /// key is absent.
    pub fn repoint(&mut self, key: u64, row: u64) -> (found: bool)
        requires
            old(self).inv(),
        ensures
            final(self).inv(),
            found == old(self)@.contains_key(key),
            final(self)@ == (if found {
                old(self)@.insert(key, row)
            } else {
                old(self)@
            }),
            final(self).pool_nodes() == old(self).pool_nodes(),
    {
        match self.get(key) {
            None => false,
            Some(_) => {
                proof {
                    let t = self.tree@;
                    let h = self.height@;
                    present_needs_no_room(t, h, key, 0, key_end(), true);
                }
                self.enter(key, row, false);
                true
            },
        }
    }

    /// Root split: the tree grows one level.
    #[verifier::rlimit(30)]
    fn raise_root(&mut self, sep: u64, right: u32, Ghost(g): Ghost<Grown>, Ghost(h): Ghost<nat>)
        requires
            g is Two,
            model::grown_wf(g, h, 0, key_end(), true),
            model::grown_distinct(g, h),
            forall|x: int| #[trigger] model::grown_owns(g, h, x) ==> 0 <= x < old(self).used,
            repr(old(self).pool@, g->Two_0, h),
            repr(old(self).pool@, g->Two_2, h),
            chain(old(self).pool@, grown_leaves(g, h), NIL),
            old(self).used < old(self).pool@.len() <= u32::MAX,
            old(self).root == g->Two_0.id(),
            sep == g->Two_1,
            right == g->Two_2.id(),
        ensures
            final(self).len == old(self).len,
            final(self).pool@.len() == old(self).pool@.len(),
            final(self).used == old(self).used + 1,
            final(self).root == old(self).used,
            ({
                let top = topped(g, h, old(self).used);
                &&& repr(final(self).pool@, top.0, top.1)
                &&& distinct(top.0, top.1)
                &&& forall|x: int| owns(top.0, top.1, x) ==> 0 <= x < final(self).used
                &&& chain(final(self).pool@, leaves(top.0, top.1), NIL)
            }),
    {
        let ghost before = self.pool@;
        let old_root: u32 = self.root;
        let new_root: u32 = self.alloc_node();
        let mut n = self.pool[new_root as usize];
        n.leaf = false;
        n.len = 1;
        n.keys[0] = sep;
        n.children[0] = old_root;
        n.children[1] = right;
        self.pool[new_root as usize] = n;
        self.root = new_root;
        proof {
            let top = topped(g, h, new_root);
            let l = g->Two_0;
            let r = g->Two_2;
            let kids = seq![l, r];
            let pool = self.pool@;
            assert(n.keys@.take(1) =~= seq![sep]);
            assert forall|x: int| owns(l, h, x) implies before[x] == pool[x] by {
                assert(model::grown_owns(g, h, x));
            }
            assert forall|x: int| owns(r, h, x) implies before[x] == pool[x] by {
                assert(model::grown_owns(g, h, x));
            }
            repr_frame(before, pool, l, h);
            repr_frame(before, pool, r, h);
            assert(kids[0] == l && kids[1] == r);
            assert(repr(pool, top.0, top.1)) by {
                assert forall|i: int| 0 <= i < kids.len() implies pool[new_root as int].children@[i]
                    == (#[trigger] kids[i]).id() by {}
                assert forall|i: int| 0 <= i < kids.len() implies repr(
                    pool,
                    #[trigger] kids[i],
                    h,
                ) by {}
            }
            top_owns(g, h, new_root);
            topped_facts(g, h, new_root, 0);
            let ls = grown_leaves(g, h);
            assert forall|i: int| 0 <= i < ls.len() implies before[(
            #[trigger] ls[i]).id() as int].next == pool[ls[i].id() as int].next by {
                let m = leaves(l, h).len();
                if i < m {
                    leaves_owned(l, h, 0, sep as int, false, i);
                } else {
                    leaves_owned(r, h, sep as int, key_end(), false, i - m);
                }
                assert(model::grown_owns(g, h, ls[i].id() as int));
            }
            chain_frame(before, pool, ls, NIL);
        }
    }

    /// Insert or repoint `key`.
    fn enter(&mut self, key: u64, row: u64, absent: bool)
        requires
            old(self).inv(),
            absent == !old(self)@.contains_key(key),
            old(self).has_room(key),
        ensures
            final(self).inv(),
            final(self)@ == old(self)@.insert(key, row),
            final(self).pool_nodes() == old(self).pool_nodes(),
    {
        let ghost t = self.tree@;
        let ghost h = self.height@;
        let ghost fresh = self.used as int;
        let ghost g = grow(t, h, key, row, fresh);
        let ghost old_es = self.entries();
        proof {
            model::leaves_facts(t, h, 0, key_end(), true);
            model::grow_wf(t, h, key, row, fresh, 0, key_end(), true);
            model::grow_lists(t, h, key, row, fresh, 0, key_end(), true);
            model::grow_flat(t, h, key, row, fresh, 0, key_end(), true);
            model::grow_owns(t, h, key, row, fresh, 0, key_end(), true);
            topped_facts(g, h, (fresh + splits(t, h, key)) as u32, fresh);
        }
        let split = self.insert_into(
            self.root,
            key,
            row,
            Ghost(t),
            Ghost(h),
            Ghost(0),
            Ghost(key_end()),
            Ghost(true),
            Ghost(NIL),
        );
        let ghost top = topped(g, h, (fresh + splits(t, h, key)) as u32);
        proof {
            grow_keeps_id(t, h, key, row, fresh);
        }
        if let Some((sep, right)) = split {
            self.raise_root(sep, right, Ghost(g), Ghost(h));
        } else {
            assert forall|x: int| owns(top.0, top.1, x) implies 0 <= x < self.used by {
                assert(model::grown_owns(g, h, x));
            }
        }
        proof {
            model::leaves_facts(top.0, top.1, 0, key_end(), true);
            let new_es = flat(leaves(top.0, top.1));
            model::as_map_entered(old_es, new_es, key, row);
        }
        self.tree = Ghost(top.0);
        self.height = Ghost(top.1);
        if absent {
            self.len = self.len + 1;
        }
    }
}

/// What inserting below a node does to the pool.
spec fn settled(
    before: Seq<Node>,
    after: Seq<Node>,
    t: Tree,
    h: nat,
    k: u64,
    v: u64,
    fresh: int,
    end: u32,
    out: Option<(u64, u32)>,
) -> bool {
    let g = grow(t, h, k, v, fresh);
    &&& before.len() == after.len()
    &&& forall|x: int|
        0 <= x < fresh && !#[trigger] owns(t, h, x) ==> #[trigger] after[x] == before[x]
    &&& chain(after, grown_leaves(g, h), end)
    &&& match g {
        Grown::One(c) => out is None && repr(after, c, h),
        Grown::Two(l, sep, r) => out == Some((sep, r.id())) && repr(after, l, h) && repr(
            after,
            r,
            h,
        ),
    }
}

impl BTreeIndex {
    /// Recursive insert; returns `Some((separator, new_right))` if `id` split.
    #[verifier::rlimit(60)]
    #[verifier::spinoff_prover]
    fn insert_into(
        &mut self,
        id: u32,
        key: u64,
        row: u64,
        Ghost(t): Ghost<Tree>,
        Ghost(h): Ghost<nat>,
        Ghost(lo): Ghost<int>,
        Ghost(hi): Ghost<int>,
        Ghost(is_root): Ghost<bool>,
        Ghost(end): Ghost<u32>,
    ) -> (out: Option<(u64, u32)>)
        requires
            old(self).pool@.len() <= u32::MAX,
            wf(t, h, lo, hi, is_root),
            lo <= key < hi,
            distinct(t, h),
            forall|x: int| owns(t, h, x) ==> 0 <= x < old(self).used,
            repr(old(self).pool@, t, h),
            id == t.id(),
            chain(old(self).pool@, leaves(t, h), end),
            old(self).used + splits(t, h, key) <= old(self).pool@.len(),
        ensures
            final(self).root == old(self).root,
            final(self).len == old(self).len,
            final(self).tree == old(self).tree,
            final(self).height == old(self).height,
            final(self).used == old(self).used + splits(t, h, key),
            settled(
                old(self).pool@,
                final(self).pool@,
                t,
                h,
                key,
                row,
                old(self).used as int,
                end,
                out,
            ),
        decreases h,
    {
        let n0 = self.pool[id as usize];
        assert(owns(t, h, id as int));
        if n0.leaf {
            return self.insert_into_leaf(id, key, row, Ghost(t), Ghost(h), Ghost(lo), Ghost(hi), Ghost(is_root), Ghost(end));
        }
        let ghost pool0 = self.pool@;
        let ghost fresh = self.used as int;
        let ghost keys = t->Inner_keys;
        let ghost kids = t->kids;
        let ghost g = (h - 1) as nat;
        let len: usize = n0.len as usize;
        let child_idx: usize = place(&n0.keys, len, key);
        let ghost i = child_idx as int;
        proof {
            assert(t is Inner);
            model::rank_spec(keys, key);
            model::distinct_inner(t, h);
            assert(kids[i] == t->kids[i]);
        }
        let child: u32 = n0.children[child_idx];
        let ghost klo = child_lo(keys, i, lo);
        let ghost khi = child_hi(keys, i, hi);
        let ghost la = leaves_kids(kids.take(i), g);
        let ghost lm = leaves(kids[i], g);
        let ghost lb = leaves_kids(kids.skip(i + 1), g);
        proof {
            assert(wf(kids[i], g, klo, khi, false));
            model::descend(keys, kids, g, lo, hi, key, i);
            model::leaves_facts(kids[i], g, klo, khi, false);
            chain_split(pool0, la, lm, lb, end);
            assert forall|x: int| owns(kids[i], g, x) implies 0 <= x < self.used by {
                model::owns_inner(t, h, x);
            }
        }
        let split = self.insert_into(
            child,
            key,
            row,
            Ghost(kids[i]),
            Ghost(g),
            Ghost(klo),
            Ghost(khi),
            Ghost(false),
            Ghost(first_id(lb, end)),
        );
        let ghost pool1 = self.pool@;
        let ghost sub = grow(kids[i], g, key, row, fresh);
        let ghost s = splits(kids[i], g, key) as int;
        let ghost ln = grown_leaves(sub, g);
        proof {
            grow_keeps_id(kids[i], g, key, row, fresh);
            model::grow_wf(kids[i], g, key, row, fresh, klo, khi, false);
            model::grow_flat(kids[i], g, key, row, fresh, klo, khi, false);
            model::grow_lists(t, h, key, row, fresh, lo, hi, is_root);
            model::grow_owns(kids[i], g, key, row, fresh, klo, khi, false);
            siblings_framed(pool0, pool1, t, h, i, fresh, lo, hi, is_root);
            siblings_chained(pool0, pool1, t, h, i, fresh, lo, hi, is_root, lm[0].id(), end);
            chain_join(pool1, la, ln, lb, end);
            assert(chain(pool1, la + ln + lb, end));
            assert(!owns(kids[i], g, id as int));
            assert(pool1[id as int] == pool0[id as int]);
            assert forall|x: int| 0 <= x < fresh && !#[trigger] owns(t, h, x) implies #[trigger] pool1[x]
                == pool0[x] by {
                model::owns_inner(t, h, x);
                assert(!owns(kids[i], g, x));
            }
        }
        let (sep, right): (u64, u32) = match split {
            None => {
                proof {
                    let c = sub->One_0;
                    let cs = kids.update(i, c);
                    assert(repr(pool1, Tree::Inner { id, keys, kids: cs }, h)) by {
                        assert forall|j: int| 0 <= j < cs.len() implies pool1[id as int].children@[j]
                            == (#[trigger] cs[j]).id() by {
                            assert(j != i ==> cs[j] == kids[j]);
                            assert(pool0[id as int].children@[j] == kids[j].id());
                        }
                        assert forall|j: int| 0 <= j < cs.len() implies repr(
                            pool1,
                            #[trigger] cs[j],
                            g,
                        ) by {
                            assert(j != i ==> cs[j] == kids[j]);
                        }
                    }
                }
                return None;
            },
            Some(p) => p,
        };
        proof {
            widened_repr(pool1, t, h, i, sub->Two_0, sub->Two_2);
            assert forall|x: int, j: int| 0 <= j < kids.len() && #[trigger] owns(
                kids[j],
                g,
                x,
            ) implies x < fresh by {
                model::owns_inner(t, h, x);
            }
            model::widened_owns(kids, i, sub->Two_0, sep, sub->Two_2, g, fresh, s);
            assert(below(pool0, pool1, t, h, key, row, fresh, end, lo, hi, is_root));
        }
        // The child split: insert (sep, right) into this internal node.
        if len < ORDER {
            self.widen_node(
                id,
                child_idx,
                sep,
                right,
                Ghost(pool0),
                Ghost(t),
                Ghost(h),
                Ghost(key),
                Ghost(row),
                Ghost(fresh),
                Ghost(end),
                Ghost(lo),
                Ghost(hi),
                Ghost(is_root),
            );
            return None;
        }
        self.split_node(
            id,
            child_idx,
            sep,
            right,
            Ghost(pool0),
            Ghost(t),
            Ghost(h),
            Ghost(key),
            Ghost(row),
            Ghost(fresh),
            Ghost(end),
            Ghost(lo),
            Ghost(hi),
            Ghost(is_root),
        )
    }
}

/// The state in the middle of an insertion: the child has split, the node
/// above it has not been told yet.
spec fn below(
    pool0: Seq<Node>,
    pool1: Seq<Node>,
    t: Tree,
    h: nat,
    k: u64,
    v: u64,
    fresh: int,
    end: u32,
    lo: int,
    hi: int,
    root: bool,
) -> bool {
    let keys = t->Inner_keys;
    let kids = t->kids;
    let g = (h - 1) as nat;
    let i = rank(keys, k);
    let sub = grow(kids[i], g, k, v, fresh);
    let s = splits(kids[i], g, k) as int;
    let cs = widened(kids, i, sub->Two_0, sub->Two_2);
    &&& t is Inner
    &&& wf(t, h, lo, hi, root)
    &&& lo <= k < hi
    &&& distinct(t, h)
    &&& forall|x: int| owns(t, h, x) ==> 0 <= x < fresh
    &&& fresh + splits(t, h, k) <= pool0.len() <= u32::MAX
    &&& pool0.len() == pool1.len()
    &&& repr(pool0, t, h)
    &&& sub is Two
    &&& sub->Two_0.id() == kids[i].id()
    &&& 0 <= i < kids.len()
    &&& forall|j: int| 0 <= j < cs.len() ==> repr(pool1, #[trigger] cs[j], g)
    &&& model::redealt(kids, cs, g, fresh, s)
    &&& chain(pool1, grown_leaves(grow(t, h, k, v, fresh), h), end)
    &&& grown_leaves(grow(t, h, k, v, fresh), h) == leaves_kids(kids.take(i), g) + grown_leaves(
        sub,
        g,
    ) + leaves_kids(kids.skip(i + 1), g)
    &&& pool1[t.id() as int] == pool0[t.id() as int]
    &&& forall|x: int|
        0 <= x < fresh && !#[trigger] owns(t, h, x) ==> #[trigger] pool1[x] == pool0[x]
}

impl BTreeIndex {
    #[verifier::rlimit(60)]
    #[verifier::spinoff_prover]
    fn widen_node(
        &mut self,
        id: u32,
        child_idx: usize,
        sep: u64,
        right: u32,
        Ghost(pool0): Ghost<Seq<Node>>,
        Ghost(t): Ghost<Tree>,
        Ghost(h): Ghost<nat>,
        Ghost(key): Ghost<u64>,
        Ghost(row): Ghost<u64>,
        Ghost(fresh): Ghost<int>,
        Ghost(end): Ghost<u32>,
        Ghost(lo): Ghost<int>,
        Ghost(hi): Ghost<int>,
        Ghost(root): Ghost<bool>,
    )
        requires
            below(pool0, old(self).pool@, t, h, key, row, fresh, end, lo, hi, root),
            id == t.id(),
            child_idx == rank(t->Inner_keys, key),
            t->Inner_keys.len() < 8,
            ({
                let sub = grow(t->kids[child_idx as int], (h - 1) as nat, key, row, fresh);
                sep == sub->Two_1 && right == sub->Two_2.id()
            }),
        ensures
            final(self).root == old(self).root,
            final(self).len == old(self).len,
            final(self).tree == old(self).tree,
            final(self).height == old(self).height,
            final(self).used == old(self).used,
            settled(pool0, final(self).pool@, t, h, key, row, fresh, end, None),
    {
        let ghost pool1 = self.pool@;
        let ghost keys = t->Inner_keys;
        let ghost kids = t->kids;
        let ghost g = (h - 1) as nat;
        let ghost i = child_idx as int;
        let ghost sub = grow(kids[i], g, key, row, fresh);
        let ghost l = sub->Two_0;
        let ghost r = sub->Two_2;
        let ghost ks = keys.insert(i, sep);
        let ghost cs = widened(kids, i, l, r);
        assert(owns(t, h, id as int));
        let n0 = self.pool[id as usize];
        let len: usize = n0.len as usize;
        let mut n = n0;
        n.keys = shifted(&n0.keys, len, child_idx, sep);
        n.children = shifted(&n0.children, len + 1, child_idx + 1, right);
        n.len = n0.len + 1;
        self.pool[id as usize] = n;
        proof {
            let pool2 = self.pool@;
            let t2 = Tree::Inner { id, keys: ks, kids: cs };
            assert(n.keys@.take(ks.len() as int) =~= ks);
            let ids = n.children@.take(len + 2);
            assert forall|j: int| 0 <= j < cs.len() implies n.children@[j] == (
            #[trigger] cs[j]).id() by {
                assert(ids[j] == n.children@[j]);
                widened_id(n0.children@, kids, i, l, r, j);
                assert(n0.children@.take(len + 1).insert(i + 1, right)[j] == ids[j]);
            }
            model::distinct_inner(t, h);
            assert forall|j: int| 0 <= j < cs.len() implies repr(pool2, #[trigger] cs[j], g) by {
                assert(repr(pool1, cs[j], g));
                assert forall|x: int| owns(cs[j], g, x) implies pool1[x] == pool2[x] by {
                    owned_in_pool(pool1, cs[j], g, x);
                    assert(model::held(cs, g, x));
                    if x == id {
                        assert(model::held(kids, g, x));
                    }
                }
                repr_frame(pool1, pool2, cs[j], g);
            }
            assert(repr(pool2, t2, h));
            leaves_elsewhere(pool1, pool2, t, h, key, row, fresh, lo, hi, root, id as int);
            chain_frame(pool1, pool2, grown_leaves(grow(t, h, key, row, fresh), h), end);
            assert forall|x: int| 0 <= x < fresh && !#[trigger] owns(t, h, x) implies
                #[trigger] pool2[x] == pool0[x] by {
                assert(pool1[x] == pool0[x]);
            }
        }
    }

    #[verifier::rlimit(60)]
    #[verifier::spinoff_prover]
    fn split_node(
        &mut self,
        id: u32,
        child_idx: usize,
        sep: u64,
        right: u32,
        Ghost(pool0): Ghost<Seq<Node>>,
        Ghost(t): Ghost<Tree>,
        Ghost(h): Ghost<nat>,
        Ghost(key): Ghost<u64>,
        Ghost(row): Ghost<u64>,
        Ghost(fresh): Ghost<int>,
        Ghost(end): Ghost<u32>,
        Ghost(lo): Ghost<int>,
        Ghost(hi): Ghost<int>,
        Ghost(root): Ghost<bool>,
    ) -> (out: Option<(u64, u32)>)
        requires
            below(pool0, old(self).pool@, t, h, key, row, fresh, end, lo, hi, root),
            id == t.id(),
            child_idx == rank(t->Inner_keys, key),
            t->Inner_keys.len() == 8,
            old(self).used == fresh + splits(t->kids[child_idx as int], (h - 1) as nat, key),
            old(self).used < old(self).pool@.len(),
            ({
                let sub = grow(t->kids[child_idx as int], (h - 1) as nat, key, row, fresh);
                sep == sub->Two_1 && right == sub->Two_2.id()
            }),
        ensures
            final(self).root == old(self).root,
            final(self).len == old(self).len,
            final(self).tree == old(self).tree,
            final(self).height == old(self).height,
            final(self).used == old(self).used + 1,
            settled(pool0, final(self).pool@, t, h, key, row, fresh, end, out),
    {
        let ghost pool1 = self.pool@;
        let ghost keys = t->Inner_keys;
        let ghost kids = t->kids;
        let ghost g = (h - 1) as nat;
        let ghost i = child_idx as int;
        let ghost sub = grow(kids[i], g, key, row, fresh);
        let ghost s = splits(kids[i], g, key) as int;
        let ghost l = sub->Two_0;
        let ghost r = sub->Two_2;
        let ghost ks = keys.insert(i, sep);
        let ghost cs = widened(kids, i, l, r);
        assert(owns(t, h, id as int));
        let n0 = self.pool[id as usize];
        let len: usize = n0.len as usize;
        // Internal overflow: ORDER+1 keys conceptually; the middle moves up.
        let keys9: [u64; 9] = shifted(&n0.keys, len, child_idx, sep);
        let children10: [u32; 10] = shifted(&n0.children, len + 1, child_idx + 1, right);
        proof {
            assert(keys9@.take(9) =~= keys9@);
            assert(children10@.take(10) =~= children10@);
            assert(keys9@ =~= ks);
            assert forall|j: int| 0 <= j < cs.len() implies children10@[j] == (
            #[trigger] cs[j]).id() by {
                widened_id(n0.children@, kids, i, l, r, j);
                assert(n0.children@.take(len + 1).insert(i + 1, right)[j] == children10@[j]);
            }
        }
        let new_right: u32 = self.alloc_node();
        let mut rn = self.pool[new_right as usize];
        rn.leaf = false;
        rn.len = 4;
        rn.keys = window(&keys9, 5, 4, 0);
        rn.children = window(&children10, 5, 5, NIL);
        self.pool[new_right as usize] = rn;
        let mut n = n0;
        n.len = 4;
        n.keys = window(&keys9, 0, 4, 0);
        n.children = window(&children10, 0, 5, NIL);
        self.pool[id as usize] = n;
        proof {
            let pool2 = self.pool@;
            let tl = Tree::Inner { id, keys: ks.take(4), kids: cs.take(5) };
            let tr = Tree::Inner { id: new_right, keys: ks.skip(5), kids: cs.skip(5) };
            model::distinct_inner(t, h);
            assert forall|x: int, j: int| 0 <= j < cs.len() && #[trigger] owns(
                cs[j],
                g,
                x,
            ) implies x != id && x != new_right by {
                assert(model::held(cs, g, x));
                if x == id || x == new_right {
                    assert(model::held(kids, g, x));
                    model::owns_inner(t, h, x);
                }
            }
            assert forall|j: int| 0 <= j < cs.len() implies repr(pool2, #[trigger] cs[j], g) by {
                assert(repr(pool1, cs[j], g));
                assert forall|x: int| owns(cs[j], g, x) implies pool1[x] == pool2[x] by {
                    owned_in_pool(pool1, cs[j], g, x);
                }
                repr_frame(pool1, pool2, cs[j], g);
            }
            assert(n.keys@.take(4) =~= ks.take(4));
            assert(rn.keys@.take(4) =~= ks.skip(5));
            let cl = cs.take(5);
            let cr = cs.skip(5);
            assert(repr(pool2, tl, h)) by {
                assert forall|j: int| 0 <= j < cl.len() implies pool2[id as int].children@[j] == (
                #[trigger] cl[j]).id() by {
                    assert(n.children@.take(5)[j] == children10@[j]);
                    assert(cl[j] == cs[j]);
                }
                assert forall|j: int| 0 <= j < cl.len() implies repr(pool2, #[trigger] cl[j], g) by {
                    assert(cl[j] == cs[j]);
                }
            }
            assert(repr(pool2, tr, h)) by {
                assert forall|j: int| 0 <= j < cr.len() implies pool2[new_right as int].children@[j]
                    == (#[trigger] cr[j]).id() by {
                    assert(rn.children@.take(5)[j] == children10@[j + 5]);
                    assert(cr[j] == cs[j + 5]);
                }
                assert forall|j: int| 0 <= j < cr.len() implies repr(pool2, #[trigger] cr[j], g) by {
                    assert(cr[j] == cs[j + 5]);
                }
            }
            leaves_elsewhere(pool1, pool2, t, h, key, row, fresh, lo, hi, root, id as int);
            chain_frame(pool1, pool2, grown_leaves(grow(t, h, key, row, fresh), h), end);
            assert forall|x: int| 0 <= x < fresh && !#[trigger] owns(t, h, x) implies
                #[trigger] pool2[x] == pool0[x] by {
                assert(pool1[x] == pool0[x]);
            }
        }
        Some((keys9[4], new_right))
    }
}

/// The pool below a node's other children is as it was.
spec fn kid_changed_only(pool0: Seq<Node>, pool1: Seq<Node>, kid: Tree, g: nat, fresh: int) -> bool {
    &&& pool0.len() == pool1.len()
    &&& forall|x: int|
        0 <= x < fresh && !#[trigger] owns(kid, g, x) ==> #[trigger] pool1[x] == pool0[x]
}

proof fn siblings_framed(
    pool0: Seq<Node>,
    pool1: Seq<Node>,
    t: Tree,
    h: nat,
    i: int,
    fresh: int,
    lo: int,
    hi: int,
    root: bool,
)
    requires
        t is Inner,
        wf(t, h, lo, hi, root),
        0 <= i < t->kids.len(),
        repr(pool0, t, h),
        distinct(t, h),
        forall|x: int| owns(t, h, x) ==> 0 <= x < fresh,
        kid_changed_only(pool0, pool1, t->kids[i], (h - 1) as nat, fresh),
    ensures
        forall|j: int|
            0 <= j < t->kids.len() && j != i ==> repr(pool1, #[trigger] t->kids[j], (h - 1) as nat),
{
    let kids = t->kids;
    let g = (h - 1) as nat;
    model::distinct_inner(t, h);
    assert forall|j: int| 0 <= j < kids.len() && j != i implies repr(
        pool1,
        #[trigger] kids[j],
        g,
    ) by {
        assert(repr(pool0, kids[j], g));
        assert forall|x: int| owns(kids[j], g, x) implies pool0[x] == pool1[x] by {
            model::owns_inner(t, h, x);
            assert(!owns(kids[i], g, x)) by {
                if j < i {
                    assert(owns(kids[j], g, x) ==> !owns(kids[i], g, x));
                } else {
                    assert(owns(kids[i], g, x) ==> !owns(kids[j], g, x));
                }
            }
        }
        repr_frame(pool0, pool1, kids[j], g);
    }
}

proof fn kids_wf_some(t: Tree, h: nat, lo: int, hi: int, root: bool)
    requires
        t is Inner,
        wf(t, h, lo, hi, root),
    ensures
        forall|i: int|
            0 <= i < t->kids.len() ==> some_wf(#[trigger] t->kids[i], (h - 1) as nat),
{
    let kids = t->kids;
    let keys = t->Inner_keys;
    assert forall|i: int| 0 <= i < kids.len() implies some_wf(#[trigger] kids[i], (h - 1) as nat) by {
        assert(wf(kids[i], (h - 1) as nat, child_lo(keys, i, lo), child_hi(keys, i, hi), false));
    }
}

/// A leaf of the children before or after child `i` is owned by one of them.
proof fn sibling_leaf_owned(
    t: Tree,
    h: nat,
    i: int,
    n: int,
    lo: int,
    hi: int,
    root: bool,
    before: bool,
) -> (j: int)
    requires
        t is Inner,
        wf(t, h, lo, hi, root),
        0 <= i < t->kids.len(),
        before ==> 0 <= n < leaves_kids(t->kids.take(i), (h - 1) as nat).len(),
        !before ==> 0 <= n < leaves_kids(t->kids.skip(i + 1), (h - 1) as nat).len(),
    ensures
        0 <= j < t->kids.len(),
        j != i,
        before ==> owns(
            t->kids[j],
            (h - 1) as nat,
            leaves_kids(t->kids.take(i), (h - 1) as nat)[n].id() as int,
        ),
        !before ==> owns(
            t->kids[j],
            (h - 1) as nat,
            leaves_kids(t->kids.skip(i + 1), (h - 1) as nat)[n].id() as int,
        ),
{
    let kids = t->kids;
    let g = (h - 1) as nat;
    kids_wf_some(t, h, lo, hi, root);
    if before {
        let a = kids.take(i);
        assert forall|c: int| 0 <= c < a.len() implies some_wf(#[trigger] a[c], g) by {
            assert(a[c] == kids[c]);
        }
        let j = kid_leaves_owned(a, g, n);
        assert(a[j] == kids[j]);
        j
    } else {
        let b = kids.skip(i + 1);
        assert forall|c: int| 0 <= c < b.len() implies some_wf(#[trigger] b[c], g) by {
            assert(b[c] == kids[i + 1 + c]);
        }
        let j = kid_leaves_owned(b, g, n);
        assert(b[j] == kids[i + 1 + j]);
        i + 1 + j
    }
}

proof fn siblings_chained(
    pool0: Seq<Node>,
    pool1: Seq<Node>,
    t: Tree,
    h: nat,
    i: int,
    fresh: int,
    lo: int,
    hi: int,
    root: bool,
    mid: u32,
    end: u32,
)
    requires
        t is Inner,
        wf(t, h, lo, hi, root),
        0 <= i < t->kids.len(),
        distinct(t, h),
        forall|x: int| owns(t, h, x) ==> 0 <= x < fresh,
        kid_changed_only(pool0, pool1, t->kids[i], (h - 1) as nat, fresh),
        chain(pool0, leaves_kids(t->kids.take(i), (h - 1) as nat), mid),
        chain(pool0, leaves_kids(t->kids.skip(i + 1), (h - 1) as nat), end),
    ensures
        chain(pool1, leaves_kids(t->kids.take(i), (h - 1) as nat), mid),
        chain(pool1, leaves_kids(t->kids.skip(i + 1), (h - 1) as nat), end),
{
    let kids = t->kids;
    let g = (h - 1) as nat;
    let la = leaves_kids(kids.take(i), g);
    let lb = leaves_kids(kids.skip(i + 1), g);
    model::distinct_inner(t, h);
    assert forall|n: int| 0 <= n < la.len() implies pool0[(#[trigger] la[n]).id() as int].next
        == pool1[la[n].id() as int].next by {
        let j = sibling_leaf_owned(t, h, i, n, lo, hi, root, true);
        let x = la[n].id() as int;
        assert(owns(kids[j], g, x));
        model::owns_inner(t, h, x);
        assert(!owns(kids[i], g, x));
    }
    assert forall|n: int| 0 <= n < lb.len() implies pool0[(#[trigger] lb[n]).id() as int].next
        == pool1[lb[n].id() as int].next by {
        let j = sibling_leaf_owned(t, h, i, n, lo, hi, root, false);
        let x = lb[n].id() as int;
        assert(owns(kids[j], g, x));
        model::owns_inner(t, h, x);
        assert(!owns(kids[i], g, x));
    }
    chain_frame(pool0, pool1, la, mid);
    chain_frame(pool0, pool1, lb, end);
}

proof fn widened_repr(pool: Seq<Node>, t: Tree, h: nat, i: int, l: Tree, r: Tree)
    requires
        t is Inner,
        0 <= i < t->kids.len(),
        forall|j: int|
            0 <= j < t->kids.len() && j != i ==> repr(pool, #[trigger] t->kids[j], (h - 1) as nat),
        repr(pool, l, (h - 1) as nat),
        repr(pool, r, (h - 1) as nat),
    ensures
        forall|j: int|
            0 <= j < widened(t->kids, i, l, r).len() ==> repr(
                pool,
                #[trigger] widened(t->kids, i, l, r)[j],
                (h - 1) as nat,
            ),
{
    let kids = t->kids;
    let cs = widened(kids, i, l, r);
    assert forall|j: int| 0 <= j < cs.len() implies repr(
        pool,
        #[trigger] cs[j],
        (h - 1) as nat,
    ) by {
        if j < i {
            assert(cs[j] == kids[j]);
        } else if j > i + 1 {
            assert(cs[j] == kids[j - 1]);
        }
    }
}

proof fn widened_id(children: Seq<u32>, kids: Seq<Tree>, i: int, l: Tree, r: Tree, j: int)
    requires
        children.len() >= kids.len(),
        forall|c: int| 0 <= c < kids.len() ==> children[c] == (#[trigger] kids[c]).id(),
        0 <= i < kids.len(),
        l.id() == kids[i].id(),
        0 <= j <= kids.len(),
    ensures
        children.take(kids.len() as int).insert(i + 1, r.id())[j] == widened(kids, i, l, r)[j].id(),
{
    let cs = widened(kids, i, l, r);
    if j < i {
        assert(cs[j] == kids[j]);
    } else if j > i + 1 {
        assert(cs[j] == kids[j - 1]);
    }
}

/// A subtree held in the pool owns slots of the pool.
proof fn owned_in_pool(pool: Seq<Node>, t: Tree, h: nat, x: int)
    requires
        repr(pool, t, h),
        owns(t, h, x),
    ensures
        0 <= x < pool.len(),
    decreases h,
{
    match t {
        Tree::Leaf { .. } => {},
        Tree::Inner { id, kids, .. } => {
            model::owns_inner(t, h, x);
            if x != id {
                let g = (h - 1) as nat;
                let c = choose|c: int| 0 <= c < kids.len() && owns(#[trigger] kids[c], g, x);
                assert(repr(pool, kids[c], g));
                owned_in_pool(pool, kids[c], g, x);
            }
        },
    }
}

/// Rewriting an inner node, and filling a fresh slot, leaves every leaf alone.
proof fn leaves_elsewhere(
    pool1: Seq<Node>,
    pool2: Seq<Node>,
    t: Tree,
    h: nat,
    k: u64,
    v: u64,
    fresh: int,
    lo: int,
    hi: int,
    root: bool,
    id: int,
)
    requires
        t is Inner,
        id == t->Inner_id,
        wf(t, h, lo, hi, root),
        lo <= k < hi,
        distinct(t, h),
        forall|x: int| owns(t, h, x) ==> 0 <= x < fresh,
        fresh + splits(t, h, k) <= u32::MAX,
        fresh <= pool1.len() == pool2.len(),
        fresh + splits(t->kids[rank(t->Inner_keys, k)], (h - 1) as nat, k) <= pool1.len(),
        forall|x: int|
            0 <= x < pool1.len() && x != id && x != fresh + splits(
                t->kids[rank(t->Inner_keys, k)],
                (h - 1) as nat,
                k,
            ) ==> pool1[x] == pool2[x],
    ensures
        ({
            let g = (h - 1) as nat;
            let i = rank(t->Inner_keys, k);
            let ls = leaves_kids(t->kids.take(i), g) + grown_leaves(
                grow(t->kids[i], g, k, v, fresh),
                g,
            ) + leaves_kids(t->kids.skip(i + 1), g);
            forall|n: int|
                0 <= n < ls.len() ==> pool1[(#[trigger] ls[n]).id() as int].next
                    == pool2[ls[n].id() as int].next
        }),
{
    let kids = t->kids;
    let keys = t->Inner_keys;
    let g = (h - 1) as nat;
    let i = rank(keys, k);
    model::rank_spec(keys, k);
    model::distinct_inner(t, h);
    let klo = child_lo(keys, i, lo);
    let khi = child_hi(keys, i, hi);
    assert(wf(kids[i], g, klo, khi, false));
    model::descend(keys, kids, g, lo, hi, k, i);
    let sub = grow(kids[i], g, k, v, fresh);
    let la = leaves_kids(kids.take(i), g);
    let ln = grown_leaves(sub, g);
    let lb = leaves_kids(kids.skip(i + 1), g);
    let ls = la + ln + lb;
    let s = splits(kids[i], g, k) as int;
    assert(owns(t, h, id));
    assert forall|x: int| owns(kids[i], g, x) implies x < fresh by {
        model::owns_inner(t, h, x);
    }
    model::grow_wf(kids[i], g, k, v, fresh, klo, khi, false);
    model::grow_owns(kids[i], g, k, v, fresh, klo, khi, false);
    assert forall|n: int| 0 <= n < ls.len() implies pool1[(#[trigger] ls[n]).id() as int].next
        == pool2[ls[n].id() as int].next by {
        let x = ls[n].id() as int;
        model::owns_inner(t, h, x);
        if n < la.len() {
            let j = sibling_leaf_owned(t, h, i, n, lo, hi, root, true);
            assert(owns(kids[j], g, x));
            assert(!owns(kids[j], g, id));
        } else if n >= la.len() + ln.len() {
            let m = n - la.len() - ln.len();
            let j = sibling_leaf_owned(t, h, i, m, lo, hi, root, false);
            assert(ls[n] == lb[m]);
            assert(owns(kids[j], g, x));
            assert(!owns(kids[j], g, id));
        } else {
            let m = n - la.len();
            assert(ls[n] == ln[m]);
            match sub {
                Grown::One(c) => {
                    leaves_owned(c, g, klo, khi, false, m);
                },
                Grown::Two(l, sep, r) => {
                    let w = leaves(l, g).len();
                    if m < w {
                        leaves_owned(l, g, klo, sep as int, false, m);
                    } else {
                        leaves_owned(r, g, sep as int, khi, false, m - w);
                    }
                },
            }
            assert(model::grown_owns(sub, g, x));
            assert(!owns(kids[i], g, id));
            assert(owns(t, h, id));
            if owns(kids[i], g, x) {
                assert(model::held(kids, g, x));
            }
        }
    }
}

impl BTreeIndex {
    #[verifier::rlimit(40)]
    fn insert_into_leaf(
        &mut self,
        id: u32,
        key: u64,
        row: u64,
        Ghost(t): Ghost<Tree>,
        Ghost(h): Ghost<nat>,
        Ghost(lo): Ghost<int>,
        Ghost(hi): Ghost<int>,
        Ghost(is_root): Ghost<bool>,
        Ghost(end): Ghost<u32>,
    ) -> (out: Option<(u64, u32)>)
        requires
            old(self).pool@.len() <= u32::MAX,
            t is Leaf,
            wf(t, h, lo, hi, is_root),
            lo <= key < hi,
            forall|x: int| owns(t, h, x) ==> 0 <= x < old(self).used,
            repr(old(self).pool@, t, h),
            id == t.id(),
            chain(old(self).pool@, leaves(t, h), end),
            old(self).used + splits(t, h, key) <= old(self).pool@.len(),
        ensures
            final(self).root == old(self).root,
            final(self).len == old(self).len,
            final(self).tree == old(self).tree,
            final(self).height == old(self).height,
            final(self).used == old(self).used + splits(t, h, key),
            settled(
                old(self).pool@,
                final(self).pool@,
                t,
                h,
                key,
                row,
                old(self).used as int,
                end,
                out,
            ),
    {
        let ghost pool0 = self.pool@;
        let ghost fresh = self.used as int;
        let ghost keys = t->Leaf_keys;
        let ghost vals = t->vals;
        assert(owns(t, h, id as int));
        let n0 = self.pool[id as usize];
        let len: usize = n0.len as usize;
        let pos: usize = place(&n0.keys, len, key);
        assert(leaves(t, h)[0] == t);
        assert(linked(pool0, leaves(t, h), end, 0));
        if pos > 0 && n0.keys[pos - 1] == key {
            // The key is there: repoint it.
            let mut n = n0;
            n.vals[pos - 1] = row;
            self.pool[id as usize] = n;
            proof {
                assert(n0.keys@[pos - 1] == keys[pos - 1]);
                let t2 = Tree::Leaf { id, keys, vals: vals.update(pos - 1, row) };
                assert(n.vals@.take(len as int) =~= vals.update(pos - 1, row));
                assert(leaves(t2, h) =~= seq![t2]);
                assert(linked(self.pool@, seq![t2], end, 0));
            }
            return None;
        }
        assert(!present(keys, key)) by {
            if pos > 0 {
                assert(n0.keys@[pos - 1] == keys[pos - 1]);
            }
        }
        let ghost ks = keys.insert(pos as int, key);
        let ghost vs = vals.insert(pos as int, row);
        if len < ORDER {
            let mut n = n0;
            n.keys = shifted(&n0.keys, len, pos, key);
            n.vals = shifted(&n0.vals, len, pos, row);
            n.len = n0.len + 1;
            self.pool[id as usize] = n;
            proof {
                let t2 = Tree::Leaf { id, keys: ks, vals: vs };
                assert(leaves(t2, h) =~= seq![t2]);
                assert(linked(self.pool@, seq![t2], end, 0));
            }
            return None;
        }
        // Leaf overflow: ORDER+1 entries; split in half, copy up the right's
        // first key as separator, link the chain.
        let keys9: [u64; 9] = shifted(&n0.keys, len, pos, key);
        let vals9: [u64; 9] = shifted(&n0.vals, len, pos, row);
        proof {
            assert(keys9@.take(9) =~= keys9@);
            assert(vals9@.take(9) =~= vals9@);
            assert(keys9@ =~= ks);
            assert(vals9@ =~= vs);
        }
        let new_right: u32 = self.alloc_node();
        let mut rn = self.pool[new_right as usize];
        rn.leaf = true;
        rn.len = 5;
        rn.keys = window(&keys9, 4, 5, 0);
        rn.vals = window(&vals9, 4, 5, 0);
        rn.next = n0.next;
        self.pool[new_right as usize] = rn;
        let mut n = n0;
        n.len = 4;
        n.keys = window(&keys9, 0, 4, 0);
        n.vals = window(&vals9, 0, 4, 0);
        n.next = new_right;
        self.pool[id as usize] = n;
        proof {
            let l = Tree::Leaf { id, keys: ks.take(4), vals: vs.take(4) };
            let r = Tree::Leaf { id: new_right, keys: ks.skip(4), vals: vs.skip(4) };
            assert(n.keys@.take(4) =~= ks.take(4));
            assert(n.vals@.take(4) =~= vs.take(4));
            assert(rn.keys@.take(5) =~= ks.skip(4));
            assert(rn.vals@.take(5) =~= vs.skip(4));
            let ls = leaves(l, h) + leaves(r, h);
            assert(ls =~= seq![l, r]);
            assert(ls[0] == l && ls[1] == r);
            assert(linked(self.pool@, ls, end, 0));
            assert(linked(self.pool@, ls, end, 1));
        }
        Some((keys9[4], new_right))
    }

    /// Point lookup.
    pub fn get(&self, key: u64) -> (row: Option<u64>)
        requires
            self.inv(),
        ensures
            row == (if self@.contains_key(key) {
                Some(self@[key])
            } else {
                None
            }),
    {
        let mut id: u32 = self.root;
        let ghost all = self.entries();
        let ghost mut t = self.tree@;
        let ghost mut h = self.height@;
        let ghost mut lo: int = 0;
        let ghost mut hi: int = key_end();
        let ghost mut top = true;
        proof {
            model::leaves_facts(t, h, 0, key_end(), true);
        }
        loop
            invariant
                self.inv(),
                all == self.entries(),
                in_order(all),
                id == t.id(),
                repr(self.pool@, t, h),
                wf(t, h, lo, hi, top),
                lo <= key < hi,
                forall|v: u64|
                    all.contains((key, v)) <==> #[trigger] flat(leaves(t, h)).contains((key, v)),
            decreases h,
        {
            let n = self.pool[id as usize];
            let len: usize = n.len as usize;
            if n.leaf {
                proof {
                    model::one_leaf_flat(t);
                }
                let ghost keys = t->Leaf_keys;
                let ghost es = t.entries();
                let mut i: usize = 0;
                while i < len
                    invariant
                        self.inv(),
                        all == self.entries(),
                        in_order(all),
                        t is Leaf,
                        repr(self.pool@, t, h),
                        wf(t, h, lo, hi, top),
                        n == self.pool@[t.id() as int],
                        len == n.len,
                        i <= len <= 8,
                        keys == t->Leaf_keys,
                        es == t.entries(),
                        forall|v: u64| all.contains((key, v)) <==> #[trigger] es.contains((key, v)),
                        forall|j: int| 0 <= j < i ==> keys[j] != key,
                    decreases len - i,
                {
                    assert(n.keys@.take(len as int)[i as int] == keys[i as int]);
                    if n.keys[i] == key {
                        proof {
                            assert(n.vals@.take(len as int)[i as int] == t->vals[i as int]);
                            let v = t->vals[i as int];
                            assert(es[i as int] == (key, v));
                            assert(es.contains((key, v)));
                            assert(all.contains((key, v)));
                            let j = choose|j: int| 0 <= j < all.len() && all[j] == (key, v);
                            model::as_map_at(all, j);
                        }
                        return Some(n.vals[i]);
                    }
                    i = i + 1;
                }
                proof {
                    if self@.contains_key(key) {
                        let j = choose|j: int| 0 <= j < all.len() && (#[trigger] all[j]).0 == key;
                        let v = all[j].1;
                        assert(all.contains((key, v)));
                        assert(es.contains((key, v)));
                        let m = choose|m: int| 0 <= m < es.len() && es[m] == (key, v);
                        assert(keys[m] == key);
                    }
                }
                return None;
            }
            let c: usize = place(&n.keys, len, key);
            proof {
                let keys = t->Inner_keys;
                let kids = t->kids;
                let g = (h - 1) as nat;
                let i = c as int;
                model::rank_spec(keys, key);
                assert(kids[i] == t->kids[i]);
                assert(wf(kids[i], g, child_lo(keys, i, lo), child_hi(keys, i, hi), false));
                model::descend(keys, kids, g, lo, hi, key, i);
                let fa = flat(leaves_kids(kids.take(i), g));
                let fm = flat(leaves(kids[i], g));
                let fb = flat(leaves_kids(kids.skip(i + 1), g));
                let fs = flat(leaves(t, h));
                assert(fs == fa + fm + fb);
                assert forall|v: u64| all.contains((key, v)) <==> #[trigger] fm.contains(
                    (key, v),
                ) by {
                    assert(all.contains((key, v)) <==> fs.contains((key, v)));
                    if fs.contains((key, v)) {
                        let j = choose|j: int| 0 <= j < fs.len() && fs[j] == (key, v);
                        if j < fa.len() {
                            assert(fa[j].0 == key);
                        } else if j >= fa.len() + fm.len() {
                            assert(fb[j - fa.len() - fm.len()].0 == key);
                        } else {
                            assert(fm[j - fa.len()] == (key, v));
                        }
                    }
                    if fm.contains((key, v)) {
                        let j = choose|j: int| 0 <= j < fm.len() && fm[j] == (key, v);
                        assert(fs[fa.len() + j] == (key, v));
                    }
                }
                let nlo = child_lo(keys, i, lo);
                let nhi = child_hi(keys, i, hi);
                t = kids[i];
                h = g;
                lo = nlo;
                hi = nhi;
                top = false;
            }
            id = n.children[c];
        }
    }
}

spec fn later(p: int, q: int) -> int {
    if p < q {
        q
    } else {
        p
    }
}

/// Where the keys from `start` on begin.
proof fn cut(es: Seq<(u64, u64)>, start: u64) -> (q: int)
    requires
        in_order(es),
    ensures
        0 <= q <= es.len(),
        forall|i: int| 0 <= i < q ==> (#[trigger] es[i]).0 < start,
        forall|i: int| q <= i < es.len() ==> (#[trigger] es[i]).0 >= start,
    decreases es.len(),
{
    if es.len() == 0 {
        0
    } else if es.last().0 < start {
        assert forall|i: int| 0 <= i < es.len() implies (#[trigger] es[i]).0 < start by {
            if i < es.len() - 1 {
                assert(es[i].0 < es[es.len() - 1].0);
            }
        }
        es.len() as int
    } else {
        let front = es.drop_last();
        assert(in_order(front)) by {
            assert forall|i: int, j: int| 0 <= i < j < front.len() implies (#[trigger] front[i]).0
                < (#[trigger] front[j]).0 by {
                assert(es[i].0 < es[j].0);
            }
        }
        let q = cut(front, start);
        assert forall|i: int| 0 <= i < q implies (#[trigger] es[i]).0 < start by {
            assert(front[i] == es[i]);
        }
        assert forall|i: int| q <= i < es.len() implies (#[trigger] es[i]).0 >= start by {
            if i < front.len() {
                assert(front[i] == es[i]);
            }
        }
        q
    }
}

proof fn suffix_is_scan(es: Seq<(u64, u64)>, start: u64, q: int)
    requires
        in_order(es),
        0 <= q <= es.len(),
        forall|i: int| 0 <= i < q ==> (#[trigger] es[i]).0 < start,
        forall|i: int| q <= i < es.len() ==> (#[trigger] es[i]).0 >= start,
    ensures
        scan_of(as_map(es), start, es.skip(q)),
{
    let visit = es.skip(q);
    let m = as_map(es);
    assert forall|i: int, j: int| 0 <= i < j < visit.len() implies (#[trigger] visit[i]).0 < (
    #[trigger] visit[j]).0 by {
        assert(es[q + i].0 < es[q + j].0);
    }
    assert forall|i: int| 0 <= i < visit.len() implies m.contains_key((#[trigger] visit[i]).0)
        && m[visit[i].0] == visit[i].1 && visit[i].0 >= start by {
        assert(visit[i] == es[q + i]);
        model::as_map_at(es, q + i);
    }
    assert forall|k: u64| m.contains_key(k) && k >= start implies visit.contains(
        (k, #[trigger] m[k]),
    ) by {
        let i = choose|i: int| 0 <= i < es.len() && (#[trigger] es[i]).0 == k;
        model::as_map_at(es, i);
        assert(i >= q);
        assert(visit[i - q] == es[i]);
    }
}

/// Leaf `j`'s entries, within the whole list.
proof fn leaf_entry(ls: Seq<Tree>, j: int, i: int)
    requires
        0 <= j < ls.len(),
        0 <= i < ls[j].entries().len(),
    ensures
        flat(ls.take(j)).len() + i < flat(ls).len(),
        flat(ls)[flat(ls.take(j)).len() + i] == ls[j].entries()[i],
{
    leaf_step(ls, j);
    let a = ls.take(j + 1);
    let b = ls.skip(j + 1);
    assert(ls =~= a + b);
    model::flat_append(a, b);
}

proof fn leaf_step(ls: Seq<Tree>, j: int)
    requires
        0 <= j < ls.len(),
    ensures
        flat(ls.take(j + 1)) == flat(ls.take(j)) + ls[j].entries(),
{
    assert(ls.take(j + 1).drop_last() =~= ls.take(j));
}

/// Every leaf of a subtree in the pool sits in its slot.
proof fn leaf_repr(pool: Seq<Node>, t: Tree, h: nat, lo: int, hi: int, root: bool, n: int)
    requires
        repr(pool, t, h),
        wf(t, h, lo, hi, root),
        0 <= n < leaves(t, h).len(),
    ensures
        leaves(t, h)[n] is Leaf,
        repr(pool, leaves(t, h)[n], 0),
        leaves(t, h)[n]->Leaf_keys.len() == leaves(t, h)[n]->vals.len(),
    decreases h, 0nat,
{
    match t {
        Tree::Leaf { .. } => {},
        Tree::Inner { keys, kids, .. } => {
            let g = (h - 1) as nat;
            kids_wf_some(t, h, lo, hi, root);
            assert forall|i: int| 0 <= i < kids.len() implies repr(pool, #[trigger] kids[i], g) by {}
            kid_leaf_repr(pool, kids, g, n);
        },
    }
}

proof fn kid_leaf_repr(pool: Seq<Node>, kids: Seq<Tree>, g: nat, n: int)
    requires
        forall|i: int| 0 <= i < kids.len() ==> some_wf(#[trigger] kids[i], g),
        forall|i: int| 0 <= i < kids.len() ==> repr(pool, #[trigger] kids[i], g),
        0 <= n < leaves_kids(kids, g).len(),
    ensures
        leaves_kids(kids, g)[n] is Leaf,
        repr(pool, leaves_kids(kids, g)[n], 0),
        leaves_kids(kids, g)[n]->Leaf_keys.len() == leaves_kids(kids, g)[n]->vals.len(),
    decreases g, kids.len() + 1,
{
    let front = kids.drop_last();
    let m = leaves_kids(front, g).len();
    if n < m {
        assert forall|i: int| 0 <= i < front.len() implies some_wf(#[trigger] front[i], g) by {
            assert(front[i] == kids[i]);
        }
        assert forall|i: int| 0 <= i < front.len() implies repr(pool, #[trigger] front[i], g) by {
            assert(front[i] == kids[i]);
        }
        kid_leaf_repr(pool, front, g, n);
    } else {
        let k = kids.len() - 1;
        assert(some_wf(kids[k], g));
        let (l, u) = choose|l: int, u: int| wf(kids[k], g, l, u, false);
        leaf_repr(pool, kids[k], g, l, u, false, n - m);
    }
}

impl BTreeIndex {
    /// The leaf that could contain `start`, and how many leaves precede it.
    fn leaf_for(&self, start: u64) -> (out: (u32, Ghost<int>))
        requires
            self.inv(),
        ensures
            ({
                let ls = leaves(self.tree@, self.height@);
                let j = out.1@;
                &&& 0 <= j < ls.len()
                &&& out.0 == ls[j].id()
                &&& forall|i: int|
                    0 <= i < flat(ls.take(j)).len() ==> (#[trigger] flat(ls.take(j))[i]).0 < start
            }),
    {
        let ghost ls = leaves(self.tree@, self.height@);
        let mut id: u32 = self.root;
        let ghost mut t = self.tree@;
        let ghost mut h = self.height@;
        let ghost mut lo: int = 0;
        let ghost mut hi: int = key_end();
        let ghost mut top = true;
        let ghost mut a = Seq::<Tree>::empty();
        let ghost mut b = Seq::<Tree>::empty();
        proof {
            assert(ls =~= a + leaves(t, h) + b);
        }
        loop
            invariant
                self.inv(),
                ls == leaves(self.tree@, self.height@),
                id == t.id(),
                repr(self.pool@, t, h),
                wf(t, h, lo, hi, top),
                lo <= start < hi,
                ls == a + leaves(t, h) + b,
                forall|i: int| 0 <= i < flat(a).len() ==> (#[trigger] flat(a)[i]).0 < start,
            decreases h,
        {
            let n = self.pool[id as usize];
            if n.leaf {
                proof {
                    assert(leaves(t, h) =~= seq![t]);
                    assert(ls[a.len() as int] == t);
                    assert(ls.take(a.len() as int) =~= a);
                }
                return (id, Ghost(a.len() as int));
            }
            let len: usize = n.len as usize;
            let c: usize = place(&n.keys, len, start);
            proof {
                let keys = t->Inner_keys;
                let kids = t->kids;
                let g = (h - 1) as nat;
                let i = c as int;
                model::rank_spec(keys, start);
                assert(kids[i] == t->kids[i]);
                assert(wf(kids[i], g, child_lo(keys, i, lo), child_hi(keys, i, hi), false));
                model::descend(keys, kids, g, lo, hi, start, i);
                let la = leaves_kids(kids.take(i), g);
                let lb = leaves_kids(kids.skip(i + 1), g);
                model::flat_append(a, la);
                let fa = flat(a);
                let fl = flat(la);
                assert forall|x: int| 0 <= x < (fa + fl).len() implies (#[trigger] (fa + fl)[x]).0
                    < start by {
                    if x < fa.len() {
                        assert((fa + fl)[x] == fa[x]);
                    } else {
                        assert((fa + fl)[x] == fl[x - fa.len()]);
                    }
                }
                assert(ls =~= (a + la) + leaves(kids[i], g) + (lb + b));
                a = a + la;
                b = lb + b;
                let nlo = child_lo(keys, i, lo);
                let nhi = child_hi(keys, i, hi);
                t = kids[i];
                h = g;
                lo = nlo;
                hi = nhi;
                top = false;
            }
            id = n.children[c];
        }
    }

    /// In-order visit of every `(key, row)` with `key >= start`: `f` is handed
    /// the accumulator and an entry, and gives back the accumulator and
    /// whether to go on. Bounded work per call is the caller's job (the engine
    /// pages).
    #[verifier::rlimit(30)]
    pub fn for_each_from<A, F: Fn(A, u64, u64) -> (A, bool)>(&self, start: u64, init: A, f: F) -> (fin:
        A)
        requires
            self.inv(),
            forall|a: A, k: u64|
                self@.contains_key(k) && k >= start ==> #[trigger] f.requires((a, k, self@[k])),
        ensures
            exists|visit: Seq<(u64, u64)>| #[trigger]
                scan_of(self@, start, visit) && folded(f, visit, init, fin),
    {
        let ghost ls = leaves(self.tree@, self.height@);
        let ghost es = self.entries();
        proof {
            model::leaves_facts(self.tree@, self.height@, 0, key_end(), true);
        }
        let ghost q = cut(es, start);
        proof {
            suffix_is_scan(es, start, q);
        }
        let (first, at) = self.leaf_for(start);
        let mut id: u32 = first;
        let ghost mut j = at@;
        let mut acc: A = init;
        // Entries already passed: those before leaf `j`.
        let ghost mut p = flat(ls.take(j)).len() as int;
        proof {
            model::flat_append(ls.take(j), ls.skip(j));
            assert(ls =~= ls.take(j) + ls.skip(j));
            assert forall|i: int| 0 <= i < p implies (#[trigger] es[i]).0 < start by {
                assert(es[i] == flat(ls.take(j))[i]);
            }
            leaf_repr(self.pool@, self.tree@, self.height@, 0, key_end(), true, j);
        }
        while id != NIL
            invariant
                self.inv(),
                ls == leaves(self.tree@, self.height@),
                es == self.entries(),
                es == flat(ls),
                in_order(es),
                scan_of(self@, start, es.skip(q)),
                0 <= q <= es.len(),
                forall|i: int| 0 <= i < q ==> (#[trigger] es[i]).0 < start,
                forall|i: int| q <= i < es.len() ==> (#[trigger] es[i]).0 >= start,
                forall|a: A, k: u64|
                    self@.contains_key(k) && k >= start ==> #[trigger] f.requires((a, k, self@[k])),
                0 <= j <= ls.len(),
                id == first_id(ls.skip(j), NIL),
                id != NIL ==> j < ls.len(),
                j < ls.len() ==> id != NIL,
                p == flat(ls.take(j)).len(),
                p <= es.len(),
                forall|fin: A|
                    #[trigger] folded(f, es.skip(later(p, q)), acc, fin) ==> folded(
                        f,
                        es.skip(q),
                        init,
                        fin,
                    ),
            decreases ls.len() - j,
        {
            let ghost leaf = ls[j];
            proof {
                leaf_repr(self.pool@, self.tree@, self.height@, 0, key_end(), true, j);
                leaf_step(ls, j);
                assert(ls.skip(j)[0] == ls[j]);
                assert(linked(self.pool@, ls, NIL, j));
            }
            let n = self.pool[id as usize];
            let len: usize = n.len as usize;
            let mut i: usize = 0;
            let ghost base = p;
            while i < len
                invariant
                    self.inv(),
                    ls == leaves(self.tree@, self.height@),
                    es == self.entries(),
                    es == flat(ls),
                    in_order(es),
                    scan_of(self@, start, es.skip(q)),
                    0 <= q <= es.len(),
                    forall|i: int| 0 <= i < q ==> (#[trigger] es[i]).0 < start,
                    forall|i: int| q <= i < es.len() ==> (#[trigger] es[i]).0 >= start,
                    forall|a: A, k: u64|
                        self@.contains_key(k) && k >= start ==> #[trigger] f.requires(
                            (a, k, self@[k]),
                        ),
                    0 <= j < ls.len(),
                    leaf == ls[j],
                    leaf is Leaf,
                    repr(self.pool@, leaf, 0),
                    leaf->Leaf_keys.len() == leaf->vals.len(),
                    n == self.pool@[leaf.id() as int],
                    len == n.len,
                    len <= 8,
                    i <= len,
                    base == flat(ls.take(j)).len(),
                    p == base + i,
                    p <= es.len(),
                    forall|fin: A|
                        #[trigger] folded(f, es.skip(later(p, q)), acc, fin)
                            ==> folded(f, es.skip(q), init, fin),
                decreases len - i,
            {
                proof {
                    leaf_entry(ls, j, i as int);
                    assert(n.keys@.take(len as int)[i as int] == leaf->Leaf_keys[i as int]);
                    assert(n.vals@.take(len as int)[i as int] == leaf->vals[i as int]);
                    assert(es[p] == (n.keys@[i as int], n.vals@[i as int]));
                }
                let k: u64 = n.keys[i];
                let v: u64 = n.vals[i];
                if k >= start {
                    proof {
                        model::as_map_at(es, p);
                        assert(p >= q);
                    }
                    let ghost before = acc;
                    let (next, go) = f(acc, k, v);
                    acc = next;
                    proof {
                        let rest = es.skip(p);
                        assert(rest[0] == es[p]);
                        assert(rest.drop_first() =~= es.skip(p + 1));
                        assert(later(p, q) == p);
                        assert(f.ensures((before, rest[0].0, rest[0].1), (acc, go)));
                        if go {
                            assert(later(p + 1, q) == p + 1);
                            assert forall|fin: A| #[trigger]
                                folded(f, es.skip(later(p + 1, q)), acc, fin) implies folded(
                                f,
                                es.skip(q),
                                init,
                                fin,
                            ) by {
                                assert(folded(f, es.skip(later(p, q)), before, fin));
                            }
                        } else {
                            assert(folded(f, es.skip(later(p, q)), before, acc));
                        }
                    }
                    if !go {
                        assert(folded(f, es.skip(q), init, acc));
                        return acc;
                    }
                }
                proof {
                    if k < start {
                        assert(p < q);
                        assert(later(p + 1, q) == later(p, q));
                    }
                    p = p + 1;
                }
                i = i + 1;
            }
            id = n.next;
            proof {
                j = j + 1;
                assert(ls.skip(j).len() > 0 ==> ls.skip(j)[0] == ls[j]);
                if j < ls.len() {
                    leaf_repr(self.pool@, self.tree@, self.height@, 0, key_end(), true, j);
                }
            }
        }
        proof {
            assert(ls.take(j) =~= ls);
            assert(folded(f, es.skip(later(p, q)), acc, acc));
        }
        acc
    }
}

} // verus!
