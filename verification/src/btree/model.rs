//! The mathematical side of the B+tree: a tree as a value, insertion as a
//! function on it, and what insertion preserves. The executable tree in the
//! node pool is proved to hold exactly such a value.

use vstd::prelude::*;

verus! {

/// A tree as a value. `id` is the pool slot that holds the node.
pub enum Tree {
    Leaf { id: u32, keys: Seq<u64>, vals: Seq<u64> },
    Inner { id: u32, keys: Seq<u64>, kids: Seq<Tree> },
}

/// What inserting into a subtree leaves: one subtree, or two with the key that
/// separates them.
pub enum Grown {
    One(Tree),
    Two(Tree, u64, Tree),
}

impl Tree {
    pub open spec fn id(self) -> u32 {
        match self {
            Tree::Leaf { id, .. } => id,
            Tree::Inner { id, .. } => id,
        }
    }

    /// The entries of a leaf, in order.
    pub open spec fn entries(self) -> Seq<(u64, u64)> {
        match self {
            Tree::Leaf { keys, vals, .. } => Seq::new(keys.len(), |i: int| (keys[i], vals[i])),
            Tree::Inner { .. } => Seq::empty(),
        }
    }
}

pub open spec fn ascending(keys: Seq<u64>) -> bool {
    forall|i: int, j: int| 0 <= i < j < keys.len() ==> keys[i] < keys[j]
}

pub open spec fn bounded(keys: Seq<u64>, lo: int, hi: int) -> bool {
    forall|i: int| 0 <= i < keys.len() ==> lo <= #[trigger] keys[i] < hi
}

/// Lower bound of the keys under child `i`.
pub open spec fn child_lo(keys: Seq<u64>, i: int, lo: int) -> int {
    if i == 0 {
        lo
    } else {
        keys[i - 1] as int
    }
}

/// Upper bound of the keys under child `i`.
pub open spec fn child_hi(keys: Seq<u64>, i: int, hi: int) -> int {
    if i == keys.len() {
        hi
    } else {
        keys[i] as int
    }
}

/// A search tree of height `h` over keys in `lo..hi`: ordered keys, uniform
/// depth, and at least half-full nodes everywhere but at the root.
pub open spec fn wf(t: Tree, h: nat, lo: int, hi: int, root: bool) -> bool
    decreases h,
{
    match t {
        Tree::Leaf { keys, vals, .. } => {
            &&& h == 0
            &&& keys.len() == vals.len()
            &&& keys.len() <= 8
            &&& (root || keys.len() >= 4)
            &&& ascending(keys)
            &&& bounded(keys, lo, hi)
        },
        Tree::Inner { keys, kids, .. } => {
            &&& h > 0
            &&& 1 <= keys.len() <= 8
            &&& (root || keys.len() >= 4)
            &&& kids.len() == keys.len() + 1
            &&& ascending(keys)
            &&& bounded(keys, lo, hi)
            &&& forall|i: int|
                0 <= i < kids.len() ==> wf(
                    #[trigger] kids[i],
                    (h - 1) as nat,
                    child_lo(keys, i, lo),
                    child_hi(keys, i, hi),
                    false,
                )
        },
    }
}

/// Is `x` the pool slot of a node of this subtree?
pub open spec fn owns(t: Tree, h: nat, x: int) -> bool
    decreases h,
{
    match t {
        Tree::Leaf { id, .. } => x == id,
        Tree::Inner { id, kids, .. } => x == id || (h > 0 && exists|i: int|
            0 <= i < kids.len() && owns(#[trigger] kids[i], (h - 1) as nat, x)),
    }
}

/// No pool slot holds two nodes of this subtree.
pub open spec fn distinct(t: Tree, h: nat) -> bool
    decreases h,
{
    match t {
        Tree::Leaf { .. } => true,
        Tree::Inner { id, kids, .. } => h > 0 ==> {
            &&& forall|i: int|
                0 <= i < kids.len() ==> !#[trigger] owns(kids[i], (h - 1) as nat, id as int)
            &&& forall|i: int, j: int, x: int|
                0 <= i < j < kids.len() && #[trigger] owns(kids[i], (h - 1) as nat, x)
                    ==> !#[trigger] owns(kids[j], (h - 1) as nat, x)
            &&& forall|i: int|
                0 <= i < kids.len() ==> distinct(#[trigger] kids[i], (h - 1) as nat)
        },
    }
}

/// The leaves, left to right.
pub open spec fn leaves(t: Tree, h: nat) -> Seq<Tree>
    decreases h, 0nat,
{
    match t {
        Tree::Leaf { .. } => seq![t],
        Tree::Inner { kids, .. } => if h == 0 {
            Seq::empty()
        } else {
            leaves_kids(kids, (h - 1) as nat)
        },
    }
}

pub open spec fn leaves_kids(kids: Seq<Tree>, h: nat) -> Seq<Tree>
    decreases h, kids.len() + 1,
{
    if kids.len() == 0 {
        Seq::empty()
    } else {
        leaves_kids(kids.drop_last(), h) + leaves(kids.last(), h)
    }
}

/// The number of nodes.
pub open spec fn count(t: Tree, h: nat) -> nat
    decreases h, 0nat,
{
    match t {
        Tree::Leaf { .. } => 1,
        Tree::Inner { kids, .. } => if h == 0 {
            1
        } else {
            1 + count_kids(kids, (h - 1) as nat)
        },
    }
}

pub open spec fn count_kids(kids: Seq<Tree>, h: nat) -> nat
    decreases h, kids.len() + 1,
{
    if kids.len() == 0 {
        0
    } else {
        count_kids(kids.drop_last(), h) + count(kids.last(), h)
    }
}

/// All entries of a run of leaves, in order.
pub open spec fn flat(ls: Seq<Tree>) -> Seq<(u64, u64)>
    decreases ls.len(),
{
    if ls.len() == 0 {
        Seq::empty()
    } else {
        flat(ls.drop_last()) + ls.last().entries()
    }
}

/// How many of the (ascending) keys are at most `k`: where `k` belongs.
pub open spec fn rank(keys: Seq<u64>, k: u64) -> int
    decreases keys.len(),
{
    if keys.len() == 0 {
        0
    } else if keys.last() <= k {
        keys.len() as int
    } else {
        rank(keys.drop_last(), k)
    }
}

/// How many nodes inserting `k` adds to the subtree.
pub open spec fn splits(t: Tree, h: nat, k: u64) -> nat
    decreases h,
{
    match t {
        Tree::Leaf { keys, .. } => if keys.len() < 8 || present(keys, k) {
            0
        } else {
            1
        },
        Tree::Inner { keys, kids, .. } => if h == 0 {
            0
        } else {
            let i = rank(keys, k);
            let below = splits(kids[i], (h - 1) as nat, k);
            if keys.len() == 8 && overflows(kids[i], (h - 1) as nat, k) {
                below + 1
            } else {
                below
            }
        },
    }
}

/// Does inserting `k` split the top node of the subtree?
pub open spec fn overflows(t: Tree, h: nat, k: u64) -> bool
    decreases h,
{
    match t {
        Tree::Leaf { keys, .. } => keys.len() >= 8 && !present(keys, k),
        Tree::Inner { keys, kids, .. } => h > 0 && keys.len() >= 8 && overflows(
            kids[rank(keys, k)],
            (h - 1) as nat,
            k,
        ),
    }
}

pub open spec fn present(keys: Seq<u64>, k: u64) -> bool {
    rank(keys, k) > 0 && keys[rank(keys, k) - 1] == k
}

/// Insert `k -> v`, replacing the value if `k` is there. New nodes take the
/// pool slots from `fresh` on.
pub open spec fn grow(t: Tree, h: nat, k: u64, v: u64, fresh: int) -> Grown
    decreases h,
{
    match t {
        Tree::Leaf { id, keys, vals } => {
            let p = rank(keys, k);
            if present(keys, k) {
                Grown::One(Tree::Leaf { id, keys, vals: vals.update(p - 1, v) })
            } else {
                let ks = keys.insert(p, k);
                let vs = vals.insert(p, v);
                if keys.len() < 8 {
                    Grown::One(Tree::Leaf { id, keys: ks, vals: vs })
                } else {
                    Grown::Two(
                        Tree::Leaf { id, keys: ks.take(4), vals: vs.take(4) },
                        ks[4],
                        Tree::Leaf { id: fresh as u32, keys: ks.skip(4), vals: vs.skip(4) },
                    )
                }
            }
        },
        Tree::Inner { id, keys, kids } => if h == 0 {
            Grown::One(t)
        } else {
            let i = rank(keys, k);
            match grow(kids[i], (h - 1) as nat, k, v, fresh) {
                Grown::One(c) => Grown::One(Tree::Inner { id, keys, kids: kids.update(i, c) }),
                Grown::Two(l, sep, r) => {
                    let ks = keys.insert(i, sep);
                    let cs = widened(kids, i, l, r);
                    if keys.len() < 8 {
                        Grown::One(Tree::Inner { id, keys: ks, kids: cs })
                    } else {
                        let at = fresh + splits(kids[i], (h - 1) as nat, k);
                        Grown::Two(
                            Tree::Inner { id, keys: ks.take(4), kids: cs.take(5) },
                            ks[4],
                            Tree::Inner { id: at as u32, keys: ks.skip(5), kids: cs.skip(5) },
                        )
                    }
                },
            }
        },
    }
}

/// `kids` with child `i` replaced by the pair it split into.
pub open spec fn widened(kids: Seq<Tree>, i: int, l: Tree, r: Tree) -> Seq<Tree> {
    kids.update(i, l).insert(i + 1, r)
}

/// The leaves of what an insertion left.
pub open spec fn grown_leaves(g: Grown, h: nat) -> Seq<Tree> {
    match g {
        Grown::One(t) => leaves(t, h),
        Grown::Two(l, _, r) => leaves(l, h) + leaves(r, h),
    }
}

pub open spec fn grown_count(g: Grown, h: nat) -> nat {
    match g {
        Grown::One(t) => count(t, h),
        Grown::Two(l, _, r) => count(l, h) + count(r, h),
    }
}

pub open spec fn grown_owns(g: Grown, h: nat, x: int) -> bool {
    match g {
        Grown::One(t) => owns(t, h, x),
        Grown::Two(l, _, r) => owns(l, h, x) || owns(r, h, x),
    }
}

pub open spec fn grown_wf(g: Grown, h: nat, lo: int, hi: int, root: bool) -> bool {
    match g {
        Grown::One(t) => wf(t, h, lo, hi, root),
        Grown::Two(l, sep, r) => {
            &&& wf(l, h, lo, sep as int, false)
            &&& wf(r, h, sep as int, hi, false)
            &&& lo < sep < hi
        },
    }
}

pub open spec fn grown_distinct(g: Grown, h: nat) -> bool {
    match g {
        Grown::One(t) => distinct(t, h),
        Grown::Two(l, _, r) => {
            &&& distinct(l, h)
            &&& distinct(r, h)
            &&& forall|x: int| #[trigger] owns(l, h, x) ==> !owns(r, h, x)
        },
    }
}

/// The entry list after inserting `k -> v` into `old`.
pub open spec fn entered(old: Seq<(u64, u64)>, new: Seq<(u64, u64)>, k: u64, v: u64) -> bool {
    ||| exists|p: int| 0 <= p <= old.len() && new == #[trigger] old.insert(p, (k, v))
    ||| exists|p: int|
        0 <= p < old.len() && #[trigger] old[p].0 == k && new == old.update(p, (k, v))
}

/// Entries in strictly ascending key order.
pub open spec fn in_order(es: Seq<(u64, u64)>) -> bool {
    forall|i: int, j: int| 0 <= i < j < es.len() ==> (#[trigger] es[i]).0 < (#[trigger] es[j]).0
}

pub open spec fn within(es: Seq<(u64, u64)>, lo: int, hi: int) -> bool {
    forall|i: int| 0 <= i < es.len() ==> lo <= (#[trigger] es[i]).0 < hi
}

// ---- rank ----------------------------------------------------------------

pub proof fn rank_spec(keys: Seq<u64>, k: u64)
    requires
        ascending(keys),
    ensures
        0 <= rank(keys, k) <= keys.len(),
        forall|j: int| 0 <= j < rank(keys, k) ==> keys[j] <= k,
        forall|j: int| rank(keys, k) <= j < keys.len() ==> k < keys[j],
    decreases keys.len(),
{
    if keys.len() > 0 && keys.last() > k {
        let front = keys.drop_last();
        assert(ascending(front));
        rank_spec(front, k);
        assert forall|j: int| rank(keys, k) <= j < keys.len() implies k < keys[j] by {
            if j < front.len() {
                assert(front[j] == keys[j]);
            }
        }
        assert forall|j: int| 0 <= j < rank(keys, k) implies keys[j] <= k by {
            assert(front[j] == keys[j]);
        }
    }
}

pub proof fn rank_is(keys: Seq<u64>, k: u64, i: int)
    requires
        ascending(keys),
        0 <= i <= keys.len(),
        forall|j: int| 0 <= j < i ==> keys[j] <= k,
        i < keys.len() ==> k < keys[i],
    ensures
        rank(keys, k) == i,
{
    rank_spec(keys, k);
    let r = rank(keys, k);
    if r < i {
        assert(keys[r] <= k);
    }
    if i < r {
        assert(keys[i] <= k);
    }
}

// ---- lists of leaves and entries -------------------------------------------

pub proof fn leaves_kids_append(a: Seq<Tree>, b: Seq<Tree>, h: nat)
    ensures
        leaves_kids(a + b, h) == leaves_kids(a, h) + leaves_kids(b, h),
    decreases b.len(),
{
    if b.len() == 0 {
        assert(a + b =~= a);
    } else {
        assert((a + b).drop_last() =~= a + b.drop_last());
        leaves_kids_append(a, b.drop_last(), h);
        assert(leaves_kids(a + b, h) =~= leaves_kids(a, h) + leaves_kids(b, h));
    }
}

pub proof fn count_kids_append(a: Seq<Tree>, b: Seq<Tree>, h: nat)
    ensures
        count_kids(a + b, h) == count_kids(a, h) + count_kids(b, h),
    decreases b.len(),
{
    if b.len() == 0 {
        assert(a + b =~= a);
    } else {
        assert((a + b).drop_last() =~= a + b.drop_last());
        count_kids_append(a, b.drop_last(), h);
    }
}

pub proof fn flat_append(a: Seq<Tree>, b: Seq<Tree>)
    ensures
        flat(a + b) == flat(a) + flat(b),
    decreases b.len(),
{
    if b.len() == 0 {
        assert(a + b =~= a);
    } else {
        assert((a + b).drop_last() =~= a + b.drop_last());
        flat_append(a, b.drop_last());
        assert(flat(a + b) =~= flat(a) + flat(b));
    }
}

pub proof fn one_kid(t: Tree, h: nat)
    ensures
        leaves_kids(seq![t], h) == leaves(t, h),
        count_kids(seq![t], h) == count(t, h),
{
    let s = seq![t];
    assert(s.drop_last() =~= Seq::<Tree>::empty());
    assert(leaves_kids(s.drop_last(), h) =~= Seq::<Tree>::empty());
    assert(count_kids(s.drop_last(), h) == 0);
    assert(leaves_kids(s, h) =~= leaves(t, h));
}

/// A child's share of the parent's leaves and nodes.
pub proof fn split_kids(kids: Seq<Tree>, i: int, h: nat)
    requires
        0 <= i < kids.len(),
    ensures
        leaves_kids(kids, h) == leaves_kids(kids.take(i), h) + leaves(kids[i], h) + leaves_kids(
            kids.skip(i + 1),
            h,
        ),
        count_kids(kids, h) == count_kids(kids.take(i), h) + count(kids[i], h) + count_kids(
            kids.skip(i + 1),
            h,
        ),
        flat(leaves_kids(kids, h)) == flat(leaves_kids(kids.take(i), h)) + flat(leaves(kids[i], h))
            + flat(leaves_kids(kids.skip(i + 1), h)),
{
    let a = kids.take(i);
    let m = seq![kids[i]];
    let b = kids.skip(i + 1);
    assert(kids =~= a + m + b);
    leaves_kids_append(a + m, b, h);
    leaves_kids_append(a, m, h);
    count_kids_append(a + m, b, h);
    count_kids_append(a, m, h);
    one_kid(kids[i], h);
    flat_append(leaves_kids(a, h) + leaves(kids[i], h), leaves_kids(b, h));
    flat_append(leaves_kids(a, h), leaves(kids[i], h));
}

/// The leaves of a well-formed subtree are leaves, at least one, and its
/// entries are in order and within its bounds.
pub proof fn leaves_facts(t: Tree, h: nat, lo: int, hi: int, root: bool)
    requires
        wf(t, h, lo, hi, root),
    ensures
        leaves(t, h).len() >= 1,
        forall|i: int| 0 <= i < leaves(t, h).len() ==> (#[trigger] leaves(t, h)[i]) is Leaf,
        within(flat(leaves(t, h)), lo, hi),
        in_order(flat(leaves(t, h))),
        !root ==> flat(leaves(t, h)).len() >= 4 * leaves(t, h).len(),
        !root ==> leaves(t, h).len() >= 4 * (count(t, h) - leaves(t, h).len()) + 1,
        root ==> leaves(t, h).len() >= 4 * (count(t, h) - leaves(t, h).len()) - 2,
        root && h > 0 ==> flat(leaves(t, h)).len() >= 4 * leaves(t, h).len(),
        leaves(t, h).len() <= count(t, h),
        flat(leaves(t, h)).len() <= 8 * leaves(t, h).len(),
    decreases h, 0nat,
{
    match t {
        Tree::Leaf { id, keys, vals } => {
            let ls = seq![t];
            assert(ls.drop_last() =~= Seq::<Tree>::empty());
            assert(flat(ls.drop_last()) =~= Seq::<(u64, u64)>::empty());
            assert(flat(ls) =~= t.entries());
        },
        Tree::Inner { id, keys, kids } => {
            let g = (h - 1) as nat;
            assert forall|i: int| 0 <= i < kids.len() implies wf(
                #[trigger] kids[i],
                g,
                child_lo(keys, i, lo),
                child_hi(keys, i, hi),
                false,
            ) by {
            }
            kids_facts(keys, kids, g, lo, hi, kids.len() as int);
            assert(kids.take(kids.len() as int) =~= kids);
        },
    }
}

/// The same of the first `n` children together.
pub proof fn kids_facts(keys: Seq<u64>, kids: Seq<Tree>, h: nat, lo: int, hi: int, n: int)
    requires
        0 <= n <= kids.len(),
        kids.len() == keys.len() + 1,
        ascending(keys),
        bounded(keys, lo, hi),
        forall|i: int|
            0 <= i < kids.len() ==> wf(
                #[trigger] kids[i],
                h,
                child_lo(keys, i, lo),
                child_hi(keys, i, hi),
                false,
            ),
    ensures
        leaves_kids(kids.take(n), h).len() >= n,
        forall|i: int|
            0 <= i < leaves_kids(kids.take(n), h).len() ==> (#[trigger] leaves_kids(
                kids.take(n),
                h,
            )[i]) is Leaf,
        n > 0 ==> within(flat(leaves_kids(kids.take(n), h)), lo, child_hi(keys, n - 1, hi)),
        in_order(flat(leaves_kids(kids.take(n), h))),
        flat(leaves_kids(kids.take(n), h)).len() >= 4 * leaves_kids(kids.take(n), h).len(),
        leaves_kids(kids.take(n), h).len() >= 4 * (count_kids(kids.take(n), h) - leaves_kids(
            kids.take(n),
            h,
        ).len()) + n,
        leaves_kids(kids.take(n), h).len() <= count_kids(kids.take(n), h),
        flat(leaves_kids(kids.take(n), h)).len() <= 8 * leaves_kids(kids.take(n), h).len(),
    decreases h, n + 1,
{
    if n > 0 {
        let m = n - 1;
        kids_facts(keys, kids, h, lo, hi, m);
        leaves_facts(kids[m], h, child_lo(keys, m, lo), child_hi(keys, m, hi), false);
        let a = leaves_kids(kids.take(m), h);
        let b = leaves(kids[m], h);
        assert(kids.take(n).drop_last() =~= kids.take(m));
        assert(kids.take(n).last() == kids[m]);
        assert(leaves_kids(kids.take(n), h) == a + b);
        flat_append(a, b);
        let fa = flat(a);
        let fb = flat(b);
        assert forall|i: int| 0 <= i < (a + b).len() implies (#[trigger] (a + b)[i]) is Leaf by {
            if i < a.len() {
                assert(a[i] is Leaf);
            } else {
                assert(b[i - a.len()] is Leaf);
            }
        }
        if m > 0 {
            assert(keys[m - 1] < child_hi(keys, m, hi)) by {
                if m < keys.len() {
                    assert(keys[m - 1] < keys[m]);
                }
            }
        }
        assert forall|i: int| 0 <= i < (fa + fb).len() implies lo <= (#[trigger] (fa + fb)[i]).0
            < child_hi(keys, m, hi) by {
            if i < fa.len() {
                assert((fa + fb)[i] == fa[i]);
            } else {
                assert((fa + fb)[i] == fb[i - fa.len()]);
                if m > 0 {
                    assert(lo <= keys[m - 1]);
                }
            }
        }
        assert forall|i: int, j: int| 0 <= i < j < (fa + fb).len() implies (#[trigger] (fa
            + fb)[i]).0 < (#[trigger] (fa + fb)[j]).0 by {
            if j < fa.len() {
                assert((fa + fb)[i] == fa[i] && (fa + fb)[j] == fa[j]);
            } else if i >= fa.len() {
                assert((fa + fb)[i] == fb[i - fa.len()] && (fa + fb)[j] == fb[j - fa.len()]);
            } else {
                assert((fa + fb)[i] == fa[i] && (fa + fb)[j] == fb[j - fa.len()]);
            }
        }
    } else {
        assert(kids.take(0) =~= Seq::<Tree>::empty());
        assert(leaves_kids(kids.take(0), h) =~= Seq::<Tree>::empty());
        assert(flat(leaves_kids(kids.take(0), h)) =~= Seq::<(u64, u64)>::empty());
    }
}

/// The children from `n` on hold keys from child `n`'s lower bound on.
pub proof fn tail_kids_within(keys: Seq<u64>, kids: Seq<Tree>, h: nat, lo: int, hi: int, n: int)
    requires
        0 <= n < kids.len(),
        kids.len() == keys.len() + 1,
        ascending(keys),
        bounded(keys, lo, hi),
        forall|i: int|
            0 <= i < kids.len() ==> wf(
                #[trigger] kids[i],
                h,
                child_lo(keys, i, lo),
                child_hi(keys, i, hi),
                false,
            ),
    ensures
        within(flat(leaves_kids(kids.skip(n), h)), child_lo(keys, n, lo), hi),
    decreases kids.len() - n,
{
    leaves_facts(kids[n], h, child_lo(keys, n, lo), child_hi(keys, n, hi), false);
    let rest = kids.skip(n + 1);
    assert(kids.skip(n) =~= seq![kids[n]] + rest);
    leaves_kids_append(seq![kids[n]], rest, h);
    one_kid(kids[n], h);
    flat_append(leaves(kids[n], h), leaves_kids(rest, h));
    let fa = flat(leaves(kids[n], h));
    let fb = flat(leaves_kids(rest, h));
    if n + 1 < kids.len() {
        tail_kids_within(keys, kids, h, lo, hi, n + 1);
        assert(keys[n] as int == child_lo(keys, n + 1, lo));
        if n > 0 {
            assert(keys[n - 1] < keys[n]);
        }
        assert(lo <= keys[n] < hi);
    } else {
        assert(rest =~= Seq::<Tree>::empty());
        assert(leaves_kids(rest, h) =~= Seq::<Tree>::empty());
        assert(fb =~= Seq::<(u64, u64)>::empty());
    }
    assert forall|i: int| 0 <= i < (fa + fb).len() implies child_lo(keys, n, lo) <= (#[trigger] (fa
        + fb)[i]).0 < hi by {
        if i < fa.len() {
            assert((fa + fb)[i] == fa[i]);
        } else {
            assert((fa + fb)[i] == fb[i - fa.len()]);
        }
    }
}

/// Around the child that `k` belongs to: everything to its left is below `k`,
/// everything to its right above, and `k` is within the child's bounds.
pub proof fn descend(
    keys: Seq<u64>,
    kids: Seq<Tree>,
    h: nat,
    lo: int,
    hi: int,
    k: u64,
    i: int,
)
    requires
        kids.len() == keys.len() + 1,
        ascending(keys),
        bounded(keys, lo, hi),
        forall|j: int|
            0 <= j < kids.len() ==> wf(
                #[trigger] kids[j],
                h,
                child_lo(keys, j, lo),
                child_hi(keys, j, hi),
                false,
            ),
        lo <= k < hi,
        i == rank(keys, k),
    ensures
        0 <= i < kids.len(),
        child_lo(keys, i, lo) <= k < child_hi(keys, i, hi),
        leaves_kids(kids, h) == leaves_kids(kids.take(i), h) + leaves(kids[i], h) + leaves_kids(
            kids.skip(i + 1),
            h,
        ),
        flat(leaves_kids(kids, h)) == flat(leaves_kids(kids.take(i), h)) + flat(leaves(kids[i], h))
            + flat(leaves_kids(kids.skip(i + 1), h)),
        within(flat(leaves_kids(kids.take(i), h)), lo, child_lo(keys, i, lo)),
        within(flat(leaves_kids(kids.skip(i + 1), h)), child_hi(keys, i, hi), hi),
{
    rank_spec(keys, k);
    split_kids(kids, i, h);
    kids_facts(keys, kids, h, lo, hi, i);
    if i == 0 {
        assert(kids.take(0) =~= Seq::<Tree>::empty());
        assert(leaves_kids(kids.take(0), h) =~= Seq::<Tree>::empty());
        assert(flat(leaves_kids(kids.take(0), h)) =~= Seq::<(u64, u64)>::empty());
    }
    if i + 1 < kids.len() {
        tail_kids_within(keys, kids, h, lo, hi, i + 1);
    } else {
        assert(kids.skip(i + 1) =~= Seq::<Tree>::empty());
        assert(leaves_kids(kids.skip(i + 1), h) =~= Seq::<Tree>::empty());
        assert(flat(leaves_kids(kids.skip(i + 1), h)) =~= Seq::<(u64, u64)>::empty());
    }
}

/// The mapping that a list of entries spells.
pub open spec fn as_map(es: Seq<(u64, u64)>) -> Map<u64, u64> {
    Map::new(
        |k: u64| exists|i: int| 0 <= i < es.len() && (#[trigger] es[i]).0 == k,
        |k: u64| es[choose|i: int| 0 <= i < es.len() && (#[trigger] es[i]).0 == k].1,
    )
}

pub proof fn as_map_at(es: Seq<(u64, u64)>, i: int)
    requires
        in_order(es),
        0 <= i < es.len(),
    ensures
        as_map(es).contains_key(es[i].0),
        as_map(es)[es[i].0] == es[i].1,
{
    let k = es[i].0;
    let j = choose|j: int| 0 <= j < es.len() && (#[trigger] es[j]).0 == k;
    assert(es[i].0 == k);
    if j < i {
        assert(es[j].0 < es[i].0);
    }
    if i < j {
        assert(es[i].0 < es[j].0);
    }
}

pub proof fn as_map_entered(old: Seq<(u64, u64)>, new: Seq<(u64, u64)>, k: u64, v: u64)
    requires
        in_order(old),
        in_order(new),
        entered(old, new, k, v),
    ensures
        as_map(new) == as_map(old).insert(k, v),
        new.len() == if as_map(old).contains_key(k) {
            old.len()
        } else {
            old.len() + 1
        },
{
    let m = as_map(old);
    let n = as_map(new);
    if exists|p: int| 0 <= p <= old.len() && new == #[trigger] old.insert(p, (k, v)) {
        let p = choose|p: int| 0 <= p <= old.len() && new == #[trigger] old.insert(p, (k, v));
        assert(new[p] == (k, v));
        as_map_at(new, p);
        if m.contains_key(k) {
            let i = choose|i: int| 0 <= i < old.len() && (#[trigger] old[i]).0 == k;
            if i < p {
                assert(new[i] == old[i]);
                assert(new[i].0 < new[p].0);
            } else {
                assert(new[i + 1] == old[i]);
                assert(new[p].0 < new[i + 1].0);
            }
        }
        assert forall|x: u64| n.contains_key(x) == m.insert(k, v).contains_key(x) by {
            if m.contains_key(x) {
                let i = choose|i: int| 0 <= i < old.len() && (#[trigger] old[i]).0 == x;
                assert(new[if i < p { i } else { i + 1 }] == old[i]);
            }
            if n.contains_key(x) && x != k {
                let i = choose|i: int| 0 <= i < new.len() && (#[trigger] new[i]).0 == x;
                assert(old[if i < p { i } else { i - 1 }] == new[i]);
            }
        }
        assert forall|x: u64| m.contains_key(x) implies n[x] == m.insert(k, v)[x] by {
            let i = choose|i: int| 0 <= i < old.len() && (#[trigger] old[i]).0 == x;
            let j = if i < p {
                i
            } else {
                i + 1
            };
            assert(new[j] == old[i]);
            as_map_at(new, j);
            as_map_at(old, i);
        }
        assert(n =~= m.insert(k, v));
    } else {
        let p = choose|p: int|
            0 <= p < old.len() && #[trigger] old[p].0 == k && new == old.update(p, (k, v));
        as_map_at(old, p);
        as_map_at(new, p);
        assert forall|x: u64| n.contains_key(x) == m.insert(k, v).contains_key(x) by {
            if m.contains_key(x) {
                let i = choose|i: int| 0 <= i < old.len() && (#[trigger] old[i]).0 == x;
                assert(new[i].0 == x);
            }
            if n.contains_key(x) && x != k {
                let i = choose|i: int| 0 <= i < new.len() && (#[trigger] new[i]).0 == x;
                assert(old[i] == new[i]);
            }
        }
        assert forall|x: u64| m.contains_key(x) && x != k implies n[x] == m.insert(k, v)[x] by {
            let i = choose|i: int| 0 <= i < old.len() && (#[trigger] old[i]).0 == x;
            assert(new[i] == old[i]);
            as_map_at(new, i);
            as_map_at(old, i);
        }
        assert(n =~= m.insert(k, v));
    }
}

pub proof fn as_map_len(es: Seq<(u64, u64)>)
    requires
        in_order(es),
    ensures
        as_map(es).dom().finite(),
        as_map(es).dom().len() == es.len(),
    decreases es.len(),
{
    if es.len() == 0 {
        assert(as_map(es).dom() =~= Set::empty());
    } else {
        let front = es.drop_last();
        let (k, v) = es.last();
        assert(in_order(front)) by {
            assert forall|i: int, j: int| 0 <= i < j < front.len() implies (#[trigger] front[i]).0
                < (#[trigger] front[j]).0 by {
                assert(es[i].0 < es[j].0);
            }
        }
        as_map_len(front);
        assert(es =~= front.insert(front.len() as int, (k, v)));
        as_map_entered(front, es, k, v);
        assert(!as_map(front).contains_key(k)) by {
            if as_map(front).contains_key(k) {
                let i = choose|i: int| 0 <= i < front.len() && (#[trigger] front[i]).0 == k;
                assert(es[i].0 < es[es.len() - 1].0);
            }
        }
        assert(as_map(es).dom() =~= as_map(front).dom().insert(k));
    }
}

// ---- what insertion preserves ------------------------------------------------

/// The children of a node, judged against its separators.
pub open spec fn kids_ok(keys: Seq<u64>, kids: Seq<Tree>, h: nat, lo: int, hi: int) -> bool {
    &&& kids.len() == keys.len() + 1
    &&& ascending(keys)
    &&& bounded(keys, lo, hi)
    &&& forall|i: int|
        0 <= i < kids.len() ==> wf(
            #[trigger] kids[i],
            h,
            child_lo(keys, i, lo),
            child_hi(keys, i, hi),
            false,
        )
}

proof fn widened_ok(
    keys: Seq<u64>,
    kids: Seq<Tree>,
    h: nat,
    lo: int,
    hi: int,
    i: int,
    l: Tree,
    sep: u64,
    r: Tree,
)
    requires
        kids_ok(keys, kids, h, lo, hi),
        0 <= i < kids.len(),
        wf(l, h, child_lo(keys, i, lo), sep as int, false),
        wf(r, h, sep as int, child_hi(keys, i, hi), false),
        child_lo(keys, i, lo) < sep < child_hi(keys, i, hi),
    ensures
        kids_ok(keys.insert(i, sep), widened(kids, i, l, r), h, lo, hi),
{
    let ks = keys.insert(i, sep);
    let cs = widened(kids, i, l, r);
    if i > 0 {
        assert(lo <= keys[i - 1] < hi);
    }
    if i < keys.len() {
        assert(lo <= keys[i] < hi);
    }
    assert forall|a: int, b: int| 0 <= a < b < ks.len() implies ks[a] < ks[b] by {
        let a0 = if a < i {
            a
        } else {
            a - 1
        };
        let b0 = if b < i {
            b
        } else {
            b - 1
        };
        if a != i && b != i {
            assert(keys[a0] < keys[b0]);
        } else if b == i {
            if a0 < i - 1 {
                assert(keys[a0] < keys[i - 1]);
            }
        } else {
            if b0 > i {
                assert(keys[i] < keys[b0]);
            }
        }
    }
    assert forall|a: int| 0 <= a < ks.len() implies lo <= #[trigger] ks[a] < hi by {
        if a < i {
            assert(ks[a] == keys[a]);
        } else if a > i {
            assert(ks[a] == keys[a - 1]);
        }
    }
    assert forall|j: int| 0 <= j < cs.len() implies wf(
        #[trigger] cs[j],
        h,
        child_lo(ks, j, lo),
        child_hi(ks, j, hi),
        false,
    ) by {
        if j < i {
            assert(cs[j] == kids[j]);
        } else if j == i {
            assert(cs[j] == l);
        } else if j == i + 1 {
            assert(cs[j] == r);
        } else {
            assert(cs[j] == kids[j - 1]);
        }
    }
}

proof fn halves_ok(ks: Seq<u64>, cs: Seq<Tree>, h: nat, lo: int, hi: int)
    requires
        kids_ok(ks, cs, h, lo, hi),
        ks.len() == 9,
    ensures
        kids_ok(ks.take(4), cs.take(5), h, lo, ks[4] as int),
        kids_ok(ks.skip(5), cs.skip(5), h, ks[4] as int, hi),
        lo < ks[4] < hi,
{
    let kl = ks.take(4);
    let kr = ks.skip(5);
    let cl = cs.take(5);
    let cr = cs.skip(5);
    assert(ks[0] < ks[4]);
    assert(lo <= ks[0] && lo <= ks[4] < hi);
    assert forall|a: int| 0 <= a < kl.len() implies lo <= #[trigger] kl[a] < ks[4] by {
        assert(lo <= ks[a]);
    }
    assert forall|a: int| 0 <= a < kr.len() implies ks[4] <= #[trigger] kr[a] < hi by {
        assert(ks[a + 5] < hi);
    }
    assert forall|j: int| 0 <= j < cl.len() implies wf(
        #[trigger] cl[j],
        h,
        child_lo(kl, j, lo),
        child_hi(kl, j, ks[4] as int),
        false,
    ) by {
        assert(cl[j] == cs[j]);
    }
    assert forall|j: int| 0 <= j < cr.len() implies wf(
        #[trigger] cr[j],
        h,
        child_lo(kr, j, ks[4] as int),
        child_hi(kr, j, hi),
        false,
    ) by {
        assert(cr[j] == cs[j + 5]);
    }
}

/// Insertion keeps the tree well formed, and splits its top node exactly when
/// [`overflows`] says so.
pub proof fn grow_wf(
    t: Tree,
    h: nat,
    k: u64,
    v: u64,
    fresh: int,
    lo: int,
    hi: int,
    root: bool,
)
    requires
        wf(t, h, lo, hi, root),
        lo <= k < hi,
    ensures
        grown_wf(grow(t, h, k, v, fresh), h, lo, hi, root),
        (grow(t, h, k, v, fresh) is Two) == overflows(t, h, k),
    decreases h,
{
    match t {
        Tree::Leaf { id, keys, vals } => {
            rank_spec(keys, k);
            let p = rank(keys, k);
            let ks = keys.insert(p, k);
            if !present(keys, k) {
                assert forall|a: int, b: int| 0 <= a < b < ks.len() implies ks[a] < ks[b] by {
                    let a0 = if a < p {
                        a
                    } else {
                        a - 1
                    };
                    let b0 = if b < p {
                        b
                    } else {
                        b - 1
                    };
                    if a != p && b != p {
                        assert(keys[a0] < keys[b0]);
                    } else if b == p {
                        assert(keys[a0] <= k);
                        if a0 < p - 1 {
                            assert(keys[a0] < keys[p - 1]);
                        }
                    }
                }
                assert forall|a: int| 0 <= a < ks.len() implies lo <= #[trigger] ks[a] < hi by {
                    if a < p {
                        assert(ks[a] == keys[a]);
                    } else if a > p {
                        assert(ks[a] == keys[a - 1]);
                    }
                }
                if keys.len() >= 8 {
                    assert(ks[0] < ks[4]);
                }
            }
        },
        Tree::Inner { id, keys, kids } => {
            let g = (h - 1) as nat;
            let i = rank(keys, k);
            assert(kids_ok(keys, kids, g, lo, hi)) by {
                assert forall|j: int| 0 <= j < kids.len() implies wf(
                    #[trigger] kids[j],
                    g,
                    child_lo(keys, j, lo),
                    child_hi(keys, j, hi),
                    false,
                ) by {}
            }
            descend(keys, kids, g, lo, hi, k, i);
            grow_wf(kids[i], g, k, v, fresh, child_lo(keys, i, lo), child_hi(keys, i, hi), false);
            match grow(kids[i], g, k, v, fresh) {
                Grown::One(c) => {
                    let cs = kids.update(i, c);
                    assert forall|j: int| 0 <= j < cs.len() implies wf(
                        #[trigger] cs[j],
                        g,
                        child_lo(keys, j, lo),
                        child_hi(keys, j, hi),
                        false,
                    ) by {
                        if j != i {
                            assert(cs[j] == kids[j]);
                        }
                    }
                },
                Grown::Two(l, sep, r) => {
                    widened_ok(keys, kids, g, lo, hi, i, l, sep, r);
                    if keys.len() >= 8 {
                        halves_ok(keys.insert(i, sep), widened(kids, i, l, r), g, lo, hi);
                    }
                },
            }
        },
    }
}

proof fn widened_lists(kids: Seq<Tree>, i: int, l: Tree, r: Tree, h: nat)
    requires
        0 <= i < kids.len(),
    ensures
        leaves_kids(widened(kids, i, l, r), h) == leaves_kids(kids.take(i), h) + (leaves(l, h)
            + leaves(r, h)) + leaves_kids(kids.skip(i + 1), h),
        count_kids(widened(kids, i, l, r), h) == count_kids(kids.take(i), h) + count(l, h) + count(
            r,
            h,
        ) + count_kids(kids.skip(i + 1), h),
{
    let a = kids.take(i);
    let b = kids.skip(i + 1);
    let cs = widened(kids, i, l, r);
    assert(cs =~= a + seq![l] + seq![r] + b);
    leaves_kids_append(a + seq![l] + seq![r], b, h);
    leaves_kids_append(a + seq![l], seq![r], h);
    leaves_kids_append(a, seq![l], h);
    count_kids_append(a + seq![l] + seq![r], b, h);
    count_kids_append(a + seq![l], seq![r], h);
    count_kids_append(a, seq![l], h);
    one_kid(l, h);
    one_kid(r, h);
    assert(leaves_kids(cs, h) =~= leaves_kids(a, h) + (leaves(l, h) + leaves(r, h)) + leaves_kids(
        b,
        h,
    ));
}

proof fn halves_lists(cs: Seq<Tree>, h: nat)
    requires
        cs.len() >= 5,
    ensures
        leaves_kids(cs, h) == leaves_kids(cs.take(5), h) + leaves_kids(cs.skip(5), h),
        count_kids(cs, h) == count_kids(cs.take(5), h) + count_kids(cs.skip(5), h),
{
    assert(cs =~= cs.take(5) + cs.skip(5));
    leaves_kids_append(cs.take(5), cs.skip(5), h);
    count_kids_append(cs.take(5), cs.skip(5), h);
}

/// Insertion adds the nodes that [`splits`] says, and changes the leaf list
/// only under the child that the key belongs to.
pub proof fn grow_lists(
    t: Tree,
    h: nat,
    k: u64,
    v: u64,
    fresh: int,
    lo: int,
    hi: int,
    root: bool,
)
    requires
        wf(t, h, lo, hi, root),
        lo <= k < hi,
    ensures
        grown_count(grow(t, h, k, v, fresh), h) == count(t, h) + splits(t, h, k),
        match t {
            Tree::Leaf { .. } => true,
            Tree::Inner { keys, kids, .. } => {
                let i = rank(keys, k);
                let g = (h - 1) as nat;
                grown_leaves(grow(t, h, k, v, fresh), h) == leaves_kids(kids.take(i), g)
                    + grown_leaves(grow(kids[i], g, k, v, fresh), g) + leaves_kids(
                    kids.skip(i + 1),
                    g,
                )
            },
        },
    decreases h,
{
    match t {
        Tree::Leaf { .. } => {},
        Tree::Inner { id, keys, kids } => {
            let g = (h - 1) as nat;
            let i = rank(keys, k);
            rank_spec(keys, k);
            assert(wf(kids[i], g, child_lo(keys, i, lo), child_hi(keys, i, hi), false));
            grow_lists(
                kids[i],
                g,
                k,
                v,
                fresh,
                child_lo(keys, i, lo),
                child_hi(keys, i, hi),
                false,
            );
            grow_wf(kids[i], g, k, v, fresh, child_lo(keys, i, lo), child_hi(keys, i, hi), false);
            split_kids(kids, i, g);
            match grow(kids[i], g, k, v, fresh) {
                Grown::One(c) => {
                    let cs = kids.update(i, c);
                    split_kids(cs, i, g);
                    assert(cs.take(i) =~= kids.take(i));
                    assert(cs.skip(i + 1) =~= kids.skip(i + 1));
                },
                Grown::Two(l, sep, r) => {
                    widened_lists(kids, i, l, r, g);
                    if keys.len() >= 8 {
                        halves_lists(widened(kids, i, l, r), g);
                    }
                },
            }
        },
    }
}

/// Insertion into a leaf enters `k -> v` into its entries.
#[verifier::spinoff_prover]
proof fn grow_flat_leaf(
    t: Tree,
    h: nat,
    k: u64,
    v: u64,
    fresh: int,
    lo: int,
    hi: int,
    root: bool,
)
    requires
        t is Leaf,
        wf(t, h, lo, hi, root),
        lo <= k < hi,
    ensures
        entered(flat(leaves(t, h)), flat(grown_leaves(grow(t, h, k, v, fresh), h)), k, v),
        grown_leaves(grow(t, h, k, v, fresh), h).len() >= 1,
        grown_leaves(grow(t, h, k, v, fresh), h)[0].id() == leaves(t, h)[0].id(),
{
    let old = flat(leaves(t, h));
    leaves_facts(t, h, lo, hi, root);
    if let Tree::Leaf { id, keys, vals } = t {
        rank_spec(keys, k);
        let p = rank(keys, k);
        one_leaf_flat(t);
        if present(keys, k) {
            let u = Tree::Leaf { id, keys, vals: vals.update(p - 1, v) };
            one_leaf_flat(u);
            assert(u.entries() =~= t.entries().update(p - 1, (k, v)));
            assert(old[p - 1].0 == k);
        } else {
            let ks = keys.insert(p, k);
            let vs = vals.insert(p, v);
            if keys.len() < 8 {
                let u = Tree::Leaf { id, keys: ks, vals: vs };
                one_leaf_flat(u);
                assert(u.entries() =~= old.insert(p, (k, v)));
            } else {
                let l = Tree::Leaf { id, keys: ks.take(4), vals: vs.take(4) };
                let r = Tree::Leaf { id: fresh as u32, keys: ks.skip(4), vals: vs.skip(4) };
                one_leaf_flat(l);
                one_leaf_flat(r);
                flat_append(seq![l], seq![r]);
                assert(l.entries() + r.entries() =~= old.insert(p, (k, v)));
            }
        }
    }
}

/// An entry made in the middle part of a list is made in the list.
proof fn entered_in_the_middle(
    fa: Seq<(u64, u64)>,
    fm: Seq<(u64, u64)>,
    fx: Seq<(u64, u64)>,
    fb: Seq<(u64, u64)>,
    k: u64,
    v: u64,
)
    requires
        entered(fm, fx, k, v),
    ensures
        entered(fa + fm + fb, fa + fx + fb, k, v),
{
    let old = fa + fm + fb;
    let new = fa + fx + fb;
    if exists|p: int| 0 <= p <= fm.len() && fx == #[trigger] fm.insert(p, (k, v)) {
        let p = choose|p: int| 0 <= p <= fm.len() && fx == #[trigger] fm.insert(p, (k, v));
        assert(new =~= old.insert(fa.len() + p, (k, v)));
    } else {
        let p = choose|p: int|
            0 <= p < fm.len() && #[trigger] fm[p].0 == k && fx == fm.update(p, (k, v));
        assert(old[fa.len() + p] == fm[p]);
        assert(new =~= old.update(fa.len() + p, (k, v)));
    }
}

/// Insertion enters `k -> v` into the entry list, and leaves the first leaf in
/// its pool slot.
#[verifier::spinoff_prover]
#[verifier::rlimit(40)]
pub proof fn grow_flat(
    t: Tree,
    h: nat,
    k: u64,
    v: u64,
    fresh: int,
    lo: int,
    hi: int,
    root: bool,
)
    requires
        wf(t, h, lo, hi, root),
        lo <= k < hi,
    ensures
        entered(flat(leaves(t, h)), flat(grown_leaves(grow(t, h, k, v, fresh), h)), k, v),
        grown_leaves(grow(t, h, k, v, fresh), h).len() >= 1,
        grown_leaves(grow(t, h, k, v, fresh), h)[0].id() == leaves(t, h)[0].id(),
        leaves(t, h).len() >= 1,
    decreases h,
{
    let old = flat(leaves(t, h));
    let new = flat(grown_leaves(grow(t, h, k, v, fresh), h));
    leaves_facts(t, h, lo, hi, root);
    match t {
        Tree::Leaf { .. } => {
            grow_flat_leaf(t, h, k, v, fresh, lo, hi, root);
        },
        Tree::Inner { keys, kids, .. } => {
            let g = (h - 1) as nat;
            let i = rank(keys, k);
            rank_spec(keys, k);
            assert(wf(kids[i], g, child_lo(keys, i, lo), child_hi(keys, i, hi), false));
            descend(keys, kids, g, lo, hi, k, i);
            grow_lists(t, h, k, v, fresh, lo, hi, root);
            grow_flat(kids[i], g, k, v, fresh, child_lo(keys, i, lo), child_hi(keys, i, hi), false);
            let la = leaves_kids(kids.take(i), g);
            let lb = leaves_kids(kids.skip(i + 1), g);
            let lm = leaves(kids[i], g);
            let ln = grown_leaves(grow(kids[i], g, k, v, fresh), g);
            flat_append(la + ln, lb);
            flat_append(la, ln);
            let fa = flat(la);
            let fm = flat(lm);
            let fn_ = flat(ln);
            let fb = flat(lb);
            assert(old == fa + fm + fb);
            assert(new == fa + fn_ + fb);
            entered_in_the_middle(fa, fm, fn_, fb, k, v);
            if la.len() > 0 {
                assert((la + ln + lb)[0] == la[0]);
                assert((la + lm + lb)[0] == la[0]);
            } else {
                assert((la + ln + lb)[0] == ln[0]);
                assert((la + lm + lb)[0] == lm[0]);
            }
        },
    }
}

pub proof fn one_leaf_flat(t: Tree)
    ensures
        flat(seq![t]) == t.entries(),
{
    let s = seq![t];
    assert(s.drop_last() =~= Seq::<Tree>::empty());
    assert(flat(s.drop_last()) =~= Seq::<(u64, u64)>::empty());
    assert(flat(s) =~= t.entries());
}

/// Insertion takes over the pool slots it had, plus the fresh ones, and keeps
/// them distinct.
#[verifier::spinoff_prover]
pub proof fn grow_owns(
    t: Tree,
    h: nat,
    k: u64,
    v: u64,
    fresh: int,
    lo: int,
    hi: int,
    root: bool,
)
    requires
        wf(t, h, lo, hi, root),
        lo <= k < hi,
        distinct(t, h),
        forall|x: int| owns(t, h, x) ==> x < fresh,
        0 <= fresh,
        fresh + splits(t, h, k) <= u32::MAX,
    ensures
        forall|x: int|
            #[trigger] grown_owns(grow(t, h, k, v, fresh), h, x) <==> (owns(t, h, x) || fresh <= x
                < fresh + splits(t, h, k)),
        grown_distinct(grow(t, h, k, v, fresh), h),
    decreases h,
{
    let res = grow(t, h, k, v, fresh);
    match t {
        Tree::Leaf { id, keys, vals } => {
            assert(owns(t, h, id as int));
        },
        Tree::Inner { id, keys, kids } => {
            let g = (h - 1) as nat;
            let i = rank(keys, k);
            rank_spec(keys, k);
            assert(wf(kids[i], g, child_lo(keys, i, lo), child_hi(keys, i, hi), false));
            descend(keys, kids, g, lo, hi, k, i);
            assert forall|x: int, j: int| 0 <= j < kids.len() && #[trigger] owns(
                kids[j],
                g,
                x,
            ) implies x < fresh by {
                assert(owns(t, h, x));
            }
            assert(owns(t, h, id as int));
            assert(distinct(kids[i], g));
            assert(kids_distinct(kids, g, id));
            let s = splits(kids[i], g, k);
            assert(s <= splits(t, h, k));
            grow_owns(kids[i], g, k, v, fresh, child_lo(keys, i, lo), child_hi(keys, i, hi), false);
            grow_wf(kids[i], g, k, v, fresh, child_lo(keys, i, lo), child_hi(keys, i, hi), false);
            let sub = grow(kids[i], g, k, v, fresh);
            match sub {
                Grown::One(c) => {
                    let cs = kids.update(i, c);
                    let n = Tree::Inner { id, keys, kids: cs };
                    assert forall|x: int| #[trigger] owns(n, h, x) <==> (owns(t, h, x) || fresh <= x
                        < fresh + s) by {
                        owns_inner(n, h, x);
                        owns_inner(t, h, x);
                        assert(grown_owns(sub, g, x) == owns(c, g, x));
                        assert(cs[i] == c);
                        if held(cs, g, x) {
                            let j = choose|j: int| 0 <= j < cs.len() && owns(#[trigger] cs[j], g, x);
                            assert(j != i ==> cs[j] == kids[j]);
                            assert(owns(kids[j], g, x) || fresh <= x < fresh + s);
                        }
                        if held(kids, g, x) {
                            let j = choose|j: int|
                                0 <= j < kids.len() && owns(#[trigger] kids[j], g, x);
                            assert(j != i ==> cs[j] == kids[j]);
                            assert(owns(cs[j], g, x));
                        }
                        if fresh <= x < fresh + s {
                            assert(owns(cs[i], g, x));
                        }
                    }
                    distinct_inner(n, h);
                    assert forall|a: int| 0 <= a < cs.len() implies !#[trigger] owns(
                        cs[a],
                        g,
                        id as int,
                    ) by {
                        if a == i {
                            assert(!grown_owns(sub, g, id as int) || owns(kids[i], g, id as int));
                        } else {
                            assert(!owns(kids[a], g, id as int));
                        }
                    }
                    assert forall|a: int, b: int, x: int|
                        0 <= a < b < cs.len() && #[trigger] owns(cs[a], g, x) implies !#[trigger] owns(
                        cs[b],
                        g,
                        x,
                    ) by {
                        if a == i {
                            assert(grown_owns(sub, g, x));
                        }
                        if b == i && owns(cs[b], g, x) {
                            assert(grown_owns(sub, g, x));
                        }
                    }
                    assert forall|a: int| 0 <= a < cs.len() implies #[trigger] distinct(
                        cs[a],
                        g,
                    ) by {
                        if a != i {
                            assert(distinct(kids[a], g));
                        }
                    }
                },
                Grown::Two(l, sep, r) => {
                    let cs = widened(kids, i, l, r);
                    widened_owns(kids, i, l, sep, r, g, fresh, s as int);
                    let ks = keys.insert(i, sep);
                    if keys.len() < 8 {
                        let n = Tree::Inner { id, keys: ks, kids: cs };
                        assert forall|x: int| #[trigger] owns(n, h, x) <==> (owns(t, h, x)
                            || fresh <= x < fresh + s) by {
                            owns_inner(n, h, x);
                            owns_inner(t, h, x);
                        }
                        assert forall|a: int| 0 <= a < cs.len() implies !#[trigger] owns(
                            cs[a],
                            g,
                            id as int,
                        ) by {
                            if owns(cs[a], g, id as int) {
                                assert(held(cs, g, id as int));
                                assert(held(kids, g, id as int));
                            }
                        }
                        distinct_inner(n, h);
                    } else {
                        let at = (fresh + s) as u32;
                        let n = Tree::Inner { id, keys: ks.take(4), kids: cs.take(5) };
                        let m = Tree::Inner { id: at, keys: ks.skip(5), kids: cs.skip(5) };
                        assert forall|x: int| (owns(n, h, x) || #[trigger] owns(m, h, x)) <==> (
                        owns(t, h, x) || fresh <= x < fresh + s + 1) by {
                            owns_inner(t, h, x);
                            owns_inner(n, h, x);
                            owns_inner(m, h, x);
                            held_halves(cs, g, x);
                            assert(held(cs, g, x) <==> (fresh <= x < fresh + s || held(kids, g, x)));
                        }
                        halves_distinct(kids, cs, g, fresh, s as int, id, at, n, m, h);
                        assert forall|x: int| #[trigger] grown_owns(res, h, x) <==> (owns(t, h, x)
                            || fresh <= x < fresh + splits(t, h, k)) by {
                            assert(owns(n, h, x) || owns(m, h, x) <==> grown_owns(res, h, x));
                        }
                    }
                },
            }
        },
    }
}

/// What [`distinct`] says of a node's children.
pub open spec fn kids_distinct(kids: Seq<Tree>, g: nat, id: u32) -> bool {
    &&& forall|i: int| 0 <= i < kids.len() ==> !#[trigger] owns(kids[i], g, id as int)
    &&& forall|i: int, j: int, x: int|
        0 <= i < j < kids.len() && #[trigger] owns(kids[i], g, x) ==> !#[trigger] owns(
            kids[j],
            g,
            x,
        )
    &&& forall|i: int| 0 <= i < kids.len() ==> #[trigger] distinct(kids[i], g)
}

/// Does one of these subtrees own pool slot `x`?
pub open spec fn held(cs: Seq<Tree>, g: nat, x: int) -> bool {
    exists|c: int| 0 <= c < cs.len() && owns(#[trigger] cs[c], g, x)
}

pub proof fn owns_inner(t: Tree, h: nat, x: int)
    requires
        t is Inner,
        h > 0,
    ensures
        owns(t, h, x) == (x == t->Inner_id || held(t->kids, (h - 1) as nat, x)),
{
    let kids = t->kids;
    let g = (h - 1) as nat;
    if held(kids, g, x) {
        let c = choose|c: int| 0 <= c < kids.len() && owns(#[trigger] kids[c], g, x);
        assert(owns(t, h, x));
    }
    if owns(t, h, x) && x != t->Inner_id {
        let c = choose|c: int| 0 <= c < kids.len() && owns(#[trigger] kids[c], g, x);
        assert(owns(kids[c], g, x));
    }
}

pub proof fn distinct_inner(t: Tree, h: nat)
    requires
        t is Inner,
        h > 0,
    ensures
        distinct(t, h) == kids_distinct(t->kids, (h - 1) as nat, t->Inner_id),
{
    let kids = t->kids;
    let g = (h - 1) as nat;
    if distinct(t, h) {
        assert forall|i: int| 0 <= i < kids.len() implies #[trigger] distinct(kids[i], g) by {}
    }
    if kids_distinct(kids, g, t->Inner_id) {
        assert forall|i: int| 0 <= i < kids.len() implies distinct(#[trigger] kids[i], g) by {}
    }
}

/// The children after a split own what the children owned, plus the fresh
/// slots, and still share nothing.
pub open spec fn redealt(kids: Seq<Tree>, cs: Seq<Tree>, g: nat, fresh: int, s: int) -> bool {
    &&& forall|x: int| #[trigger] held(cs, g, x) <==> (fresh <= x < fresh + s || held(kids, g, x))
    &&& forall|a: int, b: int, x: int|
        0 <= a < b < cs.len() && #[trigger] owns(cs[a], g, x) ==> !#[trigger] owns(cs[b], g, x)
    &&& forall|a: int| 0 <= a < cs.len() ==> #[trigger] distinct(cs[a], g)
}

pub proof fn widened_owns(kids: Seq<Tree>, i: int, l: Tree, sep: u64, r: Tree, g: nat, fresh: int, s: int)
    requires
        0 <= i < kids.len(),
        forall|x: int, j: int|
            0 <= j < kids.len() && #[trigger] owns(kids[j], g, x) ==> x < fresh,
        forall|a: int, b: int, x: int|
            0 <= a < b < kids.len() && #[trigger] owns(kids[a], g, x) ==> !#[trigger] owns(
                kids[b],
                g,
                x,
            ),
        forall|a: int| 0 <= a < kids.len() ==> #[trigger] distinct(kids[a], g),
        forall|x: int|
            #[trigger] grown_owns(Grown::Two(l, sep, r), g, x) <==> (owns(kids[i], g, x) || fresh
                <= x < fresh + s),
        grown_distinct(Grown::Two(l, sep, r), g),
    ensures
        redealt(kids, widened(kids, i, l, r), g, fresh, s),
{
    let cs = widened(kids, i, l, r);
    let two = Grown::Two(l, sep, r);
    assert(cs[i] == l && cs[i + 1] == r);
    assert forall|x: int| #[trigger] held(cs, g, x) <==> (fresh <= x < fresh + s || held(
        kids,
        g,
        x,
    )) by {
        assert(grown_owns(two, g, x) == (owns(l, g, x) || owns(r, g, x)));
        if held(kids, g, x) {
            let j = choose|j: int| 0 <= j < kids.len() && owns(#[trigger] kids[j], g, x);
            if j < i {
                assert(owns(cs[j], g, x));
            } else if j > i {
                assert(owns(cs[j + 1], g, x));
            } else {
                assert(owns(cs[i], g, x) || owns(cs[i + 1], g, x));
            }
        }
        if fresh <= x < fresh + s {
            assert(owns(cs[i], g, x) || owns(cs[i + 1], g, x));
        }
        if held(cs, g, x) {
            let c = choose|c: int| 0 <= c < cs.len() && owns(#[trigger] cs[c], g, x);
            if c < i {
                assert(owns(kids[c], g, x));
            } else if c > i + 1 {
                assert(owns(kids[c - 1], g, x));
            } else {
                assert(owns(kids[i], g, x) || fresh <= x < fresh + s);
            }
        }
    }
    assert forall|a: int, b: int, x: int|
        0 <= a < b < cs.len() && #[trigger] owns(cs[a], g, x) implies !#[trigger] owns(
        cs[b],
        g,
        x,
    ) by {
        assert(grown_owns(two, g, x) == (owns(l, g, x) || owns(r, g, x)));
        if a < i {
            assert(owns(kids[a], g, x));
        } else if a > i + 1 {
            assert(owns(kids[a - 1], g, x));
        }
        if owns(cs[b], g, x) {
            if b > i + 1 {
                assert(owns(kids[b - 1], g, x));
            } else if b < i {
                assert(owns(kids[b], g, x));
            }
        }
    }
    assert forall|a: int| 0 <= a < cs.len() implies #[trigger] distinct(cs[a], g) by {
        if a < i {
            assert(distinct(kids[a], g));
        } else if a > i + 1 {
            assert(distinct(kids[a - 1], g));
        }
    }
}

proof fn held_halves(cs: Seq<Tree>, g: nat, x: int)
    requires
        cs.len() >= 5,
    ensures
        held(cs, g, x) == (held(cs.take(5), g, x) || held(cs.skip(5), g, x)),
{
    if held(cs, g, x) {
        let c = choose|c: int| 0 <= c < cs.len() && owns(#[trigger] cs[c], g, x);
        if c < 5 {
            assert(cs.take(5)[c] == cs[c]);
        } else {
            assert(cs.skip(5)[c - 5] == cs[c]);
        }
    }
    if held(cs.take(5), g, x) {
        let c = choose|c: int| 0 <= c < cs.take(5).len() && owns(#[trigger] cs.take(5)[c], g, x);
        assert(owns(cs[c], g, x));
    }
    if held(cs.skip(5), g, x) {
        let c = choose|c: int| 0 <= c < cs.skip(5).len() && owns(#[trigger] cs.skip(5)[c], g, x);
        assert(owns(cs[c + 5], g, x));
    }
}

proof fn halves_distinct(
    kids: Seq<Tree>,
    cs: Seq<Tree>,
    g: nat,
    fresh: int,
    s: int,
    id: u32,
    at: u32,
    n: Tree,
    m: Tree,
    h: nat,
)
    requires
        redealt(kids, cs, g, fresh, s),
        cs.len() >= 5,
        h == g + 1,
        s >= 0,
        id < fresh,
        at == fresh + s,
        forall|j: int| 0 <= j < kids.len() ==> !#[trigger] owns(kids[j], g, id as int),
        forall|x: int, j: int|
            0 <= j < kids.len() && #[trigger] owns(kids[j], g, x) ==> x < fresh,
        n is Inner && n->Inner_id == id && n->kids == cs.take(5),
        m is Inner && m->Inner_id == at && m->kids == cs.skip(5),
    ensures
        distinct(n, h),
        distinct(m, h),
        forall|x: int| #[trigger] owns(n, h, x) ==> !owns(m, h, x),
{
    let a = cs.take(5);
    let b = cs.skip(5);
    assert forall|x: int, c: int| 0 <= c < cs.len() && #[trigger] owns(cs[c], g, x) implies x != id
        && x != at by {
        assert(held(cs, g, x));
        if !(fresh <= x < fresh + s) {
            assert(held(kids, g, x));
            let j = choose|j: int| 0 <= j < kids.len() && owns(#[trigger] kids[j], g, x);
            assert(owns(kids[j], g, x));
        }
    }
    assert forall|i: int| 0 <= i < a.len() implies !#[trigger] owns(a[i], g, id as int) by {
        assert(a[i] == cs[i]);
    }
    assert forall|i: int| 0 <= i < b.len() implies !#[trigger] owns(b[i], g, at as int) by {
        assert(b[i] == cs[i + 5]);
    }
    assert forall|i: int, j: int, x: int|
        0 <= i < j < a.len() && #[trigger] owns(a[i], g, x) implies !#[trigger] owns(a[j], g, x) by {
        assert(a[i] == cs[i] && a[j] == cs[j]);
    }
    assert forall|i: int, j: int, x: int|
        0 <= i < j < b.len() && #[trigger] owns(b[i], g, x) implies !#[trigger] owns(b[j], g, x) by {
        assert(b[i] == cs[i + 5] && b[j] == cs[j + 5]);
    }
    assert forall|i: int| 0 <= i < a.len() implies #[trigger] distinct(a[i], g) by {
        assert(a[i] == cs[i]);
    }
    assert forall|i: int| 0 <= i < b.len() implies #[trigger] distinct(b[i], g) by {
        assert(b[i] == cs[i + 5]);
    }
    distinct_inner(n, h);
    distinct_inner(m, h);
    assert forall|x: int| #[trigger] owns(n, h, x) implies !owns(m, h, x) by {
        owns_inner(n, h, x);
        owns_inner(m, h, x);
        if x != id {
            let i = choose|i: int| 0 <= i < a.len() && owns(#[trigger] a[i], g, x);
            assert(owns(cs[i], g, x));
        }
        if owns(m, h, x) && x != at {
            let j = choose|j: int| 0 <= j < b.len() && owns(#[trigger] b[j], g, x);
            assert(owns(cs[j + 5], g, x));
        }
    }
}

} // verus!
