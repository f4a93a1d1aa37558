//! Open addressing with linear probing: what makes a lookup stop, and stop at
//! the right place. Shared by the primary-key table and the trigram table.

use vstd::prelude::*;

verus! {

/// The slot `d` steps on from slot `h`, in a table of `n`.
pub open spec fn at(h: int, d: int, n: int) -> int {
    if h + d < n {
        h + d
    } else {
        h + d - n
    }
}

/// The steps from slot `h` to slot `e`.
pub open spec fn steps(h: int, e: int, n: int) -> int {
    if h <= e {
        e - h
    } else {
        e + n - h
    }
}

/// Every key sits where probing from its home finds it: nothing between its
/// home and its slot is empty.
pub open spec fn found_from_home(keys: Seq<Option<u64>>, home: spec_fn(u64) -> int, i: int) -> bool {
    forall|d: int|
        0 <= d < steps(home(keys[i]->0), i, keys.len() as int) ==> #[trigger] keys[at(
            home(keys[i]->0),
            d,
            keys.len() as int,
        )] is Some
}

/// A probing table: homes are slots, no key is there twice, and every key is
/// found from its home.
pub open spec fn probed(keys: Seq<Option<u64>>, home: spec_fn(u64) -> int) -> bool {
    &&& forall|k: u64| 0 <= #[trigger] home(k) < keys.len()
    &&& forall|i: int, j: int|
        0 <= i < keys.len() && 0 <= j < keys.len() && i != j && keys[i] is Some
            ==> #[trigger] keys[i] != #[trigger] keys[j]
    &&& forall|i: int|
        0 <= i < keys.len() && (#[trigger] keys[i]) is Some ==> found_from_home(keys, home, i)
}

/// An empty table is a probing table.
pub proof fn empty_probed(keys: Seq<Option<u64>>, home: spec_fn(u64) -> int)
    requires
        forall|k: u64| 0 <= #[trigger] home(k) < keys.len(),
        forall|i: int| 0 <= i < keys.len() ==> (#[trigger] keys[i]) is None,
    ensures
        probed(keys, home),
{
}

/// Running into an empty slot proves the key absent.
pub proof fn miss(keys: Seq<Option<u64>>, home: spec_fn(u64) -> int, k: u64, d: int)
    requires
        probed(keys, home),
        0 <= d < keys.len(),
        forall|e: int|
            0 <= e < d ==> (#[trigger] keys[at(home(k), e, keys.len() as int)]) != Some(k),
        keys[at(home(k), d, keys.len() as int)] is None,
    ensures
        forall|i: int| 0 <= i < keys.len() ==> (#[trigger] keys[i]) != Some(k),
{
    let n = keys.len() as int;
    let h = home(k);
    assert(0 <= home(k) < n);
    assert forall|i: int| 0 <= i < keys.len() implies (#[trigger] keys[i]) != Some(k) by {
        if keys[i] == Some(k) {
            let e = steps(h, i, n);
            assert(at(h, e, n) == i);
            assert(0 <= e < n);
            assert(found_from_home(keys, home, i));
            if e > d {
                assert(keys[at(h, d, n)] is Some);
            }
        }
    }
}

/// Storing an absent key in the first empty slot from its home.
pub proof fn put(keys: Seq<Option<u64>>, home: spec_fn(u64) -> int, k: u64, d: int)
    requires
        probed(keys, home),
        0 <= d < keys.len(),
        forall|e: int|
            0 <= e < d ==> (#[trigger] keys[at(home(k), e, keys.len() as int)]) is Some,
        keys[at(home(k), d, keys.len() as int)] is None,
        forall|i: int| 0 <= i < keys.len() ==> (#[trigger] keys[i]) != Some(k),
    ensures
        probed(keys.update(at(home(k), d, keys.len() as int), Some(k)), home),
{
    let n = keys.len() as int;
    let s = at(home(k), d, n);
    assert(0 <= home(k) < n);
    let new = keys.update(s, Some(k));
    assert forall|i: int| 0 <= i < new.len() && (#[trigger] new[i]) is Some implies found_from_home(
        new,
        home,
        i,
    ) by {
        let h = home(new[i]->0);
        assert(0 <= h < n);
        if i == s {
            assert(steps(home(k), s, n) == d);
        } else {
            assert(found_from_home(keys, home, i));
        }
        assert forall|e: int| 0 <= e < steps(h, i, n) implies #[trigger] new[at(h, e, n)] is Some by {
            assert(keys[at(h, e, n)] is Some);
        }
    }
}

/// No more distinct numbers below `m` than `m`.
pub proof fn pigeonhole(s: Seq<int>, m: int)
    requires
        m >= 0,
        s.no_duplicates(),
        forall|i: int| 0 <= i < s.len() ==> 0 <= #[trigger] s[i] < m,
    ensures
        s.len() <= m,
{
    s.unique_seq_to_set();
    vstd::set_lib::lemma_int_range(0, m);
    let all = vstd::set_lib::set_int_range(0, m);
    assert forall|x: int| s.to_set().contains(x) implies all.contains(x) by {
        let i = choose|i: int| 0 <= i < s.len() && s[i] == x;
        assert(0 <= s[i] < m);
    }
    vstd::set_lib::lemma_len_subset(s.to_set(), all);
}

/// `p` is a power of two.
pub open spec fn is_pow2(p: int) -> bool
    decreases p,
{
    p == 1 || (p > 1 && p % 2 == 0 && is_pow2(p / 2))
}

/// The smallest power of two that is at least `n`, or `None` if it does not
/// fit.
pub fn next_power_of_two(n: usize) -> (p: Option<usize>)
    ensures
        match p {
            Some(p) => is_pow2(p as int) && p >= n && (p == 1 || p / 2 < n),
            None => forall|q: int| #[trigger] is_pow2(q) && q >= n ==> q > usize::MAX,
        },
{
    let mut p: usize = 1;
    while p < n
        invariant
            is_pow2(p as int),
            p >= 1,
            p == 1 || p / 2 < n,
        decreases usize::MAX - p,
    {
        if p > usize::MAX / 2 {
            proof {
                assert forall|q: int| #[trigger] is_pow2(q) && q >= n implies q > usize::MAX by {
                    if q <= usize::MAX {
                        pow2_gap(p as int, q);
                    }
                }
            }
            return None;
        }
        p = p * 2;
        assert(p / 2 * 2 == p);
    }
    Some(p)
}

proof fn pow2_gap(p: int, q: int)
    requires
        is_pow2(p),
        is_pow2(q),
        p < q,
    ensures
        2 * p <= q,
    decreases q,
{
    if p > 1 {
        pow2_gap(p / 2, q / 2);
    }
}

/// There is a power of two between any number and its double.
pub proof fn pow2_above(n: int) -> (q: int)
    requires
        n >= 1,
    ensures
        is_pow2(q),
        n <= q < 2 * n,
    decreases n,
{
    if n == 1 {
        1
    } else {
        let half = pow2_above((n + 1) / 2);
        if 2 * half >= 2 * n {
            half
        } else {
            2 * half
        }
    }
}

} // verus!
