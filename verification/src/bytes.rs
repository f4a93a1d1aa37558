//! Little-endian integers and byte ranges: the vocabulary every on-disk
//! format in this crate is written in.

use vstd::prelude::*;

verus! {

/// The `n` low-order bytes of `x`, least significant first.
pub open spec fn le(x: nat, n: nat) -> Seq<u8>
    decreases n,
{
    if n == 0 {
        Seq::empty()
    } else {
        seq![(x % 256) as u8] + le(x / 256, (n - 1) as nat)
    }
}

/// The number that `s` spells, least significant byte first.
pub open spec fn from_le(s: Seq<u8>) -> nat
    decreases s.len(),
{
    if s.len() == 0 {
        0
    } else {
        s[0] as nat + 256 * from_le(s.drop_first())
    }
}

/// Eight little-endian bytes.
pub open spec fn le64(x: u64) -> Seq<u8> {
    le(x as nat, 8)
}

/// Four little-endian bytes.
pub open spec fn le32(x: u32) -> Seq<u8> {
    le(x as nat, 4)
}

/// `n` zero bytes.
pub open spec fn zeros(n: nat) -> Seq<u8> {
    Seq::new(n, |i: int| 0u8)
}

/// `s` with the bytes from `at` on replaced by `part`.
pub open spec fn splice(s: Seq<u8>, at: int, part: Seq<u8>) -> Seq<u8> {
    s.take(at) + part + s.skip(at + part.len())
}

pub proof fn le_len(x: nat, n: nat)
    ensures
        le(x, n).len() == n,
    decreases n,
{
    if n > 0 {
        le_len(x / 256, (n - 1) as nat);
    }
}

/// Writing and reading back an integer: each direction undoes the other.
pub proof fn le64_round_trip(x: u64)
    ensures
        le64(x).len() == 8,
        from_le(le64(x)) == x,
{
    pow256_values();
    le_round_trip(x as nat, 8);
}

pub proof fn le32_round_trip(x: u32)
    ensures
        le32(x).len() == 4,
        from_le(le32(x)) == x,
{
    pow256_values();
    le_round_trip(x as nat, 4);
}

/// The number of distinct values of `n` bytes.
pub open spec fn pow256(n: nat) -> nat
    decreases n,
{
    if n == 0 {
        1
    } else {
        256 * pow256((n - 1) as nat)
    }
}

pub proof fn pow256_values()
    ensures
        pow256(1) == 0x100,
        pow256(4) == 0x1_0000_0000,
        pow256(8) == 0x1_0000_0000_0000_0000,
{
    reveal_with_fuel(pow256, 9);
}

pub proof fn le_round_trip(x: nat, n: nat)
    requires
        x < pow256(n),
    ensures
        le(x, n).len() == n,
        from_le(le(x, n)) == x,
    decreases n,
{
    if n > 0 {
        assert(x / 256 < pow256((n - 1) as nat));
        le_round_trip(x / 256, (n - 1) as nat);
        assert(le(x, n).drop_first() =~= le(x / 256, (n - 1) as nat));
        assert((x % 256) as u8 as nat == x % 256);
    }
}

pub proof fn from_le_round_trip(s: Seq<u8>)
    ensures
        from_le(s) < pow256(s.len()),
        le(from_le(s), s.len()) == s,
    decreases s.len(),
{
    if s.len() > 0 {
        let t = s.drop_first();
        from_le_round_trip(t);
        let x = from_le(s);
        assert(x == s[0] as nat + 256 * from_le(t));
        assert(x % 256 == s[0] as nat);
        assert(x / 256 == from_le(t));
        assert(le(x, s.len()) =~= s);
    } else {
        assert(le(0, 0) =~= s);
    }
}

/// Reading eight bytes, and what they spell.
pub proof fn from_le64(s: Seq<u8>)
    requires
        s.len() == 8,
    ensures
        from_le(s) <= u64::MAX,
        le64(from_le(s) as u64) == s,
{
    from_le_round_trip(s);
    pow256_values();
}

pub proof fn from_le32(s: Seq<u8>)
    requires
        s.len() == 4,
    ensures
        from_le(s) <= u32::MAX,
        le32(from_le(s) as u32) == s,
{
    from_le_round_trip(s);
    pow256_values();
}

/// The eight little-endian bytes of `x`.
pub fn u64_to_le(x: u64) -> (out: [u8; 8])
    ensures
        out@ == le64(x),
{
    let x1: u64 = x / 256;
    let x2: u64 = x1 / 256;
    let x3: u64 = x2 / 256;
    let x4: u64 = x3 / 256;
    let x5: u64 = x4 / 256;
    let x6: u64 = x5 / 256;
    let x7: u64 = x6 / 256;
    let out = [
        (x % 256) as u8,
        (x1 % 256) as u8,
        (x2 % 256) as u8,
        (x3 % 256) as u8,
        (x4 % 256) as u8,
        (x5 % 256) as u8,
        (x6 % 256) as u8,
        (x7 % 256) as u8,
    ];
    proof {
        reveal_with_fuel(le, 9);
        assert(out@ =~= le64(x));
    }
    out
}

/// The four little-endian bytes of `x`.
pub fn u32_to_le(x: u32) -> (out: [u8; 4])
    ensures
        out@ == le32(x),
{
    let x1: u32 = x / 256;
    let x2: u32 = x1 / 256;
    let x3: u32 = x2 / 256;
    let out = [(x % 256) as u8, (x1 % 256) as u8, (x2 % 256) as u8, (x3 % 256) as u8];
    proof {
        reveal_with_fuel(le, 5);
        assert(out@ =~= le32(x));
    }
    out
}

/// Read eight little-endian bytes at `at`.
pub fn get_u64(bytes: &[u8], at: usize) -> (x: u64)
    requires
        at + 8 <= bytes.len(),
    ensures
        x == from_le(bytes@.subrange(at as int, at + 8)),
{
    let hi: u64 = get_u32(bytes, at + 4) as u64;
    let lo: u64 = get_u32(bytes, at) as u64;
    proof {
        reveal_with_fuel(from_le, 9);
        let s = bytes@.subrange(at as int, at + 8);
        let a = bytes@.subrange(at as int, at + 4);
        let b = bytes@.subrange(at + 4, at + 8);
        assert(s.drop_first().drop_first().drop_first().drop_first() =~= b);
        assert(a[0] == s[0]);
        assert(a.drop_first()[0] == s.drop_first()[0]);
        assert(a.drop_first().drop_first()[0] == s.drop_first().drop_first()[0]);
        assert(a.drop_first().drop_first().drop_first()[0]
            == s.drop_first().drop_first().drop_first()[0]);
        assert(a.drop_first().drop_first().drop_first().drop_first().len() == 0);
        assert(from_le(s) == lo + 0x1_0000_0000 * hi);
    }
    lo + 0x1_0000_0000 * hi
}

/// Read four little-endian bytes at `at`.
pub fn get_u32(bytes: &[u8], at: usize) -> (x: u32)
    requires
        at + 4 <= bytes.len(),
    ensures
        x == from_le(bytes@.subrange(at as int, at + 4)),
{
    let b0: u32 = bytes[at] as u32;
    let b1: u32 = bytes[at + 1] as u32;
    let b2: u32 = bytes[at + 2] as u32;
    let b3: u32 = bytes[at + 3] as u32;
    proof {
        reveal_with_fuel(from_le, 5);
        let s = bytes@.subrange(at as int, at + 4);
        assert(s[0] == b0);
        assert(s.drop_first()[0] == b1);
        assert(s.drop_first().drop_first()[0] == b2);
        assert(s.drop_first().drop_first().drop_first()[0] == b3);
        assert(s.drop_first().drop_first().drop_first().drop_first().len() == 0);
    }
    b0 + 256 * (b1 + 256 * (b2 + 256 * b3))
}

/// Copy `src` over the bytes of `out` that start at `at`.
pub fn put<const N: usize>(out: &mut [u8; N], at: usize, src: &[u8])
    requires
        at + src@.len() <= N,
    ensures
        final(out)@ == splice(old(out)@, at as int, src@),
{
    let ghost before = out@;
    let mut i: usize = 0;
    while i < src.len()
        invariant
            at + src@.len() <= N,
            i <= src@.len(),
            before.len() == N,
            out@ == splice(before, at as int, src@.take(i as int)),
        decreases src@.len() - i,
    {
        out[at + i] = src[i];
        i = i + 1;
        assert(out@ =~= splice(before, at as int, src@.take(i as int)));
    }
    assert(src@.take(src@.len() as int) =~= src@);
}

/// Zero the bytes of `out` from `at` up to `end`.
pub fn put_zeros<const N: usize>(out: &mut [u8; N], at: usize, end: usize)
    requires
        at <= end <= N,
    ensures
        final(out)@ == splice(old(out)@, at as int, zeros((end - at) as nat)),
{
    let ghost before = out@;
    let mut i: usize = at;
    while i < end
        invariant
            at <= i <= end <= N,
            before.len() == N,
            out@ == splice(before, at as int, zeros((i - at) as nat)),
        decreases end - i,
    {
        out[i] = 0;
        i = i + 1;
        assert(out@ =~= splice(before, at as int, zeros((i - at) as nat)));
    }
}

/// Do the bytes at `at` spell `pat`?
pub fn matches_at(bytes: &[u8], at: usize, pat: &[u8]) -> (yes: bool)
    requires
        at + pat@.len() <= bytes.len(),
    ensures
        yes == (bytes@.subrange(at as int, at + pat@.len()) == pat@),
{
    let ghost window = bytes@.subrange(at as int, at + pat@.len());
    let mut i: usize = 0;
    while i < pat.len()
        invariant
            at + pat@.len() <= bytes.len(),
            i <= pat@.len(),
            window == bytes@.subrange(at as int, at + pat@.len()),
            forall|k: int| 0 <= k < i ==> window[k] == pat@[k],
        decreases pat@.len() - i,
    {
        if bytes[at + i] != pat[i] {
            assert(window[i as int] != pat@[i as int]);
            return false;
        }
        i = i + 1;
    }
    assert(window =~= pat@);
    true
}

/// Are the bytes from `at` up to `end` all zero?
pub fn zero_range(bytes: &[u8], at: usize, end: usize) -> (yes: bool)
    requires
        at <= end <= bytes.len(),
    ensures
        yes == (bytes@.subrange(at as int, end as int) == zeros((end - at) as nat)),
{
    let ghost window = bytes@.subrange(at as int, end as int);
    let mut i: usize = at;
    while i < end
        invariant
            at <= i <= end <= bytes.len(),
            window == bytes@.subrange(at as int, end as int),
            forall|k: int| 0 <= k < i - at ==> window[k] == 0,
        decreases end - i,
    {
        if bytes[i] != 0 {
            assert(window[i - at] != 0);
            assert(zeros((end - at) as nat)[i - at] == 0);
            return false;
        }
        i = i + 1;
    }
    assert(window =~= zeros((end - at) as nat));
    true
}

/// The `N` bytes at `at`.
pub fn take_array<const N: usize>(bytes: &[u8], at: usize) -> (out: [u8; N])
    requires
        at + N <= bytes.len(),
    ensures
        out@ == bytes@.subrange(at as int, at + N),
{
    let mut out: [u8; N] = [0u8; N];
    let mut i: usize = 0;
    while i < N
        invariant
            at + N <= bytes.len(),
            i <= N,
            forall|k: int| 0 <= k < i ==> out@[k] == bytes@[at + k],
        decreases N - i,
    {
        out[i] = bytes[at + i];
        i = i + 1;
    }
    assert(out@ =~= bytes@.subrange(at as int, at + N));
    out
}

/// The byte at place `i` is the number's digit at that place, to the base of
/// 256: the least significant one comes first.
pub proof fn bytes_are_digits(x: nat, n: nat, i: nat)
    requires
        i < n,
    ensures
        le(x, n).len() == n,
        le(x, n)[i as int] as nat == (x / pow256(i)) % 256,
    decreases n,
{
    le_len(x, n);
    le_len(x / 256, (n - 1) as nat);
    if i > 0 {
        bytes_are_digits(x / 256, (n - 1) as nat, (i - 1) as nat);
        let p = pow256((i - 1) as nat);
        pow256_positive((i - 1) as nat);
        vstd::arithmetic::div_mod::lemma_div_denominator(x as int, 256, p as int);
        assert(le(x, n)[i as int] == le(x / 256, (n - 1) as nat)[i - 1]);
        assert(pow256(i) == 256 * p);
        assert((x as int / 256) / p as int == x as int / (256 * p as int));
    } else {
        assert(pow256(0) == 1);
        vstd::arithmetic::div_mod::lemma_div_basics(x as int);
        assert((x % 256) as u8 as nat == x % 256);
    }
}

proof fn pow256_positive(n: nat)
    ensures
        pow256(n) > 0,
    decreases n,
{
    if n > 0 {
        pow256_positive((n - 1) as nat);
    }
}

} // verus!
