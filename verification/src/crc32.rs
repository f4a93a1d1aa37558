//! CRC-32 (IEEE 802.3, reflected).
//!
//! Checksums are the detection half of the durability story: torn writes are
//! *detected* end-to-end even where they cannot be prevented. What "detected"
//! means is proved here: two messages that differ in exactly one byte never
//! share a checksum ([`one_byte_change_changes_crc`]).

use crate::bytes::{bytes_are_digits, le32, pow256_values};
use vstd::prelude::*;

verus! {

/// The IEEE polynomial, bit-reversed.
pub const POLY: u32 = 0xEDB8_8320;

/// One step of the reflected shift register.
pub open spec fn shift(c: u32) -> u32 {
    if c & 1 != 0 {
        (c >> 1) ^ 0xEDB8_8320
    } else {
        c >> 1
    }
}

/// Eight steps: the register after absorbing one byte.
pub open spec fn absorb(c: u32, b: u8) -> u32 {
    shift(shift(shift(shift(shift(shift(shift(shift(c ^ (b as u32)))))))))
}

/// The register after absorbing a whole message, starting from all ones.
pub open spec fn register(data: Seq<u8>) -> u32
    decreases data.len(),
{
    if data.len() == 0 {
        0xFFFF_FFFF
    } else {
        absorb(register(data.drop_last()), data.last())
    }
}

/// The CRC-32 of a message.
pub open spec fn crc(data: Seq<u8>) -> u32 {
    !register(data)
}

/// Compute the CRC-32 of `data`.
pub fn crc32(data: &[u8]) -> (sum: u32)
    ensures
        sum == crc(data@),
{
    let mut c: u32 = 0xFFFF_FFFF;
    let mut i: usize = 0;
    assert(data@.take(0) =~= Seq::<u8>::empty());
    while i < data.len()
        invariant
            i <= data.len(),
            c == register(data@.take(i as int)),
        decreases data.len() - i,
    {
        let ghost before = c;
        c = c ^ (data[i] as u32);
        let mut bit: u32 = 0;
        let ghost start = c;
        while bit < 8
            invariant
                bit <= 8,
                bit == 0 ==> c == start,
                bit == 1 ==> c == shift(start),
                bit == 2 ==> c == shift(shift(start)),
                bit == 3 ==> c == shift(shift(shift(start))),
                bit == 4 ==> c == shift(shift(shift(shift(start)))),
                bit == 5 ==> c == shift(shift(shift(shift(shift(start))))),
                bit == 6 ==> c == shift(shift(shift(shift(shift(shift(start)))))),
                bit == 7 ==> c == shift(shift(shift(shift(shift(shift(shift(start))))))),
                bit == 8 ==> c == shift(shift(shift(shift(shift(shift(shift(shift(start)))))))),
            decreases 8 - bit,
        {
            c = if c & 1 != 0 {
                (c >> 1) ^ POLY
            } else {
                c >> 1
            };
            bit = bit + 1;
        }
        assert(c == absorb(before, data@[i as int]));
        assert(data@.take(i + 1).drop_last() =~= data@.take(i as int));
        i = i + 1;
    }
    assert(data@.take(data@.len() as int) =~= data@);
    !c
}

proof fn shift_injective(a: u32, b: u32)
    ensures
        shift(a) == shift(b) ==> a == b,
{
    assert((if a & 1 != 0 {
        (a >> 1) ^ 0xEDB8_8320u32
    } else {
        a >> 1
    }) == (if b & 1 != 0 {
        (b >> 1) ^ 0xEDB8_8320u32
    } else {
        b >> 1
    }) ==> a == b) by (bit_vector);
}

/// Absorbing a byte loses nothing: the register and the byte can each be told
/// apart afterwards, the other being equal.
proof fn absorb_injective(c1: u32, c2: u32, b1: u8, b2: u8)
    ensures
        absorb(c1, b1) == absorb(c2, b2) ==> c1 ^ (b1 as u32) == c2 ^ (b2 as u32),
        absorb(c1, b1) == absorb(c2, b1) ==> c1 == c2,
        absorb(c1, b1) == absorb(c1, b2) ==> b1 == b2,
{
    let x = c1 ^ (b1 as u32);
    shift8_injective(x, c2 ^ (b2 as u32));
    shift8_injective(x, c2 ^ (b1 as u32));
    shift8_injective(x, c1 ^ (b2 as u32));
    assert(c1 ^ (b1 as u32) == c2 ^ (b1 as u32) ==> c1 == c2) by (bit_vector);
    assert(c1 ^ (b1 as u32) == c1 ^ (b2 as u32) ==> b1 == b2) by (bit_vector);
}

proof fn shift8_injective(a: u32, b: u32)
    ensures
        shift(shift(shift(shift(shift(shift(shift(shift(a)))))))) == shift(
            shift(shift(shift(shift(shift(shift(shift(b))))))),
        ) ==> a == b,
{
    shift_injective(a, b);
    shift_injective(shift(a), shift(b));
    shift_injective(shift(shift(a)), shift(shift(b)));
    shift_injective(shift(shift(shift(a))), shift(shift(shift(b))));
    shift_injective(shift(shift(shift(shift(a)))), shift(shift(shift(shift(b)))));
    shift_injective(shift(shift(shift(shift(shift(a))))), shift(shift(shift(shift(shift(b))))));
    shift_injective(
        shift(shift(shift(shift(shift(shift(a)))))),
        shift(shift(shift(shift(shift(shift(b)))))),
    );
    shift_injective(
        shift(shift(shift(shift(shift(shift(shift(a))))))),
        shift(shift(shift(shift(shift(shift(shift(b))))))),
    );
}

/// Two messages of one length that differ in exactly one byte have different
/// checksums: no single-bit flip, and no damage confined to one byte, goes
/// undetected.
pub proof fn one_byte_change_changes_crc(a: Seq<u8>, b: Seq<u8>, at: int)
    requires
        a.len() == b.len(),
        0 <= at < a.len(),
        a[at] != b[at],
        forall|i: int| 0 <= i < a.len() && i != at ==> a[i] == b[i],
    ensures
        crc(a) != crc(b),
{
    registers_differ(a, b, at);
    let x = register(a);
    let y = register(b);
    assert(!x == !y ==> x == y) by (bit_vector);
}

proof fn registers_differ(a: Seq<u8>, b: Seq<u8>, at: int)
    requires
        a.len() == b.len(),
        0 <= at < a.len(),
        a[at] != b[at],
        forall|i: int| 0 <= i < a.len() && i != at ==> a[i] == b[i],
    ensures
        register(a) != register(b),
    decreases a.len(),
{
    let pa = a.drop_last();
    let pb = b.drop_last();
    absorb_injective(register(pa), register(pb), a.last(), b.last());
    absorb_injective(register(pa), register(pa), a.last(), b.last());
    if at == a.len() - 1 {
        assert(pa =~= pb);
    } else {
        registers_differ(pa, pb, at);
    }
}

/// What stands above the lowest bit only moves down.
proof fn shift_of_a_sum(c: u32, v: u32)
    requires
        v <= 0x7FFF_FFFF,
    ensures
        shift(c ^ (v << 1)) == shift(c) ^ v,
{
    assert((if (c ^ (v << 1)) & 1 != 0 {
        ((c ^ (v << 1)) >> 1) ^ 0xEDB8_8320u32
    } else {
        (c ^ (v << 1)) >> 1
    }) == (if c & 1 != 0 {
        (c >> 1) ^ 0xEDB8_8320u32
    } else {
        c >> 1
    }) ^ v) by (bit_vector)
        requires
            v <= 0x7FFF_FFFF,
    ;
}

/// Absorbing the lowest byte of a word that the register is to cancel leaves
/// the rest of the word to cancel.
proof fn absorb_of_a_sum(c: u32, w: u32, b: u8)
    requires
        b as u32 == w & 0xFF,
    ensures
        absorb(c ^ w, b) == absorb(c, 0) ^ (w >> 8),
{
    let v = w >> 8;
    assert((c ^ w) ^ (w & 0xFF) == c ^ ((w >> 8) << 8)) by (bit_vector);
    assert(c ^ 0 == c) by (bit_vector);
    assert(v <= 0xFF_FFFF && v << 8 == (v << 7) << 1 && v << 7 == (v << 6) << 1 && v << 6 == (v
        << 5) << 1 && v << 5 == (v << 4) << 1 && v << 4 == (v << 3) << 1 && v << 3 == (v << 2) << 1
        && v << 2 == (v << 1) << 1 && v << 7 <= 0x7FFF_FFFF && v << 6 <= 0x7FFF_FFFF && v << 5
        <= 0x7FFF_FFFF && v << 4 <= 0x7FFF_FFFF && v << 3 <= 0x7FFF_FFFF && v << 2 <= 0x7FFF_FFFF
        && v << 1 <= 0x7FFF_FFFF) by (bit_vector)
        requires
            v == w >> 8,
    ;
    let c1 = shift(c);
    let c2 = shift(c1);
    let c3 = shift(c2);
    let c4 = shift(c3);
    let c5 = shift(c4);
    let c6 = shift(c5);
    let c7 = shift(c6);
    shift_of_a_sum(c, v << 7);
    shift_of_a_sum(c1, v << 6);
    shift_of_a_sum(c2, v << 5);
    shift_of_a_sum(c3, v << 4);
    shift_of_a_sum(c4, v << 3);
    shift_of_a_sum(c5, v << 2);
    shift_of_a_sum(c6, v << 1);
    shift_of_a_sum(c7, v);
}

/// Shifting a register of all ones past four zero bytes.
proof fn ones_shifted()
    ensures
        absorb(0xFFFF_FFFF, 0) == 0x2DFD_1072,
        absorb(0x2DFD_1072, 0) == 0xBE26_ED00,
        absorb(0xBE26_ED00, 0) == 0x00BE_26ED,
        absorb(0x00BE_26ED, 0) == 0xDEBB_20E3,
{
    assert(absorb(0xFFFF_FFFF, 0) == 0x2DFD_1072) by (bit_vector);
    assert(absorb(0x2DFD_1072, 0) == 0xBE26_ED00) by (bit_vector);
    assert(absorb(0xBE26_ED00, 0) == 0x00BE_26ED) by (bit_vector);
    assert(absorb(0x00BE_26ED, 0) == 0xDEBB_20E3) by (bit_vector);
}

/// The bytes of a word, as the register sees them.
proof fn word_bytes(w: u32)
    ensures
        le32(w).len() == 4,
        le32(w)[0] as u32 == w & 0xFF,
        le32(w)[1] as u32 == (w >> 8) & 0xFF,
        le32(w)[2] as u32 == ((w >> 8) >> 8) & 0xFF,
        le32(w)[3] as u32 == (((w >> 8) >> 8) >> 8) & 0xFF,
        (((w >> 8) >> 8) >> 8) >> 8 == 0,
{
    pow256_values();
    bytes_are_digits(w as nat, 4, 0);
    bytes_are_digits(w as nat, 4, 1);
    bytes_are_digits(w as nat, 4, 2);
    bytes_are_digits(w as nat, 4, 3);
    assert(w & 0xFF == w % 256 && (w >> 8) & 0xFF == (w / 256) % 256 && ((w >> 8) >> 8) & 0xFF == (w
        / 65536) % 256 && (((w >> 8) >> 8) >> 8) & 0xFF == (w / 16777216) % 256 && (((w >> 8) >> 8)
        >> 8) >> 8 == 0) by (bit_vector);
}

/// A message followed by its own checksum, lowest byte first, has one and the
/// same checksum whatever the message is: the residue of this CRC. A message
/// of no bytes has the checksum 0.
pub proof fn a_message_with_its_checksum_leaves_the_residue(data: Seq<u8>)
    ensures
        crc(data + le32(crc(data))) == 0x2144_DF1C,
        crc(Seq::<u8>::empty()) == 0,
{
    let w = crc(data);
    let s = register(data);
    let tail = le32(w);
    word_bytes(w);
    ones_shifted();
    let w1 = w >> 8;
    let w2 = w1 >> 8;
    let w3 = w2 >> 8;
    assert(s == 0xFFFF_FFFFu32 ^ !s) by (bit_vector);
    absorb_of_a_sum(0xFFFF_FFFF, w, tail[0]);
    absorb_of_a_sum(0x2DFD_1072, w1, tail[1]);
    absorb_of_a_sum(0xBE26_ED00, w2, tail[2]);
    absorb_of_a_sum(0x00BE_26ED, w3, tail[3]);
    let m1 = data + tail.take(1);
    let m2 = data + tail.take(2);
    let m3 = data + tail.take(3);
    assert(m1.drop_last() =~= data);
    assert(m2.drop_last() =~= m1);
    assert(m3.drop_last() =~= m2);
    assert((data + tail).drop_last() =~= m3);
    assert(register(m1) == 0x2DFD_1072 ^ w1);
    assert(register(m2) == 0xBE26_ED00 ^ w2);
    assert(register(m3) == 0x00BE_26ED ^ w3);
    assert(register(data + tail) == 0xDEBB_20E3 ^ (w3 >> 8));
    assert(0xDEBB_20E3u32 ^ 0 == 0xDEBB_20E3 && !0xDEBB_20E3u32 == 0x2144_DF1C && !0xFFFF_FFFFu32
        == 0) by (bit_vector);
}

} // verus!
