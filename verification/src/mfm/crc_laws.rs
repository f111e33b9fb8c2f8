//! What the CRC of the address marks guarantees.

use super::crc_byte;
use super::crc_of;
use super::crc_shift;
use super::crc_shifts;
use vstd::prelude::*;

verus! {

/// The CRC of a message is that of its tail, started at the CRC of its head.
pub proof fn law_crc_concat(seed: u16, head: Seq<u8>, tail: Seq<u8>)
    ensures
        crc_of(seed, head + tail) == crc_of(crc_of(seed, head), tail),
    decreases tail.len(),
{
    if tail.len() == 0 {
        assert(head + tail =~= head);
    } else {
        law_crc_concat(seed, head, tail.drop_last());
        assert((head + tail).drop_last() =~= head + tail.drop_last());
        assert((head + tail).last() == tail.last());
    }
}

proof fn lemma_shift_injective(a: u16, b: u16)
    requires
        crc_shift(a) == crc_shift(b),
    ensures
        a == b,
{
    let x = crc_shift(a);
    let y = crc_shift(b);
    assert(a == b) by (bit_vector)
        requires
            x == (if a & 0x8000 != 0 {
                (a << 1) ^ 0x1021
            } else {
                a << 1
            }),
            y == (if b & 0x8000 != 0 {
                (b << 1) ^ 0x1021
            } else {
                b << 1
            }),
            x == y,
    ;
}

proof fn lemma_shifts_injective(a: u16, b: u16, n: nat)
    requires
        crc_shifts(a, n) == crc_shifts(b, n),
    ensures
        a == b,
    decreases n,
{
    if n > 0 {
        lemma_shift_injective(crc_shifts(a, (n - 1) as nat), crc_shifts(b, (n - 1) as nat));
        lemma_shifts_injective(a, b, (n - 1) as nat);
    }
}

proof fn lemma_shift_xor(a: u16, b: u16)
    ensures
        crc_shift(a ^ b) == crc_shift(a) ^ crc_shift(b),
{
    assert((if (a ^ b) & 0x8000 != 0 {
        ((a ^ b) << 1) ^ 0x1021
    } else {
        (a ^ b) << 1
    }) == (if a & 0x8000 != 0 {
        (a << 1) ^ 0x1021
    } else {
        a << 1
    }) ^ (if b & 0x8000 != 0 {
        (b << 1) ^ 0x1021
    } else {
        b << 1
    })) by (bit_vector);
}

proof fn lemma_shifts_xor(a: u16, b: u16, n: nat)
    ensures
        crc_shifts(a ^ b, n) == crc_shifts(a, n) ^ crc_shifts(b, n),
    decreases n,
{
    if n > 0 {
        lemma_shifts_xor(a, b, (n - 1) as nat);
        lemma_shift_xor(crc_shifts(a, (n - 1) as nat), crc_shifts(b, (n - 1) as nat));
    }
}

/// A low byte passes eight steps without feedback.
proof fn lemma_low_byte_shifts(b: u8, n: nat)
    requires
        n <= 8,
    ensures
        crc_shifts(b as u16, n) == (b as u16) << (n as u16),
    decreases n,
{
    if n == 0 {
        assert((b as u16) << 0u16 == b as u16) by (bit_vector);
    } else {
        lemma_low_byte_shifts(b, (n - 1) as nat);
        let m = (n - 1) as u16;
        assert(((b as u16) << m) & 0x8000 == 0) by (bit_vector)
            requires
                m <= 7,
        ;
        let m1 = n as u16;
        assert(((b as u16) << m) << 1 == (b as u16) << m1) by (bit_vector)
            requires
                m <= 7,
                m1 == m + 1,
        ;
    }
}

/// Two message bytes enter the register as one word.
proof fn lemma_two_bytes(c: u16, hi: u8, lo: u8)
    ensures
        crc_byte(crc_byte(c, hi), lo) == crc_shifts(
            crc_shifts(c ^ ((hi as u16) << 8) ^ (lo as u16), 8),
            8,
        ),
{
    lemma_low_byte_shifts(lo, 8);
    lemma_shifts_xor(c ^ ((hi as u16) << 8), lo as u16, 8);
}

/// A message that differs from another of its length only in the two adjacent
/// bytes `at` and `at + 1` has another CRC: any burst of up to nine bits, and any
/// damage to a single byte, is detected.
pub proof fn law_crc_detects_burst(seed: u16, a: Seq<u8>, b: Seq<u8>, at: int)
    requires
        a.len() == b.len(),
        a != b,
        0 <= at,
        at + 1 < a.len(),
        forall|i: int| 0 <= i < a.len() && i != at && i != at + 1 ==> a[i] == b[i],
    ensures
        crc_of(seed, a) != crc_of(seed, b),
{
    let head = a.take(at);
    let tail = a.skip(at + 2);
    assert(b.take(at) =~= head);
    assert(b.skip(at + 2) =~= tail);
    assert(a =~= head + seq![a[at], a[at + 1]] + tail);
    assert(b =~= head + seq![b[at], b[at + 1]] + tail);
    let c = crc_of(seed, head);
    lemma_crc_of_pair(c, a[at], a[at + 1]);
    lemma_crc_of_pair(c, b[at], b[at + 1]);
    law_crc_concat(seed, head, seq![a[at], a[at + 1]]);
    law_crc_concat(seed, head, seq![b[at], b[at + 1]]);
    law_crc_concat(seed, head + seq![a[at], a[at + 1]], tail);
    law_crc_concat(seed, head + seq![b[at], b[at + 1]], tail);
    let ca = crc_of(c, seq![a[at], a[at + 1]]);
    let cb = crc_of(c, seq![b[at], b[at + 1]]);
    if ca == cb {
        let wa = c ^ ((a[at] as u16) << 8) ^ (a[at + 1] as u16);
        let wb = c ^ ((b[at] as u16) << 8) ^ (b[at + 1] as u16);
        lemma_shifts_injective(crc_shifts(wa, 8), crc_shifts(wb, 8), 8);
        lemma_shifts_injective(wa, wb, 8);
        let a0 = a[at];
        let a1 = a[at + 1];
        let b0 = b[at];
        let b1 = b[at + 1];
        assert(a0 == b0 && a1 == b1) by (bit_vector)
            requires
                c ^ ((a0 as u16) << 8) ^ (a1 as u16) == c ^ ((b0 as u16) << 8) ^ (b1 as u16),
        ;
        assert(a =~= b);
    }
    if crc_of(ca, tail) == crc_of(cb, tail) {
        lemma_crc_injective_in_seed(ca, cb, tail);
    }
}

/// A message that differs from another of its length in one byte has another
/// CRC.
pub proof fn law_crc_detects_byte(seed: u16, a: Seq<u8>, b: Seq<u8>, at: int)
    requires
        a.len() == b.len(),
        0 <= at < a.len(),
        a[at] != b[at],
        forall|i: int| 0 <= i < a.len() && i != at ==> a[i] == b[i],
    ensures
        crc_of(seed, a) != crc_of(seed, b),
{
    if at + 1 < a.len() {
        law_crc_detects_burst(seed, a, b, at);
    } else {
        assert(a.drop_last() =~= b.drop_last());
        let c = crc_of(seed, a.drop_last());
        let x = a[at];
        let y = b[at];
        if crc_byte(c, x) == crc_byte(c, y) {
            lemma_shifts_injective(c ^ ((x as u16) << 8), c ^ ((y as u16) << 8), 8);
            assert(x == y) by (bit_vector)
                requires
                    c ^ ((x as u16) << 8) == c ^ ((y as u16) << 8),
            ;
        }
    }
}

proof fn lemma_crc_of_pair(c: u16, x: u8, y: u8)
    ensures
        crc_of(c, seq![x, y]) == crc_shifts(crc_shifts(c ^ ((x as u16) << 8) ^ (y as u16), 8), 8),
{
    let s = seq![x, y];
    assert(s.drop_last() =~= seq![x]);
    assert(s.drop_last().drop_last() =~= Seq::<u8>::empty());
    assert(crc_of(c, Seq::<u8>::empty()) == c);
    assert(crc_of(c, seq![x]) == crc_byte(c, x));
    lemma_two_bytes(c, x, y);
}

/// Different registers stay different under one and the same message.
proof fn lemma_crc_injective_in_seed(s: u16, t: u16, data: Seq<u8>)
    requires
        crc_of(s, data) == crc_of(t, data),
    ensures
        s == t,
    decreases data.len(),
{
    if data.len() > 0 {
        let x = crc_of(s, data.drop_last());
        let y = crc_of(t, data.drop_last());
        let b = data.last();
        lemma_shifts_injective(x ^ ((b as u16) << 8), y ^ ((b as u16) << 8), 8);
        assert(x == y) by (bit_vector)
            requires
                x ^ ((b as u16) << 8) == y ^ ((b as u16) << 8),
        ;
        lemma_crc_injective_in_seed(s, t, data.drop_last());
    }
}

/// A message with its own CRC behind it, high byte first, has the CRC zero.
pub proof fn law_crc_residue(seed: u16, data: Seq<u8>, hi: u8, lo: u8)
    requires
        crc_of(seed, data) == hi * 256 + lo,
    ensures
        crc_of(seed, data + seq![hi, lo]) == 0,
{
    let c = crc_of(seed, data);
    law_crc_concat(seed, data, seq![hi, lo]);
    lemma_crc_of_pair(c, hi, lo);
    assert(c ^ ((hi as u16) << 8) ^ (lo as u16) == 0) by (bit_vector)
        requires
            c == hi * 256 + lo,
    ;
    lemma_zero_shifts(8);
}

proof fn lemma_zero_shifts(n: nat)
    ensures
        crc_shifts(0, n) == 0,
    decreases n,
{
    if n > 0 {
        lemma_zero_shifts((n - 1) as nat);
        assert((if 0u16 & 0x8000 != 0 {
            (0u16 << 1) ^ 0x1021
        } else {
            0u16 << 1
        }) == 0) by (bit_vector);
    }
}

} // verus!
