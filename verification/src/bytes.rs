//! Byte ranges, and numbers in them.

use vstd::prelude::*;

verus! {

/// Adds the bytes `from..to` of `s` to `out`.
pub fn append_range(out: &mut Vec<u8>, s: &[u8], from: usize, to: usize)
    requires
        from <= to <= s.len(),
    ensures
        final(out)@ == old(out)@ + s@.subrange(from as int, to as int),
{
    let mut i: usize = from;
    assert(out@ =~= old(out)@ + s@.subrange(from as int, from as int));
    while i < to
        invariant
            from <= i <= to <= s.len(),
            out@ == old(out)@ + s@.subrange(from as int, i as int),
        decreases to - i,
    {
        out.push(s[i]);
        i = i + 1;
        assert(out@ =~= old(out)@ + s@.subrange(from as int, i as int));
    }
}

/// A copy of the bytes `from..to` of `s`.
pub fn copy_range(s: &[u8], from: usize, to: usize) -> (out: Vec<u8>)
    requires
        from <= to <= s.len(),
    ensures
        out@ == s@.subrange(from as int, to as int),
{
    let mut out: Vec<u8> = Vec::new();
    append_range(&mut out, s, from, to);
    assert(out@ =~= s@.subrange(from as int, to as int));
    out
}

/// A copy of all bytes of `s`.
pub fn copy(s: &[u8]) -> (out: Vec<u8>)
    ensures
        out@ == s@,
{
    let out: Vec<u8> = copy_range(s, 0, s.len());
    assert(s@.subrange(0, s.len() as int) =~= s@);
    out
}

/// `n` zero bytes.
pub fn zeros(n: usize) -> (out: Vec<u8>)
    ensures
        out@ == Seq::new(n as nat, |i: int| 0u8),
{
    let mut out: Vec<u8> = Vec::new();
    let mut i: usize = 0;
    while i < n
        invariant
            i <= n,
            out@ == Seq::new(i as nat, |i: int| 0u8),
        decreases n - i,
    {
        out.push(0);
        i = i + 1;
        assert(out@ =~= Seq::new(i as nat, |i: int| 0u8));
    }
    out
}

/// The two bytes from `o` on as a number, the lowest first.
pub open spec fn u16_at(b: Seq<u8>, o: int) -> int {
    b[o] + 0x100 * b[o + 1]
}

/// The four bytes from `o` on as a number, the lowest first.
pub open spec fn u32_at(b: Seq<u8>, o: int) -> int {
    u16_at(b, o) + 0x1_0000 * u16_at(b, o + 2)
}

pub fn u16_le(b: &[u8], o: usize) -> (v: u16)
    requires
        o + 1 < b.len(),
    ensures
        v == u16_at(b@, o as int),
{
    b[o] as u16 + 0x100 * b[o + 1] as u16
}

pub fn u32_le(b: &[u8], o: usize) -> (v: u32)
    requires
        o + 3 < b.len(),
    ensures
        v == u32_at(b@, o as int),
{
    u16_le(b, o) as u32 + 0x1_0000 * u16_le(b, o + 2) as u32
}

/// A number is read from its bytes, the lowest first, wherever they stand.
pub proof fn law_numbers_are_read(before: Seq<u8>, v: u32, behind: Seq<u8>)
    ensures
        ({
            let b = before + seq![
                (v % 0x100) as u8,
                (v / 0x100 % 0x100) as u8,
                (v / 0x1_0000 % 0x100) as u8,
                (v / 0x100_0000) as u8,
            ] + behind;
            &&& u32_at(b, before.len() as int) == v
            &&& u16_at(b, before.len() as int) == v % 0x1_0000
            &&& u16_at(b, before.len() as int + 2) == v / 0x1_0000
        }),
{
    let b = before + seq![
        (v % 0x100) as u8,
        (v / 0x100 % 0x100) as u8,
        (v / 0x1_0000 % 0x100) as u8,
        (v / 0x100_0000) as u8,
    ] + behind;
    let o = before.len() as int;
    assert(b[o] == v % 0x100 && b[o + 1] == v / 0x100 % 0x100);
    assert(b[o + 2] == v / 0x1_0000 % 0x100 && b[o + 3] == v / 0x100_0000);
}

} // verus!
