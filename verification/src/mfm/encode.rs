//! The inverse of the decoder: sectors to MFM cells.

use super::crc16;
use super::crc_input;
use super::crc_of;
use super::sync_cells;
use super::DAM;
use super::IDAM;
use vstd::prelude::*;

verus! {

/// What sixteen cells stand for.
pub enum Unit {
    /// A sync mark.
    Sync,
    /// A byte with regular clocks.
    Byte(u8),
}

/// Bit `k` of `b`, counted from the most significant one.
pub open spec fn bit_of(b: u8, k: int) -> bool {
    (b >> ((7 - k) as u8)) & 1 == 1
}

/// The last cell, `false` where there is none.
pub open spec fn last_cell(cells: Seq<bool>) -> bool {
    cells.len() > 0 && cells.last()
}

/// The data bit before bit `k` of `b`, where `prev` stands before `b`.
pub open spec fn bit_before(b: u8, prev: bool, k: int) -> bool {
    if k == 0 {
        prev
    } else {
        bit_of(b, k - 1)
    }
}

/// The cells of the byte `b` behind the data bit `prev`: each data bit has a
/// clock cell before it, set exactly between two zero bits.
pub open spec fn byte_cells(b: u8, prev: bool) -> Seq<bool> {
    Seq::new(
        16,
        |j: int|
            if j % 2 == 1 {
                bit_of(b, j / 2)
            } else {
                !bit_before(b, prev, j / 2) && !bit_of(b, j / 2)
            },
    )
}

/// `cells` with one more unit behind them.
pub open spec fn add_unit(cells: Seq<bool>, u: Unit) -> Seq<bool> {
    match u {
        Unit::Sync => cells + sync_cells(),
        Unit::Byte(b) => cells + byte_cells(b, last_cell(cells)),
    }
}

/// `cells` with all of `units` behind them.
pub open spec fn add_units(cells: Seq<bool>, units: Seq<Unit>) -> Seq<bool>
    decreases units.len(),
{
    if units.len() == 0 {
        cells
    } else {
        add_unit(add_units(cells, units.drop_last()), units.last())
    }
}

/// One byte unit for each byte.
pub open spec fn byte_units(bytes: Seq<u8>) -> Seq<Unit> {
    Seq::new(bytes.len(), |i: int| Unit::Byte(bytes[i]))
}

/// `n` equal byte units.
pub open spec fn fill_units(n: nat, b: u8) -> Seq<Unit> {
    Seq::new(n, |i: int| Unit::Byte(b))
}

/// An address mark: three sync marks, the mark, its body and the CRC.
pub open spec fn mark_units(mark: u8, body: Seq<u8>) -> Seq<Unit> {
    let crc = crc_of(0xFFFF, crc_input(3, mark, body));
    seq![Unit::Sync, Unit::Sync, Unit::Sync, Unit::Byte(mark)] + byte_units(body) + seq![
        Unit::Byte((crc / 256) as u8),
        Unit::Byte((crc % 256) as u8),
    ]
}

/// A sector as it is written to a track.
pub struct SectorImage {
    pub cyl: u8,
    pub head: u8,
    pub sector: u8,
    pub size_code: u8,
    pub data: Seq<u8>,
}

/// The units of one sector: gap, ID mark, gap, data mark, gap.
pub open spec fn sector_units(s: SectorImage) -> Seq<Unit> {
    fill_units(12, 0x4E) + fill_units(12, 0x00) + mark_units(
        IDAM,
        seq![s.cyl, s.head, s.sector, s.size_code],
    ) + fill_units(22, 0x4E) + fill_units(12, 0x00) + mark_units(DAM, s.data) + fill_units(
        24,
        0x4E,
    )
}

/// The cells of one sector.
pub open spec fn sector_cells(s: SectorImage) -> Seq<bool> {
    add_units(Seq::empty(), sector_units(s))
}

/// The cells of sectors that follow one another.
pub open spec fn track_cells(track: Seq<SectorImage>) -> Seq<bool>
    decreases track.len(),
{
    if track.len() == 0 {
        Seq::empty()
    } else {
        track_cells(track.drop_last()) + sector_cells(track.last())
    }
}

/// Units are added one after the other.
pub(crate) proof fn lemma_add_units_concat(cells: Seq<bool>, a: Seq<Unit>, b: Seq<Unit>)
    ensures
        add_units(cells, a + b) == add_units(add_units(cells, a), b),
    decreases b.len(),
{
    if b.len() == 0 {
        assert(a + b =~= a);
    } else {
        lemma_add_units_concat(cells, a, b.drop_last());
        assert((a + b).drop_last() =~= a + b.drop_last());
        assert((a + b).last() == b.last());
    }
}

/// Appends the cells of a sync mark.
fn push_sync(cells: &mut Vec<bool>)
    ensures
        final(cells)@ == add_unit(old(cells)@, Unit::Sync),
{
    let ghost before = cells@;
    let mark: [bool; 16] = [
        false, true, false, false,
        false, true, false, false,
        true, false, false, false,
        true, false, false, true,
    ];
    let mut i: usize = 0;
    assert(before + sync_cells().take(0) =~= before);
    assert(mark@ =~= sync_cells());
    while i < 16
        invariant
            i <= 16,
            mark@ == sync_cells(),
            cells@ == before + sync_cells().take(i as int),
        decreases 16 - i,
    {
        cells.push(mark[i]);
        proof {
            assert(before + sync_cells().take(i + 1) =~= (before + sync_cells().take(
                i as int,
            )).push(sync_cells()[i as int]));
        }
        i += 1;
    }
    assert(sync_cells().take(16) =~= sync_cells());
}

/// Appends the cells of a byte.
fn push_byte(cells: &mut Vec<bool>, b: u8)
    ensures
        final(cells)@ == add_unit(old(cells)@, Unit::Byte(b)),
{
    let ghost before = cells@;
    let n: usize = cells.len();
    let mut prev: bool = if n > 0 { cells[n - 1] } else { false };
    let ghost whole = byte_cells(b, prev);
    let ghost first = prev;
    let mut k: usize = 0;
    assert(before + whole.take(0) =~= before);
    while k < 8
        invariant
            k <= 8,
            first == last_cell(before),
            whole == byte_cells(b, first),
            prev == bit_before(b, first, k as int),
            cells@ == before + whole.take(2 * k as int),
        decreases 8 - k,
    {
        let d: bool = (b >> ((7 - k) as u8)) & 1 == 1;
        let clock: bool = !prev && !d;
        cells.push(clock);
        cells.push(d);
        proof {
            assert(whole[2 * k as int] == clock);
            assert(whole[2 * k + 1] == d);
            assert(before + whole.take(2 * k + 2) =~= (before + whole.take(2 * k as int)).push(
                clock,
            ).push(d));
        }
        prev = d;
        k += 1;
    }
    assert(whole.take(16) =~= whole);
}

/// Appends the cells of each byte in turn.
fn push_bytes(cells: &mut Vec<bool>, bytes: &[u8])
    ensures
        final(cells)@ == add_units(old(cells)@, byte_units(bytes@)),
{
    let ghost before = cells@;
    let ghost units = byte_units(bytes@);
    let mut i: usize = 0;
    while i < bytes.len()
        invariant
            i <= bytes.len(),
            units == byte_units(bytes@),
            cells@ == add_units(before, units.take(i as int)),
        decreases bytes.len() - i,
    {
        proof {
            assert(units.take(i + 1).drop_last() =~= units.take(i as int));
        }
        push_byte(cells, bytes[i]);
        i += 1;
    }
    assert(units.take(i as int) =~= units);
}

/// Appends `n` times the cells of one byte.
fn push_fill(cells: &mut Vec<bool>, n: usize, b: u8)
    ensures
        final(cells)@ == add_units(old(cells)@, fill_units(n as nat, b)),
{
    let ghost before = cells@;
    let mut i: usize = 0;
    while i < n
        invariant
            i <= n,
            cells@ == add_units(before, fill_units(i as nat, b)),
        decreases n - i,
    {
        proof {
            assert(fill_units((i + 1) as nat, b).drop_last() =~= fill_units(i as nat, b));
        }
        push_byte(cells, b);
        i += 1;
    }
}

/// Appends an address mark.
fn push_am(cells: &mut Vec<bool>, mark: u8, payload: &[u8])
    ensures
        final(cells)@ == add_units(old(cells)@, mark_units(mark, payload@)),
{
    let ghost before = cells@;
    let mut crc_in: Vec<u8> = Vec::new();
    crc_in.push(0xA1);
    crc_in.push(0xA1);
    crc_in.push(0xA1);
    crc_in.push(mark);
    let ghost head = crc_in@;
    let mut i: usize = 0;
    assert(head + payload@.take(0) =~= head);
    while i < payload.len()
        invariant
            i <= payload.len(),
            crc_in@ == head + payload@.take(i as int),
        decreases payload.len() - i,
    {
        crc_in.push(payload[i]);
        proof {
            assert(head + payload@.take(i + 1) =~= (head + payload@.take(i as int)).push(
                payload@[i as int],
            ));
        }
        i += 1;
    }
    assert(crc_in@ =~= crc_input(3, mark, payload@));
    let crc: u16 = crc16(0xFFFF, crc_in.as_slice());
    let hi: u8 = (crc / 256) as u8;
    let lo: u8 = (crc % 256) as u8;
    push_sync(cells);
    push_sync(cells);
    push_sync(cells);
    push_byte(cells, mark);
    proof {
        let u = seq![Unit::Sync, Unit::Sync, Unit::Sync, Unit::Byte(mark)];
        assert(u.drop_last() =~= seq![Unit::Sync, Unit::Sync, Unit::Sync]);
        assert(u.drop_last().drop_last() =~= seq![Unit::Sync, Unit::Sync]);
        assert(u.drop_last().drop_last().drop_last() =~= seq![Unit::Sync]);
        assert(u.drop_last().drop_last().drop_last().drop_last() =~= Seq::<Unit>::empty());
        reveal_with_fuel(add_units, 5);
        assert(cells@ == add_units(before, u));
        lemma_add_units_concat(before, u, byte_units(payload@));
    }
    push_bytes(cells, payload);
    push_byte(cells, hi);
    push_byte(cells, lo);
    proof {
        let u = seq![Unit::Sync, Unit::Sync, Unit::Sync, Unit::Byte(mark)] + byte_units(payload@);
        let t = seq![Unit::Byte(hi), Unit::Byte(lo)];
        assert(t.drop_last() =~= seq![Unit::Byte(hi)]);
        assert(t.drop_last().drop_last() =~= Seq::<Unit>::empty());
        reveal_with_fuel(add_units, 3);
        lemma_add_units_concat(before, u, t);
    }
}

/// The cells of one sector: ID mark, gap and data mark with gaps around them.
pub fn sector(cyl: u8, head: u8, sec: u8, n: u8, data: &[u8]) -> (cells: Vec<bool>)
    ensures
        cells@ == sector_cells(
            SectorImage { cyl, head, sector: sec, size_code: n, data: data@ },
        ),
{
    let mut cells: Vec<bool> = Vec::new();
    let id: [u8; 4] = [cyl, head, sec, n];
    let ghost none = cells@;
    let ghost u1 = fill_units(12, 0x4E);
    let ghost u2 = u1 + fill_units(12, 0x00);
    let ghost u3 = u2 + mark_units(IDAM, seq![cyl, head, sec, n]);
    let ghost u4 = u3 + fill_units(22, 0x4E);
    let ghost u5 = u4 + fill_units(12, 0x00);
    let ghost u6 = u5 + mark_units(DAM, data@);
    proof {
        assert(id@ =~= seq![cyl, head, sec, n]);
        assert(none =~= Seq::<bool>::empty());
        lemma_add_units_concat(none, u1, fill_units(12, 0x00));
        lemma_add_units_concat(none, u2, mark_units(IDAM, id@));
        lemma_add_units_concat(none, u3, fill_units(22, 0x4E));
        lemma_add_units_concat(none, u4, fill_units(12, 0x00));
        lemma_add_units_concat(none, u5, mark_units(DAM, data@));
        lemma_add_units_concat(none, u6, fill_units(24, 0x4E));
    }
    push_fill(&mut cells, 12, 0x4E);
    push_fill(&mut cells, 12, 0x00);
    push_am(&mut cells, IDAM, id.as_slice());
    push_fill(&mut cells, 22, 0x4E);
    push_fill(&mut cells, 12, 0x00);
    push_am(&mut cells, DAM, data);
    push_fill(&mut cells, 24, 0x4E);
    cells
}

} // verus!
