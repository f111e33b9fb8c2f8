//! Where the reversals of a written track stand.

use super::cell_before;
use super::lemma_missing_clock;
use super::lemma_track_units;
use super::lemma_well_encoded;
use super::track_units;
use super::unit_ok;
use super::well_encoded;
use crate::mfm::encode::bit_of;
use crate::mfm::encode::sector_units;
use crate::mfm::encode::track_cells;
use crate::mfm::encode::SectorImage;
use crate::mfm::encode::Unit;
use crate::mfm::sync_cells;
use vstd::prelude::*;

verus! {

/// No two neighbouring cells of a track hold a reversal, and of four
/// neighbouring ones at least one does.
pub(crate) proof fn lemma_track_spacing(track: Seq<SectorImage>)
    ensures
        ({
            let cells = track_cells(track);
            &&& forall|i: int|
                0 <= i && i + 1 < cells.len() && #[trigger] cells[i] ==> !cells[i + 1]
            &&& forall|i: int|
                0 <= i && i + 3 < cells.len() && !(#[trigger] cells[i]) ==> cells[i + 1] || cells[i
                    + 2] || cells[i + 3]
        }),
{
    let units = track_units(track);
    let cells = track_cells(track);
    lemma_track_units(track);
    lemma_well_encoded(units);
    assert forall|i: int| 0 <= i && i + 1 < cells.len() && #[trigger] cells[i] implies !cells[i
        + 1] by {
        let u = (i + 1) / 16;
        let k = (i + 1) % 16;
        assert(unit_ok(cells, units, u));
        match units[u] {
            Unit::Sync => {
                assert(cells[16 * u + k] == sync_cells()[k]);
                if k > 0 {
                    assert(cells[16 * u + (k - 1)] == sync_cells()[k - 1]);
                }
            },
            Unit::Byte(b) => {
                let h = k / 2;
                assert(cells[16 * u + 2 * h + 1] == bit_of(b, h));
            },
        }
    }
    assert forall|i: int| 0 <= i && i + 3 < cells.len() && !(#[trigger] cells[i]) implies cells[i
        + 1] || cells[i + 2] || cells[i + 3] by {
        if !cells[i + 1] && !cells[i + 2] && !cells[i + 3] {
            if i % 2 == 1 {
                lemma_missing_clock(cells, units, i + 1);
                let u = (i + 1) / 16;
                assert(unit_ok(cells, units, u));
                assert(cells[16 * u + 12] == sync_cells()[12]);
            } else {
                lemma_missing_clock(cells, units, i + 2);
                let u = (i + 2) / 16;
                assert(unit_ok(cells, units, u));
                assert(cells[16 * u + 8] == sync_cells()[8]);
            }
        }
    }
}

/// The cells of the gap byte and of the zero byte.
proof fn lemma_fill_bits()
    ensures
        !bit_of(0x4E, 0) && bit_of(0x4E, 4) && bit_of(0x4E, 5) && bit_of(0x4E, 6) && !bit_of(
            0x4E,
            7,
        ),
        forall|k: int| 0 <= k < 8 ==> !#[trigger] bit_of(0, k),
{
    assert((0x4Eu8 >> 7u8) & 1 == 0 && (0x4Eu8 >> 3u8) & 1 == 1 && (0x4Eu8 >> 2u8) & 1 == 1 && (
    0x4Eu8 >> 1u8) & 1 == 1 && (0x4Eu8 >> 0u8) & 1 == 0) by (bit_vector);
    assert(forall|h: u8| h < 8 ==> (#[trigger] (0u8 >> h)) & 1 == 0) by (bit_vector);
}

/// Where the fill bytes of a sector stand.
proof fn lemma_block_fill(s: SectorImage)
    ensures
        ({
            let v = sector_units(s);
            let n = s.data.len() as int;
            &&& v.len() == 98 + n
            &&& forall|i: int| 0 <= i < 12 ==> #[trigger] v[i] == Unit::Byte(0x4E)
            &&& forall|i: int| 12 <= i < 24 ==> #[trigger] v[i] == Unit::Byte(0)
            &&& forall|i: int| 34 <= i < 56 ==> #[trigger] v[i] == Unit::Byte(0x4E)
            &&& forall|i: int| 56 <= i < 68 ==> #[trigger] v[i] == Unit::Byte(0)
            &&& forall|i: int| 74 + n <= i < 98 + n ==> #[trigger] v[i] == Unit::Byte(0x4E)
        }),
{
}

/// The first and the last reversal of a track.
pub(crate) proof fn lemma_track_edges(track: Seq<SectorImage>)
    requires
        track.len() > 0,
    ensures
        ({
            let cells = track_cells(track);
            let n = cells.len() as int;
            &&& n >= 16 * 98
            &&& cells[0]
            &&& cells[n - 3] && !cells[n - 2] && !cells[n - 1]
        }),
    decreases track.len(),
{
    let units = track_units(track);
    let cells = track_cells(track);
    let head = track.drop_last();
    let before = track_units(head);
    let s = track.last();
    let v = sector_units(s);
    lemma_fill_bits();
    lemma_block_fill(s);
    lemma_track_units(track);
    lemma_well_encoded(units);
    let z = units.len() - 1;
    assert(units[z] == v[v.len() - 1]);
    assert(unit_ok(cells, units, z));
    assert(cells[16 * z + 2 * 6 + 1] == bit_of(0x4E, 6));
    assert(cells[16 * z + 2 * 7 + 1] == bit_of(0x4E, 7));
    if head.len() > 0 {
        lemma_track_edges(head);
        assert(cells[0] == track_cells(head)[0]);
    } else {
        assert(units[0] == v[0]);
        assert(unit_ok(cells, units, 0));
        assert(cells[1] == bit_of(0x4E, 0));
        assert(cells[0] == (!cell_before(cells, 0) && !bit_of(0x4E, 0)));
    }
}

/// Three reversals two cells apart stand in a gap byte.
pub(crate) open spec fn gap_byte_at(cells: Seq<bool>, p: int) -> bool {
    cells[p + 9] && !cells[p + 10] && cells[p + 11] && !cells[p + 12] && cells[p + 13]
}

/// Twelve zero bytes: a reversal in every second cell.
pub(crate) open spec fn zeros_at(cells: Seq<bool>, p: int) -> bool {
    &&& forall|k: int| 0 <= k < 96 ==> #[trigger] cells[p + 2 * k]
    &&& forall|k: int| 0 <= k < 96 ==> !#[trigger] cells[p + 2 * k + 1]
}

/// The fill bytes of a sector of `n` bytes that starts at cell `p`.
pub(crate) open spec fn fill_at(cells: Seq<bool>, p: int, n: int) -> bool {
    &&& forall|u: int| 0 <= u < 12 ==> #[trigger] gap_byte_at(cells, p + 16 * u)
    &&& zeros_at(cells, p + 192)
    &&& forall|u: int| 34 <= u < 56 ==> #[trigger] gap_byte_at(cells, p + 16 * u)
    &&& zeros_at(cells, p + 896)
    &&& forall|u: int| 74 + n <= u < 98 + n ==> #[trigger] gap_byte_at(cells, p + 16 * u)
}

/// The two cells of bit `k` of a byte.
proof fn lemma_byte_bit(cells: Seq<bool>, units: Seq<Unit>, u: int, b: u8, k: int)
    requires
        well_encoded(cells, units),
        0 <= u < units.len(),
        units[u] == Unit::Byte(b),
        0 <= k < 8,
    ensures
        cells[16 * u + 2 * k + 1] == bit_of(b, k),
        cells[16 * u + 2 * k] == (!cell_before(cells, 16 * u + 2 * k) && !bit_of(b, k)),
{
    assert(unit_ok(cells, units, u));
    match units[u] {
        Unit::Byte(c) => {
            assert(cells[16 * u + 2 * k + 1] == bit_of(c, k));
        },
        Unit::Sync => {},
    }
}

proof fn lemma_gap_byte(cells: Seq<bool>, units: Seq<Unit>, u: int)
    requires
        well_encoded(cells, units),
        0 <= u < units.len(),
        units[u] == Unit::Byte(0x4E),
    ensures
        gap_byte_at(cells, 16 * u),
{
    lemma_fill_bits();
    lemma_byte_bit(cells, units, u, 0x4E, 4);
    lemma_byte_bit(cells, units, u, 0x4E, 5);
    lemma_byte_bit(cells, units, u, 0x4E, 6);
}

proof fn lemma_zeros(cells: Seq<bool>, units: Seq<Unit>, u: int)
    requires
        well_encoded(cells, units),
        0 < u,
        u + 12 <= units.len(),
        units[u - 1] == Unit::Byte(0x4E),
        forall|i: int| u <= i < u + 12 ==> #[trigger] units[i] == Unit::Byte(0),
    ensures
        zeros_at(cells, 16 * u),
{
    lemma_fill_bits();
    assert forall|k: int| 0 <= k < 96 implies !#[trigger] cells[16 * u + 2 * k + 1] by {
        let w = u + k / 8;
        let h = k % 8;
        assert(units[w] == Unit::Byte(0));
        lemma_byte_bit(cells, units, w, 0, h);
        assert(16 * w + 2 * h == 16 * u + 2 * k);
    }
    lemma_byte_bit(cells, units, u - 1, 0x4E, 7);
    assert forall|k: int| 0 <= k < 96 implies #[trigger] cells[16 * u + 2 * k] by {
        let w = u + k / 8;
        let h = k % 8;
        assert(units[w] == Unit::Byte(0));
        lemma_byte_bit(cells, units, w, 0, h);
        assert(16 * w + 2 * h == 16 * u + 2 * k);
        if k > 0 {
            assert(!cells[16 * u + 2 * (k - 1) + 1]);
        }
    }
}

/// The last sector of a track with more behind it has its fill bytes where they
/// belong.
pub(crate) proof fn lemma_track_fill(track: Seq<SectorImage>, rest: Seq<SectorImage>)
    requires
        track.len() > 0,
    ensures
        ({
            let cells = track_cells(track + rest);
            let p = track_cells(track.drop_last()).len() as int;
            let n = track.last().data.len() as int;
            &&& fill_at(cells, p, n)
            &&& track_cells(track).len() == p + 16 * (98 + n)
            &&& track_cells(track).len() <= cells.len()
        }),
{
    let all = track + rest;
    let cells = track_cells(all);
    let units = track_units(all);
    let before = track_units(track.drop_last());
    let s = track.last();
    let v = sector_units(s);
    let n = s.data.len() as int;
    let at = before.len() as int;
    lemma_track_units(all);
    lemma_well_encoded(units);
    lemma_track_units(track);
    lemma_well_encoded(track_units(track));
    lemma_track_units(track.drop_last());
    lemma_well_encoded(before);
    lemma_block_fill(s);
    lemma_track_prefix(track, rest);
    let own = track_units(track);
    assert forall|i: int| 0 <= i < 98 + n implies #[trigger] units[at + i] == v[i] by {
        assert(own[at + i] == v[i]);
    }
    let p = 16 * at;
    assert forall|u: int| 0 <= u < 12 implies #[trigger] gap_byte_at(cells, p + 16 * u) by {
        assert(units[at + u] == v[u]);
        lemma_gap_byte(cells, units, at + u);
    }
    assert forall|u: int| 34 <= u < 56 implies #[trigger] gap_byte_at(cells, p + 16 * u) by {
        assert(units[at + u] == v[u]);
        lemma_gap_byte(cells, units, at + u);
    }
    assert forall|u: int| 74 + n <= u < 98 + n implies #[trigger] gap_byte_at(
        cells,
        p + 16 * u,
    ) by {
        assert(units[at + u] == v[u]);
        lemma_gap_byte(cells, units, at + u);
    }
    assert forall|i: int| at + 12 <= i < at + 24 implies #[trigger] units[i] == Unit::Byte(0) by {
        assert(units[at + (i - at)] == v[i - at]);
    }
    assert forall|i: int| at + 56 <= i < at + 68 implies #[trigger] units[i] == Unit::Byte(0) by {
        assert(units[at + (i - at)] == v[i - at]);
    }
    assert(units[at + 11] == v[11]);
    assert(units[at + 55] == v[55]);
    lemma_zeros(cells, units, at + 12);
    lemma_zeros(cells, units, at + 56);
}

/// What stands first in a track stays in place when more follows.
proof fn lemma_track_prefix(track: Seq<SectorImage>, rest: Seq<SectorImage>)
    ensures
        ({
            let own = track_units(track);
            let all = track_units(track + rest);
            &&& own.len() <= all.len()
            &&& forall|i: int| 0 <= i < own.len() ==> #[trigger] all[i] == own[i]
        }),
    decreases rest.len(),
{
    if rest.len() == 0 {
        assert(track + rest =~= track);
    } else {
        lemma_track_prefix(track, rest.drop_last());
        let all = track_units(track + rest);
        let most = track_units(track + rest.drop_last());
        assert((track + rest).drop_last() =~= track + rest.drop_last());
        let own = track_units(track);
        assert forall|i: int| 0 <= i < own.len() implies #[trigger] all[i] == own[i] by {
            assert(all[i] == most[i]);
        }
    }
}

} // verus!
