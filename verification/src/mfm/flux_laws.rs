//! A written track is read back from its flux.

use super::encode::track_cells;
use super::encode::SectorImage;
use super::jitter::count_twos;
use super::jitter::expand;
use super::jitter::law_pll_follows;
use super::jitter::wavering;
use super::pll::flux_cells;
use super::pll::gap_cells;
use super::roundtrip::decoded_track;
use super::roundtrip::fields::fields_cells;
use super::roundtrip::fields::law_marks_say_sectors;
use super::roundtrip::fields::record_fields;
use super::roundtrip::fields::record_ok;
use super::roundtrip::fields::record_says;
use super::roundtrip::fields::Record;
use super::roundtrip::law_part_round_trip;
use super::roundtrip::shape::fill_at;
use super::roundtrip::shape::gap_byte_at;
use super::roundtrip::shape::lemma_track_edges;
use super::roundtrip::shape::lemma_track_fill;
use super::roundtrip::shape::lemma_track_spacing;
use super::roundtrip::shape::zeros_at;
use super::roundtrip::valid_image;
use super::sectors_in;
use super::track_sectors;
use super::SectorView;
use vstd::prelude::*;

verus! {

/// The last reversal among the first `i` cells, -1 where there is none.
pub open spec fn last_reversal(cells: Seq<bool>, i: int) -> int
    decreases i,
{
    if i <= 0 {
        -1
    } else if cells[i - 1] {
        i - 1
    } else {
        last_reversal(cells, i - 1)
    }
}

/// The distances from reversal to reversal among the first `i` cells.
pub open spec fn gaps_before(cells: Seq<bool>, i: int) -> Seq<nat>
    decreases i,
{
    if i <= 0 {
        Seq::empty()
    } else if cells[i - 1] && last_reversal(cells, i - 1) >= 0 {
        gaps_before(cells, i - 1).push((i - 1 - last_reversal(cells, i - 1)) as nat)
    } else {
        gaps_before(cells, i - 1)
    }
}

/// The distances from reversal to reversal.
pub open spec fn gaps(cells: Seq<bool>) -> Seq<nat> {
    gaps_before(cells, cells.len() as int)
}

proof fn lemma_last_reversal(cells: Seq<bool>, i: int)
    requires
        0 <= i <= cells.len(),
    ensures
        -1 <= last_reversal(cells, i) < i || i == 0 && last_reversal(cells, i) == -1,
        last_reversal(cells, i) >= 0 ==> cells[last_reversal(cells, i)],
        forall|k: int| last_reversal(cells, i) < k < i ==> !#[trigger] cells[k],
    decreases i,
{
    if i > 0 && !cells[i - 1] {
        lemma_last_reversal(cells, i - 1);
    }
}

/// The cells behind the first reversal are those of the gaps.
proof fn lemma_expand(cells: Seq<bool>, i: int)
    requires
        0 < i <= cells.len(),
        cells[0],
    ensures
        last_reversal(cells, i) >= 0,
        expand(gaps_before(cells, i)) == cells.subrange(1, last_reversal(cells, i) + 1),
    decreases i,
{
    lemma_last_reversal(cells, i);
    if i == 1 {
        assert(gaps_before(cells, 0) =~= Seq::<nat>::empty());
        assert(last_reversal(cells, 0) == -1);
        assert(gaps_before(cells, 1) =~= Seq::<nat>::empty());
        assert(cells.subrange(1, 1) =~= Seq::<bool>::empty());
    } else {
        lemma_expand(cells, i - 1);
        lemma_last_reversal(cells, i - 1);
        let l = last_reversal(cells, i - 1);
        if cells[i - 1] {
            let g = (i - 1 - l) as nat;
            let before = gaps_before(cells, i - 1);
            assert(before.push(g).drop_last() =~= before);
            assert(cells.subrange(1, i) =~= cells.subrange(1, l + 1) + gap_cells(g));
        }
    }
}

/// The gaps of a track are two to four cells long.
proof fn lemma_gap_lengths(cells: Seq<bool>, i: int)
    requires
        0 <= i <= cells.len(),
        cells.len() > 0 ==> cells[0],
        forall|i: int| 0 <= i && i + 1 < cells.len() && #[trigger] cells[i] ==> !cells[i + 1],
        forall|i: int|
            0 <= i && i + 3 < cells.len() && !(#[trigger] cells[i]) ==> cells[i + 1] || cells[i + 2]
                || cells[i + 3],
    ensures
        forall|k: int|
            0 <= k < gaps_before(cells, i).len() ==> 2 <= #[trigger] gaps_before(cells, i)[k] <= 4,
        last_reversal(cells, i) <= 4 * gaps_before(cells, i).len(),
    decreases i,
{
    if i > 0 {
        lemma_gap_lengths(cells, i - 1);
        lemma_last_reversal(cells, i - 1);
        let l = last_reversal(cells, i - 1);
        if cells[i - 1] && l >= 0 {
            let g = i - 1 - l;
            assert(cells[l]);
            assert(!cells[l + 1]);
            if g > 4 {
                assert(!cells[l + 2] && !cells[l + 3] && !cells[l + 4]);
                assert(false);
            }
        }
    }
}

/// Grows by 59 for each gap of two cells, and never falls.
spec fn weight(cells: Seq<bool>, i: int) -> int {
    let g = gaps_before(cells, i);
    60 * count_twos(g) - 3 * g.len() + last_reversal(cells, i)
}

proof fn lemma_weight_step(cells: Seq<bool>, i: int)
    requires
        0 <= i < cells.len(),
        i > 0 && cells[i - 1] ==> !cells[i],
    ensures
        weight(cells, i) <= weight(cells, i + 1),
        cells[i] && i >= 2 && last_reversal(cells, i) == i - 2 ==> weight(cells, i) + 59 <= weight(
            cells,
            i + 1,
        ),
{
    let g = gaps_before(cells, i);
    let l = last_reversal(cells, i);
    lemma_last_reversal(cells, i);
    if cells[i] && l >= 0 {
        let n = (i - l) as nat;
        assert(g.push(n).drop_last() =~= g);
    }
}

proof fn lemma_weight_grows(cells: Seq<bool>, i: int, j: int)
    requires
        0 <= i <= j <= cells.len(),
        forall|i: int| 0 <= i && i + 1 < cells.len() && #[trigger] cells[i] ==> !cells[i + 1],
    ensures
        weight(cells, i) <= weight(cells, j),
    decreases j - i,
{
    if i < j {
        lemma_weight_grows(cells, i, j - 1);
        if j >= 2 && cells[j - 2] {
            assert(!cells[(j - 2) + 1]);
        }
        lemma_weight_step(cells, j - 1);
    }
}

/// `m` gaps of two cells follow the reversal at `p`.
proof fn lemma_twos(cells: Seq<bool>, p: int, m: int)
    requires
        0 <= p,
        0 <= m,
        p + 2 * m < cells.len(),
        forall|k: int| 0 <= k <= m ==> #[trigger] cells[p + 2 * k],
        forall|k: int| 0 <= k < m ==> !#[trigger] cells[p + 2 * k + 1],
        forall|i: int| 0 <= i && i + 1 < cells.len() && #[trigger] cells[i] ==> !cells[i + 1],
    ensures
        weight(cells, p) + 59 * m <= weight(cells, p + 2 * m + 1),
        last_reversal(cells, p + 2 * m + 1) == p + 2 * m,
    decreases m,
{
    assert(cells[p + 2 * m]);
    if m == 0 {
        lemma_weight_grows(cells, p, p + 1);
        assert(cells[p + 2 * 0]);
    } else {
        lemma_twos(cells, p, m - 1);
        let q = p + 2 * (m - 1);
        assert(!cells[q + 1]);
        lemma_weight_step(cells, q + 1);
        assert(last_reversal(cells, q + 2) == q);
        lemma_weight_step(cells, q + 2);
    }
}

/// Every gap byte holds two gaps of two cells.
proof fn lemma_gap_bytes(cells: Seq<bool>, p: int, a: int, b: int)
    requires
        0 <= p,
        0 <= a <= b,
        p + 16 * b <= cells.len(),
        forall|u: int| a <= u < b ==> #[trigger] gap_byte_at(cells, p + 16 * u),
        forall|i: int| 0 <= i && i + 1 < cells.len() && #[trigger] cells[i] ==> !cells[i + 1],
    ensures
        weight(cells, p + 16 * a) + 118 * (b - a) <= weight(cells, p + 16 * b),
    decreases b - a,
{
    if a < b {
        lemma_gap_bytes(cells, p, a, b - 1);
        let q = p + 16 * (b - 1);
        assert(gap_byte_at(cells, q));
        assert forall|k: int| 0 <= k <= 2 implies #[trigger] cells[q + 9 + 2 * k] by {
            assert(k == 0 || k == 1 || k == 2);
        }
        assert forall|k: int| 0 <= k < 2 implies !#[trigger] cells[q + 9 + 2 * k + 1] by {
            assert(k == 0 || k == 1);
        }
        lemma_weight_grows(cells, q, q + 9);
        lemma_twos(cells, q + 9, 2);
        lemma_weight_grows(cells, q + 14, q + 16);
    }
}

/// Every run of twelve zero bytes holds 95 gaps of two cells.
proof fn lemma_zero_bytes(cells: Seq<bool>, p: int)
    requires
        0 <= p,
        p + 192 <= cells.len(),
        zeros_at(cells, p),
        forall|i: int| 0 <= i && i + 1 < cells.len() && #[trigger] cells[i] ==> !cells[i + 1],
    ensures
        weight(cells, p) + 5605 <= weight(cells, p + 192),
{
    lemma_twos(cells, p, 95);
    lemma_weight_grows(cells, p + 191, p + 192);
}

/// What the fill bytes of a sector weigh.
proof fn lemma_sector_weight(cells: Seq<bool>, p: int, n: int)
    requires
        0 <= p,
        0 <= n,
        p + 16 * (98 + n) <= cells.len(),
        fill_at(cells, p, n),
        forall|i: int| 0 <= i && i + 1 < cells.len() && #[trigger] cells[i] ==> !cells[i + 1],
    ensures
        weight(cells, p) + 18054 <= weight(cells, p + 16 * (98 + n)),
{
    lemma_gap_bytes(cells, p, 0, 12);
    lemma_zero_bytes(cells, p + 192);
    lemma_weight_grows(cells, p + 384, p + 544);
    lemma_gap_bytes(cells, p, 34, 56);
    lemma_zero_bytes(cells, p + 896);
    lemma_weight_grows(cells, p + 1088, p + 16 * (74 + n));
    lemma_gap_bytes(cells, p, 74 + n, 98 + n);
}

/// Sectors of up to 1024 bytes weigh more than their cells.
proof fn lemma_track_weight(track: Seq<SectorImage>, rest: Seq<SectorImage>)
    requires
        forall|i: int| 0 <= i < track.len() ==> (#[trigger] track[i]).data.len() <= 1024,
        ({
            let cells = track_cells(track + rest);
            forall|i: int| 0 <= i && i + 1 < cells.len() && #[trigger] cells[i] ==> !cells[i + 1]
        }),
    ensures
        ({
            let n = track_cells(track).len() as int;
            let w = weight(track_cells(track + rest), n);
            n + 102 * track.len() - 1 <= w
        }),
    decreases track.len(),
{
    let cells = track_cells(track + rest);
    if track.len() == 0 {
        assert(gaps_before(cells, 0) =~= Seq::<nat>::empty());
        assert(weight(cells, 0) == -1);
    } else {
        let head = track.drop_last();
        let s = track.last();
        let tail = seq![s] + rest;
        assert(head + tail =~= track + rest);
        lemma_track_weight(head, tail);
        lemma_track_fill(track, rest);
        let p = track_cells(head).len() as int;
        assert(track[track.len() - 1].data.len() <= 1024);
        lemma_sector_weight(cells, p, s.data.len() as int);
    }
}

/// All cells of a track but the first and the last two lie in its gaps.
proof fn lemma_track_gaps(track: Seq<SectorImage>)
    requires
        track.len() > 0,
    ensures
        ({
            let cells = track_cells(track);
            let n = cells.len() as int;
            &&& n >= 16 * 98
            &&& n - 3 <= 4 * gaps(cells).len()
            &&& expand(gaps(cells)) == cells.subrange(1, n - 2)
        }),
{
    let cells = track_cells(track);
    let n = cells.len() as int;
    lemma_track_edges(track);
    assert(last_reversal(cells, n - 2) == n - 3);
    assert(last_reversal(cells, n - 1) == n - 3);
    assert(last_reversal(cells, n) == n - 3);
    lemma_expand(cells, n);
    lemma_track_spacing(track);
    lemma_gap_lengths(cells, n);
}

/// The flux of a written track gives back the sectors of the track, whatever the
/// length of a cell, as long as each interval is within eight hundredths of a
/// cell of its length and more than a twentieth of the intervals are two cells
/// long.
pub proof fn law_flux_round_trip(track: Seq<SectorImage>, flux: Seq<u32>, c: nat)
    requires
        forall|i: int| 0 <= i < track.len() ==> valid_image(#[trigger] track[i]),
        c >= 1,
        wavering(flux, gaps(track_cells(track)), c),
        flux.len() > 0 ==> count_twos(gaps(track_cells(track))) > flux.len() / 20,
    ensures
        track_sectors(flux) == Some(decoded_track(track)),
{
    let cells = track_cells(track);
    if track.len() == 0 {
        assert(gaps(cells) =~= Seq::<nat>::empty());
        assert(decoded_track(track) =~= Seq::<SectorView>::empty());
    } else {
        let n = cells.len() as int;
        lemma_track_gaps(track);
        law_pll_follows(flux, gaps(cells), c);
        let d = flux_cells(flux);
        assert(d == cells.subrange(1, n - 2));
        law_part_round_trip(track, d, 1);
    }
}

/// For sectors of up to 1024 bytes the flux of a written track gives back the
/// sectors of the track whatever they hold, as long as each interval is within
/// eight hundredths of a cell of its length.
pub proof fn law_floppy_round_trip(track: Seq<SectorImage>, flux: Seq<u32>, c: nat)
    requires
        forall|i: int|
            0 <= i < track.len() ==> valid_image(#[trigger] track[i]) && track[i].size_code <= 3,
        c >= 1,
        wavering(flux, gaps(track_cells(track)), c),
    ensures
        track_sectors(flux) == Some(decoded_track(track)),
{
    let cells = track_cells(track);
    if track.len() > 0 {
        let n = cells.len() as int;
        lemma_track_spacing(track);
        assert forall|i: int| 0 <= i < track.len() implies (#[trigger] track[i]).data.len()
            <= 1024 by {
            assert(valid_image(track[i]) && track[i].size_code <= 3);
            lemma_size_at_most(track[i].size_code);
        }
        assert(track + Seq::<SectorImage>::empty() =~= track);
        lemma_track_weight(track, Seq::empty());
        lemma_last_reversal(cells, n);
    } else {
        assert(gaps(cells) =~= Seq::<nat>::empty());
    }
    law_flux_round_trip(track, flux, c);
}

proof fn lemma_size_at_most(code: u8)
    requires
        code <= 3,
    ensures
        super::sector_size(code) <= 1024,
{
    vstd::arithmetic::power2::lemma2_to64();
}

/// A track is the cells that its intervals span: where each interval is within eight
/// hundredths of a cell of its length, and more than a twentieth of them are two cells
/// long, the sectors are those of the cells, intact or not.
pub proof fn law_flux_gives_cells(flux: Seq<u32>, gaps: Seq<nat>, c: nat)
    requires
        wavering(flux, gaps, c),
        c >= 1,
        flux.len() >= 16,
        count_twos(gaps) > flux.len() / 20,
    ensures
        track_sectors(flux) == sectors_in(expand(gaps)),
{
    law_pll_follows(flux, gaps, c);
}

/// The flux of a track gives what its marks say, damaged or not: where the intervals span
/// the cells of these records, each is decoded under its numbers, and counts as intact
/// exactly if the CRC behind it is right.
pub proof fn law_flux_says_marks(records: Seq<Record>, flux: Seq<u32>, gaps: Seq<nat>, c: nat)
    requires
        forall|i: int| 0 <= i < records.len() ==> record_ok(#[trigger] records[i]),
        expand(gaps) == fields_cells(record_fields(records)),
        wavering(flux, gaps, c),
        c >= 1,
        flux.len() >= 16,
        count_twos(gaps) > flux.len() / 20,
    ensures
        track_sectors(flux) == Some(records.map_values(|r: Record| record_says(r))),
{
    law_flux_gives_cells(flux, gaps, c);
    law_marks_say_sectors(records);
}

} // verus!
