//! Decoding undoes encoding.

pub mod fields;
pub mod long_sync;
pub mod shape;

use super::add_sync;
use super::bits_value;
use super::byte_at;
use super::bytes_at;
use super::crc_input;
use super::crc_matches;
use super::crc_of;
use super::data_cells;
use super::encode::add_units;
use super::encode::bit_of;
use super::encode::byte_cells;
use super::encode::byte_units;
use super::encode::fill_units;
use super::encode::last_cell;
use super::encode::lemma_add_units_concat;
use super::encode::mark_units;
use super::encode::sector_cells;
use super::encode::sector_units;
use super::encode::track_cells;
use super::encode::SectorImage;
use super::encode::Unit;
use super::runs_of;
use super::sector_size;
use super::sectors_in;
use super::sync_at;
use super::sync_cells;
use super::syncs_from;
use super::take_run;
use super::take_runs;
use super::Progress;
use super::Run;
use super::SectorId;
use super::SectorView;
use super::DAM;
use super::IDAM;
use vstd::prelude::*;

verus! {

/// A sector whose data has the size that its size code announces.
pub open spec fn valid_image(s: SectorImage) -> bool {
    s.size_code < 64 && s.data.len() == sector_size(s.size_code)
}

/// The sector that an intact image decodes to.
pub open spec fn decoded(s: SectorImage) -> SectorView {
    SectorView {
        cyl: s.cyl,
        head: s.head,
        sector: s.sector,
        size_code: s.size_code,
        data: s.data,
        id_crc_ok: true,
        data_crc_ok: true,
        deleted: false,
    }
}

/// The cell before cell `i`.
spec fn cell_before(cells: Seq<bool>, i: int) -> bool {
    i > 0 && cells[i - 1]
}

/// Whether unit `u` of `cells` is written as `units[u]` asks.
spec fn unit_ok(cells: Seq<bool>, units: Seq<Unit>, u: int) -> bool {
    match units[u] {
        Unit::Sync => forall|k: int|
            0 <= k < 16 ==> #[trigger] cells[16 * u + k] == sync_cells()[k],
        Unit::Byte(b) => forall|k: int|
            0 <= k < 8 ==> cells[16 * u + 2 * k + 1] == #[trigger] bit_of(b, k) && cells[16 * u + 2
                * k] == (!cell_before(cells, 16 * u + 2 * k) && !bit_of(b, k)),
    }
}

spec fn well_encoded(cells: Seq<bool>, units: Seq<Unit>) -> bool {
    &&& cells.len() == 16 * units.len()
    &&& forall|u: int| 0 <= u < units.len() ==> #[trigger] unit_ok(cells, units, u)
}

/// A unit stays well written when more follows.
proof fn lemma_unit_ok_extends(
    cells: Seq<bool>,
    more: Seq<bool>,
    units: Seq<Unit>,
    u: int,
    last: Unit,
)
    requires
        0 <= u < units.len(),
        16 * units.len() <= cells.len(),
        unit_ok(cells, units, u),
    ensures
        unit_ok(cells + more, units.push(last), u),
{
    let all = cells + more;
    match units[u] {
        Unit::Sync => {
            assert forall|k: int| 0 <= k < 16 implies #[trigger] all[16 * u + k]
                == sync_cells()[k] by {
                assert(cells[16 * u + k] == sync_cells()[k]);
            }
        },
        Unit::Byte(b) => {
            assert forall|k: int| 0 <= k < 8 implies all[16 * u + 2 * k + 1] == #[trigger] bit_of(
                b,
                k,
            ) && all[16 * u + 2 * k] == (!cell_before(all, 16 * u + 2 * k) && !bit_of(b, k)) by {
                assert(cells[16 * u + 2 * k + 1] == bit_of(b, k));
            }
        },
    }
}

proof fn lemma_well_encoded(units: Seq<Unit>)
    ensures
        well_encoded(add_units(Seq::empty(), units), units),
    decreases units.len(),
{
    let all = add_units(Seq::empty(), units);
    if units.len() > 0 {
        let head = units.drop_last();
        let cells = add_units(Seq::empty(), head);
        let n = head.len() as int;
        lemma_well_encoded(head);
        let more = match units.last() {
            Unit::Sync => sync_cells(),
            Unit::Byte(b) => byte_cells(b, last_cell(cells)),
        };
        assert(all == cells + more);
        assert(units =~= head.push(units.last()));
        assert forall|u: int| 0 <= u < units.len() implies #[trigger] unit_ok(all, units, u) by {
            if u < n {
                assert(unit_ok(cells, head, u));
                lemma_unit_ok_extends(cells, more, head, u, units.last());
            } else {
                match units.last() {
                    Unit::Sync => {
                        assert forall|k: int| 0 <= k < 16 implies #[trigger] all[16 * u + k]
                            == sync_cells()[k] by {
                            assert(all[16 * u + k] == more[k]);
                        }
                    },
                    Unit::Byte(b) => {
                        assert forall|k: int| 0 <= k < 8 implies all[16 * u + 2 * k + 1]
                            == #[trigger] bit_of(b, k) && all[16 * u + 2 * k] == (!cell_before(
                            all,
                            16 * u + 2 * k,
                        ) && !bit_of(b, k)) by {
                            assert(all[16 * u + 2 * k + 1] == more[2 * k + 1]);
                            assert(all[16 * u + 2 * k] == more[2 * k]);
                            if k > 0 {
                                assert(all[16 * u + 2 * k - 1] == more[2 * k - 1]);
                                assert(more[2 * (k - 1) + 1] == bit_of(b, k - 1));
                            }
                        }
                    },
                }
            }
        }
    }
}

/// Every sync mark is followed by a sync mark or by a byte with its top bit set.
spec fn marks_follow(units: Seq<Unit>) -> bool {
    forall|u: int|
        0 <= u && u + 1 < units.len() && (#[trigger] units[u]) is Sync ==> match units[u + 1] {
            Unit::Sync => true,
            Unit::Byte(b) => bit_of(b, 0),
        }
}

/// Three cells without a reversal around a clock cell occur only in the middle
/// of a sync mark.
proof fn lemma_missing_clock(cells: Seq<bool>, units: Seq<Unit>, c: int)
    requires
        well_encoded(cells, units),
        0 < c,
        c + 1 < cells.len(),
        c % 2 == 0,
        !cells[c - 1],
        !cells[c],
        !cells[c + 1],
    ensures
        units[c / 16] is Sync,
        c % 16 == 10,
{
    let u = c / 16;
    let k = c % 16;
    assert(unit_ok(cells, units, u));
    match units[u] {
        Unit::Byte(b) => {
            let h = k / 2;
            assert(c == 16 * u + 2 * h);
            assert(cells[16 * u + 2 * h + 1] == bit_of(b, h));
            assert(!cell_before(cells, 16 * u + 2 * h));
        },
        Unit::Sync => {
            assert(cells[16 * u + k] == sync_cells()[k]);
            if k > 0 {
                assert(cells[16 * u + (k - 1)] == sync_cells()[k - 1]);
            }
            assert(cells[16 * u + (k + 1)] == sync_cells()[k + 1]);
        },
    }
}

/// The sync pattern occurs exactly where a sync mark was written.
proof fn lemma_sync_only_at_marks(cells: Seq<bool>, units: Seq<Unit>, i: int)
    requires
        well_encoded(cells, units),
        marks_follow(units),
        0 <= i,
        i + 16 <= cells.len(),
    ensures
        sync_at(cells, i) <==> i % 16 == 0 && units[i / 16] is Sync,
{
    let w = cells.subrange(i, i + 16);
    if sync_at(cells, i) {
        assert forall|k: int| 0 <= k < 16 implies #[trigger] cells[i + k] == sync_cells()[k] by {
            assert(w[k] == cells[i + k]);
        }
        assert(!cells[i + 2] && !cells[i + 3] && !cells[i + 4]);
        assert(!cells[i + 9] && !cells[i + 10] && !cells[i + 11]);
        if i % 2 == 0 {
            lemma_missing_clock(cells, units, i + 10);
        } else {
            lemma_missing_clock(cells, units, i + 3);
            let u = (i + 3) / 16;
            assert(i == 16 * u + 7);
            assert(!cells[i + 10]);
            assert(unit_ok(cells, units, u + 1));
            match units[u + 1] {
                Unit::Sync => {
                    assert(cells[16 * (u + 1) + 1] == sync_cells()[1]);
                },
                Unit::Byte(b) => {
                    assert(cells[16 * (u + 1) + 2 * 0 + 1] == bit_of(b, 0));
                },
            }
            assert(false);
        }
    }
    if i % 16 == 0 && units[i / 16] is Sync {
        let u = i / 16;
        assert(unit_ok(cells, units, u));
        assert forall|k: int| 0 <= k < 16 implies w[k] == sync_cells()[k] by {
            assert(cells[16 * u + k] == sync_cells()[k]);
        }
        assert(w =~= sync_cells());
    }
}

/// The positions of the sync marks among the first `m` units.
spec fn syncs_before(units: Seq<Unit>, m: int) -> Seq<int>
    decreases m,
{
    if m <= 0 {
        Seq::empty()
    } else if units[m - 1] is Sync {
        syncs_before(units, m - 1).push(16 * (m - 1))
    } else {
        syncs_before(units, m - 1)
    }
}

/// A scan passes over cells at which no mark starts.
proof fn lemma_scan_skips(cells: Seq<bool>, i: int, j: int)
    requires
        0 <= i <= j,
        forall|k: int| i <= k < j ==> !#[trigger] sync_at(cells, k),
    ensures
        syncs_from(cells, i) == syncs_from(cells, j),
    decreases j - i,
{
    if i < j {
        assert(!sync_at(cells, i));
        if i + 16 > cells.len() {
        } else {
            lemma_scan_skips(cells, i + 1, j);
        }
    }
}

proof fn lemma_scan(cells: Seq<bool>, units: Seq<Unit>, u: int)
    requires
        well_encoded(cells, units),
        marks_follow(units),
        0 <= u <= units.len(),
    ensures
        syncs_before(units, u) + syncs_from(cells, 16 * u) == syncs_before(
            units,
            units.len() as int,
        ),
    decreases units.len() - u,
{
    if u == units.len() {
        assert(syncs_from(cells, 16 * u) =~= Seq::<int>::empty());
        assert(syncs_before(units, u) + Seq::<int>::empty() =~= syncs_before(units, u));
    } else {
        lemma_scan(cells, units, u + 1);
        lemma_sync_only_at_marks(cells, units, 16 * u);
        if units[u] is Sync {
            assert(syncs_from(cells, 16 * u) == seq![16 * u] + syncs_from(cells, 16 * u + 16));
            assert(syncs_before(units, u) + syncs_from(cells, 16 * u) =~= syncs_before(units, u + 1)
                + syncs_from(cells, 16 * (u + 1)));
        } else {
            assert forall|k: int| 16 * u <= k < 16 * u + 16 implies !#[trigger] sync_at(
                cells,
                k,
            ) by {
                if k + 16 <= cells.len() {
                    lemma_sync_only_at_marks(cells, units, k);
                }
            }
            lemma_scan_skips(cells, 16 * u, 16 * u + 16);
        }
    }
}

/// The high bits of a byte, shifted down.
proof fn lemma_bits_of_byte(b: u8, k: int)
    requires
        0 <= k <= 8,
    ensures
        bits_value(Seq::new(k as nat, |j: int| bit_of(b, j))) == (b as u16) >> ((8 - k) as u16),
    decreases k,
{
    let s = Seq::new(k as nat, |j: int| bit_of(b, j));
    if k == 0 {
        assert((b as u16) >> 8u16 == 0) by (bit_vector);
    } else {
        lemma_bits_of_byte(b, k - 1);
        assert(s.drop_last() =~= Seq::new((k - 1) as nat, |j: int| bit_of(b, j)));
        let hi = (8 - (k - 1)) as u16;
        let lo = (8 - k) as u16;
        let sh = (7 - (k - 1)) as u8;
        assert((b as u16) >> lo == 2 * ((b as u16) >> hi) + ((b >> sh) & 1)) by (bit_vector)
            requires
                1 <= hi <= 8,
                lo == hi - 1,
                sh == lo,
        ;
        assert((b >> sh) & 1 == 0 || (b >> sh) & 1 == 1) by (bit_vector);
    }
}

proof fn lemma_byte_unit(cells: Seq<bool>, units: Seq<Unit>, u: int)
    requires
        well_encoded(cells, units),
        0 <= u < units.len(),
        units[u] is Byte,
    ensures
        byte_at(cells, 16 * u) == units[u]->0,
{
    let b = units[u]->0;
    assert(unit_ok(cells, units, u));
    assert forall|k: int| 0 <= k < 8 implies data_cells(cells, 16 * u)[k] == bit_of(b, k) by {
        assert(cells[16 * u + 2 * k + 1] == bit_of(b, k));
    }
    assert(data_cells(cells, 16 * u) =~= Seq::new(8, |j: int| bit_of(b, j)));
    lemma_bits_of_byte(b, 8);
    assert((b as u16) >> 0u16 == b as u16) by (bit_vector);
}

/// A stretch of byte units reads back as those bytes.
proof fn lemma_byte_units(cells: Seq<bool>, units: Seq<Unit>, u: int, bytes: Seq<u8>)
    requires
        well_encoded(cells, units),
        0 <= u,
        u + bytes.len() <= units.len(),
        forall|i: int| 0 <= i < bytes.len() ==> #[trigger] units[u + i] == Unit::Byte(bytes[i]),
    ensures
        bytes_at(cells, 16 * u, bytes.len()) == bytes,
{
    assert forall|i: int| 0 <= i < bytes.len() implies bytes_at(cells, 16 * u, bytes.len())[i]
        == bytes[i] by {
        assert(units[u + i] == Unit::Byte(bytes[i]));
        lemma_byte_unit(cells, units, u + i);
        assert(16 * u + 16 * i == 16 * (u + i));
    }
    assert(bytes_at(cells, 16 * u, bytes.len()) =~= bytes);
}

/// The number of units of a sector with `n` data bytes.
spec fn block_len(n: nat) -> int {
    98 + n as int
}

/// Whether the units of `s` stand from unit `at` on.
spec fn block_at(units: Seq<Unit>, at: int, s: SectorImage) -> bool {
    &&& 0 <= at
    &&& at + block_len(s.data.len()) <= units.len()
    &&& units.subrange(at, at + block_len(s.data.len())) == sector_units(s)
}

/// Where the parts of a sector stand.
proof fn lemma_block_layout(s: SectorImage)
    ensures
        ({
            let v = sector_units(s);
            let n = s.data.len() as int;
            let id = seq![s.cyl, s.head, s.sector, s.size_code];
            let c = crc_of(0xFFFF, crc_input(3, IDAM, id));
            let d = crc_of(0xFFFF, crc_input(3, DAM, s.data));
            &&& v.len() == block_len(s.data.len())
            &&& forall|i: int| 0 <= i < 24 ==> (#[trigger] v[i]) is Byte
            &&& v[24] is Sync && v[25] is Sync && v[26] is Sync
            &&& v[27] == Unit::Byte(IDAM)
            &&& forall|i: int| 0 <= i < 4 ==> v[28 + i] == Unit::Byte(#[trigger] id[i])
            &&& v[32] == Unit::Byte((c / 256) as u8)
            &&& v[33] == Unit::Byte((c % 256) as u8)
            &&& forall|i: int| 34 <= i < 68 ==> (#[trigger] v[i]) is Byte
            &&& v[68] is Sync && v[69] is Sync && v[70] is Sync
            &&& v[71] == Unit::Byte(DAM)
            &&& forall|i: int| 0 <= i < n ==> v[72 + i] == Unit::Byte(#[trigger] s.data[i])
            &&& v[72 + n] == Unit::Byte((d / 256) as u8)
            &&& v[73 + n] == Unit::Byte((d % 256) as u8)
            &&& forall|i: int| 74 + n <= i < 98 + n ==> #[trigger] v[i] == Unit::Byte(0x4E)
        }),
{
    let id = seq![s.cyl, s.head, s.sector, s.size_code];
    let v = sector_units(s);
    let n = s.data.len() as int;
    let p1 = fill_units(12, 0x4E);
    let p2 = p1 + fill_units(12, 0x00);
    let p3 = p2 + mark_units(IDAM, id);
    let p4 = p3 + fill_units(22, 0x4E);
    let p5 = p4 + fill_units(12, 0x00);
    let p6 = p5 + mark_units(DAM, s.data);
    assert(p3.len() == 34);
    assert(p5.len() == 68);
    assert(p6.len() == 74 + n);
    assert(v == p6 + fill_units(24, 0x4E));
    assert forall|i: int| 0 <= i < 34 implies #[trigger] v[i] == p3[i] by {}
    assert forall|i: int| 0 <= i < 10 implies p3[24 + i] == #[trigger] mark_units(IDAM, id)[i] by {}
    assert forall|i: int| 0 <= i < n + 6 implies v[68 + i] == #[trigger] mark_units(
        DAM,
        s.data,
    )[i] by {}
    let m = mark_units(IDAM, id);
    assert(m[0] is Sync && m[1] is Sync && m[2] is Sync && m[3] == Unit::Byte(IDAM));
    assert(v[24] == p3[24] && v[25] == p3[25] && v[26] == p3[26] && v[27] == p3[27]);
    assert(p3[24int + 0] == m[0] && p3[24int + 1] == m[1] && p3[24int + 2] == m[2] && p3[24int + 3] == m[3]);
    assert forall|i: int| 0 <= i < 4 implies v[28 + i] == Unit::Byte(#[trigger] id[i]) by {
        assert(v[28 + i] == p3[28 + i]);
        assert(p3[24 + (4 + i)] == m[4 + i]);
        assert(m[4 + i] == byte_units(id)[i]);
    }
    assert(v[32] == p3[32] && v[33] == p3[33]);
    assert(p3[24int + 8] == m[8] && p3[24int + 9] == m[9]);
    let w = mark_units(DAM, s.data);
    assert(v[68int + 0] == w[0] && v[68int + 1] == w[1] && v[68int + 2] == w[2] && v[68int + 3] == w[3]);
    assert forall|i: int| 0 <= i < n implies v[72 + i] == Unit::Byte(#[trigger] s.data[i]) by {
        assert(v[68 + (4 + i)] == w[4 + i]);
        assert(w[4 + i] == byte_units(s.data)[i]);
    }
    assert(v[68 + (4 + n)] == w[4 + n]);
    assert(v[68 + (5 + n)] == w[5 + n]);
}

/// The same, seen from the whole track.
spec fn block_facts(units: Seq<Unit>, at: int, s: SectorImage) -> bool {
    let n = s.data.len() as int;
    let id = seq![s.cyl, s.head, s.sector, s.size_code];
    let c = crc_of(0xFFFF, crc_input(3, IDAM, id));
    let d = crc_of(0xFFFF, crc_input(3, DAM, s.data));
    &&& 0 <= at
    &&& at + 98 + n <= units.len()
    &&& forall|i: int| at <= i < at + 24 ==> (#[trigger] units[i]) is Byte
    &&& units[at + 24] is Sync && units[at + 25] is Sync && units[at + 26] is Sync
    &&& units[at + 27] == Unit::Byte(IDAM)
    &&& forall|i: int| 0 <= i < 4 ==> units[at + 28 + i] == Unit::Byte(#[trigger] id[i])
    &&& units[at + 32] == Unit::Byte((c / 256) as u8)
    &&& units[at + 33] == Unit::Byte((c % 256) as u8)
    &&& forall|i: int| at + 34 <= i < at + 68 ==> (#[trigger] units[i]) is Byte
    &&& units[at + 68] is Sync && units[at + 69] is Sync && units[at + 70] is Sync
    &&& units[at + 71] == Unit::Byte(DAM)
    &&& forall|i: int| 0 <= i < n ==> units[at + 72 + i] == Unit::Byte(#[trigger] s.data[i])
    &&& units[at + 72 + n] == Unit::Byte((d / 256) as u8)
    &&& units[at + 73 + n] == Unit::Byte((d % 256) as u8)
    &&& forall|i: int| at + 74 + n <= i < at + 98 + n ==> (#[trigger] units[i]) is Byte
}

/// The parts of a sector stand in the track as they stand in the sector.
proof fn lemma_block_moved(v: Seq<Unit>, units: Seq<Unit>, at: int, s: SectorImage)
    requires
        block_facts(v, 0, s),
        v.len() == 98 + s.data.len(),
        0 <= at,
        at + v.len() <= units.len(),
        v == units.subrange(at, at + v.len()),
    ensures
        block_facts(units, at, s),
{
    let n = s.data.len() as int;
    let id = seq![s.cyl, s.head, s.sector, s.size_code];
    assert forall|i: int| at <= i < at + v.len() implies #[trigger] units[i] == v[i - at] by {}
    assert forall|i: int| 0 <= i < 4 implies units[at + 28 + i] == Unit::Byte(#[trigger] id[i]) by {
        assert(units[at + 28 + i] == v[28 + i]);
    }
    assert forall|i: int| 0 <= i < n implies units[at + 72 + i] == Unit::Byte(
        #[trigger] s.data[i],
    ) by {
        assert(units[at + 72 + i] == v[72 + i]);
    }
}

proof fn lemma_block_facts(units: Seq<Unit>, at: int, s: SectorImage)
    requires
        block_at(units, at, s),
    ensures
        block_facts(units, at, s),
{
    lemma_block_layout(s);
    lemma_block_moved(sector_units(s), units, at, s);
}

/// Both marks of a sector decode to that sector.
proof fn lemma_block_decodes(
    cells: Seq<bool>,
    units: Seq<Unit>,
    at: int,
    s: SectorImage,
    st: Progress,
)
    requires
        well_encoded(cells, units),
        block_facts(units, at, s),
        valid_image(s),
    ensures
        ({
            let id = SectorId {
                cyl: s.cyl,
                head: s.head,
                sector: s.sector,
                size_code: s.size_code,
                crc_ok: true,
            };
            let mid = Progress { pending: Some(id), sectors: st.sectors };
            &&& take_run(cells, st, Run { start: 16 * (at + 24), count: 3 }) == Some(mid)
            &&& take_run(cells, mid, Run { start: 16 * (at + 68), count: 3 }) == Some(
                Progress { pending: None, sectors: st.sectors.push(decoded(s)) },
            )
        }),
{
    let n = s.data.len() as int;
    let idb = seq![s.cyl, s.head, s.sector, s.size_code];
    let c = crc_of(0xFFFF, crc_input(3, IDAM, idb));
    let d = crc_of(0xFFFF, crc_input(3, DAM, s.data));
    let id = SectorId {
        cyl: s.cyl,
        head: s.head,
        sector: s.sector,
        size_code: s.size_code,
        crc_ok: true,
    };
    let mid = Progress { pending: Some(id), sectors: st.sectors };
    // The ID mark.
    let body = idb + seq![(c / 256) as u8, (c % 256) as u8];
    assert forall|i: int| 0 <= i < body.len() implies #[trigger] units[at + 28 + i] == Unit::Byte(
        body[i],
    ) by {
        if i < 4 {
            assert(Unit::Byte(idb[i]) == units[at + 28 + i]);
        }
    }
    lemma_byte_unit(cells, units, at + 27);
    lemma_byte_units(cells, units, at + 28, body);
    let pos = 16 * (at + 24) + 3 * 16;
    assert(pos == 16 * (at + 27));
    assert(pos + 16 == 16 * (at + 28));
    assert(bytes_at(cells, pos + 16, 6) == body);
    assert(body.take(4) =~= idb);
    assert(c == ((c / 256) as u8) * 256 + (c % 256) as u8);
    assert(crc_matches(3, IDAM, idb, body[4], body[5]));
    assert(super::id_at(cells, pos, 3) == id);
    // The data mark.
    let load = s.data + seq![(d / 256) as u8, (d % 256) as u8];
    assert forall|i: int| 0 <= i < load.len() implies #[trigger] units[at + 72 + i] == Unit::Byte(
        load[i],
    ) by {
        if i < n {
            assert(Unit::Byte(s.data[i]) == units[at + 72 + i]);
        }
    }
    lemma_byte_unit(cells, units, at + 71);
    lemma_byte_units(cells, units, at + 72, load);
    let dpos = 16 * (at + 68) + 3 * 16;
    assert(dpos == 16 * (at + 71));
    assert(dpos + 16 == 16 * (at + 72));
    assert(load.len() == sector_size(s.size_code) + 2);
    assert(bytes_at(cells, dpos + 16, (n + 2) as nat) == load);
    assert(load.take(n) =~= s.data);
    assert(d == ((d / 256) as u8) * 256 + (d % 256) as u8);
    assert(crc_matches(3, DAM, s.data, load[n], load[n + 1]));
    assert(super::sector_at(cells, dpos, 3, DAM, id) == decoded(s));
}

proof fn lemma_no_syncs(units: Seq<Unit>, a: int, b: int)
    requires
        0 <= a <= b <= units.len(),
        forall|i: int| a <= i < b ==> (#[trigger] units[i]) is Byte,
    ensures
        syncs_before(units, b) == syncs_before(units, a),
    decreases b - a,
{
    if a < b {
        assert(units[b - 1] is Byte);
        lemma_no_syncs(units, a, b - 1);
    }
}

proof fn lemma_runs_push(syncs: Seq<int>, x: int)
    ensures
        runs_of(syncs.push(x)) == add_sync(runs_of(syncs), x),
{
    assert(syncs.push(x).drop_last() =~= syncs);
}

/// The runs of a sector come behind those of what stands before it.
proof fn lemma_block_runs(units: Seq<Unit>, at: int, s: SectorImage)
    requires
        block_facts(units, at, s),
        ({
            let r = runs_of(syncs_before(units, at));
            r.len() > 0 ==> r.last().start + r.last().count * 16 <= 16 * at
        }),
    ensures
        runs_of(syncs_before(units, at + block_len(s.data.len()))) == runs_of(
            syncs_before(units, at),
        ).push(Run { start: 16 * (at + 24), count: 3 }).push(
            Run { start: 16 * (at + 68), count: 3 },
        ),
{
    let n = s.data.len() as int;
    let r0 = runs_of(syncs_before(units, at));
    lemma_no_syncs(units, at, at + 24);
    let s0 = syncs_before(units, at);
    let p = 16 * (at + 24);
    let q = 16 * (at + 68);
    assert(syncs_before(units, at + 25) == s0.push(p));
    assert(syncs_before(units, at + 26) == s0.push(p).push(p + 16));
    let s1 = s0.push(p).push(p + 16).push(p + 32);
    assert(syncs_before(units, at + 27) == s1);
    lemma_runs_push(s0, p);
    lemma_runs_push(s0.push(p), p + 16);
    lemma_runs_push(s0.push(p).push(p + 16), p + 32);
    assert(runs_of(s0.push(p)) == r0.push(Run { start: p, count: 1 }));
    assert(r0.push(Run { start: p, count: 1 }).drop_last() =~= r0);
    assert(runs_of(s0.push(p).push(p + 16)) == r0.push(Run { start: p, count: 2 }));
    assert(r0.push(Run { start: p, count: 2 }).drop_last() =~= r0);
    let r1 = r0.push(Run { start: p, count: 3 });
    assert(runs_of(s1) == r1);
    assert forall|i: int| at + 27 <= i < at + 68 implies (#[trigger] units[i]) is Byte by {
        if i < at + 34 && i >= at + 28 && i < at + 32 {
            let id = seq![s.cyl, s.head, s.sector, s.size_code];
            assert(Unit::Byte(id[i - at - 28]) == units[at + 28 + (i - at - 28)]);
        }
    }
    lemma_no_syncs(units, at + 27, at + 68);
    assert(syncs_before(units, at + 69) == s1.push(q));
    assert(syncs_before(units, at + 70) == s1.push(q).push(q + 16));
    let s2 = s1.push(q).push(q + 16).push(q + 32);
    assert(syncs_before(units, at + 71) == s2);
    lemma_runs_push(s1, q);
    lemma_runs_push(s1.push(q), q + 16);
    lemma_runs_push(s1.push(q).push(q + 16), q + 32);
    assert(runs_of(s1.push(q)) == r1.push(Run { start: q, count: 1 }));
    assert(r1.push(Run { start: q, count: 1 }).drop_last() =~= r1);
    assert(runs_of(s1.push(q).push(q + 16)) == r1.push(Run { start: q, count: 2 }));
    assert(r1.push(Run { start: q, count: 2 }).drop_last() =~= r1);
    assert(runs_of(s2) == r1.push(Run { start: q, count: 3 }));
    assert forall|i: int| at + 71 <= i < at + 98 + n implies (#[trigger] units[i]) is Byte by {
        if i >= at + 72 && i < at + 72 + n {
            assert(Unit::Byte(s.data[i - at - 72]) == units[at + 72 + (i - at - 72)]);
        }
    }
    lemma_no_syncs(units, at + 71, at + 98 + n);
}

/// The units of a whole track.
spec fn track_units(track: Seq<SectorImage>) -> Seq<Unit>
    decreases track.len(),
{
    if track.len() == 0 {
        Seq::empty()
    } else {
        track_units(track.drop_last()) + sector_units(track.last())
    }
}

/// Behind a cell without a reversal units are written as at the very start.
proof fn lemma_add_units_shift(cells: Seq<bool>, units: Seq<Unit>)
    requires
        !last_cell(cells),
    ensures
        add_units(cells, units) == cells + add_units(Seq::empty(), units),
    decreases units.len(),
{
    if units.len() == 0 {
        assert(cells + Seq::<bool>::empty() =~= cells);
    } else {
        let head = units.drop_last();
        lemma_add_units_shift(cells, head);
        let a = add_units(Seq::<bool>::empty(), head);
        assert(last_cell(cells + a) == last_cell(a)) by {
            if a.len() == 0 {
                assert(cells + a =~= cells);
            } else {
                assert((cells + a).last() == a.last());
            }
        }
        match units.last() {
            Unit::Sync => {
                assert((cells + a) + sync_cells() =~= cells + (a + sync_cells()));
            },
            Unit::Byte(b) => {
                let m = byte_cells(b, last_cell(a));
                assert((cells + a) + m =~= cells + (a + m));
            },
        }
    }
}

proof fn lemma_sector_ends_low(s: SectorImage)
    ensures
        !last_cell(sector_cells(s)),
        sector_cells(s).len() > 0,
{
    let v = sector_units(s);
    lemma_block_layout(s);
    lemma_well_encoded(v);
    let cells = sector_cells(s);
    let u = v.len() - 1;
    assert(v[u] == Unit::Byte(0x4E));
    assert(unit_ok(cells, v, u));
    assert(cells[16 * u + 2 * 7 + 1] == bit_of(0x4E, 7));
    assert((0x4Eu8 >> 0u8) & 1 == 0) by (bit_vector);
}

proof fn lemma_track_units(track: Seq<SectorImage>)
    ensures
        track_cells(track) == add_units(Seq::empty(), track_units(track)),
        !last_cell(track_cells(track)),
    decreases track.len(),
{
    if track.len() > 0 {
        let head = track.drop_last();
        lemma_track_units(head);
        lemma_add_units_concat(Seq::empty(), track_units(head), sector_units(track.last()));
        lemma_add_units_shift(track_cells(head), sector_units(track.last()));
        lemma_sector_ends_low(track.last());
        assert(track_cells(track).last() == sector_cells(track.last()).last());
    }
}

/// Whether unit `u` is no sync mark, or one with a mark or a top bit behind it.
spec fn follows_well(units: Seq<Unit>, u: int) -> bool {
    units[u] is Sync ==> match units[u + 1] {
        Unit::Sync => true,
        Unit::Byte(b) => bit_of(b, 0),
    }
}

proof fn lemma_block_marks_follow(units: Seq<Unit>, at: int, s: SectorImage, u: int)
    requires
        block_facts(units, at, s),
        at <= u < at + block_len(s.data.len()),
    ensures
        follows_well(units, u),
        u == at + block_len(s.data.len()) - 1 ==> units[u] is Byte,
{
    let n = s.data.len() as int;
    assert((0xFEu8 >> 7u8) & 1 == 1) by (bit_vector);
    assert((0xFBu8 >> 7u8) & 1 == 1) by (bit_vector);
    assert(bit_of(IDAM, 0) && bit_of(DAM, 0));
    if at + 28 <= u < at + 32 {
        let id = seq![s.cyl, s.head, s.sector, s.size_code];
        let i = u - at - 28;
        assert(units[at + 28 + i] == Unit::Byte(id[i]));
    } else if at + 72 <= u < at + 72 + n {
        let i = u - at - 72;
        assert(units[at + 72 + i] == Unit::Byte(s.data[i]));
    }
}

/// Nothing in a track breaks the rule on what follows a sync mark.
proof fn lemma_track_marks_follow(track: Seq<SectorImage>)
    ensures
        marks_follow(track_units(track)),
        track_units(track).len() > 0 ==> track_units(track).last() is Byte,
    decreases track.len(),
{
    if track.len() > 0 {
        let before = track_units(track.drop_last());
        let s = track.last();
        let units = track_units(track);
        let at = before.len() as int;
        lemma_track_marks_follow(track.drop_last());
        assert(sector_units(s).len() == block_len(s.data.len())) by {
            lemma_block_layout(s);
        }
        assert(units.subrange(at, units.len() as int) =~= sector_units(s));
        assert(block_facts(units, at, s)) by {
            lemma_block_facts(units, at, s);
        }
        assert forall|u: int|
            0 <= u && u + 1 < units.len() && (#[trigger] units[u]) is Sync implies match units[u
            + 1] {
            Unit::Sync => true,
            Unit::Byte(b) => bit_of(b, 0),
        } by {
            if u < at {
                assert(units[u] == before[u]);
                if u + 1 < at {
                    assert(units[u + 1] == before[u + 1]);
                }
            } else {
                lemma_block_marks_follow(units, at, s, u);
            }
        }
        lemma_block_marks_follow(units, at, s, units.len() - 1);
    }
}

/// The sectors of `track`, as they decode.
pub open spec fn decoded_track(track: Seq<SectorImage>) -> Seq<SectorView> {
    Seq::new(track.len(), |i: int| decoded(track[i]))
}

/// Whether `d` is what stands in `cells` from cell `off` on.
pub open spec fn part_of(d: Seq<bool>, cells: Seq<bool>, off: int) -> bool {
    0 <= off && off + d.len() <= cells.len() && d == cells.subrange(off, off + d.len())
}

proof fn lemma_part_byte(d: Seq<bool>, cells: Seq<bool>, off: int, p: int)
    requires
        part_of(d, cells, off),
        0 <= p,
        p + 16 <= d.len(),
    ensures
        byte_at(d, p) == byte_at(cells, p + off),
{
    assert(data_cells(d, p) =~= data_cells(cells, p + off));
}

proof fn lemma_part_bytes(d: Seq<bool>, cells: Seq<bool>, off: int, p: int, n: nat)
    requires
        part_of(d, cells, off),
        0 <= p,
        p + 16 * n <= d.len(),
    ensures
        bytes_at(d, p, n) == bytes_at(cells, p + off, n),
{
    assert forall|i: int| 0 <= i < n implies bytes_at(d, p, n)[i] == bytes_at(
        cells,
        p + off,
        n,
    )[i] by {
        lemma_part_byte(d, cells, off, p + 16 * i);
    }
    assert(bytes_at(d, p, n) =~= bytes_at(cells, p + off, n));
}

/// The run as it is met in a part that starts at cell `off`.
spec fn shift_run(run: Run, off: int) -> Run {
    Run { start: run.start - off, count: run.count }
}

spec fn shift_runs(runs: Seq<Run>, off: int) -> Seq<Run> {
    runs.map_values(|r: Run| shift_run(r, off))
}

spec fn shift_syncs(syncs: Seq<int>, off: int) -> Seq<int> {
    syncs.map_values(|p: int| p - off)
}

/// A run says in a part what it says in the whole, if its body lies in the part.
proof fn lemma_part_run(
    d: Seq<bool>,
    cells: Seq<bool>,
    off: int,
    st: Progress,
    run: Run,
    size: nat,
)
    requires
        part_of(d, cells, off),
        off <= run.start,
        run.count >= 0,
        run.start + run.count * 16 + 16 * (size + 1) <= off + d.len(),
        ({
            let id = match st.pending {
                Some(id) => id,
                None => super::missing_id(),
            };
            if byte_at(cells, run.start + run.count * 16) == IDAM {
                6 <= size
            } else {
                sector_size(id.size_code) + 2 <= size
            }
        }),
    ensures
        take_run(d, st, shift_run(run, off)) == take_run(cells, st, run),
{
    let mark_pos = run.start + run.count * 16;
    let p = mark_pos - off;
    lemma_part_byte(d, cells, off, p);
    let id = match st.pending {
        Some(id) => id,
        None => super::missing_id(),
    };
    let n = (sector_size(id.size_code) + 2) as nat;
    if byte_at(cells, mark_pos) == IDAM {
        lemma_part_bytes(d, cells, off, p + 16, 6);
    } else {
        lemma_part_bytes(d, cells, off, p + 16, n);
    }
}

/// A scan of a part finds the marks of the whole, if none lies outside.
proof fn lemma_part_scan(d: Seq<bool>, cells: Seq<bool>, off: int, i: int)
    requires
        part_of(d, cells, off),
        0 <= i,
        forall|p: int| off + d.len() < p + 16 ==> !#[trigger] sync_at(cells, p),
    ensures
        syncs_from(d, i) == shift_syncs(syncs_from(cells, i + off), off),
    decreases d.len() - i,
{
    if i + 16 > d.len() {
        let n = cells.len() as int;
        if i + off <= n {
            assert forall|k: int| i + off <= k < n implies !#[trigger] sync_at(cells, k) by {
                assert(off + d.len() < k + 16);
            }
            lemma_scan_skips(cells, i + off, n);
        }
        assert(syncs_from(cells, i + off) =~= Seq::<int>::empty());
        assert(shift_syncs(Seq::<int>::empty(), off) =~= Seq::<int>::empty());
    } else {
        assert(d.subrange(i, i + 16) =~= cells.subrange(i + off, i + off + 16));
        if sync_at(d, i) {
            lemma_part_scan(d, cells, off, i + 16);
            let rest = syncs_from(cells, i + off + 16);
            assert(shift_syncs(seq![i + off] + rest, off) =~= seq![i] + shift_syncs(rest, off));
        } else {
            lemma_part_scan(d, cells, off, i + 1);
        }
    }
}

proof fn lemma_shift_runs(syncs: Seq<int>, off: int)
    ensures
        runs_of(shift_syncs(syncs, off)) == shift_runs(runs_of(syncs), off),
    decreases syncs.len(),
{
    let t = shift_syncs(syncs, off);
    if syncs.len() == 0 {
        assert(t =~= Seq::<int>::empty());
        assert(shift_runs(Seq::<Run>::empty(), off) =~= Seq::<Run>::empty());
    } else {
        lemma_shift_runs(syncs.drop_last(), off);
        assert(t.drop_last() =~= shift_syncs(syncs.drop_last(), off));
        let r = runs_of(syncs.drop_last());
        let s = syncs.last();
        assert(add_sync(shift_runs(r, off), s - off) =~= shift_runs(add_sync(r, s), off));
    }
}

/// The runs of the first sectors of a track decode to those sectors, also where
/// only the part `d` of the track is there: at most the gap before the first ID
/// mark and the gap behind the last data mark may be missing.
#[verifier::rlimit(60)]
#[verifier::spinoff_prover]
proof fn lemma_track_decodes(
    d: Seq<bool>,
    cells: Seq<bool>,
    off: int,
    units: Seq<Unit>,
    track: Seq<SectorImage>,
    rest: Seq<Unit>,
)
    requires
        units == track_units(track) + rest,
        well_encoded(cells, units),
        part_of(d, cells, off),
        off <= 16 * 24,
        16 * track_units(track).len() <= off + d.len() + 16 * 24,
        forall|i: int| 0 <= i < track.len() ==> valid_image(#[trigger] track[i]),
    ensures
        ({
            let m = track_units(track).len() as int;
            let r = runs_of(syncs_before(units, m));
            &&& r.len() > 0 ==> r.last().start + r.last().count * 16 <= 16 * m
            &&& take_runs(d, shift_runs(r, off)) == Some(
                Progress { pending: None, sectors: decoded_track(track) },
            )
        }),
    decreases track.len(),
{
    if track.len() == 0 {
        assert(decoded_track(track) =~= Seq::<SectorView>::empty());
        assert(shift_runs(Seq::<Run>::empty(), off) =~= Seq::<Run>::empty());
    } else {
        let head = track.drop_last();
        let s = track.last();
        let at = track_units(head).len() as int;
        let v = sector_units(s);
        let n = s.data.len();
        assert(track_units(head) + (v + rest) =~= units);
        assert forall|i: int| 0 <= i < head.len() implies valid_image(#[trigger] head[i]) by {
            assert(head[i] == track[i]);
        }
        assert(valid_image(track[track.len() - 1]));
        lemma_track_decodes(d, cells, off, units, head, v + rest);
        assert(v.len() == block_len(n)) by {
            lemma_block_layout(s);
        }
        assert(units.subrange(at, at + block_len(n)) =~= v);
        assert(block_facts(units, at, s)) by {
            lemma_block_facts(units, at, s);
        }
        lemma_block_runs(units, at, s);
        let r0 = runs_of(syncs_before(units, at));
        let a = Run { start: 16 * (at + 24), count: 3 };
        let b = Run { start: 16 * (at + 68), count: 3 };
        let st = Progress { pending: None, sectors: decoded_track(head) };
        let id = SectorId {
            cyl: s.cyl,
            head: s.head,
            sector: s.sector,
            size_code: s.size_code,
            crc_ok: true,
        };
        let mid = Progress { pending: Some(id), sectors: st.sectors };
        lemma_block_decodes(cells, units, at, s, st);
        assert(byte_at(cells, a.start + a.count * 16) == IDAM) by {
            assert(a.start + a.count * 16 == 16 * (at + 27));
            lemma_byte_unit(cells, units, at + 27);
        }
        lemma_part_run(d, cells, off, st, a, 6);
        assert(byte_at(cells, b.start + b.count * 16) == DAM) by {
            assert(b.start + b.count * 16 == 16 * (at + 71));
            lemma_byte_unit(cells, units, at + 71);
        }
        lemma_part_run(d, cells, off, mid, b, n + 2);
        let t0 = shift_runs(r0, off);
        let ta = shift_run(a, off);
        let tb = shift_run(b, off);
        assert(shift_runs(r0.push(a).push(b), off) =~= t0.push(ta).push(tb));
        assert(t0.push(ta).push(tb).drop_last() =~= t0.push(ta));
        assert(t0.push(ta).drop_last() =~= t0);
        assert(decoded_track(head).push(decoded(s)) =~= decoded_track(track));
        assert(take_runs(d, t0.push(ta)) == Some(mid));
    }
}

/// A track of any number of sectors decodes to exactly those sectors, in order,
/// with intact data and both CRCs right, even if up to 24 bytes' worth of cells is
/// missing at either end.
pub proof fn law_part_round_trip(track: Seq<SectorImage>, d: Seq<bool>, off: int)
    requires
        forall|i: int| 0 <= i < track.len() ==> valid_image(#[trigger] track[i]),
        part_of(d, track_cells(track), off),
        off <= 16 * 24,
        track_cells(track).len() <= off + d.len() + 16 * 24,
    ensures
        sectors_in(d) == Some(decoded_track(track)),
{
    let units = track_units(track);
    let cells = track_cells(track);
    lemma_track_units(track);
    lemma_well_encoded(units);
    lemma_track_marks_follow(track);
    lemma_scan(cells, units, 0);
    assert(syncs_before(units, 0) + syncs_from(cells, 0) =~= syncs_from(cells, 0));
    assert(units + Seq::<Unit>::empty() =~= units);
    lemma_track_decodes(d, cells, off, units, track, Seq::empty());
    lemma_no_syncs_at_ends(track);
    assert forall|p: int| off + d.len() < p + 16 implies !#[trigger] sync_at(cells, p) by {
        if p + 16 <= cells.len() && 0 <= p {
            lemma_sync_only_at_marks(cells, units, p);
            let u = p / 16;
            if p % 16 == 0 {
                assert(units[u] is Byte);
            }
        }
    }
    assert forall|k: int| 0 <= k < off implies !#[trigger] sync_at(cells, k) by {
        if k + 16 <= cells.len() {
            lemma_sync_only_at_marks(cells, units, k);
            let u = k / 16;
            if k % 16 == 0 {
                assert(units[u] is Byte);
            }
        }
    }
    lemma_scan_skips(cells, 0, off);
    lemma_part_scan(d, cells, off, 0);
    lemma_shift_runs(syncs_from(cells, 0), off);
}

/// The first and the last 24 units of a track are gap.
proof fn lemma_no_syncs_at_ends(track: Seq<SectorImage>)
    ensures
        ({
            let units = track_units(track);
            &&& forall|u: int| 0 <= u < 24 && u < units.len() ==> (#[trigger] units[u]) is Byte
            &&& forall|u: int|
                0 <= u < units.len() && units.len() - 24 <= u ==> (#[trigger] units[u]) is Byte
        }),
    decreases track.len(),
{
    if track.len() > 0 {
        let units = track_units(track);
        let head = track.drop_last();
        let before = track_units(head);
        let s = track.last();
        let v = sector_units(s);
        lemma_no_syncs_at_ends(head);
        lemma_block_layout(s);
        assert forall|u: int| 0 <= u < 24 && u < units.len() implies (#[trigger] units[u]) is Byte by {
            if u < before.len() {
                assert(units[u] == before[u]);
            } else {
                assert(units[u] == v[u - before.len()]);
            }
        }
        assert forall|u: int| 0 <= u < units.len() && units.len() - 24 <= u implies (
        #[trigger] units[u]) is Byte by {
            assert(units[u] == v[u - before.len()]);
        }
    }
}

/// A track of any number of sectors decodes to exactly those sectors, in order,
/// with intact data and both CRCs right.
pub proof fn law_track_round_trip(track: Seq<SectorImage>)
    requires
        forall|i: int| 0 <= i < track.len() ==> valid_image(#[trigger] track[i]),
    ensures
        sectors_in(track_cells(track)) == Some(decoded_track(track)),
{
    let cells = track_cells(track);
    assert(cells.subrange(0, cells.len() as int) =~= cells);
    law_part_round_trip(track, cells, 0);
}

/// One sector decodes to exactly that sector.
pub proof fn law_sector_round_trip(s: SectorImage)
    requires
        valid_image(s),
    ensures
        sectors_in(sector_cells(s)) == Some(seq![decoded(s)]),
{
    let track = seq![s];
    assert(track.drop_last() =~= Seq::<SectorImage>::empty());
    assert(track_cells(track.drop_last()) =~= Seq::<bool>::empty());
    assert(track_cells(track) =~= sector_cells(s));
    law_track_round_trip(track);
    assert(decoded_track(track) =~= seq![decoded(s)]);
}

} // verus!
