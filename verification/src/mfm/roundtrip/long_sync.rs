//! A mark may have more than three sync marks before it.

use super::decoded;
use super::law_sector_round_trip;
use super::lemma_block_layout;
use super::lemma_byte_unit;
use super::lemma_byte_units;
use super::lemma_no_syncs;
use super::lemma_runs_push;
use super::lemma_scan;
use super::lemma_well_encoded;
use super::marks_follow;
use super::syncs_before;
use super::valid_image;
use super::well_encoded;
use crate::mfm::bytes_at;
use crate::mfm::crc_input;
use crate::mfm::crc_matches;
use crate::mfm::crc_of;
use crate::mfm::encode::add_units;
use crate::mfm::encode::bit_of;
use crate::mfm::encode::byte_cells;
use crate::mfm::encode::last_cell;
use crate::mfm::encode::lemma_add_units_concat;
use crate::mfm::encode::sector_cells;
use crate::mfm::encode::sector_units;
use crate::mfm::encode::SectorImage;
use crate::mfm::encode::Unit;
use crate::mfm::id_at;
use crate::mfm::runs_of;
use crate::mfm::sector_at;
use crate::mfm::sector_size;
use crate::mfm::sectors_in;
use crate::mfm::sync_cells;
use crate::mfm::syncs_from;
use crate::mfm::take_run;
use crate::mfm::take_runs;
use crate::mfm::Progress;
use crate::mfm::Run;
use crate::mfm::SectorId;
use crate::mfm::SectorView;
use crate::mfm::DAM;
use crate::mfm::IDAM;
use vstd::prelude::*;

verus! {

/// The cells of `k` sync marks.
pub open spec fn more_syncs(k: nat) -> Seq<bool>
    decreases k,
{
    if k == 0 {
        Seq::empty()
    } else {
        more_syncs((k - 1) as nat) + sync_cells()
    }
}

/// `cells` with `k` further sync marks before cell `p`.
pub open spec fn with_syncs(cells: Seq<bool>, p: int, k: nat) -> Seq<bool> {
    cells.take(p) + more_syncs(k) + cells.skip(p)
}

/// Where the sync marks before the ID mark of a sector begin.
pub open spec fn id_syncs() -> int {
    384
}

/// Where the sync marks before the data mark of a sector begin.
pub open spec fn data_syncs() -> int {
    1088
}

spec fn sync_units(k: nat) -> Seq<Unit> {
    Seq::new(k, |i: int| Unit::Sync)
}

/// The units of a sector with `a` further sync marks before the ID mark and `b` before
/// the data mark.
spec fn long_units(s: SectorImage, a: nat, b: nat) -> Seq<Unit> {
    let v = sector_units(s);
    v.take(24) + sync_units(a) + v.subrange(24, 68) + sync_units(b) + v.skip(68)
}

/// Where the parts of such a sector stand.
#[verifier::opaque]
spec fn long_facts(units: Seq<Unit>, s: SectorImage, a: int, b: int) -> bool {
    let n = s.data.len() as int;
    let id = seq![s.cyl, s.head, s.sector, s.size_code];
    let c = crc_of(0xFFFF, crc_input(3, IDAM, id));
    let d = crc_of(0xFFFF, crc_input(3, DAM, s.data));
    &&& units.len() == 98 + a + b + n
    &&& forall|i: int| 0 <= i < 24 ==> (#[trigger] units[i]) is Byte
    &&& forall|i: int| 24 <= i < 27 + a ==> (#[trigger] units[i]) is Sync
    &&& units[27 + a] == Unit::Byte(IDAM)
    &&& forall|i: int| 0 <= i < 4 ==> units[28 + a + i] == Unit::Byte(#[trigger] id[i])
    &&& units[32 + a] == Unit::Byte((c / 256) as u8)
    &&& units[33 + a] == Unit::Byte((c % 256) as u8)
    &&& forall|i: int| 34 + a <= i < 68 + a ==> (#[trigger] units[i]) is Byte
    &&& forall|i: int| 68 + a <= i < 71 + a + b ==> (#[trigger] units[i]) is Sync
    &&& units[71 + a + b] == Unit::Byte(DAM)
    &&& forall|i: int| 0 <= i < n ==> units[72 + a + b + i] == Unit::Byte(#[trigger] s.data[i])
    &&& units[72 + a + b + n] == Unit::Byte((d / 256) as u8)
    &&& units[73 + a + b + n] == Unit::Byte((d % 256) as u8)
    &&& forall|i: int| 74 + a + b + n <= i < 98 + a + b + n ==> (#[trigger] units[i]) is Byte
}

/// Where each unit of such a sector comes from.
proof fn lemma_long_unit(s: SectorImage, a: nat, b: nat, i: int)
    requires
        0 <= i < long_units(s, a, b).len(),
    ensures
        long_units(s, a, b).len() == 98 + a + b + s.data.len(),
        long_units(s, a, b)[i] == (if i < 24 {
            sector_units(s)[i]
        } else if i < 24 + a {
            Unit::Sync
        } else if i < 68 + a {
            sector_units(s)[i - a]
        } else if i < 68 + a + b {
            Unit::Sync
        } else {
            sector_units(s)[i - a - b]
        }),
{
    lemma_block_layout(s);
}

proof fn lemma_long_facts(s: SectorImage, a: nat, b: nat)
    ensures
        long_facts(long_units(s, a, b), s, a as int, b as int),
{
    reveal(long_facts);
    let units = long_units(s, a, b);
    let v = sector_units(s);
    let n = s.data.len() as int;
    let id = seq![s.cyl, s.head, s.sector, s.size_code];
    lemma_block_layout(s);
    assert(units.len() == 98 + a + b + n);
    assert forall|i: int| 0 <= i < 24 implies (#[trigger] units[i]) is Byte by {
        lemma_long_unit(s, a, b, i);
    }
    assert forall|i: int| 24 <= i < 27 + a implies (#[trigger] units[i]) is Sync by {
        lemma_long_unit(s, a, b, i);
        assert(v[24] is Sync && v[25] is Sync && v[26] is Sync);
    }
    lemma_long_unit(s, a, b, 27 + a as int);
    assert forall|i: int| 0 <= i < 4 implies units[28 + a + i] == Unit::Byte(
        #[trigger] id[i],
    ) by {
        lemma_long_unit(s, a, b, 28 + a + i);
        assert(v[28 + i] == Unit::Byte(id[i]));
    }
    lemma_long_unit(s, a, b, 32 + a as int);
    lemma_long_unit(s, a, b, 33 + a as int);
    assert forall|i: int| 34 + a <= i < 68 + a implies (#[trigger] units[i]) is Byte by {
        lemma_long_unit(s, a, b, i);
        assert(v[i - a] is Byte);
    }
    assert forall|i: int| 68 + a <= i < 71 + a + b implies (#[trigger] units[i]) is Sync by {
        lemma_long_unit(s, a, b, i);
        assert(v[68] is Sync && v[69] is Sync && v[70] is Sync);
    }
    lemma_long_unit(s, a, b, 71 + a as int + b);
    assert forall|i: int| 0 <= i < n implies units[72 + a + b + i] == Unit::Byte(
        #[trigger] s.data[i],
    ) by {
        lemma_long_unit(s, a, b, 72 + a + b + i);
        assert(v[72 + i] == Unit::Byte(s.data[i]));
    }
    lemma_long_unit(s, a, b, 72 + a + b + n);
    lemma_long_unit(s, a, b, 73 + a + b + n);
    assert forall|i: int| 74 + a + b + n <= i < 98 + a + b + n implies (
    #[trigger] units[i]) is Byte by {
        lemma_long_unit(s, a, b, i);
        assert(v[i - a - b] == Unit::Byte(0x4E));
    }
}

/// `j` sync units from unit `m` on are one run.
pub(super) proof fn lemma_sync_run(units: Seq<Unit>, m: int, j: int)
    requires
        0 <= m,
        1 <= j,
        m + j <= units.len(),
        forall|i: int| m <= i < m + j ==> (#[trigger] units[i]) is Sync,
        ({
            let r = runs_of(syncs_before(units, m));
            r.len() > 0 ==> r.last().start + r.last().count * 16 < 16 * m
        }),
    ensures
        runs_of(syncs_before(units, m + j)) == runs_of(syncs_before(units, m)).push(
            Run { start: 16 * m, count: j },
        ),
    decreases j,
{
    let r = runs_of(syncs_before(units, m));
    let x = 16 * (m + j - 1);
    assert(units[m + j - 1] is Sync);
    assert(syncs_before(units, m + j) == syncs_before(units, m + j - 1).push(x));
    lemma_runs_push(syncs_before(units, m + j - 1), x);
    if j > 1 {
        lemma_sync_run(units, m, j - 1);
        assert(r.push(Run { start: 16 * m, count: j - 1 }).drop_last() =~= r);
    }
}

/// The runs of such a sector.
proof fn lemma_long_runs(units: Seq<Unit>, s: SectorImage, a: int, b: int)
    requires
        0 <= a,
        0 <= b,
        long_facts(units, s, a, b),
    ensures
        runs_of(syncs_before(units, units.len() as int)) == seq![
            Run { start: id_syncs(), count: 3 + a },
            Run { start: 16 * (68 + a), count: 3 + b },
        ],
{
    reveal(long_facts);
    let n = s.data.len() as int;
    let id = seq![s.cyl, s.head, s.sector, s.size_code];
    lemma_no_syncs(units, 0, 24);
    assert(syncs_before(units, 24) =~= Seq::<int>::empty());
    lemma_sync_run(units, 24, 3 + a);
    let r1 = seq![Run { start: id_syncs(), count: 3 + a }];
    assert(Seq::<Run>::empty().push(Run { start: id_syncs(), count: 3 + a }) =~= r1);
    assert forall|i: int| 27 + a <= i < 68 + a implies (#[trigger] units[i]) is Byte by {
        if 28 + a <= i < 32 + a {
            assert(units[28 + a + (i - 28 - a)] == Unit::Byte(id[i - 28 - a]));
        }
    }
    lemma_no_syncs(units, 27 + a, 68 + a);
    lemma_sync_run(units, 68 + a, 3 + b);
    assert forall|i: int| 71 + a + b <= i < units.len() implies (#[trigger] units[i]) is Byte by {
        if 72 + a + b <= i < 72 + a + b + n {
            assert(units[72 + a + b + (i - 72 - a - b)] == Unit::Byte(s.data[i - 72 - a - b]));
        }
    }
    lemma_no_syncs(units, 71 + a + b, units.len() as int);
    assert(r1.push(Run { start: 16 * (68 + a), count: 3 + b }) =~= seq![
        Run { start: id_syncs(), count: 3 + a },
        Run { start: 16 * (68 + a), count: 3 + b },
    ]);
}

/// Nothing in such a sector breaks the rule on what follows a sync mark.
proof fn lemma_long_marks_follow(units: Seq<Unit>, s: SectorImage, a: int, b: int)
    requires
        0 <= a,
        0 <= b,
        long_facts(units, s, a, b),
    ensures
        marks_follow(units),
{
    reveal(long_facts);
    let n = s.data.len() as int;
    let id = seq![s.cyl, s.head, s.sector, s.size_code];
    assert((0xFEu8 >> 7u8) & 1 == 1 && (0xFBu8 >> 7u8) & 1 == 1) by (bit_vector);
    assert(bit_of(IDAM, 0) && bit_of(DAM, 0));
    assert forall|u: int|
        0 <= u && u + 1 < units.len() && (#[trigger] units[u]) is Sync implies match units[u + 1] {
        Unit::Sync => true,
        Unit::Byte(x) => bit_of(x, 0),
    } by {
        if 28 + a <= u < 32 + a {
            assert(units[28 + a + (u - 28 - a)] == Unit::Byte(id[u - 28 - a]));
        } else if 72 + a + b <= u < 72 + a + b + n {
            assert(units[72 + a + b + (u - 72 - a - b)] == Unit::Byte(s.data[u - 72 - a - b]));
        } else if u < 24 {
        } else if u + 1 < 27 + a {
            assert(units[u + 1] is Sync);
        } else if u + 1 == 27 + a {
        } else if 68 + a <= u && u + 1 < 71 + a + b {
            assert(units[u + 1] is Sync);
        }
    }
}

/// Both marks of such a sector decode to that sector: the CRC covers three sync marks,
/// however many there are.
proof fn lemma_long_decodes(cells: Seq<bool>, units: Seq<Unit>, s: SectorImage, a: int, b: int)
    requires
        0 <= a,
        0 <= b,
        well_encoded(cells, units),
        long_facts(units, s, a, b),
        valid_image(s),
    ensures
        ({
            let id = SectorId {
                cyl: s.cyl,
                head: s.head,
                sector: s.sector,
                size_code: s.size_code,
                crc_ok: true,
            };
            let st = Progress { pending: None, sectors: Seq::<SectorView>::empty() };
            let mid = Progress { pending: Some(id), sectors: st.sectors };
            &&& take_run(cells, st, Run { start: id_syncs(), count: 3 + a }) == Some(mid)
            &&& take_run(cells, mid, Run { start: 16 * (68 + a), count: 3 + b }) == Some(
                Progress { pending: None, sectors: st.sectors.push(decoded(s)) },
            )
        }),
{
    reveal(long_facts);
    let n = s.data.len() as int;
    let idb = seq![s.cyl, s.head, s.sector, s.size_code];
    let c = crc_of(0xFFFF, crc_input(3, IDAM, idb));
    let d = crc_of(0xFFFF, crc_input(3, DAM, s.data));
    let id = SectorId {
        cyl: s.cyl,
        head: s.head,
        sector: s.sector,
        size_code: s.size_code,
        crc_ok: true,
    };
    let st = Progress { pending: None, sectors: Seq::<SectorView>::empty() };
    let mid = Progress { pending: Some(id), sectors: st.sectors };
    assert(crc_input(3 + a, IDAM, idb) =~= crc_input(3, IDAM, idb));
    assert(crc_input(3 + b, DAM, s.data) =~= crc_input(3, DAM, s.data));
    let body = idb + seq![(c / 256) as u8, (c % 256) as u8];
    assert forall|i: int| 0 <= i < body.len() implies #[trigger] units[28 + a + i] == Unit::Byte(
        body[i],
    ) by {
        if i < 4 {
            assert(Unit::Byte(idb[i]) == units[28 + a + i]);
        }
    }
    lemma_byte_unit(cells, units, 27 + a);
    lemma_byte_units(cells, units, 28 + a, body);
    let pos = id_syncs() + (3 + a) * 16;
    assert(pos == 16 * (27 + a));
    assert(pos + 16 == 16 * (28 + a));
    assert(bytes_at(cells, pos + 16, 6) == body);
    assert(body.take(4) =~= idb);
    assert(c == ((c / 256) as u8) * 256 + (c % 256) as u8);
    assert(crc_matches(3 + a, IDAM, idb, body[4], body[5]));
    assert(id_at(cells, pos, 3 + a) == id);
    let load = s.data + seq![(d / 256) as u8, (d % 256) as u8];
    assert forall|i: int| 0 <= i < load.len() implies #[trigger] units[72 + a + b + i]
        == Unit::Byte(load[i]) by {
        if i < n {
            assert(Unit::Byte(s.data[i]) == units[72 + a + b + i]);
        }
    }
    lemma_byte_unit(cells, units, 71 + a + b);
    lemma_byte_units(cells, units, 72 + a + b, load);
    let dpos = 16 * (68 + a) + (3 + b) * 16;
    assert(dpos == 16 * (71 + a + b));
    assert(dpos + 16 == 16 * (72 + a + b));
    assert(load.len() == sector_size(s.size_code) + 2);
    assert(bytes_at(cells, dpos + 16, (n + 2) as nat) == load);
    assert(load.take(n) =~= s.data);
    assert(d == ((d / 256) as u8) * 256 + (d % 256) as u8);
    assert(crc_matches(3 + b, DAM, s.data, load[n], load[n + 1]));
    assert(sector_at(cells, dpos, 3 + b, DAM, id) == decoded(s));
}

/// What the scan and the two marks of such a sector give.
proof fn lemma_long_shape(s: SectorImage, a: nat, b: nat)
    ensures
        marks_follow(long_units(s, a, b)),
        runs_of(syncs_before(long_units(s, a, b), long_units(s, a, b).len() as int)) == seq![
            Run { start: id_syncs(), count: 3 + a as int },
            Run { start: 16 * (68 + a as int), count: 3 + b as int },
        ],
{
    let units = long_units(s, a, b);
    lemma_long_facts(s, a, b);
    lemma_long_marks_follow(units, s, a as int, b as int);
    lemma_long_runs(units, s, a as int, b as int);
}

proof fn lemma_long_outcome(cells: Seq<bool>, s: SectorImage, a: nat, b: nat)
    requires
        well_encoded(cells, long_units(s, a, b)),
        valid_image(s),
    ensures
        ({
            let st = Progress { pending: None, sectors: Seq::<SectorView>::empty() };
            let x = Run { start: id_syncs(), count: 3 + a as int };
            let y = Run { start: 16 * (68 + a as int), count: 3 + b as int };
            &&& take_run(cells, st, x) matches Some(mid) && take_run(cells, mid, y) == Some(
                Progress { pending: None, sectors: st.sectors.push(decoded(s)) },
            )
        }),
{
    lemma_long_facts(s, a, b);
    lemma_long_decodes(cells, long_units(s, a, b), s, a as int, b as int);
}

proof fn lemma_long_sector(s: SectorImage, a: nat, b: nat)
    requires
        valid_image(s),
    ensures
        sectors_in(add_units(Seq::empty(), long_units(s, a, b))) == Some(seq![decoded(s)]),
{
    let units = long_units(s, a, b);
    let cells = add_units(Seq::empty(), units);
    lemma_well_encoded(units);
    lemma_long_shape(s, a, b);
    lemma_scan(cells, units, 0);
    assert(syncs_before(units, 0) + syncs_from(cells, 0) =~= syncs_from(cells, 0));
    lemma_long_outcome(cells, s, a, b);
    let x = Run { start: id_syncs(), count: 3 + a as int };
    let y = Run { start: 16 * (68 + a as int), count: 3 + b as int };
    let st = Progress { pending: None, sectors: Seq::<SectorView>::empty() };
    let end = Progress { pending: None, sectors: st.sectors.push(decoded(s)) };
    assert(take_runs(cells, seq![x, y]) == Some(end)) by {
        lemma_two_runs(cells, x, y);
    }
    assert(end.sectors =~= seq![decoded(s)]);
}

/// Two runs are taken one after the other.
proof fn lemma_two_runs(cells: Seq<bool>, x: Run, y: Run)
    ensures
        take_runs(cells, seq![x, y]) == (match take_run(
            cells,
            Progress { pending: None, sectors: Seq::empty() },
            x,
        ) {
            Some(mid) => take_run(cells, mid, y),
            None => None,
        }),
{
    assert(seq![x, y].drop_last() =~= seq![x]);
    assert(seq![x].drop_last() =~= Seq::<Run>::empty());
    reveal_with_fuel(take_runs, 3);
}

/// Units that begin with a sync mark are written alike behind any cells.
proof fn lemma_add_after_sync(cells: Seq<bool>, units: Seq<Unit>)
    requires
        units.len() > 0,
        units[0] is Sync,
    ensures
        add_units(cells, units) == cells + add_units(Seq::empty(), units),
        add_units(Seq::empty(), units).len() > 0,
    decreases units.len(),
{
    let head = units.drop_last();
    if head.len() == 0 {
        assert(add_units(cells, head) == cells);
        assert(add_units(Seq::<bool>::empty(), head) == Seq::<bool>::empty());
        assert(Seq::<bool>::empty() + sync_cells() =~= sync_cells());
    } else {
        lemma_add_after_sync(cells, head);
        let a = add_units(Seq::<bool>::empty(), head);
        assert((cells + a).last() == a.last());
        match units.last() {
            Unit::Sync => {
                assert((cells + a) + sync_cells() =~= cells + (a + sync_cells()));
            },
            Unit::Byte(x) => {
                let m = byte_cells(x, last_cell(a));
                assert((cells + a) + m =~= cells + (a + m));
            },
        }
    }
}

proof fn lemma_add_sync_units(cells: Seq<bool>, k: nat)
    ensures
        add_units(cells, sync_units(k)) == cells + more_syncs(k),
    decreases k,
{
    if k == 0 {
        assert(cells + more_syncs(0) =~= cells);
    } else {
        let j = (k - 1) as nat;
        lemma_add_sync_units(cells, j);
        assert(sync_units(k).drop_last() =~= sync_units(j));
        assert((cells + more_syncs(j)) + sync_cells() =~= cells + (more_syncs(j) + sync_cells()));
    }
}

/// Further sync units before a sync unit are further sync cells before its cells.
proof fn lemma_insert_syncs(before: Seq<Unit>, behind: Seq<Unit>, k: nat)
    requires
        behind.len() > 0,
        behind[0] is Sync,
    ensures
        add_units(Seq::empty(), before + sync_units(k) + behind) == with_syncs(
            add_units(Seq::empty(), before + behind),
            16 * before.len() as int,
            k,
        ),
{
    let none = Seq::<bool>::empty();
    let p = add_units(none, before);
    let q = add_units(none, behind);
    lemma_well_encoded(before);
    lemma_add_units_concat(none, before, behind);
    lemma_add_after_sync(p, behind);
    lemma_add_units_concat(none, before, sync_units(k));
    lemma_add_sync_units(p, k);
    lemma_add_units_concat(none, before + sync_units(k), behind);
    lemma_add_after_sync(p + more_syncs(k), behind);
    assert((p + q).take(16 * before.len() as int) =~= p);
    assert((p + q).skip(16 * before.len() as int) =~= q);
}

/// However long a run of sync marks is, what it announces is read the same: a sector
/// with further sync marks before its ID mark or before its data mark decodes as it
/// does without them, with its data and both CRCs.
pub proof fn law_long_sync_run(s: SectorImage, k: nat)
    requires
        valid_image(s),
    ensures
        sectors_in(with_syncs(sector_cells(s), id_syncs(), k)) == sectors_in(sector_cells(s)),
        sectors_in(with_syncs(sector_cells(s), data_syncs(), k)) == sectors_in(sector_cells(s)),
{
    let v = sector_units(s);
    lemma_block_layout(s);
    law_sector_round_trip(s);
    lemma_long_sector(s, k, 0);
    lemma_long_sector(s, 0, k);
    assert(v.take(24) + v.skip(24) =~= v);
    lemma_insert_syncs(v.take(24), v.skip(24), k);
    assert(v.take(24) + sync_units(k) + v.skip(24) =~= long_units(s, k, 0));
    assert(v.take(68) + v.skip(68) =~= v);
    lemma_insert_syncs(v.take(68), v.skip(68), k);
    assert(v.take(68) + sync_units(k) + v.skip(68) =~= long_units(s, 0, k));
}

} // verus!
