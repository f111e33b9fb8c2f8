//! What the marks on a track say, whatever bytes they carry.
//!
//! A track is taken as it is written byte by byte: gaps, sync marks, a mark, and the
//! bytes behind it, damaged or not.

use super::lemma_block_layout;
use super::lemma_byte_unit;
use super::lemma_byte_units;
use super::lemma_no_syncs;
use super::lemma_scan;
use super::lemma_well_encoded;
use super::long_sync::lemma_sync_run;
use super::marks_follow;
use super::syncs_before;
use super::valid_image;
use super::well_encoded;
use crate::mfm::byte_at;
use crate::mfm::bytes_at;
use crate::mfm::crc_input;
use crate::mfm::crc_laws::law_crc_detects_burst;
use crate::mfm::crc_laws::law_crc_detects_byte;
use crate::mfm::crc_of;
use crate::mfm::encode::add_units;
use crate::mfm::encode::bit_of;
use crate::mfm::encode::byte_units;
use crate::mfm::encode::fill_units;
use crate::mfm::encode::mark_units;
use crate::mfm::encode::sector_cells;
use crate::mfm::encode::sector_units;
use crate::mfm::encode::SectorImage;
use crate::mfm::encode::Unit;
use crate::mfm::runs_of;
use crate::mfm::sector_size;
use crate::mfm::sectors_in;
use crate::mfm::syncs_from;
use crate::mfm::take_run;
use crate::mfm::take_runs;
use crate::mfm::Progress;
use crate::mfm::Run;
use crate::mfm::SectorId;
use crate::mfm::SectorView;
use vstd::prelude::*;

verus! {

/// A mark on a track: a gap, sync marks, the mark, and the bytes behind it.
pub struct Field {
    pub gap: Seq<u8>,
    pub syncs: nat,
    pub mark: u8,
    pub body: Seq<u8>,
}

/// The units of a mark.
pub open spec fn field_units(f: Field) -> Seq<Unit> {
    byte_units(f.gap) + Seq::new(f.syncs, |i: int| Unit::Sync) + seq![Unit::Byte(f.mark)]
        + byte_units(f.body)
}

/// The units of marks that follow one another.
pub open spec fn fields_units(fields: Seq<Field>) -> Seq<Unit>
    decreases fields.len(),
{
    if fields.len() == 0 {
        Seq::empty()
    } else {
        fields_units(fields.drop_last()) + field_units(fields.last())
    }
}

/// The cells of marks that follow one another.
pub open spec fn fields_cells(fields: Seq<Field>) -> Seq<bool> {
    add_units(Seq::empty(), fields_units(fields))
}

/// What the CRC of a mark covers before the bytes behind it: as many `A1` as there are
/// sync marks, three at most, and the mark.
pub open spec fn covered(f: Field) -> Seq<u8> {
    if f.syncs == 1 {
        seq![0xA1u8, f.mark]
    } else if f.syncs == 2 {
        seq![0xA1u8, 0xA1, f.mark]
    } else {
        seq![0xA1u8, 0xA1, 0xA1, f.mark]
    }
}

/// Whether all marks have a sync mark before them, and are told from one by their top
/// bit.
pub open spec fn marks_are_told(fields: Seq<Field>) -> bool {
    forall|i: int|
        0 <= i < fields.len() ==> (#[trigger] fields[i]).mark >= 0x80 && fields[i].syncs >= 1
}

proof fn lemma_top_bit(b: u8)
    requires
        b >= 0x80,
    ensures
        bit_of(b, 0),
{
    assert((b >> 7u8) & 1 == 1) by (bit_vector)
        requires
            b >= 0x80,
    ;
}

proof fn lemma_field_unit(f: Field, i: int)
    requires
        0 <= i < field_units(f).len(),
    ensures
        field_units(f).len() == f.gap.len() + f.syncs + 1 + f.body.len(),
        field_units(f)[i] == (if i < f.gap.len() {
            Unit::Byte(f.gap[i])
        } else if i < f.gap.len() + f.syncs {
            Unit::Sync
        } else if i == f.gap.len() + f.syncs {
            Unit::Byte(f.mark)
        } else {
            Unit::Byte(f.body[i - f.gap.len() - f.syncs - 1])
        }),
{
}

proof fn lemma_fields_follow(fields: Seq<Field>)
    requires
        marks_are_told(fields),
    ensures
        marks_follow(fields_units(fields)),
        fields_units(fields).len() > 0 ==> fields_units(fields).last() is Byte,
    decreases fields.len(),
{
    if fields.len() > 0 {
        let head = fields.drop_last();
        let f = fields.last();
        let before = fields_units(head);
        let units = fields_units(fields);
        let at = before.len() as int;
        assert(fields[fields.len() - 1].mark >= 0x80 && fields[fields.len() - 1].syncs >= 1);
        assert(marks_are_told(head)) by {
            assert forall|i: int| 0 <= i < head.len() implies (#[trigger] head[i]).mark >= 0x80
                && head[i].syncs >= 1 by {
                assert(head[i] == fields[i]);
            }
        }
        lemma_fields_follow(head);
        lemma_top_bit(f.mark);
        let v = field_units(f);
        assert(units == before + v);
        lemma_field_unit(f, v.len() - 1);
        assert forall|u: int|
            0 <= u && u + 1 < units.len() && (#[trigger] units[u]) is Sync implies match units[u
            + 1] {
            Unit::Sync => true,
            Unit::Byte(b) => bit_of(b, 0),
        } by {
            if u < at {
                assert(units[u] == before[u]);
                if u + 1 < at {
                    assert(units[u + 1] == before[u + 1]);
                }
            } else {
                lemma_field_unit(f, u - at);
                lemma_field_unit(f, u + 1 - at);
                assert(units[u] == v[u - at]);
                assert(units[u + 1] == v[u + 1 - at]);
            }
        }
    }
}

/// Where the sync marks of the last of the marks begin.
spec fn last_syncs(fields: Seq<Field>) -> int {
    16 * (fields_units(fields.drop_last()).len() as int + fields.last().gap.len())
}

/// The runs of the first marks, where `rest` stands behind them.
proof fn lemma_field_runs(units: Seq<Unit>, fields: Seq<Field>, rest: Seq<Unit>)
    requires
        units == fields_units(fields) + rest,
        marks_are_told(fields),
    ensures
        ({
            let m = fields_units(fields).len() as int;
            let r = runs_of(syncs_before(units, m));
            &&& r.len() == fields.len()
            &&& r.len() > 0 ==> r.last().start + r.last().count * 16 < 16 * m
            &&& fields.len() > 0 ==> r == runs_of(
                syncs_before(units, fields_units(fields.drop_last()).len() as int),
            ).push(Run { start: last_syncs(fields), count: fields.last().syncs as int })
        }),
    decreases fields.len(),
{
    if fields.len() > 0 {
        let head = fields.drop_last();
        let f = fields.last();
        let v = field_units(f);
        let at = fields_units(head).len() as int;
        let g = f.gap.len() as int;
        let k = f.syncs as int;
        let n = v.len() as int;
        assert(fields_units(head) + (v + rest) =~= units);
        assert(fields[fields.len() - 1].syncs >= 1);
        assert forall|i: int| 0 <= i < head.len() implies (#[trigger] head[i]).mark >= 0x80
            && head[i].syncs >= 1 by {
            assert(head[i] == fields[i]);
        }
        lemma_field_runs(units, head, v + rest);
        lemma_field_unit(f, 0);
        assert forall|i: int| 0 <= i < n implies #[trigger] units[at + i] == v[i] by {}
        assert forall|i: int| at <= i < at + g implies (#[trigger] units[i]) is Byte by {
            lemma_field_unit(f, i - at);
            assert(units[at + (i - at)] == v[i - at]);
        }
        lemma_no_syncs(units, at, at + g);
        assert forall|i: int| at + g <= i < at + g + k implies (#[trigger] units[i]) is Sync by {
            lemma_field_unit(f, i - at);
            assert(units[at + (i - at)] == v[i - at]);
        }
        lemma_sync_run(units, at + g, k);
        assert forall|i: int| at + g + k <= i < at + n implies (#[trigger] units[i]) is Byte by {
            lemma_field_unit(f, i - at);
            assert(units[at + (i - at)] == v[i - at]);
        }
        lemma_no_syncs(units, at + g + k, at + n);
    }
}

/// What a mark adds, where its bytes are all there.
spec fn take_field(st: Progress, f: Field) -> Option<Progress> {
    if f.mark == 0xFE {
        Some(
            Progress {
                pending: Some(
                    SectorId {
                        cyl: f.body[0],
                        head: f.body[1],
                        sector: f.body[2],
                        size_code: f.body[3],
                        crc_ok: crc_of(
                            0xFFFF,
                            covered(f) + f.body.take(4),
                        ) == f.body[4] * 256 + f.body[5],
                    },
                ),
                sectors: st.sectors,
            },
        )
    } else if f.mark == 0xFB || f.mark == 0xF8 {
        let id = match st.pending {
            Some(id) => id,
            None => SectorId { cyl: 0, head: 0, sector: 0, size_code: 2, crc_ok: false },
        };
        let n = sector_size(id.size_code) as int;
        Some(
            Progress {
                pending: None,
                sectors: st.sectors.push(
                    SectorView {
                        cyl: id.cyl,
                        head: id.head,
                        sector: id.sector,
                        size_code: id.size_code,
                        data: f.body.take(n),
                        id_crc_ok: id.crc_ok,
                        data_crc_ok: crc_of(
                            0xFFFF,
                            covered(f) + f.body.take(n),
                        ) == f.body[n] * 256 + f.body[n + 1],
                        deleted: f.mark == 0xF8,
                    },
                ),
            },
        )
    } else {
        Some(st)
    }
}

/// Whether the bytes that a mark announces stand behind it.
spec fn body_is_whole(st: Progress, f: Field) -> bool {
    if f.mark == 0xFE {
        f.body.len() >= 6
    } else if f.mark == 0xFB || f.mark == 0xF8 {
        match st.pending {
            Some(id) => id.size_code < 64 && f.body.len() >= sector_size(id.size_code) + 2,
            None => f.body.len() >= sector_size(2) + 2,
        }
    } else {
        true
    }
}

proof fn lemma_crc_input(mark: u8, body: Seq<u8>)
    ensures
        crc_input(3, mark, body) == seq![0xA1u8, 0xA1, 0xA1, mark] + body,
{
    assert(crc_input(3, mark, body) =~= seq![0xA1u8, 0xA1, 0xA1, mark] + body);
}

proof fn lemma_covered(f: Field, body: Seq<u8>)
    requires
        f.syncs >= 1,
    ensures
        crc_input(f.syncs as int, f.mark, body) == covered(f) + body,
{
    assert(crc_input(f.syncs as int, f.mark, body) =~= covered(f) + body);
}

/// A mark that stands at unit `at` says what its bytes say.
proof fn lemma_field_decodes(cells: Seq<bool>, units: Seq<Unit>, at: int, f: Field, st: Progress)
    requires
        well_encoded(cells, units),
        0 <= at,
        at + field_units(f).len() <= units.len(),
        forall|i: int| 0 <= i < field_units(f).len() ==> #[trigger] units[at + i] == field_units(
            f,
        )[i],
        body_is_whole(st, f),
        f.syncs >= 1,
    ensures
        take_run(cells, st, Run { start: 16 * (at + f.gap.len()), count: f.syncs as int })
            == take_field(st, f),
{
    let g = f.gap.len() as int;
    let k = f.syncs as int;
    let v = field_units(f);
    let b = at + g + k + 1;
    let pos = 16 * (at + g) + k * 16;
    lemma_field_unit(f, g + k);
    assert(v.len() == g + k + 1 + f.body.len());
    assert(units[at + (g + k)] == Unit::Byte(f.mark));
    lemma_byte_unit(cells, units, at + g + k);
    assert(pos == 16 * (at + g + k));
    assert(byte_at(cells, pos) == f.mark);
    assert(pos + 16 == 16 * b);
    assert forall|i: int| 0 <= i < f.body.len() implies #[trigger] units[b + i] == Unit::Byte(
        f.body[i],
    ) by {
        lemma_field_unit(f, g + k + 1 + i);
        assert(units[at + (g + k + 1 + i)] == v[g + k + 1 + i]);
    }
    if f.mark == 0xFE {
        let body = f.body.take(6);
        assert forall|i: int| 0 <= i < body.len() implies #[trigger] units[b + i] == Unit::Byte(
            body[i],
        ) by {
            assert(units[b + i] == Unit::Byte(f.body[i]));
        }
        lemma_byte_units(cells, units, b, body);
        assert(bytes_at(cells, pos + 16, 6) == body);
        assert(body.take(4) =~= f.body.take(4));
        lemma_covered(f, f.body.take(4));
    } else if f.mark == 0xFB || f.mark == 0xF8 {
        let id = match st.pending {
            Some(id) => id,
            None => crate::mfm::missing_id(),
        };
        let n = sector_size(id.size_code) as int;
        let body = f.body.take(n + 2);
        assert forall|i: int| 0 <= i < body.len() implies #[trigger] units[b + i] == Unit::Byte(
            body[i],
        ) by {
            assert(units[b + i] == Unit::Byte(f.body[i]));
        }
        lemma_byte_units(cells, units, b, body);
        assert(bytes_at(cells, pos + 16, (n + 2) as nat) == body);
        assert(body.take(n) =~= f.body.take(n));
        lemma_covered(f, f.body.take(n));
    }
}

spec fn take_fields(fields: Seq<Field>) -> Option<Progress>
    decreases fields.len(),
{
    if fields.len() == 0 {
        Some(Progress { pending: None, sectors: Seq::empty() })
    } else {
        match take_fields(fields.drop_last()) {
            Some(st) => if body_is_whole(st, fields.last()) {
                take_field(st, fields.last())
            } else {
                None
            },
            None => None,
        }
    }
}

proof fn lemma_fields_taken(cells: Seq<bool>, units: Seq<Unit>, fields: Seq<Field>, rest: Seq<Unit>)
    requires
        units == fields_units(fields) + rest,
        well_encoded(cells, units),
        take_fields(fields) is Some,
        marks_are_told(fields),
    ensures
        take_runs(cells, runs_of(syncs_before(units, fields_units(fields).len() as int)))
            == take_fields(fields),
    decreases fields.len(),
{
    lemma_field_runs(units, fields, rest);
    if fields.len() > 0 {
        let head = fields.drop_last();
        let f = fields.last();
        let v = field_units(f);
        let at = fields_units(head).len() as int;
        assert(fields_units(head) + (v + rest) =~= units);
        assert(fields[fields.len() - 1].syncs >= 1);
        assert forall|i: int| 0 <= i < head.len() implies (#[trigger] head[i]).mark >= 0x80
            && head[i].syncs >= 1 by {
            assert(head[i] == fields[i]);
        }
        lemma_fields_taken(cells, units, head, v + rest);
        let r0 = runs_of(syncs_before(units, at));
        let run = Run { start: last_syncs(fields), count: f.syncs as int };
        assert(r0.push(run).drop_last() =~= r0);
        let st = take_fields(head)->0;
        assert forall|i: int| 0 <= i < v.len() implies #[trigger] units[at + i] == v[i] by {}
        lemma_field_decodes(cells, units, at, f, st);
    }
}

proof fn lemma_fields_decode(fields: Seq<Field>)
    requires
        marks_are_told(fields),
        take_fields(fields) is Some,
    ensures
        sectors_in(fields_cells(fields)) == Some((take_fields(fields)->0).sectors),
{
    let units = fields_units(fields);
    let cells = fields_cells(fields);
    lemma_well_encoded(units);
    lemma_fields_follow(fields);
    lemma_scan(cells, units, 0);
    assert(syncs_before(units, 0) + syncs_from(cells, 0) =~= syncs_from(cells, 0));
    assert(units + Seq::<Unit>::empty() =~= units);
    lemma_fields_taken(cells, units, fields, Seq::empty());
}

/// A sector is what its two marks say, whatever gaps stand around them: the numbers of
/// the ID, the data, and for each mark whether the two bytes behind it, the high one
/// first, are the CRC of the sync marks, three at most, the mark and what it covers. A data mark `F8`
/// marks the data as deleted.
pub proof fn law_marks_say_sector(id: Field, data: Field)
    requires
        id.mark == 0xFE,
        id.syncs >= 1,
        id.body.len() >= 6,
        id.body[3] < 64,
        data.mark == 0xFB || data.mark == 0xF8,
        data.syncs >= 1,
        data.body.len() >= sector_size(id.body[3]) + 2,
    ensures
        ({
            let n = sector_size(id.body[3]) as int;
            sectors_in(fields_cells(seq![id, data])) == Some(
                seq![
                    SectorView {
                        cyl: id.body[0],
                        head: id.body[1],
                        sector: id.body[2],
                        size_code: id.body[3],
                        data: data.body.take(n),
                        id_crc_ok: crc_of(
                            0xFFFF,
                            covered(id) + id.body.take(4),
                        ) == id.body[4] * 256 + id.body[5],
                        data_crc_ok: crc_of(
                            0xFFFF,
                            covered(data) + data.body.take(n),
                        ) == data.body[n] * 256 + data.body[n + 1],
                        deleted: data.mark == 0xF8,
                    },
                ],
            )
        }),
{
    let fields = seq![id, data];
    lemma_two_fields(id, data);
    lemma_fields_decode(fields);
    let st = take_fields(fields)->0;
    assert(st.sectors =~= seq![st.sectors[0]]);
}

proof fn lemma_two_fields(a: Field, b: Field)
    ensures
        ({
            let none = Progress { pending: None, sectors: Seq::<SectorView>::empty() };
            let mid = take_field(none, a);
            body_is_whole(none, a) && body_is_whole(mid->0, b) ==> take_fields(seq![a, b])
                == take_field(mid->0, b)
        }),
{
    assert(seq![a, b].drop_last() =~= seq![a]);
    assert(seq![a].drop_last() =~= Seq::<Field>::empty());
    reveal_with_fuel(take_fields, 3);
}

proof fn lemma_three_fields(a: Field, b: Field, c: Field)
    ensures
        ({
            let none = Progress { pending: None, sectors: Seq::<SectorView>::empty() };
            let x = take_field(none, a)->0;
            let y = take_field(x, b)->0;
            body_is_whole(none, a) && body_is_whole(x, b) && body_is_whole(y, c) ==> take_fields(
                seq![a, b, c],
            ) == take_field(y, c)
        }),
{
    assert(seq![a, b, c].drop_last() =~= seq![a, b]);
    lemma_two_fields(a, b);
    reveal_with_fuel(take_fields, 2);
}

/// Of two IDs before a data mark the last counts.
pub proof fn law_last_id_counts(first: Field, id: Field, data: Field)
    requires
        first.mark == 0xFE,
        first.syncs >= 1,
        first.body.len() >= 6,
        id.mark == 0xFE,
        id.syncs >= 1,
        id.body.len() >= 6,
        id.body[3] < 64,
        data.mark == 0xFB || data.mark == 0xF8,
        data.syncs >= 1,
        data.body.len() >= sector_size(id.body[3]) + 2,
    ensures
        sectors_in(fields_cells(seq![first, id, data])) == sectors_in(
            fields_cells(seq![id, data]),
        ),
{
    lemma_two_fields(id, data);
    lemma_three_fields(first, id, data);
    lemma_fields_decode(seq![first, id, data]);
    lemma_fields_decode(seq![id, data]);
}

/// An ID serves one data mark: data without an ID of its own counts as 512 bytes of
/// sector 0 under an ID that is not right.
pub proof fn law_id_serves_once(id: Field, data: Field, more: Field)
    requires
        id.mark == 0xFE,
        id.syncs >= 1,
        id.body.len() >= 6,
        id.body[3] < 64,
        data.mark == 0xFB || data.mark == 0xF8,
        data.syncs >= 1,
        data.body.len() >= sector_size(id.body[3]) + 2,
        more.mark == 0xFB || more.mark == 0xF8,
        more.syncs >= 1,
        more.body.len() >= 514,
    ensures
        ({
            let s = sectors_in(fields_cells(seq![id, data, more]));
            let t = sectors_in(fields_cells(seq![id, data]));
            s matches Some(v) && t matches Some(w) && v.len() == 2 && w.len() == 1 && v[0] == w[0]
                && v[1] == (SectorView {
                cyl: 0,
                head: 0,
                sector: 0,
                size_code: 2,
                data: more.body.take(512),
                id_crc_ok: false,
                data_crc_ok: crc_of(
                    0xFFFF,
                    covered(more) + more.body.take(512),
                ) == more.body[512] * 256 + more.body[513],
                deleted: more.mark == 0xF8,
            })
        }),
{
    lemma_512();
    lemma_two_fields(id, data);
    lemma_three_fields(id, data, more);
    lemma_fields_decode(seq![id, data, more]);
    lemma_fields_decode(seq![id, data]);
}

proof fn lemma_512()
    ensures
        sector_size(2) == 512,
{
    vstd::arithmetic::power2::lemma2_to64();
}

/// Any other mark between an ID and its data changes nothing.
pub proof fn law_other_marks_are_skipped(id: Field, other: Field, data: Field)
    requires
        id.mark == 0xFE,
        id.syncs >= 1,
        id.body.len() >= 6,
        id.body[3] < 64,
        other.mark >= 0x80,
        other.syncs >= 1,
        other.mark != 0xFE && other.mark != 0xFB && other.mark != 0xF8,
        data.mark == 0xFB || data.mark == 0xF8,
        data.syncs >= 1,
        data.body.len() >= sector_size(id.body[3]) + 2,
    ensures
        sectors_in(fields_cells(seq![id, other, data])) == sectors_in(
            fields_cells(seq![id, data]),
        ),
{
    lemma_two_fields(id, data);
    lemma_three_fields(id, other, data);
    lemma_fields_decode(seq![id, other, data]);
    lemma_fields_decode(seq![id, data]);
}

/// The bytes of a number, the high one first.
spec fn two_bytes(v: u16) -> Seq<u8> {
    seq![(v / 256) as u8, (v % 256) as u8]
}

/// The two marks of a sector as it is written, with `bad` in place of its data.
spec fn id_field(s: SectorImage) -> Field {
    Field {
        gap: Seq::new(12, |i: int| 0x4Eu8) + Seq::new(12, |i: int| 0u8),
        syncs: 3,
        mark: 0xFE,
        body: seq![s.cyl, s.head, s.sector, s.size_code] + two_bytes(
            crc_of(0xFFFF, seq![0xA1u8, 0xA1, 0xA1, 0xFE, s.cyl, s.head, s.sector, s.size_code]),
        ),
    }
}

spec fn data_field(s: SectorImage, bad: Seq<u8>) -> Field {
    Field {
        gap: Seq::new(22, |i: int| 0x4Eu8) + Seq::new(12, |i: int| 0u8),
        syncs: 3,
        mark: 0xFB,
        body: bad + two_bytes(crc_of(0xFFFF, seq![0xA1u8, 0xA1, 0xA1, 0xFB] + s.data)) + Seq::new(
            24,
            |i: int| 0x4Eu8,
        ),
    }
}

/// A sector as it is written, with `bad` in place of its data: the CRC stays that of the
/// data that were meant.
pub open spec fn damaged_units(s: SectorImage, bad: Seq<u8>) -> Seq<Unit> {
    let u = sector_units(s);
    u.take(72) + byte_units(bad) + u.skip(72 + s.data.len() as int)
}

/// The cells of such a sector.
pub open spec fn damaged_cells(s: SectorImage, bad: Seq<u8>) -> Seq<bool> {
    add_units(Seq::empty(), damaged_units(s, bad))
}

proof fn lemma_damaged_fields(s: SectorImage, bad: Seq<u8>)
    requires
        bad.len() == s.data.len(),
    ensures
        damaged_units(s, bad) == fields_units(seq![id_field(s), data_field(s, bad)]),
{
    let n = s.data.len() as int;
    let a = id_field(s);
    let b = data_field(s, bad);
    let id = seq![s.cyl, s.head, s.sector, s.size_code];
    let u = sector_units(s);
    lemma_block_layout(s);
    lemma_crc_input(0xFE, id);
    assert(seq![0xA1u8, 0xA1, 0xA1, 0xFE] + id =~= seq![
        0xA1u8,
        0xA1,
        0xA1,
        0xFE,
        s.cyl,
        s.head,
        s.sector,
        s.size_code,
    ]);
    lemma_crc_input(0xFB, s.data);
    assert(seq![a, b].drop_last() =~= seq![a]);
    assert(seq![a].drop_last() =~= Seq::<Field>::empty());
    reveal_with_fuel(fields_units, 3);
    assert(Seq::<Unit>::empty() + field_units(a) =~= field_units(a));
    let all = field_units(a) + field_units(b);
    assert(fields_units(seq![a, b]) == all);
    let p1 = fill_units(12, 0x4E) + fill_units(12, 0x00);
    let p2 = p1 + mark_units(0xFE, id);
    let p3 = p2 + fill_units(22, 0x4E) + fill_units(12, 0x00);
    assert(u == p3 + mark_units(0xFB, s.data) + fill_units(24, 0x4E));
    assert(field_units(a) =~= p2) by {
        assert(field_units(a).len() == 34);
        assert forall|i: int| 0 <= i < 34 implies field_units(a)[i] == p2[i] by {
            lemma_field_unit(a, i);
            if i >= 24 {
                assert(p2[i] == mark_units(0xFE, id)[i - 24]);
            }
        }
    }
    assert(damaged_units(s, bad).len() == all.len());
    assert forall|i: int| 0 <= i < all.len() implies #[trigger] damaged_units(s, bad)[i]
        == all[i] by {
        if i < 34 {
            assert(u[i] == p2[i]);
        } else {
            lemma_field_unit(b, i - 34);
            assert(all[i] == field_units(b)[i - 34]);
            if i < 68 {
                assert(u[i] == p3[i]);
            } else if i < 72 {
                assert(u[i] == mark_units(0xFB, s.data)[i - 68]);
            } else if i < 72 + n {
                assert(damaged_units(s, bad)[i] == byte_units(bad)[i - 72]);
            } else if i < 74 + n {
                assert(damaged_units(s, bad)[i] == u[i]);
                assert(u[72 + n] == mark_units(0xFB, s.data)[4 + n]);
                assert(u[73 + n] == mark_units(0xFB, s.data)[5 + n]);
            } else {
                assert(damaged_units(s, bad)[i] == u[i]);
                assert(u[i] == Unit::Byte(0x4E));
            }
        }
    }
    assert(damaged_units(s, bad) =~= all);
}

/// A sector whose data were damaged still decodes under its numbers, with the damaged
/// bytes for data, and its data count as intact only if the CRC that was written is
/// theirs.
pub proof fn law_damaged_sector_decodes(s: SectorImage, bad: Seq<u8>)
    requires
        valid_image(s),
        bad.len() == s.data.len(),
    ensures
        sectors_in(damaged_cells(s, bad)) == Some(
            seq![
                SectorView {
                    cyl: s.cyl,
                    head: s.head,
                    sector: s.sector,
                    size_code: s.size_code,
                    data: bad,
                    id_crc_ok: true,
                    data_crc_ok: crc_of(0xFFFF, seq![0xA1u8, 0xA1, 0xA1, 0xFB] + bad) == crc_of(
                        0xFFFF,
                        seq![0xA1u8, 0xA1, 0xA1, 0xFB] + s.data,
                    ),
                    deleted: false,
                },
            ],
        ),
{
    let a = id_field(s);
    let b = data_field(s, bad);
    let n = s.data.len() as int;
    let c = crc_of(
        0xFFFF,
        seq![0xA1u8, 0xA1, 0xA1, 0xFE, s.cyl, s.head, s.sector, s.size_code],
    );
    let d = crc_of(0xFFFF, seq![0xA1u8, 0xA1, 0xA1, 0xFB] + s.data);
    lemma_damaged_fields(s, bad);
    assert(a.body[3] == s.size_code);
    law_marks_say_sector(a, b);
    assert(b.body.take(n) =~= bad);
    assert(seq![0xA1u8, 0xA1, 0xA1, 0xFE] + a.body.take(4) =~= seq![
        0xA1u8,
        0xA1,
        0xA1,
        0xFE,
        s.cyl,
        s.head,
        s.sector,
        s.size_code,
    ]);
    assert(c == ((c / 256) as u8) * 256 + (c % 256) as u8);
    assert(d == ((d / 256) as u8) * 256 + (d % 256) as u8);
    assert(b.body[n] == (d / 256) as u8 && b.body[n + 1] == (d % 256) as u8);
}

/// Damage to one byte of a sector, or to two that follow one another, is never taken for
/// intact data: the sector still decodes under its number, with a CRC that is not right.
pub proof fn law_damage_is_noticed(s: SectorImage, bad: Seq<u8>, at: int)
    requires
        valid_image(s),
        bad.len() == s.data.len(),
        bad != s.data,
        0 <= at < bad.len(),
        forall|i: int| 0 <= i < bad.len() && i != at && i != at + 1 ==> bad[i] == s.data[i],
    ensures
        sectors_in(damaged_cells(s, bad)) == Some(
            seq![
                SectorView {
                    cyl: s.cyl,
                    head: s.head,
                    sector: s.sector,
                    size_code: s.size_code,
                    data: bad,
                    id_crc_ok: true,
                    data_crc_ok: false,
                    deleted: false,
                },
            ],
        ),
{
    law_damaged_sector_decodes(s, bad);
    let x = seq![0xA1u8, 0xA1, 0xA1, 0xFB] + bad;
    let y = seq![0xA1u8, 0xA1, 0xA1, 0xFB] + s.data;
    assert(x != y) by {
        if x == y {
            assert(bad =~= s.data) by {
                assert forall|i: int| 0 <= i < bad.len() implies bad[i] == s.data[i] by {
                    assert(x[4 + i] == y[4 + i]);
                }
            }
        }
    }
    if at + 1 < bad.len() {
        assert forall|i: int| 0 <= i < x.len() && i != at + 4 && i != at + 5 implies x[i]
            == y[i] by {
            if i >= 4 {
                assert(bad[i - 4] == s.data[i - 4]);
            }
        }
        law_crc_detects_burst(0xFFFF, x, y, at + 4);
    } else {
        assert forall|i: int| 0 <= i < x.len() && i != at + 4 implies x[i] == y[i] by {
            if i >= 4 {
                assert(bad[i - 4] == s.data[i - 4]);
            }
        }
        assert(x[at + 4] != y[at + 4]) by {
            if x[at + 4] == y[at + 4] {
                assert(x =~= y);
            }
        }
        law_crc_detects_byte(0xFFFF, x, y, at + 4);
    }
}

/// What was meant is what decodes where nothing was damaged.
pub proof fn law_undamaged_is_the_sector(s: SectorImage)
    ensures
        damaged_cells(s, s.data) == sector_cells(s),
{
    let u = sector_units(s);
    let n = s.data.len() as int;
    lemma_block_layout(s);
    assert(damaged_units(s, s.data) =~= u) by {
        assert forall|i: int| 0 <= i < u.len() implies #[trigger] damaged_units(s, s.data)[i]
            == u[i] by {
            if 72 <= i < 72 + n {
                assert(u[72 + (i - 72)] == Unit::Byte(s.data[i - 72]));
            }
        }
    }
}

/// An ID mark and the data mark behind it.
pub struct Record {
    pub id: Field,
    pub data: Field,
}

/// Whether the marks of a record are what they are taken for, with all their bytes.
pub open spec fn record_ok(r: Record) -> bool {
    &&& r.id.syncs >= 1
    &&& r.data.syncs >= 1
    &&& r.id.mark == 0xFE
    &&& r.id.body.len() >= 6
    &&& r.id.body[3] < 64
    &&& r.data.mark == 0xFB || r.data.mark == 0xF8
    &&& r.data.body.len() >= sector_size(r.id.body[3]) + 2
}

/// The sector that a record is.
pub open spec fn record_says(r: Record) -> SectorView {
    let n = sector_size(r.id.body[3]) as int;
    SectorView {
        cyl: r.id.body[0],
        head: r.id.body[1],
        sector: r.id.body[2],
        size_code: r.id.body[3],
        data: r.data.body.take(n),
        id_crc_ok: crc_of(0xFFFF, covered(r.id) + r.id.body.take(4))
            == r.id.body[4] * 256 + r.id.body[5],
        data_crc_ok: crc_of(0xFFFF, covered(r.data) + r.data.body.take(n))
            == r.data.body[n] * 256 + r.data.body[n + 1],
        deleted: r.data.mark == 0xF8,
    }
}

/// The marks of records that follow one another.
pub open spec fn record_fields(records: Seq<Record>) -> Seq<Field>
    decreases records.len(),
{
    if records.len() == 0 {
        Seq::empty()
    } else {
        record_fields(records.drop_last()).push(records.last().id).push(records.last().data)
    }
}

proof fn lemma_records(records: Seq<Record>)
    requires
        forall|i: int| 0 <= i < records.len() ==> record_ok(#[trigger] records[i]),
    ensures
        take_fields(record_fields(records)) == Some(
            Progress {
                pending: None,
                sectors: records.map_values(|r: Record| record_says(r)),
            },
        ),
        marks_are_told(record_fields(records)),
    decreases records.len(),
{
    if records.len() == 0 {
        assert(records.map_values(|r: Record| record_says(r)) =~= Seq::<SectorView>::empty());
    } else {
        let head = records.drop_last();
        let r = records.last();
        let f = record_fields(head);
        assert(record_ok(records[records.len() - 1]));
        assert forall|i: int| 0 <= i < head.len() implies record_ok(#[trigger] head[i]) by {
            assert(head[i] == records[i]);
        }
        lemma_records(head);
        let a = f.push(r.id);
        let b = a.push(r.data);
        assert(a.drop_last() =~= f);
        assert(b.drop_last() =~= a);
        assert(take_fields(a) == take_field(take_fields(f)->0, r.id));
        assert(take_fields(b) == take_field(take_fields(a)->0, r.data));
        assert(head.map_values(|r: Record| record_says(r)).push(record_says(r))
            =~= records.map_values(|r: Record| record_says(r)));
        assert forall|i: int| 0 <= i < b.len() implies (#[trigger] b[i]).mark >= 0x80
            && b[i].syncs >= 1 by {
            if i < f.len() {
                assert(b[i] == f[i]);
            }
        }
    }
}

/// A track holds the sectors that its marks say, one after the other, each with its own
/// numbers, data and CRCs, whether the others are damaged or not.
pub proof fn law_marks_say_sectors(records: Seq<Record>)
    requires
        forall|i: int| 0 <= i < records.len() ==> record_ok(#[trigger] records[i]),
    ensures
        sectors_in(fields_cells(record_fields(records))) == Some(
            records.map_values(|r: Record| record_says(r)),
        ),
{
    lemma_records(records);
    lemma_fields_decode(record_fields(records));
}

/// A mark whose bytes reach beyond the end of the track brings nothing: a data mark too
/// near to the end is passed over, and its ID with it.
pub proof fn law_cut_data_is_dropped(id: Field, data: Field)
    requires
        id.mark == 0xFE,
        id.syncs >= 1,
        id.body.len() >= 6,
        id.body[3] < 64,
        data.mark == 0xFB || data.mark == 0xF8,
        data.syncs >= 1,
        data.body.len() < sector_size(id.body[3]) + 2,
    ensures
        sectors_in(fields_cells(seq![id, data])) == Some(Seq::<SectorView>::empty()),
{
    let fields = seq![id, data];
    let one = seq![id];
    let units = fields_units(fields);
    let cells = fields_cells(fields);
    let none = Progress { pending: None, sectors: Seq::<SectorView>::empty() };
    let mid = take_field(none, id)->0;
    assert(fields.drop_last() =~= one);
    assert(take_fields(one) == Some(mid)) by {
        assert(one.drop_last() =~= Seq::<Field>::empty());
        reveal_with_fuel(take_fields, 2);
    }
    assert(syncs_from(cells, 0) == syncs_before(units, units.len() as int)) by {
        lemma_well_encoded(units);
        lemma_fields_follow(fields);
        lemma_scan(cells, units, 0);
        assert(syncs_before(units, 0) + syncs_from(cells, 0) =~= syncs_from(cells, 0));
    }
    lemma_well_encoded(units);
    let at = fields_units(one).len() as int;
    let run = Run { start: last_syncs(fields), count: data.syncs as int };
    let r0 = runs_of(syncs_before(units, at));
    assert(runs_of(syncs_from(cells, 0)) == r0.push(run)) by {
        assert(units + Seq::<Unit>::empty() =~= units);
        lemma_field_runs(units, fields, Seq::empty());
    }
    assert(take_runs(cells, r0) == Some(mid)) by {
        assert(fields_units(one) + field_units(data) =~= units);
        lemma_fields_taken(cells, units, one, field_units(data));
    }
    assert(r0.push(run).drop_last() =~= r0);
    assert(units.skip(at) =~= field_units(data));
    lemma_cut_field(cells, units, at, data, mid);
}

proof fn lemma_cut_field(cells: Seq<bool>, units: Seq<Unit>, at: int, f: Field, st: Progress)
    requires
        well_encoded(cells, units),
        0 <= at,
        units.len() == at + field_units(f).len(),
        units.skip(at) == field_units(f),
        f.mark == 0xFB || f.mark == 0xF8,
        f.syncs >= 1,
        st.pending matches Some(id) && id.size_code < 64 && f.body.len() < sector_size(
            id.size_code,
        ) + 2,
    ensures
        take_run(cells, st, Run { start: 16 * (at + f.gap.len()), count: f.syncs as int })
            == Some(Progress { pending: None, sectors: st.sectors }),
{
    let g = f.gap.len() as int;
    let k = f.syncs as int;
    lemma_field_unit(f, g + k);
    assert(units.skip(at)[g + k] == units[at + g + k]);
    lemma_byte_unit(cells, units, at + g + k);
    let pos = 16 * (at + g) + k * 16;
    assert(pos == 16 * (at + g + k));
    assert(byte_at(cells, pos) == f.mark);
}

/// A data mark under a size code of 64 or more cannot be followed: the track is refused.
pub proof fn law_huge_sector_is_refused(id: Field, data: Field)
    requires
        id.mark == 0xFE,
        id.syncs >= 1,
        id.body.len() >= 6,
        id.body[3] >= 64,
        data.mark == 0xFB || data.mark == 0xF8,
        data.syncs >= 1,
    ensures
        sectors_in(fields_cells(seq![id, data])) is None,
{
    let fields = seq![id, data];
    let one = seq![id];
    let units = fields_units(fields);
    let cells = fields_cells(fields);
    let none = Progress { pending: None, sectors: Seq::<SectorView>::empty() };
    let mid = take_field(none, id)->0;
    assert(fields.drop_last() =~= one);
    assert(take_fields(one) == Some(mid)) by {
        assert(one.drop_last() =~= Seq::<Field>::empty());
        reveal_with_fuel(take_fields, 2);
    }
    assert(syncs_from(cells, 0) == syncs_before(units, units.len() as int)) by {
        lemma_well_encoded(units);
        lemma_fields_follow(fields);
        lemma_scan(cells, units, 0);
        assert(syncs_before(units, 0) + syncs_from(cells, 0) =~= syncs_from(cells, 0));
    }
    lemma_well_encoded(units);
    let at = fields_units(one).len() as int;
    let run = Run { start: last_syncs(fields), count: data.syncs as int };
    let r0 = runs_of(syncs_before(units, at));
    assert(runs_of(syncs_from(cells, 0)) == r0.push(run)) by {
        assert(units + Seq::<Unit>::empty() =~= units);
        lemma_field_runs(units, fields, Seq::empty());
    }
    assert(take_runs(cells, r0) == Some(mid)) by {
        assert(fields_units(one) + field_units(data) =~= units);
        lemma_fields_taken(cells, units, one, field_units(data));
    }
    assert(r0.push(run).drop_last() =~= r0);
    assert(units.skip(at) =~= field_units(data));
    let g = data.gap.len() as int;
    let k = data.syncs as int;
    lemma_field_unit(data, g + k);
    assert(units.skip(at)[g + k] == units[at + g + k]);
    lemma_byte_unit(cells, units, at + g + k);
    assert(run.start + k * 16 == 16 * (at + g + k));
}

} // verus!
