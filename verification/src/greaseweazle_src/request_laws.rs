//! What a request for a block comes to, case by case.

use super::source::keep_best;
use super::source::keep_better;
use super::source::seek_to;
use super::source::sectors_of_stream;
use super::source::track_reading;
use super::source::SourceView;
use super::source::StepView;
use super::source::TrackRequest;
use crate::block_source::Reply;
use crate::error::IoErrorKind;
use crate::gw::index_pulses;
use crate::gw::item_laws::all_ticks;
use crate::gw::item_laws::item_ok;
use crate::gw::item_laws::items_stream;
use crate::gw::item_laws::law_items_round_trip;
use crate::gw::item_laws::reversals;
use crate::gw::item_laws::Item;
use crate::gw::reading_of;
use crate::gw::Command;
use crate::mfm::track_sectors;
use crate::mfm::SectorView;
use crate::text::decimal;
use vstd::arithmetic::div_mod::lemma_fundamental_div_mod_converse;
use vstd::prelude::*;

verus! {

/// The seek target is the cylinder times the step, as far as the device can seek.
pub proof fn law_seek_is_exact(cyl: u16, step: u8)
    requires
        cyl * step <= 255,
    ensures
        seek_to(cyl, step) == cyl * step,
{
    assert(0 <= cyl * step) by (nonlinear_arith);
}

/// Different cylinders are sought at different places of the drive.
pub proof fn law_cylinders_are_apart(a: u16, b: u16, step: u8)
    requires
        step >= 1,
        a * step <= 255,
        b * step <= 255,
        seek_to(a, step) == seek_to(b, step),
    ensures
        a == b,
{
    law_seek_is_exact(a, step);
    law_seek_is_exact(b, step);
    assert(a == b) by (nonlinear_arith)
        requires
            a * step == b * step,
            step >= 1,
    ;
}

/// What is sent to the device for a track, byte by byte: the unit is selected and its
/// motor is on, the heads go to the cylinder times the step, the head of the drive for
/// the head of the disk is selected, and one index pulse more than the revolutions is
/// waited for.
pub proof fn law_track_frames(v: SourceView, r: TrackRequest)
    requires
        r.head < 2,
        r.cyl * v.step <= 255,
        1 <= r.revs < u16::MAX,
    ensures
        track_reading(v, r).len() == 6,
        track_reading(v, r)[0].spec_frame() == seq![12u8, 3, v.unit],
        track_reading(v, r)[1].spec_frame() == seq![6u8, 4, v.unit, 1],
        track_reading(v, r)[2].spec_frame() == seq![2u8, 3, (r.cyl * v.step) as u8],
        r.head == 0 ==> track_reading(v, r)[3].spec_frame() == seq![3u8, 3, v.head_map.0],
        r.head == 1 ==> track_reading(v, r)[3].spec_frame() == seq![3u8, 3, v.head_map.1],
        ({
            let f = track_reading(v, r)[4].spec_frame();
            &&& f.len() == 8
            &&& f.take(6) == seq![7u8, 8, 0, 0, 0, 0]
            &&& f[6] + 256 * f[7] == r.revs + 1
        }),
        track_reading(v, r)[5].spec_frame() == seq![9u8, 2],
{
    law_seek_is_exact(r.cyl, v.step);
    let t = track_reading(v, r);
    assert(t[0].spec_frame() =~= seq![12u8, 3, v.unit]);
    assert(t[1].spec_frame() =~= seq![6u8, 4, v.unit, 1]);
    assert(t[2].spec_frame() =~= seq![2u8, 3, (r.cyl * v.step) as u8]);
    assert(t[4] == Command::ReadFlux(r.revs));
    assert(index_pulses(r.revs) == r.revs + 1);
    assert(t[4].spec_frame().take(6) =~= seq![7u8, 8, 0, 0, 0, 0]);
    assert(t[5].spec_frame() =~= seq![9u8, 2]);
}

/// A block of a disk of which another track is known is asked for at once: block after
/// block along a track, track after track along a cylinder, with the revolutions that
/// were chosen.
pub proof fn law_block_is_asked_for(v: SourceView, c: u16, h: u8, s: u8)
    requires
        1 <= v.geom.heads,
        h < v.geom.heads,
        h < 2,
        1 <= s <= v.geom.sectors_per_track,
        v.track != Some((c, h)),
        v.revs < u16::MAX,
    ensures
        v.begin((c * v.geom.heads + h) * v.geom.sectors_per_track + s - 1) == (
            v,
            StepView::ReadTrack(
                TrackRequest { cyl: c, head: h, sector: s, revs: v.revs, fresh: true, attempt: 0 },
            ),
        ),
{
    lemma_place(v, c, h, s);
}

proof fn lemma_place(v: SourceView, c: u16, h: u8, s: u8)
    requires
        h < v.geom.heads,
        1 <= s <= v.geom.sectors_per_track,
    ensures
        super::chs_of(
            v.geom,
            (c * v.geom.heads + h) * v.geom.sectors_per_track + s - 1,
        ) == (c, h, s),
{
    let spt = v.geom.sectors_per_track as int;
    let heads = v.geom.heads as int;
    let per = spt * heads;
    let rem = h * spt + s - 1;
    let lba = (c * v.geom.heads + h) * v.geom.sectors_per_track + s - 1;
    assert(lba == c * per + rem && 0 <= rem < per) by (nonlinear_arith)
        requires
            lba == (c * heads + h) * spt + s - 1,
            rem == h * spt + s - 1,
            per == spt * heads,
            0 <= h < heads,
            1 <= s <= spt,
    ;
    lemma_fundamental_div_mod_converse(lba, per, c as int, rem);
    lemma_fundamental_div_mod_converse(rem, spt, h as int, s - 1);
}

/// A known sector that is intact is given out without a read.
pub proof fn law_known_block_is_given(v: SourceView, c: u16, h: u8, s: u8)
    requires
        h < v.geom.heads,
        h < 2,
        1 <= s <= v.geom.sectors_per_track,
        v.track == Some((c, h)),
        v.sectors.contains_key(s),
        v.sectors[s].data_crc_ok,
    ensures
        v.begin((c * v.geom.heads + h) * v.geom.sectors_per_track + s - 1) == (
            v,
            StepView::Finished(Reply::Block(v.sectors[s].data)),
        ),
{
    lemma_place(v, c, h, s);
}

/// Whether the sectors in `m` have no intact version of `n`.
pub open spec fn lacks(m: Map<u8, SectorView>, n: u8) -> bool {
    m.contains_key(n) ==> !m[n].data_crc_ok
}

/// A read that does not bring the sector intact is followed by another, with three
/// revolutions more each time, until three were made.
pub proof fn law_track_is_read_again(v: SourceView, r: TrackRequest, raw: Seq<u8>, found: Seq<SectorView>)
    requires
        sectors_of_stream(raw) == Some(found),
        r.attempt < 2,
        v.revs + 6 < u16::MAX,
        lacks(if r.fresh { Map::empty() } else { v.sectors }, r.sector),
        forall|i: int|
            0 <= i < found.len() && (#[trigger] found[i]).sector == r.sector
                ==> !found[i].data_crc_ok,
    ensures
        v.resume(r, Reply::Block(raw)).1 == StepView::ReadTrack(
            TrackRequest {
                cyl: r.cyl,
                head: r.head,
                sector: r.sector,
                revs: (v.revs + 3 * (r.attempt + 1)) as u16,
                fresh: false,
                attempt: (r.attempt + 1) as u8,
            },
        ),
{
    lemma_still_lacks(v.at_track(r).sectors, found, r.sector);
}

proof fn lemma_still_lacks(m: Map<u8, SectorView>, more: Seq<SectorView>, n: u8)
    requires
        lacks(m, n),
        forall|i: int|
            0 <= i < more.len() && (#[trigger] more[i]).sector == n ==> !more[i].data_crc_ok,
    ensures
        lacks(keep_best(m, more), n),
        keep_best(m, more).contains_key(n) <==> m.contains_key(n) || super::source_laws::brings(
            more,
            n,
        ),
    decreases more.len(),
{
    if more.len() > 0 {
        let rest = more.drop_first();
        assert(more[0].sector == n ==> !more[0].data_crc_ok);
        assert forall|i: int| 0 <= i < rest.len() && (#[trigger] rest[i]).sector == n implies
            !rest[i].data_crc_ok by {
            assert(rest[i] == more[i + 1]);
        }
        lemma_still_lacks(keep_better(m, more[0]), rest, n);
        super::source_laws::lemma_brings(more, n);
    }
}

/// After three reads a damaged sector that is not to be passed over is an error, which
/// names it: of invalid data where the sector was met, of a sector that was not found
/// where it was not.
pub proof fn law_damage_is_reported(v: SourceView, r: TrackRequest, raw: Seq<u8>, found: Seq<SectorView>)
    requires
        sectors_of_stream(raw) == Some(found),
        r.attempt == 2,
        !r.fresh,
        !v.recover,
        lacks(v.sectors, r.sector),
        forall|i: int|
            0 <= i < found.len() && (#[trigger] found[i]).sector == r.sector
                ==> !found[i].data_crc_ok,
    ensures
        v.sectors.contains_key(r.sector) || super::source_laws::brings(found, r.sector)
            ==> v.resume(r, Reply::Block(raw)).1 == StepView::Finished(
            Reply::Failed(
                IoErrorKind::InvalidData,
                "сектор C"@ + decimal(r.cyl as nat) + " H"@ + decimal(r.head as nat) + " R"@
                    + decimal(r.sector as nat) + ": CRC не сошёлся (пробуй --recover)"@,
            ),
        ),
        !v.sectors.contains_key(r.sector) && !super::source_laws::brings(found, r.sector)
            ==> v.resume(r, Reply::Block(raw)).1 == StepView::Finished(
            Reply::Failed(
                IoErrorKind::NotFound,
                "сектор C"@ + decimal(r.cyl as nat) + " H"@ + decimal(r.head as nat) + " R"@
                    + decimal(r.sector as nat) + " не найден (пробуй --recover)"@,
            ),
        ),
{
    lemma_still_lacks(v.sectors, found, r.sector);
}

/// Where damaged sectors are passed over, the last read in vain gives zeros, as many as
/// a sector has, and notes the place.
pub proof fn law_damage_is_passed_over(v: SourceView, r: TrackRequest, answer: Reply)
    requires
        v.recover,
        r.attempt == 2,
        !r.fresh,
        lacks(v.sectors, r.sector),
        match answer {
            Reply::Block(raw) => sectors_of_stream(raw) is None,
            Reply::Failed(kind, _) => kind != IoErrorKind::NotConnected,
        },
    ensures
        v.resume(r, answer).0.bad == v.bad.insert((r.cyl, r.head, r.sector)),
        v.resume(r, answer).1 matches StepView::Finished(Reply::Block(b)) && b.len()
            == v.geom.bytes_per_sector && forall|i: int| 0 <= i < b.len() ==> #[trigger] b[i] == 0,
{
}

/// Where damaged sectors are not passed over, an error of the device is handed on as it
/// is, and a stream that cannot be decoded ends the read.
pub proof fn law_errors_are_handed_on(
    v: SourceView,
    r: TrackRequest,
    kind: IoErrorKind,
    message: Seq<char>,
    raw: Seq<u8>,
)
    requires
        !v.recover,
    ensures
        v.resume(r, Reply::Failed(kind, message)) == (
            v,
            StepView::Finished(Reply::Failed(kind, message)),
        ),
        sectors_of_stream(raw) is None ==> v.resume(r, Reply::Block(raw)) == (
            v,
            StepView::Finished(Reply::Failed(IoErrorKind::Other, "паника при чтении блока"@)),
        ),
{
}

/// A fresh read forgets the sectors of the track before: what is known afterwards stands
/// on the track that was read.
pub proof fn law_fresh_read_forgets(v: SourceView, r: TrackRequest, raw: Seq<u8>, found: Seq<SectorView>, n: u8)
    requires
        r.fresh,
        sectors_of_stream(raw) == Some(found),
    ensures
        v.resume(r, Reply::Block(raw)).0.track == Some((r.cyl, r.head)),
        v.resume(r, Reply::Block(raw)).0.sectors.contains_key(n) <==> super::source_laws::brings(
            found,
            n,
        ),
        v.resume(r, Reply::Block(raw)).0.geom == v.geom,
        v.resume(r, Reply::Block(raw)).0.head_map == v.head_map,
        v.resume(r, Reply::Block(raw)).0.step == v.step,
        v.resume(r, Reply::Block(raw)).0.unit == v.unit,
{
    super::source_laws::law_best_version_kept(Map::empty(), found, n);
}

/// The sectors of a stream are those of its flux, whatever index pulses it holds.
pub proof fn law_stream_holds_track(items: Seq<Item>, flux: Seq<u32>)
    requires
        forall|i: int| 0 <= i < items.len() ==> item_ok(#[trigger] items[i]),
        all_ticks(items) <= u32::MAX,
        reversals(items) == flux.map_values(|t: u32| t as int),
    ensures
        sectors_of_stream(items_stream(items)) == track_sectors(flux),
{
    law_items_round_trip(items);
    let raw = items_stream(items);
    assert(reading_of(raw).flux.map_values(|t: int| t as u32) =~= flux) by {
        assert forall|i: int| 0 <= i < flux.len() implies #[trigger] reading_of(raw).flux[i]
            == flux[i] by {
            assert(flux.map_values(|t: u32| t as int)[i] == flux[i]);
        }
    }
}

/// Of the versions of a sector that a read brings, none intact, the first is kept.
pub proof fn law_first_damaged_version_kept(m: Map<u8, SectorView>, more: Seq<SectorView>, i: int)
    requires
        0 <= i < more.len(),
        !m.contains_key(more[i].sector),
        forall|k: int| 0 <= k < i ==> (#[trigger] more[k]).sector != more[i].sector,
        forall|k: int|
            0 <= k < more.len() && (#[trigger] more[k]).sector == more[i].sector
                ==> !more[k].data_crc_ok,
    ensures
        keep_best(m, more).contains_key(more[i].sector),
        keep_best(m, more)[more[i].sector] == more[i],
    decreases more.len(),
{
    let rest = more.drop_first();
    let next = keep_better(m, more[0]);
    assert forall|k: int| 0 <= k < rest.len() && (#[trigger] rest[k]).sector == more[i].sector
        implies !rest[k].data_crc_ok by {
        assert(rest[k] == more[k + 1]);
    }
    if i == 0 {
        lemma_damaged_stays(next, rest, more[0].sector);
    } else {
        assert(more[0].sector != more[i].sector);
        assert(rest[i - 1] == more[i]);
        assert forall|k: int| 0 <= k < i - 1 implies (#[trigger] rest[k]).sector
            != rest[i - 1].sector by {
            assert(rest[k] == more[k + 1]);
        }
        law_first_damaged_version_kept(next, rest, i - 1);
    }
}

proof fn lemma_damaged_stays(m: Map<u8, SectorView>, more: Seq<SectorView>, n: u8)
    requires
        m.contains_key(n),
        forall|k: int|
            0 <= k < more.len() && (#[trigger] more[k]).sector == n ==> !more[k].data_crc_ok,
    ensures
        keep_best(m, more).contains_key(n),
        keep_best(m, more)[n] == m[n],
    decreases more.len(),
{
    if more.len() > 0 {
        let rest = more.drop_first();
        assert(more[0].sector == n ==> !more[0].data_crc_ok);
        assert forall|k: int| 0 <= k < rest.len() && (#[trigger] rest[k]).sector == n implies
            !rest[k].data_crc_ok by {
            assert(rest[k] == more[k + 1]);
        }
        lemma_damaged_stays(keep_better(m, more[0]), rest, n);
    }
}

/// A disk without heads or sectors, or with a third head, cannot be served.
pub proof fn law_unservable_places(v: SourceView, lba: int, c: u16, h: u8, s: u8)
    ensures
        v.geom.heads == 0 || v.geom.sectors_per_track == 0 ==> v.begin(lba) == (
            v,
            StepView::Finished(Reply::Failed(IoErrorKind::Other, "паника при чтении блока"@)),
        ),
        2 <= h < v.geom.heads && 1 <= s <= v.geom.sectors_per_track ==> v.begin(
            (c * v.geom.heads + h) * v.geom.sectors_per_track + s - 1,
        ) == (
            v,
            StepView::Finished(Reply::Failed(IoErrorKind::Other, "паника при чтении блока"@)),
        ),
{
    if 2 <= h < v.geom.heads && 1 <= s <= v.geom.sectors_per_track {
        lemma_place(v, c, h, s);
    }
}

/// Revolutions that the device cannot count end a request where damaged sectors are not
/// passed over; where they are, the sector counts as damaged.
pub proof fn law_too_many_revolutions(v: SourceView, c: u16, h: u8, s: u8)
    requires
        h < v.geom.heads,
        h < 2,
        1 <= s <= v.geom.sectors_per_track,
        v.track != Some((c, h)),
        v.revs == u16::MAX,
    ensures
        ({
            let r = v.begin((c * v.geom.heads + h) * v.geom.sectors_per_track + s - 1);
            &&& !v.recover ==> r == (
                v,
                StepView::Finished(Reply::Failed(IoErrorKind::Other, "паника при чтении блока"@)),
            )
            &&& v.recover ==> r.0.bad == v.bad.insert((c, h, s)) && (
            r.1 matches StepView::Finished(Reply::Block(b)) && b.len() == v.geom.bytes_per_sector)
        }),
{
    lemma_place(v, c, h, s);
}

/// Where damaged sectors are passed over, a read that fails, or whose stream cannot be
/// decoded, is made again like one that brought nothing.
pub proof fn law_failed_read_is_made_again(v: SourceView, r: TrackRequest, answer: Reply)
    requires
        v.recover,
        r.attempt < 2,
        v.revs + 6 < u16::MAX,
        lacks(if r.fresh { Map::empty() } else { v.sectors }, r.sector),
        match answer {
            Reply::Block(raw) => sectors_of_stream(raw) is None,
            Reply::Failed(kind, _) => kind != IoErrorKind::NotConnected,
        },
    ensures
        v.resume(r, answer).1 == StepView::ReadTrack(
            TrackRequest {
                cyl: r.cyl,
                head: r.head,
                sector: r.sector,
                revs: (v.revs + 3 * (r.attempt + 1)) as u16,
                fresh: false,
                attempt: (r.attempt + 1) as u8,
            },
        ),
        r.fresh ==> v.resume(r, answer).0.track == Some((r.cyl, r.head)) && v.resume(
            r,
            answer,
        ).0.sectors == Map::<u8, SectorView>::empty(),
        !r.fresh ==> v.resume(r, answer).0 == v,
{
}

/// A known track whose sector is damaged is read again for it, without being forgotten.
pub proof fn law_damaged_block_is_asked_for(v: SourceView, c: u16, h: u8, s: u8)
    requires
        h < v.geom.heads,
        h < 2,
        1 <= s <= v.geom.sectors_per_track,
        v.track == Some((c, h)),
        v.revs + 3 < u16::MAX,
        lacks(v.sectors, s),
    ensures
        v.begin((c * v.geom.heads + h) * v.geom.sectors_per_track + s - 1) == (
            v,
            StepView::ReadTrack(
                TrackRequest {
                    cyl: c,
                    head: h,
                    sector: s,
                    revs: (v.revs + 3) as u16,
                    fresh: false,
                    attempt: 1,
                },
            ),
        ),
{
    lemma_place(v, c, h, s);
}

/// A target that the device cannot take is cut to one byte.
pub proof fn law_seek_keeps_low_byte(cyl: u16, step: u8)
    ensures
        (cyl * step - seek_to(cyl, step)) % 256 == 0,
        seek_to(cyl, step) <= cyl * step,
{
    assert(0 <= cyl * step) by (nonlinear_arith);
    let p = cyl * step;
    assert(seek_to(cyl, step) == p % 256);
}

} // verus!
