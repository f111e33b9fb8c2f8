//! What holds of every read from a live disk.

use super::chs_of;
use super::source::keep_best;
use super::source::keep_better;
use super::source::sectors_of_stream;
use super::source::SourceView;
use super::source::StepView;
use super::source::TrackRequest;
use crate::block_source::Reply;
use crate::error::IoErrorKind;
use crate::gw::reading_of;
use crate::gw::stream_laws::law_stream_round_trip;
use crate::gw::stream_laws::stream_of;
use crate::gw::stream_laws::total;
use crate::mfm::encode::track_cells;
use crate::mfm::encode::SectorImage;
use crate::mfm::flux_laws::gaps;
use crate::mfm::flux_laws::law_floppy_round_trip;
use crate::mfm::jitter::wavering;
use crate::mfm::roundtrip::decoded;
use crate::mfm::roundtrip::decoded_track;
use crate::mfm::roundtrip::valid_image;
use crate::mfm::SectorView;
use vstd::prelude::*;

verus! {

/// A block is first asked for where it stands, under a head that the drive has.
pub proof fn law_first_request(v: SourceView, lba: int, r: TrackRequest)
    requires
        v.begin(lba).1 == StepView::ReadTrack(r),
    ensures
        v.begin(lba).0 == v,
        (r.cyl, r.head, r.sector) == chs_of(v.geom, lba),
        r.head < 2,
        r.revs < u16::MAX,
        r.attempt <= 1,
        r.fresh <==> v.track != Some((r.cyl, r.head)),
{
}

/// Every further request for a block is for the same place, with three more
/// revolutions, and there are at most two: no block takes more than three reads.
pub proof fn law_further_request(v: SourceView, r: TrackRequest, answer: Reply, n: TrackRequest)
    requires
        v.resume(r, answer).1 == StepView::ReadTrack(n),
    ensures
        (n.cyl, n.head, n.sector) == (r.cyl, r.head, r.sector),
        n.attempt == r.attempt + 1,
        n.attempt <= 2,
        n.revs == v.revs + 3 * n.attempt,
        n.revs < u16::MAX,
        !n.fresh,
{
}

/// Where damaged sectors are not passed over, a block that is given out is intact: it
/// is the data of a sector under the right number, with the right CRC.
pub proof fn law_blocks_are_intact(v: SourceView, r: TrackRequest, answer: Reply, block: Seq<u8>)
    requires
        !v.recover,
        v.resume(r, answer).1 == StepView::Finished(Reply::Block(block)),
    ensures
        ({
            let after = v.resume(r, answer).0;
            &&& after.has_good(r.sector)
            &&& block == after.sectors[r.sector].data
            &&& after.bad == v.bad
        }),
{
}

/// Where damaged sectors are passed over, a block is always given out in the end,
/// unless the disk is gone: the data of an intact sector, or zeros, and then the sector
/// is noted.
pub proof fn law_recover_serves(v: SourceView, r: TrackRequest, answer: Reply, reply: Reply)
    requires
        v.recover,
        v.resume(r, answer).1 == StepView::Finished(reply),
    ensures
        ({
            let after = v.resume(r, answer).0;
            match reply {
                Reply::Block(block) => if after.has_good(r.sector) {
                    block == after.sectors[r.sector].data && after.bad == v.bad
                } else {
                    block == v.blank() && after.bad == v.bad.insert((r.cyl, r.head, r.sector))
                },
                Reply::Failed(kind, _) => kind == IoErrorKind::NotConnected && reply == answer,
            }
        }),
{
}

/// The loss of the disk is reported at once.
pub proof fn law_loss_is_reported(v: SourceView, r: TrackRequest, message: Seq<char>)
    ensures
        v.resume(r, Reply::Failed(IoErrorKind::NotConnected, message)) == (
            v,
            StepView::Finished(Reply::Failed(IoErrorKind::NotConnected, message)),
        ),
{
}

/// Whether a sector of `more` has the number `n`, and a right CRC.
pub open spec fn brings_good(more: Seq<SectorView>, n: u8) -> bool {
    exists|i: int|
        0 <= i < more.len() && (#[trigger] more[i]).sector == n && more[i].data_crc_ok
}

/// Whether a sector of `more` has the number `n`.
pub open spec fn brings(more: Seq<SectorView>, n: u8) -> bool {
    exists|i: int| 0 <= i < more.len() && (#[trigger] more[i]).sector == n
}

/// An intact sector is never replaced; a sector is known after a read if it was
/// before or the read brought it; it is intact if it was before or the read brought
/// an intact version.
pub proof fn law_best_version_kept(m: Map<u8, SectorView>, more: Seq<SectorView>, n: u8)
    requires
        forall|k: u8| #[trigger] m.contains_key(k) ==> m[k].sector == k,
    ensures
        ({
            let after = keep_best(m, more);
            &&& m.contains_key(n) && m[n].data_crc_ok ==> after.contains_key(n) && after[n] == m[n]
            &&& after.contains_key(n) <==> m.contains_key(n) || brings(more, n)
            &&& after.contains_key(n) && after[n].data_crc_ok <==> m.contains_key(n)
                && m[n].data_crc_ok || brings_good(more, n)
            &&& after.contains_key(n) ==> after[n].sector == n
        }),
    decreases more.len(),
{
    if more.len() > 0 {
        let next = keep_better(m, more[0]);
        let rest = more.drop_first();
        law_best_version_kept(next, rest, n);
        assert(brings(more, n) <==> more[0].sector == n || brings(rest, n)) by {
            lemma_brings(more, n);
        }
        assert(brings_good(more, n) <==> more[0].sector == n && more[0].data_crc_ok
            || brings_good(rest, n)) by {
            lemma_brings_good(more, n);
        }
    }
}

pub(crate) proof fn lemma_brings(more: Seq<SectorView>, n: u8)
    requires
        more.len() > 0,
    ensures
        brings(more, n) <==> more[0].sector == n || brings(more.drop_first(), n),
{
    let rest = more.drop_first();
    if brings(more, n) {
        let i = choose|i: int| 0 <= i < more.len() && (#[trigger] more[i]).sector == n;
        if i > 0 {
            assert(rest[i - 1].sector == n);
        }
    }
    if brings(rest, n) {
        let i = choose|i: int| 0 <= i < rest.len() && (#[trigger] rest[i]).sector == n;
        assert(more[i + 1].sector == n);
    }
}

proof fn lemma_brings_good(more: Seq<SectorView>, n: u8)
    requires
        more.len() > 0,
    ensures
        brings_good(more, n) <==> more[0].sector == n && more[0].data_crc_ok || brings_good(
            more.drop_first(),
            n,
        ),
{
    let rest = more.drop_first();
    if brings_good(more, n) {
        let i = choose|i: int|
            0 <= i < more.len() && (#[trigger] more[i]).sector == n && more[i].data_crc_ok;
        if i > 0 {
            assert(rest[i - 1].sector == n && rest[i - 1].data_crc_ok);
        }
    }
    if brings_good(rest, n) {
        let i = choose|i: int|
            0 <= i < rest.len() && (#[trigger] rest[i]).sector == n && rest[i].data_crc_ok;
        assert(more[i + 1].sector == n && more[i + 1].data_crc_ok);
    }
}

/// The first intact version of a sector that a read brings is the one that is kept,
/// unless an intact one was known.
proof fn lemma_first_good_kept(m: Map<u8, SectorView>, more: Seq<SectorView>, i: int)
    requires
        0 <= i < more.len(),
        more[i].data_crc_ok,
        !(m.contains_key(more[i].sector) && m[more[i].sector].data_crc_ok),
        forall|k: int| 0 <= k < i ==> (#[trigger] more[k]).sector != more[i].sector,
    ensures
        keep_best(m, more).contains_key(more[i].sector),
        keep_best(m, more)[more[i].sector] == more[i],
    decreases more.len(),
{
    let next = keep_better(m, more[0]);
    let rest = more.drop_first();
    if i == 0 {
        lemma_good_stays(next, rest, more[0].sector);
    } else {
        assert(more[0].sector != more[i].sector);
        assert(rest[i - 1] == more[i]);
        assert forall|k: int| 0 <= k < i - 1 implies (#[trigger] rest[k]).sector
            != rest[i - 1].sector by {
            assert(rest[k] == more[k + 1]);
        }
        lemma_first_good_kept(next, rest, i - 1);
    }
}

proof fn lemma_good_stays(m: Map<u8, SectorView>, more: Seq<SectorView>, n: u8)
    requires
        m.contains_key(n),
        m[n].data_crc_ok,
    ensures
        keep_best(m, more).contains_key(n),
        keep_best(m, more)[n] == m[n],
    decreases more.len(),
{
    if more.len() > 0 {
        lemma_good_stays(keep_better(m, more[0]), more.drop_first(), n);
    }
}

/// A sector that stands on the track is given out after one read: where the stream
/// of the track brings it intact, the block is its data.
pub proof fn law_intact_sector_is_read(
    v: SourceView,
    r: TrackRequest,
    raw: Seq<u8>,
    found: Seq<SectorView>,
    i: int,
)
    requires
        r.fresh,
        sectors_of_stream(raw) == Some(found),
        0 <= i < found.len(),
        found[i].sector == r.sector,
        found[i].data_crc_ok,
        forall|k: int| 0 <= k < i ==> (#[trigger] found[k]).sector != r.sector,
    ensures
        v.resume(r, Reply::Block(raw)).1 == StepView::Finished(Reply::Block(found[i].data)),
{
    lemma_first_good_kept(Map::empty(), found, i);
}

/// One read serves the whole track: once its stream was taken, every block of the track
/// that it brought intact is given out without another read.
pub proof fn law_track_is_read_once(
    v: SourceView,
    r: TrackRequest,
    raw: Seq<u8>,
    found: Seq<SectorView>,
    lba: int,
)
    requires
        r.fresh,
        r.head < 2,
        sectors_of_stream(raw) == Some(found),
        v.geom.sectors_per_track > 0,
        v.geom.heads > 0,
        chs_of(v.geom, lba).0 == r.cyl,
        chs_of(v.geom, lba).1 == r.head,
        brings_good(found, chs_of(v.geom, lba).2),
    ensures
        ({
            let after = v.resume(r, Reply::Block(raw)).0;
            let n = chs_of(v.geom, lba).2;
            &&& after.has_good(n)
            &&& after.begin(lba) == (
                after,
                StepView::Finished(Reply::Block(after.sectors[n].data)),
            )
        }),
{
    law_best_version_kept(Map::empty(), found, chs_of(v.geom, lba).2);
}

/// What was written to a track is read back as a block: the track is sent to the
/// host as the flux of a drive whose speed wavers, and the sector that was asked
/// for comes out with the data that were written.
pub proof fn law_written_sector_is_read(
    v: SourceView,
    r: TrackRequest,
    track: Seq<SectorImage>,
    flux: Seq<u32>,
    c: nat,
    i: int,
)
    requires
        r.fresh,
        forall|k: int|
            0 <= k < track.len() ==> valid_image(#[trigger] track[k]) && track[k].size_code <= 3,
        c >= 1,
        wavering(flux, gaps(track_cells(track)), c),
        forall|k: int| 0 <= k < flux.len() ==> 1 <= #[trigger] flux[k] <= 0x1000_0000,
        total(ticks(flux)) <= u32::MAX,
        0 <= i < track.len(),
        track[i].sector == r.sector,
        forall|k: int| 0 <= k < i ==> (#[trigger] track[k]).sector != r.sector,
    ensures
        v.resume(r, Reply::Block(stream_of(ticks(flux)))).1 == StepView::Finished(
            Reply::Block(track[i].data),
        ),
{
    let raw = stream_of(ticks(flux));
    assert forall|k: int| 0 <= k < ticks(flux).len() implies 1 <= #[trigger] ticks(flux)[k]
        <= 0x1000_0000 by {
        assert(1 <= flux[k] <= 0x1000_0000);
    }
    law_stream_round_trip(ticks(flux));
    assert(reading_of(raw).flux.map_values(|t: int| t as u32) =~= flux);
    law_floppy_round_trip(track, flux, c);
    let found = decoded_track(track);
    assert(sectors_of_stream(raw) == Some(found));
    assert(found[i] == decoded(track[i]));
    assert forall|k: int| 0 <= k < i implies (#[trigger] found[k]).sector != r.sector by {
        assert(track[k].sector != r.sector);
    }
    law_intact_sector_is_read(v, r, raw, found, i);
}

/// Intervals as numbers.
pub open spec fn ticks(flux: Seq<u32>) -> Seq<int> {
    flux.map_values(|t: u32| t as int)
}

} // verus!
