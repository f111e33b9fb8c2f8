//! Reading blocks from a live disk.
//!
//! A request for a block turns into requests for tracks, at most three. The sectors
//! of the track that was read last are kept, the best version of each.

use super::bad::BadSectors;
use super::bad::Place;
use super::chs_of;
use super::lba_to_chs;
use super::DiskKind;
use super::Geometry;
use crate::block_source::reply_of;
use crate::block_source::unreadable;
use crate::block_source::unreadable_error;
use crate::block_source::Reply;
use crate::bytes::copy;
use crate::bytes::zeros;
use crate::error::IoError;
use crate::error::IoErrorKind;
use crate::gw::reading_of;
use crate::gw::stream_fits;
use crate::gw::try_decode_flux;
use crate::gw::Command;
use crate::mfm::sector_views;
use crate::mfm::track_sectors;
use crate::mfm::try_decode_track;
use crate::mfm::Sector;
use crate::mfm::SectorView;
use crate::text::decimal;
use crate::text::push_decimal;
use std::collections::HashMap;
use vstd::prelude::*;

verus! {

/// A track to be read, and the sector that it is read for.
#[derive(Debug, Clone, Copy, PartialEq, Eq, Structural)]
pub struct TrackRequest {
    pub cyl: u16,
    pub head: u8,
    pub sector: u8,
    pub revs: u16,
    /// Whether the sectors of the track that was read before are to be dropped.
    pub fresh: bool,
    /// How often the track was read again before, for the same sector.
    pub attempt: u8,
}

/// What comes next for a block.
pub enum Step {
    ReadTrack(TrackRequest),
    Finished(Result<Vec<u8>, IoError>),
}

/// What a [`Step`] says.
pub enum StepView {
    ReadTrack(TrackRequest),
    Finished(Reply),
}

impl View for Step {
    type V = StepView;

    open spec fn view(&self) -> StepView {
        match self {
            Step::ReadTrack(r) => StepView::ReadTrack(*r),
            Step::Finished(r) => StepView::Finished(reply_of(*r)),
        }
    }
}

/// A disk in a drive.
pub struct GreaseweazleSource {
    pub geom: Geometry,
    pub disk_kind: DiskKind,
    pub unit: u8,
    pub revs: u16,
    pub recover: bool,
    /// How many steps of the drive make one cylinder of the disk.
    pub step: u8,
    /// The head of the drive for each head of the disk.
    pub head_map: (u8, u8),
    track: Option<(u16, u8)>,
    sectors: HashMap<u8, Sector>,
    bad: BadSectors,
}

/// What a [`GreaseweazleSource`] knows.
#[verifier::ext_equal]
pub struct SourceView {
    pub geom: Geometry,
    pub disk_kind: DiskKind,
    pub unit: u8,
    pub revs: u16,
    pub recover: bool,
    pub step: u8,
    pub head_map: (u8, u8),
    /// The track whose sectors are known.
    pub track: Option<(u16, u8)>,
    /// The sectors of the track, by number.
    pub sectors: Map<u8, SectorView>,
    /// The sectors in whose place zeros were given out.
    pub bad: Set<Place>,
}

impl View for GreaseweazleSource {
    type V = SourceView;

    closed spec fn view(&self) -> SourceView {
        SourceView {
            geom: self.geom,
            disk_kind: self.disk_kind,
            unit: self.unit,
            revs: self.revs,
            recover: self.recover,
            step: self.step,
            head_map: self.head_map,
            track: self.track,
            sectors: self.sectors@.map_values(|s: Sector| s@),
            bad: self.bad@,
        }
    }
}

/// `sectors` with `s` where it is new, or intact where the known one is not.
pub open spec fn keep_better(sectors: Map<u8, SectorView>, s: SectorView) -> Map<u8, SectorView> {
    if !sectors.contains_key(s.sector) || !sectors[s.sector].data_crc_ok && s.data_crc_ok {
        sectors.insert(s.sector, s)
    } else {
        sectors
    }
}

/// The best version of each sector.
pub open spec fn keep_best(sectors: Map<u8, SectorView>, more: Seq<SectorView>) -> Map<
    u8,
    SectorView,
>
    decreases more.len(),
{
    if more.len() == 0 {
        sectors
    } else {
        keep_best(keep_better(sectors, more[0]), more.drop_first())
    }
}

/// The sectors that a flux stream holds. `None` where it cannot be decoded.
pub open spec fn sectors_of_stream(raw: Seq<u8>) -> Option<Seq<SectorView>> {
    if stream_fits(raw) {
        track_sectors(reading_of(raw).flux.map_values(|t: int| t as u32))
    } else {
        None
    }
}

/// The name of a sector in a message.
pub open spec fn sector_name(p: Place) -> Seq<char> {
    "сектор C"@ + decimal(p.0 as nat) + " H"@ + decimal(p.1 as nat) + " R"@ + decimal(p.2 as nat)
}

impl SourceView {
    /// Whether an intact version of the sector is known.
    pub open spec fn has_good(self, sector: u8) -> bool {
        self.sectors.contains_key(sector) && self.sectors[sector].data_crc_ok
    }

    /// The source, with the sectors of another track dropped where a read is fresh.
    pub open spec fn at_track(self, r: TrackRequest) -> SourceView {
        if r.fresh {
            SourceView { track: Some((r.cyl, r.head)), sectors: Map::empty(), ..self }
        } else {
            self
        }
    }

    /// The request for a track, unless the count of index pulses overflows.
    pub open spec fn ask(
        self,
        place: Place,
        revs: int,
        fresh: bool,
        attempt: u8,
    ) -> StepView {
        if revs < u16::MAX {
            StepView::ReadTrack(
                TrackRequest {
                    cyl: place.0,
                    head: place.1,
                    sector: place.2,
                    revs: revs as u16,
                    fresh,
                    attempt,
                },
            )
        } else {
            StepView::Finished(unreadable())
        }
    }

    /// A block of zeros, in place of a sector that is not intact.
    pub open spec fn blank(self) -> Seq<u8> {
        Seq::new(self.geom.bytes_per_sector as nat, |i: int| 0u8)
    }

    /// A damaged sector is passed over: zeros are given out, and the sector is noted.
    pub open spec fn passed_over(self, place: Place) -> (SourceView, StepView) {
        (
            SourceView { bad: self.bad.insert(place), ..self },
            StepView::Finished(Reply::Block(self.blank())),
        )
    }

    /// What comes next when the track of `place` is known: the sector, if it is
    /// intact; else up to two more reads, of three revolutions more each; else, where
    /// damaged sectors are to be passed over, zeros, and the sector is noted; else an
    /// error. Revolutions that the device cannot count are not asked for where damaged
    /// sectors are to be passed over.
    pub open spec fn next(self, place: Place, attempt: u8) -> (SourceView, StepView) {
        let sector = place.2;
        if self.has_good(sector) {
            (self, StepView::Finished(Reply::Block(self.sectors[sector].data)))
        } else if attempt < 2 && (self.revs + 3 * (attempt + 1) < u16::MAX || !self.recover) {
            (self, self.ask(place, self.revs + 3 * (attempt + 1), false, (attempt + 1) as u8))
        } else if self.recover {
            self.passed_over(place)
        } else if self.sectors.contains_key(sector) {
            (
                self,
                StepView::Finished(
                    Reply::Failed(
                        IoErrorKind::InvalidData,
                        sector_name(place) + ": CRC не сошёлся (пробуй --recover)"@,
                    ),
                ),
            )
        } else {
            (
                self,
                StepView::Finished(
                    Reply::Failed(
                        IoErrorKind::NotFound,
                        sector_name(place) + " не найден (пробуй --recover)"@,
                    ),
                ),
            )
        }
    }

    /// What comes first for block `lba`. A geometry without heads or sectors, or a
    /// third head, cannot be served.
    pub open spec fn begin(self, lba: int) -> (SourceView, StepView) {
        let place = chs_of(self.geom, lba);
        if self.geom.sectors_per_track == 0 || self.geom.heads == 0 || place.1 >= 2 {
            (self, StepView::Finished(unreadable()))
        } else if self.track != Some((place.0, place.1)) {
            if self.revs < u16::MAX || !self.recover {
                (self, self.ask(place, self.revs as int, true, 0))
            } else {
                self.passed_over(place)
            }
        } else {
            self.next(place, 0)
        }
    }

    /// What comes next when the request `r` was answered. The loss of the disk is
    /// always reported; any other error, or a stream that cannot be decoded, unless
    /// damaged sectors are to be passed over.
    pub open spec fn resume(self, r: TrackRequest, answer: Reply) -> (SourceView, StepView) {
        let place = (r.cyl, r.head, r.sector);
        match answer {
            Reply::Block(raw) => match sectors_of_stream(raw) {
                Some(found) => {
                    let at = self.at_track(r);
                    SourceView { sectors: keep_best(at.sectors, found), ..at }.next(
                        place,
                        r.attempt,
                    )
                },
                None => if self.recover {
                    self.at_track(r).next(place, r.attempt)
                } else {
                    (self, StepView::Finished(unreadable()))
                },
            },
            Reply::Failed(kind, message) => if kind != IoErrorKind::NotConnected && self.recover {
                self.at_track(r).next(place, r.attempt)
            } else {
                (self, StepView::Finished(answer))
            },
        }
    }
}

fn name_sector(p: Place) -> (s: String)
    ensures
        s@ == sector_name(p),
{
    let mut s: String = "сектор C".to_owned();
    push_decimal(&mut s, p.0 as u64);
    s.append(" H");
    push_decimal(&mut s, p.1 as u64);
    s.append(" R");
    push_decimal(&mut s, p.2 as u64);
    s
}

/// Decodes the flux stream of a track.
pub fn decode_stream(raw: &[u8]) -> (r: Option<Vec<Sector>>)
    ensures
        r is Some <==> sectors_of_stream(raw@) is Some,
        r matches Some(v) ==> sectors_of_stream(raw@) == Some(sector_views(v@)),
{
    match try_decode_flux(raw) {
        Some((flux, _index)) => {
            assert(reading_of(raw@).flux.map_values(|t: int| t as u32) =~= flux@) by {
                assert(flux@.map_values(|x: u32| x as int) == reading_of(raw@).flux);
            }
            try_decode_track(flux.as_slice())
        },
        None => None,
    }
}

/// The seek target of a cylinder, in steps of the drive, as the device takes it.
pub open spec fn seek_to(cyl: u16, step: u8) -> u8 {
    (cyl * step % 0x100) as u8
}

/// The commands that read a track of the disk.
pub open spec fn track_reading(v: SourceView, r: TrackRequest) -> Seq<Command> {
    seq![
        Command::Select(v.unit),
        Command::SetMotor(v.unit, true),
        Command::Seek(seek_to(r.cyl, v.step)),
        Command::SelectHead(if r.head == 0 { v.head_map.0 } else { v.head_map.1 }),
        Command::ReadFlux(r.revs),
        Command::GetFluxStatus,
    ]
}

impl GreaseweazleSource {
    /// A disk of which no track was read yet.
    pub fn new(
        geom: Geometry,
        disk_kind: DiskKind,
        unit: u8,
        revs: u16,
        recover: bool,
        step: u8,
        head_map: (u8, u8),
    ) -> (s: GreaseweazleSource)
        ensures
            s@ == (SourceView {
                geom,
                disk_kind,
                unit,
                revs,
                recover,
                step,
                head_map,
                track: None,
                sectors: Map::empty(),
                bad: Set::empty(),
            }),
    {
        broadcast use vstd::std_specs::hash::group_hash_axioms;

        let s = GreaseweazleSource {
            geom,
            disk_kind,
            unit,
            revs,
            recover,
            step,
            head_map,
            track: None,
            sectors: HashMap::new(),
            bad: BadSectors::new(),
        };
        assert(s@.sectors =~= Map::<u8, SectorView>::empty());
        s
    }

    /// The commands that read a track; the last but one yields the flux stream.
    pub fn track_commands(&self, r: &TrackRequest) -> (commands: Vec<Command>)
        requires
            r.head < 2,
        ensures
            commands@ == seq![
                Command::Select(self@.unit),
                Command::SetMotor(self@.unit, true),
                Command::Seek(seek_to(r.cyl, self@.step)),
                Command::SelectHead(if r.head == 0 { self@.head_map.0 } else { self@.head_map.1 }),
                Command::ReadFlux(r.revs),
                Command::GetFluxStatus,
            ],
            commands@ == track_reading(self@, *r),
            r.cyl * self@.step <= 255 ==> commands@[2] == Command::Seek((r.cyl * self@.step) as u8),
            r.head == 0 ==> commands@[3] == Command::SelectHead(self@.head_map.0),
            r.head == 1 ==> commands@[3] == Command::SelectHead(self@.head_map.1),
    {
        let head: u8 = if r.head == 0 {
            self.head_map.0
        } else {
            self.head_map.1
        };
        assert(r.cyl * self.step <= 0xFFFF * 0xFF) by (nonlinear_arith)
            requires
                r.cyl <= 0xFFFF,
                self.step <= 0xFF,
        ;
        let to: u8 = (r.cyl as u32 * self.step as u32 % 0x100) as u8;
        vec![
            Command::Select(self.unit),
            Command::SetMotor(self.unit, true),
            Command::Seek(to),
            Command::SelectHead(head),
            Command::ReadFlux(r.revs),
            Command::GetFluxStatus,
        ]
    }

    fn have_good(&self, sector: u8) -> (r: bool)
        ensures
            r == self@.has_good(sector),
    {
        broadcast use vstd::std_specs::hash::group_hash_axioms;

        match self.sectors.get(&sector) {
            Some(s) => s.data_crc_ok,
            None => false,
        }
    }

    /// The data of a known sector.
    fn data_of(&self, sector: u8) -> (r: Option<Vec<u8>>)
        ensures
            match r {
                Some(d) => self@.sectors.contains_key(sector) && d@ == self@.sectors[sector].data,
                None => !self@.sectors.contains_key(sector),
            },
    {
        broadcast use vstd::std_specs::hash::group_hash_axioms;

        match self.sectors.get(&sector) {
            Some(s) => Some(copy(s.data.as_slice())),
            None => None,
        }
    }

    fn ask(&self, place: Place, revs: u32, fresh: bool, attempt: u8) -> (step: Step)
        ensures
            step@ == self@.ask(place, revs as int, fresh, attempt),
    {
        if revs < 0xFFFF {
            Step::ReadTrack(
                TrackRequest {
                    cyl: place.0,
                    head: place.1,
                    sector: place.2,
                    revs: revs as u16,
                    fresh,
                    attempt,
                },
            )
        } else {
            Step::Finished(Err(unreadable_error()))
        }
    }

    /// Adds the sectors that a read of the track brought.
    fn keep(&mut self, found: Vec<Sector>)
        ensures
            final(self)@ == (SourceView {
                sectors: keep_best(old(self)@.sectors, sector_views(found@)),
                ..old(self)@
            }),
    {
        broadcast use vstd::std_specs::hash::group_hash_axioms;

        let mut found: Vec<Sector> = found;
        let ghost target = keep_best(self@.sectors, sector_views(found@));
        let ghost start = *self;
        while found.len() > 0
            invariant
                keep_best(self@.sectors, sector_views(found@)) == target,
                self@ == (SourceView { sectors: self@.sectors, ..start@ }),
            decreases found.len(),
        {
            broadcast use vstd::std_specs::hash::group_hash_axioms;

            let ghost views = sector_views(found@);
            let ghost had = self@;
            let s: Sector = found.remove(0);
            proof {
                assert(views[0] == s@);
                assert(views.drop_first() =~= sector_views(found@));
            }
            let better: bool = match self.sectors.get(&s.sector) {
                Some(known) => !known.data_crc_ok && s.data_crc_ok,
                None => true,
            };
            if better {
                let ghost number = s.sector;
                let ghost view = s@;
                self.sectors.insert(s.sector, s);
                assert(self@.sectors =~= had.sectors.insert(number, view));
            }
            assert(self@.sectors == keep_better(had.sectors, views[0]));
        }
    }

    fn drop_old(&mut self, r: &TrackRequest)
        ensures
            final(self)@ == old(self)@.at_track(*r),
    {
        broadcast use vstd::std_specs::hash::group_hash_axioms;

        if r.fresh {
            self.sectors.clear();
            self.track = Some((r.cyl, r.head));
            assert(self@.sectors =~= Map::<u8, SectorView>::empty());
        }
    }

    fn pass_over(&mut self, place: Place) -> (step: Step)
        ensures
            (final(self)@, step@) == old(self)@.passed_over(place),
    {
        self.bad.insert(place);
        Step::Finished(Ok(zeros(self.geom.bytes_per_sector as usize)))
    }

    fn next(&mut self, place: Place, attempt: u8) -> (step: Step)
        ensures
            (final(self)@, step@) == old(self)@.next(place, attempt),
    {
        let sector: u8 = place.2;
        if self.have_good(sector) {
            if let Some(data) = self.data_of(sector) {
                return Step::Finished(Ok(data));
            }
        }
        if attempt < 2 {
            let revs: u32 = self.revs as u32 + 3 * (attempt as u32 + 1);
            if revs < 0xFFFF || !self.recover {
                return self.ask(place, revs, false, attempt + 1);
            }
        }
        if self.recover {
            return self.pass_over(place);
        }
        let known: Option<Vec<u8>> = self.data_of(sector);
        let mut message: String = name_sector(place);
        match known {
            Some(_) => {
                message.append(": CRC не сошёлся (пробуй --recover)");
                Step::Finished(Err(IoError { kind: IoErrorKind::InvalidData, message }))
            },
            None => {
                message.append(" не найден (пробуй --recover)");
                Step::Finished(Err(IoError { kind: IoErrorKind::NotFound, message }))
            },
        }
    }

    /// Starts to read a block.
    pub fn begin(&mut self, lba: u64) -> (step: Step)
        ensures
            (final(self)@, step@) == old(self)@.begin(lba as int),
    {
        if self.geom.sectors_per_track == 0 || self.geom.heads == 0 {
            return Step::Finished(Err(unreadable_error()));
        }
        let place: Place = lba_to_chs(&self.geom, lba);
        if place.1 >= 2 {
            return Step::Finished(Err(unreadable_error()));
        }
        let here: bool = match self.track {
            Some((c, h)) => c == place.0 && h == place.1,
            None => false,
        };
        if !here {
            if self.revs < 0xFFFF || !self.recover {
                return self.ask(place, self.revs as u32, true, 0);
            }
            return self.pass_over(place);
        }
        self.next(place, 0)
    }

    /// Goes on with a block when a track was read: `answer` is the flux stream of
    /// the track, or what went wrong.
    pub fn resume(&mut self, r: TrackRequest, answer: Result<Vec<u8>, IoError>) -> (step: Step)
        ensures
            (final(self)@, step@) == old(self)@.resume(r, reply_of(answer)),
    {
        let place: Place = (r.cyl, r.head, r.sector);
        match answer {
            Ok(raw) => match decode_stream(raw.as_slice()) {
                Some(found) => {
                    self.drop_old(&r);
                    self.keep(found);
                    self.next(place, r.attempt)
                },
                None => {
                    if self.recover {
                        self.drop_old(&r);
                        self.next(place, r.attempt)
                    } else {
                        Step::Finished(Err(unreadable_error()))
                    }
                },
            },
            Err(e) => {
                if e.kind != IoErrorKind::NotConnected && self.recover {
                    self.drop_old(&r);
                    self.next(place, r.attempt)
                } else {
                    Step::Finished(Err(e))
                }
            },
        }
    }

    /// The sectors in whose place zeros were given out.
    pub fn bad_sectors(&self) -> (bad: &BadSectors)
        ensures
            bad@ == self@.bad,
    {
        &self.bad
    }
}

} // verus!
