//! Finding out what disk is in the drive.
//!
//! The drive is spun up and track 0 is read under head 0. If no format is found
//! there, head 1 is tried; the heads are then swapped for all that follows. A stream
//! that cannot be decoded holds no sectors.

use super::detect_format;
use super::format_of;
use super::source::decode_stream;
use super::source::sectors_of_stream;
use super::source::GreaseweazleSource;
use super::source::SourceView;
use super::DiskKind;
use super::Geometry;
use crate::error::is_error;
use crate::error::IoError;
use crate::error::IoErrorKind;
use crate::gw::BusType;
use crate::gw::Command;
use crate::mfm::sector_views;
use crate::mfm::Sector;
use crate::mfm::SectorView;
use crate::text::decimal;
use crate::text::push_decimal;
use vstd::prelude::*;

verus! {

/// The time that a drive takes to reach its speed.
pub const SPIN_UP_MS: u64 = 800;

/// The pin that selects the density.
pub const DENSITY_PIN: u8 = 2;

/// How a disk is to be read.
#[derive(Debug, Clone, Copy, PartialEq, Eq, Structural)]
pub struct OpenOptions {
    pub unit: u8,
    pub bus: BusType,
    /// Whether the drive is to be switched to high density.
    pub hd: bool,
    pub revs: u16,
    pub recover: bool,
    /// How many steps of the drive make one cylinder, one if not said.
    pub step: Option<u8>,
}

/// Something to do with the device.
#[derive(Debug, Clone, Copy, PartialEq, Eq, Structural)]
pub enum Action {
    Run(Command),
    /// A command whose failure does not matter.
    Attempt(Command),
    /// So many milliseconds of rest.
    Pause(u64),
}

/// The actions that bring the drive up to speed, with the heads on cylinder 0.
pub open spec fn spin_up_actions(o: OpenOptions) -> Seq<Action> {
    seq![
        Action::Run(Command::SetBusType(o.bus)),
        Action::Run(Command::Select(o.unit)),
        Action::Run(Command::SetMotor(o.unit, true)),
    ] + (if o.hd {
        seq![Action::Attempt(Command::SetPin(DENSITY_PIN, false))]
    } else {
        seq![]
    }) + seq![Action::Pause(SPIN_UP_MS), Action::Run(Command::Seek(0))]
}

pub fn spin_up(o: &OpenOptions) -> (actions: Vec<Action>)
    ensures
        actions@ == spin_up_actions(*o),
{
    let mut actions: Vec<Action> = Vec::new();
    actions.push(Action::Run(Command::SetBusType(o.bus)));
    actions.push(Action::Run(Command::Select(o.unit)));
    actions.push(Action::Run(Command::SetMotor(o.unit, true)));
    if o.hd {
        actions.push(Action::Attempt(Command::SetPin(DENSITY_PIN, false)));
    }
    actions.push(Action::Pause(SPIN_UP_MS));
    actions.push(Action::Run(Command::Seek(0)));
    assert(actions@ =~= spin_up_actions(*o));
    actions
}

/// The commands that read the track under a head.
pub open spec fn head_reading(head: u8, revs: u16) -> Seq<Command> {
    seq![Command::SelectHead(head), Command::ReadFlux(revs), Command::GetFluxStatus]
}

/// The commands that read the track under a head; the last but one yields the flux
/// stream.
pub fn head_commands(head: u8, revs: u16) -> (commands: Vec<Command>)
    ensures
        commands@ == seq![
            Command::SelectHead(head),
            Command::ReadFlux(revs),
            Command::GetFluxStatus,
        ],
        commands@ == head_reading(head, revs),
{
    vec![Command::SelectHead(head), Command::ReadFlux(revs), Command::GetFluxStatus]
}

/// The commands that leave a drive alone.
pub open spec fn parking(unit: u8) -> Seq<Command> {
    seq![Command::SetMotor(unit, false), Command::Deselect]
}

/// The commands that leave the drive alone.
pub fn park_commands(unit: u8) -> (commands: Vec<Command>)
    ensures
        commands@ == seq![Command::SetMotor(unit, false), Command::Deselect],
        commands@ == parking(unit),
{
    vec![Command::SetMotor(unit, false), Command::Deselect]
}

/// What comes next while a disk is opened.
pub enum OpenStep {
    /// Read track 0 under this head.
    ReadHead(u8),
    Opened(GreaseweazleSource),
    Failed(IoError),
}

/// What an [`OpenStep`] says.
pub enum OpenStepView {
    ReadHead(u8),
    Opened(SourceView),
    Failed(IoErrorKind, Seq<char>),
}

impl View for OpenStep {
    type V = OpenStepView;

    open spec fn view(&self) -> OpenStepView {
        match self {
            OpenStep::ReadHead(h) => OpenStepView::ReadHead(*h),
            OpenStep::Opened(s) => OpenStepView::Opened(s@),
            OpenStep::Failed(e) => OpenStepView::Failed(e.kind, e.message@),
        }
    }
}

/// A disk that is being opened.
pub struct Opening {
    options: OpenOptions,
    /// The sectors under head 0, once they were read.
    first: Option<Vec<Sector>>,
}

/// What an [`Opening`] knows.
pub struct OpeningView {
    pub options: OpenOptions,
    pub first: Option<Seq<SectorView>>,
}

impl View for Opening {
    type V = OpeningView;

    closed spec fn view(&self) -> OpeningView {
        OpeningView {
            options: self.options,
            first: match self.first {
                Some(v) => Some(sector_views(v@)),
                None => None,
            },
        }
    }
}

/// The numbers of the sectors, as they came, in brackets.
pub open spec fn numbers_text(sectors: Seq<SectorView>) -> Seq<char> {
    "["@ + numbers_list(sectors) + "]"@
}

pub open spec fn numbers_list(sectors: Seq<SectorView>) -> Seq<char>
    decreases sectors.len(),
{
    if sectors.len() == 0 {
        Seq::empty()
    } else if sectors.len() == 1 {
        decimal(sectors[0].sector as nat)
    } else {
        numbers_list(sectors.drop_last()) + ", "@ + decimal(sectors.last().sector as nat)
    }
}

/// The message where neither side of the disk has a known format.
pub open spec fn no_format_message(a: Seq<SectorView>, b: Seq<SectorView>) -> Seq<char> {
    "формат дискеты не распознан.\n  Head 0: "@ + decimal(a.len()) + " секторов, R="@
        + numbers_text(a) + "\n  Head 1: "@ + decimal(b.len()) + " секторов, R="@ + numbers_text(b)
        + "\n  Попробуй: -v (подробный лог), --hd (5.25\" HD привод), --revs 5 (ненадёжные дискеты)."@
}

/// The disk as it is found, with no track read.
pub open spec fn found_disk(
    o: OpenOptions,
    format: (Geometry, DiskKind),
    head_map: (u8, u8),
) -> SourceView {
    SourceView {
        geom: format.0,
        disk_kind: format.1,
        unit: o.unit,
        revs: o.revs,
        recover: o.recover,
        step: match o.step {
            Some(n) => n,
            None => 1,
        },
        head_map,
        track: None,
        sectors: Map::empty(),
        bad: Set::empty(),
    }
}

/// The sectors under a head; none where the stream cannot be decoded.
pub open spec fn sectors_under_head(raw: Seq<u8>) -> Seq<SectorView> {
    match sectors_of_stream(raw) {
        Some(found) => found,
        None => Seq::empty(),
    }
}

impl OpeningView {
    /// What comes next when a head was read.
    pub open spec fn head_read(self, raw: Seq<u8>) -> OpenStepView {
        let found = sectors_under_head(raw);
        match (self.first, format_of(found)) {
            (None, Some(format)) => OpenStepView::Opened(found_disk(self.options, format, (0, 1))),
            (None, None) => OpenStepView::ReadHead(1),
            (Some(_), Some(format)) => OpenStepView::Opened(
                found_disk(self.options, format, (1, 0)),
            ),
            (Some(first), None) => OpenStepView::Failed(
                IoErrorKind::InvalidData,
                no_format_message(first, found),
            ),
        }
    }

    /// What is known when a head was read.
    pub open spec fn after(self, raw: Seq<u8>) -> OpeningView {
        if self.head_read(raw) is ReadHead {
            OpeningView { first: Some(sectors_under_head(raw)), ..self }
        } else {
            self
        }
    }
}

fn push_numbers(text: &mut String, sectors: &[Sector])
    ensures
        final(text)@ == old(text)@ + numbers_text(sector_views(sectors@)),
{
    let ghost start = text@;
    let ghost all = sector_views(sectors@);
    text.append("[");
    let mut i: usize = 0;
    assert(all.take(0) =~= Seq::<SectorView>::empty());
    assert(text@ =~= start + "["@ + numbers_list(all.take(0)));
    while i < sectors.len()
        invariant
            i <= sectors.len(),
            all == sector_views(sectors@),
            text@ == start + "["@ + numbers_list(all.take(i as int)),
        decreases sectors.len() - i,
    {
        proof {
            assert(all.take(i + 1).drop_last() =~= all.take(i as int));
            assert(all.take(i + 1).last() == all[i as int]);
        }
        if i > 0 {
            text.append(", ");
        }
        push_decimal(text, sectors[i].sector as u64);
        i = i + 1;
        assert(text@ =~= start + "["@ + numbers_list(all.take(i as int)));
    }
    text.append("]");
    assert(all.take(i as int) =~= all);
    assert(text@ =~= start + numbers_text(all));
}

fn no_format(a: &[Sector], b: &[Sector]) -> (e: IoError)
    ensures
        is_error(
            e,
            IoErrorKind::InvalidData,
            no_format_message(sector_views(a@), sector_views(b@)),
        ),
{
    let mut message: String = "формат дискеты не распознан.\n  Head 0: ".to_owned();
    push_decimal(&mut message, a.len() as u64);
    message.append(" секторов, R=");
    push_numbers(&mut message, a);
    message.append("\n  Head 1: ");
    push_decimal(&mut message, b.len() as u64);
    message.append(" секторов, R=");
    push_numbers(&mut message, b);
    message.append(
        "\n  Попробуй: -v (подробный лог), --hd (5.25\" HD привод), --revs 5 (ненадёжные дискеты).",
    );
    IoError { kind: IoErrorKind::InvalidData, message }
}

impl Opening {
    /// Starts to open a disk: head 0 is to be read.
    pub fn new(options: OpenOptions) -> (r: (Opening, OpenStep))
        ensures
            r.0@ == (OpeningView { options, first: None }),
            r.1@ == OpenStepView::ReadHead(0),
    {
        (Opening { options, first: None }, OpenStep::ReadHead(0))
    }

    fn opened(&self, format: (Geometry, DiskKind), head_map: (u8, u8)) -> (s: GreaseweazleSource)
        ensures
            s@ == found_disk(self@.options, format, head_map),
    {
        let o: OpenOptions = self.options;
        let step: u8 = match o.step {
            Some(n) => n,
            None => 1,
        };
        GreaseweazleSource::new(
            format.0,
            format.1,
            o.unit,
            o.revs,
            o.recover,
            step,
            head_map,
        )
    }

    /// Goes on when a head was read: `raw` is the flux stream of its track.
    pub fn head_read(&mut self, raw: &[u8]) -> (step: OpenStep)
        ensures
            step@ == old(self)@.head_read(raw@),
            final(self)@ == (if step@ is ReadHead {
                OpeningView { first: Some(sectors_under_head(raw@)), ..old(self)@ }
            } else {
                old(self)@
            }),
            final(self)@ == old(self)@.after(raw@),
    {
        let found: Vec<Sector> = match decode_stream(raw) {
            Some(v) => v,
            None => Vec::new(),
        };
        assert(sector_views(found@) =~= sectors_under_head(raw@));
        let format: Option<(Geometry, DiskKind)> = detect_format(found.as_slice());
        match &self.first {
            None => match format {
                Some(f) => OpenStep::Opened(self.opened(f, (0, 1))),
                None => {
                    self.first = Some(found);
                    OpenStep::ReadHead(1)
                },
            },
            Some(first) => match format {
                Some(f) => OpenStep::Opened(self.opened(f, (1, 0))),
                None => OpenStep::Failed(no_format(first.as_slice(), found.as_slice())),
            },
        }
    }
}

/// The disk is opened after at most two reads.
pub proof fn law_opened_after_two_reads(v: OpeningView, raw: Seq<u8>)
    requires
        v.first is Some,
    ensures
        !(v.head_read(raw) is ReadHead),
{
}

/// A disk whose format stands under head 0 is opened at once; one whose format
/// stands under head 1 only, as where head 0 cannot be read, is opened with the heads
/// swapped.
pub proof fn law_other_side_is_tried(
    o: OpenOptions,
    raw0: Seq<u8>,
    raw1: Seq<u8>,
)
    ensures
        ({
            let a = sectors_under_head(raw0);
            let b = sectors_under_head(raw1);
            let start = OpeningView { options: o, first: None };
            let second = OpeningView { options: o, first: Some(a) };
            &&& format_of(a) matches Some(f) ==> start.head_read(raw0) == OpenStepView::Opened(
                found_disk(o, f, (0, 1)),
            )
            &&& format_of(a) is None ==> start.head_read(raw0) == OpenStepView::ReadHead(1)
            &&& format_of(b) matches Some(f) ==> second.head_read(raw1) == OpenStepView::Opened(
                found_disk(o, f, (1, 0)),
            )
        }),
{
}

/// A disk that was found has the geometry and the format that its track says, is read
/// from the unit, with the revolutions, the step and the mode that were asked for, one
/// step to a cylinder where none was asked for; and nothing of it was read yet.
pub proof fn law_disk_is_opened_as_asked(
    o: OpenOptions,
    first: Option<Seq<SectorView>>,
    raw: Seq<u8>,
    found: Seq<SectorView>,
    g: Geometry,
    kind: DiskKind,
)
    requires
        sectors_of_stream(raw) == Some(found),
        format_of(found) == Some((g, kind)),
    ensures
        (OpeningView { options: o, first }).head_read(raw) matches OpenStepView::Opened(v) && {
            &&& v.geom == g && v.disk_kind == kind
            &&& v.unit == o.unit && v.revs == o.revs && v.recover == o.recover
            &&& o.step is None ==> v.step == 1
            &&& o.step matches Some(n) ==> v.step == n
            &&& first is None ==> v.head_map.0 == 0 && v.head_map.1 == 1
            &&& first is Some ==> v.head_map.0 == 1 && v.head_map.1 == 0
            &&& v.track is None
            &&& v.sectors == Map::<u8, SectorView>::empty()
            &&& v.bad == Set::<(u16, u8, u8)>::empty()
        },
{
    assert(sectors_under_head(raw) == found);
}

/// A stream that cannot be decoded counts as a side without sectors.
pub proof fn law_unreadable_side_is_empty(v: OpeningView, raw: Seq<u8>)
    requires
        sectors_of_stream(raw) is None,
    ensures
        v.first is None ==> v.head_read(raw) == OpenStepView::ReadHead(1),
        v.first is Some ==> (v.head_read(raw) matches OpenStepView::Failed(kind, _) && kind
            == IoErrorKind::InvalidData),
{
    let none = Seq::<SectorView>::empty();
    assert(sectors_under_head(raw) == none);
    assert(super::count_256(none) == 0);
    assert(super::first_boot(none, true) is None && super::first_boot(none, false) is None);
}

/// Where neither side has a known format the error says what was met on each: how many
/// sectors, and their numbers in the order in which they came.
pub proof fn law_no_format_is_told(
    o: OpenOptions,
    first: Seq<SectorView>,
    raw: Seq<u8>,
    found: Seq<SectorView>,
)
    requires
        sectors_of_stream(raw) == Some(found),
        format_of(found) is None,
    ensures
        (OpeningView { options: o, first: Some(first) }).head_read(raw) == OpenStepView::Failed(
            IoErrorKind::InvalidData,
            "формат дискеты не распознан.\n  Head 0: "@ + decimal(first.len()) + " секторов, R="@
                + ("["@ + numbers_list(first) + "]"@) + "\n  Head 1: "@ + decimal(found.len())
                + " секторов, R="@ + ("["@ + numbers_list(found) + "]"@)
                + "\n  Попробуй: -v (подробный лог), --hd (5.25\" HD привод), --revs 5 (ненадёжные дискеты)."@,
        ),
{
}

/// Numbers are listed one behind the other, with a comma between them.
pub proof fn law_numbers_are_told(sectors: Seq<SectorView>, s: SectorView)
    ensures
        numbers_list(Seq::empty()) == Seq::<char>::empty(),
        sectors.len() == 0 ==> numbers_list(sectors.push(s)) == decimal(s.sector as nat),
        sectors.len() > 0 ==> numbers_list(sectors.push(s)) == numbers_list(sectors) + ", "@
            + decimal(s.sector as nat),
{
    assert(sectors.push(s).drop_last() =~= sectors);
}

/// What is sent to bring a drive up to speed: the bus and the unit are chosen, the motor
/// is switched on, the density pin is pulled low for high density alone, and the heads go
/// to cylinder 0 after a rest.
pub proof fn law_drive_is_spun_up(o: OpenOptions)
    ensures
        ({
            let a = spin_up_actions(o);
            let n = if o.hd { 4int } else { 3int };
            &&& a.len() == n + 2
            &&& a[0] matches Action::Run(c) && c.spec_frame() == seq![
                14u8,
                3,
                if o.bus == BusType::Ibmpc { 1 } else { 2 },
            ]
            &&& a[1] matches Action::Run(c) && c.spec_frame() == seq![12u8, 3, o.unit]
            &&& a[2] matches Action::Run(c) && c.spec_frame() == seq![6u8, 4, o.unit, 1]
            &&& o.hd ==> (a[3] matches Action::Attempt(c) && c.spec_frame() == seq![
                19u8,
                4,
                2,
                0,
            ])
            &&& a[n] == Action::Pause(800)
            &&& a[n + 1] matches Action::Run(c) && c.spec_frame() == seq![2u8, 3, 0]
        }),
{
    let a = spin_up_actions(o);
    assert(Command::SetBusType(o.bus).spec_frame() =~= seq![
        14u8,
        3,
        if o.bus == BusType::Ibmpc { 1 } else { 2 },
    ]);
    assert(Command::Select(o.unit).spec_frame() =~= seq![12u8, 3, o.unit]);
    assert(Command::SetMotor(o.unit, true).spec_frame() =~= seq![6u8, 4, o.unit, 1]);
    assert(Command::SetPin(DENSITY_PIN, false).spec_frame() =~= seq![19u8, 4, 2, 0]);
    assert(Command::Seek(0).spec_frame() =~= seq![2u8, 3, 0]);
    assert(a[0] == Action::Run(Command::SetBusType(o.bus)));
    assert(a[1] == Action::Run(Command::Select(o.unit)));
    assert(a[2] == Action::Run(Command::SetMotor(o.unit, true)));
}

/// What is sent to read the track under a head, and to leave a drive alone.
pub proof fn law_head_and_parking_frames(head: u8, revs: u16, unit: u8)
    requires
        1 <= revs < u16::MAX,
    ensures
        head_reading(head, revs).len() == 3,
        head_reading(head, revs)[0].spec_frame() == seq![3u8, 3, head],
        head_reading(head, revs)[1] == Command::ReadFlux(revs),
        head_reading(head, revs)[2].spec_frame() == seq![9u8, 2],
        parking(unit).len() == 2,
        parking(unit)[0].spec_frame() == seq![6u8, 4, unit, 0],
        parking(unit)[1].spec_frame() == seq![13u8, 2],
{
    assert(Command::SelectHead(head).spec_frame() =~= seq![3u8, 3, head]);
    assert(Command::GetFluxStatus.spec_frame() =~= seq![9u8, 2]);
    assert(Command::SetMotor(unit, false).spec_frame() =~= seq![6u8, 4, unit, 0]);
    assert(Command::Deselect.spec_frame() =~= seq![13u8, 2]);
}

/// The sectors of a side without a format are kept as they came, for the message; nothing
/// else changes, and what was asked for stays.
pub proof fn law_first_side_is_kept(v: OpeningView, raw: Seq<u8>, found: Seq<SectorView>)
    requires
        sectors_of_stream(raw) == Some(found),
    ensures
        v.after(raw).options == v.options,
        v.first is None && format_of(found) is None ==> v.after(raw).first == Some(found),
        v.first is Some || format_of(found) is Some ==> v.after(raw) == v,
{
}

} // verus!
