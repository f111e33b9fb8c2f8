//! Reading blocks from a live disk, with the device played by the test.

use floppy_mac::error::IoError;
use floppy_mac::error::IoErrorKind;
use floppy_mac::greaseweazle_src::bad::BadSectors;
use floppy_mac::greaseweazle_src::opening::head_commands;
use floppy_mac::greaseweazle_src::opening::park_commands;
use floppy_mac::greaseweazle_src::opening::spin_up;
use floppy_mac::greaseweazle_src::opening::Action;
use floppy_mac::greaseweazle_src::opening::OpenOptions;
use floppy_mac::greaseweazle_src::opening::OpenStep;
use floppy_mac::greaseweazle_src::opening::Opening;
use floppy_mac::greaseweazle_src::source::GreaseweazleSource;
use floppy_mac::greaseweazle_src::source::Step;
use floppy_mac::greaseweazle_src::source::TrackRequest;
use floppy_mac::greaseweazle_src::DiskKind;
use floppy_mac::greaseweazle_src::Geometry;
use floppy_mac::gw::BusType;
use floppy_mac::gw::Command;
use floppy_mac::mfm::encode::sector;

/// The flux stream of a track with the given sectors.
fn stream(sectors: &[(u8, u8, Vec<u8>)], damage: Option<usize>) -> Vec<u8> {
    let mut cells = Vec::new();
    for (i, (number, code, data)) in sectors.iter().enumerate() {
        let mut c = sector(0, 0, *number, *code, data);
        if damage == Some(i) {
            let bit = (72 + 20) * 16 + 1;
            c[bit] = !c[bit];
        }
        cells.extend(c);
    }
    let mut out = Vec::new();
    let mut last: Option<usize> = None;
    for (i, &c) in cells.iter().enumerate() {
        if c {
            if let Some(l) = last {
                let ticks = (i - l) * 72;
                if ticks < 250 {
                    out.push(ticks as u8);
                } else {
                    out.push((250 + (ticks - 250) / 255) as u8);
                    out.push(((ticks - 250) % 255 + 1) as u8);
                }
            }
            last = Some(i);
        }
    }
    out.push(0);
    out
}

fn block(n: u8) -> Vec<u8> {
    (0..512u32).map(|i| (i as u8).wrapping_mul(n)).collect()
}

fn geometry() -> Geometry {
    Geometry {
        cylinders: 80,
        heads: 2,
        sectors_per_track: 3,
        bytes_per_sector: 512,
        total_sectors: 480,
    }
}

fn source(recover: bool) -> GreaseweazleSource {
    GreaseweazleSource::new(geometry(), DiskKind::Fat, 1, 3, recover, 2, (1, 0))
}

fn track() -> Vec<(u8, u8, Vec<u8>)> {
    (1..=3).map(|n| (n, 2, block(n))).collect()
}

fn asked(step: Step) -> TrackRequest {
    match step {
        Step::ReadTrack(r) => r,
        Step::Finished(_) => panic!("a track is to be read"),
    }
}

fn finished(step: Step) -> Result<Vec<u8>, IoError> {
    match step {
        Step::Finished(r) => r,
        Step::ReadTrack(_) => panic!("no track is to be read"),
    }
}

#[test]
fn a_track_is_read_for_its_sectors() {
    let mut s = source(false);
    let r = asked(s.begin(7));
    assert_eq!(
        r,
        TrackRequest { cyl: 1, head: 0, sector: 2, revs: 3, fresh: true, attempt: 0 }
    );
    assert_eq!(
        s.track_commands(&r),
        vec![
            Command::Select(1),
            Command::SetMotor(1, true),
            Command::Seek(2),
            Command::SelectHead(1),
            Command::ReadFlux(3),
            Command::GetFluxStatus,
        ]
    );
    let step = s.resume(r, Ok(stream(&track(), None)));
    assert_eq!(finished(step).unwrap(), block(2));
    // The other sectors of the track are known now.
    assert_eq!(finished(s.begin(6)).unwrap(), block(1));
    assert_eq!(finished(s.begin(8)).unwrap(), block(3));
    // The next track is not.
    assert_eq!(asked(s.begin(9)).head, 1);
}

#[test]
fn damaged_sectors_are_read_again() {
    let mut s = source(false);
    let r = asked(s.begin(1));
    let r = asked(s.resume(r, Ok(stream(&track(), Some(1)))));
    assert_eq!((r.revs, r.fresh, r.attempt), (6, false, 1));
    let r = asked(s.resume(r, Ok(stream(&track(), Some(1)))));
    assert_eq!((r.revs, r.fresh, r.attempt), (9, false, 2));
    let e = finished(s.resume(r, Ok(stream(&track(), Some(1))))).unwrap_err();
    assert_eq!(e.kind, IoErrorKind::InvalidData);
    assert_eq!(e.message, "сектор C0 H0 R2: CRC не сошёлся (пробуй --recover)");
    // An intact version replaces a damaged one, and is kept.
    let r = asked(s.begin(1));
    assert_eq!((r.attempt, r.fresh), (1, false));
    assert_eq!(finished(s.resume(r, Ok(stream(&track(), None)))).unwrap(), block(2));
    assert_eq!(finished(s.begin(1)).unwrap(), block(2));
}

#[test]
fn missing_sectors_are_not_found() {
    let two = vec![(1u8, 2u8, block(1)), (3, 2, block(3))];
    let mut s = source(false);
    let r = asked(s.begin(1));
    let r = asked(s.resume(r, Ok(stream(&two, None))));
    let r = asked(s.resume(r, Ok(stream(&two, None))));
    let e = finished(s.resume(r, Ok(stream(&two, None)))).unwrap_err();
    assert_eq!(e.kind, IoErrorKind::NotFound);
    assert_eq!(e.message, "сектор C0 H0 R2 не найден (пробуй --recover)");
}

#[test]
fn recovery_gives_zeros() {
    let mut s = source(true);
    let r = asked(s.begin(1));
    let r = asked(s.resume(r, Ok(stream(&track(), Some(1)))));
    // A failed read is passed over.
    let r = asked(s.resume(r, Err(IoError::new(IoErrorKind::Other, "x"))));
    // A sector whose CRC does not match comes as zeros, and intact ones as they are.
    let data = finished(s.resume(r, Ok(stream(&track(), Some(1))))).unwrap();
    assert_eq!(data, vec![0u8; 512]);
    assert_eq!(finished(s.begin(2)).unwrap(), block(3));
    // So does one that was never found.
    let r = asked(s.begin(3));
    let r = asked(s.resume(r, Err(IoError::new(IoErrorKind::Other, "x"))));
    let r = asked(s.resume(r, Err(IoError::new(IoErrorKind::Other, "x"))));
    let data = finished(s.resume(r, Err(IoError::new(IoErrorKind::Other, "x")))).unwrap();
    assert_eq!(data, vec![0u8; 512]);
    assert_eq!(
        s.bad_sectors().report(),
        vec!["Проблемных секторов: 2 (C/H/R):", "  C0 H0 R2", "  C0 H1 R1"]
    );
}

#[test]
fn errors_of_the_device_come_through() {
    let mut s = source(false);
    let r = asked(s.begin(0));
    let e = finished(s.resume(r, Err(IoError::new(IoErrorKind::Other, "why")))).unwrap_err();
    assert_eq!((e.kind, e.message.as_str()), (IoErrorKind::Other, "why"));
    // The loss of the disk is never passed over.
    let mut s = source(true);
    let r = asked(s.begin(0));
    let e = finished(s.resume(r, Err(IoError::new(IoErrorKind::NotConnected, "gone"))));
    assert_eq!(e.unwrap_err().kind, IoErrorKind::NotConnected);
    assert!(s.bad_sectors().report().is_empty());
}

#[test]
fn flux_that_cannot_be_decoded_is_a_failed_read() {
    let mut raw = vec![255u8, 2, 255, 255, 255, 255].repeat(20);
    raw.push(0);
    let mut s = source(false);
    let r = asked(s.begin(0));
    assert_eq!(finished(s.resume(r, Ok(raw.clone()))).unwrap_err().kind, IoErrorKind::Other);
    // Recovery reads again, and gives zeros in the end.
    let mut s = source(true);
    let r = asked(s.begin(0));
    let r = asked(s.resume(r, Ok(raw.clone())));
    assert_eq!((r.revs, r.attempt), (6, 1));
    let r = asked(s.resume(r, Ok(raw.clone())));
    assert_eq!(finished(s.resume(r, Ok(raw))).unwrap(), vec![0u8; 512]);
    assert_eq!(s.bad_sectors().report().len(), 2);
    // A good read in between gives the sector.
    let r = asked(s.begin(3));
    let mut raw = vec![255u8, 2, 255, 255, 255, 255].repeat(20);
    raw.push(0);
    let r = asked(s.resume(r, Ok(raw)));
    assert_eq!(finished(s.resume(r, Ok(stream(&track(), None)))).unwrap(), block(1));
}

#[test]
fn what_cannot_be_served_is_refused() {
    let mut g = geometry();
    g.sectors_per_track = 0;
    let mut s = GreaseweazleSource::new(g, DiskKind::Fat, 0, 3, true, 1, (0, 1));
    assert_eq!(finished(s.begin(0)).unwrap_err().kind, IoErrorKind::Other);
    let mut g = geometry();
    g.heads = 3;
    let mut s = GreaseweazleSource::new(g, DiskKind::Fat, 0, 3, true, 1, (0, 1));
    assert_eq!(finished(s.begin(6)).unwrap_err().kind, IoErrorKind::Other);
    let mut s = GreaseweazleSource::new(geometry(), DiskKind::Fat, 0, 65_535, false, 1, (0, 1));
    assert_eq!(finished(s.begin(0)).unwrap_err().kind, IoErrorKind::Other);
    let mut s = GreaseweazleSource::new(geometry(), DiskKind::Fat, 0, 65_535, true, 1, (0, 1));
    assert_eq!(finished(s.begin(0)).unwrap(), vec![0u8; 512]);
    assert_eq!(s.bad_sectors().report().len(), 2);
    let mut s = GreaseweazleSource::new(geometry(), DiskKind::Fat, 0, 65_533, false, 1, (0, 1));
    let r = asked(s.begin(0));
    let e = finished(s.resume(r, Ok(vec![0]))).unwrap_err();
    assert_eq!(e.kind, IoErrorKind::Other);
}

fn options(hd: bool, step: Option<u8>) -> OpenOptions {
    OpenOptions { unit: 0, bus: BusType::Shugart, hd, revs: 3, recover: false, step }
}

#[test]
fn a_drive_is_spun_up() {
    let plain = spin_up(&options(false, None));
    assert_eq!(
        plain,
        vec![
            Action::Run(Command::SetBusType(BusType::Shugart)),
            Action::Run(Command::Select(0)),
            Action::Run(Command::SetMotor(0, true)),
            Action::Pause(800),
            Action::Run(Command::Seek(0)),
        ]
    );
    let hd = spin_up(&options(true, None));
    assert_eq!(hd[3], Action::Attempt(Command::SetPin(2, false)));
    assert_eq!(hd.len(), 6);
    assert_eq!(
        head_commands(1, 5),
        vec![Command::SelectHead(1), Command::ReadFlux(5), Command::GetFluxStatus]
    );
    assert_eq!(park_commands(1), vec![Command::SetMotor(1, false), Command::Deselect]);
}

fn fat_track() -> Vec<u8> {
    let mut boot = vec![0u8; 512];
    boot[0x0B..0x0D].copy_from_slice(&512u16.to_le_bytes());
    boot[0x13..0x15].copy_from_slice(&2880u16.to_le_bytes());
    boot[0x18] = 18;
    boot[0x1A] = 2;
    stream(&[(1, 2, boot)], None)
}

#[test]
fn a_disk_is_opened_under_head_0() {
    let (mut o, step) = Opening::new(options(false, Some(2)));
    assert!(matches!(step, OpenStep::ReadHead(0)));
    match o.head_read(&fat_track()) {
        OpenStep::Opened(s) => {
            assert_eq!(s.disk_kind, DiskKind::Fat);
            assert_eq!((s.geom.cylinders, s.step, s.head_map), (80, 2, (0, 1)));
        }
        _ => panic!("the disk has a format"),
    }
}

#[test]
fn the_other_side_is_tried() {
    let small: Vec<(u8, u8, Vec<u8>)> = (1..=16).map(|n| (n, 1, vec![n; 256])).collect();
    let (mut o, _) = Opening::new(options(false, None));
    assert!(matches!(o.head_read(&[0]), OpenStep::ReadHead(1)));
    match o.head_read(&stream(&small, None)) {
        OpenStep::Opened(s) => {
            assert_eq!(s.disk_kind, DiskKind::TrDos);
            assert_eq!((s.geom.sectors_per_track, s.step, s.head_map), (16, 1, (1, 0)));
        }
        _ => panic!("the disk has a format"),
    }
}

#[test]
fn a_disk_without_a_format_is_refused() {
    let (mut o, _) = Opening::new(options(false, None));
    let odd = stream(&[(5, 0, vec![0; 128]), (6, 0, vec![0; 128])], None);
    assert!(matches!(o.head_read(&odd), OpenStep::ReadHead(1)));
    match o.head_read(&[0]) {
        OpenStep::Failed(e) => {
            assert_eq!(e.kind, IoErrorKind::InvalidData);
            assert_eq!(
                e.message,
                "формат дискеты не распознан.\n  Head 0: 2 секторов, R=[5, 6]\n  \
                 Head 1: 0 секторов, R=[]\n  Попробуй: -v (подробный лог), \
                 --hd (5.25\" HD привод), --revs 5 (ненадёжные дискеты)."
            );
        }
        _ => panic!("there is no format"),
    }
}

#[test]
fn undecodable_tracks_hold_no_sectors() {
    let mut raw = vec![255u8, 2, 255, 255, 255, 255].repeat(20);
    raw.push(0);
    let (mut o, _) = Opening::new(options(false, None));
    assert!(matches!(o.head_read(&raw), OpenStep::ReadHead(1)));
    match o.head_read(&fat_track()) {
        OpenStep::Opened(s) => assert_eq!((s.disk_kind, s.head_map), (DiskKind::Fat, (1, 0))),
        _ => panic!("the disk has a format"),
    }
    let (mut o, _) = Opening::new(options(false, None));
    assert!(matches!(o.head_read(&raw), OpenStep::ReadHead(1)));
    match o.head_read(&raw) {
        OpenStep::Failed(e) => assert_eq!(e.kind, IoErrorKind::InvalidData),
        _ => panic!("there is no format"),
    }
}

#[test]
fn bad_sectors_are_kept_in_order() {
    let mut b = BadSectors::new();
    for p in [(3, 1, 2), (0, 1, 9), (3, 0, 5), (3, 1, 2), (0, 1, 1)] {
        b.insert(p);
    }
    assert_eq!(*b.places(), vec![(0, 1, 1), (0, 1, 9), (3, 0, 5), (3, 1, 2)]);
    assert_eq!(b.report().len(), 5);
    assert!(BadSectors::new().report().is_empty());
}
