//! Geometry, places on the disk, and what a track says.

use floppy_mac::greaseweazle_src::detect_format;
use floppy_mac::greaseweazle_src::lba_to_chs;
use floppy_mac::greaseweazle_src::parse_bpb;
use floppy_mac::greaseweazle_src::track_summary;
use floppy_mac::greaseweazle_src::trdos_geometry;
use floppy_mac::greaseweazle_src::DiskKind;
use floppy_mac::greaseweazle_src::Geometry;
use floppy_mac::mfm::Sector;

#[test]
fn lba_chs_1440k() {
    let g = Geometry {
        cylinders: 80,
        heads: 2,
        sectors_per_track: 18,
        bytes_per_sector: 512,
        total_sectors: 2880,
    };
    assert_eq!(lba_to_chs(&g, 0), (0, 0, 1));
    assert_eq!(lba_to_chs(&g, 17), (0, 0, 18));
    assert_eq!(lba_to_chs(&g, 18), (0, 1, 1));
    assert_eq!(lba_to_chs(&g, 36), (1, 0, 1));
    assert_eq!(lba_to_chs(&g, 2879), (79, 1, 18));
}

#[test]
fn lba_chs_trdos_ss14() {
    let g = Geometry {
        cylinders: 80,
        heads: 1,
        sectors_per_track: 14,
        bytes_per_sector: 256,
        total_sectors: 1120,
    };
    assert_eq!(lba_to_chs(&g, 0), (0, 0, 1));
    assert_eq!(lba_to_chs(&g, 13), (0, 0, 14));
    assert_eq!(lba_to_chs(&g, 14), (1, 0, 1));
}

/// The boot sector of a 1.44 MB disk.
fn boot_sector() -> Vec<u8> {
    let mut boot = vec![0u8; 512];
    boot[0x0B..0x0D].copy_from_slice(&512u16.to_le_bytes());
    boot[0x13..0x15].copy_from_slice(&2880u16.to_le_bytes());
    boot[0x18..0x1A].copy_from_slice(&18u16.to_le_bytes());
    boot[0x1A..0x1C].copy_from_slice(&2u16.to_le_bytes());
    boot
}

#[test]
fn parse_bpb_of_1440k() {
    let g = parse_bpb(&boot_sector()).expect("BPB");
    assert_eq!(g.bytes_per_sector, 512);
    assert_eq!(g.sectors_per_track, 18);
    assert_eq!(g.heads, 2);
    assert_eq!(g.total_sectors, 2880);
    assert_eq!(g.cylinders, 80);
}

#[test]
fn bpb_corner_cases() {
    assert!(parse_bpb(&boot_sector()[..35]).is_none());
    assert!(parse_bpb(&boot_sector()[..36]).is_some());
    for o in [0x0B, 0x13, 0x18, 0x1A] {
        let mut boot = boot_sector();
        boot[o] = 0;
        boot[o + 1] = 0;
        assert!(parse_bpb(&boot).is_none());
    }
    // The large count of sectors, where the small one is zero.
    let mut boot = boot_sector();
    boot[0x13] = 0;
    boot[0x14] = 0;
    boot[0x20..0x24].copy_from_slice(&100_001u32.to_le_bytes());
    let g = parse_bpb(&boot).unwrap();
    assert_eq!(g.total_sectors, 100_001);
    assert_eq!(g.cylinders, 2778);
    // Counts that do not fit keep their low bits.
    let mut boot = boot_sector();
    boot[0x1A..0x1C].copy_from_slice(&258u16.to_le_bytes());
    assert_eq!(parse_bpb(&boot).unwrap().heads, 2);
}

fn sector(number: u8, size_code: u8, ok: bool, data: Vec<u8>) -> Sector {
    Sector {
        cyl: 0,
        head: 0,
        sector: number,
        size_code,
        data,
        id_crc_ok: true,
        data_crc_ok: ok,
        deleted: false,
    }
}

#[test]
fn trdos_tracks_are_recognised() {
    let small = |n: u8, ok: bool| sector(n, 1, ok, vec![0; 256]);
    assert!(trdos_geometry(&[small(1, true), small(2, true), small(3, true)]).is_none());
    let g = trdos_geometry(&[small(1, true), small(16, true), small(3, true), small(4, true)])
        .unwrap();
    assert_eq!(
        g,
        Geometry {
            cylinders: 80,
            heads: 1,
            sectors_per_track: 16,
            bytes_per_sector: 256,
            total_sectors: 1280,
        }
    );
    // A damaged sector counts only where no other is left.
    let g = trdos_geometry(&[small(1, true), small(16, false), small(10, true), small(4, true)])
        .unwrap();
    assert_eq!(g.sectors_per_track, 10);
    let all_bad: Vec<Sector> = (1..=14).map(|n| small(n, false)).collect();
    assert_eq!(trdos_geometry(&all_bad).unwrap().sectors_per_track, 14);
    // The limits of the format.
    let few: Vec<Sector> = (1..=4).map(|n| small(n, true)).collect();
    assert_eq!(trdos_geometry(&few).unwrap().sectors_per_track, 9);
    let many: Vec<Sector> = (1..=40).map(|n| small(n, true)).collect();
    assert_eq!(trdos_geometry(&many).unwrap().sectors_per_track, 16);
}

#[test]
fn formats_are_told_apart() {
    assert!(detect_format(&[]).is_none());
    let boot = sector(1, 2, true, boot_sector());
    assert_eq!(detect_format(&[boot.clone()]).unwrap().1, DiskKind::Fat);
    // An intact boot sector comes before a damaged one.
    let mut other = boot_sector();
    other[0x18] = 9;
    let damaged = sector(1, 2, false, other.clone());
    let (g, _) = detect_format(&[damaged.clone(), boot.clone()]).unwrap();
    assert_eq!(g.sectors_per_track, 18);
    let (g, _) = detect_format(&[damaged]).unwrap();
    assert_eq!(g.sectors_per_track, 9);
    // Without a parameter block the small sectors decide.
    let mut track = vec![sector(1, 2, true, vec![0; 512])];
    assert!(detect_format(&track).is_none());
    for n in 1..=16 {
        track.push(sector(n, 1, true, vec![0; 256]));
    }
    assert_eq!(detect_format(&track).unwrap().1, DiskKind::TrDos);
}

#[test]
fn a_track_is_summed_up() {
    let track = vec![
        sector(9, 2, true, vec![]),
        sector(2, 2, false, vec![]),
        sector(9, 2, true, vec![]),
        sector(255, 2, false, vec![]),
        sector(0, 2, true, vec![]),
    ];
    assert_eq!(track_summary(&track), (3, vec![0, 2, 9, 255]));
}

#[test]
fn places_lead_back() {
    let g = Geometry {
        cylinders: 80,
        heads: 2,
        sectors_per_track: 9,
        bytes_per_sector: 512,
        total_sectors: 1440,
    };
    for lba in 0..1440u64 {
        let (c, h, s) = lba_to_chs(&g, lba);
        assert_eq!((c as u64 * 2 + h as u64) * 9 + s as u64 - 1, lba);
    }
}
