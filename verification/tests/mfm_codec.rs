//! The MFM decoder.

use floppy_mac::binary64::Binary64;
use floppy_mac::mfm::crc16;
use floppy_mac::mfm::decode_cells;
use floppy_mac::mfm::decode_track;
use floppy_mac::mfm::encode::sector;
use floppy_mac::mfm::pll::flux_to_cells;
use floppy_mac::mfm::try_decode_track;

/// The flux of the given cells, with the given length of a cell and some jitter.
fn cells_to_flux(cells: &[bool], cell_ticks: u32, jitter: &dyn Fn(usize) -> i32) -> Vec<u32> {
    let mut flux = Vec::new();
    let mut last: Option<usize> = None;
    for (i, &c) in cells.iter().enumerate() {
        if c {
            if let Some(l) = last {
                let base = ((i - l) as i32) * cell_ticks as i32;
                flux.push((base + jitter(i)).max(1) as u32);
            }
            last = Some(i);
        }
    }
    flux
}

fn nojitter(_: usize) -> i32 {
    0
}

#[test]
fn crc16_known_vector() {
    assert_eq!(crc16(0xFFFF, b"123456789"), 0x29B1);
}

#[test]
fn roundtrip_single_sector() {
    let data: Vec<u8> = (0..512).map(|i| (i * 7 + 3) as u8).collect();
    let cells = sector(10, 1, 5, 2, &data);
    let flux = cells_to_flux(&cells, 1000, &nojitter);

    let secs = decode_track(&flux);
    assert_eq!(secs.len(), 1, "должен декодироваться ровно один сектор");
    let s = &secs[0];
    assert_eq!((s.cyl, s.head, s.sector, s.size_code), (10, 1, 5, 2));
    assert!(s.id_crc_ok, "ID CRC");
    assert!(s.data_crc_ok, "DATA CRC");
    assert_eq!(s.data, data);
}

#[test]
fn roundtrip_survives_speed_jitter() {
    let data: Vec<u8> = (0..512).map(|i| (i ^ 0x5A) as u8).collect();
    let cells = sector(0, 0, 1, 2, &data);
    let jit = |i: usize| -> i32 {
        let r = ((i as u32).wrapping_mul(2654435761) >> 24) as i32 % 160;
        r - 80
    };
    let flux = cells_to_flux(&cells, 1000, &jit);
    let secs = decode_track(&flux);
    assert_eq!(secs.len(), 1);
    assert!(secs[0].data_crc_ok);
    assert_eq!(secs[0].data, data);
}

#[test]
fn detects_corrupt_data_crc() {
    let data = vec![0xAAu8; 512];
    let mut cells = sector(1, 0, 2, 2, &data);
    let data_bit = (72 + 200) * 16 + 1;
    cells[data_bit] = !cells[data_bit];
    let flux = cells_to_flux(&cells, 1000, &nojitter);
    let secs = decode_track(&flux);
    assert_eq!(secs.len(), 1, "сектор всё ещё находится по sync");
    assert!(!secs[0].data_crc_ok, "повреждение данных поймано по CRC");
}

#[test]
fn decodes_full_track_of_18_sectors() {
    let mut cells = Vec::new();
    let mut expected = Vec::new();
    for r in 1..=18u8 {
        let data: Vec<u8> = (0..512).map(|i| (i as u8).wrapping_add(r)).collect();
        cells.extend(sector(0, 0, r, 2, &data));
        expected.push(data);
    }
    let flux = cells_to_flux(&cells, 1000, &nojitter);
    let secs = decode_track(&flux);
    assert_eq!(secs.len(), 18);
    for (idx, s) in secs.iter().enumerate() {
        assert_eq!(s.sector, (idx + 1) as u8);
        assert!(s.data_crc_ok && s.id_crc_ok);
        assert_eq!(s.data, expected[idx]);
    }
}

#[test]
fn sectors_of_all_bytes_come_back() {
    for fill in [0x00u8, 0xFF, 0xAA, 0x55, 0x4E, 0xA1] {
        for code in 0..=3u8 {
            let data = vec![fill; 128 << code];
            let cells = sector(3, 1, 7, code, &data);
            let secs = decode_track(&cells_to_flux(&cells, 144, &nojitter));
            assert_eq!(secs.len(), 1);
            assert!(secs[0].id_crc_ok && secs[0].data_crc_ok && !secs[0].deleted);
            assert_eq!(secs[0].size(), 128 << code);
            assert_eq!(secs[0].data, data);
        }
    }
}

#[test]
fn too_little_flux_holds_nothing() {
    assert!(decode_track(&[]).is_empty());
    assert!(decode_track(&[100; 15]).is_empty());
    assert!(decode_track(&[100; 500]).is_empty());
    assert!(try_decode_track(&[0; 16]).is_none());
    assert!(decode_track(&[0; 15]).is_empty());
}

#[test]
fn a_flipped_id_byte_is_noticed() {
    let data = vec![1u8; 256];
    let mut cells = sector(5, 0, 9, 1, &data);
    // The cylinder stands behind the marks: a data bit of it.
    let bit = 28 * 16 + 15;
    cells[bit] = !cells[bit];
    let secs = decode_track(&cells_to_flux(&cells, 1000, &nojitter));
    assert_eq!(secs.len(), 1);
    assert!(!secs[0].id_crc_ok);
    assert!(secs[0].data_crc_ok);
}

/// A number as the standard floating point has it.
fn value(b: &Binary64) -> f64 {
    b.mant as f64 * 2f64.powi(b.exp)
}

#[test]
fn arithmetic_rounds_as_the_hardware_does() {
    let numbers = [1u64, 2, 3, 7, 10, 999, 1000, 1001, 65_537, 4_294_967_295];
    for &a in &numbers {
        let x = Binary64::from_int(a);
        assert_eq!(value(&x), a as f64);
        for &b in &numbers {
            let y = Binary64::from_int(b);
            let q = x.div(y);
            assert_eq!(value(&q), a as f64 / b as f64);
            let p = q.times(y);
            assert_eq!(value(&p), (a as f64 / b as f64) * b as f64);
            let s = q.plus(p);
            assert_eq!(value(&s), (a as f64 / b as f64) + (a as f64 / b as f64) * b as f64);
        }
    }
}

/// The decoder's loop, in standard floating point.
fn reference_cells(flux: &[u32]) -> Vec<bool> {
    let mut sorted: Vec<u32> = flux.iter().copied().filter(|&t| t > 0).collect();
    sorted.sort_unstable();
    let p5 = sorted[sorted.len() / 20];
    let mut cell = (p5 as f64 / 2.0).max(1.0);
    let mut cells = Vec::new();
    for &t in flux {
        if t == 0 {
            continue;
        }
        let n = (t as f64 / cell).round().max(1.0) as i64;
        cell = cell * 0.9 + (t as f64 / n as f64) * 0.1;
        for _ in 0..(n - 1) {
            cells.push(false);
        }
        cells.push(true);
    }
    cells
}

#[test]
fn cells_are_those_of_floating_point() {
    // Pseudo-random intervals, zeros among them, of very different lengths.
    let mut state = 12345u32;
    for range in [5u32, 400, 3000, 100_000] {
        let mut flux = Vec::new();
        for _ in 0..3000 {
            state = state.wrapping_mul(1664525).wrapping_add(1013904223);
            flux.push((state >> 8) % range);
        }
        flux.push(range);
        assert_eq!(flux_to_cells(&flux), reference_cells(&flux));
    }
    let one = vec![1u32; 40];
    assert_eq!(flux_to_cells(&one), reference_cells(&one));
}

#[test]
fn longer_sync_runs_announce_the_same() {
    let data: Vec<u8> = (0..=255).collect();
    let cells = sector(3, 1, 7, 1, &data);
    let sync: Vec<bool> = (0..16).rev().map(|i| 0x4489u16 >> i & 1 == 1).collect();
    let plain = decode_cells(&cells).unwrap();
    assert_eq!(plain.len(), 1);
    for at in [384, 1088] {
        assert_eq!(cells[at..at + 16], sync[..]);
        for more in [1, 2, 9] {
            let mut long = cells.clone();
            long.splice(at..at, sync.repeat(more));
            let found = decode_cells(&long).unwrap();
            assert_eq!(found.len(), 1);
            let s = &found[0];
            assert_eq!((s.cyl, s.head, s.sector, s.size_code), (3, 1, 7, 1));
            assert!(s.id_crc_ok && s.data_crc_ok);
            assert_eq!(s.data, data);
        }
    }
}
