//! TR-DOS disks.

use floppy_mac::block_source::BlockSource;
use floppy_mac::error::IoError;
use floppy_mac::error::IoErrorKind;
use floppy_mac::fs::FileKind;
use floppy_mac::fs::FileTime;
use floppy_mac::fs::Filesystem;
use floppy_mac::greaseweazle_src::Geometry;
use floppy_mac::trdos_fs::TrDosFs;

/// A disk of 256-byte sectors.
struct Disk {
    sectors: Vec<Vec<u8>>,
    bad: Option<u64>,
}

impl BlockSource for Disk {
    fn block_size(&self) -> usize {
        256
    }
    fn block_count(&self) -> u64 {
        self.sectors.len() as u64
    }
    fn read_block(&mut self, lba: u64) -> Result<Vec<u8>, IoError> {
        if self.bad == Some(lba) {
            return Err(IoError::new(IoErrorKind::InvalidData, "bad"));
        }
        match self.sectors.get(lba as usize) {
            Some(s) => Ok(s.clone()),
            None => Err(IoError::new(IoErrorKind::NotFound, "no")),
        }
    }
}

fn geometry() -> Geometry {
    Geometry {
        cylinders: 80,
        heads: 1,
        sectors_per_track: 16,
        bytes_per_sector: 256,
        total_sectors: 1280,
    }
}

fn entry(name: &[u8; 8], kind: u8, len: u16, count: u8, sector: u8, track: u8) -> Vec<u8> {
    let mut e = name.to_vec();
    e.push(kind);
    e.extend_from_slice(&[0, 0]);
    e.extend_from_slice(&len.to_le_bytes());
    e.extend_from_slice(&[count, sector, track]);
    e
}

fn disk(entries: &[Vec<u8>]) -> Disk {
    let mut dir: Vec<u8> = entries.concat();
    dir.resize(8 * 256, 0);
    let mut sectors: Vec<Vec<u8>> = dir.chunks(256).map(|c| c.to_vec()).collect();
    for lba in 8..64u32 {
        sectors.push((0..256u32).map(|i| (lba * 3 + i) as u8).collect());
    }
    Disk { sectors, bad: None }
}

fn sample() -> Disk {
    disk(&[
        entry(b"boot    ", b'B', 300, 2, 0, 1),
        entry(b"\x01old    ", b'C', 10, 1, 4, 1),
        entry(b"a\x02c d  e", b'C', 600, 2, 2, 1),
        entry(b"plain   ", 0x20, 256, 1, 5, 2),
        entry(b"boot    ", b'B', 7, 1, 9, 2),
    ])
}

fn content(d: &Disk, lba: usize, n: usize) -> Vec<u8> {
    d.sectors[lba..].concat()[..n].to_vec()
}

#[test]
fn the_directory_is_listed() {
    let mut fs = TrDosFs::open(sample(), geometry()).unwrap();
    let list = fs.readdir(1).unwrap();
    let names: Vec<(u64, String)> = list.iter().map(|e| (e.ino, e.name.clone())).collect();
    assert_eq!(
        names,
        vec![
            (3, "boot.B".to_string()),
            (4, "a_c d  e.C".to_string()),
            (5, "plain".to_string()),
            (6, "boot.B".to_string()),
            (2, ".metadata_never_index".to_string()),
        ]
    );
    assert!(list.iter().all(|e| e.kind == FileKind::File));
    assert!(fs.readdir(3).is_none());
    assert_eq!(fs.root_ino(), 1);
}

#[test]
fn files_have_attributes() {
    let mut fs = TrDosFs::open(sample(), geometry()).unwrap();
    let root = fs.getattr(1).unwrap();
    assert_eq!((root.ino, root.size, root.kind, root.mtime), (1, 0, FileKind::Dir, FileTime::Epoch));
    assert_eq!(fs.getattr(2).unwrap().size, 0);
    assert_eq!(fs.getattr(4).unwrap().size, 600);
    assert!(fs.getattr(7).is_none());
    assert!(fs.getattr(0).is_none());
    assert!(fs.getattr(u64::MAX).is_none());
    // The first of two files of one name is found.
    assert_eq!(fs.lookup(1, "boot.B").unwrap().ino, 3);
    assert_eq!(fs.lookup(1, "plain").unwrap().ino, 5);
    assert_eq!(fs.lookup(1, ".metadata_never_index").unwrap().ino, 2);
    assert!(fs.lookup(1, "none").is_none());
    assert!(fs.lookup(3, "plain").is_none());
    let stats = fs.stats().unwrap();
    assert_eq!((stats.total_blocks, stats.free_blocks, stats.block_size), (1280, 0, 256));
}

#[test]
fn files_are_read() {
    let d = sample();
    let boot = content(&d, 16, 300);
    // The entry says 600 bytes, but the file has two sectors.
    let long = content(&d, 18, 512);
    let mut fs = TrDosFs::open(d, geometry()).unwrap();
    assert_eq!(fs.read(3, 0, 1000).unwrap(), boot);
    assert_eq!(fs.read(3, 250, 10).unwrap(), boot[250..260]);
    assert_eq!(fs.read(3, 256, 1000).unwrap(), boot[256..]);
    assert_eq!(fs.read(3, 300, 5).unwrap(), Vec::<u8>::new());
    assert_eq!(fs.read(3, 10, 0).unwrap(), Vec::<u8>::new());
    assert_eq!(fs.read(4, 0, 600).unwrap(), long);
    assert_eq!(fs.read(4, 520, 10).unwrap(), Vec::<u8>::new());
    assert_eq!(fs.read(2, 0, 10).unwrap(), Vec::<u8>::new());
    assert!(fs.read(1, 0, 10).is_none());
    assert!(fs.read(9, 0, 10).is_none());
}

#[test]
fn failures_of_the_disk_come_through() {
    let mut d = sample();
    d.bad = Some(17);
    let mut fs = TrDosFs::open(d, geometry()).unwrap();
    assert!(fs.read(3, 0, 200).is_some());
    assert!(fs.read(3, 0, 300).is_none());
    let mut d = sample();
    d.bad = Some(0);
    assert_eq!(TrDosFs::open(d, geometry()).err().unwrap().kind, IoErrorKind::InvalidData);
    // Behind the end of the directory no sector is read.
    let mut d = sample();
    d.bad = Some(1);
    assert!(TrDosFs::open(d, geometry()).is_ok());
}

#[test]
fn a_full_directory_ends_with_its_sectors() {
    let all: Vec<Vec<u8>> = (0..128).map(|_| entry(b"x       ", b'D', 1, 1, 0, 1)).collect();
    let mut fs = TrDosFs::open(disk(&all), geometry()).unwrap();
    assert_eq!(fs.readdir(1).unwrap().len(), 129);
}

#[test]
fn short_sectors_are_taken_as_they_come() {
    let mut d = sample();
    d.sectors[16] = vec![7; 100];
    let mut fs = TrDosFs::open(d, geometry()).unwrap();
    let bytes = fs.read(3, 0, 300).unwrap();
    assert_eq!(bytes.len(), 300);
    assert_eq!(bytes[..100], [7; 100]);
    assert!(fs.read(3, 101, 10).is_none());
}

#[test]
fn sectors_without_bytes_give_no_file() {
    let geom = Geometry { bytes_per_sector: 0, ..geometry() };
    let mut fs = TrDosFs::open(sample(), geom).unwrap();
    assert_eq!(fs.readdir(1).unwrap().len(), 5);
    assert!(fs.read(3, 0, 10).is_none());
    assert_eq!(fs.read(3, 300, 10).unwrap(), Vec::<u8>::new());
}

#[test]
fn small_sectors_are_counted_beyond_a_byte() {
    let d = sample();
    let geom = Geometry { bytes_per_sector: 2, ..geometry() };
    let mut fs = TrDosFs::open(d, geom).unwrap();
    // The file has two sectors: sector 256 of it is not its first again.
    assert_eq!(fs.read(4, 512, 10).unwrap(), Vec::<u8>::new());
    assert_eq!(fs.read(4, 4, 10).unwrap(), Vec::<u8>::new());
    assert!(!fs.read(4, 2, 10).unwrap().is_empty());
}
