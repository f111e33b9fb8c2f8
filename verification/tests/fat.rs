//! FAT volumes, with the crate that reads them.

use fatfs::Date;
use fatfs::DateTime;
use fatfs::FileSystem;
use fatfs::FormatVolumeOptions;
use fatfs::FsOptions;
use fatfs::Time;
use floppy_mac::block_source::BlockSource;
use floppy_mac::error::IoError;
use floppy_mac::error::IoErrorKind;
use floppy_mac::fatfs_fs::check::is_sound;
use floppy_mac::fatfs_fs::inodes::join;
use floppy_mac::fatfs_fs::inodes::split_parent;
use floppy_mac::fatfs_fs::inodes::Inodes;
use floppy_mac::fatfs_fs::nodes::cluster_stats;
use floppy_mac::fatfs_fs::nodes::find_attr;
use floppy_mac::fatfs_fs::nodes::list_children;
use floppy_mac::fatfs_fs::nodes::take_piece;
use floppy_mac::fatfs_fs::nodes::Node;
use floppy_mac::fatfs_fs::nodes::Progress;
use floppy_mac::fatfs_fs::FatFs;
use floppy_mac::fs::FatDateTime;
use floppy_mac::fs::FileKind;
use floppy_mac::fs::FileTime;
use floppy_mac::fs::Filesystem;
use floppy_mac::greaseweazle_src::parse_bpb;
use floppy_mac::image::ImageFile;
use std::io::Cursor;
use std::io::Write;

/// A 1.44 MB volume with some files.
fn image() -> Vec<u8> {
    let mut disk = Cursor::new(vec![0u8; 1_474_560]);
    let options = FormatVolumeOptions::new().bytes_per_sector(512).volume_id(7);
    fatfs::format_volume(&mut disk, options).unwrap();
    {
        let fs = FileSystem::new(&mut disk, FsOptions::new()).unwrap();
        let root = fs.root_dir();
        root.create_file("HELLO.TXT").unwrap().write_all(b"hello").unwrap();
        let docs = root.create_dir("DOCS").unwrap();
        docs.create_file("READ.ME").unwrap().write_all(b"nested").unwrap();
        root.create_file("long name.bin").unwrap().write_all(&big()).unwrap();
        root.create_file(".metadata_never_index").unwrap().write_all(b"real").unwrap();
    }
    disk.into_inner()
}

fn big() -> Vec<u8> {
    (0..20_000u32).map(|i| (i * 7 / 3) as u8).collect()
}

fn open() -> FatFs<ImageFile> {
    FatFs::open(ImageFile::open(image())).unwrap()
}

#[test]
fn the_root_is_listed() {
    let mut fs = open();
    let list = fs.readdir(1).unwrap();
    let flat: Vec<(u64, String, FileKind)> =
        list.iter().map(|e| (e.ino, e.name.clone(), e.kind)).collect();
    assert_eq!(
        flat,
        vec![
            (3, "HELLO.TXT".to_string(), FileKind::File),
            (4, "DOCS".to_string(), FileKind::Dir),
            (5, "long name.bin".to_string(), FileKind::File),
            (2, ".metadata_never_index".to_string(), FileKind::File),
        ]
    );
    // The numbers stay when the directory is listed again.
    assert_eq!(fs.readdir(1).unwrap()[2].ino, 5);
    let docs = fs.readdir(4).unwrap();
    assert_eq!(docs.len(), 1);
    assert_eq!((docs[0].ino, docs[0].name.as_str()), (6, "READ.ME"));
    assert!(fs.readdir(3).is_none());
    assert!(fs.readdir(2).is_none());
    assert!(fs.readdir(77).is_none());
}

#[test]
fn nodes_are_found() {
    let mut fs = open();
    let docs = fs.lookup(1, "DOCS").unwrap();
    assert_eq!((docs.ino, docs.kind), (3, FileKind::Dir));
    let inner = fs.lookup(3, "READ.ME").unwrap();
    assert_eq!((inner.ino, inner.kind, inner.size), (4, FileKind::File, 6));
    assert_ne!(inner.mtime, FileTime::Epoch);
    assert_eq!(fs.getattr(4).unwrap(), inner);
    // A name that is not there keeps the number that it was given.
    assert!(fs.lookup(1, "NONE").is_none());
    assert_eq!(fs.lookup(1, "HELLO.TXT").unwrap().ino, 6);
    assert!(fs.getattr(5).is_none());
    assert_eq!(fs.getattr(1).unwrap().kind, FileKind::Dir);
    assert_eq!(fs.getattr(2).unwrap().size, 0);
    assert!(fs.getattr(99).is_none());
    assert!(fs.lookup(99, "X").is_none());
    assert_eq!(fs.lookup(1, ".metadata_never_index").unwrap().ino, 2);
    assert!(fs.lookup(3, ".metadata_never_index").is_none());
}

#[test]
fn files_are_read_to_their_end() {
    let mut fs = open();
    let ino = fs.lookup(1, "long name.bin").unwrap().ino;
    assert_eq!(fs.read(ino, 0, 100_000).unwrap(), big());
    assert_eq!(fs.read(ino, 1000, 3000).unwrap(), big()[1000..4000]);
    assert_eq!(fs.read(ino, 19_990, 100).unwrap(), big()[19_990..]);
    assert_eq!(fs.read(ino, 30_000, 100).unwrap(), Vec::<u8>::new());
    assert_eq!(fs.read(ino, 5, 0).unwrap(), Vec::<u8>::new());
    let inner = fs.lookup(1, "DOCS").unwrap().ino;
    let inner = fs.lookup(inner, "READ.ME").unwrap().ino;
    assert_eq!(fs.read(inner, 0, 10).unwrap(), b"nested");
    assert_eq!(fs.read(2, 0, 10).unwrap(), Vec::<u8>::new());
    assert!(fs.read(1, 0, 10).is_none());
    assert!(fs.read(99, 0, 10).is_none());
}

#[test]
fn the_volume_has_figures() {
    let mut fs = open();
    let s = fs.stats().unwrap();
    assert!(s.block_size >= 512);
    assert!(s.free_blocks < s.total_blocks);
    assert!(s.total_blocks * s.block_size as u64 <= 1_474_560);
    assert_eq!(cluster_stats(7, 3, 512).total_blocks, 7);
}

#[test]
fn what_is_no_volume_is_refused() {
    assert!(FatFs::open(ImageFile::open(vec![0u8; 4096])).is_err());
    let e = FatFs::open(ImageFile::open(Vec::new())).err().unwrap();
    assert_eq!(e.kind, IoErrorKind::UnexpectedEof);
    assert!(!e.message.is_empty());
}

fn node(name: &str, is_dir: bool) -> Option<Node> {
    let date = Date { year: 1994, month: 3, day: 17 };
    let time = Time { hour: 9, min: 41, sec: 30, millis: 500 };
    Some(Node {
        name: name.to_string(),
        is_dir,
        len: 12,
        modified: DateTime { date, time },
        created: DateTime { date, time },
        accessed: date,
    })
}

#[test]
fn entries_come_with_their_times() {
    let nodes = vec![node("A", true), node("B", false), None, node("C", false)];
    let b = find_attr(&nodes, "B", 40).unwrap();
    assert_eq!((b.ino, b.size, b.kind), (40, 12, FileKind::File));
    let t = FatDateTime { year: 1994, month: 3, day: 17, hour: 9, min: 41, sec: 30, millis: 500 };
    assert_eq!((b.mtime, b.crtime), (FileTime::Fat(t), FileTime::Fat(t)));
    let midnight = FatDateTime { hour: 0, min: 0, sec: 0, millis: 0, ..t };
    assert_eq!(b.atime, FileTime::Fat(midnight));
    assert_eq!(find_attr(&nodes, "A", 1).unwrap().kind, FileKind::Dir);
    assert!(find_attr(&nodes, "C", 1).is_none());
    assert!(find_attr(&nodes, "D", 1).is_none());
}

#[test]
fn children_get_numbers() {
    let mut inodes = Inodes::new();
    let nodes = vec![node(".", true), node("..", true), node("A", true), node("B", false)];
    let list = list_children(&mut inodes, "X/Y", &nodes).unwrap();
    assert_eq!(list.len(), 2);
    assert_eq!((list[0].ino, list[0].name.as_str()), (3, "A"));
    assert_eq!(inodes.path_of(4).unwrap(), "X/Y/B");
    // A failed entry fails the listing; the numbers before it are kept.
    let nodes = vec![node("N", false), None, node("M", false)];
    assert!(list_children(&mut inodes, "", &nodes).is_none());
    assert_eq!(inodes.path_of(5).unwrap(), "N");
    assert!(inodes.path_of(6).is_none());
    let list = list_children(&mut inodes, "", &vec![node(".metadata_never_index", false)]).unwrap();
    assert_eq!(list.len(), 1);
    assert_eq!(list[0].ino, 2);
    let list =
        list_children(&mut inodes, "D", &vec![node(".metadata_never_index", false)]).unwrap();
    assert_eq!((list.len(), list[0].ino), (1, 6));
}

#[test]
fn numbers_are_kept() {
    let mut inodes = Inodes::new();
    assert_eq!(inodes.intern(""), Some(1));
    assert_eq!(inodes.intern("A"), Some(3));
    assert_eq!(inodes.intern("A/B"), Some(4));
    assert_eq!(inodes.intern("A"), Some(3));
    assert_eq!(inodes.path_of(1).unwrap(), "");
    assert_eq!(inodes.path_of(3).unwrap(), "A");
    assert!(inodes.path_of(0).is_none());
    assert!(inodes.path_of(2).is_none());
    assert!(inodes.path_of(5).is_none());
}

#[test]
fn paths_are_split_and_joined() {
    let split = |s: &str| split_parent(s);
    assert_eq!(split("A/B/C"), ("A/B".to_string(), "C".to_string()));
    assert_eq!(split("C"), ("".to_string(), "C".to_string()));
    assert_eq!(split("Ж/я"), ("Ж".to_string(), "я".to_string()));
    assert_eq!(split("/C"), ("".to_string(), "C".to_string()));
    assert_eq!(split(""), ("".to_string(), "".to_string()));
    assert_eq!(join("", "C"), "C");
    assert_eq!(join("A/B", "C"), "A/B/C");
}

#[test]
fn pieces_make_a_file() {
    let mut out = vec![1u8];
    assert_eq!(take_piece(&mut out, 5, &Some(vec![2, 3])), Progress::More);
    assert_eq!(out, vec![1, 2, 3]);
    assert_eq!(take_piece(&mut out, 5, &None), Progress::Failed);
    assert_eq!(take_piece(&mut out, 5, &Some(vec![])), Progress::Done);
    assert_eq!(take_piece(&mut out, 5, &Some(vec![4, 5])), Progress::Done);
    assert_eq!(out, vec![1, 2, 3, 4, 5]);
}

/// The boot sector of a disk that `fatfs` has formatted.
#[test]
fn parse_bpb_from_real_image() {
    let mut disk = Cursor::new(vec![0u8; 1_474_560]);
    let options =
        FormatVolumeOptions::new().bytes_per_sector(512).sectors_per_track(18).heads(2);
    fatfs::format_volume(&mut disk, options).unwrap();
    let img = disk.into_inner();
    let g = parse_bpb(&img[..512]).expect("BPB");
    assert_eq!(g.bytes_per_sector, 512);
    assert_eq!(g.sectors_per_track, 18);
    assert_eq!(g.heads, 2);
    assert_eq!(g.total_sectors, 2880);
    assert_eq!(g.cylinders, 80);
    let held = u64::from(g.cylinders) * u64::from(g.heads) * u64::from(g.sectors_per_track);
    assert_eq!(held, g.total_sectors);
}

/// A volume with blocks that cannot be read.
struct Damaged {
    bytes: Vec<u8>,
    bad: std::ops::Range<u64>,
}

impl BlockSource for Damaged {
    fn block_size(&self) -> usize {
        512
    }
    fn block_count(&self) -> u64 {
        self.bytes.len() as u64 / 512
    }
    fn read_block(&mut self, lba: u64) -> Result<Vec<u8>, IoError> {
        if self.bad.contains(&lba) {
            return Err(IoError::new(IoErrorKind::InvalidData, "bad"));
        }
        let at = lba as usize * 512;
        Ok(self.bytes[at..at + 512].to_vec())
    }
}

#[test]
fn a_listing_that_fails_is_not_shown() {
    let bytes = image();
    let hello = bytes.windows(11).position(|w| w == b"HELLO   TXT").unwrap() as u64 / 512;
    let mut fs =
        FatFs::open(Damaged { bytes: bytes.clone(), bad: hello..hello + 1 }).unwrap();
    assert!(fs.readdir(1).is_none());
    assert!(fs.lookup(1, "HELLO.TXT").is_none());
    assert_eq!(fs.getattr(1).unwrap().kind, FileKind::Dir);
    assert_eq!(fs.lookup(1, ".metadata_never_index").unwrap().ino, 2);

    let data = bytes.windows(5).position(|w| w == b"hello").unwrap() as u64 / 512;
    let mut fs = FatFs::open(Damaged { bytes, bad: data..data + 1 }).unwrap();
    let ino = fs.lookup(1, "HELLO.TXT").unwrap().ino;
    assert!(fs.read(ino, 0, 5).is_none());
    assert_eq!(fs.read(ino, 5, 5).unwrap(), Vec::<u8>::new());
    assert_eq!(fs.read(ino, 0, 0).unwrap(), Vec::<u8>::new());
}

#[test]
fn a_disk_that_cannot_be_read_is_not_opened() {
    let r = FatFs::open(Damaged { bytes: image(), bad: 0..2880 });
    match r {
        Err(e) => {
            assert_eq!(e.kind, IoErrorKind::InvalidData);
            assert_eq!(e.message, "bad");
        }
        Ok(_) => panic!("no boot sector can be read"),
    }
}

#[test]
fn an_image_answers_the_same_every_time() {
    let bytes = image();
    let mut a = FatFs::open(ImageFile::open(bytes.clone())).unwrap();
    let mut b = FatFs::open(ImageFile::open(bytes)).unwrap();
    let names = |fs: &mut FatFs<ImageFile>| -> Vec<(u64, String)> {
        fs.readdir(1).unwrap().iter().map(|e| (e.ino, e.name.clone())).collect()
    };
    let first = names(&mut a);
    assert_eq!(names(&mut a), first);
    assert_eq!(names(&mut b), first);
    for ino in 1..8 {
        assert_eq!(a.getattr(ino), b.getattr(ino));
        assert_eq!(a.read(ino, 3, 700), b.read(ino, 3, 700));
        assert_eq!(a.read(ino, 3, 700), a.read(ino, 3, 700));
    }
    assert_eq!(a.stats().unwrap().free_blocks, b.stats().unwrap().free_blocks);
    assert_eq!(a.stats().unwrap().free_blocks, b.stats().unwrap().free_blocks);
    let why = |bytes: Vec<u8>| FatFs::open(ImageFile::open(bytes)).err().unwrap().message;
    assert_eq!(why(vec![0u8; 4096]), "Invalid boot sector signature");
    assert_eq!(why(vec![0u8; 4096]), why(vec![0u8; 4096]));
}

#[test]
fn an_empty_volume_is_read_to_its_end() {
    let mut disk = Cursor::new(vec![0u8; 1_474_560]);
    fatfs::format_volume(&mut disk, FormatVolumeOptions::new().bytes_per_sector(512)).unwrap();
    let mut fs = FatFs::open(ImageFile::open(disk.into_inner())).unwrap();
    let list = fs.readdir(1).unwrap();
    assert_eq!(list.len(), 1);
    assert_eq!(list[0].name, ".metadata_never_index");
    assert!(fs.lookup(1, "A").is_none());
}

/// The place of a directory record with the given short name.
fn record(bytes: &[u8], name: &[u8; 11]) -> usize {
    bytes.windows(11).position(|w| w == name).unwrap()
}

/// Where a cluster of the volume stands, of two sectors, behind the tables and the root
/// directory.
fn cluster_at(bytes: &[u8], c: usize) -> usize {
    let number = |o: usize| bytes[o] as usize + 256 * bytes[o + 1] as usize;
    assert_eq!((number(0x0B), bytes[0x0D]), (512, 2));
    let first = number(0x0E) + bytes[0x10] as usize * number(0x16) + number(0x11) * 32 / 512;
    (first + 2 * (c - 2)) * 512
}

/// Writes the entry of a cluster in the first table.
fn set_next(bytes: &mut [u8], c: usize, value: usize) {
    let reserved = bytes[0x0E] as usize;
    let at = reserved * 512 + c + c / 2;
    if c % 2 == 0 {
        bytes[at] = value as u8;
        bytes[at + 1] = bytes[at + 1] & 0xF0 | (value >> 8) as u8;
    } else {
        bytes[at] = bytes[at] & 0x0F | (value << 4) as u8;
        bytes[at + 1] = (value >> 4) as u8;
    }
}

#[test]
fn sound_volumes_are_told_from_others() {
    let good = image();
    assert!(is_sound(&good));
    // What is no volume is refused, and may hold anything.
    assert!(is_sound(&[]));
    assert!(is_sound(&[0xFF; 700]));
    assert!(is_sound(&vec![0u8; 4096]));
    // A directory that leads in a circle, without an end.
    let docs = record(&good, b"DOCS       ");
    let c = good[docs + 26] as usize;
    let mut circle = good.clone();
    set_next(&mut circle, c, c);
    assert!(is_sound(&circle));
    let at = cluster_at(&good, c);
    for i in 0..32 {
        circle[at + 32 * i] = 0xE5;
    }
    assert!(!is_sound(&circle));
    let mut ended = circle.clone();
    ended[at + 32 * 31] = 0;
    assert!(is_sound(&ended));
    // A file that begins at cluster 1; one without bytes is never looked at.
    let hello = record(&good, b"HELLO   TXT");
    let mut first = good.clone();
    first[hello + 26] = 1;
    assert!(!is_sound(&first));
    first[hello + 28] = 0;
    assert!(is_sound(&first));
    // A file whose chain leads to cluster 1, or into itself, which its size ends.
    let long = record(&good, b"LONGNA~1BIN");
    let c = good[long + 26] as usize + 256 * good[long + 27] as usize;
    let mut chain = good.clone();
    set_next(&mut chain, c, 1);
    assert!(!is_sound(&chain));
    set_next(&mut chain, c, c);
    assert!(is_sound(&chain));
    // Numbers that do not fit.
    let mut large = vec![0u8; 4096];
    large[..512].copy_from_slice(&good[..512]);
    large[0x11..0x17].fill(0);
    large[0x20..0x24].copy_from_slice(&[0xFF; 4]);
    large[0x24..0x28].copy_from_slice(&[0xFF; 4]);
    large[0x2A..0x2C].fill(0);
    assert!(!is_sound(&large));
    large[0x2A] = 1;
    assert!(is_sound(&large));
}

#[test]
fn the_rest_of_a_damaged_volume_is_read() {
    let mut bytes = image();
    let docs = record(&bytes, b"DOCS       ");
    let c = bytes[docs + 26] as usize;
    set_next(&mut bytes, c, c);
    let at = cluster_at(&bytes, c);
    for i in 0..32 {
        bytes[at + 32 * i] = 0xE5;
    }
    let hidden = record(&bytes, b"LONGNA~1BIN");
    bytes[hidden + 26..hidden + 28].copy_from_slice(&[1, 0]);
    let mut fs = FatFs::open(ImageFile::open(bytes)).unwrap();
    assert_eq!(fs.readdir(1).unwrap().len(), 4);
    let ino = fs.lookup(1, "HELLO.TXT").unwrap().ino;
    assert_eq!(fs.read(ino, 0, 100).unwrap(), b"hello");
    assert_eq!(fs.lookup(1, "long name.bin").unwrap().size, 20_000);
    assert_eq!(fs.lookup(1, "DOCS").unwrap().kind, FileKind::Dir);
}

#[test]
fn what_a_failing_disk_gives_is_what_its_bytes_say() {
    let bytes = image();
    let docs = record(&bytes, b"DOCS       ");
    let c = bytes[docs + 26] as usize;
    let bad = cluster_at(&bytes, c) as u64 / 512;
    let mut whole = FatFs::open(ImageFile::open(bytes.clone())).unwrap();
    let mut failing = FatFs::open(Damaged { bytes, bad: bad..bad + 1 }).unwrap();
    let mut failed = 0;
    for name in ["HELLO.TXT", "DOCS", "long name.bin"] {
        assert_eq!(failing.lookup(1, name), whole.lookup(1, name));
    }
    for ino in 1..7 {
        let names = |l: Option<Vec<floppy_mac::fs::DirEntry>>| -> Option<Vec<String>> {
            l.map(|v| v.into_iter().map(|e| e.name).collect())
        };
        let (a, b) = (names(failing.readdir(ino)), names(whole.readdir(ino)));
        if a.is_none() && b.is_some() {
            failed += 1;
        } else {
            assert_eq!(a, b);
        }
        let (a, b) = (failing.read(ino, 2, 900), whole.read(ino, 2, 900));
        assert!(a.is_none() || a == b);
    }
    assert_eq!(failed, 1);
}
