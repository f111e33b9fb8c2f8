//! The file system without a disk, times, and FUSE.

use floppy_mac::fs::broken_down;
use floppy_mac::fs::instant;
use floppy_mac::fs::Attr;
use floppy_mac::fs::DirEntry;
use floppy_mac::fs::FatDateTime;
use floppy_mac::fs::FileKind;
use floppy_mac::fs::FileTime;
use floppy_mac::fs::Filesystem;
use floppy_mac::fs::HelloFs;
use floppy_mac::fs::VolStats;
use floppy_mac::fs::README_BODY;
use floppy_mac::fuse_adapter::listing::ListStep;
use floppy_mac::fuse_adapter::listing::Listing;
use floppy_mac::fuse_adapter::readdir;
use floppy_mac::fuse_adapter::statfs;
use floppy_mac::fuse_adapter::FuseAdapter;

#[test]
fn one_file_is_there() {
    let mut fs = HelloFs::new();
    assert_eq!(fs.getattr(1).unwrap().kind, FileKind::Dir);
    let a = fs.getattr(2).unwrap();
    assert_eq!((a.kind, a.size), (FileKind::File, README_BODY.len() as u64));
    assert!(fs.getattr(3).is_none());
    assert_eq!(fs.lookup(1, "README.txt").unwrap().ino, 2);
    assert!(fs.lookup(1, "readme.txt").is_none());
    assert!(fs.lookup(2, "README.txt").is_none());
    let list = fs.readdir(1).unwrap();
    assert_eq!(list.len(), 1);
    assert_eq!((list[0].ino, list[0].name.as_str()), (2, "README.txt"));
    assert!(fs.readdir(2).is_none());
    assert!(fs.stats().is_none());
}

#[test]
fn the_file_is_read_in_pieces() {
    let mut fs = HelloFs::new();
    let whole = fs.read(2, 0, 100_000).unwrap();
    assert_eq!(whole, README_BODY.as_bytes());
    assert!(README_BODY.starts_with("Этот том смонтирован"));
    let mut joined = Vec::new();
    while joined.len() < whole.len() {
        let piece = fs.read(2, joined.len() as u64, 7).unwrap();
        joined.extend(piece);
    }
    assert_eq!(joined, whole);
    assert!(fs.read(2, u64::MAX, 10).unwrap().is_empty());
    assert!(fs.read(1, 0, 10).is_none());
}

#[test]
fn times_are_taken_apart() {
    let t = FatDateTime { year: 1994, month: 3, day: 17, hour: 9, min: 41, sec: 30, millis: 120 };
    let b = broken_down(&t);
    assert_eq!((b.year, b.mon, b.mday, b.hour, b.min, b.sec, b.isdst), (94, 2, 17, 9, 41, 30, -1));
    let i = instant(763_900_890, 120);
    assert_eq!((i.secs, i.millis), (763_900_890, 120));
    let i = instant(-1, 120);
    assert_eq!((i.secs, i.millis), (0, 0));
}

fn attr(kind: FileKind, size: u64) -> Attr {
    let t = FatDateTime { year: 1990, month: 1, day: 2, hour: 3, min: 4, sec: 5, millis: 6 };
    Attr {
        ino: 9,
        size,
        kind,
        mtime: FileTime::Fat(t),
        crtime: FileTime::Epoch,
        atime: FileTime::Epoch,
    }
}

#[test]
fn attributes_are_read_only() {
    let a = FuseAdapter::new(501, 20);
    let f = a.to_file_attr(&attr(FileKind::File, 513));
    assert_eq!((f.ino, f.size, f.blocks, f.perm, f.nlink), (9, 513, 2, 0o444, 1));
    assert_eq!((f.uid, f.gid, f.rdev, f.blksize, f.flags), (501, 20, 0, 512, 0));
    assert_eq!(f.ctime, f.mtime);
    assert_ne!(f.mtime, FileTime::Epoch);
    let d = a.to_file_attr(&attr(FileKind::Dir, 0));
    assert_eq!((d.blocks, d.perm, d.nlink), (0, 0o555, 2));
}

#[test]
fn listings_go_on_where_they_stopped() {
    let child = |ino: u64, name: &str, kind: FileKind| DirEntry { ino, name: name.to_string(), kind };
    let children = vec![child(7, "A", FileKind::Dir), child(8, "B", FileKind::File)];
    let all = readdir(5, &children, 0);
    let flat: Vec<(u64, u64, String)> =
        all.iter().map(|e| (e.ino, e.next, e.name.clone())).collect();
    assert_eq!(
        flat,
        vec![
            (5, 1, ".".to_string()),
            (5, 2, "..".to_string()),
            (7, 3, "A".to_string()),
            (8, 4, "B".to_string()),
        ]
    );
    assert_eq!(all[2].kind, FileKind::Dir);
    for (i, e) in all.iter().enumerate() {
        let rest = readdir(5, &children, e.next);
        assert_eq!(rest.len(), 3 - i);
        if let Some(first) = rest.first() {
            assert_eq!(first.name, all[i + 1].name);
        }
    }
    assert!(readdir(5, &children, u64::MAX).is_empty());
}

#[test]
fn volumes_have_figures() {
    let s = statfs(&None);
    assert_eq!((s.blocks, s.bfree, s.bavail, s.bsize, s.namelen, s.frsize), (0, 0, 0, 512, 255, 512));
    let s = statfs(&Some(VolStats { total_blocks: 1280, free_blocks: 3, block_size: 256 }));
    assert_eq!((s.blocks, s.bfree, s.bavail, s.bsize, s.frsize), (1280, 3, 3, 512, 512));
    let s = statfs(&Some(VolStats { total_blocks: 10, free_blocks: 0, block_size: 1024 }));
    assert_eq!((s.bsize, s.files, s.ffree), (1024, 0, 0));
}

/// One answer with room for `room` entries: their names, and where to go on.
fn answer(children: &Option<Vec<DirEntry>>, offset: u64, room: usize) -> (Vec<String>, u64) {
    let mut names = Vec::new();
    let mut next = offset;
    let (mut listing, mut step) = Listing::start(5, children, offset);
    loop {
        match step {
            ListStep::Add(e) => {
                let full = names.len() == room;
                if !full {
                    names.push(e.name);
                    next = e.next;
                }
                step = listing.added(full);
            }
            ListStep::Send => return (names, next),
            ListStep::NotDirectory => panic!("this is a directory"),
        }
    }
}

#[test]
fn a_directory_comes_in_pieces() {
    let names = ["a", "b", "c", "d", "e"];
    let children: Option<Vec<DirEntry>> = Some(
        names
            .iter()
            .enumerate()
            .map(|(i, n)| DirEntry { ino: 10 + i as u64, name: n.to_string(), kind: FileKind::File })
            .collect(),
    );
    let all = vec![".", "..", "a", "b", "c", "d", "e"];
    for room in 1..9 {
        let mut got = Vec::new();
        let mut offset = 0;
        for _ in 0..7 {
            let (piece, next) = answer(&children, offset, room);
            assert!(piece.len() <= room);
            got.extend(piece);
            offset = next;
        }
        assert_eq!(got, all);
        assert_eq!(answer(&children, offset, room), (Vec::new(), 7));
    }
    // Nothing is added to an answer that was full at once.
    assert_eq!(answer(&children, 3, 0), (Vec::new(), 3));
    assert!(matches!(Listing::start(5, &None, 0).1, ListStep::NotDirectory));
}
