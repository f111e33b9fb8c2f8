//! What a file system says, in the terms of FUSE.

pub mod listing;

use crate::fs::entry_views;
use crate::fs::Attr;
use crate::fs::DirEntry;
use crate::fs::EntryView;
use crate::fs::FileKind;
use crate::fs::FileTime;
use crate::fs::VolStats;
use vstd::prelude::*;

verus! {

/// The owner of all that is shown.
#[derive(Debug, Clone, Copy, PartialEq, Eq, Structural)]
pub struct FuseAdapter {
    pub uid: u32,
    pub gid: u32,
}

/// The attributes of a node, in the terms of FUSE.
#[derive(Debug, Clone, Copy, PartialEq, Eq, Structural)]
pub struct FileAttr {
    pub ino: u64,
    pub size: u64,
    /// The blocks of 512 bytes that the size takes.
    pub blocks: u64,
    pub atime: FileTime,
    pub mtime: FileTime,
    pub ctime: FileTime,
    pub crtime: FileTime,
    pub kind: FileKind,
    pub perm: u16,
    pub nlink: u32,
    pub uid: u32,
    pub gid: u32,
    pub rdev: u32,
    pub blksize: u32,
    pub flags: u32,
}

/// All may read and nobody may write; the time of change is that of the contents.
pub open spec fn file_attr(a: Attr, uid: u32, gid: u32) -> FileAttr {
    FileAttr {
        ino: a.ino,
        size: a.size,
        blocks: ((a.size + 511) / 512) as u64,
        atime: a.atime,
        mtime: a.mtime,
        ctime: a.mtime,
        crtime: a.crtime,
        kind: a.kind,
        perm: match a.kind {
            FileKind::Dir => 0x16D,
            FileKind::File => 0x124,
        },
        nlink: match a.kind {
            FileKind::Dir => 2,
            FileKind::File => 1,
        },
        uid,
        gid,
        rdev: 0,
        blksize: 512,
        flags: 0,
    }
}

/// An entry of a directory in an answer, and where the next one is to be asked for.
#[derive(Debug)]
pub struct DirReply {
    pub ino: u64,
    pub next: u64,
    pub kind: FileKind,
    pub name: String,
}

/// What a [`DirReply`] says.
pub struct ReplyView {
    pub ino: u64,
    pub next: u64,
    pub kind: FileKind,
    pub name: Seq<char>,
}

impl View for DirReply {
    type V = ReplyView;

    open spec fn view(&self) -> ReplyView {
        ReplyView { ino: self.ino, next: self.next, kind: self.kind, name: self.name@ }
    }
}

pub open spec fn reply_views(v: Seq<DirReply>) -> Seq<ReplyView> {
    Seq::new(v.len(), |i: int| v[i]@)
}

/// The entries of directory `ino` with those for itself and its parent before them.
pub open spec fn all_entries(ino: u64, children: Seq<EntryView>) -> Seq<EntryView> {
    seq![
        EntryView { ino, name: "."@, kind: FileKind::Dir },
        EntryView { ino, name: ".."@, kind: FileKind::Dir },
    ] + children
}

/// The answer from entry `offset` on: each entry with the number of the next.
pub open spec fn dir_replies(ino: u64, children: Seq<EntryView>, offset: int) -> Seq<ReplyView> {
    let all = all_entries(ino, children);
    if offset >= all.len() {
        Seq::empty()
    } else {
        Seq::new(
            (all.len() - offset) as nat,
            |i: int|
                ReplyView {
                    ino: all[offset + i].ino,
                    next: (offset + i + 1) as u64,
                    kind: all[offset + i].kind,
                    name: all[offset + i].name,
                },
        )
    }
}

/// What is said of a volume as a whole.
#[derive(Debug, Clone, Copy, PartialEq, Eq, Structural)]
pub struct StatFs {
    pub blocks: u64,
    pub bfree: u64,
    pub bavail: u64,
    pub files: u64,
    pub ffree: u64,
    pub bsize: u32,
    pub namelen: u32,
    pub frsize: u32,
}

pub open spec fn stat_fs(stats: Option<VolStats>) -> StatFs {
    let (blocks, bfree, bsize) = match stats {
        Some(s) => (
            s.total_blocks,
            s.free_blocks,
            if s.block_size < 512 {
                512
            } else {
                s.block_size
            },
        ),
        None => (0u64, 0u64, 512u32),
    };
    StatFs { blocks, bfree, bavail: bfree, files: 0, ffree: 0, bsize, namelen: 255, frsize: bsize }
}

/// The answer to a request for the figures of a volume; its blocks have at least 512
/// bytes.
pub fn statfs(stats: &Option<VolStats>) -> (s: StatFs)
    ensures
        s == stat_fs(*stats),
{
    let (blocks, bfree, bsize): (u64, u64, u32) = match stats {
        Some(s) => (
            s.total_blocks,
            s.free_blocks,
            if s.block_size < 512 {
                512
            } else {
                s.block_size
            },
        ),
        None => (0, 0, 512),
    };
    StatFs { blocks, bfree, bavail: bfree, files: 0, ffree: 0, bsize, namelen: 255, frsize: bsize }
}

/// Adds an entry to an answer.
fn push_reply(out: &mut Vec<DirReply>, ino: u64, kind: FileKind, name: String, next: u64)
    ensures
        reply_views(final(out)@) == reply_views(old(out)@).push(
            ReplyView { ino, next, kind, name: name@ },
        ),
{
    let ghost had = reply_views(out@);
    let r: DirReply = DirReply { ino, next, kind, name };
    out.push(r);
    assert(reply_views(out@) =~= had.push(r@));
}

/// Lists directory `ino` with the given entries from number `offset` on.
pub fn readdir(ino: u64, children: &Vec<DirEntry>, offset: u64) -> (out: Vec<DirReply>)
    requires
        children.len() + 2 <= u64::MAX,
    ensures
        reply_views(out@) == dir_replies(ino, entry_views(children@), offset as int),
{
    let ghost all = all_entries(ino, entry_views(children@));
    let mut out: Vec<DirReply> = Vec::new();
    let count: u64 = children.len() as u64;
    let mut i: u64 = offset;
    assert(reply_views(out@) =~= Seq::<ReplyView>::empty());
    while i < 2 || i - 2 < count
        invariant
            children.len() + 2 <= u64::MAX,
            count == children.len(),
            all == all_entries(ino, entry_views(children@)),
            offset <= i,
            i <= all.len() || i == offset,
            reply_views(out@) == dir_replies(ino, entry_views(children@), offset as int).take(
                i - offset,
            ),
        decreases all.len() - i,
    {
        let ghost target = dir_replies(ino, entry_views(children@), offset as int);
        proof {
            assert(target.take(i + 1 - offset) =~= target.take(i - offset).push(target[i - offset]));
        }
        if i == 0 {
            push_reply(&mut out, ino, FileKind::Dir, ".".to_owned(), 1);
        } else if i == 1 {
            push_reply(&mut out, ino, FileKind::Dir, "..".to_owned(), 2);
        } else {
            let k: usize = (i - 2) as usize;
            assert(all[i as int] == entry_views(children@)[k as int]);
            push_reply(
                &mut out,
                children[k].ino,
                children[k].kind,
                children[k].name.clone(),
                i + 1,
            );
        }
        i = i + 1;
    }
    proof {
        let target = dir_replies(ino, entry_views(children@), offset as int);
        assert(target.take(i - offset) =~= target);
    }
    out
}

impl FuseAdapter {
    pub fn new(uid: u32, gid: u32) -> (a: FuseAdapter)
        ensures
            a.uid == uid,
            a.gid == gid,
    {
        FuseAdapter { uid, gid }
    }

    /// The attributes of a node, for FUSE.
    pub fn to_file_attr(&self, a: &Attr) -> (f: FileAttr)
        requires
            a.size + 511 <= u64::MAX,
        ensures
            f == file_attr(*a, self.uid, self.gid),
    {
        let (perm, nlink): (u16, u32) = match a.kind {
            FileKind::Dir => (0x16D, 2),
            FileKind::File => (0x124, 1),
        };
        FileAttr {
            ino: a.ino,
            size: a.size,
            blocks: (a.size + 511) / 512,
            atime: a.atime,
            mtime: a.mtime,
            ctime: a.mtime,
            crtime: a.crtime,
            kind: a.kind,
            perm,
            nlink,
            uid: self.uid,
            gid: self.gid,
            rdev: 0,
            blksize: 512,
            flags: 0,
        }
    }
}

/// A listing that is asked for in pieces is the whole listing: the numbers that an
/// answer gives lead to the entries behind it.
pub proof fn law_listing_goes_on(ino: u64, children: Seq<EntryView>, offset: int, i: int)
    requires
        0 <= offset,
        0 <= i < dir_replies(ino, children, offset).len(),
        children.len() + 2 <= u64::MAX,
    ensures
        dir_replies(ino, children, dir_replies(ino, children, offset)[i].next as int)
            == dir_replies(ino, children, offset).skip(i + 1),
{
    let whole = dir_replies(ino, children, offset);
    assert(dir_replies(ino, children, whole[i].next as int) =~= whole.skip(i + 1));
}

/// Nothing that is shown can be written, and everything can be read.
pub proof fn law_read_only(a: Attr, uid: u32, gid: u32)
    ensures
        file_attr(a, uid, gid).perm & 0x92 == 0,
        file_attr(a, uid, gid).perm & 0x124 == 0x124,
{
    assert(0x16Du16 & 0x92 == 0 && 0x124u16 & 0x92 == 0 && 0x16Du16 & 0x124 == 0x124 && 0x124u16
        & 0x124 == 0x124) by (bit_vector);
}

/// What is shown of a node is what it is: its number, its size, its kind and its times;
/// the blocks are just as many of 512 bytes as hold it; all may read it, and enter it
/// where it is a directory.
pub proof fn law_attributes_are_shown(a: Attr, uid: u32, gid: u32)
    requires
        a.size + 511 <= u64::MAX,
    ensures
        ({
            let f = file_attr(a, uid, gid);
            &&& f.ino == a.ino && f.size == a.size && f.kind == a.kind
            &&& f.atime == a.atime && f.mtime == a.mtime && f.crtime == a.crtime && f.ctime
                == a.mtime
            &&& 512 * f.blocks >= a.size && 512 * f.blocks < a.size + 512
            &&& f.uid == uid && f.gid == gid
            &&& a.kind == FileKind::Dir ==> f.perm == 5 * 64 + 5 * 8 + 5 && f.nlink == 2
            &&& a.kind == FileKind::File ==> f.perm == 4 * 64 + 4 * 8 + 4 && f.nlink == 1
            &&& f.rdev == 0 && f.blksize == 512 && f.flags == 0
        }),
{
}

/// What is said of a volume: its blocks and the free ones as they are, all of them to
/// everyone, in blocks of at least 512 bytes; nothing where nothing is known.
pub proof fn law_volume_is_told(s: VolStats)
    ensures
        ({
            let f = stat_fs(Some(s));
            &&& f.blocks == s.total_blocks && f.bfree == s.free_blocks && f.bavail
                == s.free_blocks
            &&& s.block_size >= 512 ==> f.bsize == s.block_size && f.frsize == s.block_size
            &&& s.block_size < 512 ==> f.bsize == 512 && f.frsize == 512
            &&& f.files == 0 && f.ffree == 0 && f.namelen == 255
        }),
        ({
            let f = stat_fs(None);
            &&& f.blocks == 0 && f.bfree == 0 && f.bavail == 0 && f.files == 0 && f.ffree == 0
            &&& f.bsize == 512 && f.frsize == 512 && f.namelen == 255
        }),
{
}

/// A directory lists itself, its parent under its own number, and then its entries, each
/// with the number of the next.
pub proof fn law_directory_is_listed(ino: u64, children: Seq<EntryView>, offset: int, i: int)
    requires
        0 <= offset,
        children.len() + 2 <= u64::MAX,
        0 <= i,
        offset + i < children.len() + 2,
    ensures
        dir_replies(ino, children, offset).len() == children.len() + 2 - offset,
        ({
            let r = dir_replies(ino, children, offset)[i];
            let k = offset + i;
            &&& r.next == k + 1
            &&& k == 0 ==> r.name == "."@ && r.ino == ino && r.kind == FileKind::Dir
            &&& k == 1 ==> r.name == ".."@ && r.ino == ino && r.kind == FileKind::Dir
            &&& k >= 2 ==> r.name == children[k - 2].name && r.ino == children[k - 2].ino && r.kind
                == children[k - 2].kind
        }),
{
}

/// Behind the last entry there is nothing.
pub proof fn law_listing_ends(ino: u64, children: Seq<EntryView>, offset: int)
    requires
        offset >= children.len() + 2,
    ensures
        dir_replies(ino, children, offset).len() == 0,
{
}

} // verus!
