//! What the entries of a FAT directory come to.

use super::inodes::join;
use super::inodes::joined;
use super::inodes::number_given;
use super::inodes::with_path;
use super::inodes::Inodes;
use crate::bytes::append_range;
use crate::fs::entry_views;
use crate::fs::Attr;
use crate::fs::DirEntry;
use crate::fs::EntryView;
use crate::fs::FatDateTime;
use crate::fs::FileKind;
use crate::fs::FileTime;
use crate::fs::VolStats;
use crate::fs::NEVER_INDEX_INO;
use crate::fs::NEVER_INDEX_NAME;
use crate::text::same_text;
use vstd::prelude::*;

verus! {

/// The date of an entry of a FAT directory, year, month and day.
#[verifier::external_type_specification]
pub struct ExDate(fatfs::Date);

/// The time of day of an entry of a FAT directory.
#[verifier::external_type_specification]
pub struct ExTime(fatfs::Time);

/// The date and the time of an entry of a FAT directory.
#[verifier::external_type_specification]
pub struct ExDateTime(fatfs::DateTime);

/// An entry of a FAT directory.
pub struct Node {
    pub name: String,
    pub is_dir: bool,
    pub len: u64,
    pub modified: fatfs::DateTime,
    pub created: fatfs::DateTime,
    pub accessed: fatfs::Date,
}

/// What a [`Node`] says.
pub struct NodeView {
    pub name: Seq<char>,
    pub is_dir: bool,
    pub len: u64,
    pub modified: fatfs::DateTime,
    pub created: fatfs::DateTime,
    pub accessed: fatfs::Date,
}

impl View for Node {
    type V = NodeView;

    open spec fn view(&self) -> NodeView {
        NodeView {
            name: self.name@,
            is_dir: self.is_dir,
            len: self.len,
            modified: self.modified,
            created: self.created,
            accessed: self.accessed,
        }
    }
}

/// What a listing says: the entries in their order; `None` for one that could not be
/// read.
pub open spec fn listing_view(v: Seq<Option<Node>>) -> Seq<Option<NodeView>> {
    Seq::new(
        v.len(),
        |i: int|
            match v[i] {
                Some(n) => Some(n@),
                None => None,
            },
    )
}

pub open spec fn time_of(t: fatfs::DateTime) -> FatDateTime {
    FatDateTime {
        year: t.date.year,
        month: t.date.month,
        day: t.date.day,
        hour: t.time.hour,
        min: t.time.min,
        sec: t.time.sec,
        millis: t.time.millis,
    }
}

/// The start of a day.
pub open spec fn midnight_of(d: fatfs::Date) -> FatDateTime {
    FatDateTime {
        year: d.year,
        month: d.month,
        day: d.day,
        hour: 0,
        min: 0,
        sec: 0,
        millis: 0,
    }
}

pub open spec fn kind_of(is_dir: bool) -> FileKind {
    if is_dir {
        FileKind::Dir
    } else {
        FileKind::File
    }
}

/// The attributes of an entry under the number `ino`.
pub open spec fn node_attr(ino: u64, n: NodeView) -> Attr {
    Attr {
        ino,
        size: n.len,
        kind: kind_of(n.is_dir),
        mtime: FileTime::Fat(time_of(n.modified)),
        crtime: FileTime::Fat(time_of(n.created)),
        atime: FileTime::Fat(midnight_of(n.accessed)),
    }
}

fn to_time(t: &fatfs::DateTime) -> (r: FatDateTime)
    ensures
        r == time_of(*t),
{
    FatDateTime {
        year: t.date.year,
        month: t.date.month,
        day: t.date.day,
        hour: t.time.hour,
        min: t.time.min,
        sec: t.time.sec,
        millis: t.time.millis,
    }
}

fn to_attr(ino: u64, n: &Node) -> (a: Attr)
    ensures
        a == node_attr(ino, n@),
{
    Attr {
        ino,
        size: n.len,
        kind: if n.is_dir {
            FileKind::Dir
        } else {
            FileKind::File
        },
        mtime: FileTime::Fat(to_time(&n.modified)),
        crtime: FileTime::Fat(to_time(&n.created)),
        atime: FileTime::Fat(
            FatDateTime {
                year: n.accessed.year,
                month: n.accessed.month,
                day: n.accessed.day,
                hour: 0,
                min: 0,
                sec: 0,
                millis: 0,
            },
        ),
    }
}

/// How far a search has come.
pub enum Search {
    /// The entry is not among those seen.
    Going,
    /// An entry before it could not be read.
    Failed,
    Found(NodeView),
}

/// The search for the entry `name` among the entries of a directory.
pub open spec fn search(nodes: Seq<Option<NodeView>>, name: Seq<char>) -> Search
    decreases nodes.len(),
{
    if nodes.len() == 0 {
        Search::Going
    } else {
        match search(nodes.drop_last(), name) {
            Search::Going => match nodes.last() {
                None => Search::Failed,
                Some(n) => if n.name == name {
                    Search::Found(n)
                } else {
                    Search::Going
                },
            },
            ended => ended,
        }
    }
}

/// The attributes of the entry `name` of a directory, under the number `ino`: those
/// of the first entry of that name, unless an entry before it could not be read.
pub open spec fn attr_in(nodes: Seq<Option<NodeView>>, name: Seq<char>, ino: u64) -> Option<Attr> {
    match search(nodes, name) {
        Search::Found(n) => Some(node_attr(ino, n)),
        _ => None,
    }
}

/// Once a search has ended, no further entry counts.
pub proof fn law_search_ends(nodes: Seq<Option<NodeView>>, n: int, name: Seq<char>)
    requires
        0 <= n <= nodes.len(),
        !(search(nodes.take(n), name) is Going),
    ensures
        search(nodes, name) == search(nodes.take(n), name),
    decreases nodes.len() - n,
{
    if n == nodes.len() {
        assert(nodes.take(n) =~= nodes);
    } else {
        assert(nodes.take(n + 1).drop_last() =~= nodes.take(n));
        law_search_ends(nodes, n + 1, name);
    }
}

/// Finds the entry `name` in the listing of a directory.
pub fn find_attr(nodes: &Vec<Option<Node>>, name: &str, ino: u64) -> (r: Option<Attr>)
    ensures
        r == attr_in(listing_view(nodes@), name@, ino),
{
    let ghost all = listing_view(nodes@);
    let mut i: usize = 0;
    assert(all.take(0) =~= Seq::<Option<NodeView>>::empty());
    while i < nodes.len()
        invariant
            i <= nodes.len(),
            all == listing_view(nodes@),
            search(all.take(i as int), name@) is Going,
        decreases nodes.len() - i,
    {
        proof {
            assert(all.take(i + 1).drop_last() =~= all.take(i as int));
            assert(all.take(i + 1).last() == all[i as int]);
            if !(search(all.take(i + 1), name@) is Going) {
                law_search_ends(all, i + 1, name@);
            }
        }
        match &nodes[i] {
            None => {
                return None;
            },
            Some(n) => {
                if same_text(n.name.as_str(), name) {
                    return Some(to_attr(ino, n));
                }
            },
        }
        i = i + 1;
    }
    assert(all.take(i as int) =~= all);
    None
}

/// What the entries of a directory come to.
#[verifier::ext_equal]
pub struct Children {
    /// The paths that have numbers.
    pub paths: Seq<Seq<char>>,
    pub entries: Seq<EntryView>,
    /// Whether an entry could not be read, or no number was left for one.
    pub failed: bool,
}

/// Whether the entry `name` of the directory `dir` is not shown: those for the
/// directory itself and its parent, and in the root one that has the name of the
/// file that stands on no disk.
pub open spec fn hidden(dir: Seq<char>, name: Seq<char>) -> bool {
    name == "."@ || name == ".."@ || dir.len() == 0 && name == NEVER_INDEX_NAME@
}

/// The entries of the directory `dir`, each under the number of its path.
pub open spec fn children(
    paths: Seq<Seq<char>>,
    dir: Seq<char>,
    nodes: Seq<Option<NodeView>>,
) -> Children
    decreases nodes.len(),
{
    if nodes.len() == 0 {
        Children { paths, entries: Seq::empty(), failed: false }
    } else {
        let before = children(paths, dir, nodes.drop_last());
        if before.failed {
            before
        } else {
            match nodes.last() {
                None => Children { failed: true, ..before },
                Some(n) => if hidden(dir, n.name) {
                    before
                } else {
                    let path = joined(dir, n.name);
                    match number_given(before.paths, path) {
                        None => Children { failed: true, ..before },
                        Some(ino) => Children {
                            paths: with_path(before.paths, path),
                            entries: before.entries.push(
                                EntryView { ino, name: n.name, kind: kind_of(n.is_dir) },
                            ),
                            failed: false,
                        },
                    }
                },
            }
        }
    }
}

/// The file that stands on no disk, for the root directory.
pub open spec fn extra_entries(dir: Seq<char>) -> Seq<EntryView> {
    if dir.len() == 0 {
        seq![
            EntryView { ino: NEVER_INDEX_INO, name: NEVER_INDEX_NAME@, kind: FileKind::File },
        ]
    } else {
        seq![]
    }
}

proof fn lemma_children_failed(
    paths: Seq<Seq<char>>,
    dir: Seq<char>,
    nodes: Seq<Option<NodeView>>,
    n: int,
)
    requires
        0 <= n <= nodes.len(),
        children(paths, dir, nodes.take(n)).failed,
    ensures
        children(paths, dir, nodes) == children(paths, dir, nodes.take(n)),
    decreases nodes.len() - n,
{
    if n == nodes.len() {
        assert(nodes.take(n) =~= nodes);
    } else {
        assert(nodes.take(n + 1).drop_last() =~= nodes.take(n));
        lemma_children_failed(paths, dir, nodes, n + 1);
    }
}

/// Turns the listing of the directory `dir` into entries, and gives their paths
/// numbers.
pub fn list_children(inodes: &mut Inodes, dir: &str, nodes: &Vec<Option<Node>>) -> (r: Option<
    Vec<DirEntry>,
>)
    requires
        old(inodes).wf(),
    ensures
        final(inodes).wf(),
        ({
            let c = children(old(inodes)@, dir@, listing_view(nodes@));
            &&& final(inodes)@ == c.paths
            &&& r is None <==> c.failed
            &&& r matches Some(v) ==> entry_views(v@) == c.entries + extra_entries(dir@)
        }),
{
    let ghost all = listing_view(nodes@);
    let ghost start = inodes@;
    let mut out: Vec<DirEntry> = Vec::new();
    let mut i: usize = 0;
    assert(all.take(0) =~= Seq::<Option<NodeView>>::empty());
    assert(entry_views(out@) =~= Seq::<EntryView>::empty());
    while i < nodes.len()
        invariant
            i <= nodes.len(),
            all == listing_view(nodes@),
            start == old(inodes)@,
            inodes.wf(),
            children(start, dir@, all.take(i as int)) == (Children {
                paths: inodes@,
                entries: entry_views(out@),
                failed: false,
            }),
        decreases nodes.len() - i,
    {
        proof {
            assert(all.take(i + 1).drop_last() =~= all.take(i as int));
            assert(all.take(i + 1).last() == all[i as int]);
            if children(start, dir@, all.take(i + 1)).failed {
                lemma_children_failed(start, dir@, all, i + 1);
            }
        }
        match &nodes[i] {
            None => {
                return None;
            },
            Some(n) => {
                let skip: bool = same_text(n.name.as_str(), ".") || same_text(n.name.as_str(), "..")
                    || dir.is_empty() && same_text(n.name.as_str(), NEVER_INDEX_NAME);
                if !skip {
                    let path: String = join(dir, n.name.as_str());
                    match inodes.intern(path.as_str()) {
                        None => {
                            return None;
                        },
                        Some(ino) => {
                            let ghost had = entry_views(out@);
                            out.push(
                                DirEntry {
                                    ino,
                                    name: n.name.clone(),
                                    kind: if n.is_dir {
                                        FileKind::Dir
                                    } else {
                                        FileKind::File
                                    },
                                },
                            );
                            assert(entry_views(out@) =~= had.push(out@.last()@));
                        },
                    }
                }
            },
        }
        i = i + 1;
    }
    assert(all.take(i as int) =~= all);
    let ghost had = entry_views(out@);
    if dir.is_empty() {
        out.push(
            DirEntry {
                ino: NEVER_INDEX_INO,
                name: NEVER_INDEX_NAME.to_owned(),
                kind: FileKind::File,
            },
        );
        assert(entry_views(out@) =~= had.push(out@.last()@));
    }
    assert(entry_views(out@) =~= had + extra_entries(dir@));
    Some(out)
}

/// What to do with a piece of a file.
#[derive(Debug, Clone, Copy, PartialEq, Eq, Structural)]
pub enum Progress {
    More,
    Done,
    Failed,
}

/// Adds a piece of a file to what was read: a failed read fails, an empty piece is
/// the end of the file, and `size` bytes are enough.
pub fn take_piece(out: &mut Vec<u8>, size: u32, piece: &Option<Vec<u8>>) -> (p: Progress)
    requires
        old(out).len() < size,
        piece matches Some(v) ==> v.len() <= size - old(out).len(),
    ensures
        final(out)@ == (match piece {
            Some(v) => old(out)@ + v@,
            None => old(out)@,
        }),
        p == (match piece {
            None => Progress::Failed,
            Some(v) => if v.len() == 0 || old(out).len() + v.len() == size {
                Progress::Done
            } else {
                Progress::More
            },
        }),
{
    match piece {
        None => Progress::Failed,
        Some(v) => {
            let n: usize = v.len();
            append_range(out, v.as_slice(), 0, n);
            assert(v@.subrange(0, n as int) =~= v@);
            if n == 0 || out.len() as u64 == size as u64 {
                Progress::Done
            } else {
                Progress::More
            }
        },
    }
}

/// The size of a volume, by clusters.
pub fn cluster_stats(total: u32, free: u32, size: u32) -> (s: VolStats)
    ensures
        s.total_blocks == total,
        s.free_blocks == free,
        s.block_size == size,
{
    VolStats { total_blocks: total as u64, free_blocks: free as u64, block_size: size }
}

} // verus!
