//! What `fatfs` answers.
//!
//! What stands on a volume is a function of its bytes, and has a name here. A disk that
//! keeps its bytes is answered for by these names. Any other disk may fail at any time;
//! but what is given is still what the bytes say.

use super::disk::Disk;
use super::nodes::listing_view;
use super::nodes::Node;
use super::nodes::NodeView;
use crate::error::IoErrorKind;
use vstd::prelude::*;

verus! {

/// The kind and the message of the error with which `fatfs::FileSystem::new` fails,
/// `None` where it gives a volume.
pub uninterp spec fn open_failure(bytes: Seq<u8>) -> Option<(IoErrorKind, Seq<char>)>;

/// Whether `fatfs::Dir::open_dir` gives a directory for a path from the root on.
pub uninterp spec fn dir_opens(bytes: Seq<u8>, path: Seq<char>) -> bool;

/// What `next` of `fatfs::DirIter` gives, where the directory at `path` has given `met`
/// before, and nothing else: `None` for the end, `Some(None)` for an entry that cannot
/// be read.
pub uninterp spec fn entry_behind(
    bytes: Seq<u8>,
    path: Seq<char>,
    met: Seq<Option<NodeView>>,
) -> Option<Option<NodeView>>;

/// Whether `fatfs::Dir::open_file` gives a file for a path from the root on.
pub uninterp spec fn file_opens(bytes: Seq<u8>, path: Seq<char>) -> bool;

/// Whether `seek` of `fatfs::File` reaches an offset in the file at `path`, which was
/// just opened.
pub uninterp spec fn seek_works(bytes: Seq<u8>, path: Seq<char>, offset: u64) -> bool;

/// What `read` of `fatfs::File` gives for `max` bytes of the file at `path`, where `had`
/// was read from `offset` on before; `None` for a failure.
pub uninterp spec fn piece_behind(
    bytes: Seq<u8>,
    path: Seq<char>,
    offset: u64,
    had: Seq<u8>,
    max: nat,
) -> Option<Seq<u8>>;

/// What `fatfs::FileSystem::stats` gives: the clusters, the free ones, the bytes in a
/// cluster.
pub uninterp spec fn cluster_figures(bytes: Seq<u8>) -> Option<(u32, u32, u32)>;

/// Whether a request that may fail on the disk may come to `given`, where the bytes
/// say `named`: to nothing else where the disk keeps its bytes, and else to no other
/// success.
pub open spec fn may_come<T>(disk: Disk, named: Option<T>, given: Option<T>) -> bool {
    given == named || given is None && !disk.kept
}

/// Whether a directory may be opened, or not.
pub open spec fn opens_dir(disk: Disk, path: Seq<char>, opened: bool) -> bool {
    opened == dir_opens(disk.bytes, path) || !opened && !disk.kept
}

/// Whether this may be the next entry of a directory. Where a read may end early, so
/// may the directory.
pub open spec fn lists(
    disk: Disk,
    path: Seq<char>,
    met: Seq<Option<NodeView>>,
    next: Option<Option<NodeView>>,
) -> bool {
    ||| next == entry_behind(disk.bytes, path, met)
    ||| next == Some(None::<NodeView>) && !disk.kept
    ||| next is None && !disk.whole
}

/// Whether a file may be opened, or not.
pub open spec fn opens_file(disk: Disk, path: Seq<char>, opened: bool) -> bool {
    opened == file_opens(disk.bytes, path) || !opened && !disk.kept
}

/// Whether an offset in a file may be reached, or not.
pub open spec fn seeks(disk: Disk, path: Seq<char>, offset: u64, done: bool) -> bool {
    done == seek_works(disk.bytes, path, offset) || !done && !disk.kept
}

/// Whether this may be the next piece of a file.
pub open spec fn reads(
    disk: Disk,
    path: Seq<char>,
    offset: u64,
    had: Seq<u8>,
    max: nat,
    piece: Option<Seq<u8>>,
) -> bool {
    may_come(disk, piece_behind(disk.bytes, path, offset, had, max), piece)
}

/// Whether these may be the figures of a volume.
pub open spec fn counts_clusters(disk: Disk, answer: Option<(u32, u32, u32)>) -> bool {
    may_come(disk, cluster_figures(disk.bytes), answer)
}

pub open spec fn answer_view(r: Option<Option<Node>>) -> Option<Option<NodeView>> {
    match r {
        None => None,
        Some(None) => Some(None),
        Some(Some(n)) => Some(Some(n@)),
    }
}

pub open spec fn bytes_view(r: Option<Vec<u8>>) -> Option<Seq<u8>> {
    match r {
        None => None,
        Some(v) => Some(v@),
    }
}

pub open spec fn until_view(until: Option<&str>) -> Option<Seq<char>> {
    match until {
        None => None,
        Some(name) => Some(name@),
    }
}

pub open spec fn entries_view(r: Option<Vec<Option<Node>>>) -> Option<Seq<Option<NodeView>>> {
    match r {
        None => None,
        Some(v) => Some(listing_view(v@)),
    }
}

/// Whether a listing goes no further than this entry: it could not be read, or has the
/// name that is looked for.
pub open spec fn ends(until: Option<Seq<char>>, node: Option<NodeView>) -> bool {
    match node {
        None => true,
        Some(n) => until == Some(n.name),
    }
}

/// Whether the directory at `path` has given these entries one after the other, and
/// none before the last ends a listing.
pub open spec fn listed_so(
    disk: Disk,
    path: Seq<char>,
    until: Option<Seq<char>>,
    nodes: Seq<Option<NodeView>>,
) -> bool
    decreases nodes.len(),
{
    nodes.len() > 0 ==> {
        &&& listed_so(disk, path, until, nodes.drop_last())
        &&& nodes.len() > 1 ==> !ends(until, nodes[nodes.len() - 2])
        &&& lists(disk, path, nodes.drop_last(), Some(nodes.last()))
    }
}

/// Whether these are the entries of the directory at `path`, to its end or up to the
/// entry that ends a listing; more than `u64::MAX` are not asked for.
pub open spec fn is_listing(
    disk: Disk,
    path: Seq<char>,
    until: Option<Seq<char>>,
    nodes: Seq<Option<NodeView>>,
) -> bool {
    &&& listed_so(disk, path, until, nodes)
    &&& {
        ||| lists(disk, path, nodes, None)
        ||| nodes.len() > 0 && ends(until, nodes.last())
        ||| nodes.len() == u64::MAX
    }
    &&& nodes.len() <= u64::MAX
}

/// Whether `fatfs` has answered so to a request for the entries of a directory; `None`
/// where the directory could not be opened. The root is always open.
pub open spec fn lists_dir(
    disk: Disk,
    path: Seq<char>,
    until: Option<Seq<char>>,
    answer: Option<Seq<Option<NodeView>>>,
) -> bool {
    match answer {
        None => path.len() > 0 && opens_dir(disk, path, false),
        Some(nodes) => (path.len() == 0 || opens_dir(disk, path, true)) && is_listing(
            disk,
            path,
            until,
            nodes,
        ),
    }
}

/// The pieces of a file, put together.
pub open spec fn gathered(pieces: Seq<Seq<u8>>) -> Seq<u8>
    decreases pieces.len(),
{
    if pieces.len() == 0 {
        Seq::empty()
    } else {
        gathered(pieces.drop_last()) + pieces.last()
    }
}

/// Whether the file at `path` has given these pieces, none of them empty, one after the
/// other, each when the rest of `size` bytes was asked for.
pub open spec fn came_in_pieces(
    disk: Disk,
    path: Seq<char>,
    offset: u64,
    size: nat,
    pieces: Seq<Seq<u8>>,
) -> bool
    decreases pieces.len(),
{
    pieces.len() > 0 ==> {
        let had = gathered(pieces.drop_last());
        &&& came_in_pieces(disk, path, offset, size, pieces.drop_last())
        &&& had.len() < size
        &&& pieces.last().len() > 0
        &&& reads(disk, path, offset, had, (size - had.len()) as nat, Some(pieces.last()))
    }
}

/// Whether reading ends so behind these pieces: with what they hold, where there are
/// `size` bytes or the file has ended, or with a failed read.
pub open spec fn ends_with(
    disk: Disk,
    path: Seq<char>,
    offset: u64,
    size: nat,
    pieces: Seq<Seq<u8>>,
    r: Option<Seq<u8>>,
) -> bool {
    let had = gathered(pieces);
    let left = (size - had.len()) as nat;
    &&& came_in_pieces(disk, path, offset, size, pieces)
    &&& match r {
        Some(v) => v == had && (had.len() == size || had.len() < size && reads(
            disk,
            path,
            offset,
            had,
            left,
            Some(Seq::empty()),
        )),
        None => had.len() < size && reads(disk, path, offset, had, left, None),
    }
}

/// Whether `r` is what `size` bytes of the file at `path`, from `offset` on, come to.
pub open spec fn is_reading(
    disk: Disk,
    path: Seq<char>,
    offset: u64,
    size: nat,
    r: Option<Seq<u8>>,
) -> bool {
    exists|pieces: Seq<Seq<u8>>| #[trigger] ends_with(disk, path, offset, size, pieces, r)
}

} // verus!
