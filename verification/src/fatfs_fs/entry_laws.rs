//! What an entry of a FAT directory is shown as.

use super::answers::entry_behind;
use super::answers::ends;
use super::answers::file_opens;
use super::answers::gathered;
use super::answers::listed_so;
use super::answers::lists_dir;
use super::answers::piece_behind;
use super::answers::seek_works;
use super::disk::Disk;
use super::inodes::joined;
use super::inodes::known;
use super::inodes::law_list_stays_sound;
use super::inodes::law_split_undoes_join;
use super::inodes::name_of;
use super::inodes::number_given;
use super::inodes::parent_of;
use super::inodes::path_at;
use super::inodes::paths_wf;
use super::inodes::place_of;
use super::inodes::with_path;
use super::is_listed;
use super::is_read;
use super::is_readdir;
use super::is_stat;
use super::laws::law_listed_numbers_lead_back;
use super::laws::law_listing_is_complete;
use super::laws::shown;
use super::nodes::attr_in;
use super::nodes::children;
use super::nodes::hidden;
use super::nodes::law_search_ends;
use super::nodes::search;
use super::nodes::NodeView;
use super::nodes::Search;
use super::steady::law_one_listing;
use super::volume_stats;
use crate::fs::entry_views;
use crate::fs::Attr;
use crate::fs::DirEntry;
use crate::fs::FatDateTime;
use crate::fs::FileKind;
use crate::fs::FileTime;
use vstd::prelude::*;

verus! {

/// Whether an entry is the first of its name, and those before it can be read.
pub open spec fn first_of_name(nodes: Seq<Option<NodeView>>, i: int, n: NodeView) -> bool {
    &&& 0 <= i < nodes.len()
    &&& nodes[i] == Some(n)
    &&& forall|k: int|
        0 <= k < i ==> (#[trigger] nodes[k] matches Some(m) && m.name != n.name)
}

/// Whether `a` says what the entry `n` says: the whole length, whether it is a directory,
/// and the times of the entry, that of the last access at midnight.
pub open spec fn says_entry(a: Attr, n: NodeView) -> bool {
    &&& a.size == n.len
    &&& a.kind == FileKind::Dir <==> n.is_dir
    &&& a.mtime == FileTime::Fat(
        FatDateTime {
            year: n.modified.date.year,
            month: n.modified.date.month,
            day: n.modified.date.day,
            hour: n.modified.time.hour,
            min: n.modified.time.min,
            sec: n.modified.time.sec,
            millis: n.modified.time.millis,
        },
    )
    &&& a.crtime == FileTime::Fat(
        FatDateTime {
            year: n.created.date.year,
            month: n.created.date.month,
            day: n.created.date.day,
            hour: n.created.time.hour,
            min: n.created.time.min,
            sec: n.created.time.sec,
            millis: n.created.time.millis,
        },
    )
    &&& a.atime == FileTime::Fat(
        FatDateTime {
            year: n.accessed.year,
            month: n.accessed.month,
            day: n.accessed.day,
            hour: 0,
            min: 0,
            sec: 0,
            millis: 0,
        },
    )
}

/// The attributes found for a name are those of the first entry of that name: its
/// length, whatever it is, its kind and its times, under the number that was given.
pub proof fn law_first_entry_counts(
    nodes: Seq<Option<NodeView>>,
    i: int,
    n: NodeView,
    ino: u64,
)
    requires
        first_of_name(nodes, i, n),
    ensures
        attr_in(nodes, n.name, ino) matches Some(a) && a.ino == ino && says_entry(a, n),
{
    lemma_search_up_to(nodes, i, n.name);
    assert(nodes.take(i + 1).drop_last() =~= nodes.take(i));
    assert(nodes.take(i + 1).last() == nodes[i]);
    assert(search(nodes.take(i + 1), n.name) == Search::Found(n));
    law_search_ends(nodes, i + 1, n.name);
}

/// Nothing is found behind an entry that cannot be read, nor where no entry has the name.
pub proof fn law_nothing_is_made_up(
    nodes: Seq<Option<NodeView>>,
    i: int,
    name: Seq<char>,
    ino: u64,
)
    requires
        0 <= i <= nodes.len(),
        i < nodes.len() ==> nodes[i] is None,
        forall|k: int| 0 <= k < i ==> (#[trigger] nodes[k] matches Some(m) && m.name != name),
    ensures
        attr_in(nodes, name, ino) is None,
{
    lemma_search_up_to(nodes, i, name);
    if i < nodes.len() {
        assert(nodes.take(i + 1).drop_last() =~= nodes.take(i));
        assert(nodes.take(i + 1).last() == nodes[i]);
        law_search_ends(nodes, i + 1, name);
    } else {
        assert(nodes.take(i) =~= nodes);
    }
}

proof fn lemma_search_up_to(nodes: Seq<Option<NodeView>>, i: int, name: Seq<char>)
    requires
        0 <= i <= nodes.len(),
        forall|k: int| 0 <= k < i ==> (#[trigger] nodes[k] matches Some(m) && m.name != name),
    ensures
        search(nodes.take(i), name) is Going,
    decreases i,
{
    if i > 0 {
        lemma_search_up_to(nodes, i - 1, name);
        assert(nodes.take(i).drop_last() =~= nodes.take(i - 1));
        assert(nodes.take(i).last() == nodes[i - 1]);
        assert(nodes[i - 1] is Some);
    }
}

/// The entries that are not shown are those for the directory itself and its parent,
/// and, in the root, one with the name of the file that stands on no disk.
pub proof fn law_what_is_hidden(dir: Seq<char>, name: Seq<char>)
    ensures
        hidden(dir, name) <==> name == "."@ || name == ".."@ || dir == Seq::<char>::empty()
            && name == ".metadata_never_index"@,
{
    if dir.len() == 0 {
        assert(dir =~= Seq::<char>::empty());
    }
}

/// A listing fails only where an entry cannot be read, as long as there are numbers; and
/// an entry is shown as a directory exactly where it is one, under the number of its
/// path.
pub proof fn law_listing_succeeds(
    paths: Seq<Seq<char>>,
    dir: Seq<char>,
    nodes: Seq<Option<NodeView>>,
)
    requires
        paths_wf(paths),
        3 + paths.len() + nodes.len() < u64::MAX,
    ensures
        children(paths, dir, nodes).failed <==> exists|i: int|
            0 <= i < nodes.len() && (#[trigger] nodes[i]) is None,
        !children(paths, dir, nodes).failed ==> children(paths, dir, nodes).paths.len()
            <= paths.len() + nodes.len(),
        paths_wf(children(paths, dir, nodes).paths),
    decreases nodes.len(),
{
    if nodes.len() > 0 {
        let head = nodes.drop_last();
        let before = children(paths, dir, head);
        law_listing_succeeds(paths, dir, head);
        if before.failed {
            let i = choose|i: int| 0 <= i < head.len() && (#[trigger] head[i]) is None;
            assert(nodes[i] is None);
        } else {
            assert forall|i: int| 0 <= i < head.len() implies (#[trigger] nodes[i]) is Some by {
                assert(head[i] is Some);
            }
            match nodes.last() {
                None => {
                    assert(nodes[nodes.len() - 1] is None);
                },
                Some(n) => {
                    let path = joined(dir, n.name);
                    law_list_stays_sound(before.paths, path);
                    if path.len() > 0 {
                        lemma_gets_number(before.paths, path);
                    }
                },
            }
        }
    }
}

proof fn lemma_gets_number(paths: Seq<Seq<char>>, path: Seq<char>)
    requires
        paths_wf(paths),
        path.len() > 0,
        3 + paths.len() < u64::MAX,
    ensures
        known(with_path(paths, path), path),
        !known(paths, path) ==> with_path(paths, path) == paths.push(path) && number_given(
            paths,
            path,
        ) == Some((3 + paths.len()) as u64),
{
    assert(paths.push(path).drop_last() =~= paths);
}

proof fn lemma_place_is(paths: Seq<Seq<char>>, i: int)
    requires
        0 <= i < paths.len(),
        forall|a: int, b: int|
            0 <= a < b < paths.len() ==> #[trigger] paths[a] != #[trigger] paths[b],
    ensures
        place_of(paths, paths[i]) == i,
    decreases paths.len(),
{
    let head = paths.drop_last();
    if i < paths.len() - 1 {
        assert(paths[i] != paths[paths.len() - 1]);
        assert(head[i] == paths[i]);
        assert forall|a: int, b: int| 0 <= a < b < head.len() implies #[trigger] head[a]
            != #[trigger] head[b] by {
            assert(paths[a] != paths[b]);
        }
        lemma_place_is(head, i);
    }
}

proof fn lemma_no_place(paths: Seq<Seq<char>>, path: Seq<char>)
    requires
        forall|i: int| 0 <= i < paths.len() ==> #[trigger] paths[i] != path,
    ensures
        place_of(paths, path) == -1,
    decreases paths.len(),
{
    if paths.len() > 0 {
        assert(paths[paths.len() - 1] != path);
        let head = paths.drop_last();
        assert forall|i: int| 0 <= i < head.len() implies #[trigger] head[i] != path by {
            assert(paths[i] != path);
        }
        lemma_no_place(head, path);
    }
}

/// Numbers are given out one after the other from 3 on: the root has number 1, a path
/// that was met keeps its number, and a new one gets the next.
pub proof fn law_numbers_are_given_in_turn(paths: Seq<Seq<char>>, path: Seq<char>, i: int)
    requires
        paths_wf(paths),
        3 + paths.len() < u64::MAX,
    ensures
        number_given(paths, Seq::empty()) == Some(1u64),
        with_path(paths, Seq::empty()) == paths,
        0 <= i < paths.len() ==> number_given(paths, paths[i]) == Some((3 + i) as u64) && with_path(
            paths,
            paths[i],
        ) == paths,
        path.len() > 0 && (forall|k: int| 0 <= k < paths.len() ==> #[trigger] paths[k] != path)
            ==> number_given(paths, path) == Some((3 + paths.len()) as u64) && with_path(
            paths,
            path,
        ) == paths.push(path),
{
    if 0 <= i < paths.len() {
        lemma_place_is(paths, i);
    }
    if path.len() > 0 && (forall|k: int|
        0 <= k < paths.len() ==> #[trigger] paths[k] != path) {
        lemma_no_place(paths, path);
        lemma_gets_number(paths, path);
    }
}

/// A number leads to the path that it was given to, number 1 to the root, and any other
/// to nothing.
pub proof fn law_numbers_lead_to_paths(paths: Seq<Seq<char>>, ino: u64)
    requires
        3 + paths.len() <= u64::MAX,
    ensures
        ino == 1 ==> path_at(paths, ino) == Some(Seq::<char>::empty()),
        3 <= ino < 3 + paths.len() ==> path_at(paths, ino) == Some(paths[ino - 3]),
        ino == 0 || ino == 2 || ino >= 3 + paths.len() ==> path_at(paths, ino) is None,
{
}

/// The path of an entry is its name behind that of the directory and a slash, or its name
/// alone in the root.
pub proof fn law_paths_are_joined(dir: Seq<char>, name: Seq<char>)
    ensures
        joined(Seq::empty(), name) == name,
        dir.len() > 0 ==> joined(dir, name).len() == dir.len() + 1 + name.len() && joined(
            dir,
            name,
        ).take(dir.len() as int) == dir && joined(dir, name)[dir.len() as int] == '/' && joined(
            dir,
            name,
        ).skip(dir.len() as int + 1) == name,
{
    if dir.len() > 0 {
        assert(joined(dir, name).take(dir.len() as int) =~= dir);
        assert(joined(dir, name).skip(dir.len() as int + 1) =~= name);
    }
}

/// The figures of a volume are those of its clusters.
pub proof fn law_volume_figures(total: u32, free: u32, size: u32)
    ensures
        volume_stats(Some((total, free, size))) matches Some(s) && s.total_blocks == total
            && s.free_blocks == free && s.block_size == size,
        volume_stats(None) is None,
{
}

/// The root has attributes on every disk, those of a directory.
pub proof fn law_root_has_attributes(disk: Disk, ino: u64, r: Option<Attr>)
    requires
        is_stat(disk, Seq::empty(), ino, r),
    ensures
        r matches Some(a) && a.ino == ino && a.size == 0 && a.kind == FileKind::Dir && a.mtime
            == FileTime::Epoch && a.crtime == FileTime::Epoch && a.atime == FileTime::Epoch,
{
}

proof fn lemma_listed_entry(
    disk: Disk,
    path: Seq<char>,
    until: Option<Seq<char>>,
    nodes: Seq<Option<NodeView>>,
    k: int,
)
    requires
        disk.kept,
        disk.whole,
        listed_so(disk, path, until, nodes),
        0 <= k < nodes.len(),
    ensures
        entry_behind(disk.bytes, path, nodes.take(k)) == Some(nodes[k]),
        k + 1 < nodes.len() ==> !ends(until, nodes[k]),
    decreases nodes.len(),
{
    let head = nodes.drop_last();
    if k < head.len() {
        lemma_listed_entry(disk, path, until, head, k);
        assert(head.take(k) =~= nodes.take(k));
    } else {
        assert(head =~= nodes.take(k));
    }
}

/// The listing of a directory up to a name begins as the listing of the whole directory.
proof fn lemma_same_entries(
    disk: Disk,
    dir: Seq<char>,
    until: Option<Seq<char>>,
    nodes: Seq<Option<NodeView>>,
    some: Seq<Option<NodeView>>,
    k: int,
)
    requires
        disk.kept,
        disk.whole,
        listed_so(disk, dir, None, nodes),
        listed_so(disk, dir, until, some),
        0 <= k <= nodes.len(),
        k <= some.len(),
    ensures
        some.take(k) == nodes.take(k),
    decreases k,
{
    if k > 0 {
        lemma_same_entries(disk, dir, until, nodes, some, k - 1);
        lemma_listed_entry(disk, dir, None, nodes, k - 1);
        lemma_listed_entry(disk, dir, until, some, k - 1);
        assert(some.take(k) =~= some.take(k - 1).push(some[k - 1]));
        assert(nodes.take(k) =~= nodes.take(k - 1).push(nodes[k - 1]));
    } else {
        assert(some.take(k) =~= nodes.take(k));
    }
}

/// What a listing shows is what the nodes are: on a disk that keeps its bytes, the
/// attributes of a node are those of the first entry of its name in the listing of its
/// directory.
pub proof fn law_attributes_agree_with_listing(
    disk: Disk,
    dir: Seq<char>,
    nodes: Seq<Option<NodeView>>,
    i: int,
    n: NodeView,
    ino: u64,
    r: Option<Attr>,
)
    requires
        disk.kept,
        disk.whole,
        lists_dir(disk, dir, None, Some(nodes)),
        first_of_name(nodes, i, n),
        n.name.len() > 0,
        forall|k: int| 0 <= k < n.name.len() ==> #[trigger] n.name[k] != '/',
        is_stat(disk, joined(dir, n.name), ino, r),
    ensures
        r matches Some(a) && a.ino == ino && says_entry(a, n),
{
    let path = joined(dir, n.name);
    law_split_undoes_join(dir, n.name);
    assert(parent_of(path) == dir);
    assert(name_of(path) == n.name);
    let until = Some(n.name);
    let x = choose|x: Option<Seq<Option<NodeView>>>| #[trigger]
        lists_dir(disk, dir, until, x) && r == (match x {
            None => None,
            Some(v) => attr_in(v, n.name, ino),
        });
    let some = x->0;
    let m = some.len() as int;
    if m <= i {
        lemma_same_entries(disk, dir, until, nodes, some, m);
        assert(some.take(m) =~= some);
        lemma_listed_entry(disk, dir, None, nodes, m);
        assert(entry_behind(disk.bytes, dir, some) == Some(nodes[m]));
        if m > 0 {
            assert(some.last() == nodes.take(m)[m - 1]);
            assert(nodes[m - 1] is Some);
        }
        assert(false);
    } else {
        lemma_same_entries(disk, dir, until, nodes, some, i + 1);
        assert forall|k: int| 0 <= k <= i implies #[trigger] some[k] == nodes[k] by {
            assert(some.take(i + 1)[k] == nodes.take(i + 1)[k]);
        }
        assert(first_of_name(some, i, n));
        law_first_entry_counts(some, i, n, ino);
    }
}

/// A read ends where as many bytes are there as were wanted, or at the end of the file:
/// nothing less is given out.
pub proof fn law_reads_are_not_short(
    disk: Disk,
    path: Seq<char>,
    offset: u64,
    size: u32,
    v: Seq<u8>,
)
    requires
        disk.kept,
        is_read(disk, path, offset, size, Some(v)),
    ensures
        file_opens(disk.bytes, path),
        seek_works(disk.bytes, path, offset),
        v.len() == size || v.len() < size && piece_behind(
            disk.bytes,
            path,
            offset,
            v,
            (size - v.len()) as nat,
        ) == Some(Seq::<u8>::empty()),
{
}

/// A file that can be opened, whose offset can be reached and all of whose pieces can be
/// read, is read; and one that cannot is not.
pub proof fn law_readable_files_are_read(
    disk: Disk,
    path: Seq<char>,
    offset: u64,
    size: u32,
    r: Option<Seq<u8>>,
)
    requires
        disk.kept,
        is_read(disk, path, offset, size, r),
    ensures
        !file_opens(disk.bytes, path) || !seek_works(disk.bytes, path, offset) ==> r is None,
        file_opens(disk.bytes, path) && seek_works(disk.bytes, path, offset) && (forall|
            had: Seq<u8>,
            max: nat,
        |
            #[trigger] piece_behind(disk.bytes, path, offset, had, max) is Some) ==> r is Some,
{
}

/// The pieces of a file stand in the order in which they came.
pub proof fn law_pieces_are_put_together(pieces: Seq<Seq<u8>>, more: Seq<u8>)
    ensures
        gathered(Seq::empty()) == Seq::<u8>::empty(),
        gathered(pieces.push(more)).len() == gathered(pieces).len() + more.len(),
        gathered(pieces.push(more)).take(gathered(pieces).len() as int) == gathered(pieces),
        gathered(pieces.push(more)).skip(gathered(pieces).len() as int) == more,
{
    assert(pieces.push(more).drop_last() =~= pieces);
    let g = gathered(pieces);
    assert((g + more).take(g.len() as int) =~= g);
    assert((g + more).skip(g.len() as int) =~= more);
}

/// A directory that can be read shows all its entries that are not hidden, in the order of
/// the disk, each as what it is and under the number of its path; the root shows the file
/// that stands on no disk behind them, and no other directory does.
pub proof fn law_directory_is_shown(
    disk: Disk,
    paths: Seq<Seq<char>>,
    dir: Seq<char>,
    nodes: Seq<Option<NodeView>>,
    after: Seq<Seq<char>>,
    r: Option<Vec<DirEntry>>,
)
    requires
        disk.kept,
        disk.whole,
        paths_wf(paths),
        3 + paths.len() + nodes.len() < u64::MAX,
        lists_dir(disk, dir, None, Some(nodes)),
        forall|i: int| 0 <= i < nodes.len() ==> (#[trigger] nodes[i]) is Some,
        is_readdir(disk, paths, dir, after, r),
    ensures
        r matches Some(v) && {
            let all = entry_views(v@);
            let s = shown(dir, nodes);
            &&& dir.len() == 0 ==> all.len() == s.len() + 1 && all.last().name
                == ".metadata_never_index"@ && all.last().ino == 2 && all.last().kind
                == FileKind::File
            &&& dir.len() > 0 ==> all.len() == s.len()
            &&& forall|i: int|
                0 <= i < s.len() ==> (#[trigger] all[i]).name == s[i].name && (all[i].kind
                    == FileKind::Dir <==> s[i].is_dir) && path_at(after, all[i].ino) == Some(
                    joined(dir, s[i].name),
                )
        },
{
    let x = choose|x: Option<Seq<Option<NodeView>>>| #[trigger]
        lists_dir(disk, dir, None, x) && match x {
            None => r is None && after == paths,
            Some(v) => is_listed(children(paths, dir, v), dir, after, r),
        };
    law_one_listing(disk, dir, None, x, Some(nodes));
    let c = children(paths, dir, nodes);
    law_listing_succeeds(paths, dir, nodes);
    assert(!c.failed) by {
        if c.failed {
            let i = choose|i: int| 0 <= i < nodes.len() && (#[trigger] nodes[i]) is None;
            assert(nodes[i] is Some);
        }
    }
    law_listing_is_complete(paths, dir, nodes);
    let v = r->0;
    let all = entry_views(v@);
    let s = shown(dir, nodes);
    assert forall|i: int| 0 <= i < s.len() implies (#[trigger] all[i]).name == s[i].name && (
    all[i].kind == FileKind::Dir <==> s[i].is_dir) && path_at(after, all[i].ino) == Some(
        joined(dir, s[i].name),
    ) by {
        assert(all[i] == c.entries[i]);
        law_listed_numbers_lead_back(paths, dir, nodes, i);
    }
}

/// A directory that cannot be opened is not listed, and gives out no number.
pub proof fn law_closed_directory_is_not_shown(
    disk: Disk,
    paths: Seq<Seq<char>>,
    dir: Seq<char>,
    after: Seq<Seq<char>>,
    r: Option<Vec<DirEntry>>,
)
    requires
        disk.kept,
        disk.whole,
        lists_dir(disk, dir, None, None),
        is_readdir(disk, paths, dir, after, r),
    ensures
        r is None,
        after == paths,
{
    let x = choose|x: Option<Seq<Option<NodeView>>>| #[trigger]
        lists_dir(disk, dir, None, x) && match x {
            None => r is None && after == paths,
            Some(v) => is_listed(children(paths, dir, v), dir, after, r),
        };
    law_one_listing(disk, dir, None, x, None);
}

/// What is shown of a directory is what it holds, without the entries that are hidden.
pub proof fn law_shown_are_not_hidden(dir: Seq<char>, nodes: Seq<Option<NodeView>>, n: NodeView)
    ensures
        shown(dir, Seq::empty()).len() == 0,
        hidden(dir, n.name) ==> shown(dir, nodes.push(Some(n))) == shown(dir, nodes),
        !hidden(dir, n.name) ==> shown(dir, nodes.push(Some(n))) == shown(dir, nodes).push(n),
{
    assert(nodes.push(Some(n)).drop_last() =~= nodes);
}

} // verus!
