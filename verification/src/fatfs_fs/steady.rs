//! What the bytes of a disk decide. On a disk that keeps them, one question has one
//! answer; and what any other disk gives is what it would give if it kept them.

use super::answers::came_in_pieces;
use super::answers::counts_clusters;
use super::answers::ends;
use super::answers::ends_with;
use super::answers::gathered;
use super::answers::is_listing;
use super::answers::is_reading;
use super::answers::listed_so;
use super::answers::lists_dir;
use super::disk::Disk;
use super::inodes::name_of;
use super::inodes::parent_of;
use super::is_read;
use super::is_stat;
use super::nodes::attr_in;
use super::nodes::law_search_ends;
use super::nodes::search;
use super::nodes::NodeView;
use crate::fs::Attr;
use vstd::prelude::*;

verus! {

/// The same disk, if it kept its bytes.
pub open spec fn at_best(disk: Disk) -> Disk {
    Disk { kept: true, whole: true, ..disk }
}

/// A listing that goes on has begun as the shorter one.
proof fn lemma_listed_prefix(
    disk: Disk,
    path: Seq<char>,
    until: Option<Seq<char>>,
    a: Seq<Option<NodeView>>,
    n: int,
)
    requires
        listed_so(disk, path, until, a),
        0 <= n <= a.len(),
    ensures
        listed_so(disk, path, until, a.take(n)),
    decreases a.len() - n,
{
    if n < a.len() {
        lemma_listed_prefix(disk, path, until, a, n + 1);
        assert(a.take(n + 1).drop_last() =~= a.take(n));
    } else {
        assert(a.take(n) =~= a);
    }
}

/// Two listings do not part.
proof fn lemma_listed_same(
    disk: Disk,
    path: Seq<char>,
    until: Option<Seq<char>>,
    a: Seq<Option<NodeView>>,
    b: Seq<Option<NodeView>>,
)
    requires
        disk.kept,
        disk.whole,
        listed_so(disk, path, until, a),
        listed_so(disk, path, until, b),
        a.len() <= b.len(),
    ensures
        a == b.take(a.len() as int),
    decreases a.len(),
{
    if a.len() > 0 {
        let n = a.len() - 1;
        lemma_listed_same(disk, path, until, a.drop_last(), b);
        lemma_listed_prefix(disk, path, until, b, n + 1);
        assert(b.take(n + 1).drop_last() =~= b.take(n));
        assert(b.take(n + 1).last() == b[n]);
        assert(a.last() == b[n]);
        assert(a =~= a.drop_last().push(a.last()));
        assert(b.take(n + 1) =~= b.take(n).push(b[n]));
    } else {
        assert(b.take(0) =~= a);
    }
}

/// A listing that has ended goes no further.
proof fn lemma_listing_ends(
    disk: Disk,
    path: Seq<char>,
    until: Option<Seq<char>>,
    a: Seq<Option<NodeView>>,
    b: Seq<Option<NodeView>>,
)
    requires
        disk.kept,
        disk.whole,
        is_listing(disk, path, until, a),
        is_listing(disk, path, until, b),
        a.len() <= b.len(),
    ensures
        a == b,
{
    lemma_listed_same(disk, path, until, a, b);
    if a.len() < b.len() {
        let n = a.len() as int;
        let longer = b.take(n + 1);
        lemma_listed_prefix(disk, path, until, b, n + 1);
        assert(longer.drop_last() =~= a);
        assert(longer.last() == b[n]);
        if n > 0 {
            assert(longer[longer.len() - 2] == a.last());
            assert(!ends(until, a.last()));
        }
        assert(false);
    }
    assert(b.take(b.len() as int) =~= b);
}

/// A directory lists the same every time.
pub proof fn law_one_listing(
    disk: Disk,
    path: Seq<char>,
    until: Option<Seq<char>>,
    a: Option<Seq<Option<NodeView>>>,
    b: Option<Seq<Option<NodeView>>>,
)
    requires
        disk.kept,
        disk.whole,
        lists_dir(disk, path, until, a),
        lists_dir(disk, path, until, b),
    ensures
        a == b,
{
    if let (Some(x), Some(y)) = (a, b) {
        if x.len() <= y.len() {
            lemma_listing_ends(disk, path, until, x, y);
        } else {
            lemma_listing_ends(disk, path, until, y, x);
        }
    }
}

/// A node has the same attributes every time.
pub proof fn law_one_stat(
    disk: Disk,
    path: Seq<char>,
    ino: u64,
    a: Option<Attr>,
    b: Option<Attr>,
)
    requires
        disk.kept,
        disk.whole,
        is_stat(disk, path, ino, a),
        is_stat(disk, path, ino, b),
    ensures
        a == b,
{
    if path.len() > 0 {
        let parent = parent_of(path);
        let name = name_of(path);
        let x = choose|x: Option<Seq<Option<NodeView>>>| #[trigger]
            lists_dir(disk, parent, Some(name), x) && a == (match x {
                None => None,
                Some(nodes) => attr_in(nodes, name, ino),
            });
        let y = choose|y: Option<Seq<Option<NodeView>>>| #[trigger]
            lists_dir(disk, parent, Some(name), y) && b == (match y {
                None => None,
                Some(nodes) => attr_in(nodes, name, ino),
            });
        law_one_listing(disk, parent, Some(name), x, y);
    }
}

/// Pieces that go on have begun as the fewer ones.
proof fn lemma_pieces_prefix(
    disk: Disk,
    path: Seq<char>,
    offset: u64,
    size: nat,
    a: Seq<Seq<u8>>,
    n: int,
)
    requires
        came_in_pieces(disk, path, offset, size, a),
        0 <= n <= a.len(),
    ensures
        came_in_pieces(disk, path, offset, size, a.take(n)),
    decreases a.len() - n,
{
    if n < a.len() {
        lemma_pieces_prefix(disk, path, offset, size, a, n + 1);
        assert(a.take(n + 1).drop_last() =~= a.take(n));
    } else {
        assert(a.take(n) =~= a);
    }
}

/// Two rows of pieces do not part.
proof fn lemma_pieces_same(
    disk: Disk,
    path: Seq<char>,
    offset: u64,
    size: nat,
    a: Seq<Seq<u8>>,
    b: Seq<Seq<u8>>,
)
    requires
        disk.kept,
        disk.whole,
        came_in_pieces(disk, path, offset, size, a),
        came_in_pieces(disk, path, offset, size, b),
        a.len() <= b.len(),
    ensures
        a == b.take(a.len() as int),
    decreases a.len(),
{
    if a.len() > 0 {
        let n = a.len() - 1;
        lemma_pieces_same(disk, path, offset, size, a.drop_last(), b);
        lemma_pieces_prefix(disk, path, offset, size, b, n + 1);
        assert(b.take(n + 1).drop_last() =~= b.take(n));
        assert(b.take(n + 1).last() == b[n]);
        assert(a.last() == b[n]);
        assert(a =~= a.drop_last().push(a.last()));
        assert(b.take(n + 1) =~= b.take(n).push(b[n]));
    } else {
        assert(b.take(0) =~= a);
    }
}

/// Reading that has ended goes no further.
proof fn lemma_reading_ends(
    disk: Disk,
    path: Seq<char>,
    offset: u64,
    size: nat,
    a: Seq<Seq<u8>>,
    b: Seq<Seq<u8>>,
    r: Option<Seq<u8>>,
    s: Option<Seq<u8>>,
)
    requires
        disk.kept,
        disk.whole,
        ends_with(disk, path, offset, size, a, r),
        ends_with(disk, path, offset, size, b, s),
        a.len() <= b.len(),
    ensures
        r == s,
{
    lemma_pieces_same(disk, path, offset, size, a, b);
    if a.len() < b.len() {
        let n = a.len() as int;
        let longer = b.take(n + 1);
        lemma_pieces_prefix(disk, path, offset, size, b, n + 1);
        assert(longer.drop_last() =~= a);
        assert(gathered(a).len() < size);
        assert(longer.last().len() > 0);
        assert(false);
    }
    assert(b.take(b.len() as int) =~= b);
}

/// A range of a file holds the same every time.
pub proof fn law_one_reading(
    disk: Disk,
    path: Seq<char>,
    offset: u64,
    size: u32,
    a: Option<Seq<u8>>,
    b: Option<Seq<u8>>,
)
    requires
        disk.kept,
        disk.whole,
        is_read(disk, path, offset, size, a),
        is_read(disk, path, offset, size, b),
    ensures
        a == b,
{
    if is_reading(disk, path, offset, size as nat, a) && is_reading(
        disk,
        path,
        offset,
        size as nat,
        b,
    ) {
        let n = size as nat;
        let x = choose|x: Seq<Seq<u8>>| #[trigger] ends_with(disk, path, offset, n, x, a);
        let y = choose|y: Seq<Seq<u8>>| #[trigger] ends_with(disk, path, offset, n, y, b);
        if x.len() <= y.len() {
            lemma_reading_ends(disk, path, offset, n, x, y, a, b);
        } else {
            lemma_reading_ends(disk, path, offset, n, y, x, b, a);
        }
    }
}

/// A volume has the same figures every time, and no others where the disk may fail.
pub proof fn law_one_volume(
    disk: Disk,
    a: Option<(u32, u32, u32)>,
    b: Option<(u32, u32, u32)>,
)
    requires
        counts_clusters(disk, a),
        counts_clusters(at_best(disk), b),
    ensures
        disk.kept || a is Some ==> a == b,
{
}

/// The entries that a disk gives begin the listing that it would give at best.
proof fn lemma_given_prefix(
    disk: Disk,
    path: Seq<char>,
    until: Option<Seq<char>>,
    a: Seq<Option<NodeView>>,
    b: Seq<Option<NodeView>>,
    n: int,
)
    requires
        is_listing(disk, path, until, a),
        is_listing(at_best(disk), path, until, b),
        0 <= n <= a.len(),
        forall|i: int| 0 <= i < n ==> (#[trigger] a[i]) is Some,
    ensures
        n <= b.len(),
        a.take(n) == b.take(n),
    decreases n,
{
    if n > 0 {
        let best = at_best(disk);
        let m = n - 1;
        lemma_given_prefix(disk, path, until, a, b, m);
        lemma_listed_prefix(disk, path, until, a, n);
        let some = a.take(n);
        assert(some.drop_last() =~= a.take(m));
        assert(some.last() == a[m]);
        if m > 0 {
            assert(some[some.len() - 2] == a[m - 1]);
            assert(a.take(m)[m - 1] == b.take(m)[m - 1]);
        }
        if b.len() == m {
            assert(b.take(m) =~= b);
            assert(false);
        }
        lemma_listed_prefix(best, path, until, b, n);
        assert(b.take(n).drop_last() =~= b.take(m));
        assert(b.take(n).last() == b[m]);
        assert(a.take(n) =~= a.take(m).push(a[m]));
        assert(b.take(n) =~= b.take(m).push(b[m]));
    } else {
        assert(a.take(0) =~= b.take(0));
    }
}

/// A search that finds an entry finds it among entries that could be read.
proof fn lemma_found_early(nodes: Seq<Option<NodeView>>, name: Seq<char>) -> (n: int)
    requires
        search(nodes, name) is Found,
    ensures
        0 <= n <= nodes.len(),
        search(nodes.take(n), name) == search(nodes, name),
        forall|i: int| 0 <= i < n ==> (#[trigger] nodes[i]) is Some,
    decreases nodes.len(),
{
    let head = nodes.drop_last();
    if search(head, name) is Found {
        let n = lemma_found_early(head, name);
        assert(head.take(n) =~= nodes.take(n));
        assert forall|i: int| 0 <= i < n implies (#[trigger] nodes[i]) is Some by {
            assert(head[i] == nodes[i]);
        }
        n
    } else {
        lemma_going(head, name);
        assert(nodes.take(nodes.len() as int) =~= nodes);
        assert forall|i: int| 0 <= i < nodes.len() implies (#[trigger] nodes[i]) is Some by {
            if i < head.len() {
                assert(head[i] == nodes[i]);
            }
        }
        nodes.len() as int
    }
}

proof fn lemma_going(nodes: Seq<Option<NodeView>>, name: Seq<char>)
    requires
        search(nodes, name) is Going,
    ensures
        forall|i: int| 0 <= i < nodes.len() ==> (#[trigger] nodes[i]) is Some,
    decreases nodes.len(),
{
    if nodes.len() > 0 {
        let head = nodes.drop_last();
        lemma_going(head, name);
        assert forall|i: int| 0 <= i < nodes.len() implies (#[trigger] nodes[i]) is Some by {
            if i < head.len() {
                assert(head[i] == nodes[i]);
            }
        }
    }
}

/// The attributes that a disk gives are those that it would give at best.
pub proof fn law_given_stat(disk: Disk, path: Seq<char>, ino: u64, a: Option<Attr>, b: Option<Attr>)
    requires
        is_stat(disk, path, ino, a),
        is_stat(at_best(disk), path, ino, b),
        a is Some,
    ensures
        a == b,
{
    if path.len() > 0 {
        let parent = parent_of(path);
        let name = name_of(path);
        let x = choose|x: Option<Seq<Option<NodeView>>>| #[trigger]
            lists_dir(disk, parent, Some(name), x) && a == (match x {
                None => None,
                Some(nodes) => attr_in(nodes, name, ino),
            });
        let y = choose|y: Option<Seq<Option<NodeView>>>| #[trigger]
            lists_dir(at_best(disk), parent, Some(name), y) && b == (match y {
                None => None,
                Some(nodes) => attr_in(nodes, name, ino),
            });
        let n = lemma_found_early(x->0, name);
        lemma_given_prefix(disk, parent, Some(name), x->0, y->0, n);
        law_search_ends(y->0, n, name);
    }
}

/// A listing without a failure is the one that the disk would give at best, unless a
/// read may end early.
pub proof fn law_given_listing(
    disk: Disk,
    path: Seq<char>,
    a: Seq<Option<NodeView>>,
    b: Option<Seq<Option<NodeView>>>,
)
    requires
        disk.whole,
        lists_dir(disk, path, None, Some(a)),
        lists_dir(at_best(disk), path, None, b),
        forall|i: int| 0 <= i < a.len() ==> (#[trigger] a[i]) is Some,
    ensures
        b == Some(a),
{
    let y = b->0;
    let n = a.len() as int;
    lemma_given_prefix(disk, path, None, a, y, n);
    assert(a.take(n) =~= a);
    if n < y.len() {
        let longer = y.take(n + 1);
        lemma_listed_prefix(at_best(disk), path, None, y, n + 1);
        assert(longer.drop_last() =~= a);
        assert(false);
    }
    assert(y.take(n) =~= y);
}

/// The bytes of a file that a disk gives are those that it would give at best.
pub proof fn law_given_reading(
    disk: Disk,
    path: Seq<char>,
    offset: u64,
    size: u32,
    a: Option<Seq<u8>>,
    b: Option<Seq<u8>>,
)
    requires
        is_read(disk, path, offset, size, a),
        is_read(at_best(disk), path, offset, size, b),
        a is Some,
    ensures
        a == b,
{
    let n = size as nat;
    let best = at_best(disk);
    let x = choose|x: Seq<Seq<u8>>| #[trigger] ends_with(disk, path, offset, n, x, a);
    let y = choose|y: Seq<Seq<u8>>| #[trigger] ends_with(best, path, offset, n, y, b);
    lemma_pieces_at_best(disk, path, offset, n, x);
    assert(ends_with(best, path, offset, n, x, a));
    if x.len() <= y.len() {
        lemma_reading_ends(best, path, offset, n, x, y, a, b);
    } else {
        lemma_reading_ends(best, path, offset, n, y, x, b, a);
    }
}

proof fn lemma_pieces_at_best(
    disk: Disk,
    path: Seq<char>,
    offset: u64,
    size: nat,
    pieces: Seq<Seq<u8>>,
)
    requires
        came_in_pieces(disk, path, offset, size, pieces),
    ensures
        came_in_pieces(at_best(disk), path, offset, size, pieces),
    decreases pieces.len(),
{
    if pieces.len() > 0 {
        lemma_pieces_at_best(disk, path, offset, size, pieces.drop_last());
    }
}

} // verus!
