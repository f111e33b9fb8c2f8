//! Numbers for paths.
//!
//! A volume is asked for nodes by number, a FAT directory by path. Every path that
//! was met keeps its number for good.

use crate::fs::NEVER_INDEX_INO;
use crate::fs::ROOT_INO;
use crate::text::same_text;
use crate::text::texts;
use vstd::prelude::*;
use vstd::string::StrSliceExecFns;

verus! {

/// The first number for a path other than the root.
pub const FIRST_INO: u64 = 3;

/// The path of an entry of the directory `parent`; the root has the empty path.
pub open spec fn joined(parent: Seq<char>, name: Seq<char>) -> Seq<char> {
    if parent.len() == 0 {
        name
    } else {
        parent + seq!['/'] + name
    }
}

pub fn join(parent: &str, name: &str) -> (path: String)
    ensures
        path@ == joined(parent@, name@),
{
    if parent.is_empty() {
        name.to_owned()
    } else {
        let mut path: String = parent.to_owned();
        path.push('/');
        path.append(name);
        assert(path@ =~= joined(parent@, name@));
        path
    }
}

/// Where the last slash of a path stands, -1 where there is none.
pub open spec fn last_slash(path: Seq<char>) -> int
    decreases path.len(),
{
    if path.len() == 0 {
        -1
    } else if path.last() == '/' {
        path.len() - 1
    } else {
        last_slash(path.drop_last())
    }
}

/// The path of the directory that holds `path`.
pub open spec fn parent_of(path: Seq<char>) -> Seq<char> {
    if last_slash(path) < 0 {
        Seq::empty()
    } else {
        path.take(last_slash(path))
    }
}

/// The name of `path` in that directory.
pub open spec fn name_of(path: Seq<char>) -> Seq<char> {
    path.skip(last_slash(path) + 1)
}

proof fn lemma_last_slash(path: Seq<char>)
    ensures
        -1 <= last_slash(path) < path.len(),
    decreases path.len(),
{
    if path.len() > 0 {
        lemma_last_slash(path.drop_last());
    }
}

/// Splits a path into the directory and the name in it.
pub fn split_parent(path: &str) -> (r: (String, String))
    ensures
        r.0@ == parent_of(path@),
        r.1@ == name_of(path@),
{
    let n: usize = path.unicode_len();
    let mut i: usize = n;
    assert(path@.take(n as int) =~= path@);
    while i > 0 && path.get_char(i - 1) != '/'
        invariant
            i <= n == path@.len(),
            last_slash(path@) == last_slash(path@.take(i as int)),
        decreases i,
    {
        proof {
            assert(path@.take(i as int).drop_last() =~= path@.take(i - 1));
        }
        i = i - 1;
    }
    proof {
        if i > 0 {
            assert(path@.take(i as int).last() == '/');
        }
    }
    if i == 0 {
        assert(path@.skip(0) =~= path@);
        let none: String = String::new();
        assert(none@ =~= Seq::<char>::empty());
        (none, path.to_owned())
    } else {
        assert(last_slash(path@) == i - 1);
        let parent: &str = path.substring_char(0, i - 1);
        let name: &str = path.substring_char(i, n);
        assert(parent@ =~= parent_of(path@));
        assert(name@ =~= name_of(path@));
        (parent.to_owned(), name.to_owned())
    }
}

/// A name without a slash, put behind a directory, is split off again.
pub proof fn law_split_undoes_join(parent: Seq<char>, name: Seq<char>)
    requires
        forall|i: int| 0 <= i < name.len() ==> #[trigger] name[i] != '/',
    ensures
        parent_of(joined(parent, name)) == parent,
        name_of(joined(parent, name)) == name,
{
    if parent.len() == 0 {
        lemma_no_slash(name);
        assert(parent_of(name) =~= parent);
        assert(name_of(name) =~= name);
    } else {
        let path = joined(parent, name);
        lemma_slash_before(parent + seq!['/'], name);
        let head = parent + seq!['/'];
        assert(head.last() == '/');
        assert(last_slash(path) == parent.len());
        assert(parent_of(path) =~= parent);
        assert(name_of(path) =~= name);
    }
}

proof fn lemma_no_slash(s: Seq<char>)
    requires
        forall|i: int| 0 <= i < s.len() ==> #[trigger] s[i] != '/',
    ensures
        last_slash(s) == -1,
    decreases s.len(),
{
    if s.len() > 0 {
        assert(s[s.len() - 1] != '/');
        lemma_no_slash(s.drop_last());
    }
}

proof fn lemma_slash_before(head: Seq<char>, name: Seq<char>)
    requires
        forall|i: int| 0 <= i < name.len() ==> #[trigger] name[i] != '/',
    ensures
        last_slash(head + name) == last_slash(head),
    decreases name.len(),
{
    if name.len() == 0 {
        assert(head + name =~= head);
    } else {
        assert(name[name.len() - 1] != '/');
        assert((head + name).drop_last() =~= head + name.drop_last());
        lemma_slash_before(head, name.drop_last());
    }
}

/// The numbers that were given out: the path of number `FIRST_INO + i` at `i`.
pub struct Inodes {
    paths: Vec<String>,
}

impl View for Inodes {
    type V = Seq<Seq<char>>;

    closed spec fn view(&self) -> Seq<Seq<char>> {
        texts(self.paths@)
    }
}

/// Where a path stands in the list, -1 where it does not.
pub open spec fn place_of(paths: Seq<Seq<char>>, path: Seq<char>) -> int
    decreases paths.len(),
{
    if paths.len() == 0 {
        -1
    } else if paths.last() == path {
        paths.len() - 1
    } else {
        place_of(paths.drop_last(), path)
    }
}

/// The path under a number.
pub open spec fn path_at(paths: Seq<Seq<char>>, ino: u64) -> Option<Seq<char>> {
    if ino == ROOT_INO {
        Some(Seq::empty())
    } else if FIRST_INO <= ino && ino - FIRST_INO < paths.len() {
        Some(paths[ino - FIRST_INO])
    } else {
        None
    }
}

/// Whether a path has a number.
pub open spec fn known(paths: Seq<Seq<char>>, path: Seq<char>) -> bool {
    path.len() == 0 || place_of(paths, path) >= 0
}

/// The number of a path that has one.
pub open spec fn number_of(paths: Seq<Seq<char>>, path: Seq<char>) -> u64 {
    if path.len() == 0 {
        ROOT_INO
    } else {
        (FIRST_INO + place_of(paths, path)) as u64
    }
}

/// Whether there is a number left for one more path.
pub open spec fn has_room(paths: Seq<Seq<char>>) -> bool {
    FIRST_INO + paths.len() < u64::MAX
}

/// The list when `path` was asked for: it gets a number if it has none and there is
/// one left.
pub open spec fn with_path(paths: Seq<Seq<char>>, path: Seq<char>) -> Seq<Seq<char>> {
    if known(paths, path) || !has_room(paths) {
        paths
    } else {
        paths.push(path)
    }
}

/// The number that `path` gets, or has.
pub open spec fn number_given(paths: Seq<Seq<char>>, path: Seq<char>) -> Option<u64> {
    if known(with_path(paths, path), path) {
        Some(number_of(with_path(paths, path), path))
    } else {
        None
    }
}

/// Whether no path is listed twice, and all numbers fit.
pub open spec fn paths_wf(paths: Seq<Seq<char>>) -> bool {
    &&& FIRST_INO + paths.len() <= u64::MAX
    &&& forall|i: int| 0 <= i < paths.len() ==> (#[trigger] paths[i]).len() > 0
    &&& forall|i: int, j: int|
        0 <= i < j < paths.len() ==> #[trigger] paths[i] != #[trigger] paths[j]
}

proof fn lemma_place(paths: Seq<Seq<char>>, path: Seq<char>)
    ensures
        -1 <= place_of(paths, path) < paths.len(),
        place_of(paths, path) >= 0 ==> paths[place_of(paths, path)] == path,
        place_of(paths, path) < 0 ==> forall|i: int|
            0 <= i < paths.len() ==> #[trigger] paths[i] != path,
    decreases paths.len(),
{
    if paths.len() > 0 && paths.last() != path {
        let head = paths.drop_last();
        lemma_place(head, path);
        if place_of(head, path) < 0 {
            assert forall|i: int| 0 <= i < paths.len() implies #[trigger] paths[i] != path by {
                if i < head.len() {
                    assert(head[i] != path);
                }
            }
        }
    }
}

/// Giving out a number keeps the list in order.
pub proof fn law_list_stays_sound(paths: Seq<Seq<char>>, path: Seq<char>)
    requires
        paths_wf(paths),
    ensures
        paths_wf(with_path(paths, path)),
{
    lemma_place(paths, path);
}

/// A number is given out for good: it leads to the same path whatever else is asked
/// for.
pub proof fn law_numbers_are_stable(paths: Seq<Seq<char>>, path: Seq<char>, ino: u64)
    requires
        path_at(paths, ino) is Some,
    ensures
        path_at(with_path(paths, path), ino) == path_at(paths, ino),
{
}

/// The number of a path leads back to it, and the path keeps the number when it is
/// asked for again.
pub proof fn law_number_leads_back(paths: Seq<Seq<char>>, path: Seq<char>, ino: u64)
    requires
        paths_wf(paths),
        number_given(paths, path) == Some(ino),
    ensures
        path_at(with_path(paths, path), ino) == Some(path),
        number_given(with_path(paths, path), path) == Some(ino),
        with_path(with_path(paths, path), path) == with_path(paths, path),
        ino != NEVER_INDEX_INO,
{
    lemma_place(paths, path);
    lemma_place(with_path(paths, path), path);
    if path.len() == 0 {
        assert(path =~= Seq::<char>::empty());
    }
}

/// Two paths with one number are the same.
pub proof fn law_numbers_differ(paths: Seq<Seq<char>>, a: Seq<char>, b: Seq<char>)
    requires
        paths_wf(paths),
        known(paths, a),
        known(paths, b),
        number_of(paths, a) == number_of(paths, b),
    ensures
        a == b,
{
    lemma_place(paths, a);
    lemma_place(paths, b);
    if a.len() == 0 {
        assert(a =~= Seq::<char>::empty());
        assert(b =~= Seq::<char>::empty());
    }
}

impl Inodes {
    pub open spec fn wf(&self) -> bool {
        paths_wf(self@)
    }

    /// Only the root has a number.
    pub fn new() -> (n: Inodes)
        ensures
            n.wf(),
            n@ == Seq::<Seq<char>>::empty(),
    {
        let n = Inodes { paths: Vec::new() };
        assert(n@ =~= Seq::<Seq<char>>::empty());
        n
    }

    /// The number of a path, a new one if it has none. `None` where no number is
    /// left.
    pub fn intern(&mut self, path: &str) -> (r: Option<u64>)
        requires
            old(self).wf(),
        ensures
            final(self).wf(),
            final(self)@ == with_path(old(self)@, path@),
            r == number_given(old(self)@, path@),
    {
        if path.is_empty() {
            return Some(ROOT_INO);
        }
        let ghost all = self@;
        proof {
            lemma_place(all, path@);
            law_list_stays_sound(all, path@);
        }
        let n: usize = self.paths.len();
        let mut i: usize = n;
        assert(all.take(n as int) =~= all);
        while i > 0
            invariant
                i <= n == self.paths.len(),
                all == self@,
                *self == *old(self),
                self.wf(),
                path@.len() > 0,
                place_of(all, path@) == place_of(all.take(i as int), path@),
            decreases i,
        {
            proof {
                assert(all.take(i as int).drop_last() =~= all.take(i - 1));
                assert(all.take(i as int).last() == self.paths@[i - 1]@);
            }
            if same_text(self.paths[i - 1].as_str(), path) {
                return Some(FIRST_INO + (i - 1) as u64);
            }
            i = i - 1;
        }
        assert(all.take(0) =~= Seq::<Seq<char>>::empty());
        if (n as u64) < u64::MAX - FIRST_INO {
            self.paths.push(path.to_owned());
            assert(self@ =~= all.push(path@));
            Some(FIRST_INO + n as u64)
        } else {
            None
        }
    }

    /// The path under a number.
    pub fn path_of(&self, ino: u64) -> (r: Option<String>)
        ensures
            (match r {
                Some(s) => Some(s@),
                None => None,
            }) == path_at(self@, ino),
    {
        if ino == ROOT_INO {
            let none: String = String::new();
            assert(none@ =~= Seq::<char>::empty());
            return Some(none);
        }
        if ino < FIRST_INO {
            return None;
        }
        if ino - FIRST_INO < self.paths.len() as u64 {
            let i: usize = (ino - FIRST_INO) as usize;
            Some(self.paths[i].clone())
        } else {
            None
        }
    }
}

} // verus!
