//! Comparing a file system with a directory of reference files.
//!
//! The directories are taken from a stack, beginning with the root. Of each, the
//! files are compared in the order of the listing, and the directories are put on the
//! stack.

pub mod laws;

use crate::fs::entry_views;
use crate::fs::Attr;
use crate::fs::DirEntry;
use crate::fs::EntryView;
use crate::fs::FileKind;
use crate::fs::NEVER_INDEX_NAME;
use crate::fs::ROOT_INO;
use crate::text::same_text;
use crate::text::texts;
use vstd::prelude::*;

verus! {

/// A file or directory: the names that lead to it, and its number.
pub struct Item {
    pub path: Vec<String>,
    pub ino: u64,
}

/// What an [`Item`] says.
#[verifier::ext_equal]
pub struct ItemView {
    pub path: Seq<Seq<char>>,
    pub ino: u64,
}

impl View for Item {
    type V = ItemView;

    open spec fn view(&self) -> ItemView {
        ItemView { path: texts(self.path@), ino: self.ino }
    }
}

pub open spec fn item_views(v: Seq<Item>) -> Seq<ItemView> {
    Seq::new(v.len(), |i: int| v[i]@)
}

/// How a file compares.
#[derive(Debug, Clone, Copy, PartialEq, Eq, Structural)]
pub enum Verdict {
    Same,
    Different,
    /// There is no reference file.
    Missing,
}

/// The state of a comparison.
pub struct Verification {
    stack: Vec<Item>,
    same: u64,
    different: u64,
    missing: u64,
}

/// What a [`Verification`] knows.
#[verifier::ext_equal]
pub struct VerificationView {
    pub stack: Seq<ItemView>,
    pub same: nat,
    pub different: nat,
    pub missing: nat,
}

impl View for Verification {
    type V = VerificationView;

    closed spec fn view(&self) -> VerificationView {
        VerificationView {
            stack: item_views(self.stack@),
            same: self.same as nat,
            different: self.different as nat,
            missing: self.missing as nat,
        }
    }
}

/// The entry of a directory at `prefix`.
pub open spec fn item_of(prefix: Seq<Seq<char>>, e: EntryView) -> ItemView {
    ItemView { path: prefix.push(e.name), ino: e.ino }
}

/// The entries of one kind, in order, without the file that stands on no disk.
pub open spec fn items_of(
    prefix: Seq<Seq<char>>,
    entries: Seq<EntryView>,
    kind: FileKind,
) -> Seq<ItemView>
    decreases entries.len(),
{
    if entries.len() == 0 {
        Seq::empty()
    } else {
        let before = items_of(prefix, entries.drop_last(), kind);
        let e = entries.last();
        if e.kind == kind && e.name != NEVER_INDEX_NAME@ {
            before.push(item_of(prefix, e))
        } else {
            before
        }
    }
}

/// How the bytes of a file compare with those of its reference file.
pub open spec fn verdict_of(data: Seq<u8>, reference: Option<Seq<u8>>) -> Verdict {
    match reference {
        None => Verdict::Missing,
        Some(r) => if data == r {
            Verdict::Same
        } else {
            Verdict::Different
        },
    }
}

impl VerificationView {
    /// The state with one more file compared.
    pub open spec fn count(self, v: Verdict) -> VerificationView {
        match v {
            Verdict::Same => VerificationView { same: self.same + 1, ..self },
            Verdict::Different => VerificationView { different: self.different + 1, ..self },
            Verdict::Missing => VerificationView { missing: self.missing + 1, ..self },
        }
    }

    /// Whether all files compared were the same.
    pub open spec fn succeeded(self) -> bool {
        self.different == 0 && self.missing == 0
    }

    /// The files compared.
    pub open spec fn total(self) -> nat {
        self.same + self.different + self.missing
    }

    /// The next directory, and the state without it.
    pub open spec fn taken(self) -> (VerificationView, Option<ItemView>) {
        if self.stack.len() == 0 {
            (self, None)
        } else {
            (
                VerificationView { stack: self.stack.drop_last(), ..self },
                Some(self.stack.last()),
            )
        }
    }

    /// The state with the directories among these entries put on the stack.
    pub open spec fn with_dirs(
        self,
        prefix: Seq<Seq<char>>,
        entries: Seq<EntryView>,
    ) -> VerificationView {
        VerificationView { stack: self.stack + items_of(prefix, entries, FileKind::Dir), ..self }
    }
}

fn copy_path(path: &Vec<String>) -> (out: Vec<String>)
    ensures
        texts(out@) == texts(path@),
{
    let mut out: Vec<String> = Vec::new();
    let mut i: usize = 0;
    while i < path.len()
        invariant
            i <= path.len(),
            out.len() == i,
            forall|k: int| 0 <= k < i ==> (#[trigger] out@[k])@ == path@[k]@,
        decreases path.len() - i,
    {
        out.push(path[i].clone());
        i = i + 1;
    }
    assert(texts(out@) =~= texts(path@));
    out
}

/// The bytes of a file that one read is to bring.
pub open spec fn one_read(attr: Option<Attr>) -> u32 {
    match attr {
        Some(a) => if a.size < u32::MAX {
            a.size as u32
        } else {
            u32::MAX
        },
        None => 0,
    }
}

/// A file is read whole where one read can bring it, and as far as one can where not.
pub proof fn law_files_are_read_whole(a: Attr)
    ensures
        a.size <= u32::MAX ==> one_read(Some(a)) == a.size,
        a.size > u32::MAX ==> one_read(Some(a)) == u32::MAX,
        one_read(None) == 0,
{
}

/// How many bytes of a file are to be read: all, as far as one read can.
pub fn bytes_to_read(attr: &Option<Attr>) -> (n: u32)
    ensures
        n == one_read(*attr),
        n == (match attr {
            Some(a) => if a.size < u32::MAX {
                a.size as int
            } else {
                u32::MAX as int
            },
            None => 0,
        }),
{
    match attr {
        Some(a) => if a.size < u32::MAX as u64 {
            a.size as u32
        } else {
            u32::MAX
        },
        None => 0,
    }
}

fn same_bytes(a: &[u8], b: &[u8]) -> (same: bool)
    ensures
        same == (a@ == b@),
{
    if a.len() != b.len() {
        return false;
    }
    let mut i: usize = 0;
    while i < a.len()
        invariant
            i <= a.len() == b.len(),
            forall|k: int| 0 <= k < i ==> a@[k] == b@[k],
        decreases a.len() - i,
    {
        if a[i] != b[i] {
            return false;
        }
        i = i + 1;
    }
    assert(a@ =~= b@);
    true
}

impl Verification {
    /// Nothing was compared; the root is to be looked at.
    pub fn new() -> (v: Verification)
        ensures
            v@ == (VerificationView {
                stack: seq![ItemView { path: Seq::empty(), ino: ROOT_INO }],
                same: 0,
                different: 0,
                missing: 0,
            }),
    {
        let root: Item = Item { path: Vec::new(), ino: ROOT_INO };
        assert(root@ =~= ItemView { path: Seq::empty(), ino: ROOT_INO });
        let v = Verification { stack: vec![root], same: 0, different: 0, missing: 0 };
        assert(v@.stack =~= seq![ItemView { path: Seq::empty(), ino: ROOT_INO }]);
        v
    }

    /// The next directory to look at.
    pub fn next_dir(&mut self) -> (r: Option<Item>)
        ensures
            match r {
                Some(d) => {
                    &&& old(self)@.stack.len() > 0
                    &&& d@ == old(self)@.stack.last()
                    &&& final(self)@ == (VerificationView {
                        stack: old(self)@.stack.drop_last(),
                        ..old(self)@
                    })
                },
                None => old(self)@.stack.len() == 0 && final(self)@ == old(self)@,
            },
            (final(self)@, match r {
                Some(d) => Some(d@),
                None => None,
            }) == old(self)@.taken(),
    {
        let r: Option<Item> = self.stack.pop();
        assert(r is Some ==> self@.stack =~= old(self)@.stack.drop_last());
        r
    }

    /// Takes the listing of the directory at `prefix`: its directories are put on the
    /// stack, its files are given back, to be compared.
    pub fn listed(&mut self, prefix: &Vec<String>, entries: &Vec<DirEntry>) -> (files: Vec<Item>)
        ensures
            item_views(files@) == items_of(
                texts(prefix@),
                entry_views(entries@),
                FileKind::File,
            ),
            final(self)@ == (VerificationView {
                stack: old(self)@.stack + items_of(
                    texts(prefix@),
                    entry_views(entries@),
                    FileKind::Dir,
                ),
                ..old(self)@
            }),
            final(self)@ == old(self)@.with_dirs(texts(prefix@), entry_views(entries@)),
    {
        let ghost all = entry_views(entries@);
        let ghost dir = texts(prefix@);
        let ghost had = self@.stack;
        let mut files: Vec<Item> = Vec::new();
        let mut i: usize = 0;
        assert(all.take(0) =~= Seq::<EntryView>::empty());
        assert(item_views(files@) =~= Seq::<ItemView>::empty());
        assert(had + Seq::<ItemView>::empty() =~= had);
        while i < entries.len()
            invariant
                i <= entries.len(),
                all == entry_views(entries@),
                dir == texts(prefix@),
                had == old(self)@.stack,
                item_views(files@) == items_of(dir, all.take(i as int), FileKind::File),
                self@ == (VerificationView {
                    stack: had + items_of(dir, all.take(i as int), FileKind::Dir),
                    ..old(self)@
                }),
            decreases entries.len() - i,
        {
            proof {
                assert(all.take(i + 1).drop_last() =~= all.take(i as int));
                assert(all.take(i + 1).last() == all[i as int]);
            }
            let e: &DirEntry = &entries[i];
            if !same_text(e.name.as_str(), NEVER_INDEX_NAME) {
                let mut path: Vec<String> = copy_path(prefix);
                path.push(e.name.clone());
                let item: Item = Item { path, ino: e.ino };
                assert(item@ =~= item_of(dir, all[i as int]));
                match e.kind {
                    FileKind::Dir => {
                        let ghost before = self@.stack;
                        self.stack.push(item);
                        assert(self@.stack =~= before.push(item_of(dir, all[i as int])));
                        assert(self@.stack =~= had + items_of(
                            dir,
                            all.take(i + 1),
                            FileKind::Dir,
                        ));
                    },
                    FileKind::File => {
                        let ghost before = item_views(files@);
                        files.push(item);
                        assert(item_views(files@) =~= before.push(item_of(dir, all[i as int])));
                    },
                }
            }
            i = i + 1;
        }
        assert(all.take(i as int) =~= all);
        files
    }

    /// Compares a file with its reference file, if there is one, and counts it.
    pub fn compare(&mut self, data: &[u8], reference: &Option<Vec<u8>>) -> (v: Verdict)
        requires
            old(self)@.total() < u64::MAX,
        ensures
            v == verdict_of(
                data@,
                match reference {
                    Some(r) => Some(r@),
                    None => None,
                },
            ),
            final(self)@ == old(self)@.count(v),
    {
        match reference {
            None => {
                self.missing = self.missing + 1;
                Verdict::Missing
            },
            Some(r) => {
                if same_bytes(data, r.as_slice()) {
                    self.same = self.same + 1;
                    Verdict::Same
                } else {
                    self.different = self.different + 1;
                    Verdict::Different
                }
            },
        }
    }

    /// How many files were the same, different, and without a reference file.
    pub fn counts(&self) -> (r: (u64, u64, u64))
        ensures
            r.0 == self@.same,
            r.1 == self@.different,
            r.2 == self@.missing,
    {
        (self.same, self.different, self.missing)
    }

    /// Whether all files were the same.
    pub fn success(&self) -> (r: bool)
        ensures
            r == self@.succeeded(),
    {
        self.different == 0 && self.missing == 0
    }
}

} // verus!
