//! What a comparison says.

use super::item_of;
use super::items_of;
use super::verdict_of;
use super::ItemView;
use super::Verdict;
use super::VerificationView;
use crate::fs::EntryView;
use crate::fs::FileKind;
use crate::fs::NEVER_INDEX_NAME;
use crate::fs::ROOT_INO;
use vstd::prelude::*;

verus! {

/// Every entry of a listing but the file that stands on no disk is either compared or
/// looked into.
pub proof fn law_nothing_is_skipped(prefix: Seq<Seq<char>>, entries: Seq<EntryView>, i: int)
    requires
        0 <= i < entries.len(),
        entries[i].name != NEVER_INDEX_NAME@,
    ensures
        items_of(prefix, entries, entries[i].kind).contains(item_of(prefix, entries[i])),
    decreases entries.len(),
{
    let head = entries.drop_last();
    let kind = entries[i].kind;
    let all = items_of(prefix, entries, kind);
    let before = items_of(prefix, head, kind);
    if i < entries.len() - 1 {
        assert(head[i] == entries[i]);
        law_nothing_is_skipped(prefix, head, i);
        let k = choose|k: int| 0 <= k < before.len() && before[k] == item_of(prefix, entries[i]);
        assert(all[k] == before[k]);
    } else {
        assert(all[all.len() - 1] == item_of(prefix, entries[i]));
    }
}

/// The comparison succeeds exactly if every file compared was the same.
pub proof fn law_success_means_same(v: VerificationView)
    ensures
        v.succeeded() <==> v.same == v.total(),
{
}

/// What is compared: the listing of each directory, the bytes of each file, and the
/// reference file at each path.
pub struct World {
    pub list: spec_fn(u64) -> Option<Seq<EntryView>>,
    pub data: spec_fn(ItemView) -> Seq<u8>,
    pub reference: spec_fn(Seq<Seq<char>>) -> Option<Seq<u8>>,
}

impl World {
    /// The entries of one kind in a directory; none where it cannot be listed.
    pub open spec fn inside(self, dir: ItemView, kind: FileKind) -> Seq<ItemView> {
        match (self.list)(dir.ino) {
            Some(entries) => items_of(dir.path, entries, kind),
            None => Seq::empty(),
        }
    }

    /// How a file compares.
    pub open spec fn verdict(self, file: ItemView) -> Verdict {
        verdict_of((self.data)(file), (self.reference)(file.path))
    }

    /// Whether every way down from a directory ends within `height` steps.
    pub open spec fn ends_within(self, dir: ItemView, height: nat) -> bool
        decreases height,
    {
        height > 0 && forall|i: int|
            0 <= i < self.inside(dir, FileKind::Dir).len() ==> self.ends_within(
                #[trigger] self.inside(dir, FileKind::Dir)[i],
                (height - 1) as nat,
            )
    }

    /// Whether a file is reached from a directory in at most `depth` steps.
    pub open spec fn reaches(self, dir: ItemView, file: ItemView, depth: nat) -> bool
        decreases depth,
    {
        depth > 0 && {
            ||| self.inside(dir, FileKind::File).contains(file)
            ||| exists|i: int|
                0 <= i < self.inside(dir, FileKind::Dir).len() && self.reaches(
                    #[trigger] self.inside(dir, FileKind::Dir)[i],
                    file,
                    (depth - 1) as nat,
                )
        }
    }
}

/// The state after all of `files` were compared.
pub open spec fn compare_all(v: VerificationView, w: World, files: Seq<ItemView>) -> VerificationView
    decreases files.len(),
{
    if files.len() == 0 {
        v
    } else {
        compare_all(v, w, files.drop_last()).count(w.verdict(files.last()))
    }
}

/// The state after one directory was taken from the stack, listed, and its files
/// compared.
pub open spec fn visit(v: VerificationView, w: World) -> VerificationView {
    let dir = v.stack.last();
    let listed = VerificationView {
        stack: v.stack.drop_last() + w.inside(dir, FileKind::Dir),
        ..v
    };
    compare_all(listed, w, w.inside(dir, FileKind::File))
}

/// The state when the stack is empty; `None` where it is not within `steps` visits.
pub open spec fn run(v: VerificationView, w: World, steps: nat) -> Option<VerificationView>
    decreases steps,
{
    if v.stack.len() == 0 {
        Some(v)
    } else if steps == 0 {
        None
    } else {
        run(visit(v, w), w, (steps - 1) as nat)
    }
}

/// The state at the start.
pub open spec fn started() -> VerificationView {
    VerificationView { stack: seq![root_dir()], same: 0, different: 0, missing: 0 }
}

pub open spec fn root_dir() -> ItemView {
    ItemView { path: Seq::empty(), ino: ROOT_INO }
}

/// Whether all of `files` have the same bytes as their reference files.
spec fn all_same(w: World, files: Seq<ItemView>) -> bool {
    forall|i: int| 0 <= i < files.len() ==> w.verdict(#[trigger] files[i]) is Same
}

/// Whether all files below a directory do, `height` steps down.
spec fn same_below(w: World, dir: ItemView, height: nat) -> bool
    decreases height,
{
    height > 0 ==> {
        &&& all_same(w, w.inside(dir, FileKind::File))
        &&& forall|i: int|
            0 <= i < w.inside(dir, FileKind::Dir).len() ==> same_below(
                w,
                #[trigger] w.inside(dir, FileKind::Dir)[i],
                (height - 1) as nat,
            )
    }
}

/// To compare files changes the counts only, and leaves a success behind exactly if
/// all are the same.
proof fn lemma_compare_all(v: VerificationView, w: World, files: Seq<ItemView>)
    ensures
        compare_all(v, w, files).stack == v.stack,
        compare_all(v, w, files).succeeded() <==> v.succeeded() && all_same(w, files),
    decreases files.len(),
{
    if files.len() > 0 {
        let head = files.drop_last();
        lemma_compare_all(v, w, head);
        if all_same(w, files) {
            assert forall|i: int| 0 <= i < head.len() implies w.verdict(#[trigger] head[i]) is Same by {
                assert(head[i] == files[i]);
            }
            assert(w.verdict(files[files.len() - 1]) is Same);
        } else if all_same(w, head) && w.verdict(files.last()) is Same {
            assert forall|i: int| 0 <= i < files.len() implies w.verdict(#[trigger] files[i]) is Same by {
                if i < head.len() {
                    assert(head[i] == files[i]);
                }
            }
        }
    }
}

/// Whether the directories on top of a stack are dealt with from `v` to `after` in
/// `steps` visits, whatever comes then.
spec fn leads_to(v: VerificationView, after: VerificationView, w: World, steps: nat) -> bool {
    forall|more: nat| (#[trigger] run(v, w, steps + more)) == run(after, w, more)
}

/// The directory on top of the stack is dealt with, and all below it.
proof fn lemma_run_dir(v: VerificationView, w: World, height: nat) -> (r: (VerificationView, nat))
    requires
        v.stack.len() > 0,
        w.ends_within(v.stack.last(), height),
    ensures
        leads_to(v, r.0, w, r.1),
        r.0.stack == v.stack.drop_last(),
        r.0.succeeded() <==> v.succeeded() && same_below(w, v.stack.last(), height),
    decreases height, 0nat,
{
    let dir = v.stack.last();
    let rest = v.stack.drop_last();
    let dirs = w.inside(dir, FileKind::Dir);
    let files = w.inside(dir, FileKind::File);
    let listed = VerificationView { stack: rest + dirs, ..v };
    lemma_compare_all(listed, w, files);
    let next = visit(v, w);
    let (after, n) = lemma_run_dirs(next, w, rest, dirs, (height - 1) as nat);
    assert forall|more: nat| (#[trigger] run(v, w, (n + 1) + more)) == run(after, w, more) by {
        assert(run(next, w, n + more) == run(after, w, more));
        assert(((n + 1 + more) - 1) as nat == n + more);
    }
    (after, n + 1)
}

/// Several directories on top of the stack are dealt with, and all below them.
proof fn lemma_run_dirs(
    v: VerificationView,
    w: World,
    rest: Seq<ItemView>,
    dirs: Seq<ItemView>,
    height: nat,
) -> (r: (VerificationView, nat))
    requires
        v.stack == rest + dirs,
        forall|i: int| 0 <= i < dirs.len() ==> w.ends_within(#[trigger] dirs[i], height),
    ensures
        leads_to(v, r.0, w, r.1),
        r.0.stack == rest,
        r.0.succeeded() <==> v.succeeded() && forall|i: int|
            0 <= i < dirs.len() ==> same_below(w, #[trigger] dirs[i], height),
    decreases height, dirs.len() + 1,
{
    if dirs.len() == 0 {
        assert(v.stack =~= rest);
        (v, 0)
    } else {
        let head = dirs.drop_last();
        assert(dirs[dirs.len() - 1] == v.stack.last());
        let (mid, n) = lemma_run_dir(v, w, height);
        assert(mid.stack =~= rest + head);
        assert forall|i: int| 0 <= i < head.len() implies w.ends_within(
            #[trigger] head[i],
            height,
        ) by {
            assert(head[i] == dirs[i]);
        }
        let (after, m) = lemma_run_dirs(mid, w, rest, head, height);
        assert forall|more: nat| (#[trigger] run(v, w, (n + m) + more)) == run(after, w, more) by {
            assert(run(v, w, n + (m + more)) == run(mid, w, m + more));
            assert(n + (m + more) == (n + m) + more);
        }
        if forall|i: int| 0 <= i < dirs.len() ==> same_below(w, #[trigger] dirs[i], height) {
            assert forall|i: int| 0 <= i < head.len() implies same_below(
                w,
                #[trigger] head[i],
                height,
            ) by {
                assert(head[i] == dirs[i]);
            }
            assert(same_below(w, dirs[dirs.len() - 1], height));
        } else if same_below(w, dirs.last(), height) && forall|i: int|
            0 <= i < head.len() ==> same_below(w, #[trigger] head[i], height) {
            assert forall|i: int| 0 <= i < dirs.len() implies same_below(
                w,
                #[trigger] dirs[i],
                height,
            ) by {
                if i < head.len() {
                    assert(head[i] == dirs[i]);
                }
            }
        }
        (after, n + m)
    }
}

/// A file that is reached is among those that were found the same.
proof fn lemma_reached_is_same(w: World, dir: ItemView, file: ItemView, depth: nat, height: nat)
    requires
        w.ends_within(dir, height),
        same_below(w, dir, height),
        w.reaches(dir, file, depth),
    ensures
        w.verdict(file) is Same,
    decreases depth,
{
    let files = w.inside(dir, FileKind::File);
    let dirs = w.inside(dir, FileKind::Dir);
    if files.contains(file) {
        let i = choose|i: int| 0 <= i < files.len() && files[i] == file;
        assert(w.verdict(files[i]) is Same);
    } else {
        let i = choose|i: int|
            0 <= i < dirs.len() && w.reaches(#[trigger] dirs[i], file, (depth - 1) as nat);
        assert(w.ends_within(dirs[i], (height - 1) as nat));
        assert(same_below(w, dirs[i], (height - 1) as nat));
        lemma_reached_is_same(w, dirs[i], file, (depth - 1) as nat, (height - 1) as nat);
    }
}

proof fn lemma_same_if_reached_are(w: World, dir: ItemView, height: nat)
    requires
        forall|file: ItemView, depth: nat| #[trigger]
            w.reaches(dir, file, depth) ==> w.verdict(file) is Same,
    ensures
        same_below(w, dir, height),
    decreases height,
{
    if height > 0 {
        let files = w.inside(dir, FileKind::File);
        let dirs = w.inside(dir, FileKind::Dir);
        assert forall|i: int| 0 <= i < files.len() implies w.verdict(#[trigger] files[i]) is Same by {
            assert(files.contains(files[i]));
            assert(w.reaches(dir, files[i], 1));
        }
        assert forall|i: int| 0 <= i < dirs.len() implies same_below(
            w,
            #[trigger] dirs[i],
            (height - 1) as nat,
        ) by {
            assert forall|file: ItemView, depth: nat| #[trigger]
                w.reaches(dirs[i], file, depth) implies w.verdict(file) is Same by {
                assert(((depth + 1) - 1) as nat == depth);
                assert(w.reaches(dir, file, depth + 1));
            }
            lemma_same_if_reached_are(w, dirs[i], (height - 1) as nat);
        }
    }
}

/// The comparison of a finite tree comes to an end, and succeeds exactly if every file
/// that is reached from the root has the bytes of its reference file. The file that
/// stands on no disk is not reached.
pub proof fn law_comparison_is_complete(w: World, height: nat)
    requires
        w.ends_within(root_dir(), height),
    ensures
        exists|steps: nat| #[trigger]
            run(started(), w, steps) matches Some(end) && (end.succeeded() <==> forall|
                file: ItemView,
                depth: nat,
            | #[trigger]
                w.reaches(root_dir(), file, depth) ==> (w.reference)(file.path) == Some(
                    (w.data)(file),
                )),
{
    let v = started();
    let root = root_dir();
    let (end, n) = lemma_run_dir(v, w, height);
    assert(run(v, w, n + 0) == run(end, w, 0));
    assert(run(v, w, n) == Some(end));
    let all = forall|file: ItemView, depth: nat| #[trigger]
        w.reaches(root, file, depth) ==> (w.reference)(file.path) == Some((w.data)(file));
    if end.succeeded() {
        assert forall|file: ItemView, depth: nat| #[trigger]
            w.reaches(root, file, depth) implies (w.reference)(file.path) == Some(
            (w.data)(file),
        ) by {
            lemma_reached_is_same(w, root, file, depth, height);
        }
    }
    if all {
        assert forall|file: ItemView, depth: nat| #[trigger]
            w.reaches(root, file, depth) implies w.verdict(file) is Same by {
            assert((w.reference)(file.path) == Some((w.data)(file)));
        }
        lemma_same_if_reached_are(w, root, height);
    }
}

/// Nothing is compared that is not listed: each item is an entry of the directory, of the
/// kind that was asked for, under its number and its name behind the path of the
/// directory, and they come in the order of the listing.
pub proof fn law_items_are_entries(
    prefix: Seq<Seq<char>>,
    entries: Seq<EntryView>,
    kind: FileKind,
    k: int,
) -> (i: int)
    requires
        0 <= k < items_of(prefix, entries, kind).len(),
    ensures
        k <= i < entries.len(),
        entries[i].kind == kind,
        entries[i].name != NEVER_INDEX_NAME@,
        items_of(prefix, entries, kind)[k].ino == entries[i].ino,
        items_of(prefix, entries, kind)[k].path == prefix.push(entries[i].name),
        items_of(prefix, entries.take(i), kind).len() == k,
    decreases entries.len(),
{
    let head = entries.drop_last();
    let before = items_of(prefix, head, kind);
    if k < before.len() {
        let i = law_items_are_entries(prefix, head, kind, k);
        assert(head[i] == entries[i]);
        assert(head.take(i) =~= entries.take(i));
        i
    } else {
        let i = entries.len() - 1;
        assert(entries.take(i) =~= head);
        lemma_no_more_items(prefix, head, kind);
        i
    }
}

proof fn lemma_no_more_items(prefix: Seq<Seq<char>>, entries: Seq<EntryView>, kind: FileKind)
    ensures
        items_of(prefix, entries, kind).len() <= entries.len(),
    decreases entries.len(),
{
    if entries.len() > 0 {
        lemma_no_more_items(prefix, entries.drop_last(), kind);
    }
}

/// A file is the same only if each of its bytes is that of the reference file, and there
/// are no others.
pub proof fn law_same_means_each_byte(data: Seq<u8>, reference: Seq<u8>)
    ensures
        verdict_of(data, Some(reference)) == Verdict::Same <==> data.len() == reference.len()
            && forall|i: int| 0 <= i < data.len() ==> #[trigger] data[i] == reference[i],
        verdict_of(data, Some(reference)) != Verdict::Missing,
        verdict_of(data, None) == Verdict::Missing,
{
    if data.len() == reference.len() && (forall|i: int|
        0 <= i < data.len() ==> #[trigger] data[i] == reference[i]) {
        assert(data =~= reference);
    }
}

/// Each file is counted once, under its verdict.
pub proof fn law_files_are_counted(v: VerificationView, verdict: Verdict)
    ensures
        v.count(verdict).total() == v.total() + 1,
        v.count(verdict).stack == v.stack,
        v.count(Verdict::Same).same == v.same + 1,
        v.count(Verdict::Different).different == v.different + 1,
        v.count(Verdict::Missing).missing == v.missing + 1,
{
}

/// The directory that was put on the stack last is looked at first, and comes off it; what
/// was counted stays.
pub proof fn law_last_directory_comes_first(v: VerificationView, dir: ItemView)
    ensures
        (VerificationView { stack: v.stack.push(dir), ..v }).taken() == (v, Some(dir)),
        v.stack.len() == 0 ==> v.taken() == (v, None::<ItemView>),
{
    assert(v.stack.push(dir).drop_last() =~= v.stack);
}

/// Directories are put on the stack in the order of their listing, and nothing else
/// changes.
pub proof fn law_directories_are_kept(
    v: VerificationView,
    prefix: Seq<Seq<char>>,
    entries: Seq<EntryView>,
    e: EntryView,
)
    ensures
        v.with_dirs(prefix, Seq::empty()).stack == v.stack,
        e.kind == FileKind::Dir && e.name != ".metadata_never_index"@ ==> v.with_dirs(
            prefix,
            entries.push(e),
        ).stack == v.with_dirs(prefix, entries).stack.push(
            ItemView { path: prefix.push(e.name), ino: e.ino },
        ),
        e.kind == FileKind::File || e.name == ".metadata_never_index"@ ==> v.with_dirs(
            prefix,
            entries.push(e),
        ).stack == v.with_dirs(prefix, entries).stack,
        v.with_dirs(prefix, entries).same == v.same,
        v.with_dirs(prefix, entries).different == v.different,
        v.with_dirs(prefix, entries).missing == v.missing,
{
    assert(entries.push(e).drop_last() =~= entries);
    assert(v.stack + Seq::<ItemView>::empty() =~= v.stack);
    let before = items_of(prefix, entries, FileKind::Dir);
    let item = ItemView { path: prefix.push(e.name), ino: e.ino };
    assert(v.stack + before.push(item) =~= (v.stack + before).push(item));
}

} // verus!
