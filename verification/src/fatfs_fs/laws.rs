//! What holds of every listing of a FAT directory.

use super::disk::content;
use super::disk::law_image_keeps_its_bytes;
use super::disk::sound_source;
use super::disk::whole_blocks;
use super::inodes::joined;
use super::inodes::law_list_stays_sound;
use super::inodes::law_number_leads_back;
use super::inodes::law_numbers_are_stable;
use super::inodes::number_given;
use super::inodes::parent_of;
use super::inodes::path_at;
use super::inodes::paths_wf;
use super::inodes::with_path;
use super::layout::law_sound_volume_is_served;
use super::layout::sound_volume;
use super::nodes::attr_in;
use super::nodes::children;
use super::nodes::extra_entries;
use super::nodes::hidden;
use super::nodes::kind_of;
use super::nodes::search;
use super::nodes::NodeView;
use super::FatFs;
use crate::block_source::BlockSource;
use crate::fs::FileKind;
use crate::fs::Filesystem;
use crate::fs::NEVER_INDEX_INO;
use crate::fs::NEVER_INDEX_NAME;
use crate::image::ImageFile;
use vstd::prelude::*;

verus! {

/// A listing takes no number away.
pub proof fn law_listing_keeps_numbers(
    paths: Seq<Seq<char>>,
    dir: Seq<char>,
    nodes: Seq<Option<NodeView>>,
    ino: u64,
)
    requires
        paths_wf(paths),
        path_at(paths, ino) is Some,
    ensures
        paths_wf(children(paths, dir, nodes).paths),
        path_at(children(paths, dir, nodes).paths, ino) == path_at(paths, ino),
    decreases nodes.len(),
{
    if nodes.len() > 0 {
        let before = children(paths, dir, nodes.drop_last());
        law_listing_keeps_numbers(paths, dir, nodes.drop_last(), ino);
        if let Some(n) = nodes.last() {
            let path = joined(dir, n.name);
            law_list_stays_sound(before.paths, path);
            law_numbers_are_stable(before.paths, path, ino);
        }
    }
}

proof fn lemma_listing_sound(
    paths: Seq<Seq<char>>,
    dir: Seq<char>,
    nodes: Seq<Option<NodeView>>,
)
    requires
        paths_wf(paths),
    ensures
        paths_wf(children(paths, dir, nodes).paths),
    decreases nodes.len(),
{
    if nodes.len() > 0 {
        let before = children(paths, dir, nodes.drop_last());
        lemma_listing_sound(paths, dir, nodes.drop_last());
        if let Some(n) = nodes.last() {
            law_list_stays_sound(before.paths, joined(dir, n.name));
        }
    }
}

/// The number of every listed entry leads to its path, is what a search for the entry
/// gives, and is not that of the file that stands on no disk.
pub proof fn law_listed_numbers_lead_back(
    paths: Seq<Seq<char>>,
    dir: Seq<char>,
    nodes: Seq<Option<NodeView>>,
    i: int,
)
    requires
        paths_wf(paths),
        0 <= i < children(paths, dir, nodes).entries.len(),
    ensures
        ({
            let c = children(paths, dir, nodes);
            let path = joined(dir, c.entries[i].name);
            &&& path_at(c.paths, c.entries[i].ino) == Some(path)
            &&& number_given(c.paths, path) == Some(c.entries[i].ino)
            &&& with_path(c.paths, path) == c.paths
            &&& c.entries[i].ino != NEVER_INDEX_INO
            &&& !hidden(dir, c.entries[i].name)
        }),
    decreases nodes.len(),
{
    let c = children(paths, dir, nodes);
    let before = children(paths, dir, nodes.drop_last());
    lemma_listing_sound(paths, dir, nodes.drop_last());
    lemma_listing_sound(paths, dir, nodes);
    let name = c.entries[i].name;
    let own = joined(dir, name);
    if i < before.entries.len() {
        assert(c.entries[i] == before.entries[i]);
        law_listed_numbers_lead_back(paths, dir, nodes.drop_last(), i);
        if c.paths != before.paths {
            let n = nodes.last()->0;
            let path = joined(dir, n.name);
            assert(c.paths == before.paths.push(path));
            lemma_place_stays(before.paths, path, own);
        }
    } else {
        let n = nodes.last()->0;
        law_number_leads_back(before.paths, joined(dir, n.name), c.entries[i].ino);
    }
}

/// A path keeps its place when another one is added.
proof fn lemma_place_stays(paths: Seq<Seq<char>>, new: Seq<char>, old_path: Seq<char>)
    requires
        super::inodes::known(paths, old_path),
        !super::inodes::known(paths, new),
    ensures
        super::inodes::known(paths.push(new), old_path),
        super::inodes::number_of(paths.push(new), old_path) == super::inodes::number_of(
            paths,
            old_path,
        ),
{
    assert(paths.push(new).drop_last() =~= paths);
}

/// An entry is listed for each entry on the disk that is not hidden, as a file or a
/// directory, in the order of the disk.
pub proof fn law_listing_is_complete(
    paths: Seq<Seq<char>>,
    dir: Seq<char>,
    nodes: Seq<Option<NodeView>>,
)
    requires
        !children(paths, dir, nodes).failed,
    ensures
        ({
            let c = children(paths, dir, nodes);
            let s = shown(dir, nodes);
            &&& c.entries.len() == s.len()
            &&& forall|i: int|
                0 <= i < s.len() ==> (#[trigger] c.entries[i]).name == s[i].name
                    && c.entries[i].kind == kind_of(s[i].is_dir) && (c.entries[i].kind
                    == FileKind::Dir <==> s[i].is_dir)
        }),
    decreases nodes.len(),
{
    if nodes.len() > 0 {
        law_listing_is_complete(paths, dir, nodes.drop_last());
    }
}

/// The entries of a directory that are not hidden.
pub open spec fn shown(dir: Seq<char>, nodes: Seq<Option<NodeView>>) -> Seq<NodeView>
    decreases nodes.len(),
{
    if nodes.len() == 0 {
        Seq::empty()
    } else {
        match nodes.last() {
            Some(n) if !hidden(dir, n.name) => shown(dir, nodes.drop_last()).push(n),
            _ => shown(dir, nodes.drop_last()),
        }
    }
}

/// Every entry of a directory that can be read to its end is found by its name.
pub proof fn law_entries_are_found(nodes: Seq<Option<NodeView>>, i: int, ino: u64)
    requires
        0 <= i < nodes.len(),
        forall|k: int| 0 <= k < nodes.len() ==> (#[trigger] nodes[k]) is Some,
    ensures
        attr_in(nodes, (nodes[i]->0).name, ino) matches Some(a) && a.ino == ino,
{
    lemma_found(nodes, i);
}

proof fn lemma_found(nodes: Seq<Option<NodeView>>, i: int)
    requires
        0 <= i < nodes.len(),
        forall|k: int| 0 <= k < nodes.len() ==> (#[trigger] nodes[k]) is Some,
    ensures
        search(nodes, (nodes[i]->0).name) is Found,
    decreases nodes.len(),
{
    let head = nodes.drop_last();
    let name = (nodes[i]->0).name;
    assert forall|k: int| 0 <= k < head.len() implies (#[trigger] head[k]) is Some by {
        assert(head[k] == nodes[k]);
    }
    assert(nodes[nodes.len() - 1] is Some);
    if i < nodes.len() - 1 {
        assert(head[i] == nodes[i]);
        lemma_found(head, i);
    } else {
        lemma_not_failed(head, name);
    }
}

proof fn lemma_not_failed(nodes: Seq<Option<NodeView>>, name: Seq<char>)
    requires
        forall|k: int| 0 <= k < nodes.len() ==> (#[trigger] nodes[k]) is Some,
    ensures
        !(search(nodes, name) is Failed),
    decreases nodes.len(),
{
    if nodes.len() > 0 {
        let head = nodes.drop_last();
        assert forall|k: int| 0 <= k < head.len() implies (#[trigger] head[k]) is Some by {
            assert(head[k] == nodes[k]);
        }
        assert(nodes[nodes.len() - 1] is Some);
        lemma_not_failed(head, name);
    }
}

/// The file that keeps the volume out of the index is listed in the root directory
/// only, and last.
pub proof fn law_never_index_is_listed(dir: Seq<char>)
    ensures
        dir.len() == 0 ==> extra_entries(dir).len() == 1 && extra_entries(dir)[0].name
            == NEVER_INDEX_NAME@ && extra_entries(dir)[0].ino == NEVER_INDEX_INO,
        dir.len() > 0 ==> extra_entries(dir).len() == 0,
{
}

/// A disk image of a volume that can be read to its end can be opened.
pub proof fn law_sound_image_may_be_opened(image: ImageFile)
    requires
        sound_volume(whole_blocks(image.bytes())),
    ensures
        sound_source(image),
        content(image) == whole_blocks(image.bytes()),
{
    law_image_keeps_its_bytes(image);
}

/// On a volume that can be read to its end everything may be asked for.
pub proof fn law_sound_volume_may_be_asked<B: BlockSource>(fs: FatFs<B>, ino: u64, name: Seq<char>)
    requires
        fs.inv(),
        sound_volume(fs.disk().bytes),
    ensures
        fs.can_stat(ino),
        fs.can_find(ino, name),
        fs.can_list(ino),
        fs.can_read(ino),
{
    if let Some(path) = path_at(fs.paths(), ino) {
        let b = fs.disk().bytes;
        law_sound_volume_is_served(b, path);
        law_sound_volume_is_served(b, parent_of(path));
        law_sound_volume_is_served(b, parent_of(joined(path, name)));
    }
}

} // verus!
