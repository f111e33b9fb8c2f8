//! FAT12 and FAT16 volumes, read with the crate `fatfs`.
//!
//! What a directory or a file holds is for `fatfs` and the bytes of the disk to say:
//! [`disk`] says which these are, and [`answers`] names what is said of them. What is
//! made of it stands in [`nodes`] and [`inodes`]. What a volume must hold for `fatfs` to
//! answer at all stands in [`layout`], and [`check`] decides it.

pub mod answers;
pub mod check;
pub mod disk;
pub mod entry_laws;
pub mod inodes;
pub mod laws;
pub mod layout;
pub mod layout_laws;
pub mod nodes;
pub mod steady;

use crate::block_source::BlockSource;
use crate::error::IoError;
use crate::error::IoErrorKind;
use crate::fs::entry_views;
use crate::fs::never_index_attr;
use crate::fs::timeless_attr;
use crate::fs::Attr;
use crate::fs::DirEntry;
use crate::fs::FileKind;
use crate::fs::Filesystem;
use crate::fs::VolStats;
use crate::fs::NEVER_INDEX_INO;
use crate::fs::NEVER_INDEX_NAME;
use crate::fs::ROOT_INO;
use crate::text::same_text;
use crate::volume_io::from_system;
use crate::volume_io::kind_of_std;
use crate::volume_io::text_of_std;
use crate::volume_io::VolumeIo;
use answers::answer_view;
use answers::bytes_view;
use answers::came_in_pieces;
use answers::cluster_figures;
use answers::counts_clusters;
use answers::dir_opens;
use answers::ends;
use answers::ends_with;
use answers::entries_view;
use answers::entry_behind;
use answers::file_opens;
use answers::gathered;
use answers::is_listing;
use answers::is_reading;
use answers::listed_so;
use answers::lists_dir;
use answers::may_come;
use answers::open_failure;
use answers::opens_file;
use answers::piece_behind;
use answers::seek_works;
use answers::seeks;
use answers::until_view;
use disk::disk_of;
use disk::may_fail;
use disk::sound_source;
use disk::Disk;
use inodes::join;
use inodes::joined;
use inodes::name_of;
use inodes::number_given;
use inodes::parent_of;
use inodes::path_at;
use inodes::paths_wf;
use inodes::split_parent;
use inodes::with_path;
use inodes::Inodes;
use layout::boot_of;
use layout::is_volume;
use layout::list_holds;
use layout::read_holds;
use nodes::attr_in;
use nodes::children;
use nodes::cluster_stats;
use nodes::extra_entries;
use nodes::find_attr;
use nodes::list_children;
use nodes::listing_view;
use nodes::take_piece;
use nodes::Children;
use nodes::Node;
use nodes::NodeView;
use nodes::Progress;
use std::io::Read;
use std::io::Seek;
use vstd::prelude::*;

verus! {

/// A FAT volume as `fatfs` has it. Its state and the disk under it cannot be seen
/// here.
#[verifier::external_body]
#[verifier::reject_recursive_types(B)]
struct RawVolume<B: BlockSource> {
    fs: fatfs::FileSystem<VolumeIo<B>>,
}

/// A directory as `fatfs` has it.
#[verifier::external_body]
#[verifier::reject_recursive_types(B)]
struct RawDir<'a, B: BlockSource> {
    dir: fatfs::Dir<'a, VolumeIo<B>>,
}

/// The entries of a directory that are still to come, as `fatfs` has them.
#[verifier::external_body]
#[verifier::reject_recursive_types(B)]
struct RawEntries<'a, B: BlockSource> {
    entries: fatfs::DirIter<'a, VolumeIo<B>>,
}

/// An open file as `fatfs` has it.
#[verifier::external_body]
#[verifier::reject_recursive_types(B)]
struct RawFile<'a, B: BlockSource> {
    file: fatfs::File<'a, VolumeIo<B>>,
}

/// A FAT volume, and the disk on which it was opened.
#[verifier::reject_recursive_types(B)]
struct FatVolume<B: BlockSource> {
    raw: RawVolume<B>,
    src: Ghost<B>,
}

/// A directory, its disk, and the path by which it was opened.
#[verifier::reject_recursive_types(B)]
struct FatDir<'a, B: BlockSource> {
    raw: RawDir<'a, B>,
    src: Ghost<B>,
    path: Ghost<Seq<char>>,
}

/// A walk through the directory at `path` of a disk, what it has met, and whether it is
/// over: at the end of the directory, or at an entry that could not be read.
#[verifier::reject_recursive_types(B)]
struct FatEntries<'a, B: BlockSource> {
    raw: RawEntries<'a, B>,
    src: Ghost<B>,
    path: Ghost<Seq<char>>,
    met: Ghost<Seq<Option<NodeView>>>,
    over: Ghost<bool>,
}

/// An open file, its disk, the path by which it was opened, where reading began, what
/// was read since, and whether all went well so far.
#[verifier::reject_recursive_types(B)]
struct FatFile<'a, B: BlockSource> {
    raw: RawFile<'a, B>,
    src: Ghost<B>,
    path: Ghost<Seq<char>>,
    from: Ghost<u64>,
    had: Ghost<Seq<u8>>,
    well: Ghost<bool>,
}

/// `fatfs::FileSystem::new`, with the standard options: reads the boot sector of the
/// volume, which must stand at its start; the numbers in it must fit. The contract
/// claims that there is a volume only if the boot sector says so; that with 12 or 16
/// bits to an entry there is one then, if the disk keeps its bytes; and that the bytes
/// decide with what error it fails, or the disk, where it does not keep them. No error
/// comes from the system. The disk is noted with the volume.
#[verifier::external_body]
fn fat_open<B: BlockSource>(volume: VolumeIo<B>) -> (r: Result<FatVolume<B>, std::io::Error>)
    requires
        volume.position() == 0,
        sound_source(volume.source()),
    ensures
        match r {
            Ok(v) => {
                &&& v.src@ == volume.source()
                &&& is_volume(disk_of(v.src@).bytes)
                &&& open_failure(disk_of(v.src@).bytes) is None
            },
            Err(e) => {
                &&& !from_system(e)
                &&& fails_so(volume.source(), kind_of_std(e), text_of_std(e))
                &&& !opens_surely(disk_of(volume.source()))
            },
        },
{
    let src = Ghost(volume.source());
    let fs = fatfs::FileSystem::new(volume, fatfs::FsOptions::new())?;
    Ok(FatVolume { raw: RawVolume { fs }, src })
}

/// `std::io::Error::kind`: the kind of an error, as far as the library has it. The
/// contract gives it a name. An error of the system is sorted by the system, so it is
/// left out.
#[verifier::external_body]
fn error_kind(e: &std::io::Error) -> (kind: IoErrorKind)
    requires
        !from_system(*e),
    ensures
        kind == kind_of_std(*e),
{
    match e.kind() {
        std::io::ErrorKind::NotFound => IoErrorKind::NotFound,
        std::io::ErrorKind::PermissionDenied => IoErrorKind::PermissionDenied,
        std::io::ErrorKind::NotConnected => IoErrorKind::NotConnected,
        std::io::ErrorKind::BrokenPipe => IoErrorKind::BrokenPipe,
        std::io::ErrorKind::InvalidInput => IoErrorKind::InvalidInput,
        std::io::ErrorKind::InvalidData => IoErrorKind::InvalidData,
        std::io::ErrorKind::UnexpectedEof => IoErrorKind::UnexpectedEof,
        _ => IoErrorKind::Other,
    }
}

/// `to_string` of `std::io::Error`: its message. The contract gives it a name. An error
/// of the system is worded by the system, so it is left out.
#[verifier::external_body]
fn error_text(e: &std::io::Error) -> (text: String)
    requires
        !from_system(*e),
    ensures
        text@ == text_of_std(*e),
{
    e.to_string()
}

/// `fatfs::FileSystem::root_dir`: the root directory of the volume.
#[verifier::external_body]
fn fat_root_dir<'a, B: BlockSource>(volume: &'a FatVolume<B>) -> (r: FatDir<'a, B>)
    ensures
        r.path@ == Seq::<char>::empty(),
        r.src@ == volume.src@,
{
    let raw = RawDir { dir: volume.raw.fs.root_dir() };
    FatDir { raw, src: volume.src, path: Ghost(Seq::empty()) }
}

/// `fatfs::Dir::open_dir` of the root directory: the directory at a path, `None` where
/// it could not be opened. The path must have a name, and must be one that can be
/// followed. The contract claims that the bytes of the disk decide, or a failure of the
/// disk, and notes the path with the directory.
#[verifier::external_body]
fn fat_open_dir<'a, B: BlockSource>(root: &FatDir<'a, B>, path: &str) -> (r: Option<
    FatDir<'a, B>,
>)
    requires
        root.path@ == Seq::<char>::empty(),
        path@.len() > 0,
        sound_source(root.src@),
        list_holds(disk_of(root.src@).bytes, path@),
    ensures
        (r is Some) == dir_opens(disk_of(root.src@).bytes, path@) || r is None && !disk_of(
            root.src@,
        ).kept,
        r matches Some(d) ==> d.path@ == path@ && d.src@ == root.src@,
{
    let raw = RawDir { dir: root.raw.dir.open_dir(path).ok()? };
    Some(FatDir { raw, src: root.src, path: Ghost(path@) })
}

/// `fatfs::Dir::open_file` of the root directory: the file at a path, open at its start,
/// `None` where it could not be opened. The path must be one that can be followed. The
/// contract claims that the bytes of the disk decide, or a failure of the disk, and
/// notes the path with the file.
#[verifier::external_body]
fn fat_open_file<'a, B: BlockSource>(root: &FatDir<'a, B>, path: &str) -> (r: Option<
    FatFile<'a, B>,
>)
    requires
        root.path@ == Seq::<char>::empty(),
        sound_source(root.src@),
        read_holds(disk_of(root.src@).bytes, path@),
    ensures
        (r is Some) == file_opens(disk_of(root.src@).bytes, path@) || r is None && !disk_of(
            root.src@,
        ).kept,
        r matches Some(f) ==> {
            &&& f.path@ == path@
            &&& f.src@ == root.src@
            &&& f.from@ == 0
            &&& f.had@ == Seq::<u8>::empty()
            &&& f.well@
        },
{
    let raw = RawFile { file: root.raw.dir.open_file(path).ok()? };
    let (path, from) = (Ghost(path@), Ghost(0));
    Some(FatFile { raw, src: root.src, path, from, had: Ghost(Seq::empty()), well: Ghost(true) })
}

/// `fatfs::Dir::iter`: the entries of a directory, from the first on. The contract
/// claims that the walk is through that directory, and has met nothing yet.
#[verifier::external_body]
fn fat_iter<'a, B: BlockSource>(dir: &FatDir<'a, B>) -> (r: FatEntries<'a, B>)
    ensures
        r.path@ == dir.path@,
        r.src@ == dir.src@,
        r.met@ == Seq::<Option<NodeView>>::empty(),
        !r.over@,
{
    let raw = RawEntries { entries: dir.raw.dir.iter() };
    let (met, over) = (Ghost(Seq::empty()), Ghost(false));
    FatEntries { raw, src: dir.src, path: dir.path, met, over }
}

/// `next` of `fatfs::DirIter`, which is not over: the next entry, with what `fatfs` says
/// of it; `None` behind the last, `Some(None)` where it could not be read. The directory
/// must be one that can be listed. The contract claims that the bytes of the disk, the
/// path and what the walk has met decide, or a failure of the disk; where a read may
/// end early, the directory may too. It notes the entry as met.
#[verifier::external_body]
fn fat_next<'a, B: BlockSource>(entries: &mut FatEntries<'a, B>) -> (r: Option<Option<Node>>)
    requires
        !old(entries).over@,
        sound_source(old(entries).src@),
        list_holds(disk_of(old(entries).src@).bytes, old(entries).path@),
    ensures
        ({
            ||| answer_view(r) == entry_behind(
                disk_of(old(entries).src@).bytes,
                old(entries).path@,
                old(entries).met@,
            )
            ||| answer_view(r) == Some(None::<NodeView>) && !disk_of(old(entries).src@).kept
            ||| r is None && !disk_of(old(entries).src@).whole
        }),
        final(entries).path@ == old(entries).path@,
        final(entries).src@ == old(entries).src@,
        final(entries).met@ == (match answer_view(r) {
            Some(n) => old(entries).met@.push(n),
            None => old(entries).met@,
        }),
        final(entries).over@ == !(r matches Some(Some(_))),
{
    entries.over = Ghost(true);
    let node = entries.raw.entries.next()?.ok().map(
        |e| Node {
            name: e.file_name(),
            is_dir: e.is_dir(),
            len: e.len(),
            modified: e.modified(),
            created: e.created(),
            accessed: e.accessed(),
        },
    );
    entries.met = Ghost(entries.met@.push(listing_view(seq![node])[0]));
    entries.over = Ghost(node is None);
    Some(node)
}

/// `seek` of `fatfs::File`, which was just opened, from its start: whether it could be
/// done. The contract claims that the bytes of the disk, the path and the offset decide,
/// or a failure of the disk, and that reading begins there; behind the end of the file
/// `fatfs` stays at the end.
#[verifier::external_body]
fn fat_seek<'a, B: BlockSource>(file: &mut FatFile<'a, B>, offset: u64) -> (done: bool)
    requires
        old(file).well@,
        old(file).from@ == 0,
        old(file).had@ == Seq::<u8>::empty(),
        sound_source(old(file).src@),
        read_holds(disk_of(old(file).src@).bytes, old(file).path@),
    ensures
        done == seek_works(disk_of(old(file).src@).bytes, old(file).path@, offset) || !done
            && !disk_of(old(file).src@).kept,
        final(file).path@ == old(file).path@,
        final(file).src@ == old(file).src@,
        final(file).well@ == done,
        done ==> final(file).from@ == offset && final(file).had@ == Seq::<u8>::empty(),
{
    let done = file.raw.file.seek(std::io::SeekFrom::Start(offset)).is_ok();
    file.from = Ghost(offset);
    file.had = Ghost(Seq::empty());
    file.well = Ghost(done);
    done
}

/// `read` of `fatfs::File`, into a buffer of `max` bytes: what was read, at most so
/// many bytes; `None` where the read failed. The contract claims that the bytes of the
/// disk, the path, the offset, what was read since and `max` decide, or a failure of the
/// disk, and notes what was read.
#[verifier::external_body]
fn fat_read<'a, B: BlockSource>(file: &mut FatFile<'a, B>, max: usize) -> (r: Option<Vec<u8>>)
    requires
        old(file).well@,
        sound_source(old(file).src@),
        read_holds(disk_of(old(file).src@).bytes, old(file).path@),
    ensures
        may_come(
            disk_of(old(file).src@),
            piece_behind(
                disk_of(old(file).src@).bytes,
                old(file).path@,
                old(file).from@,
                old(file).had@,
                max as nat,
            ),
            bytes_view(r),
        ),
        r matches Some(v) ==> v.len() <= max,
        final(file).path@ == old(file).path@,
        final(file).src@ == old(file).src@,
        final(file).from@ == old(file).from@,
        final(file).well@ == (r is Some),
        r matches Some(v) ==> final(file).had@ == old(file).had@ + v@,
{
    file.well = Ghost(false);
    let mut buf = vec![0u8; max];
    let n = file.raw.file.read(&mut buf).ok()?;
    buf.truncate(n);
    file.had = Ghost(file.had@ + buf@);
    file.well = Ghost(true);
    Some(buf)
}

/// `fatfs::FileSystem::stats`: the clusters on the volume, the free ones, and the
/// bytes in a cluster; `None` where the table could not be read. The contract claims
/// that the bytes of the disk decide, or a failure of the disk.
#[verifier::external_body]
fn fat_stats<B: BlockSource>(volume: &FatVolume<B>) -> (r: Option<(u32, u32, u32)>)
    requires
        sound_source(volume.src@),
    ensures
        may_come(disk_of(volume.src@), cluster_figures(disk_of(volume.src@).bytes), r),
{
    let s = volume.raw.fs.stats().ok()?;
    Some((s.total_clusters(), s.free_clusters(), s.cluster_size()))
}

/// Lists a directory, up to an entry named `until` or one that cannot be read.
fn read_entries<'a, B: BlockSource>(dir: &FatDir<'a, B>, until: Option<&str>) -> (nodes: Vec<
    Option<Node>,
>)
    requires
        sound_source(dir.src@),
        list_holds(disk_of(dir.src@).bytes, dir.path@),
    ensures
        is_listing(disk_of(dir.src@), dir.path@, until_view(until), listing_view(nodes@)),
{
    let mut entries: FatEntries<B> = fat_iter(dir);
    let mut nodes: Vec<Option<Node>> = Vec::new();
    let mut left: u64 = u64::MAX;
    assert(listing_view(nodes@) =~= entries.met@);
    while left > 0
        invariant
            entries.path@ == dir.path@,
            entries.src@ == dir.src@,
            !entries.over@,
            sound_source(dir.src@),
            list_holds(disk_of(dir.src@).bytes, dir.path@),
            entries.met@ == listing_view(nodes@),
            left == u64::MAX - nodes.len(),
            listed_so(disk_of(dir.src@), dir.path@, until_view(until), entries.met@),
            forall|i: int|
                0 <= i < entries.met@.len() ==> !ends(
                    until_view(until),
                    #[trigger] entries.met@[i],
                ),
        decreases left,
    {
        let ghost met = entries.met@;
        match fat_next(&mut entries) {
            None => {
                return nodes;
            },
            Some(node) => {
                let stop: bool = match (&node, until) {
                    (None, _) => true,
                    (Some(n), Some(name)) => same_text(n.name.as_str(), name),
                    (Some(_), None) => false,
                };
                nodes.push(node);
                proof {
                    assert(listing_view(nodes@) =~= entries.met@);
                    assert(entries.met@.drop_last() =~= met);
                    assert(stop == ends(until_view(until), entries.met@.last()));
                }
                if stop {
                    return nodes;
                }
            },
        }
        left = left - 1;
    }
    nodes
}

/// Reads from an open file until there are `size` bytes or the file ends.
fn read_pieces<'a, B: BlockSource>(file: &mut FatFile<'a, B>, size: u32) -> (r: Option<Vec<u8>>)
    requires
        old(file).well@,
        old(file).had@ == Seq::<u8>::empty(),
        sound_source(old(file).src@),
        read_holds(disk_of(old(file).src@).bytes, old(file).path@),
    ensures
        is_reading(
            disk_of(old(file).src@),
            old(file).path@,
            old(file).from@,
            size as nat,
            bytes_view(r),
        ),
{
    let ghost mut pieces: Seq<Seq<u8>> = Seq::empty();
    let ghost disk = disk_of(file.src@);
    let ghost path = file.path@;
    let ghost from = file.from@;
    let mut out: Vec<u8> = Vec::new();
    while (out.len() as u64) < size as u64
        invariant
            out.len() <= size,
            disk == disk_of(old(file).src@),
            path == old(file).path@,
            from == old(file).from@,
            file.src@ == old(file).src@,
            file.path@ == path,
            file.from@ == from,
            file.well@,
            sound_source(file.src@),
            read_holds(disk_of(file.src@).bytes, path),
            file.had@ == out@,
            out@ == gathered(pieces),
            came_in_pieces(disk, path, from, size as nat, pieces),
        decreases size - out.len(),
    {
        let left: u64 = size as u64 - out.len() as u64;
        let piece: Option<Vec<u8>> = fat_read(file, left as usize);
        let ghost had = out@;
        let p: Progress = take_piece(&mut out, size, &piece);
        proof {
            if let Some(v) = piece {
                if v.len() > 0 {
                    assert(pieces.push(v@).drop_last() =~= pieces);
                    pieces = pieces.push(v@);
                } else {
                    assert(v@ =~= Seq::<u8>::empty());
                    assert(out@ =~= had);
                }
            }
        }
        match p {
            Progress::Failed => {
                assert(ends_with(disk, path, from, size as nat, pieces, None));
                return None;
            },
            Progress::Done => {
                assert(ends_with(disk, path, from, size as nat, pieces, Some(out@)));
                return Some(out);
            },
            Progress::More => {},
        }
    }
    assert(ends_with(disk, path, from, size as nat, pieces, Some(out@)));
    Some(out)
}

/// A FAT volume with numbers for its files and directories.
#[verifier::reject_recursive_types(B)]
pub struct FatFs<B: BlockSource> {
    fs: FatVolume<B>,
    inodes: Inodes,
}

/// Whether `r` and `paths` are what the entries `c` of the directory `dir` come to.
pub open spec fn is_listed(
    c: Children,
    dir: Seq<char>,
    paths: Seq<Seq<char>>,
    r: Option<Vec<DirEntry>>,
) -> bool {
    &&& paths == c.paths
    &&& r is None <==> c.failed
    &&& r matches Some(v) ==> entry_views(v@) == c.entries + extra_entries(dir)
}

/// Whether `r` and `after` are what an answer of `fatfs` on the directory `dir` comes
/// to, where `paths` had numbers before.
pub open spec fn is_readdir(
    disk: Disk,
    paths: Seq<Seq<char>>,
    dir: Seq<char>,
    after: Seq<Seq<char>>,
    r: Option<Vec<DirEntry>>,
) -> bool {
    exists|answer: Option<Seq<Option<NodeView>>>|
        #[trigger] lists_dir(disk, dir, None, answer) && match answer {
            None => r is None && after == paths,
            Some(nodes) => is_listed(children(paths, dir, nodes), dir, after, r),
        }
}

/// Whether `r` is what an answer of `fatfs` on the directory of `path` says of the
/// node at `path`, under the number `ino`.
pub open spec fn is_stat(
    disk: Disk,
    path: Seq<char>,
    ino: u64,
    r: Option<Attr>,
) -> bool {
    if path.len() == 0 {
        r == Some(root_attr(ino))
    } else {
        exists|answer: Option<Seq<Option<NodeView>>>|
            #[trigger] lists_dir(disk, parent_of(path), Some(name_of(path)), answer) && r == (
            match answer {
                None => None,
                Some(nodes) => attr_in(nodes, name_of(path), ino),
            })
    }
}

/// Whether `r` is what `fatfs` gives of `size` bytes of the file at `path`, from
/// `offset` on.
pub open spec fn is_read(
    disk: Disk,
    path: Seq<char>,
    offset: u64,
    size: u32,
    r: Option<Seq<u8>>,
) -> bool {
    ||| opens_file(disk, path, false) && r is None
    ||| opens_file(disk, path, true) && seeks(disk, path, offset, false) && r is None
    ||| opens_file(disk, path, true) && seeks(disk, path, offset, true) && is_reading(
        disk,
        path,
        offset,
        size as nat,
        r,
    )
}

/// Whether opening the volume on a disk may fail so: as its bytes say, or as the disk
/// does, where it does not keep them.
pub open spec fn fails_so<B: BlockSource>(src: B, kind: IoErrorKind, message: Seq<char>) -> bool {
    ||| open_failure(disk_of(src).bytes) == Some((kind, message))
    ||| !disk_of(src).kept && may_fail(src, kind, message)
}

/// Whether the volume on a disk opens: the disk keeps its bytes, and they say that there
/// is one, with 12 or 16 bits to an entry.
pub open spec fn opens_surely(disk: Disk) -> bool {
    disk.kept && is_volume(disk.bytes) && !boot_of(disk.bytes).is_fat32()
}

/// The size of a volume, from what `fatfs` says of its clusters.
pub open spec fn volume_stats(answer: Option<(u32, u32, u32)>) -> Option<VolStats> {
    match answer {
        None => None,
        Some((total, free, size)) => Some(
            VolStats { total_blocks: total as u64, free_blocks: free as u64, block_size: size },
        ),
    }
}

/// Whether the directory of the node at `path` can be listed; the root has none.
pub open spec fn stat_holds(b: Seq<u8>, path: Seq<char>) -> bool {
    path.len() > 0 ==> list_holds(b, parent_of(path))
}

/// The attributes of the root directory.
pub open spec fn root_attr(ino: u64) -> Attr {
    timeless_attr(ino, 0, FileKind::Dir)
}

impl<B: BlockSource> FatFs<B> {
    /// The disk, as it was when the volume was opened.
    pub closed spec fn device(&self) -> B {
        self.fs.src@
    }

    /// What is known of the disk.
    pub open spec fn disk(&self) -> Disk {
        disk_of(self.device())
    }

    /// The paths that have numbers.
    pub closed spec fn paths(&self) -> Seq<Seq<char>> {
        self.inodes@
    }

    /// Opens the FAT volume on a disk. Its size in bytes must fit in 64 bits, and the
    /// numbers of its boot sector in 32. Where the volume is refused, the error says why.
    pub fn open(src: B) -> (r: Result<FatFs<B>, IoError>)
        requires
            src.count() * src.size() <= u64::MAX,
            sound_source(src),
        ensures
            match r {
                Ok(fs) => {
                    &&& fs.inv()
                    &&& fs.device() == src
                    &&& fs.paths() == Seq::<Seq<char>>::empty()
                    &&& open_failure(disk_of(src).bytes) is None
                },
                Err(e) => fails_so(src, e.kind, e.message@) && !opens_surely(disk_of(src)),
            },
    {
        match fat_open(VolumeIo::new(src)) {
            Ok(fs) => Ok(FatFs { fs, inodes: Inodes::new() }),
            Err(s) => Err(IoError { kind: error_kind(&s), message: error_text(&s) }),
        }
    }

    /// The entries of the directory at `path`, up to the one named `until`; the root
    /// has the empty path.
    fn entries(&self, path: &str, until: Option<&str>) -> (r: Option<Vec<Option<Node>>>)
        requires
            self.inv(),
            list_holds(self.disk().bytes, path@),
        ensures
            lists_dir(self.disk(), path@, until_view(until), entries_view(r)),
    {
        let root: FatDir<B> = fat_root_dir(&self.fs);
        if path.is_empty() {
            assert(path@ =~= Seq::<char>::empty());
            return Some(read_entries(&root, until));
        }
        match fat_open_dir(&root, path) {
            Some(dir) => Some(read_entries(&dir, until)),
            None => None,
        }
    }

    /// The attributes of the node at `path`, under the number `ino`.
    fn stat(&self, ino: u64, path: &str) -> (r: Option<Attr>)
        requires
            self.inv(),
            stat_holds(self.disk().bytes, path@),
        ensures
            is_stat(self.disk(), path@, ino, r),
    {
        if path.is_empty() {
            return Some(timeless_attr(ino, 0, FileKind::Dir));
        }
        let (parent, name): (String, String) = split_parent(path);
        let nodes: Option<Vec<Option<Node>>> = self.entries(parent.as_str(), Some(name.as_str()));
        assert(lists_dir(
            self.disk(),
            parent_of(path@),
            Some(name_of(path@)),
            entries_view(nodes),
        ));
        match nodes {
            Some(v) => find_attr(&v, name.as_str(), ino),
            None => None,
        }
    }
}

impl<B: BlockSource> Filesystem for FatFs<B> {
    open spec fn inv(&self) -> bool {
        &&& paths_wf(self.paths())
        &&& sound_source(self.device())
        &&& is_volume(self.disk().bytes)
    }

    /// Whether the directory in which a node stands can be listed.
    open spec fn can_stat(&self, ino: u64) -> bool {
        ino != NEVER_INDEX_INO ==> (path_at(self.paths(), ino) matches Some(path) ==> stat_holds(
            self.disk().bytes,
            path,
        ))
    }

    /// The same, for a name in a directory.
    open spec fn can_find(&self, parent: u64, name: Seq<char>) -> bool {
        !(parent == ROOT_INO && name == NEVER_INDEX_NAME@) ==> (path_at(
            self.paths(),
            parent,
        ) matches Some(dir) ==> stat_holds(self.disk().bytes, joined(dir, name)))
    }

    /// Whether a directory can be listed.
    open spec fn can_list(&self, ino: u64) -> bool {
        path_at(self.paths(), ino) matches Some(path) ==> list_holds(self.disk().bytes, path)
    }

    /// Whether a file can be read.
    open spec fn can_read(&self, ino: u64) -> bool {
        ino != NEVER_INDEX_INO ==> (path_at(self.paths(), ino) matches Some(path) ==> read_holds(
            self.disk().bytes,
            path,
        ))
    }

    fn getattr(&mut self, ino: u64) -> (r: Option<Attr>)
        ensures
            final(self).paths() == old(self).paths(),
            final(self).device() == old(self).device(),
            ino == NEVER_INDEX_INO ==> r == Some(never_index_attr()),
            ino != NEVER_INDEX_INO ==> match path_at(old(self).paths(), ino) {
                None => r is None,
                Some(path) => is_stat(old(self).disk(), path, ino, r),
            },
    {
        if ino == NEVER_INDEX_INO {
            return Some(never_index_attr());
        }
        match self.inodes.path_of(ino) {
            Some(path) => self.stat(ino, path.as_str()),
            None => None,
        }
    }

    fn lookup(&mut self, parent: u64, name: &str) -> (r: Option<Attr>)
        ensures
            final(self).device() == old(self).device(),
            parent == ROOT_INO && name@ == NEVER_INDEX_NAME@ ==> r == Some(never_index_attr())
                && final(self).paths() == old(self).paths(),
            !(parent == ROOT_INO && name@ == NEVER_INDEX_NAME@) ==> match path_at(
                old(self).paths(),
                parent,
            ) {
                None => r is None && final(self).paths() == old(self).paths(),
                Some(dir) => {
                    let path = joined(dir, name@);
                    &&& final(self).paths() == with_path(old(self).paths(), path)
                    &&& match number_given(old(self).paths(), path) {
                        None => r is None,
                        Some(ino) => is_stat(old(self).disk(), path, ino, r),
                    }
                },
            },
    {
        if parent == ROOT_INO && same_text(name, NEVER_INDEX_NAME) {
            return Some(never_index_attr());
        }
        match self.inodes.path_of(parent) {
            None => None,
            Some(dir) => {
                let path: String = join(dir.as_str(), name);
                match self.inodes.intern(path.as_str()) {
                    Some(ino) => self.stat(ino, path.as_str()),
                    None => None,
                }
            },
        }
    }

    fn readdir(&mut self, ino: u64) -> (r: Option<Vec<DirEntry>>)
        ensures
            final(self).device() == old(self).device(),
            match path_at(old(self).paths(), ino) {
                None => r is None && final(self).paths() == old(self).paths(),
                Some(dir) => is_readdir(
                    old(self).disk(),
                    old(self).paths(),
                    dir,
                    final(self).paths(),
                    r,
                ),
            },
    {
        match self.inodes.path_of(ino) {
            None => None,
            Some(path) => {
                let entries: Option<Vec<Option<Node>>> = self.entries(path.as_str(), None);
                assert(lists_dir(self.disk(), path@, None, entries_view(entries)));
                match entries {
                    None => None,
                    Some(nodes) => list_children(&mut self.inodes, path.as_str(), &nodes),
                }
            },
        }
    }

    fn read(&mut self, ino: u64, offset: u64, size: u32) -> (r: Option<Vec<u8>>)
        ensures
            final(self).paths() == old(self).paths(),
            final(self).device() == old(self).device(),
            ino == NEVER_INDEX_INO ==> (r matches Some(v) && v.len() == 0),
            ino != NEVER_INDEX_INO ==> match path_at(old(self).paths(), ino) {
                None => r is None,
                Some(path) => is_read(old(self).disk(), path, offset, size, bytes_view(r)),
            },
    {
        if ino == NEVER_INDEX_INO {
            return Some(Vec::new());
        }
        let path: String = match self.inodes.path_of(ino) {
            Some(path) => path,
            None => {
                return None;
            },
        };
        let mut file: FatFile<B> = match fat_open_file(&fat_root_dir(&self.fs), path.as_str()) {
            Some(file) => file,
            None => {
                return None;
            },
        };
        if !fat_seek(&mut file, offset) {
            return None;
        }
        read_pieces(&mut file, size)
    }

    fn stats(&mut self) -> (r: Option<VolStats>)
        ensures
            final(self).paths() == old(self).paths(),
            final(self).device() == old(self).device(),
            exists|answer: Option<(u32, u32, u32)>|
                #[trigger] counts_clusters(old(self).disk(), answer) && r == volume_stats(answer),
    {
        let answer: Option<(u32, u32, u32)> = fat_stats(&self.fs);
        assert(counts_clusters(self.disk(), answer));
        match answer {
            Some((total, free, size)) => Some(cluster_stats(total, free, size)),
            None => None,
        }
    }
}

} // verus!
