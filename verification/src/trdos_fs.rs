//! The TR-DOS file system (ZX Spectrum).
//!
//! The directory stands in the first eight sectors, in entries of 16 bytes. A file
//! is a run of sectors.

pub mod laws;

use crate::block_source::asked;
use crate::block_source::events_between;
use crate::block_source::lemma_asked_nothing;
use crate::block_source::lemma_asked_push;
use crate::block_source::lemma_events_between;
use crate::block_source::reply_of;
use crate::block_source::BlockSource;
use crate::block_source::ReadEvent;
use crate::block_source::Reply;
use crate::bytes::append_range;
use crate::error::IoError;
use crate::error::IoErrorKind;
use crate::fs::entry_views;
use crate::fs::never_index_attr;
use crate::fs::timeless_attr;
use crate::fs::Attr;
use crate::fs::DirEntry;
use crate::fs::EntryView;
use crate::fs::FileKind;
use crate::fs::Filesystem;
use crate::fs::VolStats;
use crate::fs::NEVER_INDEX_INO;
use crate::fs::NEVER_INDEX_NAME;
use crate::fs::ROOT_INO;
use crate::greaseweazle_src::Geometry;
use crate::text::same_text;
use vstd::prelude::*;

verus! {

/// The number of the first file.
pub const FILE_INO_BASE: u64 = 3;

/// The bytes of a directory entry.
pub const ENTRY_SIZE: usize = 16;

/// The sectors of the directory.
pub const DIR_SECTORS: u64 = 8;

/// A file.
#[derive(Debug)]
struct Entry {
    name: String,
    start_lba: u16,
    sector_count: u8,
    len_bytes: u32,
}

/// What a directory entry says.
pub struct TrFile {
    pub name: Seq<char>,
    /// The first sector of the file.
    pub start_lba: u16,
    pub sector_count: u8,
    pub len_bytes: u32,
}

impl View for Entry {
    type V = TrFile;

    closed spec fn view(&self) -> TrFile {
        TrFile {
            name: self.name@,
            start_lba: self.start_lba,
            sector_count: self.sector_count,
            len_bytes: self.len_bytes,
        }
    }
}

spec fn file_views(v: Seq<Entry>) -> Seq<TrFile> {
    Seq::new(v.len(), |i: int| v[i]@)
}

/// A character of a name; what cannot be shown becomes an underscore.
pub open spec fn name_char(b: u8) -> char {
    if 0x20 <= b < 0x7F {
        b as char
    } else {
        '_'
    }
}

/// A name without the spaces at its end.
pub open spec fn trimmed(s: Seq<char>) -> Seq<char>
    decreases s.len(),
{
    if s.len() > 0 && s.last() == ' ' {
        trimmed(s.drop_last())
    } else {
        s
    }
}

/// The name in a directory entry: up to eight characters, and the type behind a
/// dot, if it can be shown.
pub open spec fn file_name(e: Seq<u8>) -> Seq<char> {
    trimmed(Seq::new(8, |i: int| name_char(e[i]))) + if 0x21 <= e[8] < 0x7F {
        seq!['.', e[8] as char]
    } else {
        seq![]
    }
}

/// The file that a directory entry describes, with `spt` sectors on a track.
pub open spec fn file_of(e: Seq<u8>, spt: u8) -> TrFile {
    TrFile {
        name: file_name(e),
        start_lba: (e[15] * spt + e[14]) as u16,
        sector_count: e[13],
        len_bytes: (e[11] + 0x100 * e[12]) as u32,
    }
}

/// Entry `i` of a directory sector.
pub open spec fn entry_at(block: Seq<u8>, i: int) -> Seq<u8> {
    block.subrange(ENTRY_SIZE * i, ENTRY_SIZE * i + ENTRY_SIZE)
}

/// What a part of the directory holds.
#[verifier::ext_equal]
pub struct Listing {
    pub files: Seq<TrFile>,
    /// Whether the directory ends here.
    pub ended: bool,
}

/// The files in the first `n` entries of a directory sector. A zero byte ends the
/// directory; a one marks a file that was removed.
pub open spec fn list_entries(block: Seq<u8>, n: int, spt: u8) -> Listing
    decreases n,
{
    if n <= 0 {
        Listing { files: Seq::empty(), ended: false }
    } else {
        let before = list_entries(block, n - 1, spt);
        let e = entry_at(block, n - 1);
        if before.ended {
            before
        } else if e[0] == 0 {
            Listing { ended: true, ..before }
        } else if e[0] == 1 {
            before
        } else {
            Listing { files: before.files.push(file_of(e, spt)), ended: false }
        }
    }
}

/// The files in a directory sector. Bytes behind the last whole entry do not count.
pub open spec fn list_block(block: Seq<u8>, spt: u8) -> Listing {
    list_entries(block, block.len() as int / ENTRY_SIZE as int, spt)
}

/// The outcome of reading the directory from sector `k` on, where the requests go as
/// `events` says: the sectors are asked for in order, up to the one that ends the
/// directory. `None` where those are not the requests that are made.
pub open spec fn list_dir(k: int, events: Seq<ReadEvent>, spt: u8) -> Option<
    Result<Seq<TrFile>, (IoErrorKind, Seq<char>)>,
>
    decreases events.len(),
{
    if k >= DIR_SECTORS {
        if events.len() == 0 {
            Some(Ok(Seq::empty()))
        } else {
            None
        }
    } else if events.len() == 0 || events[0].lba != k {
        None
    } else {
        match events[0].reply {
            Reply::Failed(kind, message) => if events.len() == 1 {
                Some(Err((kind, message)))
            } else {
                None
            },
            Reply::Block(block) => {
                let here = list_block(block, spt);
                if here.ended {
                    if events.len() == 1 {
                        Some(Ok(here.files))
                    } else {
                        None
                    }
                } else {
                    then_list(here.files, list_dir(k + 1, events.drop_first(), spt))
                }
            },
        }
    }
}

/// Files that were listed before, and what comes behind them.
pub open spec fn then_list(
    files: Seq<TrFile>,
    rest: Option<Result<Seq<TrFile>, (IoErrorKind, Seq<char>)>>,
) -> Option<Result<Seq<TrFile>, (IoErrorKind, Seq<char>)>> {
    match rest {
        Some(Ok(more)) => Some(Ok(files + more)),
        other => other,
    }
}

/// What a read of `want` bytes comes to, from byte `skip` of sector `k` of a file on,
/// where the requests go as `events` says: sector after sector is asked for until
/// enough bytes are there or the file has no more sectors. A failed request, or a
/// sector that does not reach the first byte, fails the read, which is `Some(None)`;
/// `None` where those are not the requests that are made.
pub open spec fn read_sectors(
    file: TrFile,
    k: int,
    skip: int,
    want: int,
    events: Seq<ReadEvent>,
) -> Option<Option<Seq<u8>>>
    decreases events.len(),
{
    if want <= 0 || k >= file.sector_count {
        if events.len() == 0 {
            Some(Some(Seq::empty()))
        } else {
            None
        }
    } else if events.len() == 0 || events[0].lba != file.start_lba + k {
        None
    } else {
        match events[0].reply {
            Reply::Block(block) if skip <= block.len() => {
                let n = if want < block.len() - skip {
                    want
                } else {
                    block.len() - skip
                };
                then_read(
                    block.subrange(skip, skip + n),
                    read_sectors(file, k + 1, 0, want - n, events.drop_first()),
                )
            },
            _ => if events.len() == 1 {
                Some(None)
            } else {
                None
            },
        }
    }
}

/// Bytes that were read before, and what comes behind them.
pub open spec fn then_read(bytes: Seq<u8>, rest: Option<Option<Seq<u8>>>) -> Option<
    Option<Seq<u8>>,
> {
    match rest {
        Some(Some(more)) => Some(Some(bytes + more)),
        other => other,
    }
}

/// The outcome of a read from a file: nothing behind its end, else its sectors from
/// the one that holds `offset` on. Where sectors have no bytes the read fails.
pub open spec fn read_file(
    file: TrFile,
    bps: u16,
    offset: int,
    size: int,
    events: Seq<ReadEvent>,
) -> Option<Option<Seq<u8>>> {
    if offset >= file.len_bytes {
        if events.len() == 0 {
            Some(Some(Seq::empty()))
        } else {
            None
        }
    } else if bps == 0 {
        if events.len() == 0 {
            Some(None)
        } else {
            None
        }
    } else {
        let want = if size < file.len_bytes - offset {
            size
        } else {
            file.len_bytes - offset
        };
        read_sectors(
            file,
            offset / bps as int,
            offset % bps as int,
            want,
            events,
        )
    }
}

/// A TR-DOS disk.
pub struct TrDosFs<B: BlockSource> {
    src: B,
    geom: Geometry,
    entries: Vec<Entry>,
}

fn show(b: u8) -> (c: char)
    ensures
        c == name_char(b),
{
    if 0x20 <= b && b < 0x7F {
        b as char
    } else {
        '_'
    }
}

/// The name in the entry that starts at `at`.
fn read_name(block: &[u8], at: usize) -> (name: String)
    requires
        at + ENTRY_SIZE <= block.len(),
    ensures
        name@ == file_name(block@.subrange(at as int, at + ENTRY_SIZE)),
{
    let ghost e = block@.subrange(at as int, at + ENTRY_SIZE);
    let ghost full = Seq::new(8, |i: int| name_char(e[i]));
    let mut n: usize = 8;
    assert(full.take(8) =~= full);
    while n > 0 && show(block[at + n - 1]) == ' '
        invariant
            n <= 8,
            at + ENTRY_SIZE <= block.len(),
            e == block@.subrange(at as int, at + ENTRY_SIZE),
            full == Seq::new(8, |i: int| name_char(e[i])),
            trimmed(full.take(n as int)) == trimmed(full),
        decreases n,
    {
        proof {
            assert(full.take(n as int).last() == name_char(e[n - 1]));
            assert(full.take(n as int).drop_last() =~= full.take(n - 1));
        }
        n = n - 1;
    }
    proof {
        if n > 0 {
            assert(full.take(n as int).last() == name_char(e[n - 1]));
        }
        assert(trimmed(full) == full.take(n as int));
    }
    let mut name: String = String::new();
    let mut i: usize = 0;
    assert(name@ =~= full.take(0));
    while i < n
        invariant
            i <= n <= 8,
            at + ENTRY_SIZE <= block.len(),
            e == block@.subrange(at as int, at + ENTRY_SIZE),
            full == Seq::new(8, |i: int| name_char(e[i])),
            name@ == full.take(i as int),
        decreases n - i,
    {
        name.push(show(block[at + i]));
        i = i + 1;
        assert(name@ =~= full.take(i as int));
    }
    let kind: u8 = block[at + 8];
    if 0x21 <= kind && kind < 0x7F {
        name.push('.');
        name.push(kind as char);
    }
    assert(name@ =~= file_name(e));
    name
}

/// Adds the files of a directory sector to `entries`, and says whether the directory
/// ends there.
fn read_entries(block: &[u8], spt: u8, entries: &mut Vec<Entry>) -> (ended: bool)
    ensures
        file_views(final(entries)@) == file_views(old(entries)@) + list_block(block@, spt).files,
        ended == list_block(block@, spt).ended,
        final(entries).len() <= old(entries).len() + block.len() / ENTRY_SIZE,
{
    let n: usize = block.len() / ENTRY_SIZE;
    let mut i: usize = 0;
    let ghost had = file_views(entries@);
    assert(had + Seq::<TrFile>::empty() =~= had);
    while i < n
        invariant
            i <= n,
            n == block.len() / ENTRY_SIZE,
            file_views(entries@) == had + list_entries(block@, i as int, spt).files,
            !list_entries(block@, i as int, spt).ended,
            had == file_views(old(entries)@),
            entries.len() <= old(entries).len() + i,
        decreases n - i,
    {
        let at: usize = ENTRY_SIZE * i;
        let ghost e = entry_at(block@, i as int);
        let first: u8 = block[at];
        assert(first == e[0]);
        if first == 0 {
            proof {
                lemma_ended_stays(block@, i + 1, n as int, spt);
            }
            return true;
        }
        if first != 1 {
            let name: String = read_name(block, at);
            let len_bytes: u32 = block[at + 11] as u32 + 0x100 * block[at + 12] as u32;
            let start_sector: u16 = block[at + 14] as u16;
            let start_track: u16 = block[at + 15] as u16;
            assert(start_track * spt <= 0xFF * 0xFF) by (nonlinear_arith)
                requires
                    start_track <= 0xFF,
                    spt <= 0xFF,
            ;
            let start_lba: u16 = start_track * spt as u16 + start_sector;
            let ghost before = file_views(entries@);
            entries.push(Entry { name, start_lba, sector_count: block[at + 13], len_bytes });
            proof {
                assert(entries@.last()@ == file_of(e, spt));
                assert(file_views(entries@) =~= before.push(file_of(e, spt)));
                assert(file_views(entries@) =~= had + list_entries(block@, i + 1, spt).files);
            }
        }
        i = i + 1;
    }
    false
}

/// Once the directory has ended, no further entry counts.
proof fn lemma_ended_stays(block: Seq<u8>, a: int, b: int, spt: u8)
    requires
        0 <= a <= b,
        list_entries(block, a, spt).ended,
    ensures
        list_entries(block, b, spt) == list_entries(block, a, spt),
    decreases b - a,
{
    if a < b {
        lemma_ended_stays(block, a, b - 1, spt);
    }
}

/// The attributes of node `ino` of a disk with these files.
pub open spec fn trdos_attr(files: Seq<TrFile>, ino: u64) -> Option<Attr> {
    if ino == ROOT_INO {
        Some(timeless_attr(ROOT_INO, 0, FileKind::Dir))
    } else if ino == NEVER_INDEX_INO {
        Some(never_index_attr())
    } else if FILE_INO_BASE <= ino && ino - FILE_INO_BASE < files.len() {
        Some(timeless_attr(ino, files[ino - FILE_INO_BASE].len_bytes as u64, FileKind::File))
    } else {
        None
    }
}

/// The number of the first file with a name, -1 where there is none.
pub open spec fn find_file(files: Seq<TrFile>, name: Seq<char>) -> int
    decreases files.len(),
{
    if files.len() == 0 {
        -1
    } else {
        let before = find_file(files.drop_last(), name);
        if before >= 0 {
            before
        } else if files.last().name == name {
            files.len() - 1
        } else {
            -1
        }
    }
}

/// What the directory `parent` has under `name`.
pub open spec fn trdos_lookup(files: Seq<TrFile>, parent: u64, name: Seq<char>) -> Option<Attr> {
    if parent != ROOT_INO {
        None
    } else if name == NEVER_INDEX_NAME@ {
        Some(never_index_attr())
    } else if find_file(files, name) >= 0 {
        trdos_attr(files, (FILE_INO_BASE + find_file(files, name)) as u64)
    } else {
        None
    }
}

/// The entries of the root directory: the files in the order of the disk, and the
/// file that stands on no disk.
pub open spec fn trdos_entries(files: Seq<TrFile>) -> Seq<EntryView> {
    Seq::new(
        files.len(),
        |i: int|
            EntryView {
                ino: (FILE_INO_BASE + i) as u64,
                name: files[i].name,
                kind: FileKind::File,
            },
    ).push(EntryView { ino: NEVER_INDEX_INO, name: NEVER_INDEX_NAME@, kind: FileKind::File })
}

/// The size of a disk: all its sectors, none of them free.
pub open spec fn trdos_stats(g: Geometry) -> VolStats {
    VolStats {
        total_blocks: g.total_sectors,
        free_blocks: 0,
        block_size: g.bytes_per_sector as u32,
    }
}

/// The entries of node `ino`, where it is a directory.
pub open spec fn trdos_listing(files: Seq<TrFile>, ino: u64) -> Option<Seq<EntryView>> {
    if ino == ROOT_INO {
        Some(trdos_entries(files))
    } else {
        None
    }
}

/// What a read from node `ino` comes to.
pub open spec fn trdos_read(
    files: Seq<TrFile>,
    bps: u16,
    ino: u64,
    offset: int,
    size: int,
    events: Seq<ReadEvent>,
) -> Option<Option<Seq<u8>>> {
    if ino == NEVER_INDEX_INO {
        if events.len() == 0 {
            Some(Some(Seq::empty()))
        } else {
            None
        }
    } else if FILE_INO_BASE <= ino && ino - FILE_INO_BASE < files.len() {
        read_file(files[ino - FILE_INO_BASE], bps, offset, size, events)
    } else if events.len() == 0 {
        Some(None)
    } else {
        None
    }
}

impl<B: BlockSource> TrDosFs<B> {
    pub closed spec fn device(&self) -> B {
        self.src
    }

    pub closed spec fn geometry(&self) -> Geometry {
        self.geom
    }

    /// The files on the disk.
    pub closed spec fn files(&self) -> Seq<TrFile> {
        file_views(self.entries@)
    }

    /// Whether `self` is the same disk as `other`, apart from what was asked of it.
    pub open spec fn same_disk(&self, other: &TrDosFs<B>) -> bool {
        self.geometry() == other.geometry() && self.files() == other.files()
    }

    /// Reads the directory.
    pub fn open(src: B, geom: Geometry) -> (r: Result<TrDosFs<B>, IoError>)
        ensures
            r matches Ok(fs) ==> {
                let events = events_between(src, fs.device());
                &&& fs.inv()
                &&& fs.geometry() == geom
                &&& asked(src, fs.device(), events)
                &&& list_dir(0, events, geom.sectors_per_track) == Some(
                    Ok::<Seq<TrFile>, (IoErrorKind, Seq<char>)>(fs.files()),
                )
            },
            r matches Err(e) ==> exists|events: Seq<ReadEvent>|
                (#[trigger] list_dir(0, events, geom.sectors_per_track)) == Some(
                    Err::<Seq<TrFile>, (IoErrorKind, Seq<char>)>((e.kind, e.message@)),
                ) && forall|i: int|
                    0 <= i < events.len() ==> src.may_answer(
                        (#[trigger] events[i]).lba,
                        events[i].reply,
                    ),
    {
        let mut disk: B = src;
        let spt: u8 = geom.sectors_per_track;
        let mut entries: Vec<Entry> = Vec::new();
        let mut k: u64 = 0;
        let mut ended: bool = false;
        let ghost mut events = Seq::<ReadEvent>::empty();
        proof {
            lemma_asked_nothing(disk);
            assert forall|more: Seq<ReadEvent>|
                (#[trigger] list_dir(0, events + more, spt)) == then_list(
                    file_views(entries@),
                    list_dir(0, more, spt),
                ) by {
                assert(events + more =~= more);
                lemma_then_list_nothing(file_views(entries@), list_dir(0, more, spt));
            }
        }
        while k < DIR_SECTORS && !ended
            invariant
                k <= DIR_SECTORS,
                spt == geom.sectors_per_track,
                asked(src, disk, events),
                entries.len() <= k * (usize::MAX / ENTRY_SIZE),
                !ended ==> forall|more: Seq<ReadEvent>|
                    (#[trigger] list_dir(0, events + more, spt)) == then_list(
                        file_views(entries@),
                        list_dir(k as int, more, spt),
                    ),
                ended ==> list_dir(0, events, spt) == Some(
                    Ok::<Seq<TrFile>, (IoErrorKind, Seq<char>)>(file_views(entries@)),
                ),
            decreases DIR_SECTORS - k,
        {
            let ghost mid = disk;
            let ghost had = file_views(entries@);
            let reply: Result<Vec<u8>, IoError> = disk.read_block(k);
            let ghost e = ReadEvent { lba: k, reply: reply_of(reply) };
            proof {
                lemma_asked_push(src, mid, disk, events, e);
                assert(list_dir(0, events + seq![e], spt) == then_list(
                    had,
                    list_dir(k as int, seq![e], spt),
                ));
                assert(events + seq![e] =~= events.push(e));
            }
            match reply {
                Err(err) => {
                    proof {
                        assert(list_dir(0, events.push(e), spt) == Some(
                            Err::<Seq<TrFile>, (IoErrorKind, Seq<char>)>((err.kind, err.message@)),
                        ));
                    }
                    return Err(err);
                },
                Ok(block) => {
                    ended = read_entries(block.as_slice(), spt, &mut entries);
                    proof {
                        let here = list_block(block@, spt);
                        assert(block.len() / ENTRY_SIZE <= usize::MAX / ENTRY_SIZE);
                        assert((k + 1) * (usize::MAX / ENTRY_SIZE) == k * (usize::MAX / ENTRY_SIZE)
                            + usize::MAX / ENTRY_SIZE) by (nonlinear_arith);
                        if !ended {
                            assert forall|more: Seq<ReadEvent>|
                                (#[trigger] list_dir(0, events.push(e) + more, spt)) == then_list(
                                    file_views(entries@),
                                    list_dir(k + 1, more, spt),
                                ) by {
                                let m = seq![e] + more;
                                assert(events + m =~= events.push(e) + more);
                                assert(m[0] == e);
                                assert(m.drop_first() =~= more);
                                assert(list_dir(k as int, m, spt) == then_list(
                                    here.files,
                                    list_dir(k + 1, more, spt),
                                ));
                                lemma_then_list_twice(
                                    had,
                                    here.files,
                                    list_dir(k + 1, more, spt),
                                );
                            }
                        }
                        events = events.push(e);
                    }
                },
            }
            k = k + 1;
        }
        proof {
            if !ended {
                assert(events + Seq::<ReadEvent>::empty() =~= events);
                assert(list_dir(0, events + Seq::<ReadEvent>::empty(), spt) == then_list(
                    file_views(entries@),
                    list_dir(k as int, Seq::empty(), spt),
                ));
                assert(file_views(entries@) + Seq::<TrFile>::empty() =~= file_views(entries@));
            }
            lemma_events_between(src, disk, events);
            assert(k * (usize::MAX / ENTRY_SIZE) <= 8 * (usize::MAX / ENTRY_SIZE))
                by (nonlinear_arith)
                requires
                    k <= 8,
            ;
        }
        Ok(TrDosFs { src: disk, geom, entries })
    }

    fn entry_for(&self, ino: u64) -> (r: Option<usize>)
        ensures
            match r {
                Some(i) => i < self.entries.len() && ino == FILE_INO_BASE + i,
                None => !(FILE_INO_BASE <= ino && ino - FILE_INO_BASE < self.entries.len()),
            },
    {
        if ino < FILE_INO_BASE {
            return None;
        }
        if ino - FILE_INO_BASE < self.entries.len() as u64 {
            Some((ino - FILE_INO_BASE) as usize)
        } else {
            None
        }
    }
}

impl<B: BlockSource> Filesystem for TrDosFs<B> {
    open spec fn inv(&self) -> bool {
        FILE_INO_BASE + self.files().len() <= u64::MAX
    }

    open spec fn can_stat(&self, ino: u64) -> bool {
        true
    }

    open spec fn can_find(&self, parent: u64, name: Seq<char>) -> bool {
        true
    }

    open spec fn can_list(&self, ino: u64) -> bool {
        true
    }

    open spec fn can_read(&self, ino: u64) -> bool {
        true
    }

    fn getattr(&mut self, ino: u64) -> (r: Option<Attr>)
        ensures
            *final(self) == *old(self),
            r == trdos_attr(old(self).files(), ino),
    {
        if ino == ROOT_INO {
            return Some(timeless_attr(ROOT_INO, 0, FileKind::Dir));
        }
        if ino == NEVER_INDEX_INO {
            return Some(never_index_attr());
        }
        match self.entry_for(ino) {
            Some(i) => Some(
                timeless_attr(ino, self.entries[i].len_bytes as u64, FileKind::File),
            ),
            None => None,
        }
    }

    fn lookup(&mut self, parent: u64, name: &str) -> (r: Option<Attr>)
        ensures
            *final(self) == *old(self),
            r == trdos_lookup(old(self).files(), parent, name@),
    {
        if parent != ROOT_INO {
            return None;
        }
        if same_text(name, NEVER_INDEX_NAME) {
            return Some(never_index_attr());
        }
        let ghost all = self.files();
        let mut i: usize = 0;
        assert(all.take(0) =~= Seq::<TrFile>::empty());
        while i < self.entries.len()
            invariant
                i <= self.entries.len(),
                *self == *old(self),
                self.inv(),
                parent == ROOT_INO,
                name@ != NEVER_INDEX_NAME@,
                all == self.files(),
                find_file(all.take(i as int), name@) == -1,
            decreases self.entries.len() - i,
        {
            proof {
                assert(all.take(i + 1).drop_last() =~= all.take(i as int));
                assert(all.take(i + 1).last() == all[i as int]);
            }
            if same_text(self.entries[i].name.as_str(), name) {
                proof {
                    lemma_found_stays(all, i + 1, name@);
                }
                return Some(
                    timeless_attr(
                        FILE_INO_BASE + i as u64,
                        self.entries[i].len_bytes as u64,
                        FileKind::File,
                    ),
                );
            }
            i = i + 1;
        }
        assert(all.take(i as int) =~= all);
        None
    }

    fn readdir(&mut self, ino: u64) -> (r: Option<Vec<DirEntry>>)
        ensures
            *final(self) == *old(self),
            r is Some <==> ino == ROOT_INO,
            r matches Some(v) ==> entry_views(v@) == trdos_entries(old(self).files()),
            (match r {
                Some(v) => Some(entry_views(v@)),
                None => None,
            }) == trdos_listing(old(self).files(), ino),
    {
        if ino != ROOT_INO {
            return None;
        }
        let mut out: Vec<DirEntry> = Vec::new();
        let mut i: usize = 0;
        let ghost all = trdos_entries(self.files());
        assert(entry_views(out@) =~= all.take(0));
        while i < self.entries.len()
            invariant
                i <= self.entries.len(),
                *self == *old(self),
                self.inv(),
                all == trdos_entries(self.files()),
                entry_views(out@) == all.take(i as int),
            decreases self.entries.len() - i,
        {
            let ghost had = entry_views(out@);
            out.push(
                DirEntry {
                    ino: FILE_INO_BASE + i as u64,
                    name: self.entries[i].name.clone(),
                    kind: FileKind::File,
                },
            );
            proof {
                assert(entry_views(out@) =~= had.push(out@.last()@));
                assert(entry_views(out@) =~= all.take(i + 1));
            }
            i = i + 1;
        }
        let ghost had = entry_views(out@);
        out.push(
            DirEntry {
                ino: NEVER_INDEX_INO,
                name: NEVER_INDEX_NAME.to_owned(),
                kind: FileKind::File,
            },
        );
        proof {
            assert(entry_views(out@) =~= had.push(out@.last()@));
            assert(entry_views(out@) =~= all);
        }
        Some(out)
    }

    fn read(&mut self, ino: u64, offset: u64, size: u32) -> (r: Option<Vec<u8>>)
        ensures
            final(self).same_disk(old(self)),
            ({
                let events = events_between(old(self).device(), final(self).device());
                &&& asked(old(self).device(), final(self).device(), events)
                &&& trdos_read(
                    old(self).files(),
                    old(self).geometry().bytes_per_sector,
                    ino,
                    offset as int,
                    size as int,
                    events,
                ) == Some(
                    match r {
                        Some(v) => Some(v@),
                        None => None,
                    },
                )
            }),
    {
        proof {
            lemma_asked_nothing(self.src);
            lemma_events_between(self.src, self.src, Seq::empty());
        }
        if ino == NEVER_INDEX_INO {
            let none: Vec<u8> = Vec::new();
            assert(none@ =~= Seq::<u8>::empty());
            return Some(none);
        }
        let at: usize = match self.entry_for(ino) {
            Some(i) => i,
            None => {
                return None;
            },
        };
        let ghost file = self.entries@[at as int]@;
        let file_size: u64 = self.entries[at].len_bytes as u64;
        if offset >= file_size {
            let none: Vec<u8> = Vec::new();
            assert(none@ =~= Seq::<u8>::empty());
            return Some(none);
        }
        let to_read: u64 = if (size as u64) < file_size - offset {
            size as u64
        } else {
            file_size - offset
        };
        let bps: u64 = self.geom.bytes_per_sector as u64;
        if bps == 0 {
            return None;
        }
        let first: u64 = offset / bps;
        let start_lba: u64 = self.entries[at].start_lba as u64;
        let sector_count: u8 = self.entries[at].sector_count;
        let mut skip: usize = (offset % bps) as usize;
        let mut k: u64 = first;
        let mut out: Vec<u8> = Vec::new();
        let ghost start = *self;
        let ghost mut events = Seq::<ReadEvent>::empty();
        proof {
            assert forall|more: Seq<ReadEvent>|
                (#[trigger] read_sectors(
                    file,
                    first as int,
                    (offset % bps) as int,
                    to_read as int,
                    events + more,
                )) == then_read(
                    out@,
                    read_sectors(file, k as int, skip as int, to_read as int, more),
                ) by {
                assert(events + more =~= more);
                lemma_then_read_nothing(
                    out@,
                    read_sectors(file, k as int, skip as int, to_read as int, more),
                );
            }
        }
        while (out.len() as u64) < to_read && k < sector_count as u64
            invariant
                start == *old(self),
                start.inv(),
                self.geom == start.geom,
                self.entries == start.entries,
                asked(start.src, self.src, events),
                file == self.entries@[at as int]@,
                at < self.entries.len(),
                ino == FILE_INO_BASE + at,
                offset < file.len_bytes,
                to_read == (if size < file.len_bytes - offset {
                    size as int
                } else {
                    file.len_bytes - offset
                }),
                bps == self.geom.bytes_per_sector,
                bps > 0,
                first == offset / bps,
                start_lba == file.start_lba,
                sector_count == file.sector_count,
                out.len() <= to_read,
                forall|more: Seq<ReadEvent>|
                    (#[trigger] read_sectors(
                        file,
                        first as int,
                        (offset % bps) as int,
                        to_read as int,
                        events + more,
                    )) == then_read(
                        out@,
                        read_sectors(file, k as int, skip as int, to_read - out.len(), more),
                    ),
            decreases sector_count - k,
        {
            let lba: u64 = start_lba + k;
            let ghost mid = *self;
            let ghost had = out@;
            let reply: Result<Vec<u8>, IoError> = self.src.read_block(lba);
            let ghost e = ReadEvent { lba, reply: reply_of(reply) };
            proof {
                lemma_asked_push(start.src, mid.src, self.src, events, e);
                assert(read_sectors(
                    file,
                    first as int,
                    (offset % bps) as int,
                    to_read as int,
                    events + seq![e],
                ) == then_read(
                    had,
                    read_sectors(file, k as int, skip as int, to_read - had.len(), seq![e]),
                ));
                assert(events + seq![e] =~= events.push(e));
                lemma_events_between(start.src, self.src, events.push(e));
            }
            let block: Vec<u8> = match reply {
                Ok(block) => block,
                Err(_) => {
                    return None;
                },
            };
            if block.len() < skip {
                return None;
            }
            let left: u64 = to_read - out.len() as u64;
            let n: usize = if left < (block.len() - skip) as u64 {
                left as usize
            } else {
                block.len() - skip
            };
            append_range(&mut out, block.as_slice(), skip, skip + n);
            proof {
                let part = block@.subrange(skip as int, skip + n);
                assert forall|more: Seq<ReadEvent>|
                    (#[trigger] read_sectors(
                        file,
                        first as int,
                        (offset % bps) as int,
                        to_read as int,
                        events.push(e) + more,
                    )) == then_read(
                        out@,
                        read_sectors(file, k + 1, 0, to_read - out.len(), more),
                    ) by {
                    let m = seq![e] + more;
                    assert(events + m =~= events.push(e) + more);
                    assert(m[0] == e);
                    assert(m.drop_first() =~= more);
                    assert(read_sectors(file, k as int, skip as int, to_read - had.len(), m)
                        == then_read(part, read_sectors(file, k + 1, 0, to_read - out.len(), more)));
                    lemma_then_read_twice(
                        had,
                        part,
                        read_sectors(file, k + 1, 0, to_read - out.len(), more),
                    );
                }
                events = events.push(e);
            }
            skip = 0;
            k = k + 1;
        }
        proof {
            assert(events + Seq::<ReadEvent>::empty() =~= events);
            assert(read_sectors(
                file,
                first as int,
                (offset % bps) as int,
                to_read as int,
                events + Seq::<ReadEvent>::empty(),
            ) == then_read(
                out@,
                read_sectors(file, k as int, skip as int, to_read - out.len(), Seq::empty()),
            ));
            assert(out@ + Seq::<u8>::empty() =~= out@);
            lemma_events_between(start.src, self.src, events);
        }
        Some(out)
    }

    fn stats(&mut self) -> (r: Option<VolStats>)
        ensures
            *final(self) == *old(self),
            r == Some(
                VolStats {
                    total_blocks: old(self).geometry().total_sectors,
                    free_blocks: 0,
                    block_size: old(self).geometry().bytes_per_sector as u32,
                },
            ),
            r == Some(trdos_stats(old(self).geometry())),
    {
        Some(
            VolStats {
                total_blocks: self.geom.total_sectors,
                free_blocks: 0,
                block_size: self.geom.bytes_per_sector as u32,
            },
        )
    }
}

/// The first file with a name stays the first.
proof fn lemma_found_stays(files: Seq<TrFile>, n: int, name: Seq<char>)
    requires
        0 <= n <= files.len(),
        find_file(files.take(n), name) >= 0,
    ensures
        find_file(files, name) == find_file(files.take(n), name),
    decreases files.len() - n,
{
    if n == files.len() {
        assert(files.take(n) =~= files);
    } else {
        assert(files.take(n + 1).drop_last() =~= files.take(n));
        lemma_found_stays(files, n + 1, name);
    }
}

proof fn lemma_then_list_nothing(
    files: Seq<TrFile>,
    rest: Option<Result<Seq<TrFile>, (IoErrorKind, Seq<char>)>>,
)
    requires
        files.len() == 0,
    ensures
        then_list(files, rest) == rest,
{
    if let Some(Ok(more)) = rest {
        assert(files + more =~= more);
    }
}

proof fn lemma_then_list_twice(
    a: Seq<TrFile>,
    b: Seq<TrFile>,
    rest: Option<Result<Seq<TrFile>, (IoErrorKind, Seq<char>)>>,
)
    ensures
        then_list(a, then_list(b, rest)) == then_list(a + b, rest),
{
    if let Some(Ok(more)) = rest {
        assert(a + (b + more) =~= a + b + more);
    }
}

proof fn lemma_then_read_nothing(bytes: Seq<u8>, rest: Option<Option<Seq<u8>>>)
    requires
        bytes.len() == 0,
    ensures
        then_read(bytes, rest) == rest,
{
    if let Some(Some(more)) = rest {
        assert(bytes + more =~= more);
    }
}

proof fn lemma_then_read_twice(a: Seq<u8>, b: Seq<u8>, rest: Option<Option<Seq<u8>>>)
    ensures
        then_read(a, then_read(b, rest)) == then_read(a + b, rest),
{
    if let Some(Some(more)) = rest {
        assert(a + (b + more) =~= a + b + more);
    }
}

} // verus!
