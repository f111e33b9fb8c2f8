//! Files and directories, as a mounted volume shows them.

use crate::bytes::copy_range;
use crate::text::same_text;
use vstd::prelude::*;
use vstd::string::StringSliceAdditionalSpecFns;

verus! {

#[derive(Debug, Clone, Copy, PartialEq, Eq, Structural)]
pub enum FileKind {
    Dir,
    File,
}

/// A date and a time of day as a FAT volume keeps them: on the clock of the place
/// where the disk was written.
#[derive(Debug, Clone, Copy, PartialEq, Eq, Structural)]
pub struct FatDateTime {
    pub year: u16,
    pub month: u16,
    pub day: u16,
    pub hour: u16,
    pub min: u16,
    pub sec: u16,
    pub millis: u16,
}

/// The time of a file.
#[derive(Debug, Clone, Copy, PartialEq, Eq, Structural)]
pub enum FileTime {
    /// The start of 1970, for a time that is not known.
    Epoch,
    Fat(FatDateTime),
}

/// What is known of a file or directory.
#[derive(Debug, Clone, Copy, PartialEq, Eq, Structural)]
pub struct Attr {
    pub ino: u64,
    pub size: u64,
    pub kind: FileKind,
    pub mtime: FileTime,
    pub crtime: FileTime,
    pub atime: FileTime,
}

/// The attributes of a node whose times are not known.
#[verifier::allow_in_spec]
pub fn timeless_attr(ino: u64, size: u64, kind: FileKind) -> Attr
    returns
        (Attr { ino, size, kind, mtime: FileTime::Epoch, crtime: FileTime::Epoch, atime: FileTime::Epoch }),
{
    Attr { ino, size, kind, mtime: FileTime::Epoch, crtime: FileTime::Epoch, atime: FileTime::Epoch }
}

/// An entry of a directory.
#[derive(Debug)]
pub struct DirEntry {
    pub ino: u64,
    pub name: String,
    pub kind: FileKind,
}

/// What a [`DirEntry`] says.
pub struct EntryView {
    pub ino: u64,
    pub name: Seq<char>,
    pub kind: FileKind,
}

impl View for DirEntry {
    type V = EntryView;

    open spec fn view(&self) -> EntryView {
        EntryView { ino: self.ino, name: self.name@, kind: self.kind }
    }
}

/// What a list of entries says.
pub open spec fn entry_views(v: Seq<DirEntry>) -> Seq<EntryView> {
    Seq::new(v.len(), |i: int| v[i]@)
}

/// How large a volume is, and how full.
#[derive(Debug, Clone, Copy, PartialEq, Eq, Structural)]
pub struct VolStats {
    pub total_blocks: u64,
    pub free_blocks: u64,
    pub block_size: u32,
}

/// The number of the root directory.
pub const ROOT_INO: u64 = 1;

/// An empty file in the root directory, whose name asks that the volume be left out
/// of the index for searches. It stands on no disk.
pub const NEVER_INDEX_INO: u64 = 2;

pub const NEVER_INDEX_NAME: &'static str = ".metadata_never_index";

/// The attributes of that file.
#[verifier::allow_in_spec]
pub fn never_index_attr() -> Attr
    returns
        timeless_attr(NEVER_INDEX_INO, 0, FileKind::File),
{
    timeless_attr(NEVER_INDEX_INO, 0, FileKind::File)
}

/// Files and directories under numbers. Nothing can be written.
pub trait Filesystem {
    /// What holds of the file system between calls.
    spec fn inv(&self) -> bool;

    /// Whether the attributes of a node may be asked for.
    spec fn can_stat(&self, ino: u64) -> bool;

    /// Whether an entry may be looked for.
    spec fn can_find(&self, parent: u64, name: Seq<char>) -> bool;

    /// Whether a directory may be listed.
    spec fn can_list(&self, ino: u64) -> bool;

    /// Whether a file may be read.
    spec fn can_read(&self, ino: u64) -> bool;

    /// The number of the root directory.
    fn root_ino(&self) -> (r: u64)
        ensures
            r == ROOT_INO,
    {
        ROOT_INO
    }

    fn getattr(&mut self, ino: u64) -> (r: Option<Attr>)
        requires
            old(self).inv(),
            old(self).can_stat(ino),
        ensures
            final(self).inv(),
    ;

    /// Finds an entry of a directory by its name.
    fn lookup(&mut self, parent: u64, name: &str) -> (r: Option<Attr>)
        requires
            old(self).inv(),
            old(self).can_find(parent, name@),
        ensures
            final(self).inv(),
    ;

    /// Lists a directory, without the entries for itself and its parent.
    fn readdir(&mut self, ino: u64) -> (r: Option<Vec<DirEntry>>)
        requires
            old(self).inv(),
            old(self).can_list(ino),
        ensures
            final(self).inv(),
    ;

    fn read(&mut self, ino: u64, offset: u64, size: u32) -> (r: Option<Vec<u8>>)
        requires
            old(self).inv(),
            old(self).can_read(ino),
        ensures
            final(self).inv(),
    ;

    fn stats(&mut self) -> (r: Option<VolStats>)
        requires
            old(self).inv(),
        ensures
            final(self).inv(),
    ;
}

// ---------------------------------------------------------------------------
// Times
// ---------------------------------------------------------------------------

/// A time since the start of 1970.
#[derive(Debug, Clone, Copy, PartialEq, Eq, Structural)]
pub struct Timestamp {
    pub secs: u64,
    pub millis: u16,
}

/// A date and a time of day as the C library takes them: years from 1900, months
/// from 0; whether summer time holds is left to it.
#[derive(Debug, Clone, Copy, PartialEq, Eq, Structural)]
pub struct BrokenDown {
    pub year: i32,
    pub mon: i32,
    pub mday: i32,
    pub hour: i32,
    pub min: i32,
    pub sec: i32,
    pub isdst: i32,
}

/// The fields of a FAT time, for the conversion to a time since 1970.
pub fn broken_down(t: &FatDateTime) -> (b: BrokenDown)
    ensures
        b.year == t.year - 1900,
        b.mon == t.month - 1,
        b.mday == t.day,
        b.hour == t.hour,
        b.min == t.min,
        b.sec == t.sec,
        b.isdst == -1,
        b == fields_of(*t),
{
    BrokenDown {
        year: t.year as i32 - 1900,
        mon: t.month as i32 - 1,
        mday: t.day as i32,
        hour: t.hour as i32,
        min: t.min as i32,
        sec: t.sec as i32,
        isdst: -1,
    }
}

/// The time that lies `secs` seconds behind the start of 1970, and some
/// milliseconds; the start of 1970 itself for a time before it.
pub fn instant(secs: i64, millis: u16) -> (t: Timestamp)
    ensures
        secs < 0 ==> t == (Timestamp { secs: 0, millis: 0 }),
        secs >= 0 ==> t.secs == secs && t.millis == millis,
        t == instant_of(secs, millis),
{
    if secs < 0 {
        Timestamp { secs: 0, millis: 0 }
    } else {
        Timestamp { secs: secs as u64, millis }
    }
}

// ---------------------------------------------------------------------------
// A file system without a disk
// ---------------------------------------------------------------------------

pub const README_INO: u64 = 2;

pub const README_NAME: &'static str = "README.txt";

pub const README_BODY: &'static str = "\
Этот том смонтирован программой floppy_mac (шаг 1: hello-FS).

Здесь нет реального файла на диске — байты, которые ты сейчас читаешь,
отдаёт мой Rust-код через macFUSE в ответ на FUSE-вызов read().

Следующий шаг: подставить сюда настоящую файловую систему (FAT12/16
через крейт fatfs), а источником байтов сделать образ .img, а затем
живую дискету через Greaseweazle.
";

/// Up to `size` bytes of `bytes` from `offset` on.
pub open spec fn window(bytes: Seq<u8>, offset: int, size: int) -> Seq<u8> {
    let start = if offset < bytes.len() {
        offset
    } else {
        bytes.len() as int
    };
    let end = if start + size < bytes.len() {
        start + size
    } else {
        bytes.len() as int
    };
    bytes.subrange(start, end)
}

/// Reads that follow one another give what one read gives.
pub proof fn law_windows_join(bytes: Seq<u8>, offset: int, a: int, b: int)
    requires
        0 <= offset,
        0 <= a,
        0 <= b,
    ensures
        window(bytes, offset, a) + window(bytes, offset + a, b) == window(bytes, offset, a + b),
{
    assert(window(bytes, offset, a) + window(bytes, offset + a, b) =~= window(
        bytes,
        offset,
        a + b,
    ));
}

/// A read of as many bytes as there are gives all of them.
pub proof fn law_window_whole(bytes: Seq<u8>, size: int)
    requires
        bytes.len() <= size,
    ensures
        window(bytes, 0, size) == bytes,
{
    assert(window(bytes, 0, size) =~= bytes);
}

/// One file that says where it comes from.
pub struct HelloFs;

/// What the file of [`HelloFs`] is.
pub open spec fn readme_attr() -> Attr {
    timeless_attr(README_INO, README_BODY.spec_bytes().len() as u64, FileKind::File)
}

pub open spec fn hello_attr(ino: u64) -> Option<Attr> {
    if ino == ROOT_INO {
        Some(timeless_attr(ROOT_INO, 0, FileKind::Dir))
    } else if ino == README_INO {
        Some(readme_attr())
    } else {
        None
    }
}

/// What the directory `parent` of [`HelloFs`] has under `name`.
pub open spec fn hello_lookup(parent: u64, name: Seq<char>) -> Option<Attr> {
    if parent == ROOT_INO && name == README_NAME@ {
        Some(readme_attr())
    } else {
        None
    }
}

/// The entries of node `ino` of [`HelloFs`], where it is a directory.
pub open spec fn hello_listing(ino: u64) -> Option<Seq<EntryView>> {
    if ino == ROOT_INO {
        Some(seq![EntryView { ino: README_INO, name: README_NAME@, kind: FileKind::File }])
    } else {
        None
    }
}

/// What a read from node `ino` of [`HelloFs`] gives.
pub open spec fn hello_read(ino: u64, offset: int, size: int) -> Option<Seq<u8>> {
    if ino == README_INO {
        Some(window(README_BODY.spec_bytes(), offset, size))
    } else {
        None
    }
}

impl HelloFs {
    pub fn new() -> (fs: HelloFs)
        ensures
            fs == HelloFs,
            fs.inv(),
    {
        HelloFs
    }
}

impl Filesystem for HelloFs {
    open spec fn inv(&self) -> bool {
        true
    }

    open spec fn can_stat(&self, ino: u64) -> bool {
        true
    }

    open spec fn can_find(&self, parent: u64, name: Seq<char>) -> bool {
        true
    }

    open spec fn can_list(&self, ino: u64) -> bool {
        true
    }

    open spec fn can_read(&self, ino: u64) -> bool {
        true
    }

    fn getattr(&mut self, ino: u64) -> (r: Option<Attr>)
        ensures
            r == hello_attr(ino),
    {
        if ino == ROOT_INO {
            Some(timeless_attr(ROOT_INO, 0, FileKind::Dir))
        } else if ino == README_INO {
            Some(timeless_attr(README_INO, README_BODY.as_bytes().len() as u64, FileKind::File))
        } else {
            None
        }
    }

    fn lookup(&mut self, parent: u64, name: &str) -> (r: Option<Attr>)
        ensures
            r == (if parent == ROOT_INO && name@ == README_NAME@ {
                Some(readme_attr())
            } else {
                None
            }),
            r == hello_lookup(parent, name@),
    {
        if parent == ROOT_INO && same_text(name, README_NAME) {
            self.getattr(README_INO)
        } else {
            None
        }
    }

    fn readdir(&mut self, ino: u64) -> (r: Option<Vec<DirEntry>>)
        ensures
            r is Some <==> ino == ROOT_INO,
            r matches Some(v) ==> entry_views(v@) == seq![
                EntryView { ino: README_INO, name: README_NAME@, kind: FileKind::File },
            ],
            (match r {
                Some(v) => Some(entry_views(v@)),
                None => None,
            }) == hello_listing(ino),
    {
        if ino != ROOT_INO {
            return None;
        }
        let entries: Vec<DirEntry> = vec![
            DirEntry { ino: README_INO, name: README_NAME.to_owned(), kind: FileKind::File },
        ];
        assert(entry_views(entries@) =~= seq![
            EntryView { ino: README_INO, name: README_NAME@, kind: FileKind::File },
        ]);
        Some(entries)
    }

    fn read(&mut self, ino: u64, offset: u64, size: u32) -> (r: Option<Vec<u8>>)
        ensures
            r is Some <==> ino == README_INO,
            r matches Some(v) ==> v@ == window(
                README_BODY.spec_bytes(),
                offset as int,
                size as int,
            ),
            (match r {
                Some(v) => Some(v@),
                None => None,
            }) == hello_read(ino, offset as int, size as int),
    {
        if ino != README_INO {
            return None;
        }
        let bytes: &[u8] = README_BODY.as_bytes();
        let start: usize = if offset < bytes.len() as u64 {
            offset as usize
        } else {
            bytes.len()
        };
        let end: usize = if (size as u64) < (bytes.len() - start) as u64 {
            start + size as usize
        } else {
            bytes.len()
        };
        Some(copy_range(bytes, start, end))
    }

    fn stats(&mut self) -> (r: Option<VolStats>)
        ensures
            r is None,
    {
        None
    }
}

/// A read gives the bytes from the offset on, one for one: as many as were wanted, or all
/// that are left.
pub proof fn law_window_bytes(bytes: Seq<u8>, offset: int, size: int, i: int)
    requires
        0 <= offset,
        0 <= size,
    ensures
        offset >= bytes.len() ==> window(bytes, offset, size).len() == 0,
        offset < bytes.len() && size <= bytes.len() - offset ==> window(bytes, offset, size).len()
            == size,
        offset < bytes.len() && size > bytes.len() - offset ==> window(bytes, offset, size).len()
            == bytes.len() - offset,
        0 <= i < window(bytes, offset, size).len() ==> window(bytes, offset, size)[i]
            == bytes[offset + i],
{
}

/// The fields that a FAT time has for the C library.
pub open spec fn fields_of(t: FatDateTime) -> BrokenDown {
    BrokenDown {
        year: (t.year - 1900) as i32,
        mon: (t.month - 1) as i32,
        mday: t.day as i32,
        hour: t.hour as i32,
        min: t.min as i32,
        sec: t.sec as i32,
        isdst: (-1) as i32,
    }
}

/// No field of a time is lost on the way to the C library: years are counted from 1900
/// and months from 0, all else stays, and summer time is left open.
pub proof fn law_times_keep_their_fields(t: FatDateTime)
    ensures
        fields_of(t).year + 1900 == t.year,
        fields_of(t).mon + 1 == t.month,
        fields_of(t).mday == t.day,
        fields_of(t).hour == t.hour,
        fields_of(t).min == t.min,
        fields_of(t).sec == t.sec,
        fields_of(t).isdst < 0,
{
}

/// The time so many seconds behind the start of 1970.
pub open spec fn instant_of(secs: i64, millis: u16) -> Timestamp {
    if secs < 0 {
        Timestamp { secs: 0, millis: 0 }
    } else {
        Timestamp { secs: secs as u64, millis }
    }
}

/// A time behind the start of 1970 is kept to the millisecond; one before it counts as
/// that start.
pub proof fn law_instants_are_kept(secs: i64, millis: u16)
    ensures
        secs >= 0 ==> 1000 * instant_of(secs, millis).secs + instant_of(secs, millis).millis
            == 1000 * secs + millis,
        secs >= 0 ==> instant_of(secs, millis).millis == millis,
        secs < 0 ==> instant_of(secs, millis).secs == 0 && instant_of(secs, millis).millis == 0,
{
}

/// The one file of a file system without a disk is as large as its text, and stands in
/// the root.
pub proof fn law_readme_is_there(ino: u64)
    requires
        README_BODY.spec_bytes().len() <= u64::MAX,
    ensures
        hello_attr(1) matches Some(a) && a.ino == 1 && a.kind == FileKind::Dir && a.size == 0,
        hello_attr(2) matches Some(a) && a.ino == 2 && a.kind == FileKind::File && a.size
            == README_BODY.spec_bytes().len(),
        ino != 1 && ino != 2 ==> hello_attr(ino) is None,
{
}

/// The file is found in the root by its name, and nothing else is found anywhere.
pub proof fn law_readme_is_found(parent: u64, name: Seq<char>)
    ensures
        hello_lookup(1, "README.txt"@) == hello_attr(2),
        parent != 1 || name != "README.txt"@ ==> hello_lookup(parent, name) is None,
        hello_listing(1) matches Some(v) && v.len() == 1 && v[0].name == "README.txt"@ && v[0].ino
            == 2 && v[0].kind == FileKind::File,
        parent != 1 ==> hello_listing(parent) is None,
{
}

/// The file reads as its text, from any place on.
pub proof fn law_readme_is_read(ino: u64, offset: int, size: int)
    requires
        0 <= offset,
        0 <= size,
    ensures
        hello_read(2, offset, size) == Some(window(README_BODY.spec_bytes(), offset, size)),
        ino != 2 ==> hello_read(ino, offset, size) is None,
{
}

} // verus!
