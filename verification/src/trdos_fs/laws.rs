//! What holds of every TR-DOS disk.

use super::entry_at;
use super::file_name;
use super::file_of;
use super::find_file;
use super::lemma_ended_stays;
use super::list_block;
use super::list_dir;
use super::list_entries;
use super::name_char;
use super::read_file;
use super::read_sectors;
use super::trdos_attr;
use super::trdos_entries;
use super::trdos_listing;
use super::trdos_lookup;
use super::trdos_read;
use super::trdos_stats;
use super::trimmed;
use super::TrFile;
use super::FILE_INO_BASE;
use crate::block_source::ReadEvent;
use crate::block_source::Reply;
use crate::error::IoErrorKind;
use crate::fs::never_index_attr;
use crate::fs::timeless_attr;
use crate::fs::window;
use crate::fs::FileKind;
use crate::fs::FileTime;
use crate::fs::NEVER_INDEX_INO;
use crate::fs::NEVER_INDEX_NAME;
use crate::fs::ROOT_INO;
use crate::greaseweazle_src::Geometry;
use vstd::arithmetic::div_mod::lemma_fundamental_div_mod_converse;
use vstd::prelude::*;

verus! {

/// Whether all requests are answered from `disk`.
pub open spec fn answered_from(disk: spec_fn(u64) -> Seq<u8>, events: Seq<ReadEvent>) -> bool {
    forall|i: int|
        0 <= i < events.len() ==> (#[trigger] events[i]).reply == Reply::Block(disk(events[i].lba))
}

/// The bytes in the sectors of a file.
pub open spec fn sector_bytes(file: TrFile, bps: int, disk: spec_fn(u64) -> Seq<u8>) -> Seq<u8> {
    Seq::new(
        (file.sector_count * bps) as nat,
        |i: int| disk((file.start_lba + i / bps) as u64)[i % bps],
    )
}

/// The bytes of a file: as many as its entry says, as far as it has sectors.
pub open spec fn file_bytes(file: TrFile, bps: int, disk: spec_fn(u64) -> Seq<u8>) -> Seq<u8> {
    let all = sector_bytes(file, bps, disk);
    if file.len_bytes < all.len() {
        all.take(file.len_bytes as int)
    } else {
        all
    }
}

proof fn lemma_sector_part(
    file: TrFile,
    bps: int,
    disk: spec_fn(u64) -> Seq<u8>,
    k: int,
    skip: int,
    n: int,
)
    requires
        bps > 0,
        0 <= k < file.sector_count,
        0 <= skip,
        0 <= n,
        skip + n <= bps,
        disk((file.start_lba + k) as u64).len() == bps,
    ensures
        0 <= k * bps,
        k * bps + skip + n <= sector_bytes(file, bps, disk).len(),
        disk((file.start_lba + k) as u64).subrange(skip, skip + n) == sector_bytes(
            file,
            bps,
            disk,
        ).subrange(k * bps + skip, k * bps + skip + n),
{
    let all = sector_bytes(file, bps, disk);
    let count = file.sector_count as int;
    let b = disk((file.start_lba + k) as u64);
    assert(k * bps + bps <= count * bps && 0 <= k * bps) by (nonlinear_arith)
        requires
            0 <= k < count,
            bps > 0,
    ;
    let part = b.subrange(skip, skip + n);
    let same = all.subrange(k * bps + skip, k * bps + skip + n);
    assert forall|j: int| 0 <= j < n implies #[trigger] part[j] == same[j] by {
        let i = k * bps + skip + j;
        lemma_fundamental_div_mod_converse(i, bps, k, skip + j);
    }
    assert(part =~= same);
}

proof fn lemma_read_sectors(
    file: TrFile,
    bps: int,
    disk: spec_fn(u64) -> Seq<u8>,
    k: int,
    skip: int,
    want: int,
    events: Seq<ReadEvent>,
)
    requires
        bps > 0,
        forall|lba: u64| (#[trigger] disk(lba)).len() == bps,
        answered_from(disk, events),
        0 <= k,
        0 <= skip < bps,
        0 <= want,
        read_sectors(file, k, skip, want, events) is Some,
    ensures
        read_sectors(file, k, skip, want, events) == Some(
            Some(window(sector_bytes(file, bps, disk), k * bps + skip, want)),
        ),
    decreases events.len(),
{
    let all = sector_bytes(file, bps, disk);
    let count = file.sector_count as int;
    assert(all.len() == count * bps) by (nonlinear_arith)
        requires
            count >= 0,
            bps > 0,
            all.len() == (count * bps) as nat,
    ;
    assert(0 <= k * bps) by (nonlinear_arith)
        requires
            0 <= k,
            bps > 0,
    ;
    if k >= count {
        assert(k * bps >= count * bps) by (nonlinear_arith)
            requires
                k >= count,
                bps > 0,
        ;
        assert(window(all, k * bps + skip, want) =~= Seq::<u8>::empty());
    } else if want <= 0 {
        assert(window(all, k * bps + skip, want) =~= Seq::<u8>::empty());
    } else {
        assert(events[0].reply == Reply::Block(disk(events[0].lba)));
        let block = disk((file.start_lba + k) as u64);
        let n = if want < bps - skip {
            want
        } else {
            bps - skip
        };
        let rest = events.drop_first();
        assert(answered_from(disk, rest)) by {
            assert forall|i: int| 0 <= i < rest.len() implies (#[trigger] rest[i]).reply
                == Reply::Block(disk(rest[i].lba)) by {
                assert(rest[i] == events[i + 1]);
            }
        }
        lemma_read_sectors(file, bps, disk, k + 1, 0, want - n, rest);
        lemma_sector_part(file, bps, disk, k, skip, n);
        assert((k + 1) * bps == k * bps + bps) by (nonlinear_arith);
        let at = k * bps + skip;
        let more = window(all, (k + 1) * bps, want - n);
        assert(block.subrange(skip, skip + n) + more =~= window(all, at, want)) by {
            if n < want {
                assert((k + 1) * bps == at + n);
            } else {
                assert(more =~= Seq::<u8>::empty());
            }
        }
    }
}

/// A read from a file gives its bytes: as many as were wanted, or all up to the end
/// of the file, where the sectors have the size that the geometry says.
pub proof fn law_read_gives_file(
    file: TrFile,
    bps: u16,
    disk: spec_fn(u64) -> Seq<u8>,
    offset: int,
    size: int,
    events: Seq<ReadEvent>,
)
    requires
        bps > 0,
        forall|lba: u64| (#[trigger] disk(lba)).len() == bps,
        answered_from(disk, events),
        0 <= offset,
        0 <= size,
        read_file(file, bps, offset, size, events) is Some,
    ensures
        read_file(file, bps, offset, size, events) == Some(
            Some(window(file_bytes(file, bps as int, disk), offset, size)),
        ),
{
    let b = bps as int;
    let all = sector_bytes(file, b, disk);
    let bytes = file_bytes(file, b, disk);
    if offset >= file.len_bytes {
        assert(window(bytes, offset, size) =~= Seq::<u8>::empty());
    } else {
        let want = if size < file.len_bytes - offset {
            size
        } else {
            file.len_bytes - offset
        };
        let k = offset / b;
        let skip = offset % b;
        vstd::arithmetic::div_mod::lemma_fundamental_div_mod(offset, b);
        assert(k * b == b * k) by (nonlinear_arith);
        assert(k >= 0) by (nonlinear_arith)
            requires
                k == offset / b,
                offset >= 0,
                b > 0,
        ;
        lemma_read_sectors(file, b, disk, k, skip, want, events);
        assert(window(all, offset, want) =~= window(bytes, offset, size));
    }
}

/// Opening a disk fails only where a request to the device fails, and then with its
/// error.
pub proof fn law_open_fails_with_device(
    k: int,
    events: Seq<ReadEvent>,
    spt: u8,
    kind: IoErrorKind,
    message: Seq<char>,
)
    requires
        list_dir(k, events, spt) == Some(
            Err::<Seq<TrFile>, (IoErrorKind, Seq<char>)>((kind, message)),
        ),
    ensures
        events.len() > 0,
        events.last().reply == Reply::Failed(kind, message),
    decreases events.len(),
{
    if k < super::DIR_SECTORS {
        match events[0].reply {
            Reply::Failed(_, _) => {},
            Reply::Block(block) => {
                let rest = events.drop_first();
                assert(list_dir(k + 1, rest, spt) == list_dir(k, events, spt));
                law_open_fails_with_device(k + 1, rest, spt, kind, message);
                assert(rest.last() == events.last());
            },
        }
    }
}

/// Every entry of the root directory has attributes, those of a file, under its
/// number.
pub proof fn law_listed_entries_exist(files: Seq<TrFile>, i: int)
    requires
        0 <= i < trdos_entries(files).len(),
        FILE_INO_BASE + files.len() <= u64::MAX,
    ensures
        trdos_attr(files, trdos_entries(files)[i].ino) matches Some(a) && a.ino == trdos_entries(
            files,
        )[i].ino && a.kind == trdos_entries(files)[i].kind,
{
}

/// Every entry of the root directory is found by its name: the entry itself, or an
/// earlier one of the same name.
pub proof fn law_listed_entries_are_found(files: Seq<TrFile>, i: int)
    requires
        0 <= i < trdos_entries(files).len(),
        FILE_INO_BASE + files.len() <= u64::MAX,
    ensures
        trdos_lookup(files, ROOT_INO, trdos_entries(files)[i].name) matches Some(a) && a.kind
            == FileKind::File && (a.ino <= trdos_entries(files)[i].ino),
{
    if i < files.len() {
        lemma_found(files, i);
    }
}

proof fn lemma_found(files: Seq<TrFile>, i: int)
    requires
        0 <= i < files.len(),
    ensures
        0 <= find_file(files, files[i].name) <= i,
        files[find_file(files, files[i].name)].name == files[i].name,
    decreases files.len(),
{
    let head = files.drop_last();
    if i < files.len() - 1 {
        assert(head[i] == files[i]);
        lemma_found(head, i);
    } else {
        lemma_find_bounds(head, files[i].name);
    }
}

proof fn lemma_find_bounds(files: Seq<TrFile>, name: Seq<char>)
    ensures
        -1 <= find_file(files, name) < files.len(),
        find_file(files, name) >= 0 ==> files[find_file(files, name)].name == name,
    decreases files.len(),
{
    if files.len() > 0 {
        lemma_find_bounds(files.drop_last(), name);
    }
}

/// The file that keeps the volume out of the index is always there, and empty.
pub proof fn law_never_index_is_there(files: Seq<TrFile>)
    ensures
        trdos_lookup(files, ROOT_INO, NEVER_INDEX_NAME@) == Some(never_index_attr()),
        trdos_attr(files, NEVER_INDEX_INO) == Some(timeless_attr(NEVER_INDEX_INO, 0, FileKind::File)),
        trdos_entries(files).last().name == NEVER_INDEX_NAME@,
{
}

/// What is written in a directory entry: up to eight characters of a name, a type, two
/// bytes of the type's own, and where the file stands.
pub struct Written {
    pub name: Seq<u8>,
    pub kind: u8,
    pub start: u16,
    pub len: u16,
    pub count: u8,
    pub sector: u8,
    pub track: u8,
}

/// The bytes of such an entry.
pub open spec fn entry_bytes(w: Written) -> Seq<u8> {
    w.name + seq![
        w.kind,
        (w.start % 256) as u8,
        (w.start / 256) as u8,
        (w.len % 256) as u8,
        (w.len / 256) as u8,
        w.count,
        w.sector,
        w.track,
    ]
}

/// Whether an entry can stand in a directory: eight characters, the first of which does
/// not say that the entry is free or that the directory ends.
pub open spec fn writable(w: Written) -> bool {
    w.name.len() == 8 && w.name[0] > 1
}

/// A directory entry says what was written in it: the file has that very length, that
/// many sectors, and its first block is the sector of that track.
pub proof fn law_entry_says_what_was_written(w: Written, spt: u8)
    requires
        writable(w),
    ensures
        entry_bytes(w).len() == 16,
        file_of(entry_bytes(w), spt).len_bytes == w.len,
        file_of(entry_bytes(w), spt).sector_count == w.count,
        file_of(entry_bytes(w), spt).start_lba == w.track * spt + w.sector,
{
    let e = entry_bytes(w);
    assert(e[11] + 0x100 * e[12] == w.len);
    assert(e[13] == w.count && e[14] == w.sector && e[15] == w.track);
    assert(0 <= w.track * spt <= 0xFF * 0xFF) by (nonlinear_arith)
        requires
            w.track <= 0xFF,
            spt <= 0xFF,
    ;
}

/// The sector of a directory that holds these entries, one behind the other, and is
/// otherwise blank.
pub open spec fn dir_bytes(entries: Seq<Written>) -> Seq<u8> {
    Seq::new(
        256,
        |i: int|
            if i / 16 < entries.len() {
                entry_bytes(entries[i / 16])[i % 16]
            } else {
                0u8
            },
    )
}

proof fn lemma_dir_entry(entries: Seq<Written>, i: int)
    requires
        0 <= i < entries.len(),
        entries.len() <= 16,
        writable(entries[i]),
    ensures
        entry_at(dir_bytes(entries), i) == entry_bytes(entries[i]),
{
    assert(entry_at(dir_bytes(entries), i) =~= entry_bytes(entries[i])) by {
        assert forall|k: int| 0 <= k < 16 implies entry_at(dir_bytes(entries), i)[k]
            == entry_bytes(entries[i])[k] by {
            assert((16 * i + k) / 16 == i && (16 * i + k) % 16 == k);
        }
    }
}

proof fn lemma_dir_entries(entries: Seq<Written>, n: int, spt: u8)
    requires
        entries.len() <= 16,
        0 <= n <= entries.len(),
        forall|i: int| 0 <= i < entries.len() ==> writable(#[trigger] entries[i]),
    ensures
        !list_entries(dir_bytes(entries), n, spt).ended,
        list_entries(dir_bytes(entries), n, spt).files.len() == n,
        forall|i: int|
            0 <= i < n ==> #[trigger] list_entries(dir_bytes(entries), n, spt).files[i] == file_of(
                entry_bytes(entries[i]),
                spt,
            ),
    decreases n,
{
    if n > 0 {
        lemma_dir_entries(entries, n - 1, spt);
        assert(writable(entries[n - 1]));
        lemma_dir_entry(entries, n - 1);
        assert(entry_bytes(entries[n - 1])[0] == entries[n - 1].name[0]);
    }
}

/// A directory sector lists the files that were written in it, each under its length, its
/// sectors and its first block, in the order in which they stand, and ends behind them.
pub proof fn law_directory_lists_what_was_written(entries: Seq<Written>, spt: u8)
    requires
        entries.len() <= 16,
        forall|i: int| 0 <= i < entries.len() ==> writable(#[trigger] entries[i]),
    ensures
        list_block(dir_bytes(entries), spt).files.len() == entries.len(),
        list_block(dir_bytes(entries), spt).ended <==> entries.len() < 16,
        forall|i: int|
            0 <= i < entries.len() ==> {
                let f = #[trigger] list_block(dir_bytes(entries), spt).files[i];
                &&& f.len_bytes == entries[i].len
                &&& f.sector_count == entries[i].count
                &&& f.start_lba == entries[i].track * spt + entries[i].sector
                &&& f.name == file_of(entry_bytes(entries[i]), spt).name
            },
{
    let n = entries.len() as int;
    let block = dir_bytes(entries);
    lemma_dir_entries(entries, n, spt);
    if n < 16 {
        assert(entry_at(block, n)[0] == 0) by {
            assert((16 * n) / 16 == n && (16 * n) % 16 == 0);
        }
        assert(list_entries(block, n + 1, spt).ended);
        lemma_ended_stays(block, n + 1, 16, spt);
        assert(list_block(block, spt).files == list_entries(block, n, spt).files);
    }
    assert forall|i: int| 0 <= i < entries.len() implies ({
        let f = #[trigger] list_block(block, spt).files[i];
        &&& f.len_bytes == entries[i].len
        &&& f.sector_count == entries[i].count
        &&& f.start_lba == entries[i].track * spt + entries[i].sector
        &&& f.name == file_of(entry_bytes(entries[i]), spt).name
    }) by {
        assert(writable(entries[i]));
        assert(list_entries(block, n, spt).files[i] == file_of(entry_bytes(entries[i]), spt));
        law_entry_says_what_was_written(entries[i], spt);
    }
}

/// An entry that is free is passed over: the files of a sector are those of the entries
/// that are not free, up to the first that ends the directory.
pub proof fn law_free_entries_are_passed_over(block: Seq<u8>, n: int, spt: u8)
    requires
        0 <= n,
        !list_entries(block, n, spt).ended,
    ensures
        block[16 * n] == 0 && block.len() >= 16 * n + 16 ==> list_entries(block, n + 1, spt).ended
            && list_entries(block, n + 1, spt).files == list_entries(block, n, spt).files,
        block[16 * n] == 1 && block.len() >= 16 * n + 16 ==> list_entries(block, n + 1, spt)
            == list_entries(block, n, spt),
        block[16 * n] > 1 && block.len() >= 16 * n + 16 ==> list_entries(block, n + 1, spt).files
            == list_entries(block, n, spt).files.push(
            file_of(block.subrange(16 * n, 16 * n + 16), spt),
        ),
{
    if block.len() >= 16 * n + 16 {
        assert(entry_at(block, n)[0] == block[16 * n]);
    }
}

/// A character of a name that can be shown is shown as it is, any other as an underscore;
/// spaces at the end of a name are left out; a type that can be shown stands behind a
/// dot.
pub proof fn law_names_are_shown(e: Seq<u8>, n: int)
    requires
        e.len() == 16,
        0 <= n <= 8,
        forall|i: int| n <= i < 8 ==> #[trigger] e[i] == 0x20,
        n > 0 ==> e[n - 1] != 0x20,
    ensures
        ({
            let name = file_name(e);
            let shown = 0x21 <= e[8] <= 0x7E;
            &&& name.len() == n + (if shown { 2int } else { 0int })
            &&& forall|i: int|
                0 <= i < n ==> #[trigger] name[i] == (if 0x20 <= e[i] <= 0x7E {
                    e[i] as char
                } else {
                    '_'
                })
            &&& shown ==> name[n] == '.' && name[n + 1] == e[8] as char
        }),
{
    let full = Seq::new(8, |i: int| name_char(e[i]));
    assert(full.take(8) =~= full);
    lemma_trims_to(full, e, n, 8);
    assert(trimmed(full) =~= full.take(n));
}

proof fn lemma_trims_to(full: Seq<char>, e: Seq<u8>, n: int, k: int)
    requires
        0 <= n <= k <= 8,
        full == Seq::new(8, |i: int| name_char(e[i])),
        forall|i: int| n <= i < 8 ==> #[trigger] e[i] == 0x20,
        n > 0 ==> e[n - 1] != 0x20,
    ensures
        trimmed(full.take(k)) == full.take(n),
    decreases k,
{
    if k > n {
        assert(e[k - 1] == 0x20);
        assert(full.take(k).last() == ' ');
        assert(full.take(k).drop_last() =~= full.take(k - 1));
        lemma_trims_to(full, e, n, k - 1);
    } else if n > 0 {
        assert(full.take(n).last() == name_char(e[n - 1]));
        if 0x20 <= e[n - 1] < 0x7F {
            assert(e[n - 1] as char != ' ');
        }
    }
}

/// A directory takes up at most the first eight blocks of the disk, asked for in order:
/// where none of them fails, opening reads the files of one after the other up to the
/// block that ends the directory.
pub proof fn law_directory_is_read_in_order(disk: spec_fn(u64) -> Seq<u8>, events: Seq<ReadEvent>, spt: u8)
    requires
        answered_from(disk, events),
        list_dir(0, events, spt) is Some,
    ensures
        1 <= events.len() <= 8,
        forall|i: int| 0 <= i < events.len() ==> (#[trigger] events[i]).lba == i,
        forall|i: int|
            0 <= i < events.len() - 1 ==> !list_block(disk((#[trigger] events[i]).lba), spt).ended,
        events.len() < 8 ==> list_block(disk(events.last().lba), spt).ended,
        list_dir(0, events, spt) == Some(
            Ok::<Seq<TrFile>, (IoErrorKind, Seq<char>)>(
                files_of(disk, 0, events.len() as int, spt),
            ),
        ),
{
    lemma_dir_in_order(disk, 0, events, spt);
}

/// The files in the blocks `from..to`.
pub open spec fn files_of(disk: spec_fn(u64) -> Seq<u8>, from: int, to: int, spt: u8) -> Seq<TrFile>
    decreases to - from,
{
    if from >= to {
        Seq::empty()
    } else {
        list_block(disk(from as u64), spt).files + files_of(disk, from + 1, to, spt)
    }
}

proof fn lemma_dir_in_order(
    disk: spec_fn(u64) -> Seq<u8>,
    k: int,
    events: Seq<ReadEvent>,
    spt: u8,
)
    requires
        0 <= k <= 8,
        answered_from(disk, events),
        list_dir(k, events, spt) is Some,
    ensures
        events.len() <= 8 - k,
        k < 8 ==> events.len() > 0,
        forall|i: int| 0 <= i < events.len() ==> (#[trigger] events[i]).lba == k + i,
        forall|i: int|
            0 <= i < events.len() - 1 ==> !list_block(disk((#[trigger] events[i]).lba), spt).ended,
        0 < events.len() < 8 - k ==> list_block(disk(events.last().lba), spt).ended,
        list_dir(k, events, spt) == Some(
            Ok::<Seq<TrFile>, (IoErrorKind, Seq<char>)>(
                files_of(disk, k, k + events.len(), spt),
            ),
        ),
    decreases events.len(),
{
    if k < 8 {
        assert(events[0].reply == Reply::Block(disk(events[0].lba)));
        let here = list_block(disk(k as u64), spt);
        let rest = events.drop_first();
        assert(answered_from(disk, rest)) by {
            assert forall|i: int| 0 <= i < rest.len() implies (#[trigger] rest[i]).reply
                == Reply::Block(disk(rest[i].lba)) by {
                assert(rest[i] == events[i + 1]);
            }
        }
        if here.ended {
            assert(files_of(disk, k + 1, k + 1, spt) =~= Seq::<TrFile>::empty());
            assert(here.files + Seq::<TrFile>::empty() =~= here.files);
        } else {
            lemma_dir_in_order(disk, k + 1, rest, spt);
            assert forall|i: int| 0 <= i < events.len() implies (#[trigger] events[i]).lba == k
                + i by {
                if i > 0 {
                    assert(rest[i - 1] == events[i]);
                }
            }
            assert forall|i: int| 0 <= i < events.len() - 1 implies !list_block(
                disk((#[trigger] events[i]).lba),
                spt,
            ).ended by {
                if i > 0 {
                    assert(rest[i - 1] == events[i]);
                }
            }
            if rest.len() > 0 {
                assert(rest.last() == events.last());
            }
        }
    }
}

/// A file is found under its name with the length that its entry says, a number of its
/// own, and no other kind or time.
pub proof fn law_file_is_found(files: Seq<TrFile>, i: int)
    requires
        0 <= i < files.len(),
        3 + files.len() <= u64::MAX,
        files[i].name != NEVER_INDEX_NAME@,
        forall|k: int| 0 <= k < i ==> (#[trigger] files[k]).name != files[i].name,
    ensures
        trdos_lookup(files, 1, files[i].name) == trdos_attr(files, (3 + i) as u64),
        trdos_attr(files, (3 + i) as u64) matches Some(a) && a.ino == 3 + i && a.size
            == files[i].len_bytes && a.kind == FileKind::File && a.mtime == FileTime::Epoch
            && a.crtime == FileTime::Epoch && a.atime == FileTime::Epoch,
        trdos_entries(files)[i].ino == 3 + i,
        trdos_entries(files)[i].name == files[i].name,
        trdos_entries(files).len() == files.len() + 1,
{
    lemma_found(files, i);
    let f = find_file(files, files[i].name);
    if f < i {
        assert(files[f].name != files[i].name);
    }
}

/// A name that no file has, and a directory other than the root, lead nowhere; nor does a
/// number that was not given out.
pub proof fn law_nothing_else_is_found(files: Seq<TrFile>, parent: u64, name: Seq<char>, ino: u64)
    requires
        parent != 1 || name != NEVER_INDEX_NAME@ && forall|k: int|
            0 <= k < files.len() ==> (#[trigger] files[k]).name != name,
        ino == 0 || ino >= 3 + files.len(),
    ensures
        trdos_lookup(files, parent, name) is None,
        trdos_attr(files, ino) is None,
{
    lemma_find_bounds(files, name);
}

/// The root is a directory without a size.
pub proof fn law_root_is_a_directory(files: Seq<TrFile>)
    ensures
        trdos_attr(files, 1) matches Some(a) && a.ino == 1 && a.size == 0 && a.kind
            == FileKind::Dir && a.mtime == FileTime::Epoch,
{
}

/// A read asks for the blocks that hold the bytes that are wanted, one after the other,
/// and for no other.
pub proof fn law_read_asks_for_its_blocks(
    file: TrFile,
    bps: u16,
    disk: spec_fn(u64) -> Seq<u8>,
    offset: int,
    size: int,
    events: Seq<ReadEvent>,
)
    requires
        bps > 0,
        forall|lba: u64| (#[trigger] disk(lba)).len() == bps,
        answered_from(disk, events),
        0 <= offset,
        0 <= size,
        read_file(file, bps, offset, size, events) is Some,
    ensures
        forall|i: int|
            0 <= i < events.len() ==> (#[trigger] events[i]).lba == file.start_lba + offset
                / bps as int + i,
        events.len() > 0 ==> offset < file.len_bytes && offset / bps as int + events.len()
            <= file.sector_count && (events.len() - 1) * bps < size + offset % bps as int,
{
    if offset < file.len_bytes {
        let b = bps as int;
        let want = if size < file.len_bytes - offset {
            size
        } else {
            file.len_bytes - offset
        };
        lemma_read_asks(file, b, disk, offset / b, offset % b, want, events);
    }
}

proof fn lemma_read_asks(
    file: TrFile,
    bps: int,
    disk: spec_fn(u64) -> Seq<u8>,
    k: int,
    skip: int,
    want: int,
    events: Seq<ReadEvent>,
)
    requires
        bps > 0,
        forall|lba: u64| (#[trigger] disk(lba)).len() == bps,
        answered_from(disk, events),
        0 <= skip < bps,
        read_sectors(file, k, skip, want, events) is Some,
    ensures
        forall|i: int|
            0 <= i < events.len() ==> (#[trigger] events[i]).lba == file.start_lba + k + i,
        events.len() > 0 ==> k + events.len() <= file.sector_count && (events.len() - 1) * bps
            < want + skip,
    decreases events.len(),
{
    if want > 0 && k < file.sector_count {
        assert(events[0].reply == Reply::Block(disk(events[0].lba)));
        let rest = events.drop_first();
        assert(answered_from(disk, rest)) by {
            assert forall|i: int| 0 <= i < rest.len() implies (#[trigger] rest[i]).reply
                == Reply::Block(disk(rest[i].lba)) by {
                assert(rest[i] == events[i + 1]);
            }
        }
        let n = if want < bps - skip {
            want
        } else {
            bps - skip
        };
        lemma_read_asks(file, bps, disk, k + 1, 0, want - n, rest);
        assert forall|i: int| 0 <= i < events.len() implies (#[trigger] events[i]).lba
            == file.start_lba + k + i by {
            if i > 0 {
                assert(rest[i - 1] == events[i]);
            }
        }
        let m = events.len() - 1;
        if m > 0 {
            assert(m * bps == (m - 1) * bps + bps) by (nonlinear_arith);
        } else {
            assert(0 * bps == 0);
        }
    }
}

/// The size of a disk is that of its geometry, and nothing of it is free.
pub proof fn law_disk_size(g: Geometry)
    ensures
        trdos_stats(g).total_blocks == g.total_sectors,
        trdos_stats(g).free_blocks == 0,
        trdos_stats(g).block_size == g.bytes_per_sector,
{
}

/// A number leads to the contents of its file, the file that stands on no disk is empty,
/// and nothing else can be read.
pub proof fn law_numbers_lead_to_contents(
    files: Seq<TrFile>,
    bps: u16,
    i: int,
    ino: u64,
    offset: int,
    size: int,
    events: Seq<ReadEvent>,
)
    requires
        3 + files.len() <= u64::MAX,
    ensures
        0 <= i < files.len() ==> trdos_read(files, bps, (3 + i) as u64, offset, size, events)
            == read_file(files[i], bps, offset, size, events),
        trdos_read(files, bps, 2, offset, size, Seq::empty()) == Some(Some(Seq::<u8>::empty())),
        ino < 2 || ino >= 3 + files.len() ==> trdos_read(
            files,
            bps,
            ino,
            offset,
            size,
            Seq::empty(),
        ) == Some(None::<Seq<u8>>),
{
}

/// A read whose request fails is a failure, and no other request is made.
pub proof fn law_failed_request_fails_read(
    file: TrFile,
    bps: u16,
    offset: int,
    size: int,
    events: Seq<ReadEvent>,
    i: int,
)
    requires
        bps > 0,
        0 <= offset < file.len_bytes,
        read_file(file, bps, offset, size, events) is Some,
        0 <= i < events.len(),
        events[i].reply is Failed,
    ensures
        i == events.len() - 1,
        read_file(file, bps, offset, size, events) == Some(None::<Seq<u8>>),
{
    let b = bps as int;
    let want = if size < file.len_bytes - offset {
        size
    } else {
        file.len_bytes - offset
    };
    lemma_failed_request(file, offset / b, offset % b, want, events, i);
}

proof fn lemma_failed_request(
    file: TrFile,
    k: int,
    skip: int,
    want: int,
    events: Seq<ReadEvent>,
    i: int,
)
    requires
        read_sectors(file, k, skip, want, events) is Some,
        0 <= i < events.len(),
        events[i].reply is Failed,
    ensures
        i == events.len() - 1,
        read_sectors(file, k, skip, want, events) == Some(None::<Seq<u8>>),
    decreases events.len(),
{
    if i > 0 {
        let block = events[0].reply->Block_0;
        let n = if want < block.len() - skip {
            want
        } else {
            block.len() - skip
        };
        let rest = events.drop_first();
        assert(rest[i - 1] == events[i]);
        lemma_failed_request(file, k + 1, 0, want - n, rest, i - 1);
    }
}

/// A disk whose sectors have no bytes cannot be read from.
pub proof fn law_no_bytes_no_read(file: TrFile, offset: int, size: int)
    requires
        0 <= offset < file.len_bytes,
    ensures
        read_file(file, 0, offset, size, Seq::empty()) == Some(None::<Seq<u8>>),
{
}

/// The blocks that were given, put together.
pub open spec fn blocks_of(events: Seq<ReadEvent>) -> Seq<u8>
    decreases events.len(),
{
    if events.len() == 0 {
        Seq::empty()
    } else {
        events[0].reply->Block_0 + blocks_of(events.drop_first())
    }
}

/// A read takes the blocks of a file as they come, one behind the other, however long
/// they are: it gives out what they hold behind the bytes that are passed over, as far as
/// it is wanted.
pub proof fn law_blocks_are_taken_as_they_come(
    file: TrFile,
    k: int,
    skip: int,
    want: int,
    events: Seq<ReadEvent>,
    bytes: Seq<u8>,
)
    requires
        0 <= skip,
        0 <= want,
        events.len() > 0,
        read_sectors(file, k, skip, want, events) == Some(Some(bytes)),
    ensures
        bytes.len() <= want,
        skip + bytes.len() <= blocks_of(events).len(),
        bytes == blocks_of(events).subrange(skip, skip + bytes.len()),
        bytes.len() < want ==> skip + bytes.len() == blocks_of(events).len() && k + events.len()
            >= file.sector_count,
    decreases events.len(),
{
    let block = events[0].reply->Block_0;
    let rest = events.drop_first();
    let n = if want < block.len() - skip {
        want
    } else {
        block.len() - skip
    };
    let more = (read_sectors(file, k + 1, 0, want - n, rest)->0)->0;
    assert(bytes == block.subrange(skip, skip + n) + more);
    if rest.len() > 0 {
        law_blocks_are_taken_as_they_come(file, k + 1, 0, want - n, rest, more);
        let all = blocks_of(rest);
        assert(more == all.subrange(0, more.len() as int));
        assert(bytes =~= blocks_of(events).subrange(skip, skip + bytes.len()));
    } else {
        assert(more =~= Seq::<u8>::empty());
        assert(blocks_of(rest) =~= Seq::<u8>::empty());
        assert(bytes =~= blocks_of(events).subrange(skip, skip + bytes.len()));
    }
}

/// The root lists every file once, in the order of the disk and under its name and number,
/// and the file that stands on no disk behind them; nothing else can be listed.
pub proof fn law_root_lists_all(files: Seq<TrFile>, ino: u64, i: int)
    requires
        3 + files.len() <= u64::MAX,
        0 <= i < files.len(),
    ensures
        ino != 1 ==> trdos_listing(files, ino) is None,
        trdos_listing(files, 1) matches Some(v) && {
            &&& v.len() == files.len() + 1
            &&& v[i].name == files[i].name && v[i].ino == 3 + i && v[i].kind == FileKind::File
            &&& v.last().name == ".metadata_never_index"@ && v.last().ino == 2 && v.last().kind
                == FileKind::File
        },
{
}

} // verus!
