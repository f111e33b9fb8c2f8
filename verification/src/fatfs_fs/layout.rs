//! What a FAT volume must hold so that a request for it ends.
//!
//! `fatfs` follows the chains of clusters that it finds, and computes with the numbers
//! of the boot sector in 32 bits. So a directory whose chain leads back into itself
//! would be read for ever, and numbers that do not fit would overflow. What a request
//! does not come to may hold anything, and so may a boot sector that is refused.

use crate::bytes::u16_at;
use crate::bytes::u32_at;
use vstd::prelude::*;

verus! {

/// The numbers up to which `fatfs` counts in 32 bits.
pub open spec fn fits_32(n: int) -> bool {
    0 <= n < 0x1_0000_0000
}

/// The numbers of a boot sector.
pub struct Boot {
    pub bytes_per_sector: int,
    pub sectors_per_cluster: int,
    pub reserved: int,
    pub fats: int,
    pub root_entries: int,
    pub total_16: int,
    pub fat_size_16: int,
    pub total_32: int,
    /// The rest counts for FAT32 only.
    pub fat_size_32: int,
    pub flags: int,
    pub version: int,
    pub root_cluster: int,
    pub info_sector: int,
    pub backup_sector: int,
}

pub open spec fn boot_of(b: Seq<u8>) -> Boot {
    Boot {
        bytes_per_sector: u16_at(b, 0x0B),
        sectors_per_cluster: b[0x0D] as int,
        reserved: u16_at(b, 0x0E),
        fats: b[0x10] as int,
        root_entries: u16_at(b, 0x11),
        total_16: u16_at(b, 0x13),
        fat_size_16: u16_at(b, 0x16),
        total_32: u32_at(b, 0x20),
        fat_size_32: u32_at(b, 0x24),
        flags: u16_at(b, 0x28),
        version: u16_at(b, 0x2A),
        root_cluster: u32_at(b, 0x2C),
        info_sector: u16_at(b, 0x30),
        backup_sector: u16_at(b, 0x32),
    }
}

/// How wide the entries of the table are.
pub enum Width {
    Fat12,
    Fat16,
    Fat32,
}

impl Boot {
    pub open spec fn is_fat32(self) -> bool {
        self.fat_size_16 == 0
    }

    /// Whether the numbers pass the first tests, those before any is computed with.
    pub open spec fn plausible(self) -> bool {
        let bps = self.bytes_per_sector;
        let spc = self.sectors_per_cluster;
        &&& bps == 512 || bps == 1024 || bps == 2048 || bps == 4096
        &&& spc == 1 || spc == 2 || spc == 4 || spc == 8 || spc == 16 || spc == 32 || spc == 64
            || spc == 128
        &&& self.reserved >= 1
        &&& self.fats >= 1
        &&& self.root_entries == 0 <==> self.is_fat32()
        &&& self.is_fat32() ==> self.total_16 == 0 && self.fat_size_32 != 0 && self.version == 0
        &&& self.total_16 == 0 <==> self.total_32 != 0
    }

    pub open spec fn fat_size(self) -> int {
        if self.is_fat32() {
            self.fat_size_32
        } else {
            self.fat_size_16
        }
    }

    pub open spec fn root_sectors(self) -> int {
        (self.root_entries * 32 + self.bytes_per_sector - 1) / self.bytes_per_sector
    }

    pub open spec fn first_data_sector(self) -> int {
        self.reserved + self.fats * self.fat_size() + self.root_sectors()
    }

    /// The first sector of the table in use.
    pub open spec fn table_sector(self) -> int {
        if self.is_fat32() && self.flags / 0x80 % 2 == 1 {
            self.reserved + self.flags % 0x10 * self.fat_size()
        } else {
            self.reserved
        }
    }

    pub open spec fn total(self) -> int {
        if self.total_16 == 0 {
            self.total_32
        } else {
            self.total_16
        }
    }

    pub open spec fn clusters(self) -> int {
        (self.total() - self.first_data_sector()) / self.sectors_per_cluster
    }

    pub open spec fn width(self) -> Width {
        if self.clusters() < 4085 {
            Width::Fat12
        } else if self.clusters() < 65525 {
            Width::Fat16
        } else {
            Width::Fat32
        }
    }

    /// Whether the numbers agree with one another.
    pub open spec fn consistent(self) -> bool {
        &&& self.total() > self.first_data_sector()
        &&& self.is_fat32() ==> self.backup_sector < self.reserved && self.info_sector
            < self.reserved
        &&& self.width() is Fat32 <==> self.is_fat32()
        &&& self.clusters() < 0x1000_0000
    }

    /// Whether the place and the size of the table can be computed.
    pub open spec fn table_fits(self) -> bool {
        fits_32(self.table_sector()) && fits_32(self.fat_size() * self.bytes_per_sector * 8)
    }

    pub open spec fn cluster_bytes(self) -> int {
        self.sectors_per_cluster * self.bytes_per_sector
    }

    /// The first sector of a cluster.
    pub open spec fn cluster_sector(self, c: int) -> int {
        self.first_data_sector() + (c - 2) * self.sectors_per_cluster
    }

    /// The first byte of a cluster.
    pub open spec fn cluster_at(self, c: int) -> int {
        self.cluster_sector(c) * self.bytes_per_sector
    }

    pub open spec fn records_per_cluster(self) -> nat {
        (self.cluster_bytes() / 32) as nat
    }

    /// The clusters of a directory whose bytes can be counted in 32 bits.
    pub open spec fn longest_dir(self) -> nat {
        (0xFFFF_FFFFint / self.cluster_bytes()) as nat
    }

    /// Where the root directory begins, with 12 or 16 bits to an entry.
    pub open spec fn root_at(self) -> int {
        (self.first_data_sector() - self.root_sectors()) * self.bytes_per_sector
    }

    /// The records of the root directory, with 12 or 16 bits to an entry.
    pub open spec fn root_records(self) -> nat {
        (self.root_sectors() * self.bytes_per_sector / 32) as nat
    }

    /// Whether the place of a cluster, and of its entry in the table, can be computed.
    pub open spec fn has_place(self, c: int) -> bool {
        c >= 2 && fits_32(4 * c) && fits_32(self.cluster_sector(c))
    }
}

/// The cluster behind `c` in its chain, as the table has it; `None` at the end of the
/// chain, and where the table has no such entry.
pub open spec fn next_cluster(b: Seq<u8>, c: int) -> Option<int> {
    let boot = boot_of(b);
    let table = boot.table_sector() * boot.bytes_per_sector;
    let len = boot.fat_size() * boot.bytes_per_sector;
    let (at, size) = match boot.width() {
        Width::Fat12 => (c + c / 2, 2int),
        Width::Fat16 => (2 * c, 2int),
        Width::Fat32 => (4 * c, 4int),
    };
    if at + size > len || table + at + size > b.len() || 0x0FFF_FFF7 <= c < 0x1000_0000 {
        None
    } else {
        let (value, limit) = match boot.width() {
            Width::Fat12 => (
                if c % 2 == 0 {
                    u16_at(b, table + at) % 0x1000
                } else {
                    u16_at(b, table + at) / 0x10
                },
                0xFF7int,
            ),
            Width::Fat16 => (u16_at(b, table + at), 0xFFF7int),
            Width::Fat32 => (u32_at(b, table + at) % 0x1000_0000, 0x0FFF_FFF7int),
        };
        if value == 0 || value >= limit {
            None
        } else {
            Some(value)
        }
    }
}

/// Whether a directory goes on at the record at `p`: it is there, and does not end it.
pub open spec fn goes_on(b: Seq<u8>, p: int) -> bool {
    p + 32 <= b.len() && b[p] != 0
}

/// How many of the `n` records from `at` on stand before the end of their directory.
pub open spec fn live_count(b: Seq<u8>, at: int, n: nat) -> nat
    decreases n,
{
    if n == 0 {
        0
    } else {
        let before = live_count(b, at, (n - 1) as nat);
        if before == n - 1 && goes_on(b, at + 32 * (n - 1)) {
            n
        } else {
            before
        }
    }
}

/// Where these records stand.
pub open spec fn live_records(b: Seq<u8>, at: int, n: nat) -> Seq<int> {
    Seq::new(live_count(b, at, n), |i: int| at + 32 * i)
}

/// The first cluster that the record at `p` names, 0 where it names none.
pub open spec fn named_cluster(b: Seq<u8>, p: int) -> int {
    u16_at(b, p + 26) + if boot_of(b).is_fat32() {
        0x1_0000 * u16_at(b, p + 20)
    } else {
        0
    }
}

/// Whether the record at `p` stands for a file or a directory: it was not removed, and
/// is neither a part of a long name nor the name of the volume.
pub open spec fn names_node(b: Seq<u8>, p: int) -> bool {
    b[p] != 0xE5 && b[p + 11] / 8 % 2 == 0
}

pub open spec fn names_dir(b: Seq<u8>, p: int) -> bool {
    b[p + 11] / 0x10 % 2 == 1
}

/// Whether the record at `p` is a part of a long name.
pub open spec fn is_long(b: Seq<u8>, p: int) -> bool {
    b[p + 11] % 0x10 == 0x0F
}

/// The records of the directory whose chain goes on at cluster `c`, where it ends
/// within `n` clusters, and each of them has a place.
pub open spec fn chain_records(b: Seq<u8>, c: int, n: nat) -> Option<Seq<int>>
    decreases n,
{
    let boot = boot_of(b);
    if n == 0 || !boot.has_place(c) {
        None
    } else {
        let here = live_records(b, boot.cluster_at(c), boot.records_per_cluster());
        if here.len() < boot.records_per_cluster() {
            Some(here)
        } else {
            match next_cluster(b, c) {
                None => Some(here),
                Some(d) => match chain_records(b, d, (n - 1) as nat) {
                    None => None,
                    Some(more) => Some(here + more),
                },
            }
        }
    }
}

/// The records of the directory that begins at cluster `d`, where it can be read to
/// its end; 0 stands for the root directory.
pub open spec fn dir_records(b: Seq<u8>, d: int) -> Option<Seq<int>> {
    let boot = boot_of(b);
    if d != 0 {
        chain_records(b, d, boot.longest_dir())
    } else if boot.is_fat32() {
        chain_records(b, boot.root_cluster, boot.longest_dir())
    } else {
        Some(live_records(b, boot.root_at(), boot.root_records()))
    }
}

/// The cluster behind `n` others in a chain.
pub open spec fn nth_cluster(b: Seq<u8>, c: int, n: nat) -> Option<int>
    decreases n,
{
    if n == 0 {
        Some(c)
    } else {
        match nth_cluster(b, c, (n - 1) as nat) {
            None => None,
            Some(d) => next_cluster(b, d),
        }
    }
}

/// Whether each cluster of the file in the record at `p` has a place, as far as its size
/// reaches. The chain may lead back into itself.
pub open spec fn file_holds(b: Seq<u8>, p: int) -> bool {
    let boot = boot_of(b);
    named_cluster(b, p) != 0 ==> forall|n: nat|
        n * boot.cluster_bytes() < u32_at(b, p + 28) ==> (#[trigger] nth_cluster(
            b,
            named_cluster(b, p),
            n,
        ) matches Some(c) ==> boot.has_place(c))
}

/// Whether the record at `p` leads to one of `dirs`, or to a file that holds.
pub open spec fn record_leads(b: Seq<u8>, p: int, dirs: Set<int>) -> bool {
    names_node(b, p) ==> if names_dir(b, p) {
        dirs.contains(named_cluster(b, p))
    } else {
        file_holds(b, p)
    }
}

/// Whether the directory `d` can be read to its end, and all its records lead so.
pub open spec fn dir_leads(b: Seq<u8>, d: int, dirs: Set<int>) -> bool {
    dir_records(b, d) matches Some(recs) && forall|i: int|
        0 <= i < recs.len() ==> record_leads(b, #[trigger] recs[i], dirs)
}

/// Whether `dirs` holds the root and all directories that those in it lead to, and each
/// can be read to its end.
pub open spec fn is_tree(b: Seq<u8>, dirs: Set<int>) -> bool {
    dirs.contains(0) && forall|d: int| #[trigger] dirs.contains(d) ==> dir_leads(b, d, dirs)
}

/// Whether the boot sector is one that `fatfs` begins to compute with.
pub open spec fn signed(b: Seq<u8>) -> bool {
    b.len() >= 512 && b[510] == 0x55 && b[511] == 0xAA && boot_of(b).plausible()
}

/// Whether the boot sector is that of a volume.
pub open spec fn is_volume(b: Seq<u8>) -> bool {
    signed(b) && boot_of(b).consistent()
}

/// Whether a volume with these bytes can be opened or refused: its boot sector is
/// refused at once, or its numbers fit.
pub open spec fn sound_boot(b: Seq<u8>) -> bool {
    let boot = boot_of(b);
    signed(b) ==> {
        &&& fits_32(boot.first_data_sector())
        &&& boot.consistent() ==> boot.table_fits()
    }
}

/// Whether all of a volume with these bytes can be read to its end.
pub open spec fn sound_volume(b: Seq<u8>) -> bool {
    &&& sound_boot(b)
    &&& is_volume(b) ==> exists|dirs: Set<int>| #[trigger] is_tree(b, dirs)
}

/// The bytes of a name without the blanks behind them.
pub open spec fn unpadded(s: Seq<u8>) -> Seq<u8>
    decreases s.len(),
{
    if s.len() > 0 && s.last() == 0x20 {
        unpadded(s.drop_last())
    } else {
        s
    }
}

/// The short name in the record at `p`.
pub open spec fn short_name(b: Seq<u8>, p: int) -> Seq<u8> {
    let base = unpadded(b.subrange(p, p + 8));
    let ext = unpadded(b.subrange(p + 8, p + 11));
    if ext.len() > 0 {
        base.push(0x2E) + ext
    } else {
        base
    }
}

/// An ASCII character as a capital.
pub open spec fn capital(c: int) -> int {
    if 0x61 <= c <= 0x7A {
        c - 0x20
    } else {
        c
    }
}

/// Whether a directory may have the entry `name` in its record `i`: the short name is
/// that, whatever the case of its letters. A record with a long name before it counts
/// as every name, and a name beyond ASCII as that of every record.
pub open spec fn may_be(b: Seq<u8>, recs: Seq<int>, i: int, name: Seq<char>) -> bool {
    let short = short_name(b, recs[i]);
    ||| i > 0 && is_long(b, recs[i - 1])
    ||| exists|k: int| 0 <= k < name.len() && (#[trigger] name[k]) as int >= 0x80
    ||| short.len() == name.len() && forall|k: int|
        0 <= k < name.len() ==> capital(short[k] as int) == capital((#[trigger] name[k]) as int)
}

/// A path without the slashes around it.
pub open spec fn stripped(path: Seq<char>) -> Seq<char>
    decreases path.len(),
{
    if path.len() > 0 && path[0] == '/' {
        stripped(path.drop_first())
    } else if path.len() > 0 && path.last() == '/' {
        stripped(path.drop_last())
    } else {
        path
    }
}

/// Where the first slash of a path stands; its length where there is none.
pub open spec fn first_slash(path: Seq<char>) -> int
    decreases path.len(),
{
    if path.len() == 0 || path[0] == '/' {
        0
    } else {
        1 + first_slash(path.drop_first())
    }
}

/// The first name of a path.
pub open spec fn first_name(path: Seq<char>) -> Seq<char> {
    stripped(path).take(first_slash(stripped(path)))
}

/// What stands behind the first name of a path.
pub open spec fn behind_first(path: Seq<char>) -> Option<Seq<char>> {
    let p = stripped(path);
    if first_slash(p) < p.len() {
        Some(p.skip(first_slash(p) + 1))
    } else {
        None
    }
}

/// To strip a path makes it no longer.
pub proof fn lemma_stripped_len(path: Seq<char>)
    ensures
        stripped(path).len() <= path.len(),
    decreases path.len(),
{
    if path.len() > 0 && path[0] == '/' {
        lemma_stripped_len(path.drop_first());
    } else if path.len() > 0 && path.last() == '/' {
        lemma_stripped_len(path.drop_last());
    }
}

/// The first slash stands in the path, or at its end.
pub proof fn lemma_first_slash(path: Seq<char>)
    ensures
        0 <= first_slash(path) <= path.len(),
    decreases path.len(),
{
    if path.len() > 0 && path[0] != '/' {
        lemma_first_slash(path.drop_first());
    }
}

/// What a path is followed for.
pub enum Goal {
    Dir,
    File,
}

/// Whether a path can be followed from the directory `d` on, and what it may lead to
/// can be read: each directory on the way, and the directory or the file at its end.
pub open spec fn walk_holds(b: Seq<u8>, d: int, path: Seq<char>, goal: Goal) -> bool
    decreases path.len(),
{
    proof {
        lemma_stripped_len(path);
        lemma_first_slash(stripped(path));
    }
    dir_records(b, d) matches Some(recs) && forall|i: int|
        0 <= i < recs.len() && names_node(b, #[trigger] recs[i]) && may_be(
            b,
            recs,
            i,
            first_name(path),
        ) ==> match (behind_first(path), goal) {
            (Some(rest), _) => names_dir(b, recs[i]) ==> walk_holds(
                b,
                named_cluster(b, recs[i]),
                rest,
                goal,
            ),
            (None, Goal::Dir) => names_dir(b, recs[i]) ==> dir_records(
                b,
                named_cluster(b, recs[i]),
            ) is Some,
            (None, Goal::File) => !names_dir(b, recs[i]) ==> file_holds(b, recs[i]),
        }
}

/// Whether the directory at `path` can be listed; the root has the empty path.
pub open spec fn list_holds(b: Seq<u8>, path: Seq<char>) -> bool {
    if path.len() == 0 {
        dir_records(b, 0) is Some
    } else {
        walk_holds(b, 0, path, Goal::Dir)
    }
}

/// Whether the file at `path` can be read.
pub open spec fn read_holds(b: Seq<u8>, path: Seq<char>) -> bool {
    walk_holds(b, 0, path, Goal::File)
}

/// In a volume that can be read to its end every path can be followed.
proof fn lemma_tree_is_walked(
    b: Seq<u8>,
    dirs: Set<int>,
    d: int,
    path: Seq<char>,
    goal: Goal,
)
    requires
        is_tree(b, dirs),
        dirs.contains(d),
    ensures
        walk_holds(b, d, path, goal),
    decreases path.len(),
{
    assert(dir_leads(b, d, dirs));
    let recs = dir_records(b, d)->0;
    lemma_stripped_len(path);
    lemma_first_slash(stripped(path));
    assert forall|i: int|
        0 <= i < recs.len() && names_node(b, #[trigger] recs[i]) && may_be(
            b,
            recs,
            i,
            first_name(path),
        ) implies match (behind_first(path), goal) {
        (Some(rest), _) => names_dir(b, recs[i]) ==> walk_holds(
            b,
            named_cluster(b, recs[i]),
            rest,
            goal,
        ),
        (None, Goal::Dir) => names_dir(b, recs[i]) ==> dir_records(
            b,
            named_cluster(b, recs[i]),
        ) is Some,
        (None, Goal::File) => !names_dir(b, recs[i]) ==> file_holds(b, recs[i]),
    } by {
        assert(record_leads(b, recs[i], dirs));
        if names_dir(b, recs[i]) {
            assert(dir_leads(b, named_cluster(b, recs[i]), dirs));
            if let Some(rest) = behind_first(path) {
                lemma_tree_is_walked(b, dirs, named_cluster(b, recs[i]), rest, goal);
            }
        }
    }
}

/// On a volume that can be read to its end every directory can be listed, and every
/// file read.
pub proof fn law_sound_volume_is_served(b: Seq<u8>, path: Seq<char>)
    requires
        sound_volume(b),
        is_volume(b),
    ensures
        list_holds(b, path),
        read_holds(b, path),
{
    let dirs = choose|dirs: Set<int>| #[trigger] is_tree(b, dirs);
    assert(dir_leads(b, 0, dirs));
    lemma_tree_is_walked(b, dirs, 0, path, Goal::Dir);
    lemma_tree_is_walked(b, dirs, 0, path, Goal::File);
}

/// The numbers of a volume with 12 or 16 bits to an entry always fit.
pub proof fn law_small_volumes_fit(b: Seq<u8>)
    requires
        boot_of(b).plausible(),
        !boot_of(b).is_fat32(),
    ensures
        fits_32(boot_of(b).first_data_sector()),
        boot_of(b).table_fits(),
{
    let boot = boot_of(b);
    let (fats, size, bps) = (boot.fats, boot.fat_size(), boot.bytes_per_sector);
    let root = boot.root_entries * 32 + bps - 1;
    assert(0 <= fats * size <= 0xFF * 0xFFFF) by (nonlinear_arith)
        requires
            0 <= fats <= 0xFF,
            0 <= size <= 0xFFFF,
    ;
    assert(0 <= size * bps <= 0xFFFF * 4096) by (nonlinear_arith)
        requires
            0 <= size <= 0xFFFF,
            0 <= bps <= 4096,
    ;
    assert(0 <= root / bps <= root) by (nonlinear_arith)
        requires
            0 <= root,
            1 <= bps,
    ;
}

} // verus!
