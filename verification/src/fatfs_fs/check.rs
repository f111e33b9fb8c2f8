//! Whether a FAT volume can be read to its end.

use super::layout::boot_of;
use super::layout::chain_records;
use super::layout::dir_leads;
use super::layout::dir_records;
use super::layout::file_holds;
use super::layout::goes_on;
use super::layout::is_tree;
use super::layout::is_volume;
use super::layout::live_count;
use super::layout::live_records;
use super::layout::named_cluster;
use super::layout::names_dir;
use super::layout::names_node;
use super::layout::next_cluster;
use super::layout::nth_cluster;
use super::layout::record_leads;
use super::layout::sound_boot;
use super::layout::sound_volume;
use super::layout::Boot;
use crate::bytes::u16_le;
use crate::bytes::u32_le;
use vstd::prelude::*;

verus! {

/// The numbers of a boot sector.
struct Numbers {
    bytes_per_sector: u16,
    sectors_per_cluster: u8,
    reserved: u16,
    fats: u8,
    root_entries: u16,
    total_16: u16,
    fat_size_16: u16,
    total_32: u32,
    fat_size_32: u32,
    flags: u16,
    version: u16,
    root_cluster: u32,
    info_sector: u16,
    backup_sector: u16,
}

impl View for Numbers {
    type V = Boot;

    closed spec fn view(&self) -> Boot {
        Boot {
            bytes_per_sector: self.bytes_per_sector as int,
            sectors_per_cluster: self.sectors_per_cluster as int,
            reserved: self.reserved as int,
            fats: self.fats as int,
            root_entries: self.root_entries as int,
            total_16: self.total_16 as int,
            fat_size_16: self.fat_size_16 as int,
            total_32: self.total_32 as int,
            fat_size_32: self.fat_size_32 as int,
            flags: self.flags as int,
            version: self.version as int,
            root_cluster: self.root_cluster as int,
            info_sector: self.info_sector as int,
            backup_sector: self.backup_sector as int,
        }
    }
}

impl Numbers {
    fn read(b: &[u8]) -> (r: Numbers)
        requires
            b.len() >= 512,
        ensures
            r@ == boot_of(b@),
    {
        Numbers {
            bytes_per_sector: u16_le(b, 0x0B),
            sectors_per_cluster: b[0x0D],
            reserved: u16_le(b, 0x0E),
            fats: b[0x10],
            root_entries: u16_le(b, 0x11),
            total_16: u16_le(b, 0x13),
            fat_size_16: u16_le(b, 0x16),
            total_32: u32_le(b, 0x20),
            fat_size_32: u32_le(b, 0x24),
            flags: u16_le(b, 0x28),
            version: u16_le(b, 0x2A),
            root_cluster: u32_le(b, 0x2C),
            info_sector: u16_le(b, 0x30),
            backup_sector: u16_le(b, 0x32),
        }
    }

    fn plausible(&self) -> (r: bool)
        ensures
            r == self@.plausible(),
    {
        let bps: u16 = self.bytes_per_sector;
        let spc: u8 = self.sectors_per_cluster;
        let fat32: bool = self.fat_size_16 == 0;
        (bps == 512 || bps == 1024 || bps == 2048 || bps == 4096) && (spc == 1 || spc == 2 || spc
            == 4 || spc == 8 || spc == 16 || spc == 32 || spc == 64 || spc == 128) && self.reserved
            >= 1 && self.fats >= 1 && (self.root_entries == 0) == fat32 && (!fat32 || self.total_16
            == 0 && self.fat_size_32 != 0 && self.version == 0) && (self.total_16 == 0) == (
        self.total_32 != 0)
    }

    fn fat_size(&self) -> (r: u64)
        ensures
            r == self@.fat_size(),
            r <= u32::MAX,
    {
        if self.fat_size_16 == 0 {
            self.fat_size_32 as u64
        } else {
            self.fat_size_16 as u64
        }
    }

    fn root_sectors(&self) -> (r: u64)
        requires
            self@.plausible(),
        ensures
            r == self@.root_sectors(),
            r <= 0x1_0000,
    {
        let bps: u64 = self.bytes_per_sector as u64;
        let bytes: u64 = self.root_entries as u64 * 32 + bps - 1;
        assert(bytes / bps <= 0x1_0000) by (nonlinear_arith)
            requires
                512 <= bps,
                bytes <= 0x20_0000 + 4096,
        ;
        bytes / bps
    }

    fn first_data_sector(&self) -> (r: u64)
        requires
            self@.plausible(),
        ensures
            r == self@.first_data_sector(),
            r <= 0x200_0000_0000,
    {
        let size: u64 = self.fat_size();
        let fats: u64 = self.fats as u64;
        assert(0 <= fats * size <= 0x100 * 0x1_0000_0000) by (nonlinear_arith)
            requires
                fats <= 0xFF,
                size <= 0xFFFF_FFFF,
        ;
        self.reserved as u64 + fats * size + self.root_sectors()
    }

    fn table_sector(&self) -> (r: u64)
        ensures
            r == self@.table_sector(),
            r <= 0x20_0000_0000,
    {
        let size: u64 = self.fat_size();
        if self.fat_size_16 == 0 && self.flags / 0x80 % 2 == 1 {
            let n: u64 = (self.flags % 0x10) as u64;
            assert(0 <= n * size <= 0x10 * 0x1_0000_0000) by (nonlinear_arith)
                requires
                    n <= 0x0F,
                    size <= 0xFFFF_FFFF,
            ;
            self.reserved as u64 + n * size
        } else {
            self.reserved as u64
        }
    }

    fn total(&self) -> (r: u64)
        ensures
            r == self@.total(),
            r <= u32::MAX,
    {
        if self.total_16 == 0 {
            self.total_32 as u64
        } else {
            self.total_16 as u64
        }
    }

    /// The clusters, where there is a sector for one.
    fn clusters(&self) -> (r: u64)
        requires
            self@.plausible(),
            self@.total() > self@.first_data_sector(),
        ensures
            r == self@.clusters(),
    {
        (self.total() - self.first_data_sector()) / self.sectors_per_cluster as u64
    }

    fn consistent(&self) -> (r: bool)
        requires
            self@.plausible(),
        ensures
            r == self@.consistent(),
    {
        if self.total() <= self.first_data_sector() {
            return false;
        }
        let fat32: bool = self.fat_size_16 == 0;
        let clusters: u64 = self.clusters();
        (!fat32 || self.backup_sector < self.reserved && self.info_sector < self.reserved) && (
        clusters >= 65525) == fat32 && clusters < 0x1000_0000
    }

    fn table_fits(&self) -> (r: bool)
        requires
            self@.plausible(),
        ensures
            r == self@.table_fits(),
    {
        let size: u64 = self.fat_size();
        let bps: u64 = self.bytes_per_sector as u64;
        assert(0 <= size * bps <= 0x1_0000_0000 * 4096) by (nonlinear_arith)
            requires
                size <= 0xFFFF_FFFF,
                bps <= 4096,
        ;
        self.table_sector() < 0x1_0000_0000 && size * bps * 8 < 0x1_0000_0000
    }
}

/// Where the parts of a volume stand.
struct Places {
    bytes_per_sector: u64,
    sectors_per_cluster: u64,
    first_data_sector: u64,
    cluster_bytes: u64,
    /// The first byte of the table, and its bytes.
    table: u64,
    table_len: u64,
    fat32: bool,
    /// Whether an entry of the table has 12 bits.
    narrow: bool,
    root_cluster: u64,
    root_at: u64,
    root_records: u64,
}

impl Places {
    /// Whether these are the parts of the volume with the bytes `b`.
    spec fn of(&self, b: Seq<u8>) -> bool {
        let boot = boot_of(b);
        &&& is_volume(b)
        &&& self.bytes_per_sector == boot.bytes_per_sector <= 4096
        &&& 512 <= self.bytes_per_sector
        &&& 1 <= self.sectors_per_cluster == boot.sectors_per_cluster <= 128
        &&& self.first_data_sector == boot.first_data_sector() < 0x1_0000_0000
        &&& self.cluster_bytes == boot.cluster_bytes()
        &&& 512 <= self.cluster_bytes <= 0x8_0000
        &&& self.cluster_bytes % 32 == 0
        &&& self.table == boot.table_sector() * boot.bytes_per_sector
        &&& self.table <= 0x1_0000_0000 * 4096
        &&& self.table_len == boot.fat_size() * boot.bytes_per_sector < 0x1_0000_0000
        &&& self.fat32 == boot.is_fat32()
        &&& self.narrow == (boot.width() is Fat12)
        &&& self.root_cluster == boot.root_cluster < 0x1_0000_0000
        &&& self.root_at == boot.root_at() <= 0x1_0000_0000 * 4096
        &&& self.root_records == boot.root_records() <= 0x100_0000
    }

    fn new(b: &[u8], n: &Numbers) -> (r: Places)
        requires
            n@ == boot_of(b@),
            is_volume(b@),
            sound_boot(b@),
        ensures
            r.of(b@),
    {
        let bps: u64 = n.bytes_per_sector as u64;
        let spc: u64 = n.sectors_per_cluster as u64;
        let first: u64 = n.first_data_sector();
        let root_sectors: u64 = n.root_sectors();
        let table_sector: u64 = n.table_sector();
        let size: u64 = n.fat_size();
        let clusters: u64 = n.clusters();
        proof {
            let boot = boot_of(b@);
            assert(boot.fats * boot.fat_size() >= 0) by (nonlinear_arith)
                requires
                    boot.fats >= 0,
                    boot.fat_size() >= 0,
            ;
            let q = bps as int / 32;
            assert(512 <= spc * bps <= 0x8_0000 && spc * bps == 32 * (spc * q)) by (nonlinear_arith)
                requires
                    1 <= spc <= 128,
                    512 <= bps <= 4096,
                    bps == 32 * q,
            ;
            assert(0 <= table_sector * bps <= 0x1_0000_0000 * 4096) by (nonlinear_arith)
                requires
                    table_sector < 0x1_0000_0000,
                    bps <= 4096,
            ;
            assert(0 <= size * bps) by (nonlinear_arith)
                requires
                    0 <= size,
                    0 <= bps,
            ;
            assert(0 <= (first - root_sectors) * bps <= 0x1_0000_0000 * 4096) by (nonlinear_arith)
                requires
                    0 <= first - root_sectors < 0x1_0000_0000,
                    0 <= bps <= 4096,
            ;
            assert(0 <= root_sectors * bps <= 0x1_0000 * 4096) by (nonlinear_arith)
                requires
                    root_sectors <= 0x1_0000,
                    bps <= 4096,
            ;
        }
        Places {
            bytes_per_sector: bps,
            sectors_per_cluster: spc,
            first_data_sector: first,
            cluster_bytes: spc * bps,
            table: table_sector * bps,
            table_len: size * bps,
            fat32: n.fat_size_16 == 0,
            narrow: clusters < 4085,
            root_cluster: n.root_cluster as u64,
            root_at: (first - root_sectors) * bps,
            root_records: root_sectors * bps / 32,
        }
    }

    fn has_place(&self, Ghost(b): Ghost<Seq<u8>>, c: u64) -> (r: bool)
        requires
            self.of(b),
            c < 0x1_0000_0000,
        ensures
            r == boot_of(b).has_place(c as int),
    {
        if c < 2 || 4 * c >= 0x1_0000_0000 {
            return false;
        }
        let spc: u64 = self.sectors_per_cluster;
        assert(0 <= (c - 2) * spc <= 0x4000_0000 * 128) by (nonlinear_arith)
            requires
                2 <= c <= 0x4000_0000,
                1 <= spc <= 128,
        ;
        self.first_data_sector + (c - 2) * spc < 0x1_0000_0000
    }

    /// The first byte of a cluster that has a place.
    fn cluster_at(&self, Ghost(b): Ghost<Seq<u8>>, c: u64) -> (r: u64)
        requires
            self.of(b),
            boot_of(b).has_place(c as int),
        ensures
            r == boot_of(b).cluster_at(c as int),
            r <= 0x1_0000_0000 * 4096,
    {
        let spc: u64 = self.sectors_per_cluster;
        let bps: u64 = self.bytes_per_sector;
        assert(0 <= (c - 2) * spc) by (nonlinear_arith)
            requires
                2 <= c,
                1 <= spc,
        ;
        let ghost sector = boot_of(b).cluster_sector(c as int);
        assert(0 <= sector * bps <= 0x1_0000_0000 * 4096) by (nonlinear_arith)
            requires
                0 <= sector < 0x1_0000_0000,
                0 <= bps <= 4096,
        ;
        (self.first_data_sector + (c - 2) * spc) * bps
    }

    /// The cluster behind one that has a place.
    fn next_cluster(&self, b: &[u8], c: u64) -> (r: Option<u64>)
        requires
            self.of(b@),
            boot_of(b@).has_place(c as int),
        ensures
            match next_cluster(b@, c as int) {
                None => r is None,
                Some(d) => r == Some(d as u64) && 0 < d < 0x1000_0000,
            },
    {
        let (at, size): (u64, u64) = if self.narrow {
            (c + c / 2, 2)
        } else if self.fat32 {
            (4 * c, 4)
        } else {
            (2 * c, 2)
        };
        if at + size > self.table_len || self.table + at + size > b.len() as u64 || 0x0FFF_FFF7 <= c
            && c < 0x1000_0000 {
            return None;
        }
        let p: usize = (self.table + at) as usize;
        let (value, limit): (u64, u64) = if self.narrow {
            let packed: u16 = u16_le(b, p);
            (
                if c % 2 == 0 {
                    (packed % 0x1000) as u64
                } else {
                    (packed / 0x10) as u64
                },
                0xFF7,
            )
        } else if self.fat32 {
            ((u32_le(b, p) % 0x1000_0000) as u64, 0x0FFF_FFF7)
        } else {
            (u16_le(b, p) as u64, 0xFFF7)
        };
        if value == 0 || value >= limit {
            None
        } else {
            Some(value)
        }
    }

    /// Counts the records before the end of a directory.
    fn live_count(b: &[u8], at: u64, n: u64) -> (r: u64)
        requires
            at <= 0x1_0000_0000 * 4096,
            n <= 0x100_0000,
        ensures
            r == live_count(b@, at as int, n as nat),
            r <= n,
    {
        let mut i: u64 = 0;
        while i < n
            invariant
                at <= 0x1_0000_0000 * 4096,
                i <= n <= 0x100_0000,
                live_count(b@, at as int, i as nat) == i,
            decreases n - i,
        {
            let p: u64 = at + 32 * i;
            if p + 32 > b.len() as u64 || b[p as usize] == 0 {
                proof {
                    lemma_live_ends(b@, at as int, i as nat, n as nat);
                }
                return i;
            }
            i = i + 1;
        }
        n
    }
}

/// Behind the end of a directory no record counts.
proof fn lemma_live_ends(b: Seq<u8>, at: int, i: nat, n: nat)
    requires
        i < n,
        live_count(b, at, i) == i,
        !goes_on(b, at + 32 * i),
    ensures
        live_count(b, at, n) == i,
    decreases n,
{
    if n > i + 1 {
        lemma_live_ends(b, at, i, (n - 1) as nat);
    }
}

proof fn lemma_live_goes_on(b: Seq<u8>, at: int, n: nat, i: int)
    requires
        0 <= i < live_count(b, at, n),
    ensures
        goes_on(b, at + 32 * i),
        live_count(b, at, n) <= n,
    decreases n,
{
    lemma_live_bound(b, at, n);
    if n > 0 {
        lemma_live_bound(b, at, (n - 1) as nat);
        if i < live_count(b, at, (n - 1) as nat) {
            lemma_live_goes_on(b, at, (n - 1) as nat, i);
        }
    }
}

proof fn lemma_live_bound(b: Seq<u8>, at: int, n: nat)
    ensures
        live_count(b, at, n) <= n,
    decreases n,
{
    if n > 0 {
        lemma_live_bound(b, at, (n - 1) as nat);
    }
}

/// Where records stand.
spec fn places(v: Seq<u64>) -> Seq<int> {
    Seq::new(v.len(), |i: int| v[i] as int)
}

/// Whether all of these records are there.
spec fn all_there(b: Seq<u8>, v: Seq<u64>) -> bool {
    forall|i: int| 0 <= i < v.len() ==> goes_on(b, (#[trigger] v[i]) as int)
}

/// Adds the records before the end of a directory to `out`.
fn add_live(b: &[u8], at: u64, n: u64, out: &mut Vec<u64>)
    requires
        at <= 0x1_0000_0000 * 4096,
        n <= 0x100_0000,
        all_there(b@, old(out)@),
    ensures
        places(final(out)@) == places(old(out)@) + live_records(b@, at as int, n as nat),
        all_there(b@, final(out)@),
{
    let count: u64 = Places::live_count(b, at, n);
    let mut i: u64 = 0;
    let ghost target = live_records(b@, at as int, n as nat);
    assert(places(out@) =~= places(old(out)@) + target.take(0));
    while i < count
        invariant
            at <= 0x1_0000_0000 * 4096,
            i <= count <= n <= 0x100_0000,
            count == live_count(b@, at as int, n as nat),
            target == live_records(b@, at as int, n as nat),
            places(out@) == places(old(out)@) + target.take(i as int),
            all_there(b@, out@),
        decreases count - i,
    {
        let ghost had = out@;
        let p: u64 = at + 32 * i;
        out.push(p);
        proof {
            lemma_live_goes_on(b@, at as int, n as nat, i as int);
            assert(target[i as int] == p);
            assert(places(out@) =~= places(had).push(p as int));
            assert(target.take(i + 1) =~= target.take(i as int).push(p as int));
            assert(places(out@) =~= places(old(out)@) + target.take(i + 1));
        }
        i = i + 1;
    }
    assert(target.take(i as int) =~= target);
}

impl Places {
    /// The clusters of a directory whose bytes can be counted in 32 bits.
    fn longest_dir(&self, Ghost(b): Ghost<Seq<u8>>) -> (r: u64)
        requires
            self.of(b),
        ensures
            r == boot_of(b).longest_dir(),
    {
        let bytes: u64 = self.cluster_bytes;
        assert(0xFFFF_FFFFint / (bytes as int) >= 0) by (nonlinear_arith)
            requires
                bytes > 0,
        ;
        0xFFFF_FFFF / bytes
    }

    /// Whether the directory whose chain begins at cluster `first` can be read to its
    /// end.
    fn chain_ends(&self, b: &[u8], first: u64) -> (r: bool)
        requires
            self.of(b@),
            first < 0x1_0000_0000,
        ensures
            r == (chain_records(b@, first as int, boot_of(b@).longest_dir()) is Some),
    {
        let mut n: u64 = self.longest_dir(Ghost(b@));
        let mut c: u64 = first;
        let per: u64 = self.cluster_bytes / 32;
        while n > 0
            invariant
                self.of(b@),
                per == boot_of(b@).records_per_cluster() <= 0x100_0000,
                c < 0x1_0000_0000,
                (chain_records(b@, first as int, boot_of(b@).longest_dir()) is Some) == (
                chain_records(b@, c as int, n as nat) is Some),
            decreases n,
        {
            if !self.has_place(Ghost(b@), c) {
                return false;
            }
            let at: u64 = self.cluster_at(Ghost(b@), c);
            if Places::live_count(b, at, per) < per {
                return true;
            }
            match self.next_cluster(b, c) {
                None => {
                    return true;
                },
                Some(d) => {
                    c = d;
                },
            }
            n = n - 1;
        }
        false
    }

    /// The records of a directory whose chain begins at cluster `first`.
    fn chain(&self, b: &[u8], first: u64) -> (out: Vec<u64>)
        requires
            self.of(b@),
            first < 0x1_0000_0000,
            chain_records(b@, first as int, boot_of(b@).longest_dir()) is Some,
        ensures
            chain_records(b@, first as int, boot_of(b@).longest_dir()) == Some(places(out@)),
            all_there(b@, out@),
    {
        let mut n: u64 = self.longest_dir(Ghost(b@));
        let mut c: u64 = first;
        let mut out: Vec<u64> = Vec::new();
        let per: u64 = self.cluster_bytes / 32;
        let ghost whole = chain_records(b@, first as int, boot_of(b@).longest_dir())->0;
        assert(places(out@) + whole =~= whole);
        loop
            invariant
                self.of(b@),
                per == boot_of(b@).records_per_cluster() <= 0x100_0000,
                c < 0x1_0000_0000,
                chain_records(b@, c as int, n as nat) is Some,
                whole == places(out@) + chain_records(b@, c as int, n as nat)->0,
                chain_records(b@, first as int, boot_of(b@).longest_dir()) == Some(whole),
                all_there(b@, out@),
            decreases n,
        {
            let ghost had = places(out@);
            let at: u64 = self.cluster_at(Ghost(b@), c);
            let before: usize = out.len();
            add_live(b, at, per, &mut out);
            let ghost here = live_records(b@, at as int, per as nat);
            assert(places(out@).len() == had.len() + here.len());
            if ((out.len() - before) as u64) < per {
                return out;
            }
            match self.next_cluster(b, c) {
                None => {
                    return out;
                },
                Some(d) => {
                    proof {
                        let more = chain_records(b@, d as int, (n - 1) as nat)->0;
                        assert(had + (here + more) =~= had + here + more);
                    }
                    c = d;
                },
            }
            n = n - 1;
        }
    }

    /// The records of a directory, where it can be read to its end; 0 stands for the
    /// root directory.
    fn dir(&self, b: &[u8], d: u64) -> (r: Option<Vec<u64>>)
        requires
            self.of(b@),
            d < 0x1_0000_0000,
        ensures
            match dir_records(b@, d as int) {
                None => r is None,
                Some(recs) => r matches Some(v) && places(v@) == recs && all_there(b@, v@),
            },
    {
        if d == 0 && !self.fat32 {
            let mut out: Vec<u64> = Vec::new();
            add_live(b, self.root_at, self.root_records, &mut out);
            assert(places(out@) =~= live_records(
                b@,
                self.root_at as int,
                self.root_records as nat,
            ));
            return Some(out);
        }
        let first: u64 = if d == 0 {
            self.root_cluster
        } else {
            d
        };
        if self.chain_ends(b, first) {
            Some(self.chain(b, first))
        } else {
            None
        }
    }

    /// The first cluster that a record names.
    fn named_cluster(&self, b: &[u8], p: usize) -> (r: u64)
        requires
            self.of(b@),
            p + 32 <= b.len(),
        ensures
            r == named_cluster(b@, p as int),
            r < 0x1_0000_0000,
    {
        let low: u64 = u16_le(b, p + 26) as u64;
        if self.fat32 {
            low + 0x1_0000 * u16_le(b, p + 20) as u64
        } else {
            low
        }
    }

    /// Whether each cluster of a file has a place.
    fn file_holds(&self, b: &[u8], p: usize) -> (r: bool)
        requires
            self.of(b@),
            p + 32 <= b.len(),
        ensures
            r == file_holds(b@, p as int),
    {
        let first: u64 = self.named_cluster(b, p);
        if first == 0 {
            return true;
        }
        let size: u64 = u32_le(b, p + 28) as u64;
        let bytes: u64 = self.cluster_bytes;
        let mut c: u64 = first;
        let mut at: u64 = 0;
        let ghost mut n: nat = 0;
        while at < size
            invariant
                self.of(b@),
                first == named_cluster(b@, p as int),
                first != 0,
                size == crate::bytes::u32_at(b@, p + 28) <= 0xFFFF_FFFF,
                bytes == boot_of(b@).cluster_bytes(),
                512 <= bytes <= 0x8_0000,
                at <= 0xFFFF_FFFF + 0x8_0000,
                at == n * bytes,
                c < 0x1_0000_0000,
                nth_cluster(b@, first as int, n) == Some(c as int),
                forall|m: nat|
                    m < n ==> (#[trigger] nth_cluster(b@, first as int, m) matches Some(d)
                        ==> boot_of(b@).has_place(d)),
            decreases size + 0x8_0000 - at,
        {
            if !self.has_place(Ghost(b@), c) {
                proof {
                    assert(n * boot_of(b@).cluster_bytes() < size);
                    assert(!file_holds(b@, p as int));
                }
                return false;
            }
            match self.next_cluster(b, c) {
                None => {
                    proof {
                        assert forall|m: nat|
                            m * boot_of(b@).cluster_bytes() < size implies (
                        #[trigger] nth_cluster(b@, first as int, m) matches Some(d) ==> boot_of(
                            b@,
                        ).has_place(d)) by {
                            if m > n {
                                lemma_chain_ended(b@, first as int, n + 1, m);
                            }
                        }
                    }
                    return true;
                },
                Some(d) => {
                    c = d;
                },
            }
            proof {
                assert((n + 1) * bytes == n * bytes + bytes) by (nonlinear_arith);
                n = n + 1;
            }
            at = at + bytes;
        }
        proof {
            assert forall|m: nat|
                m * boot_of(b@).cluster_bytes() < size implies (#[trigger] nth_cluster(
                b@,
                first as int,
                m,
            ) matches Some(d) ==> boot_of(b@).has_place(d)) by {
                if m >= n {
                    assert(m * bytes >= n * bytes) by (nonlinear_arith)
                        requires
                            m >= n,
                            bytes > 0,
                    ;
                }
            }
        }
        true
    }
}

/// A chain that has ended does not go on.
proof fn lemma_chain_ended(b: Seq<u8>, c: int, n: nat, m: nat)
    requires
        n <= m,
        nth_cluster(b, c, n) is None,
    ensures
        nth_cluster(b, c, m) is None,
    decreases m,
{
    if n < m {
        lemma_chain_ended(b, c, n, (m - 1) as nat);
    }
}

/// The directories that were found.
spec fn found(dirs: Seq<u64>) -> Set<int> {
    Set::new(|d: int| exists|i: int| 0 <= i < dirs.len() && #[trigger] dirs[i] == d)
}

/// Whether every set of directories that is a tree holds all that were found.
spec fn needed(b: Seq<u8>, dirs: Seq<u64>) -> bool {
    forall|tree: Set<int>, i: int|
        #![trigger is_tree(b, tree), dirs[i]]
        is_tree(b, tree) && 0 <= i < dirs.len() ==> tree.contains(dirs[i] as int)
}

/// Numbers of 32 bits that are all different are no more than there are.
proof fn lemma_no_more(dirs: Seq<u64>)
    requires
        dirs.no_duplicates(),
        forall|i: int| 0 <= i < dirs.len() ==> #[trigger] dirs[i] < 0x1_0000_0000,
    ensures
        dirs.len() <= 0x1_0000_0000,
{
    let all = vstd::set_lib::set_int_range(0, 0x1_0000_0000);
    vstd::set_lib::lemma_int_range(0, 0x1_0000_0000);
    let ints = places(dirs);
    assert(ints.no_duplicates());
    ints.unique_seq_to_set();
    assert(ints.to_set().subset_of(all));
    vstd::set_lib::lemma_len_subset(ints.to_set(), all);
}

/// Adds a directory to those that were found, if it is not among them.
fn find(dirs: &mut Vec<u64>, d: u64)
    requires
        old(dirs)@.no_duplicates(),
    ensures
        final(dirs)@.no_duplicates(),
        final(dirs)@ == old(dirs)@ || final(dirs)@ == old(dirs)@.push(d),
        found(final(dirs)@).contains(d as int),
{
    let mut i: usize = 0;
    while i < dirs.len()
        invariant
            i <= dirs.len(),
            dirs@ == old(dirs)@,
            old(dirs)@.no_duplicates(),
            forall|k: int| 0 <= k < i ==> #[trigger] dirs[k] != d,
        decreases dirs.len() - i,
    {
        if dirs[i] == d {
            assert(dirs@[i as int] == d as int);
            return;
        }
        i = i + 1;
    }
    dirs.push(d);
    assert(dirs@[dirs.len() - 1] == d as int);
}

/// What holds of a directory holds of each of its records.
pub(super) proof fn lemma_record_leads(b: Seq<u8>, d: int, recs: Seq<int>, i: int, dirs: Set<int>)
    requires
        dir_leads(b, d, dirs),
        dir_records(b, d) == Some(recs),
        0 <= i < recs.len(),
    ensures
        record_leads(b, recs[i], dirs),
{
    assert(dir_records(b, d)->0[i] == recs[i]);
}

/// With more directories found, the same records still lead to them.
proof fn lemma_more_found(b: Seq<u8>, d: int, small: Seq<u64>, large: Seq<u64>)
    requires
        dir_leads(b, d, found(small)),
        small.is_prefix_of(large),
    ensures
        dir_leads(b, d, found(large)),
{
    let recs = dir_records(b, d)->0;
    assert forall|i: int| 0 <= i < recs.len() implies record_leads(
        b,
        #[trigger] recs[i],
        found(large),
    ) by {
        assert(record_leads(b, recs[i], found(small)));
        if names_node(b, recs[i]) && names_dir(b, recs[i]) {
            let c = named_cluster(b, recs[i]);
            let k = choose|k: int| 0 <= k < small.len() && #[trigger] small[k] == c;
            assert(large[k] == c);
        }
    }
}

impl Places {
    /// Whether the records of a directory that was found lead to directories, which are
    /// added to those found, and to files that hold.
    fn visit(&self, b: &[u8], d: u64, dirs: &mut Vec<u64>) -> (r: bool)
        requires
            self.of(b@),
            old(dirs)@.no_duplicates(),
            forall|i: int| 0 <= i < old(dirs).len() ==> #[trigger] old(dirs)[i] < 0x1_0000_0000,
            needed(b@, old(dirs)@),
            old(dirs)@.contains(d),
        ensures
            final(dirs)@.no_duplicates(),
            forall|i: int|
                0 <= i < final(dirs).len() ==> #[trigger] final(dirs)[i] < 0x1_0000_0000,
            old(dirs)@.is_prefix_of(final(dirs)@),
            r ==> needed(b@, final(dirs)@) && dir_leads(b@, d as int, found(final(dirs)@)),
            !r ==> forall|tree: Set<int>| !#[trigger] is_tree(b@, tree),
    {
        let ghost at = choose|at: int| 0 <= at < dirs.len() && dirs@[at] == d;
        assert(dirs@[at] == d);
        assert forall|tree: Set<int>| #[trigger] is_tree(b@, tree) implies dir_leads(
            b@,
            d as int,
            tree,
        ) by {
            assert(tree.contains(dirs@[at] as int));
        }
        let recs: Vec<u64> = match self.dir(b, d) {
            Some(recs) => recs,
            None => {
                return false;
            },
        };
        let ghost all = places(recs@);
        let mut i: usize = 0;
        while i < recs.len()
            invariant
                self.of(b@),
                i <= recs.len(),
                all == places(recs@),
                dir_records(b@, d as int) == Some(all),
                all_there(b@, recs@),
                dirs@.no_duplicates(),
                forall|k: int| 0 <= k < dirs.len() ==> #[trigger] dirs[k] < 0x1_0000_0000,
                old(dirs)@.is_prefix_of(dirs@),
                needed(b@, dirs@),
                forall|tree: Set<int>| #[trigger] is_tree(b@, tree) ==> dir_leads(
                    b@,
                    d as int,
                    tree,
                ),
                forall|k: int| 0 <= k < i ==> record_leads(b@, #[trigger] all[k], found(dirs@)),
            decreases recs.len() - i,
        {
            let ghost before = dirs@;
            assert(all.len() == recs.len() && all[i as int] == recs[i as int]);
            assert(goes_on(b@, recs[i as int] as int));
            let p: usize = recs[i] as usize;
            if b[p] != 0xE5 && b[p + 11] / 8 % 2 == 0 {
                if b[p + 11] / 0x10 % 2 == 1 {
                    let c: u64 = self.named_cluster(b, p);
                    find(dirs, c);
                    proof {
                        assert forall|tree: Set<int>| #[trigger]
                            is_tree(b@, tree) implies tree.contains(c as int) by {
                            assert(dir_leads(b@, d as int, tree));
                            lemma_record_leads(b@, d as int, all, i as int, tree);
                        }
                        assert(needed(b@, dirs@)) by {
                            assert forall|tree: Set<int>, k: int|
                                #![trigger is_tree(b@, tree), dirs@[k]]
                                is_tree(b@, tree) && 0 <= k < dirs@.len() implies tree.contains(
                                dirs@[k] as int,
                            ) by {
                                if k < before.len() {
                                    assert(dirs@[k] == before[k]);
                                }
                            }
                        }
                        assert forall|k: int| 0 <= k < i implies record_leads(
                            b@,
                            #[trigger] all[k],
                            found(dirs@),
                        ) by {
                            assert(record_leads(b@, all[k], found(before)));
                            if names_node(b@, all[k]) && names_dir(b@, all[k]) {
                                let e = named_cluster(b@, all[k]);
                                let j = choose|j: int|
                                    0 <= j < before.len() && #[trigger] before[j] == e;
                                assert(dirs@[j] == e);
                            }
                        }
                    }
                } else if !self.file_holds(b, p) {
                    proof {
                        assert forall|tree: Set<int>| !#[trigger] is_tree(b@, tree) by {
                            if is_tree(b@, tree) {
                                assert(dir_leads(b@, d as int, tree));
                                lemma_record_leads(b@, d as int, all, i as int, tree);
                            }
                        }
                    }
                    return false;
                }
            }
            assert(record_leads(b@, all[i as int], found(dirs@)));
            i = i + 1;
        }
        true
    }

    /// Whether all directories can be read to their ends, and all files that they lead
    /// to hold.
    fn is_tree(&self, b: &[u8]) -> (r: bool)
        requires
            self.of(b@),
        ensures
            r == exists|tree: Set<int>| #[trigger] is_tree(b@, tree),
    {
        let mut dirs: Vec<u64> = Vec::new();
        dirs.push(0);
        let mut i: usize = 0;
        proof {
            lemma_no_more(dirs@);
        }
        while i < dirs.len()
            invariant
                self.of(b@),
                i <= dirs.len() <= 0x1_0000_0000,
                dirs.len() > 0,
                dirs[0] == 0,
                dirs@.no_duplicates(),
                forall|k: int| 0 <= k < dirs.len() ==> #[trigger] dirs[k] < 0x1_0000_0000,
                needed(b@, dirs@),
                forall|k: int|
                    0 <= k < i ==> dir_leads(b@, (#[trigger] dirs[k]) as int, found(dirs@)),
            decreases 0x1_0000_0000 - i,
        {
            let ghost before = dirs@;
            let d: u64 = dirs[i];
            assert(before[i as int] == d);
            if !self.visit(b, d, &mut dirs) {
                return false;
            }
            proof {
                lemma_no_more(dirs@);
                assert(dirs@[i as int] == before[i as int]);
                assert forall|k: int| 0 <= k < i implies dir_leads(
                    b@,
                    (#[trigger] dirs[k]) as int,
                    found(dirs@),
                ) by {
                    assert(dirs@[k] == before[k]);
                    lemma_more_found(b@, before[k] as int, before, dirs@);
                }
            }
            i = i + 1;
        }
        proof {
            let tree = found(dirs@);
            assert(dirs@[0] == 0int);
            assert forall|d: int| #[trigger] tree.contains(d) implies dir_leads(b@, d, tree) by {
                let k = choose|k: int| 0 <= k < dirs@.len() && #[trigger] dirs@[k] == d;
                assert(dir_leads(b@, dirs[k] as int, tree));
            }
            assert(is_tree(b@, tree));
        }
        true
    }
}

/// Whether all of a volume with these bytes can be read to its end.
pub fn is_sound(b: &[u8]) -> (r: bool)
    ensures
        r == sound_volume(b@),
{
    if b.len() < 512 || b[510] != 0x55 || b[511] != 0xAA {
        return true;
    }
    let n: Numbers = Numbers::read(b);
    if !n.plausible() {
        return true;
    }
    if n.first_data_sector() >= 0x1_0000_0000 {
        return false;
    }
    if !n.consistent() {
        return true;
    }
    if !n.table_fits() {
        return false;
    }
    Places::new(b, &n).is_tree(b)
}

} // verus!
