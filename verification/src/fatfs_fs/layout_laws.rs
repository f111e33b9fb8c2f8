//! Where the parts of a FAT volume stand, in plain numbers.

use super::check::lemma_record_leads;
use super::layout::boot_of;
use super::layout::chain_records;
use super::layout::dir_leads;
use super::layout::dir_records;
use super::layout::file_holds;
use super::layout::fits_32;
use super::layout::goes_on;
use super::layout::is_tree;
use super::layout::is_volume;
use super::layout::live_count;
use super::layout::live_records;
use super::layout::named_cluster;
use super::layout::names_dir;
use super::layout::names_node;
use super::layout::next_cluster;
use super::layout::nth_cluster;
use super::layout::signed;
use super::layout::sound_boot;
use super::layout::sound_volume;
use vstd::prelude::*;

verus! {

/// The boot sector of a volume with 12 or 16 bits to an entry, as it is written.
pub struct SmallVolume {
    pub bytes_per_sector: int,
    pub sectors_per_cluster: int,
    pub reserved: int,
    pub fats: int,
    pub root_entries: int,
    pub total: int,
    pub fat_size: int,
}

/// Whether a boot sector says this, each number with its low byte first, the small number
/// of sectors in use.
pub open spec fn says_small(b: Seq<u8>, v: SmallVolume) -> bool {
    &&& b.len() >= 512
    &&& b[11] + 256 * b[12] == v.bytes_per_sector
    &&& b[13] == v.sectors_per_cluster
    &&& b[14] + 256 * b[15] == v.reserved
    &&& b[16] == v.fats
    &&& b[17] + 256 * b[18] == v.root_entries
    &&& b[19] + 256 * b[20] == v.total
    &&& b[22] + 256 * b[23] == v.fat_size
    &&& b[32] == 0 && b[33] == 0 && b[34] == 0 && b[35] == 0
    &&& b[510] == 0x55 && b[511] == 0xAA
    &&& v.fat_size > 0
    &&& v.total > 0
}

/// Whether the numbers are those of a volume: sectors and clusters of a size that there
/// is, a table, a root directory, and room behind them for clusters, but not for so many
/// that an entry would need more than 16 bits.
pub open spec fn right_small(v: SmallVolume) -> bool {
    &&& v.bytes_per_sector == 512 || v.bytes_per_sector == 1024 || v.bytes_per_sector == 2048
        || v.bytes_per_sector == 4096
    &&& v.sectors_per_cluster == 1 || v.sectors_per_cluster == 2 || v.sectors_per_cluster == 4
        || v.sectors_per_cluster == 8 || v.sectors_per_cluster == 16 || v.sectors_per_cluster == 32
        || v.sectors_per_cluster == 64 || v.sectors_per_cluster == 128
    &&& v.reserved >= 1
    &&& v.fats >= 1
    &&& v.root_entries >= 1
    &&& v.total > data_start(v)
    &&& (v.total - data_start(v)) / v.sectors_per_cluster < 65525
}

/// The first sector of the first cluster: behind the reserved sectors, the tables and the
/// root directory, which has 32 bytes for each entry and ends with a sector.
pub open spec fn data_start(v: SmallVolume) -> int {
    v.reserved + v.fats * v.fat_size + (v.root_entries * 32 + v.bytes_per_sector - 1)
        / v.bytes_per_sector
}

/// A boot sector is that of a volume exactly where its numbers are; then the table begins
/// behind the reserved sectors, the root directory behind the tables, cluster 2 where the
/// data begin, and each further one a cluster's sectors later.
pub proof fn law_small_volume_is_laid_out(b: Seq<u8>, v: SmallVolume, c: int)
    requires
        says_small(b, v),
    ensures
        is_volume(b) <==> right_small(v),
        right_small(v) ==> {
            let boot = boot_of(b);
            &&& !boot.is_fat32()
            &&& boot.table_sector() == v.reserved
            &&& boot.root_at() == (v.reserved + v.fats * v.fat_size) * v.bytes_per_sector
            &&& boot.first_data_sector() == data_start(v)
            &&& boot.cluster_sector(c) == data_start(v) + (c - 2) * v.sectors_per_cluster
            &&& boot.clusters() == (v.total - data_start(v)) / v.sectors_per_cluster
            &&& boot.cluster_bytes() == v.sectors_per_cluster * v.bytes_per_sector
        },
        right_small(v) ==> (boot_of(b).width() is Fat12 <==> (v.total - data_start(v))
            / v.sectors_per_cluster < 4085),
{
    let boot = boot_of(b);
    assert(boot.total_32 == 0);
    assert(boot.bytes_per_sector == v.bytes_per_sector);
    assert(boot.fat_size_16 == v.fat_size && boot.total_16 == v.total);
    if boot.plausible() {
        let spc = v.sectors_per_cluster;
        let room = v.total - data_start(v);
        assert(boot.first_data_sector() == data_start(v));
        assert(0 <= v.fats * v.fat_size) by (nonlinear_arith)
            requires
                v.fats >= 0,
                v.fat_size >= 0,
        ;
        let bps = v.bytes_per_sector;
        let w = v.root_entries * 32 + bps - 1;
        assert(w / bps >= 1) by (nonlinear_arith)
            requires
                w >= bps,
                bps >= 1,
        ;
        if room > 0 {
            assert(0 <= room / spc <= room) by (nonlinear_arith)
                requires
                    0 <= room,
                    spc >= 1,
            ;
        }
    }
}

/// Where the table of a volume begins, in bytes.
pub open spec fn table_at(b: Seq<u8>) -> int {
    boot_of(b).table_sector() * boot_of(b).bytes_per_sector
}

/// With 12 bits to an entry two entries stand in three bytes: the first in the first byte
/// and the low half of the second, the second in the high half and the third byte. Zero
/// and the numbers from FF7 on end a chain.
pub proof fn law_narrow_entries(b: Seq<u8>, k: int, even: bool)
    requires
        is_volume(b),
        boot_of(b).width() is Fat12,
        0 <= k < 0x10_0000,
        3 * k + 3 <= boot_of(b).fat_size() * boot_of(b).bytes_per_sector,
        table_at(b) + 3 * k + 3 <= b.len(),
    ensures
        ({
            let p = table_at(b) + 3 * k;
            let value = if even {
                b[p] + 256 * (b[p + 1] % 16)
            } else {
                b[p + 1] / 16 + 16 * b[p + 2]
            };
            let c = if even { 2 * k } else { 2 * k + 1 };
            next_cluster(b, c) == (if value == 0 || value >= 0xFF7 {
                None::<int>
            } else {
                Some(value as int)
            })
        }),
{
    let p = table_at(b) + 3 * k;
    if even {
        let c = 2 * k;
        assert(c + c / 2 == 3 * k);
        assert(b[p] == b[p]);
    } else {
        let c = 2 * k + 1;
        assert(c + c / 2 == 3 * k + 1);
    }
}

/// With 16 bits to an entry each stands in two bytes, the low one first. Zero and the
/// numbers from FFF7 on end a chain.
pub proof fn law_wide_entries(b: Seq<u8>, c: int)
    requires
        is_volume(b),
        boot_of(b).width() is Fat16,
        0 <= c < 0x1_0000,
        2 * c + 2 <= boot_of(b).fat_size() * boot_of(b).bytes_per_sector,
        table_at(b) + 2 * c + 2 <= b.len(),
    ensures
        ({
            let p = table_at(b) + 2 * c;
            let value = b[p] + 256 * b[p + 1];
            next_cluster(b, c) == (if value == 0 || value >= 0xFFF7 {
                None::<int>
            } else {
                Some(value as int)
            })
        }),
{
}

/// Whether record `i` behind `at` is there, and not blank.
pub open spec fn in_use(b: Seq<u8>, at: int, i: int) -> bool {
    at + 32 * i + 32 <= b.len() && b[at + 32 * i] != 0
}

/// A directory goes on up to its first blank record: the records before it are all of it,
/// one every 32 bytes.
pub proof fn law_directory_ends_at_blank(b: Seq<u8>, at: int, n: nat, k: nat)
    requires
        k <= n,
        0 <= at,
        forall|i: int| 0 <= i < k ==> #[trigger] in_use(b, at, i),
        k < n ==> !in_use(b, at, k as int),
    ensures
        live_records(b, at, n).len() == k,
        forall|i: int| 0 <= i < k ==> #[trigger] live_records(b, at, n)[i] == at + 32 * i,
{
    lemma_live_up_to(b, at, k);
    lemma_live_stops(b, at, n, k);
}

proof fn lemma_live_up_to(b: Seq<u8>, at: int, k: nat)
    requires
        forall|i: int| 0 <= i < k ==> #[trigger] in_use(b, at, i),
    ensures
        live_count(b, at, k) == k,
    decreases k,
{
    if k > 0 {
        lemma_live_up_to(b, at, (k - 1) as nat);
        assert(in_use(b, at, k - 1));
    }
}

proof fn lemma_live_stops(b: Seq<u8>, at: int, n: nat, k: nat)
    requires
        k <= n,
        live_count(b, at, k) == k,
        k < n ==> !goes_on(b, at + 32 * k),
    ensures
        live_count(b, at, n) == k,
    decreases n,
{
    if n > k {
        if n > k + 1 {
            lemma_live_stops(b, at, (n - 1) as nat, k);
        }
    }
}

/// A record names a node unless it was removed or is a name: with 12 or 16 bits to an
/// entry its cluster stands in two bytes, and one bit says whether it is a directory.
pub proof fn law_records_name_nodes(b: Seq<u8>, p: int, attributes: u8)
    requires
        0 <= p,
        p + 32 <= b.len(),
        !boot_of(b).is_fat32(),
        b[p + 11] == attributes,
    ensures
        named_cluster(b, p) == b[p + 26] + 256 * b[p + 27],
        names_node(b, p) <==> b[p] != 0xE5 && (attributes / 8) % 2 == 0,
        names_dir(b, p) <==> (attributes / 16) % 2 == 1,
{
}

/// A directory whose clusters lead back to the first and never end is refused, however
/// long one waits.
pub proof fn law_endless_directory_is_refused(b: Seq<u8>, c: int, n: nat)
    requires
        next_cluster(b, c) == Some(c),
        live_records(b, boot_of(b).cluster_at(c), boot_of(b).records_per_cluster()).len()
            == boot_of(b).records_per_cluster(),
    ensures
        chain_records(b, c, n) is None,
    decreases n,
{
    if n > 0 && boot_of(b).has_place(c) {
        law_endless_directory_is_refused(b, c, (n - 1) as nat);
    }
}

/// A directory is the records of its clusters, one cluster behind the other, up to the one
/// that ends it.
pub proof fn law_directory_follows_its_chain(b: Seq<u8>, c: int, d: int, n: nat)
    requires
        n > 0,
        boot_of(b).has_place(c),
    ensures
        ({
            let boot = boot_of(b);
            let here = live_records(b, boot.cluster_at(c), boot.records_per_cluster());
            let full = here.len() == boot.records_per_cluster();
            &&& here.len() <= boot.records_per_cluster()
            &&& !full || next_cluster(b, c) is None ==> chain_records(b, c, n) == Some(here)
            &&& full && next_cluster(b, c) == Some(d) ==> match chain_records(
                b,
                d,
                (n - 1) as nat,
            ) {
                Some(more) => chain_records(b, c, n) == Some(here + more),
                None => chain_records(b, c, n) is None,
            }
        }),
{
    let boot = boot_of(b);
    lemma_live_at_most(b, boot.cluster_at(c), boot.records_per_cluster());
}

proof fn lemma_live_at_most(b: Seq<u8>, at: int, n: nat)
    ensures
        live_count(b, at, n) <= n,
    decreases n,
{
    if n > 0 {
        lemma_live_at_most(b, at, (n - 1) as nat);
    }
}

/// A cluster has a place where it is a cluster at all, and its sector and the place of its
/// entry can be counted in 32 bits.
pub proof fn law_clusters_have_places(b: Seq<u8>, c: int)
    ensures
        boot_of(b).has_place(c) <==> 2 <= c < 0x4000_0000 && 0 <= boot_of(b).first_data_sector() + (
        c - 2) * boot_of(b).sectors_per_cluster < 0x1_0000_0000,
{
}

/// A volume with an empty root directory can be read to its end.
pub proof fn law_empty_volume_is_sound(b: Seq<u8>)
    requires
        is_volume(b),
        sound_boot(b),
        dir_records(b, 0) == Some(Seq::<int>::empty()),
    ensures
        sound_volume(b),
{
    let dirs = set![0int];
    assert forall|d: int| #[trigger] dirs.contains(d) implies dir_leads(b, d, dirs) by {
        assert(d == 0);
    }
    assert(is_tree(b, dirs));
}

/// A volume with a directory in its root that cannot be read to its end cannot be either.
pub proof fn law_unsound_directory_spoils_volume(b: Seq<u8>, recs: Seq<int>, i: int)
    requires
        is_volume(b),
        dir_records(b, 0) == Some(recs),
        0 <= i < recs.len(),
        names_node(b, recs[i]),
        names_dir(b, recs[i]),
        dir_records(b, named_cluster(b, recs[i])) is None,
    ensures
        !sound_volume(b),
{
    if sound_volume(b) {
        let dirs = choose|dirs: Set<int>| #[trigger] is_tree(b, dirs);
        assert(dir_leads(b, 0, dirs));
        lemma_record_leads(b, 0, recs, i, dirs);
        assert(dir_leads(b, named_cluster(b, recs[i]), dirs));
    }
}

proof fn lemma_first_cluster_counts(b: Seq<u8>, p: int)
    requires
        named_cluster(b, p) != 0,
        b[p + 28] > 0,
        !boot_of(b).has_place(named_cluster(b, p)),
    ensures
        !file_holds(b, p),
{
    let c = named_cluster(b, p);
    let n = 0nat;
    assert(nth_cluster(b, c, n) == Some(c));
    assert(n * boot_of(b).cluster_bytes() == 0);
    assert(crate::bytes::u32_at(b, p + 28) > 0);
}

/// A file whose clusters have no place cannot be read: a volume with one in its root is
/// refused.
pub proof fn law_unsound_file_spoils_volume(b: Seq<u8>, recs: Seq<int>, i: int)
    requires
        is_volume(b),
        dir_records(b, 0) == Some(recs),
        0 <= i < recs.len(),
        names_node(b, recs[i]),
        !names_dir(b, recs[i]),
        named_cluster(b, recs[i]) != 0,
        b[recs[i] + 28] > 0,
        !boot_of(b).has_place(named_cluster(b, recs[i])),
    ensures
        !sound_volume(b),
{
    assert(!file_holds(b, recs[i])) by {
        lemma_first_cluster_counts(b, recs[i]);
    }
    if sound_volume(b) {
        let dirs = choose|dirs: Set<int>| #[trigger] is_tree(b, dirs);
        assert(dir_leads(b, 0, dirs));
        lemma_record_leads(b, 0, recs, i, dirs);
    }
}

/// A boot sector without its signature is refused before anything is computed, and so
/// can be handed over whatever its numbers are.
pub proof fn law_unsigned_boot_is_refused(b: Seq<u8>)
    requires
        b.len() < 512 || b[510] != 0x55 || b[511] != 0xAA,
    ensures
        !signed(b),
        !is_volume(b),
        sound_boot(b),
        sound_volume(b),
{
}

/// A number fits in 32 bits or it does not.
pub proof fn law_what_fits(n: int)
    ensures
        fits_32(n) <==> 0 <= n <= 4294967295,
{
}

/// With 32 bits to an entry each stands in four bytes, the lowest first, of which 28 bits
/// count. Zero and the numbers from 0FFFFFF7 on end a chain.
pub proof fn law_long_entries(b: Seq<u8>, c: int)
    requires
        is_volume(b),
        boot_of(b).width() is Fat32,
        0 <= c < 0x0FFF_FFF7,
        4 * c + 4 <= boot_of(b).fat_size() * boot_of(b).bytes_per_sector,
        table_at(b) + 4 * c + 4 <= b.len(),
    ensures
        ({
            let p = table_at(b) + 4 * c;
            let value = b[p] + 256 * b[p + 1] + 65536 * b[p + 2] + 16777216 * (b[p + 3] % 16);
            next_cluster(b, c) == (if value == 0 || value >= 0x0FFF_FFF7 {
                None::<int>
            } else {
                Some(value as int)
            })
        }),
{
    let p = table_at(b) + 4 * c;
    let whole = b[p] + 256 * b[p + 1] + 65536 * b[p + 2] + 16777216 * b[p + 3];
    let low = b[p] + 256 * b[p + 1] + 65536 * b[p + 2] + 16777216 * (b[p + 3] % 16);
    assert(crate::bytes::u32_at(b, p) == whole);
    assert(whole == low + 0x1000_0000 * (b[p + 3] / 16));
    assert(0 <= low < 0x1000_0000);
    assert(whole % 0x1000_0000 == low);
}

/// Of several tables the first is in use, unless a volume with 32 bits to an entry says
/// which.
pub proof fn law_table_in_use(b: Seq<u8>, flags: int)
    requires
        flags == b[40] + 256 * b[41],
    ensures
        !boot_of(b).is_fat32() ==> boot_of(b).table_sector() == boot_of(b).reserved,
        boot_of(b).is_fat32() && flags / 128 % 2 == 0 ==> boot_of(b).table_sector() == boot_of(
            b,
        ).reserved,
        boot_of(b).is_fat32() && flags / 128 % 2 == 1 ==> boot_of(b).table_sector() == boot_of(
            b,
        ).reserved + flags % 16 * boot_of(b).fat_size(),
{
}

/// On a volume with 12 or 16 bits to an entry every cluster from 2 on has a place.
proof fn lemma_small_places(b: Seq<u8>, c: int)
    requires
        is_volume(b),
        !boot_of(b).is_fat32(),
        2 <= c < 0x1_0000,
    ensures
        boot_of(b).has_place(c),
{
    let boot = boot_of(b);
    super::layout::law_small_volumes_fit(b);
    let (fats, size, bps, spc) = (
        boot.fats,
        boot.fat_size(),
        boot.bytes_per_sector,
        boot.sectors_per_cluster,
    );
    assert(0 <= fats * size <= 0xFF * 0xFFFF) by (nonlinear_arith)
        requires
            0 <= fats <= 0xFF,
            0 <= size <= 0xFFFF,
    ;
    let root = boot.root_entries * 32 + bps - 1;
    assert(0 <= root / bps <= root) by (nonlinear_arith)
        requires
            0 <= root,
            1 <= bps,
    ;
    assert(0 <= (c - 2) * spc <= 0xFFFF * 128) by (nonlinear_arith)
        requires
            0 <= c - 2 <= 0xFFFF,
            0 <= spc <= 128,
    ;
}

proof fn lemma_small_chain(b: Seq<u8>, c: int, n: nat)
    requires
        is_volume(b),
        !boot_of(b).is_fat32(),
        2 <= c < 0x1_0000,
        forall|k: int| (#[trigger] next_cluster(b, k)) matches Some(d) ==> d >= 2,
    ensures
        nth_cluster(b, c, n) matches Some(d) ==> 2 <= d < 0x1_0000,
    decreases n,
{
    if n > 0 {
        lemma_small_chain(b, c, (n - 1) as nat);
    }
}

/// On a volume with 12 or 16 bits to an entry a file can be read wherever its chain leads,
/// as long as no entry names cluster 1, which is none.
pub proof fn law_small_files_hold(b: Seq<u8>, p: int)
    requires
        is_volume(b),
        !boot_of(b).is_fat32(),
        named_cluster(b, p) != 1,
        forall|k: int| (#[trigger] next_cluster(b, k)) matches Some(d) ==> d >= 2,
    ensures
        file_holds(b, p),
{
    let c = named_cluster(b, p);
    if c != 0 {
        assert forall|n: nat|
            n * boot_of(b).cluster_bytes() < crate::bytes::u32_at(b, p + 28) implies (
        #[trigger] nth_cluster(b, c, n) matches Some(d) ==> boot_of(b).has_place(d)) by {
            lemma_small_chain(b, c, n);
            if let Some(d) = nth_cluster(b, c, n) {
                lemma_small_places(b, d);
            }
        }
    }
}

/// A volume whose root holds files only, all of which can be read, can be read to its end.
pub proof fn law_flat_volume_is_sound(b: Seq<u8>, recs: Seq<int>)
    requires
        is_volume(b),
        sound_boot(b),
        dir_records(b, 0) == Some(recs),
        forall|i: int|
            0 <= i < recs.len() ==> (names_node(b, #[trigger] recs[i]) ==> !names_dir(b, recs[i])
                && file_holds(b, recs[i])),
    ensures
        sound_volume(b),
{
    let dirs = set![0int];
    assert forall|d: int| #[trigger] dirs.contains(d) implies dir_leads(b, d, dirs) by {
        assert(d == 0);
    }
    assert(is_tree(b, dirs));
}

} // verus!
