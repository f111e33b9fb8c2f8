//! What a geometry says, in plain numbers.

use super::boot_of;
use super::bpb_of;
use super::chs_of;
use super::count_256;
use super::count_good;
use super::first_boot;
use super::format_of;
use super::has_number;
use super::highest_256;
use super::numbers_below;
use super::trdos_of;
use super::DiskKind;
use super::Geometry;
use crate::mfm::SectorView;
use vstd::prelude::*;

verus! {

/// What stands in the parameter block of a boot sector.
pub struct Parameters {
    pub bytes_per_sector: u16,
    pub small_total: u16,
    pub sectors_per_track: u16,
    pub heads: u16,
    pub large_total: u32,
}

/// Whether a boot sector holds these parameters, each with its low byte first.
pub open spec fn boot_holds(boot: Seq<u8>, p: Parameters) -> bool {
    &&& boot.len() >= 36
    &&& boot[11] + 256 * boot[12] == p.bytes_per_sector
    &&& boot[19] + 256 * boot[20] == p.small_total
    &&& boot[24] + 256 * boot[25] == p.sectors_per_track
    &&& boot[26] + 256 * boot[27] == p.heads
    &&& boot[32] + 256 * boot[33] + 65536 * boot[34] + 16777216 * boot[35] == p.large_total
}

/// The sectors that parameters announce: the small number, or the large one where the
/// small one is zero.
pub open spec fn announced(p: Parameters) -> int {
    if p.small_total != 0 {
        p.small_total as int
    } else {
        p.large_total as int
    }
}

/// A boot sector is a geometry exactly where no parameter is zero, and the geometry is
/// what its parameters say: the sectors and the bytes of a sector as they stand, the heads
/// and the sectors on a track in one byte, and just as many cylinders as hold all sectors.
pub proof fn law_boot_says_geometry(boot: Seq<u8>, p: Parameters)
    requires
        boot_holds(boot, p),
    ensures
        bpb_of(boot) is Some <==> p.bytes_per_sector != 0 && p.sectors_per_track != 0 && p.heads
            != 0 && announced(p) != 0,
        bpb_of(boot) matches Some(g) ==> g.bytes_per_sector == p.bytes_per_sector
            && g.total_sectors == announced(p) && g.heads == p.heads % 256
            && g.sectors_per_track == p.sectors_per_track % 256,
        bpb_of(boot) matches Some(g) && announced(p) <= 0xFFFF * (p.sectors_per_track * p.heads)
            ==> announced(p) <= (bpb_of(boot)->0).cylinders * (p.sectors_per_track * p.heads) && ((
        bpb_of(boot)->0).cylinders - 1) * (p.sectors_per_track * p.heads) < announced(p),
{
    assert(crate::bytes::u16_at(boot, 0x0B) == p.bytes_per_sector);
    assert(crate::bytes::u16_at(boot, 0x13) == p.small_total);
    assert(crate::bytes::u16_at(boot, 0x18) == p.sectors_per_track);
    assert(crate::bytes::u16_at(boot, 0x1A) == p.heads);
    assert(crate::bytes::u32_at(boot, 0x20) == p.large_total);
    if bpb_of(boot) is Some {
        let per = p.sectors_per_track * p.heads;
        let total = announced(p);
        assert(per > 0) by (nonlinear_arith)
            requires
                p.sectors_per_track > 0,
                p.heads > 0,
                per == p.sectors_per_track * p.heads,
        ;
        let c = (total + per - 1) / per;
        assert(total <= c * per && (c - 1) * per < total && 0 <= c) by (nonlinear_arith)
            requires
                c == (total + per - 1) / per,
                per > 0,
                total > 0,
        ;
        if total <= 0xFFFF * per {
            assert(c <= 0xFFFF) by (nonlinear_arith)
                requires
                    (c - 1) * per < total,
                    total <= 0xFFFF * per,
                    per > 0,
            ;
            assert((bpb_of(boot)->0).cylinders == c);
        }
    }
}

/// A sector that is too short for a parameter block is no boot sector.
pub proof fn law_short_sector_is_no_boot(boot: Seq<u8>)
    requires
        boot.len() < 36,
    ensures
        bpb_of(boot) is None,
{
}

/// The place of a block, counted out: as many blocks come before it as stand on the
/// cylinders before its own, under the heads before its own, and on its track.
pub proof fn law_block_is_in_its_place(g: Geometry, lba: int)
    requires
        g.sectors_per_track > 0,
        g.heads > 0,
        0 <= lba < 0x1_0000 * (g.sectors_per_track * g.heads),
    ensures
        ({
            let (c, h, s) = chs_of(g, lba);
            &&& (c * g.heads + h) * g.sectors_per_track + (s - 1) == lba
            &&& h < g.heads
            &&& 1 <= s <= g.sectors_per_track
        }),
{
    let per = g.sectors_per_track * g.heads;
    assert(per > 0) by (nonlinear_arith)
        requires
            g.sectors_per_track > 0,
            g.heads > 0,
            per == g.sectors_per_track * g.heads,
    ;
    assert(lba / per < 0x1_0000) by (nonlinear_arith)
        requires
            0 <= lba < 0x1_0000 * per,
            per > 0,
    ;
    super::law_chs_inverse(g, lba);
}

/// No two blocks of a disk stand in one place.
pub proof fn law_places_differ(g: Geometry, a: int, b: int)
    requires
        g.sectors_per_track > 0,
        g.heads > 0,
        0 <= a < 0x1_0000 * (g.sectors_per_track * g.heads),
        0 <= b < 0x1_0000 * (g.sectors_per_track * g.heads),
        chs_of(g, a) == chs_of(g, b),
    ensures
        a == b,
{
    law_block_is_in_its_place(g, a);
    law_block_is_in_its_place(g, b);
}

/// How many sectors of 256 bytes there are.
pub proof fn law_short_sectors_are_counted(sectors: Seq<SectorView>)
    ensures
        count_256(sectors) == sectors.filter(|s: SectorView| s.size_code == 1).len(),
        count_good(sectors) == sectors.filter(|s: SectorView| s.data_crc_ok).len(),
    decreases sectors.len(),
{
    reveal(Seq::filter);
    if sectors.len() > 0 {
        law_short_sectors_are_counted(sectors.drop_last());
    }
}

/// Whether sector `i` has 256 bytes; with `good`, and a right CRC.
pub open spec fn counts(sectors: Seq<SectorView>, good: bool, i: int) -> bool {
    0 <= i < sectors.len() && sectors[i].size_code == 1 && (good ==> sectors[i].data_crc_ok)
}

/// Whether `r` is the highest number of the sectors that count.
pub open spec fn is_highest(sectors: Seq<SectorView>, good: bool, r: u8) -> bool {
    &&& exists|i: int| #[trigger] counts(sectors, good, i) && sectors[i].sector == r
    &&& forall|i: int| #[trigger] counts(sectors, good, i) ==> sectors[i].sector <= r
}

proof fn lemma_highest(sectors: Seq<SectorView>, good: bool)
    ensures
        match highest_256(sectors, good) {
            Some(r) => is_highest(sectors, good, r),
            None => forall|i: int| !#[trigger] counts(sectors, good, i),
        },
    decreases sectors.len(),
{
    if sectors.len() > 0 {
        let head = sectors.drop_last();
        let n = sectors.len() - 1;
        lemma_highest(head, good);
        assert forall|i: int| 0 <= i < n implies #[trigger] counts(sectors, good, i) == counts(
            head,
            good,
            i,
        ) by {}
        match highest_256(head, good) {
            Some(r) => {
                let i = choose|i: int| #[trigger] counts(head, good, i) && head[i].sector == r;
                assert(counts(sectors, good, i) && sectors[i].sector == r);
            },
            None => {},
        }
        if counts(sectors, good, n) {
            assert(sectors[n].sector == sectors.last().sector);
        }
        assert forall|i: int| #[trigger] counts(sectors, good, i) implies i == n || counts(
            head,
            good,
            i,
        ) by {}
    }
}

/// A track with at least four sectors of 256 bytes is a TR-DOS disk of one side and 80
/// tracks. It has as many sectors on a track as the highest number of an intact sector
/// of 256 bytes says, or of any where none is intact, but no fewer than 9 and no more
/// than 16.
pub proof fn law_trdos_is_told(sectors: Seq<SectorView>, r: u8)
    requires
        is_highest(sectors, true, r) || is_highest(sectors, false, r) && forall|i: int|
            !#[trigger] counts(sectors, true, i),
    ensures
        trdos_of(sectors) is Some <==> sectors.filter(|s: SectorView| s.size_code == 1).len() >= 4,
        trdos_of(sectors) matches Some(g) ==> g.cylinders == 80 && g.heads == 1
            && g.bytes_per_sector == 256 && g.total_sectors == 80 * g.sectors_per_track && (9 <= r
            <= 16 ==> g.sectors_per_track == r) && (r < 9 ==> g.sectors_per_track == 9) && (r > 16
            ==> g.sectors_per_track == 16),
{
    law_short_sectors_are_counted(sectors);
    lemma_highest(sectors, true);
    lemma_highest(sectors, false);
    if is_highest(sectors, true, r) {
        let i = choose|i: int| #[trigger] counts(sectors, true, i) && sectors[i].sector == r;
        assert(counts(sectors, true, i));
        let q = highest_256(sectors, true)->0;
        let j = choose|j: int| #[trigger] counts(sectors, true, j) && sectors[j].sector == q;
        assert(counts(sectors, true, j));
        assert(q == r);
    } else {
        assert(highest_256(sectors, true) is None) by {
            if let Some(q) = highest_256(sectors, true) {
                let j = choose|j: int| #[trigger] counts(sectors, true, j) && sectors[j].sector == q;
                assert(counts(sectors, true, j));
            }
        }
        let i = choose|i: int| #[trigger] counts(sectors, false, i) && sectors[i].sector == r;
        assert(counts(sectors, false, i));
        let q = highest_256(sectors, false)->0;
        let j = choose|j: int| #[trigger] counts(sectors, false, j) && sectors[j].sector == q;
        assert(counts(sectors, false, j));
        assert(q == r);
    }
}

/// Without a sector of 256 bytes a track is not of a TR-DOS disk.
pub proof fn law_other_tracks_are_not_trdos(sectors: Seq<SectorView>)
    requires
        forall|i: int| 0 <= i < sectors.len() ==> (#[trigger] sectors[i]).size_code != 1,
    ensures
        trdos_of(sectors) is None,
{
    lemma_none_short(sectors);
}

proof fn lemma_none_short(sectors: Seq<SectorView>)
    requires
        forall|i: int| 0 <= i < sectors.len() ==> (#[trigger] sectors[i]).size_code != 1,
    ensures
        count_256(sectors) == 0,
    decreases sectors.len(),
{
    if sectors.len() > 0 {
        let head = sectors.drop_last();
        assert(sectors[sectors.len() - 1].size_code != 1);
        assert forall|i: int| 0 <= i < head.len() implies (#[trigger] head[i]).size_code != 1 by {
            assert(head[i] == sectors[i]);
        }
        lemma_none_short(head);
    }
}

/// Whether sector `i` can be a boot sector: number 1, 512 bytes; with `good`, and a right
/// CRC.
pub open spec fn may_boot(sectors: Seq<SectorView>, good: bool, i: int) -> bool {
    0 <= i < sectors.len() && sectors[i].sector == 1 && sectors[i].size_code == 2 && (good
        ==> sectors[i].data_crc_ok)
}

proof fn lemma_first_boot(sectors: Seq<SectorView>, good: bool, i: int)
    requires
        may_boot(sectors, good, i),
        forall|k: int| 0 <= k < i ==> !#[trigger] may_boot(sectors, good, k),
    ensures
        first_boot(sectors, good) == Some(sectors[i]),
    decreases sectors.len(),
{
    let head = sectors.drop_last();
    if i < head.len() {
        assert forall|k: int| 0 <= k < i implies !#[trigger] may_boot(head, good, k) by {
            assert(!may_boot(sectors, good, k));
        }
        lemma_first_boot(head, good, i);
    } else {
        assert forall|k: int| 0 <= k < head.len() implies !#[trigger] may_boot(head, good, k) by {
            assert(!may_boot(sectors, good, k));
        }
        lemma_no_boot(head, good);
    }
}

proof fn lemma_no_boot(sectors: Seq<SectorView>, good: bool)
    requires
        forall|k: int| 0 <= k < sectors.len() ==> !#[trigger] may_boot(sectors, good, k),
    ensures
        first_boot(sectors, good) is None,
    decreases sectors.len(),
{
    if sectors.len() > 0 {
        let head = sectors.drop_last();
        assert(!may_boot(sectors, good, sectors.len() - 1));
        assert forall|k: int| 0 <= k < head.len() implies !#[trigger] may_boot(head, good, k) by {
            assert(!may_boot(sectors, good, k));
        }
        lemma_no_boot(head, good);
    }
}

/// The boot sector is the first sector 1 of 512 bytes that is intact, or the first of all
/// where none is; and where it has a parameter block, the disk is a FAT volume of that
/// geometry, whatever else the track holds.
pub proof fn law_boot_sector_is_found(sectors: Seq<SectorView>, i: int)
    requires
        may_boot(sectors, true, i) && (forall|k: int|
            0 <= k < i ==> !#[trigger] may_boot(sectors, true, k)) || may_boot(sectors, false, i)
            && (forall|k: int| 0 <= k < i ==> !#[trigger] may_boot(sectors, false, k)) && (forall|
            k: int,
        |
            0 <= k < sectors.len() ==> !#[trigger] may_boot(sectors, true, k)),
    ensures
        boot_of(sectors) == Some(sectors[i]),
        bpb_of(sectors[i].data) matches Some(g) ==> format_of(sectors) == Some((g, DiskKind::Fat)),
        bpb_of(sectors[i].data) is None ==> (match trdos_of(sectors) {
            Some(g) => format_of(sectors) == Some((g, DiskKind::TrDos)),
            None => format_of(sectors) is None,
        }),
{
    if may_boot(sectors, true, i) && (forall|k: int|
        0 <= k < i ==> !#[trigger] may_boot(sectors, true, k)) {
        lemma_first_boot(sectors, true, i);
    } else {
        lemma_no_boot(sectors, true);
        lemma_first_boot(sectors, false, i);
    }
}

/// Without a boot sector the disk is a TR-DOS disk, or of no known format.
pub proof fn law_no_boot_sector(sectors: Seq<SectorView>)
    requires
        forall|k: int| 0 <= k < sectors.len() ==> !#[trigger] may_boot(sectors, false, k),
    ensures
        match trdos_of(sectors) {
            Some(g) => format_of(sectors) == Some((g, DiskKind::TrDos)),
            None => format_of(sectors) is None,
        },
{
    lemma_no_boot(sectors, false);
    assert forall|k: int| 0 <= k < sectors.len() implies !#[trigger] may_boot(
        sectors,
        true,
        k,
    ) by {
        assert(!may_boot(sectors, false, k));
    }
    lemma_no_boot(sectors, true);
}

/// The numbers that a track is said to have are those of its sectors, in ascending order,
/// each once.
pub proof fn law_numbers_are_listed(sectors: Seq<SectorView>, n: int, r: u8)
    requires
        0 <= n <= 256,
    ensures
        numbers_below(sectors, n).contains(r) <==> r < n && exists|i: int|
            0 <= i < sectors.len() && (#[trigger] sectors[i]).sector == r,
        forall|a: int, b: int|
            0 <= a < b < numbers_below(sectors, n).len() ==> #[trigger] numbers_below(
                sectors,
                n,
            )[a] < #[trigger] numbers_below(sectors, n)[b],
        forall|a: int|
            0 <= a < numbers_below(sectors, n).len() ==> #[trigger] numbers_below(sectors, n)[a]
                < n,
    decreases n,
{
    if n > 0 {
        let before = numbers_below(sectors, n - 1);
        let now = numbers_below(sectors, n);
        law_numbers_are_listed(sectors, n - 1, r);
        if has_number(sectors, (n - 1) as u8) {
            assert(now == before.push((n - 1) as u8));
            assert(now.contains(r) <==> before.contains(r) || r == n - 1) by {
                if now.contains(r) {
                    let k = choose|k: int| 0 <= k < now.len() && now[k] == r;
                    if k < before.len() {
                        assert(before[k] == r);
                    }
                }
                if before.contains(r) {
                    let k = choose|k: int| 0 <= k < before.len() && before[k] == r;
                    assert(now[k] == r);
                }
                if r == n - 1 {
                    assert(now[before.len() as int] == r);
                }
            }
        }
    }
}

} // verus!
