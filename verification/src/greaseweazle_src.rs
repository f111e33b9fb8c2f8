//! A disk in a drive at a Greaseweazle.
//!
//! The geometry comes from the boot sector of a FAT volume, or from the sectors of a
//! TR-DOS track.

pub mod bad;
pub mod geometry_laws;
pub mod opening;
pub mod request_laws;
pub mod source;
pub mod source_laws;

use crate::bytes::u16_at;
use crate::bytes::u16_le;
use crate::bytes::u32_at;
use crate::bytes::u32_le;
use crate::mfm::sector_views;
use crate::mfm::Sector;
use crate::mfm::SectorView;
use vstd::prelude::*;

verus! {

// ---------------------------------------------------------------------------
// Geometry and format
// ---------------------------------------------------------------------------

#[derive(Debug, Clone, Copy, PartialEq, Eq, Structural)]
pub struct Geometry {
    pub cylinders: u16,
    pub heads: u8,
    pub sectors_per_track: u8,
    pub bytes_per_sector: u16,
    pub total_sectors: u64,
}

/// What a disk was found to be formatted as.
#[derive(Debug, Clone, Copy, PartialEq, Eq, Structural)]
pub enum DiskKind {
    /// FAT12 or FAT16, with a parameter block on track 0.
    Fat,
    /// TR-DOS (ZX Spectrum): sectors of 256 bytes.
    TrDos,
}

/// The number of sectors that a boot sector announces.
pub open spec fn total_in(boot: Seq<u8>) -> int {
    if u16_at(boot, 0x13) != 0 {
        u16_at(boot, 0x13)
    } else {
        u32_at(boot, 0x20)
    }
}

/// `a / b`, rounded up.
pub open spec fn divide_up(a: int, b: int) -> int {
    (a + b - 1) / b
}

/// The geometry that a boot sector announces. Heads, sectors on a track and
/// cylinders keep their low bits where they are too large.
pub open spec fn bpb_of(boot: Seq<u8>) -> Option<Geometry> {
    let bytes = u16_at(boot, 0x0B);
    let spt = u16_at(boot, 0x18);
    let heads = u16_at(boot, 0x1A);
    let total = total_in(boot);
    if boot.len() < 36 || bytes == 0 || spt == 0 || heads == 0 || total == 0 {
        None
    } else {
        Some(
            Geometry {
                cylinders: (divide_up(total, spt * heads) % 0x1_0000) as u16,
                heads: (heads % 0x100) as u8,
                sectors_per_track: (spt % 0x100) as u8,
                bytes_per_sector: bytes as u16,
                total_sectors: total as u64,
            },
        )
    }
}

/// Reads the geometry from the parameter block of a boot sector.
pub fn parse_bpb(boot: &[u8]) -> (g: Option<Geometry>)
    ensures
        g == bpb_of(boot@),
{
    if boot.len() < 36 {
        return None;
    }
    let bytes: u16 = u16_le(boot, 0x0B);
    let spt: u16 = u16_le(boot, 0x18);
    let heads: u16 = u16_le(boot, 0x1A);
    let total16: u16 = u16_le(boot, 0x13);
    let total: u64 = if total16 != 0 {
        total16 as u64
    } else {
        u32_le(boot, 0x20) as u64
    };
    if bytes == 0 || spt == 0 || heads == 0 || total == 0 {
        return None;
    }
    assert(1 <= spt * heads <= 0xFFFF * 0xFFFF) by (nonlinear_arith)
        requires
            1 <= spt <= 0xFFFF,
            1 <= heads <= 0xFFFF,
    ;
    let per_cylinder: u64 = spt as u64 * heads as u64;
    let cylinders: u64 = (total + per_cylinder - 1) / per_cylinder;
    Some(
        Geometry {
            cylinders: (cylinders % 0x1_0000) as u16,
            heads: (heads % 0x100) as u8,
            sectors_per_track: (spt % 0x100) as u8,
            bytes_per_sector: bytes,
            total_sectors: total,
        },
    )
}

/// The cylinders of a boot sector hold all its sectors, and one cylinder less would
/// not, as long as no number was cut.
pub proof fn law_cylinders_hold_sectors(boot: Seq<u8>)
    requires
        bpb_of(boot) is Some,
        u16_at(boot, 0x18) < 0x100,
        u16_at(boot, 0x1A) < 0x100,
        divide_up(total_in(boot), u16_at(boot, 0x18) * u16_at(boot, 0x1A)) < 0x1_0000,
    ensures
        ({
            let g = bpb_of(boot)->0;
            let per_cylinder = g.sectors_per_track * g.heads;
            &&& g.total_sectors == total_in(boot)
            &&& g.total_sectors <= g.cylinders * per_cylinder
            &&& (g.cylinders - 1) * per_cylinder < g.total_sectors
        }),
{
    let spt = u16_at(boot, 0x18);
    let heads = u16_at(boot, 0x1A);
    let total = total_in(boot);
    let p = spt * heads;
    assert(p > 0) by (nonlinear_arith)
        requires
            spt > 0,
            heads > 0,
            p == spt * heads,
    ;
    let c = divide_up(total, p);
    assert(total <= c * p && (c - 1) * p < total && 0 <= c) by (nonlinear_arith)
        requires
            c == (total + p - 1) / p,
            p > 0,
            total > 0,
    ;
    let g = bpb_of(boot)->0;
    assert(g.sectors_per_track * g.heads == p);
}

/// How many of the sectors have 256 bytes.
pub open spec fn count_256(sectors: Seq<SectorView>) -> nat
    decreases sectors.len(),
{
    if sectors.len() == 0 {
        0
    } else {
        count_256(sectors.drop_last()) + if sectors.last().size_code == 1 {
            1nat
        } else {
            0nat
        }
    }
}

/// The highest number of a sector of 256 bytes; with `good`, of one whose CRC is
/// right. `None` where there is none.
pub open spec fn highest_256(sectors: Seq<SectorView>, good: bool) -> Option<u8>
    decreases sectors.len(),
{
    if sectors.len() == 0 {
        None
    } else {
        let s = sectors.last();
        let before = highest_256(sectors.drop_last(), good);
        if s.size_code == 1 && (good ==> s.data_crc_ok) {
            match before {
                Some(r) if r >= s.sector => before,
                _ => Some(s.sector),
            }
        } else {
            before
        }
    }
}

/// The sectors on a track of a TR-DOS disk, by the highest number met, within the
/// limits of the format.
pub open spec fn trdos_spt(sectors: Seq<SectorView>) -> u8 {
    let r = match highest_256(sectors, true) {
        Some(r) => r,
        None => match highest_256(sectors, false) {
            Some(r) => r,
            None => 16,
        },
    };
    if r < 9 {
        9
    } else if r > 16 {
        16
    } else {
        r
    }
}

/// The geometry of a TR-DOS disk: one side of 80 tracks. `None` where the track has
/// fewer than four sectors of 256 bytes.
pub open spec fn trdos_of(sectors: Seq<SectorView>) -> Option<Geometry> {
    if count_256(sectors) < 4 {
        None
    } else {
        Some(
            Geometry {
                cylinders: 80,
                heads: 1,
                sectors_per_track: trdos_spt(sectors),
                bytes_per_sector: 256,
                total_sectors: (80 * trdos_spt(sectors)) as u64,
            },
        )
    }
}

/// The larger of a number and what came before.
fn larger(before: Option<u8>, r: u8) -> (m: Option<u8>)
    ensures
        m == (match before {
            Some(b) if b >= r => before,
            _ => Some(r),
        }),
{
    match before {
        Some(b) => if b >= r {
            before
        } else {
            Some(r)
        },
        None => Some(r),
    }
}

/// Finds the geometry of a TR-DOS disk from the sectors of its track 0.
pub fn trdos_geometry(track0: &[Sector]) -> (g: Option<Geometry>)
    ensures
        g == trdos_of(sector_views(track0@)),
{
    let mut count: usize = 0;
    let mut best: Option<u8> = None;
    let mut any: Option<u8> = None;
    let mut i: usize = 0;
    let ghost all = sector_views(track0@);
    assert(all.take(0) =~= Seq::<SectorView>::empty());
    while i < track0.len()
        invariant
            i <= track0.len(),
            all == sector_views(track0@),
            count <= i,
            count == count_256(all.take(i as int)),
            best == highest_256(all.take(i as int), true),
            any == highest_256(all.take(i as int), false),
        decreases track0.len() - i,
    {
        proof {
            assert(all.take(i + 1).drop_last() =~= all.take(i as int));
            assert(all.take(i + 1).last() == all[i as int]);
        }
        if track0[i].size_code == 1 {
            count = count + 1;
            any = larger(any, track0[i].sector);
            if track0[i].data_crc_ok {
                best = larger(best, track0[i].sector);
            }
        }
        i = i + 1;
    }
    assert(all.take(i as int) =~= all);
    if count < 4 {
        return None;
    }
    let r: u8 = match best {
        Some(r) => r,
        None => match any {
            Some(r) => r,
            None => 16,
        },
    };
    let spt: u8 = if r < 9 {
        9
    } else if r > 16 {
        16
    } else {
        r
    };
    Some(
        Geometry {
            cylinders: 80,
            heads: 1,
            sectors_per_track: spt,
            bytes_per_sector: 256,
            total_sectors: 80 * spt as u64,
        },
    )
}

// ---------------------------------------------------------------------------
// Block numbers and places on the disk
// ---------------------------------------------------------------------------

/// The place of a block: cylinder, head, and sector counted from 1. The cylinder
/// keeps its low 16 bits.
pub open spec fn chs_of(g: Geometry, lba: int) -> (u16, u8, u8) {
    let spt = g.sectors_per_track as int;
    let per_cylinder = spt * g.heads;
    (
        (lba / per_cylinder % 0x1_0000) as u16,
        (lba % per_cylinder / spt) as u8,
        (lba % per_cylinder % spt + 1) as u8,
    )
}

/// The number of the block at a place.
pub open spec fn lba_of(g: Geometry, chs: (u16, u8, u8)) -> int {
    (chs.0 * g.heads + chs.1) * g.sectors_per_track + (chs.2 - 1)
}

proof fn lemma_chs_bounds(g: Geometry, lba: int)
    requires
        g.sectors_per_track > 0,
        g.heads > 0,
        0 <= lba,
    ensures
        ({
            let spt = g.sectors_per_track as int;
            let per_cylinder = spt * g.heads;
            &&& 0 < per_cylinder <= 0xFF * 0xFF
            &&& 0 <= lba % per_cylinder / spt < g.heads
            &&& 0 <= lba % per_cylinder % spt < spt
            &&& 0 <= lba / per_cylinder
        }),
{
    let spt = g.sectors_per_track as int;
    let heads = g.heads as int;
    let per_cylinder = spt * heads;
    assert(0 < per_cylinder <= 0xFF * 0xFF) by (nonlinear_arith)
        requires
            0 < spt <= 0xFF,
            0 < heads <= 0xFF,
            per_cylinder == spt * heads,
    ;
    let rem = lba % per_cylinder;
    assert(0 <= rem / spt < heads) by (nonlinear_arith)
        requires
            0 <= rem < spt * heads,
            0 < spt,
    ;
    assert(0 <= lba / per_cylinder) by (nonlinear_arith)
        requires
            0 <= lba,
            0 < per_cylinder,
    ;
}

/// Finds the place of a block. The geometry must have heads and sectors.
pub fn lba_to_chs(g: &Geometry, lba: u64) -> (chs: (u16, u8, u8))
    requires
        g.sectors_per_track > 0,
        g.heads > 0,
    ensures
        chs == chs_of(*g, lba as int),
{
    proof {
        lemma_chs_bounds(*g, lba as int);
    }
    let spt: u64 = g.sectors_per_track as u64;
    let per_cylinder: u64 = spt * g.heads as u64;
    let rem: u64 = lba % per_cylinder;
    (
        (lba / per_cylinder % 0x1_0000) as u16,
        (rem / spt) as u8,
        (rem % spt) as u8 + 1,
    )
}

/// The place of a block has a head and a sector that the geometry has, and leads
/// back to the block, as long as the cylinder fits.
pub proof fn law_chs_inverse(g: Geometry, lba: int)
    requires
        g.sectors_per_track > 0,
        g.heads > 0,
        0 <= lba,
        lba / (g.sectors_per_track * g.heads) < 0x1_0000,
    ensures
        lba_of(g, chs_of(g, lba)) == lba,
        chs_of(g, lba).1 < g.heads,
        1 <= chs_of(g, lba).2 <= g.sectors_per_track,
{
    lemma_chs_bounds(g, lba);
    let spt = g.sectors_per_track as int;
    let heads = g.heads as int;
    let per_cylinder = spt * heads;
    let c = lba / per_cylinder;
    let rem = lba % per_cylinder;
    let h = rem / spt;
    let s = rem % spt;
    vstd::arithmetic::div_mod::lemma_fundamental_div_mod(lba, per_cylinder);
    vstd::arithmetic::div_mod::lemma_fundamental_div_mod(rem, spt);
    assert((c * heads + h) * spt + s == per_cylinder * c + (spt * h + s)) by (nonlinear_arith)
        requires
            per_cylinder == spt * heads,
    ;
}

/// Every place that the geometry has is the place of a block.
pub proof fn law_lba_inverse(g: Geometry, chs: (u16, u8, u8))
    requires
        chs.1 < g.heads,
        1 <= chs.2 <= g.sectors_per_track,
    ensures
        0 <= lba_of(g, chs),
        chs_of(g, lba_of(g, chs)) == chs,
{
    let spt = g.sectors_per_track as int;
    let heads = g.heads as int;
    let per_cylinder = spt * heads;
    let c = chs.0 as int;
    let h = chs.1 as int;
    let s = chs.2 - 1;
    let rem = h * spt + s;
    let lba = lba_of(g, chs);
    assert(0 <= rem < per_cylinder) by (nonlinear_arith)
        requires
            0 <= h < heads,
            0 <= s < spt,
            rem == h * spt + s,
            per_cylinder == spt * heads,
    ;
    assert(lba == c * per_cylinder + rem) by (nonlinear_arith)
        requires
            lba == (c * heads + h) * spt + s,
            rem == h * spt + s,
            per_cylinder == spt * heads,
    ;
    assert(0 <= c * per_cylinder) by (nonlinear_arith)
        requires
            0 <= c,
            0 <= per_cylinder,
    ;
    vstd::arithmetic::div_mod::lemma_fundamental_div_mod_converse(lba, per_cylinder, c, rem);
    vstd::arithmetic::div_mod::lemma_fundamental_div_mod_converse(rem, spt, h, s);
}

// ---------------------------------------------------------------------------
// What a track says
// ---------------------------------------------------------------------------

/// Whether a sector can be a boot sector: number 1, 512 bytes; with `good`, a right
/// CRC too.
pub open spec fn boot_like(s: SectorView, good: bool) -> bool {
    s.sector == 1 && s.size_code == 2 && (good ==> s.data_crc_ok)
}

/// The first sector that can be a boot sector.
pub open spec fn first_boot(sectors: Seq<SectorView>, good: bool) -> Option<SectorView>
    decreases sectors.len(),
{
    if sectors.len() == 0 {
        None
    } else {
        match first_boot(sectors.drop_last(), good) {
            Some(s) => Some(s),
            None => if boot_like(sectors.last(), good) {
                Some(sectors.last())
            } else {
                None
            },
        }
    }
}

/// The boot sector of a track: the first with a right CRC, or else the first.
pub open spec fn boot_of(sectors: Seq<SectorView>) -> Option<SectorView> {
    match first_boot(sectors, true) {
        Some(s) => Some(s),
        None => first_boot(sectors, false),
    }
}

/// The format of the disk whose track 0 holds `sectors`.
pub open spec fn format_of(sectors: Seq<SectorView>) -> Option<(Geometry, DiskKind)> {
    let fat = match boot_of(sectors) {
        Some(s) => bpb_of(s.data),
        None => None,
    };
    match fat {
        Some(g) => Some((g, DiskKind::Fat)),
        None => match trdos_of(sectors) {
            Some(g) => Some((g, DiskKind::TrDos)),
            None => None,
        },
    }
}

fn find_boot(sectors: &[Sector], good: bool) -> (r: Option<usize>)
    ensures
        match r {
            Some(i) => i < sectors.len() && first_boot(sector_views(sectors@), good) == Some(
                sectors@[i as int]@,
            ),
            None => first_boot(sector_views(sectors@), good) is None,
        },
{
    let mut found: Option<usize> = None;
    let mut i: usize = 0;
    let ghost all = sector_views(sectors@);
    assert(all.take(0) =~= Seq::<SectorView>::empty());
    while i < sectors.len()
        invariant
            i <= sectors.len(),
            all == sector_views(sectors@),
            match found {
                Some(k) => k < sectors.len() && first_boot(all.take(i as int), good) == Some(
                    sectors@[k as int]@,
                ),
                None => first_boot(all.take(i as int), good) is None,
            },
        decreases sectors.len() - i,
    {
        proof {
            assert(all.take(i + 1).drop_last() =~= all.take(i as int));
            assert(all.take(i + 1).last() == all[i as int]);
        }
        if found.is_none() && sectors[i].sector == 1 && sectors[i].size_code == 2 && (!good
            || sectors[i].data_crc_ok) {
            found = Some(i);
        }
        i = i + 1;
    }
    assert(all.take(i as int) =~= all);
    found
}

/// Finds out how a disk is formatted from the sectors of its track 0.
pub fn detect_format(sectors: &[Sector]) -> (r: Option<(Geometry, DiskKind)>)
    ensures
        r == format_of(sector_views(sectors@)),
{
    let boot: Option<usize> = match find_boot(sectors, true) {
        Some(i) => Some(i),
        None => find_boot(sectors, false),
    };
    if let Some(i) = boot {
        if let Some(g) = parse_bpb(sectors[i].data.as_slice()) {
            return Some((g, DiskKind::Fat));
        }
    }
    match trdos_geometry(sectors) {
        Some(g) => Some((g, DiskKind::TrDos)),
        None => None,
    }
}

/// How many of the sectors have a right CRC.
pub open spec fn count_good(sectors: Seq<SectorView>) -> nat
    decreases sectors.len(),
{
    if sectors.len() == 0 {
        0
    } else {
        count_good(sectors.drop_last()) + if sectors.last().data_crc_ok {
            1nat
        } else {
            0nat
        }
    }
}

/// Whether a sector has the number `r`.
pub open spec fn has_number(sectors: Seq<SectorView>, r: u8) -> bool {
    exists|i: int| 0 <= i < sectors.len() && (#[trigger] sectors[i]).sector == r
}

/// The numbers below `n` that sectors have, in order, each once.
pub open spec fn numbers_below(sectors: Seq<SectorView>, n: int) -> Seq<u8>
    decreases n,
{
    if n <= 0 {
        Seq::empty()
    } else if has_number(sectors, (n - 1) as u8) {
        numbers_below(sectors, n - 1).push((n - 1) as u8)
    } else {
        numbers_below(sectors, n - 1)
    }
}

/// Counts the sectors with a right CRC, and lists the numbers that occur, in
/// order.
pub fn track_summary(sectors: &[Sector]) -> (r: (usize, Vec<u8>))
    ensures
        r.0 == count_good(sector_views(sectors@)),
        r.1@ == numbers_below(sector_views(sectors@), 256),
{
    let ghost all = sector_views(sectors@);
    let mut good: usize = 0;
    let mut i: usize = 0;
    assert(all.take(0) =~= Seq::<SectorView>::empty());
    while i < sectors.len()
        invariant
            i <= sectors.len(),
            all == sector_views(sectors@),
            good <= i,
            good == count_good(all.take(i as int)),
        decreases sectors.len() - i,
    {
        proof {
            assert(all.take(i + 1).drop_last() =~= all.take(i as int));
            assert(all.take(i + 1).last() == all[i as int]);
        }
        if sectors[i].data_crc_ok {
            good = good + 1;
        }
        i = i + 1;
    }
    assert(all.take(i as int) =~= all);
    let mut numbers: Vec<u8> = Vec::new();
    let mut n: u16 = 0;
    while n < 256
        invariant
            n <= 256,
            all == sector_views(sectors@),
            numbers@ == numbers_below(all, n as int),
        decreases 256 - n,
    {
        if occurs(sectors, n as u8) {
            numbers.push(n as u8);
        }
        n = n + 1;
    }
    (good, numbers)
}

fn occurs(sectors: &[Sector], r: u8) -> (found: bool)
    ensures
        found == has_number(sector_views(sectors@), r),
{
    let ghost all = sector_views(sectors@);
    let mut i: usize = 0;
    while i < sectors.len()
        invariant
            i <= sectors.len(),
            all == sector_views(sectors@),
            forall|k: int| 0 <= k < i ==> (#[trigger] all[k]).sector != r,
        decreases sectors.len() - i,
    {
        if sectors[i].sector == r {
            assert(all[i as int].sector == r);
            return true;
        }
        i = i + 1;
    }
    false
}

} // verus!
