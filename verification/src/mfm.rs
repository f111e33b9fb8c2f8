//! IBM System 34 (PC) MFM: from bit cells to sectors.
//!
//! One cell is half an MFM bit, clock and data cells alternating; a flux
//! reversal is a cell that holds `true`. A sector is announced by a run of sync
//! marks (`A1` with a missing clock, cells `0x4489`), an address mark and a CRC.

use self::pll::flux_cells;
use self::pll::flux_to_cells;
use self::pll::nonzero;
use vstd::arithmetic::power2::lemma_pow2_pos;
use vstd::arithmetic::power2::lemma_pow2_strictly_increases;
use vstd::arithmetic::power2::lemma_pow2_unfold;
use vstd::arithmetic::power2::pow2;
use vstd::bits::lemma_u64_shl_is_mul;
use vstd::prelude::*;

pub mod cell_laws;
pub mod crc_laws;
pub mod encode;
pub mod flux_laws;
pub mod jitter;
pub mod pll;
pub mod pll_laws;
pub mod roundtrip;

verus! {

/// Cells of the sync mark `A1`, most significant first.
pub const SYNC_A1: u16 = 0x4489;

/// ID address mark.
pub const IDAM: u8 = 0xFE;

/// Data address mark.
pub const DAM: u8 = 0xFB;

/// Deleted data address mark.
pub const DAM_DELETED: u8 = 0xF8;

// ---------------------------------------------------------------------------
// CRC
// ---------------------------------------------------------------------------

/// One step of the shift register of the polynomial x^16 + x^12 + x^5 + 1.
pub open spec fn crc_shift(crc: u16) -> u16 {
    if crc & 0x8000 != 0 {
        (crc << 1) ^ 0x1021
    } else {
        crc << 1
    }
}

/// `n` steps of the shift register.
pub open spec fn crc_shifts(crc: u16, n: nat) -> u16
    decreases n,
{
    if n == 0 {
        crc
    } else {
        crc_shift(crc_shifts(crc, (n - 1) as nat))
    }
}

/// The register after one more message byte.
pub open spec fn crc_byte(crc: u16, b: u8) -> u16 {
    crc_shifts(crc ^ ((b as u16) << 8), 8)
}

/// The register after all of `data`, started at `seed`.
pub open spec fn crc_of(seed: u16, data: Seq<u8>) -> u16
    decreases data.len(),
{
    if data.len() == 0 {
        seed
    } else {
        crc_byte(crc_of(seed, data.drop_last()), data.last())
    }
}

/// CRC16-CCITT (polynomial 0x1021, not reflected) of `data`, started at `seed`.
pub fn crc16(seed: u16, data: &[u8]) -> (crc: u16)
    ensures
        crc == crc_of(seed, data@),
{
    let mut crc: u16 = seed;
    let mut i: usize = 0;
    assert(data@.take(0) =~= Seq::<u8>::empty());
    while i < data.len()
        invariant
            i <= data.len(),
            crc == crc_of(seed, data@.take(i as int)),
        decreases data.len() - i,
    {
        let b: u8 = data[i];
        let ghost start = crc ^ ((b as u16) << 8);
        crc = crc ^ ((b as u16) << 8);
        let mut k: usize = 0;
        while k < 8
            invariant
                k <= 8,
                crc == crc_shifts(start, k as nat),
            decreases 8 - k,
        {
            if crc & 0x8000 != 0 {
                crc = (crc << 1) ^ 0x1021;
            } else {
                crc = crc << 1;
            }
            k += 1;
        }
        proof {
            let next = data@.take(i + 1);
            assert(next.drop_last() =~= data@.take(i as int));
            assert(next.last() == b);
        }
        i += 1;
    }
    assert(data@.take(i as int) =~= data@);
    crc
}

// ---------------------------------------------------------------------------
// Cells
// ---------------------------------------------------------------------------

/// The number whose binary digits, most significant first, are `s`.
pub open spec fn bits_value(s: Seq<bool>) -> nat
    decreases s.len(),
{
    if s.len() == 0 {
        0
    } else {
        2 * bits_value(s.drop_last()) + (if s.last() { 1nat } else { 0nat })
    }
}

/// `n` digits are worth less than two to the `n`.
pub proof fn lemma_bits_value_bound(s: Seq<bool>)
    ensures
        bits_value(s) < pow2(s.len()),
    decreases s.len(),
{
    if s.len() == 0 {
        lemma_pow2_pos(0);
    } else {
        lemma_bits_value_bound(s.drop_last());
        lemma_pow2_unfold(s.len());
    }
}

/// Digit strings of one length with one value are one string.
pub proof fn lemma_bits_value_injective(s: Seq<bool>, t: Seq<bool>)
    requires
        s.len() == t.len(),
        bits_value(s) == bits_value(t),
    ensures
        s == t,
    decreases s.len(),
{
    if s.len() == 0 {
        assert(s =~= t);
    } else {
        lemma_bits_value_injective(s.drop_last(), t.drop_last());
        assert(s =~= s.drop_last().push(s.last()));
        assert(t =~= t.drop_last().push(t.last()));
    }
}

/// The sixteen cells of a sync mark.
pub open spec fn sync_cells() -> Seq<bool> {
    seq![
        false, true, false, false,
        false, true, false, false,
        true, false, false, false,
        true, false, false, true,
    ]
}

pub(crate) proof fn lemma_sync_value(s: Seq<bool>)
    requires
        s.len() == 16,
    ensures
        bits_value(s) == SYNC_A1 <==> s == sync_cells(),
{
    let c = sync_cells();
    lemma_sync_cells_value();
    if bits_value(s) == SYNC_A1 {
        lemma_bits_value_injective(s, c);
    }
}

proof fn lemma_sync_cells_value()
    ensures
        bits_value(sync_cells()) == SYNC_A1,
{
    let c = sync_cells();
    reveal_with_fuel(bits_value, 17);
    assert(c.take(16) =~= c);
    assert(bits_value(c.take(0)) == 0);
    assert(c.take(1).drop_last() =~= c.take(0));
    assert(c.take(2).drop_last() =~= c.take(1));
    assert(c.take(3).drop_last() =~= c.take(2));
    assert(c.take(4).drop_last() =~= c.take(3));
    assert(bits_value(c.take(4)) == 4);
    assert(c.take(5).drop_last() =~= c.take(4));
    assert(c.take(6).drop_last() =~= c.take(5));
    assert(c.take(7).drop_last() =~= c.take(6));
    assert(c.take(8).drop_last() =~= c.take(7));
    assert(bits_value(c.take(8)) == 0x44);
    assert(c.take(9).drop_last() =~= c.take(8));
    assert(c.take(10).drop_last() =~= c.take(9));
    assert(c.take(11).drop_last() =~= c.take(10));
    assert(c.take(12).drop_last() =~= c.take(11));
    assert(bits_value(c.take(12)) == 0x448);
    assert(c.take(13).drop_last() =~= c.take(12));
    assert(c.take(14).drop_last() =~= c.take(13));
    assert(c.take(15).drop_last() =~= c.take(14));
    assert(c.take(16).drop_last() =~= c.take(15));
}

/// Whether the sixteen cells from `p` on exist.
pub open spec fn has_unit(cells: Seq<bool>, p: int) -> bool {
    0 <= p && p + 16 <= cells.len()
}

/// Whether a sync mark starts at cell `p`.
pub open spec fn sync_at(cells: Seq<bool>, p: int) -> bool {
    has_unit(cells, p) && cells.subrange(p, p + 16) == sync_cells()
}

/// The data cells (the odd ones) of the sixteen cells from `p` on.
pub open spec fn data_cells(cells: Seq<bool>, p: int) -> Seq<bool> {
    Seq::new(8, |k: int| cells[p + 2 * k + 1])
}

/// The byte that the sixteen cells from `p` on hold.
pub open spec fn byte_at(cells: Seq<bool>, p: int) -> u8 {
    bits_value(data_cells(cells, p)) as u8
}

/// The `count` bytes from cell `p` on.
pub open spec fn bytes_at(cells: Seq<bool>, p: int, count: nat) -> Seq<u8> {
    Seq::new(count, |i: int| byte_at(cells, p + 16 * i))
}

/// The sixteen cells from `p` on as a number, most significant cell first.
pub fn window16(cells: &[bool], p: usize) -> (r: Option<u16>)
    ensures
        r matches Some(v) ==> has_unit(cells@, p as int) && v == bits_value(
            cells@.subrange(p as int, p + 16),
        ),
        r is None ==> !has_unit(cells@, p as int),
{
    if p > cells.len() || cells.len() - p < 16 {
        return None;
    }
    let mut v: u16 = 0;
    let mut i: usize = 0;
    assert(cells@.subrange(p as int, p as int) =~= Seq::<bool>::empty());
    while i < 16
        invariant
            i <= 16,
            p + 16 <= cells.len(),
            v == bits_value(cells@.subrange(p as int, p + i)),
        decreases 16 - i,
    {
        proof {
            let s = cells@.subrange(p as int, p + i);
            lemma_bits_value_bound(s);
            if i < 15 {
                lemma_pow2_strictly_increases(i as nat, 15);
            }
            vstd::arithmetic::power2::lemma2_to64();
            assert(cells@.subrange(p as int, p + i + 1).drop_last() =~= s);
        }
        v = 2 * v + (if cells[p + i] { 1 } else { 0 });
        i += 1;
    }
    Some(v)
}

/// The byte that the sixteen cells from `p` on hold in their data cells.
pub fn decode_byte(cells: &[bool], p: usize) -> (r: Option<u8>)
    ensures
        r == (if has_unit(cells@, p as int) {
            Some(byte_at(cells@, p as int))
        } else {
            None
        }),
{
    if p > cells.len() || cells.len() - p < 16 {
        return None;
    }
    let mut b: u8 = 0;
    let mut k: usize = 0;
    let ghost all = data_cells(cells@, p as int);
    assert(all.take(0) =~= Seq::<bool>::empty());
    while k < 8
        invariant
            k <= 8,
            p + 16 <= cells.len(),
            all == data_cells(cells@, p as int),
            b == bits_value(all.take(k as int)),
        decreases 8 - k,
    {
        proof {
            let s = all.take(k as int);
            lemma_bits_value_bound(s);
            if k < 7 {
                lemma_pow2_strictly_increases(k as nat, 7);
            }
            vstd::arithmetic::power2::lemma2_to64();
            assert(all.take(k + 1).drop_last() =~= s);
            assert(all.take(k + 1).last() == cells@[p + 2 * k + 1]);
        }
        b = 2 * b + (if cells[p + 2 * k + 1] { 1 } else { 0 });
        k += 1;
    }
    assert(all.take(8) =~= all);
    Some(b)
}

/// The `count` bytes from cell `p` on, if the cells for all of them exist.
pub fn read_bytes(cells: &[bool], p: usize, count: usize) -> (r: Option<Vec<u8>>)
    ensures
        r is Some <==> count == 0 || p + 16 * count <= cells.len(),
        r matches Some(v) ==> v@ == bytes_at(cells@, p as int, count as nat),
{
    if count > 0 && (p > cells.len() || (cells.len() - p) / 16 < count) {
        return None;
    }
    let mut out: Vec<u8> = Vec::new();
    let mut i: usize = 0;
    while i < count
        invariant
            i <= count,
            count > 0 ==> p + 16 * count <= cells.len(),
            out@ == bytes_at(cells@, p as int, i as nat),
        decreases count - i,
    {
        match decode_byte(cells, p + i * 16) {
            Some(b) => out.push(b),
            None => return None,
        }
        i += 1;
    }
    Some(out)
}

// ---------------------------------------------------------------------------
// Sectors
// ---------------------------------------------------------------------------

/// One decoded sector of a track.
#[derive(Debug, Clone)]
pub struct Sector {
    pub cyl: u8,
    pub head: u8,
    /// Sector number, mostly counted from 1.
    pub sector: u8,
    /// Size code: the sector holds `128 << size_code` bytes.
    pub size_code: u8,
    pub data: Vec<u8>,
    pub id_crc_ok: bool,
    pub data_crc_ok: bool,
    pub deleted: bool,
}

/// What a [`Sector`] holds.
pub struct SectorView {
    pub cyl: u8,
    pub head: u8,
    pub sector: u8,
    pub size_code: u8,
    pub data: Seq<u8>,
    pub id_crc_ok: bool,
    pub data_crc_ok: bool,
    pub deleted: bool,
}

impl View for Sector {
    type V = SectorView;

    open spec fn view(&self) -> SectorView {
        SectorView {
            cyl: self.cyl,
            head: self.head,
            sector: self.sector,
            size_code: self.size_code,
            data: self.data@,
            id_crc_ok: self.id_crc_ok,
            data_crc_ok: self.data_crc_ok,
            deleted: self.deleted,
        }
    }
}

/// What a list of sectors holds.
pub open spec fn sector_views(v: Seq<Sector>) -> Seq<SectorView> {
    Seq::new(v.len(), |i: int| v[i]@)
}

/// The value of `128 << n` in 64 bits, for `n` below 64: the bits that are
/// shifted out are lost.
pub open spec fn sector_size(n: u8) -> nat {
    if n < 57 {
        128 * pow2(n as nat)
    } else {
        0
    }
}

/// `128 << n` in 64 bits.
fn size_of_code(n: u8) -> (r: u64)
    requires
        n < 64,
    ensures
        r == sector_size(n),
{
    proof {
        if n < 57 {
            if n < 56 {
                lemma_pow2_strictly_increases(n as nat, 56);
            }
            vstd::arithmetic::power2::lemma2_to64_rest();
            lemma_u64_shl_is_mul(128, n as u64);
        } else {
            assert(57 <= n < 64 ==> 128u64 << (n as u64) == 0) by (bit_vector);
        }
    }
    128u64 << (n as u64)
}

impl Sector {
    /// The nominal size of the sector in bytes.
    pub fn size(&self) -> (r: usize)
        requires
            self.size_code < 64,
            sector_size(self.size_code) <= usize::MAX,
        ensures
            r == sector_size(self.size_code),
    {
        size_of_code(self.size_code) as usize
    }
}

/// The positions of the sync marks that a scan from cell `i` on meets: a scan
/// that has met a mark goes on behind it.
pub open spec fn syncs_from(cells: Seq<bool>, i: int) -> Seq<int>
    decreases cells.len() - i,
{
    if i < 0 || i + 16 > cells.len() {
        Seq::empty()
    } else if sync_at(cells, i) {
        seq![i] + syncs_from(cells, i + 16)
    } else {
        syncs_from(cells, i + 1)
    }
}

/// A run of adjacent sync marks.
pub struct Run {
    /// The first cell of the first mark.
    pub start: int,
    /// How many marks follow one another without a gap.
    pub count: int,
}

/// One more mark at `s`: it prolongs the last run or opens a new one.
pub open spec fn add_sync(runs: Seq<Run>, s: int) -> Seq<Run> {
    if runs.len() > 0 && s == runs.last().start + runs.last().count * 16 {
        runs.drop_last().push(Run { start: runs.last().start, count: runs.last().count + 1 })
    } else {
        runs.push(Run { start: s, count: 1 })
    }
}

/// The runs of the marks at `syncs`.
pub open spec fn runs_of(syncs: Seq<int>) -> Seq<Run>
    decreases syncs.len(),
{
    if syncs.len() == 0 {
        Seq::empty()
    } else {
        add_sync(runs_of(syncs.drop_last()), syncs.last())
    }
}

/// The fields of an ID address mark.
pub struct SectorId {
    pub cyl: u8,
    pub head: u8,
    pub sector: u8,
    pub size_code: u8,
    pub crc_ok: bool,
}

/// The ID that stands in for one that was not seen.
pub open spec fn missing_id() -> SectorId {
    SectorId { cyl: 0, head: 0, sector: 0, size_code: 2, crc_ok: false }
}

/// The bytes that the CRC of a mark covers: up to three `A1`, the mark, its body.
pub open spec fn crc_input(count: int, mark: u8, body: Seq<u8>) -> Seq<u8> {
    Seq::new((if count < 3 { count } else { 3 }) as nat, |i: int| 0xA1u8).push(mark) + body
}

/// Whether `hi`, `lo` are the CRC of the mark and its body.
pub open spec fn crc_matches(count: int, mark: u8, body: Seq<u8>, hi: u8, lo: u8) -> bool {
    crc_of(0xFFFF, crc_input(count, mark, body)) == hi * 256 + lo
}

/// How far the decoder has come: the last ID that no data has claimed yet, and
/// the sectors found.
pub struct Progress {
    pub pending: Option<SectorId>,
    pub sectors: Seq<SectorView>,
}

/// The ID that the body of an ID mark at cell `mark_pos` holds.
pub open spec fn id_at(cells: Seq<bool>, mark_pos: int, count: int) -> SectorId {
    let body = bytes_at(cells, mark_pos + 16, 6);
    SectorId {
        cyl: body[0],
        head: body[1],
        sector: body[2],
        size_code: body[3],
        crc_ok: crc_matches(count, IDAM, body.take(4), body[4], body[5]),
    }
}

/// The sector that a data mark at cell `mark_pos` holds, under the ID `id`.
pub open spec fn sector_at(
    cells: Seq<bool>,
    mark_pos: int,
    count: int,
    mark: u8,
    id: SectorId,
) -> SectorView {
    let size = sector_size(id.size_code) as int;
    let body = bytes_at(cells, mark_pos + 16, (size + 2) as nat);
    SectorView {
        cyl: id.cyl,
        head: id.head,
        sector: id.sector,
        size_code: id.size_code,
        data: body.take(size),
        id_crc_ok: id.crc_ok,
        data_crc_ok: crc_matches(count, mark, body.take(size), body[size], body[size + 1]),
        deleted: mark == DAM_DELETED,
    }
}

/// What the run `run` adds. `None` where a data mark stands under a size code
/// that no shift of a 64-bit word can follow.
pub open spec fn take_run(cells: Seq<bool>, st: Progress, run: Run) -> Option<Progress> {
    let mark_pos = run.start + run.count * 16;
    if !has_unit(cells, mark_pos) {
        Some(st)
    } else {
        let mark = byte_at(cells, mark_pos);
        if mark == IDAM {
            if mark_pos + 16 * 7 <= cells.len() {
                Some(
                    Progress {
                        pending: Some(id_at(cells, mark_pos, run.count)),
                        sectors: st.sectors,
                    },
                )
            } else {
                Some(st)
            }
        } else if mark == DAM || mark == DAM_DELETED {
            let id = match st.pending {
                Some(id) => id,
                None => missing_id(),
            };
            if id.size_code >= 64 {
                None
            } else if mark_pos + 16 * (sector_size(id.size_code) + 3) <= cells.len() {
                Some(
                    Progress {
                        pending: None,
                        sectors: st.sectors.push(
                            sector_at(cells, mark_pos, run.count, mark, id),
                        ),
                    },
                )
            } else {
                Some(Progress { pending: None, sectors: st.sectors })
            }
        } else {
            Some(st)
        }
    }
}

/// What the runs in `runs` give, in order.
pub open spec fn take_runs(cells: Seq<bool>, runs: Seq<Run>) -> Option<Progress>
    decreases runs.len(),
{
    if runs.len() == 0 {
        Some(Progress { pending: None, sectors: Seq::empty() })
    } else {
        match take_runs(cells, runs.drop_last()) {
            Some(st) => take_run(cells, st, runs.last()),
            None => None,
        }
    }
}

/// The sectors in `cells`, in the order of their data marks; `None` where a
/// data mark stands under a size code of 64 or more.
pub open spec fn sectors_in(cells: Seq<bool>) -> Option<Seq<SectorView>> {
    match take_runs(cells, runs_of(syncs_from(cells, 0))) {
        Some(st) => Some(st.sectors),
        None => None,
    }
}

/// The positions of all sync marks.
fn find_syncs(cells: &[bool]) -> (syncs: Vec<usize>)
    ensures
        syncs@.map_values(|p: usize| p as int) == syncs_from(cells@, 0),
        forall|k: int| 0 <= k < syncs@.len() ==> syncs@[k] + 16 <= cells.len(),
{
    let mut syncs: Vec<usize> = Vec::new();
    let mut i: usize = 0;
    let ghost whole = syncs_from(cells@, 0);
    assert(syncs@.map_values(|p: usize| p as int) =~= Seq::<int>::empty());
    assert(Seq::<int>::empty() + syncs_from(cells@, 0) =~= syncs_from(cells@, 0));
    while i <= cells.len() && cells.len() - i >= 16
        invariant
            i <= cells.len(),
            whole == syncs_from(cells@, 0),
            syncs@.map_values(|p: usize| p as int) + syncs_from(cells@, i as int) == whole,
            forall|k: int| 0 <= k < syncs@.len() ==> syncs@[k] + 16 <= cells.len(),
        decreases cells.len() - i,
    {
        proof {
            lemma_sync_value(cells@.subrange(i as int, i + 16));
        }
        let found = match window16(cells, i) {
            Some(v) => v == SYNC_A1,
            None => false,
        };
        if found {
            let ghost before = syncs@.map_values(|p: usize| p as int);
            syncs.push(i);
            proof {
                assert(syncs@.map_values(|p: usize| p as int) =~= before.push(i as int));
                assert(before.push(i as int) + syncs_from(cells@, i + 16) =~= before + (seq![
                    i as int,
                ] + syncs_from(cells@, i + 16)));
            }
            i += 16;
        } else {
            i += 1;
        }
    }
    assert(syncs@.map_values(|p: usize| p as int) + Seq::<int>::empty() =~= syncs@.map_values(
        |p: usize| p as int,
    ));
    syncs
}

/// The runs as their first cell and their length.
pub open spec fn run_views(v: Seq<(usize, usize)>) -> Seq<Run> {
    Seq::new(v.len(), |i: int| Run { start: v[i].0 as int, count: v[i].1 as int })
}

/// Groups adjacent sync marks.
fn group_syncs(syncs: &Vec<usize>, limit: usize) -> (runs: Vec<(usize, usize)>)
    requires
        forall|k: int| 0 <= k < syncs@.len() ==> syncs@[k] + 16 <= limit,
    ensures
        run_views(runs@) == runs_of(syncs@.map_values(|p: usize| p as int)),
        forall|k: int|
            0 <= k < runs@.len() ==> 1 <= (#[trigger] runs@[k]).1 && runs@[k].0 + runs@[k].1 * 16
                <= limit,
{
    let mut runs: Vec<(usize, usize)> = Vec::new();
    let mut i: usize = 0;
    let ghost all = syncs@.map_values(|p: usize| p as int);
    assert(run_views(runs@) =~= Seq::<Run>::empty());
    assert(all.take(0) =~= Seq::<int>::empty());
    while i < syncs.len()
        invariant
            i <= syncs.len(),
            all == syncs@.map_values(|p: usize| p as int),
            forall|k: int| 0 <= k < syncs@.len() ==> syncs@[k] + 16 <= limit,
            run_views(runs@) == runs_of(all.take(i as int)),
            forall|k: int|
                0 <= k < runs@.len() ==> 1 <= (#[trigger] runs@[k]).1 && runs@[k].0 + runs@[k].1
                    * 16 <= limit,
        decreases syncs.len() - i,
    {
        let s: usize = syncs[i];
        let ghost before = runs@;
        proof {
            assert(all.take(i + 1).drop_last() =~= all.take(i as int));
            assert(all.take(i + 1).last() == s);
        }
        let n: usize = runs.len();
        if n > 0 && s == runs[n - 1].0 + runs[n - 1].1 * 16 {
            let (start, count) = runs[n - 1];
            runs.pop();
            runs.push((start, count + 1));
            proof {
                assert(run_views(runs@) =~= add_sync(run_views(before), s as int));
            }
        } else {
            runs.push((s, 1));
            proof {
                assert(run_views(runs@) =~= add_sync(run_views(before), s as int));
            }
        }
        i += 1;
    }
    assert(all.take(i as int) =~= all);
    runs
}

/// What an ID mark says of the data that follows.
struct PendingId {
    cyl: u8,
    head: u8,
    sector: u8,
    size_code: u8,
    crc_ok: bool,
}

impl View for PendingId {
    type V = SectorId;

    closed spec fn view(&self) -> SectorId {
        SectorId {
            cyl: self.cyl,
            head: self.head,
            sector: self.sector,
            size_code: self.size_code,
            crc_ok: self.crc_ok,
        }
    }
}

/// Whether the two bytes behind `body` are its CRC: `body` holds the bytes that
/// follow the mark, its last two being the CRC as stored.
fn check_crc(count: usize, mark: u8, body: &Vec<u8>) -> (ok: bool)
    requires
        body@.len() >= 2,
    ensures
        ok == crc_matches(
            count as int,
            mark,
            body@.take(body@.len() - 2),
            body@[body@.len() - 2],
            body@[body@.len() - 1],
        ),
{
    let a1n: usize = if count < 3 { count } else { 3 };
    let mut input: Vec<u8> = Vec::new();
    let mut i: usize = 0;
    while i < a1n
        invariant
            i <= a1n,
            input@ == Seq::new(i as nat, |k: int| 0xA1u8),
        decreases a1n - i,
    {
        input.push(0xA1);
        i += 1;
    }
    input.push(mark);
    let size: usize = body.len() - 2;
    let mut k: usize = 0;
    let ghost head = input@;
    assert(head + body@.take(0) =~= head);
    while k < size
        invariant
            k <= size,
            size == body.len() - 2,
            input@ == head + body@.take(k as int),
        decreases size - k,
    {
        input.push(body[k]);
        proof {
            assert(head + body@.take(k + 1) =~= (head + body@.take(k as int)).push(body@[k as int]));
        }
        k += 1;
    }
    let stored: u32 = (body[size] as u32) * 256 + body[size + 1] as u32;
    assert(input@ =~= crc_input(count as int, mark, body@.take(size as int)));
    crc16(0xFFFF, input.as_slice()) as u32 == stored
}

/// Decodes all sectors in `cells`. `None` where a data mark stands under a size
/// code of 64 or more, for which `128 << size_code` has no value.
pub fn decode_cells(cells: &[bool]) -> (r: Option<Vec<Sector>>)
    ensures
        r is Some <==> sectors_in(cells@) is Some,
        r matches Some(v) ==> sector_views(v@) == sectors_in(cells@).unwrap(),
{
    let syncs = find_syncs(cells);
    let runs = group_syncs(&syncs, cells.len());
    let ghost all = run_views(runs@);
    let mut sectors: Vec<Sector> = Vec::new();
    let mut pending: Option<PendingId> = None;
    let mut i: usize = 0;
    assert(all.take(0) =~= Seq::<Run>::empty());
    assert(sector_views(sectors@) =~= Seq::<SectorView>::empty());
    while i < runs.len()
        invariant
            i <= runs.len(),
            all == run_views(runs@),
            all == runs_of(syncs_from(cells@, 0)),
            forall|k: int|
                0 <= k < runs@.len() ==> 1 <= (#[trigger] runs@[k]).1 && runs@[k].0 + runs@[k].1
                    * 16 <= cells.len(),
            take_runs(cells@, all.take(i as int)) == Some(
                Progress {
                    pending: match pending {
                        Some(id) => Some(id@),
                        None => None,
                    },
                    sectors: sector_views(sectors@),
                },
            ),
        decreases runs.len() - i,
    {
        let (start, count) = runs[i];
        let mark_pos: usize = start + count * 16;
        let ghost run = all[i as int];
        proof {
            assert(all.take(i + 1).drop_last() =~= all.take(i as int));
            assert(all.take(i + 1).last() == run);
        }
        if let Some(mark) = decode_byte(cells, mark_pos) {
            if mark == IDAM {
                if let Some(body) = read_bytes(cells, mark_pos + 16, 6) {
                    let ok = check_crc(count, mark, &body);
                    pending = Some(
                        PendingId {
                            cyl: body[0],
                            head: body[1],
                            sector: body[2],
                            size_code: body[3],
                            crc_ok: ok,
                        },
                    );
                }
            } else if mark == DAM || mark == DAM_DELETED {
                let id = match pending {
                    Some(id) => id,
                    None => PendingId { cyl: 0, head: 0, sector: 0, size_code: 2, crc_ok: false },
                };
                pending = None;
                if id.size_code >= 64 {
                    proof {
                        lemma_take_runs_stays_none(cells@, all, i + 1);
                    }
                    return None;
                }
                let size: u64 = size_of_code(id.size_code);
                let room: usize = (cells.len() - mark_pos) / 16;
                if size as u128 + 3 <= room as u128 {
                    let size: usize = size as usize;
                    if let Some(payload) = read_bytes(cells, mark_pos + 16, size + 2) {
                        let ok = check_crc(count, mark, &payload);
                        let mut data = payload;
                        data.truncate(size);
                        let ghost before = sector_views(sectors@);
                        sectors.push(
                            Sector {
                                cyl: id.cyl,
                                head: id.head,
                                sector: id.sector,
                                size_code: id.size_code,
                                data,
                                id_crc_ok: id.crc_ok,
                                data_crc_ok: ok,
                                deleted: mark == DAM_DELETED,
                            },
                        );
                        proof {
                            assert(sector_views(sectors@) =~= before.push(sectors@.last()@));
                        }
                    }
                }
            }
        }
        i += 1;
    }
    assert(all.take(i as int) =~= all);
    Some(sectors)
}

/// Once a run has no outcome, nothing later has one.
proof fn lemma_take_runs_stays_none(cells: Seq<bool>, runs: Seq<Run>, n: int)
    requires
        0 <= n <= runs.len(),
        take_runs(cells, runs.take(n)) is None,
    ensures
        take_runs(cells, runs) is None,
    decreases runs.len() - n,
{
    if n == runs.len() {
        assert(runs.take(n) =~= runs);
    } else {
        assert(runs.take(n + 1).drop_last() =~= runs.take(n));
        lemma_take_runs_stays_none(cells, runs, n + 1);
    }
}

/// The sectors that the flux intervals of a track hold. `None` where there are
/// intervals enough but all are zero, or a data mark stands under a size code of
/// 64 or more.
pub open spec fn track_sectors(flux: Seq<u32>) -> Option<Seq<SectorView>> {
    if flux.len() < 16 {
        Some(Seq::empty())
    } else if nonzero(flux).len() == 0 {
        None
    } else {
        sectors_in(flux_cells(flux))
    }
}

/// Decodes all sectors of a track from its flux intervals, in ticks.
///
/// The intervals must not be all zero, and no data mark may stand under a size
/// code of 64 or more: see [`try_decode_track`].
pub fn decode_track(flux_ticks: &[u32]) -> (sectors: Vec<Sector>)
    requires
        track_sectors(flux_ticks@) is Some,
    ensures
        sector_views(sectors@) == track_sectors(flux_ticks@).unwrap(),
{
    match try_decode_track(flux_ticks) {
        Some(sectors) => sectors,
        None => Vec::new(),
    }
}

/// Decodes all sectors of a track, or reports that its intervals cannot be
/// decoded.
pub fn try_decode_track(flux_ticks: &[u32]) -> (r: Option<Vec<Sector>>)
    ensures
        r is Some <==> track_sectors(flux_ticks@) is Some,
        r matches Some(v) ==> sector_views(v@) == track_sectors(flux_ticks@).unwrap(),
{
    if flux_ticks.len() < 16 {
        let none: Vec<Sector> = Vec::new();
        assert(sector_views(none@) =~= Seq::<SectorView>::empty());
        return Some(none);
    }
    if all_zero(flux_ticks) {
        return None;
    }
    let cells = flux_to_cells(flux_ticks);
    decode_cells(cells.as_slice())
}

/// Whether no interval is above zero.
fn all_zero(flux_ticks: &[u32]) -> (r: bool)
    ensures
        r <==> nonzero(flux_ticks@).len() == 0,
{
    let mut i: usize = 0;
    proof {
        reveal(Seq::filter);
        assert(flux_ticks@.take(0) =~= Seq::<u32>::empty());
    }
    while i < flux_ticks.len()
        invariant
            i <= flux_ticks.len(),
            nonzero(flux_ticks@.take(i as int)).len() == 0,
        decreases flux_ticks.len() - i,
    {
        proof {
            reveal(Seq::filter);
            assert(flux_ticks@.take(i + 1).drop_last() =~= flux_ticks@.take(i as int));
        }
        if flux_ticks[i] > 0 {
            proof {
                flux_ticks@.lemma_filter_contains(|t: u32| t > 0, i as int);
                assert(nonzero(flux_ticks@).contains(flux_ticks@[i as int]));
            }
            return false;
        }
        i += 1;
    }
    assert(flux_ticks@.take(i as int) =~= flux_ticks@);
    true
}

} // verus!
