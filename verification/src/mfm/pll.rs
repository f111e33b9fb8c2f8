//! From flux intervals to cells: a software phase-locked loop.
//!
//! The length of a cell is estimated from the intervals themselves and follows
//! them softly, so that double and high density and small changes of the speed
//! need no hint from outside.

use crate::binary64::half;
use crate::binary64::lemma_exp_bounds;
use crate::binary64::lemma_of_int;
use crate::binary64::lemma_product_bounds;
use crate::binary64::lemma_quotient_bounds;
use crate::binary64::lemma_sum_bounds;
use crate::binary64::moderate;
use crate::binary64::of_int;
use crate::binary64::product;
use crate::binary64::quotient;
use crate::binary64::scaled;
use crate::binary64::sum;
use crate::binary64::to_int;
use crate::binary64::unit;
use crate::binary64::Binary64;
use crate::binary64::TWO52;
use crate::binary64::TWO53;
use crate::sorting::sort_ticks;
use crate::sorting::sorted;
use vstd::arithmetic::power2::lemma2_to64;
use vstd::arithmetic::power2::lemma2_to64_rest;
use vstd::arithmetic::power2::lemma_pow2_adds;
use vstd::arithmetic::power2::lemma_pow2_pos;
use vstd::arithmetic::power2::lemma_pow2_unfold;
use vstd::arithmetic::power2::pow2;
use vstd::prelude::*;

verus! {

/// 1.
pub open spec fn one() -> Binary64 {
    Binary64 { mant: TWO52, exp: (-52) as i32 }
}

/// The number nearest to 0.9, the weight of the estimate so far.
pub open spec fn keep_weight() -> Binary64 {
    Binary64 { mant: 0x1C_CCCC_CCCC_CCCD, exp: (-53) as i32 }
}

/// The number nearest to 0.1, the weight of a new interval.
pub open spec fn new_weight() -> Binary64 {
    Binary64 { mant: 0x19_9999_9999_999A, exp: (-56) as i32 }
}

/// The intervals that are not zero.
pub open spec fn nonzero(flux: Seq<u32>) -> Seq<u32> {
    flux.filter(|t: u32| t > 0)
}

/// The interval that a twentieth of all nonzero ones lie below: mostly one of
/// two cells.
pub open spec fn short_interval(flux: Seq<u32>) -> u32 {
    sorted(nonzero(flux))[nonzero(flux).len() as int / 20]
}

/// The first estimate of the cell: half the short interval, at least 1.
pub open spec fn first_cell(flux: Seq<u32>) -> Binary64 {
    let t = short_interval(flux);
    if t < 2 {
        one()
    } else {
        half(of_int(t as nat))
    }
}

/// How many cells of length `cell` the interval `t` spans: the nearest number,
/// at least one.
pub open spec fn span(cell: Binary64, t: u32) -> nat {
    let n = to_int(quotient(of_int(t as nat), cell));
    if n < 1 {
        1
    } else {
        n
    }
}

/// The estimate after the interval `t`.
pub open spec fn next_cell(cell: Binary64, t: u32) -> Binary64 {
    sum(
        product(cell, keep_weight()),
        product(quotient(of_int(t as nat), of_int(span(cell, t))), new_weight()),
    )
}

/// The estimate after the first `i` intervals; those of length zero are passed
/// over.
pub open spec fn cell_after(flux: Seq<u32>, i: int) -> Binary64
    decreases i,
{
    if i <= 0 {
        first_cell(flux)
    } else if flux[i - 1] == 0 {
        cell_after(flux, i - 1)
    } else {
        next_cell(cell_after(flux, i - 1), flux[i - 1])
    }
}

/// A reversal at the end of `n` cells.
pub open spec fn gap_cells(n: nat) -> Seq<bool> {
    Seq::new(n, |i: int| i == n - 1)
}

/// The cells of the first `i` intervals.
pub open spec fn cells_after(flux: Seq<u32>, i: int) -> Seq<bool>
    decreases i,
{
    if i <= 0 {
        Seq::empty()
    } else if flux[i - 1] == 0 {
        cells_after(flux, i - 1)
    } else {
        cells_after(flux, i - 1) + gap_cells(span(cell_after(flux, i - 1), flux[i - 1]))
    }
}

/// The cells that the intervals `flux` stand for.
pub open spec fn flux_cells(flux: Seq<u32>) -> Seq<bool> {
    cells_after(flux, flux.len() as int)
}

// ---------------------------------------------------------------------------
// The estimate stays between 1 and two to the 33
// ---------------------------------------------------------------------------

/// Bounds that every estimate keeps.
pub open spec fn sound_cell(c: Binary64) -> bool {
    c.wf() && -52 <= c.exp <= -19 && unit() <= scaled(c) <= pow2(233)
}

pub(crate) proof fn lemma_pll_powers()
    ensures
        pow2(32) == 0x1_0000_0000,
        pow2(52) == TWO52,
        pow2(53) == TWO53,
        scaled(one()) == unit(),
        unit() > 0,
        pow2(232) == 0x1_0000_0000 * unit(),
        pow2(233) == 0x2_0000_0000 * unit(),
{
    lemma2_to64();
    lemma2_to64_rest();
    lemma_pow2_adds(52, 148);
    lemma_pow2_adds(32, 200);
    lemma_pow2_unfold(233);
    lemma_pow2_pos(200);
}

/// The weights are close to 0.9 and 0.1, and make up no less than 1.
pub(crate) proof fn lemma_weights()
    ensures
        unit() <= scaled(keep_weight()) + scaled(new_weight()),
        TWO53 * (10 * scaled(keep_weight()) - 9 * unit()) <= 2 * unit(),
        0 <= 10 * scaled(keep_weight()) - 9 * unit(),
        TWO53 * (10 * scaled(new_weight()) - unit()) <= unit(),
        0 <= 10 * scaled(new_weight()) - unit(),
        16 * scaled(keep_weight()) <= 15 * unit(),
        8 * scaled(new_weight()) <= unit(),
        2 * scaled(keep_weight()) >= unit(),
        16 * scaled(new_weight()) >= unit(),
{
    lemma2_to64();
    lemma2_to64_rest();
    let b = pow2(144);
    lemma_pow2_pos(144);
    lemma_pow2_adds(3, 144);
    lemma_pow2_adds(56, 144);
    assert(scaled(keep_weight()) == 0x1C_CCCC_CCCC_CCCD * (8 * b));
    assert(scaled(new_weight()) == 0x19_9999_9999_999A * b);
    assert(unit() == 0x100_0000_0000_0000 * b);
}

/// How many cells an interval spans, and what it says of one cell.
pub(crate) proof fn lemma_span(cell: Binary64, t: u32)
    requires
        sound_cell(cell),
        t > 0,
    ensures
        quotient(of_int(t as nat), cell).wf(),
        -120 <= quotient(of_int(t as nat), cell).exp < 0,
        1 <= span(cell, t) <= t,
{
    lemma_pll_powers();
    let a = of_int(t as nat);
    lemma_of_int(t as nat);
    lemma_quotient_bounds(a, cell, a);
    let r = quotient(a, cell);
    assert(scaled(a) * unit() <= scaled(cell) * scaled(a)) by (nonlinear_arith)
        requires
            unit() <= scaled(cell),
    ;
    assert(scaled(r) <= t * unit());
    // From below by a number that is surely smaller.
    let y = Binary64 { mant: TWO52, exp: (-86) as i32 };
    lemma_pow2_adds(52, 114);
    lemma_pow2_adds(34, 166);
    lemma_pow2_adds(233, 166);
    lemma_pow2_adds(199, 200);
    lemma_pow2_adds(1, 199);
    lemma2_to64();
    lemma_quotient_bounds(a, cell, y);
    assert(scaled(y) == pow2(166));
    assert(scaled(cell) * scaled(y) <= scaled(a) * unit()) by (nonlinear_arith)
        requires
            scaled(cell) <= pow2(233),
            scaled(y) == pow2(166),
            pow2(233) * pow2(166) == pow2(199) * unit(),
            scaled(a) == t * unit(),
            t >= 1,
            unit() == 2 * pow2(199),
            unit() > 0,
    ;
    lemma_pow2_pos(232);
    assert(scaled(r) <= pow2(232)) by (nonlinear_arith)
        requires
            scaled(r) <= t * unit(),
            pow2(232) == 0x1_0000_0000 * unit(),
            t <= 0xFFFF_FFFF,
            unit() > 0,
    ;
    lemma_exp_bounds(r, 166, 232);
    lemma_round_at_most(r, t as nat);
}

/// Rounding to an integer does not pass an integer.
proof fn lemma_round_at_most(r: Binary64, n: nat)
    requires
        r.wf(),
        -120 <= r.exp < 0,
        scaled(r) <= n * unit(),
    ensures
        to_int(r) <= n,
{
    let s = (-r.exp) as nat;
    let d = pow2(s);
    let h = pow2((s - 1) as nat);
    lemma_pow2_pos(s);
    lemma_pow2_unfold(s);
    lemma_pow2_adds((200 - s) as nat, s);
    lemma_pow2_pos((200 - s) as nat);
    let w = pow2((200 - s) as nat);
    assert(r.mant as nat <= n * d) by (nonlinear_arith)
        requires
            r.mant as nat * w <= n * (w * d),
            w > 0,
    ;
    let x = r.mant as nat + h;
    assert(x / d <= n) by (nonlinear_arith)
        requires
            x <= n * d + h,
            d == 2 * h,
            h > 0,
    ;
}

/// What an interval says of one cell lies between 1 and two to the 32.
proof fn lemma_share(t: u32, n: nat)
    requires
        1 <= n <= t,
    ensures
        ({
            let q = quotient(of_int(t as nat), of_int(n));
            q.wf() && -52 <= q.exp <= -20 && unit() <= scaled(q) <= pow2(232)
        }),
{
    lemma_pll_powers();
    lemma_of_int(t as nat);
    lemma_of_int(n);
    let a = of_int(t as nat);
    let b = of_int(n);
    let q = quotient(a, b);
    let top = Binary64 { mant: TWO52, exp: (-20) as i32 };
    lemma_pow2_adds(52, 180);
    lemma_quotient_bounds(a, b, one());
    lemma_quotient_bounds(a, b, top);
    assert(scaled(b) * unit() <= scaled(a) * unit()) by (nonlinear_arith)
        requires
            scaled(b) == n * unit(),
            scaled(a) == t * unit(),
            n <= t,
    ;
    assert(scaled(a) * unit() <= scaled(b) * scaled(top)) by (nonlinear_arith)
        requires
            scaled(b) == n * unit(),
            scaled(a) == t * unit(),
            scaled(top) == 0x1_0000_0000 * unit(),
            1 <= n,
            t <= 0xFFFF_FFFF,
            unit() > 0,
    ;
    lemma_exp_bounds(q, 200, 232);
}

/// The weighted parts of the next estimate.
proof fn lemma_parts(cell: Binary64, q: Binary64)
    requires
        sound_cell(cell),
        q.wf(),
        -52 <= q.exp <= -20,
        unit() <= scaled(q) <= pow2(232),
    ensures
        ({
            let x = product(cell, keep_weight());
            let y = product(q, new_weight());
            &&& moderate(x) && moderate(y)
            &&& -64 <= x.exp - y.exp <= 64
            &&& scaled(keep_weight()) <= scaled(x)
            &&& scaled(x) <= 0x1_E000_0000 * unit()
            &&& scaled(new_weight()) <= scaled(y)
            &&& scaled(y) <= 0x2000_0000 * unit()
        }),
{
    lemma_pll_powers();
    lemma_weights();
    let x = product(cell, keep_weight());
    let y = product(q, new_weight());
    let kw = scaled(keep_weight());
    let nw = scaled(new_weight());
    let top = Binary64 { mant: 0x1E_0000_0000_0000, exp: (-20) as i32 };
    let low = Binary64 { mant: TWO52, exp: (-23) as i32 };
    lemma2_to64();
    lemma2_to64_rest();
    lemma_pow2_adds(20, 180);
    lemma_pow2_adds(52, 177);
    lemma_pow2_adds(29, 200);
    lemma_pow2_adds(1, 199);
    lemma_pow2_adds(4, 196);
    lemma_pow2_unfold(233);
    assert(scaled(top) == 0x1_E000_0000 * unit());
    assert(scaled(low) == 0x2000_0000 * unit());
    lemma_product_bounds(cell, keep_weight(), keep_weight());
    lemma_product_bounds(cell, keep_weight(), top);
    lemma_product_bounds(q, new_weight(), new_weight());
    lemma_product_bounds(q, new_weight(), low);
    assert(kw * unit() <= scaled(cell) * kw) by (nonlinear_arith)
        requires
            unit() <= scaled(cell),
    ;
    assert(scaled(cell) * kw <= scaled(top) * unit()) by (nonlinear_arith)
        requires
            scaled(cell) <= 0x2_0000_0000 * unit(),
            16 * kw <= 15 * unit(),
            scaled(top) == 0x1_E000_0000 * unit(),
    ;
    assert(nw * unit() <= scaled(q) * nw) by (nonlinear_arith)
        requires
            unit() <= scaled(q),
    ;
    assert(scaled(q) * nw <= scaled(low) * unit()) by (nonlinear_arith)
        requires
            scaled(q) <= 0x1_0000_0000 * unit(),
            8 * nw <= unit(),
            scaled(low) == 0x2000_0000 * unit(),
    ;
    assert(pow2(199) <= scaled(x) <= pow2(233));
    assert(pow2(196) <= scaled(y) <= pow2(229));
    lemma_exp_bounds(x, 199, 233);
    lemma_exp_bounds(y, 196, 229);
}

/// The bounds are kept from one estimate to the next.
pub(crate) proof fn lemma_next_sound(cell: Binary64, t: u32)
    requires
        sound_cell(cell),
        t > 0,
    ensures
        sound_cell(next_cell(cell, t)),
        ({
            let q = quotient(of_int(t as nat), of_int(span(cell, t)));
            &&& q.wf() && -52 <= q.exp <= -20 && unit() <= scaled(q) <= pow2(232)
            &&& moderate(product(cell, keep_weight()))
            &&& moderate(product(q, new_weight()))
            &&& -64 <= product(cell, keep_weight()).exp - product(q, new_weight()).exp <= 64
        }),
{
    lemma_pll_powers();
    lemma_weights();
    lemma_span(cell, t);
    lemma_share(t, span(cell, t));
    let q = quotient(of_int(t as nat), of_int(span(cell, t)));
    lemma_parts(cell, q);
    let x = product(cell, keep_weight());
    let y = product(q, new_weight());
    let top = Binary64 { mant: TWO52, exp: (-19) as i32 };
    lemma_pow2_adds(52, 181);
    lemma_sum_bounds(x, y, one());
    lemma_sum_bounds(x, y, top);
    lemma_exp_bounds(sum(x, y), 200, 233);
}

/// The first estimate keeps the bounds.
pub(crate) proof fn lemma_first_sound(flux: Seq<u32>)
    ensures
        sound_cell(first_cell(flux)),
{
    lemma_pll_powers();
    let t = short_interval(flux);
    if t < 2 {
    } else {
        lemma_of_int(t as nat);
        let a = of_int(t as nat);
        let h = half(a);
        lemma_pow2_unfold((a.exp + 200) as nat);
        assert(2 * scaled(h) == scaled(a)) by (nonlinear_arith)
            requires
                scaled(a) == a.mant as nat * (2 * pow2((h.exp + 200) as nat)),
                scaled(h) == a.mant as nat * pow2((h.exp + 200) as nat),
        ;
        assert(2 * unit() <= t * unit() <= 0x1_0000_0000 * unit()) by (nonlinear_arith)
            requires
                2 <= t <= 0xFFFF_FFFF,
        ;
        lemma_exp_bounds(h, 200, 233);
    }
}

pub(crate) proof fn lemma_cell_sound(flux: Seq<u32>, i: int)
    requires
        0 <= i <= flux.len(),
    ensures
        sound_cell(cell_after(flux, i)),
    decreases i,
{
    if i == 0 {
        lemma_first_sound(flux);
    } else {
        lemma_cell_sound(flux, i - 1);
        if flux[i - 1] != 0 {
            lemma_next_sound(cell_after(flux, i - 1), flux[i - 1]);
        }
    }
}

/// The intervals that are not zero.
fn drop_zeros(flux_ticks: &[u32]) -> (out: Vec<u32>)
    ensures
        out@ == nonzero(flux_ticks@),
{
    let mut out: Vec<u32> = Vec::new();
    let mut i: usize = 0;
    proof {
        reveal(Seq::filter);
        assert(flux_ticks@.take(0) =~= Seq::<u32>::empty());
    }
    while i < flux_ticks.len()
        invariant
            i <= flux_ticks.len(),
            out@ == nonzero(flux_ticks@.take(i as int)),
        decreases flux_ticks.len() - i,
    {
        proof {
            reveal(Seq::filter);
            assert(flux_ticks@.take(i + 1).drop_last() =~= flux_ticks@.take(i as int));
        }
        if flux_ticks[i] > 0 {
            out.push(flux_ticks[i]);
        }
        i += 1;
    }
    assert(flux_ticks@.take(i as int) =~= flux_ticks@);
    out
}

/// Flux intervals to cells. Some interval is not zero.
pub fn flux_to_cells(flux_ticks: &[u32]) -> (cells: Vec<bool>)
    requires
        nonzero(flux_ticks@).len() > 0,
    ensures
        cells@ == flux_cells(flux_ticks@),
{
    let used = drop_zeros(flux_ticks);
    let order = sort_ticks(used.as_slice());
    let p5: u32 = order[used.len() / 20];
    let keep = Binary64 { mant: 0x1C_CCCC_CCCC_CCCD, exp: -53 };
    let new = Binary64 { mant: 0x19_9999_9999_999A, exp: -56 };
    let mut cell: Binary64 = if p5 < 2 {
        Binary64 { mant: TWO52, exp: -52 }
    } else {
        let a = Binary64::from_int(p5 as u64);
        proof {
            lemma_of_int(p5 as nat);
        }
        Binary64 { mant: a.mant, exp: a.exp - 1 }
    };
    let mut cells: Vec<bool> = Vec::new();
    let mut i: usize = 0;
    proof {
        lemma_first_sound(flux_ticks@);
    }
    while i < flux_ticks.len()
        invariant
            i <= flux_ticks.len(),
            keep == keep_weight(),
            new == new_weight(),
            sound_cell(cell),
            cell == cell_after(flux_ticks@, i as int),
            cells@ == cells_after(flux_ticks@, i as int),
        decreases flux_ticks.len() - i,
    {
        let t: u32 = flux_ticks[i];
        if t != 0 {
            proof {
                lemma_of_int(t as nat);
                lemma_span(cell, t);
                lemma_of_int(span(cell, t));
                lemma_next_sound(cell, t);
            }
            let ticks = Binary64::from_int(t as u64);
            let near: u64 = ticks.div(cell).round();
            let n: u64 = if near < 1 { 1 } else { near };
            let share = ticks.div(Binary64::from_int(n));
            let ghost before = cells@;
            let ghost gap = gap_cells(n as nat);
            cell = cell.times(keep).plus(share.times(new));
            let mut k: u64 = 0;
            assert(before + gap.take(0) =~= before);
            while k < n - 1
                invariant
                    k <= n - 1,
                    gap == gap_cells(n as nat),
                    cells@ == before + gap.take(k as int),
                decreases n - 1 - k,
            {
                cells.push(false);
                proof {
                    assert(before + gap.take(k + 1) =~= (before + gap.take(k as int)).push(false));
                }
                k += 1;
            }
            cells.push(true);
            proof {
                assert(before + gap =~= (before + gap.take(n - 1)).push(true));
            }
        }
        i += 1;
    }
    cells
}

} // verus!
