//! What the phase-locked loop does with any intervals.

use super::pll::cell_after;
use super::pll::cells_after;
use super::pll::first_cell;
use super::pll::flux_cells;
use super::pll::gap_cells;
use super::pll::keep_weight;
use super::pll::lemma_cell_sound;
use super::pll::lemma_next_sound;
use super::pll::lemma_pll_powers;
use super::pll::lemma_span;
use super::pll::lemma_weights;
use super::pll::new_weight;
use super::pll::next_cell;
use super::pll::nonzero;
use super::pll::sound_cell;
use super::pll::span;
use crate::binary64::half;
use crate::binary64::lemma_of_int;
use crate::binary64::lemma_product_error;
use crate::binary64::lemma_quotient_error;
use crate::binary64::lemma_sum_error;
use crate::binary64::of_int;
use crate::binary64::product;
use crate::binary64::quotient;
use crate::binary64::scaled;
use crate::binary64::sum;
use crate::binary64::to_int;
use crate::binary64::unit;
use crate::binary64::Binary64;
use crate::binary64::TWO53;
use crate::sorting::lemma_sorted_is;
use vstd::arithmetic::power2::lemma_pow2_adds;
use vstd::arithmetic::power2::lemma_pow2_pos;
use vstd::arithmetic::power2::lemma_pow2_unfold;
use vstd::arithmetic::power2::pow2;
use vstd::prelude::*;

verus! {

/// Rounding to an integer gives one that is no more than a half away.
proof fn lemma_to_int_near(r: Binary64)
    requires
        r.wf(),
        -120 <= r.exp < 0,
    ensures
        (2 * to_int(r) - 1) * unit() <= 2 * scaled(r),
        2 * scaled(r) < (2 * to_int(r) + 1) * unit(),
{
    let s = (-r.exp) as nat;
    let d = pow2(s);
    let h = pow2((s - 1) as nat);
    lemma_pow2_pos(s);
    lemma_pow2_unfold(s);
    lemma_pow2_adds((200 - s) as nat, s);
    lemma_pow2_pos((200 - s) as nat);
    let w = pow2((200 - s) as nat);
    let m = r.mant as nat;
    let x = m + h;
    let g = to_int(r);
    assert(g == x / d);
    vstd::arithmetic::div_mod::lemma_fundamental_div_mod(x as int, d as int);
    assert(g * d <= x && x < g * d + d) by (nonlinear_arith)
        requires
            x == d * (x / d) + x % d,
            g == x / d,
            0 <= x % d < d,
    ;
    assert((2 * g - 1) * (w * d) <= 2 * (m * w)) by (nonlinear_arith)
        requires
            g * d <= x,
            x == m + h,
            d == 2 * h,
            w > 0,
    ;
    assert(2 * (m * w) < (2 * g + 1) * (w * d)) by (nonlinear_arith)
        requires
            x < g * d + d,
            x == m + h,
            d == 2 * h,
            w > 0,
    ;
}

/// An interval spans the number of cells that is nearest to it: it is no more than half a
/// cell away from that many cells, up to one part in two to the 53 of the interval; and
/// it spans one at least.
pub proof fn law_span_is_nearest(cell: Binary64, t: u32)
    requires
        sound_cell(cell),
        t > 0,
    ensures
        ({
            let n = span(cell, t);
            let x = scaled(cell);
            let ticks = t as nat * unit();
            &&& n >= 1
            &&& n > 1 ==> TWO53 * ((2 * n - 1) * x) <= 2 * ((TWO53 + 1) * ticks)
            &&& 2 * ((TWO53 - 1) * ticks) <= TWO53 * ((2 * n + 1) * x)
        }),
{
    lemma_pll_powers();
    lemma_span(cell, t);
    lemma_of_int(t as nat);
    let a = of_int(t as nat);
    let r = quotient(a, cell);
    lemma_quotient_error(a, cell);
    lemma_to_int_near(r);
    let u = unit();
    let x = scaled(cell);
    let y = scaled(r);
    let g = to_int(r);
    let n = span(cell, t);
    let ticks = t as nat * u;
    let tb = ticks * u;
    let xy = x * y;
    assert(TWO53 * (xy - tb) <= tb);
    assert(TWO53 * (tb - xy) <= tb);
    if n > 1 {
        assert(g == n);
        assert(TWO53 * ((2 * n - 1) * x) <= 2 * ((TWO53 + 1) * ticks)) by (nonlinear_arith)
            requires
                (2 * n - 1) * u <= 2 * y,
                xy == x * y,
                TWO53 * (xy - ticks * u) <= ticks * u,
                u > 0,
                x >= 0,
        {
            assert(((2 * n - 1) * x) * u <= 2 * xy);
            assert((TWO53 * ((2 * n - 1) * x)) * u <= (2 * ((TWO53 + 1) * ticks)) * u);
        }
    }
    assert(2 * y < (2 * n + 1) * u) by (nonlinear_arith)
        requires
            2 * y < (2 * g + 1) * u,
            g <= n,
            u > 0,
    ;
    assert(2 * ((TWO53 - 1) * ticks) <= TWO53 * ((2 * n + 1) * x)) by (nonlinear_arith)
        requires
            2 * y < (2 * n + 1) * u,
            xy == x * y,
            TWO53 * (ticks * u - xy) <= ticks * u,
            u > 0,
            x >= 0,
    {
        assert(2 * xy <= ((2 * n + 1) * x) * u);
        assert((2 * ((TWO53 - 1) * ticks)) * u <= (TWO53 * ((2 * n + 1) * x)) * u);
    }
}

/// After each interval the estimate is nine tenths of what it was and one tenth of what
/// the interval says of a cell, within two hundred-thousandths of each.
#[verifier::rlimit(40)]
pub proof fn law_estimate_follows(cell: Binary64, t: u32)
    requires
        sound_cell(cell),
        t > 0,
    ensures
        ({
            let n = span(cell, t);
            let z = scaled(next_cell(cell, t));
            let x = scaled(cell);
            let ticks = t as nat * unit();
            &&& 100000 * (n * z) <= 90002 * (n * x) + 10002 * ticks
            &&& 89998 * (n * x) + 9998 * ticks <= 100000 * (n * z)
        }),
{
    lemma_pll_powers();
    lemma_weights();
    lemma_span(cell, t);
    lemma_next_sound(cell, t);
    let n = span(cell, t);
    lemma_of_int(t as nat);
    lemma_of_int(n);
    let u = unit();
    let a = of_int(t as nat);
    let b = of_int(n);
    let q = quotient(a, b);
    lemma_quotient_error(a, b);
    let x = scaled(cell);
    let y = scaled(q);
    let tu = t as nat * u;
    let ny = n * y;
    assert(scaled(b) * y == ny * u) by (nonlinear_arith)
        requires
            scaled(b) == n * u,
            ny == n * y,
    ;
    assert(TWO53 * (ny - tu) <= tu) by (nonlinear_arith)
        requires
            TWO53 * (ny * u - tu * u) <= tu * u,
            u > 0,
    ;
    assert(TWO53 * (tu - ny) <= tu) by (nonlinear_arith)
        requires
            TWO53 * (tu * u - ny * u) <= tu * u,
            u > 0,
    ;
    let px = product(cell, keep_weight());
    let kw = scaled(keep_weight());
    lemma_product_error(cell, keep_weight());
    let zx = scaled(px);
    let xk = x * kw;
    let xu = x * u;
    assert(10 * xk >= 9 * xu && 1000000 * (10 * xk - 9 * xu) <= xu) by (nonlinear_arith)
        requires
            xk == x * kw,
            xu == x * u,
            10 * kw >= 9 * u,
            1000000 * (10 * kw - 9 * u) <= u,
    ;
    assert(TWO53 * (zx * u - xk) <= xk);
    assert(TWO53 * (xk - zx * u) <= xk);
    assert(100000 * (zx * u) <= 90001 * xu && 89999 * xu <= 100000 * (zx * u));
    assert(100000 * zx <= 90001 * x) by (nonlinear_arith)
        requires
            100000 * (zx * u) <= 90001 * xu,
            xu == x * u,
            u > 0,
    ;
    assert(89999 * x <= 100000 * zx) by (nonlinear_arith)
        requires
            89999 * xu <= 100000 * (zx * u),
            xu == x * u,
            u > 0,
    ;
    let py = product(q, new_weight());
    let nw = scaled(new_weight());
    lemma_product_error(q, new_weight());
    let zy = scaled(py);
    let yn = y * nw;
    let yu = y * u;
    assert(10 * yn >= yu && 1000000 * (10 * yn - yu) <= yu) by (nonlinear_arith)
        requires
            yn == y * nw,
            yu == y * u,
            10 * nw >= u,
            1000000 * (10 * nw - u) <= u,
    ;
    assert(TWO53 * (zy * u - yn) <= yn);
    assert(TWO53 * (yn - zy * u) <= yn);
    assert(100000 * (zy * u) <= 10001 * yu && 9999 * yu <= 100000 * (zy * u));
    assert(100000 * zy <= 10001 * y) by (nonlinear_arith)
        requires
            100000 * (zy * u) <= 10001 * yu,
            yu == y * u,
            u > 0,
    ;
    assert(9999 * y <= 100000 * zy) by (nonlinear_arith)
        requires
            9999 * yu <= 100000 * (zy * u),
            yu == y * u,
            u > 0,
    ;
    lemma_sum_error(px, py);
    let z = scaled(sum(px, py));
    assert(next_cell(cell, t) == sum(px, py));
    assert(TWO53 * (z - (zx + zy)) <= zx + zy);
    assert(TWO53 * ((zx + zy) - z) <= zx + zy);
    let nx = n * x;
    let nz = n * z;
    let nzx = n * zx;
    let nzy = n * zy;
    assert(TWO53 * (nz - (nzx + nzy)) <= nzx + nzy && TWO53 * ((nzx + nzy) - nz) <= nzx + nzy)
        by (nonlinear_arith)
        requires
            TWO53 * (z - (zx + zy)) <= zx + zy,
            TWO53 * ((zx + zy) - z) <= zx + zy,
            nz == n * z,
            nzx == n * zx,
            nzy == n * zy,
    ;
    assert(100000 * nzx <= 90001 * nx && 89999 * nx <= 100000 * nzx) by (nonlinear_arith)
        requires
            100000 * zx <= 90001 * x,
            89999 * x <= 100000 * zx,
            nx == n * x,
            nzx == n * zx,
    ;
    assert(100000 * nzy <= 10001 * ny && 9999 * ny <= 100000 * nzy) by (nonlinear_arith)
        requires
            100000 * zy <= 10001 * y,
            9999 * y <= 100000 * zy,
            ny == n * y,
            nzy == n * zy,
    ;
}

/// The first estimate is half of the interval that a twentieth of all others are no longer
/// than, zeros left out, and one tick at least.
pub proof fn law_first_estimate(flux: Seq<u32>, t: Seq<u32>)
    requires
        t.to_multiset() == nonzero(flux).to_multiset(),
        forall|i: int, j: int| 0 <= i <= j < t.len() ==> t[i] <= t[j],
        nonzero(flux).len() > 0,
    ensures
        t.len() == nonzero(flux).len(),
        ({
            let v = t[t.len() as int / 20];
            &&& v >= 2 ==> 2 * scaled(first_cell(flux)) == v * unit()
            &&& v < 2 ==> scaled(first_cell(flux)) == unit()
        }),
{
    lemma_pll_powers();
    lemma_sorted_is(nonzero(flux), t);
    crate::sorting::lemma_sorted_facts(nonzero(flux));
    let v = t[t.len() as int / 20];
    if v >= 2 {
        lemma_of_int(v as nat);
        let a = of_int(v as nat);
        let h = half(a);
        lemma_pow2_unfold((a.exp + 200) as nat);
        assert(2 * scaled(h) == scaled(a)) by (nonlinear_arith)
            requires
                scaled(a) == a.mant as nat * (2 * pow2((h.exp + 200) as nat)),
                scaled(h) == a.mant as nat * pow2((h.exp + 200) as nat),
        ;
    }
}

proof fn lemma_nonzero_step(flux: Seq<u32>, i: int)
    requires
        0 < i <= flux.len(),
    ensures
        nonzero(flux.take(i)) == (if flux[i - 1] > 0 {
            nonzero(flux.take(i - 1)).push(flux[i - 1])
        } else {
            nonzero(flux.take(i - 1))
        }),
{
    reveal(Seq::filter);
    assert(flux.take(i).drop_last() =~= flux.take(i - 1));
    assert(flux.take(i).last() == flux[i - 1]);
}

proof fn lemma_nonzero_prefix(flux: Seq<u32>, i: int)
    requires
        0 <= i <= flux.len(),
    ensures
        nonzero(flux.take(i)).len() <= nonzero(flux).len(),
        nonzero(flux).take(nonzero(flux.take(i)).len() as int) == nonzero(flux.take(i)),
    decreases flux.len() - i,
{
    if i == flux.len() {
        assert(flux.take(i) =~= flux);
        assert(nonzero(flux).take(nonzero(flux).len() as int) =~= nonzero(flux));
    } else {
        lemma_nonzero_prefix(flux, i + 1);
        lemma_nonzero_step(flux, i + 1);
        let n = nonzero(flux.take(i)).len() as int;
        let m = nonzero(flux.take(i + 1)).len() as int;
        assert(nonzero(flux).take(m).take(n) =~= nonzero(flux).take(n));
        assert(nonzero(flux.take(i + 1)).take(n) =~= nonzero(flux.take(i)));
    }
}

proof fn lemma_nonzero_twice(flux: Seq<u32>)
    ensures
        nonzero(nonzero(flux)) == nonzero(flux),
        forall|i: int| 0 <= i < nonzero(flux).len() ==> #[trigger] nonzero(flux)[i] > 0,
    decreases flux.len(),
{
    reveal(Seq::filter);
    if flux.len() > 0 {
        lemma_nonzero_twice(flux.drop_last());
        let head = nonzero(flux.drop_last());
        if flux.last() > 0 {
            assert(head.push(flux.last()).drop_last() =~= head);
            assert(nonzero(flux) == head.push(flux.last()));
        }
    }
}

proof fn lemma_zeros_pass(flux: Seq<u32>, i: int)
    requires
        0 <= i <= flux.len(),
    ensures
        ({
            let k = nonzero(flux.take(i)).len() as int;
            &&& cell_after(flux, i) == cell_after(nonzero(flux), k)
            &&& cells_after(flux, i) == cells_after(nonzero(flux), k)
        }),
    decreases i,
{
    lemma_nonzero_twice(flux);
    if i == 0 {
        assert(nonzero(flux.take(0)).len() == 0) by {
            reveal(Seq::filter);
        }
    } else {
        lemma_zeros_pass(flux, i - 1);
        lemma_nonzero_step(flux, i);
        lemma_nonzero_prefix(flux, i);
        let k = nonzero(flux.take(i)).len() as int;
        if flux[i - 1] > 0 {
            assert(nonzero(flux)[k - 1] == nonzero(flux).take(k)[k - 1]);
            assert(nonzero(flux)[k - 1] == flux[i - 1]);
        }
    }
}

/// An interval of zero is no interval: it changes neither the cells nor the estimate.
pub proof fn law_zeros_do_not_count(flux: Seq<u32>)
    ensures
        flux_cells(flux) == flux_cells(nonzero(flux)),
{
    lemma_zeros_pass(flux, flux.len() as int);
    assert(flux.take(flux.len() as int) =~= flux);
}

/// How many reversals there are.
pub open spec fn count_reversals(cells: Seq<bool>) -> nat
    decreases cells.len(),
{
    if cells.len() == 0 {
        0
    } else {
        count_reversals(cells.drop_last()) + (if cells.last() { 1nat } else { 0nat })
    }
}

proof fn lemma_gap_reversals(cells: Seq<bool>, n: nat, k: nat)
    requires
        n >= 1,
        k <= n,
    ensures
        count_reversals(cells + gap_cells(n).take(k as int)) == count_reversals(cells) + (if k
            == n { 1nat } else { 0nat }),
    decreases k,
{
    let g = gap_cells(n);
    if k == 0 {
        assert(cells + g.take(0) =~= cells);
    } else {
        lemma_gap_reversals(cells, n, (k - 1) as nat);
        assert((cells + g.take(k as int)).drop_last() =~= cells + g.take(k - 1));
        assert((cells + g.take(k as int)).last() == g[k - 1]);
    }
}

proof fn lemma_reversals(flux: Seq<u32>, i: int)
    requires
        0 <= i <= flux.len(),
    ensures
        count_reversals(cells_after(flux, i)) == nonzero(flux.take(i)).len(),
        cells_after(flux, i).len() > 0 ==> cells_after(flux, i).last(),
        cells_after(flux, i).len() >= nonzero(flux.take(i)).len(),
    decreases i,
{
    if i == 0 {
        assert(nonzero(flux.take(0)).len() == 0) by {
            reveal(Seq::filter);
        }
    } else {
        lemma_reversals(flux, i - 1);
        lemma_nonzero_step(flux, i);
        if flux[i - 1] > 0 {
            lemma_cell_sound(flux, i - 1);
            let n = span(cell_after(flux, i - 1), flux[i - 1]);
            lemma_span(cell_after(flux, i - 1), flux[i - 1]);
            lemma_gap_reversals(cells_after(flux, i - 1), n, n);
            assert(gap_cells(n).take(n as int) =~= gap_cells(n));
        }
    }
}

/// Each interval that is not zero ends in one reversal, and there are no others: none is
/// lost and none is made up.
pub proof fn law_reversals_are_kept(flux: Seq<u32>)
    ensures
        count_reversals(flux_cells(flux)) == nonzero(flux).len(),
        flux_cells(flux).len() > 0 ==> flux_cells(flux).last(),
{
    lemma_reversals(flux, flux.len() as int);
    assert(flux.take(flux.len() as int) =~= flux);
}

} // verus!
