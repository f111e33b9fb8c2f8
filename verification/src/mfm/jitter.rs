//! The phase-locked loop follows a drive whose speed wavers.

use super::pll::cell_after;
use super::pll::cells_after;
use super::pll::first_cell;
use super::pll::flux_cells;
use super::pll::gap_cells;
use super::pll::keep_weight;
use super::pll::lemma_next_sound;
use super::pll::lemma_pll_powers;
use super::pll::lemma_span;
use super::pll::lemma_weights;
use super::pll::new_weight;
use super::pll::next_cell;
use super::pll::nonzero;
use super::pll::short_interval;
use super::pll::sound_cell;
use super::pll::span;
use crate::binary64::half;
use crate::binary64::lemma_of_int;
use crate::binary64::lemma_product_error;
use crate::binary64::lemma_quotient_error;
use crate::binary64::lemma_sum_error;
use crate::binary64::of_int;
use crate::binary64::product;
use crate::binary64::quotient;
use crate::binary64::scaled;
use crate::binary64::sum;
use crate::binary64::to_int;
use crate::binary64::unit;
use crate::binary64::Binary64;
use crate::binary64::TWO53;
use crate::sorting::is_sorted;
use crate::sorting::lemma_sorted_facts;
use crate::sorting::sorted;
use vstd::arithmetic::power2::lemma_pow2_adds;
use vstd::arithmetic::power2::lemma_pow2_pos;
use vstd::arithmetic::power2::lemma_pow2_unfold;
use vstd::arithmetic::power2::pow2;
use vstd::prelude::*;

verus! {

/// Whether the interval `t` is `g` cells of `c` ticks long, give or take eight
/// hundredths of a cell.
pub open spec fn near_gap(t: u32, g: nat, c: nat) -> bool {
    100 * t <= (100 * g + 8) * c && (100 * g - 8) * c <= 100 * t
}

/// Whether the estimate is within 4.5 hundredths of `c` ticks.
spec fn close(cell: Binary64, c: nat) -> bool {
    1000 * scaled(cell) <= 1045 * (c * unit()) && 955 * (c * unit()) <= 1000 * scaled(cell)
}

/// An interval just beside a whole number of cells is rounded to that number.
proof fn lemma_to_int(r: Binary64, g: nat)
    requires
        r.wf(),
        -120 <= r.exp < 0,
        (2 * g - 1) * unit() <= 2 * scaled(r),
        2 * scaled(r) < (2 * g + 1) * unit(),
    ensures
        to_int(r) == g,
{
    let s = (-r.exp) as nat;
    let d = pow2(s);
    let h = pow2((s - 1) as nat);
    lemma_pow2_pos(s);
    lemma_pow2_unfold(s);
    lemma_pow2_adds((200 - s) as nat, s);
    lemma_pow2_pos((200 - s) as nat);
    let w = pow2((200 - s) as nat);
    let m = r.mant as nat;
    assert((2 * g - 1) * d <= 2 * m) by (nonlinear_arith)
        requires
            (2 * g - 1) * (w * d) <= 2 * (m * w),
            w > 0,
    ;
    assert(2 * m < (2 * g + 1) * d) by (nonlinear_arith)
        requires
            2 * (m * w) < (2 * g + 1) * (w * d),
            w > 0,
    ;
    let x = m + h;
    assert(g * d <= x && x < (g + 1) * d) by (nonlinear_arith)
        requires
            (2 * g - 1) * d <= 2 * m,
            2 * m < (2 * g + 1) * d,
            d == 2 * h,
            x == m + h,
    ;
    assert((g + 1) * d == g * d + d) by (nonlinear_arith);
    vstd::arithmetic::div_mod::lemma_fundamental_div_mod_converse(
        x as int,
        d as int,
        g as int,
        x - g * d,
    );
}

/// A close estimate counts the cells of an interval right.
proof fn lemma_span_right(cell: Binary64, t: u32, g: nat, c: nat)
    requires
        sound_cell(cell),
        close(cell, c),
        c >= 1,
        2 <= g <= 4,
        t > 0,
        near_gap(t, g, c),
    ensures
        span(cell, t) == g,
{
    lemma_pll_powers();
    lemma_span(cell, t);
    lemma_of_int(t as nat);
    let a = of_int(t as nat);
    let r = quotient(a, cell);
    lemma_quotient_error(a, cell);
    let u = unit();
    let x = scaled(cell);
    let y = scaled(r);
    // In units of one cell, squared scale.
    let cb = (c * u) * u;
    let tb = (t as nat * u) * u;
    let xy = x * y;
    let ux = u * x;
    assert(TWO53 * (xy - tb) <= tb);
    assert(TWO53 * (tb - xy) <= tb);
    assert(100 * tb <= (100 * g + 8) * cb) by (nonlinear_arith)
        requires
            100 * t <= (100 * g + 8) * c,
            tb == (t as nat * u) * u,
            cb == (c * u) * u,
    ;
    assert((100 * g - 8) * cb <= 100 * tb) by (nonlinear_arith)
        requires
            (100 * g - 8) * c <= 100 * t,
            tb == (t as nat * u) * u,
            cb == (c * u) * u,
    ;
    assert(1000 * ux <= 1045 * cb) by (nonlinear_arith)
        requires
            1000 * x <= 1045 * (c * u),
            ux == u * x,
            cb == (c * u) * u,
    ;
    assert(955 * cb <= 1000 * ux) by (nonlinear_arith)
        requires
            955 * (c * u) <= 1000 * x,
            ux == u * x,
            cb == (c * u) * u,
    ;
    assert(cb > 0) by (nonlinear_arith)
        requires
            cb == (c * u) * u,
            c >= 1,
            u > 0,
    ;
    if 2 * y >= (2 * g + 1) * u {
        assert(2 * xy >= (2 * g + 1) * ux) by (nonlinear_arith)
            requires
                2 * y >= (2 * g + 1) * u,
                xy == x * y,
                ux == u * x,
        ;
        if g == 2 {
            assert(2 * xy >= 5 * ux && 100 * tb <= 208 * cb);
        } else if g == 3 {
            assert(2 * xy >= 7 * ux && 100 * tb <= 308 * cb);
        } else {
            assert(2 * xy >= 9 * ux && 100 * tb <= 408 * cb);
        }
        assert(false);
    }
    if 2 * y < (2 * g - 1) * u {
        assert(2 * xy <= (2 * g - 1) * ux) by (nonlinear_arith)
            requires
                2 * y < (2 * g - 1) * u,
                xy == x * y,
                ux == u * x,
        ;
        if g == 2 {
            assert(2 * xy <= 3 * ux && 192 * cb <= 100 * tb);
        } else if g == 3 {
            assert(2 * xy <= 5 * ux && 292 * cb <= 100 * tb);
        } else {
            assert(2 * xy <= 7 * ux && 392 * cb <= 100 * tb);
        }
        assert(false);
    }
    lemma_to_int(r, g);
}

/// An estimate stays close.
proof fn lemma_stays_close(cell: Binary64, t: u32, g: nat, c: nat)
    requires
        sound_cell(cell),
        close(cell, c),
        c >= 1,
        2 <= g <= 4,
        t > 0,
        near_gap(t, g, c),
    ensures
        close(next_cell(cell, t), c),
{
    lemma_pll_powers();
    lemma_weights();
    lemma_span_right(cell, t, g, c);
    lemma_next_sound(cell, t);
    lemma_of_int(t as nat);
    lemma_of_int(g);
    let u = unit();
    let a = of_int(t as nat);
    let b = of_int(g);
    let q = quotient(a, b);
    lemma_quotient_error(a, b);
    let x = scaled(cell);
    let y = scaled(q);
    // The share of one cell.
    let tu = t as nat * u;
    let gy = g * y;
    assert(scaled(b) * y == gy * u) by (nonlinear_arith)
        requires
            scaled(b) == g * u,
            gy == g * y,
    ;
    assert(TWO53 * (gy - tu) <= tu) by (nonlinear_arith)
        requires
            TWO53 * (gy * u - tu * u) <= tu * u,
            u > 0,
    ;
    assert(TWO53 * (tu - gy) <= tu) by (nonlinear_arith)
        requires
            TWO53 * (tu * u - gy * u) <= tu * u,
            u > 0,
    ;
    let cu = c * u;
    assert(cu > 0) by (nonlinear_arith)
        requires
            cu == c * u,
            c >= 1,
            u > 0,
    ;
    assert(100 * tu <= (100 * g + 8) * cu) by (nonlinear_arith)
        requires
            100 * t <= (100 * g + 8) * c,
            tu == t as nat * u,
            cu == c * u,
    ;
    assert((100 * g - 8) * cu <= 100 * tu) by (nonlinear_arith)
        requires
            (100 * g - 8) * c <= 100 * t,
            tu == t as nat * u,
            cu == c * u,
    ;
    assert(10000 * y <= 10401 * cu && 9599 * cu <= 10000 * y) by {
        if g == 2 {
            assert(gy == 2 * y && 192 * cu <= 100 * tu <= 208 * cu);
        } else if g == 3 {
            assert(gy == 3 * y && 292 * cu <= 100 * tu <= 308 * cu);
        } else {
            assert(g == 4);
            assert(gy == 4 * y && 392 * cu <= 100 * tu <= 408 * cu);
        }
    }
    // The old estimate, weighted.
    let px = product(cell, keep_weight());
    let kw = scaled(keep_weight());
    lemma_product_error(cell, keep_weight());
    let zx = scaled(px);
    let xk = x * kw;
    let xu = x * u;
    assert(10 * xk >= 9 * xu && 1000000 * (10 * xk - 9 * xu) <= xu) by (nonlinear_arith)
        requires
            xk == x * kw,
            xu == x * u,
            10 * kw >= 9 * u,
            1000000 * (10 * kw - 9 * u) <= u,
    ;
    assert(TWO53 * (zx * u - xk) <= xk);
    assert(TWO53 * (xk - zx * u) <= xk);
    assert(100000 * (zx * u) <= 90001 * xu && 89999 * xu <= 100000 * (zx * u));
    assert(100000 * zx <= 90001 * x) by (nonlinear_arith)
        requires
            100000 * (zx * u) <= 90001 * xu,
            xu == x * u,
            u > 0,
    ;
    assert(89999 * x <= 100000 * zx) by (nonlinear_arith)
        requires
            89999 * xu <= 100000 * (zx * u),
            xu == x * u,
            u > 0,
    ;
    // The new interval, weighted.
    let py = product(q, new_weight());
    let nw = scaled(new_weight());
    lemma_product_error(q, new_weight());
    let zy = scaled(py);
    let yn = y * nw;
    let yu = y * u;
    assert(10 * yn >= yu && 1000000 * (10 * yn - yu) <= yu) by (nonlinear_arith)
        requires
            yn == y * nw,
            yu == y * u,
            10 * nw >= u,
            1000000 * (10 * nw - u) <= u,
    ;
    assert(TWO53 * (zy * u - yn) <= yn);
    assert(TWO53 * (yn - zy * u) <= yn);
    assert(100000 * (zy * u) <= 10001 * yu && 9999 * yu <= 100000 * (zy * u));
    assert(100000 * zy <= 10001 * y) by (nonlinear_arith)
        requires
            100000 * (zy * u) <= 10001 * yu,
            yu == y * u,
            u > 0,
    ;
    assert(9999 * y <= 100000 * zy) by (nonlinear_arith)
        requires
            9999 * yu <= 100000 * (zy * u),
            yu == y * u,
            u > 0,
    ;
    // The sum.
    lemma_sum_error(px, py);
    let z = scaled(sum(px, py));
    assert(next_cell(cell, t) == sum(px, py));
    assert(TWO53 * (z - (zx + zy)) <= zx + zy);
    assert(TWO53 * ((zx + zy) - z) <= zx + zy);
    assert(1000 * z <= 1045 * cu);
    assert(955 * cu <= 1000 * z);
}

/// How many of the elements are at most `b`.
spec fn count_at_most(s: Seq<u32>, b: int) -> nat
    decreases s.len(),
{
    if s.len() == 0 {
        0
    } else {
        count_at_most(s.drop_last(), b) + (if s.last() <= b { 1nat } else { 0nat })
    }
}

/// Counting does not depend on the order.
proof fn lemma_count_is_multiset(s: Seq<u32>, b: int)
    ensures
        count_at_most(s, b) == s.to_multiset().filter(|x: u32| x <= b).len(),
    decreases s.len(),
{
    broadcast use vstd::seq_lib::group_to_multiset_ensures;
    broadcast use vstd::multiset::group_multiset_axioms;

    let f = |x: u32| x <= b;
    if s.len() == 0 {
        assert(s.to_multiset().filter(f) =~= vstd::multiset::Multiset::empty());
    } else {
        let h = s.drop_last();
        let x = s.last();
        lemma_count_is_multiset(h, b);
        assert(s =~= h.push(x));
        let m = h.to_multiset();
        assert(s.to_multiset() =~= m.insert(x));
        if x <= b {
            assert(m.insert(x).filter(f) =~= m.filter(f).insert(x));
        } else {
            assert(m.insert(x).filter(f) =~= m.filter(f));
        }
    }
}

/// In an ascending list with an element above `b` at `k`, at most `k` elements
/// are at most `b`.
proof fn lemma_count_sorted(s: Seq<u32>, k: int, b: int)
    requires
        is_sorted(s),
        0 <= k < s.len(),
        s[k] > b,
    ensures
        count_at_most(s, b) <= k,
    decreases s.len(),
{
    let h = s.drop_last();
    assert(s.last() > b) by {
        assert(s[k] <= s[s.len() - 1]);
    }
    if k < s.len() - 1 {
        assert(is_sorted(h));
        lemma_count_sorted(h, k, b);
    } else {
        lemma_count_len(h, b);
    }
}

proof fn lemma_count_len(s: Seq<u32>, b: int)
    ensures
        count_at_most(s, b) <= s.len(),
    decreases s.len(),
{
    if s.len() > 0 {
        lemma_count_len(s.drop_last(), b);
    }
}

/// How many gaps are two cells long.
pub open spec fn count_twos(gaps: Seq<nat>) -> nat
    decreases gaps.len(),
{
    if gaps.len() == 0 {
        0
    } else {
        count_twos(gaps.drop_last()) + (if gaps.last() == 2 { 1nat } else { 0nat })
    }
}

/// The intervals of a drive that wavers: each is near its number of cells.
pub open spec fn wavering(flux: Seq<u32>, gaps: Seq<nat>, c: nat) -> bool {
    &&& flux.len() == gaps.len()
    &&& forall|i: int| 0 <= i < flux.len() ==> 2 <= #[trigger] gaps[i] <= 4 && near_gap(
        flux[i],
        gaps[i],
        c,
    )
}

proof fn lemma_short_ones(flux: Seq<u32>, gaps: Seq<nat>, c: nat)
    requires
        wavering(flux, gaps, c),
    ensures
        count_twos(gaps) <= count_at_most(flux, (208 * c) as int / 100),
    decreases flux.len(),
{
    if flux.len() > 0 {
        let n = flux.len() - 1;
        assert(gaps[n] >= 2);
        assert(wavering(flux.drop_last(), gaps.drop_last(), c)) by {
            assert forall|i: int| 0 <= i < flux.drop_last().len() implies 2
                <= #[trigger] gaps.drop_last()[i] <= 4 && near_gap(
                flux.drop_last()[i],
                gaps.drop_last()[i],
                c,
            ) by {
                assert(gaps[i] == gaps.drop_last()[i]);
            }
        }
        lemma_short_ones(flux.drop_last(), gaps.drop_last(), c);
        if gaps.last() == 2 {
            assert(near_gap(flux[n], 2, c));
            assert(100 * flux[n] <= 208 * c);
        }
    }
}

/// All intervals are above zero.
proof fn lemma_all_nonzero(flux: Seq<u32>, gaps: Seq<nat>, c: nat)
    requires
        wavering(flux, gaps, c),
        c >= 1,
    ensures
        forall|i: int| 0 <= i < flux.len() ==> (#[trigger] flux[i]) >= 2,
        nonzero(flux) == flux,
{
    assert forall|i: int| 0 <= i < flux.len() implies (#[trigger] flux[i]) >= 2 by {
        assert(2 <= gaps[i] <= 4);
        let g = gaps[i];
        let t = flux[i];
        assert(100 * t >= 192) by (nonlinear_arith)
            requires
                (100 * g - 8) * c <= 100 * t,
                g >= 2,
                c >= 1,
        ;
    }
    lemma_filter_all(flux);
}

proof fn lemma_filter_all(flux: Seq<u32>)
    requires
        forall|i: int| 0 <= i < flux.len() ==> (#[trigger] flux[i]) >= 2,
    ensures
        nonzero(flux) == flux,
    decreases flux.len(),
{
    reveal(Seq::filter);
    if flux.len() > 0 {
        assert forall|i: int| 0 <= i < flux.drop_last().len() implies (
        #[trigger] flux.drop_last()[i]) >= 2 by {
            assert(flux.drop_last()[i] == flux[i]);
        }
        lemma_filter_all(flux.drop_last());
        assert(flux[flux.len() - 1] >= 2);
        assert(flux.drop_last().push(flux.last()) =~= flux);
    }
}

/// The first estimate is close.
proof fn lemma_first_close(flux: Seq<u32>, gaps: Seq<nat>, c: nat)
    requires
        wavering(flux, gaps, c),
        c >= 1,
        flux.len() > 0,
        count_twos(gaps) > flux.len() / 20,
    ensures
        close(first_cell(flux), c),
{
    broadcast use vstd::seq_lib::group_to_multiset_ensures;

    lemma_all_nonzero(flux, gaps, c);
    lemma_short_ones(flux, gaps, c);
    lemma_sorted_facts(flux);
    let k = flux.len() as int / 20;
    let s = sorted(flux);
    let b = (208 * c) as int / 100;
    let t = s[k];
    lemma_count_is_multiset(flux, b);
    lemma_count_is_multiset(s, b);
    if t > b {
        lemma_count_sorted(s, k, b);
        assert(false);
    }
    assert(s.to_multiset().count(t) > 0) by {
        assert(s.contains(t));
    }
    assert(flux.contains(t));
    let j = choose|j: int| 0 <= j < flux.len() && flux[j] == t;
    assert(2 <= gaps[j] <= 4);
    let g = gaps[j];
    assert(192 * c <= 100 * t) by (nonlinear_arith)
        requires
            (100 * g - 8) * c <= 100 * t,
            g >= 2,
    ;
    assert(t >= 2);
    assert(short_interval(flux) == t);
    lemma_pll_powers();
    lemma_of_int(t as nat);
    let a = of_int(t as nat);
    let h = half(a);
    lemma_pow2_unfold((a.exp + 200) as nat);
    assert(2 * scaled(h) == scaled(a)) by (nonlinear_arith)
        requires
            scaled(a) == a.mant as nat * (2 * pow2((h.exp + 200) as nat)),
            scaled(h) == a.mant as nat * pow2((h.exp + 200) as nat),
    ;
    let u = unit();
    assert(192 * (c * u) <= 100 * (t as nat * u)) by (nonlinear_arith)
        requires
            192 * c <= 100 * t,
    ;
    assert(100 * (t as nat * u) <= 208 * (c * u)) by (nonlinear_arith)
        requires
            100 * t <= 208 * c,
    ;
}

/// The cells of gaps that follow one another.
pub open spec fn expand(gaps: Seq<nat>) -> Seq<bool>
    decreases gaps.len(),
{
    if gaps.len() == 0 {
        Seq::empty()
    } else {
        expand(gaps.drop_last()) + gap_cells(gaps.last())
    }
}

proof fn lemma_follows(flux: Seq<u32>, gaps: Seq<nat>, c: nat, i: int)
    requires
        wavering(flux, gaps, c),
        c >= 1,
        flux.len() > 0,
        count_twos(gaps) > flux.len() / 20,
        0 <= i <= flux.len(),
    ensures
        sound_cell(cell_after(flux, i)),
        close(cell_after(flux, i), c),
        cells_after(flux, i) == expand(gaps.take(i)),
    decreases i,
{
    super::pll::lemma_cell_sound(flux, i);
    if i == 0 {
        lemma_first_close(flux, gaps, c);
        assert(gaps.take(0) =~= Seq::<nat>::empty());
    } else {
        lemma_follows(flux, gaps, c, i - 1);
        lemma_all_nonzero(flux, gaps, c);
        let t = flux[i - 1];
        let g = gaps[i - 1];
        assert(t >= 2);
        assert(2 <= g <= 4 && near_gap(t, g, c));
        let cell = cell_after(flux, i - 1);
        lemma_span_right(cell, t, g, c);
        lemma_stays_close(cell, t, g, c);
        assert(gaps.take(i).drop_last() =~= gaps.take(i - 1));
    }
}

/// Where every interval is within eight hundredths of a cell of its length, and
/// more than a twentieth of them are two cells long, the loop counts the cells of
/// every interval right, whatever the length of a cell is.
pub proof fn law_pll_follows(flux: Seq<u32>, gaps: Seq<nat>, c: nat)
    requires
        wavering(flux, gaps, c),
        c >= 1,
        flux.len() > 0,
        count_twos(gaps) > flux.len() / 20,
    ensures
        nonzero(flux).len() > 0,
        flux_cells(flux) == expand(gaps),
{
    lemma_all_nonzero(flux, gaps, c);
    lemma_follows(flux, gaps, c, flux.len() as int);
    assert(gaps.take(flux.len() as int) =~= gaps);
}

} // verus!
