//! What cells say, whether they were written well or not.

use super::bits_value;
use super::byte_at;
use super::bytes_at;
use super::data_cells;
use super::has_unit;
use super::sector_size;
use super::sync_at;
use super::syncs_from;
use vstd::arithmetic::power2::lemma_pow2_unfold;
use vstd::arithmetic::power2::pow2;
use vstd::prelude::*;

verus! {

/// The weight of a digit.
pub open spec fn digit(b: bool) -> int {
    if b {
        1
    } else {
        0
    }
}

/// Cells are binary digits, the most significant first: what stands before others is
/// worth as much more as there are of them.
pub proof fn law_digits_are_binary(a: Seq<bool>, b: Seq<bool>)
    ensures
        bits_value(Seq::empty()) == 0,
        bits_value(seq![true]) == 1,
        bits_value(seq![false]) == 0,
        bits_value(a + b) == bits_value(a) * pow2(b.len()) + bits_value(b),
    decreases b.len(),
{
    reveal_with_fuel(bits_value, 2);
    assert(seq![true].drop_last() =~= Seq::<bool>::empty());
    assert(seq![false].drop_last() =~= Seq::<bool>::empty());
    if b.len() == 0 {
        assert(a + b =~= a);
        assert(pow2(0) == 1) by {
            vstd::arithmetic::power2::lemma2_to64();
        }
    } else {
        law_digits_are_binary(a, b.drop_last());
        assert((a + b).drop_last() =~= a + b.drop_last());
        assert((a + b).last() == b.last());
        lemma_pow2_unfold(b.len());
        let p = pow2((b.len() - 1) as nat);
        let v = bits_value(a);
        assert(2 * (v * p) == v * (2 * p)) by (nonlinear_arith);
    }
}

/// A byte is what every second cell says, from the second on; the cells between them, the
/// clocks, do not count, right or wrong.
pub proof fn law_clocks_do_not_count(cells: Seq<bool>, p: int)
    ensures
        byte_at(cells, p) == 128 * digit(cells[p + 1]) + 64 * digit(cells[p + 3]) + 32 * digit(
            cells[p + 5],
        ) + 16 * digit(cells[p + 7]) + 8 * digit(cells[p + 9]) + 4 * digit(cells[p + 11]) + 2
            * digit(cells[p + 13]) + digit(cells[p + 15]),
{
    let d = data_cells(cells, p);
    assert(d.take(8) =~= d);
    assert(d.take(0) =~= Seq::<bool>::empty());
    assert(bits_value(d.take(0)) == 0);
    lemma_one_more(d, 0);
    lemma_one_more(d, 1);
    lemma_one_more(d, 2);
    lemma_one_more(d, 3);
    lemma_one_more(d, 4);
    lemma_one_more(d, 5);
    lemma_one_more(d, 6);
    lemma_one_more(d, 7);
    assert(d[0] == cells[p + 1] && d[1] == cells[p + 3] && d[2] == cells[p + 5] && d[3] == cells[p
        + 7]);
    assert(d[4] == cells[p + 9] && d[5] == cells[p + 11] && d[6] == cells[p + 13] && d[7]
        == cells[p + 15]);
}

proof fn lemma_one_more(d: Seq<bool>, k: int)
    requires
        0 <= k < d.len(),
    ensures
        bits_value(d.take(k + 1)) == 2 * bits_value(d.take(k)) + digit(d[k]),
{
    assert(d.take(k + 1).drop_last() =~= d.take(k));
    assert(d.take(k + 1).last() == d[k]);
}

/// Bytes stand sixteen cells apart.
pub proof fn law_bytes_follow(cells: Seq<bool>, p: int, count: nat, i: int)
    requires
        0 <= i < count,
    ensures
        bytes_at(cells, p, count).len() == count,
        bytes_at(cells, p, count)[i] == byte_at(cells, p + 16 * i),
{
}

/// Where the size needs more than 64 bits, all of them are lost.
pub proof fn law_huge_sizes_are_lost(n: u8)
    requires
        57 <= n < 64,
    ensures
        sector_size(n) == 0,
{
}

/// The size of a sector doubles with each size code, from 128 bytes on.
pub proof fn law_sizes_double(n: u8)
    requires
        n < 56,
    ensures
        sector_size(0) == 128,
        sector_size((n + 1) as u8) == 2 * sector_size(n),
{
    vstd::arithmetic::power2::lemma2_to64();
    lemma_pow2_unfold((n + 1) as nat);
    assert(sector_size(0) == 128 * pow2(0));
    assert(128 * (2 * pow2(n as nat)) == 2 * (128 * pow2(n as nat)));
}

/// The sync pattern, cell by cell: an `A1` with a clock missing.
pub open spec fn is_sync(cells: Seq<bool>, p: int) -> bool {
    &&& 0 <= p && p + 16 <= cells.len()
    &&& forall|k: int|
        0 <= k < 16 ==> #[trigger] cells[p + k] == (k == 1 || k == 5 || k == 8 || k == 12 || k
            == 15)
}

proof fn lemma_is_sync(cells: Seq<bool>, p: int)
    ensures
        sync_at(cells, p) <==> is_sync(cells, p),
{
    let c = super::sync_cells();
    if 0 <= p && p + 16 <= cells.len() {
        let w = cells.subrange(p, p + 16);
        if w == c {
            assert forall|k: int| 0 <= k < 16 implies #[trigger] cells[p + k] == (k == 1 || k == 5
                || k == 8 || k == 12 || k == 15) by {
                assert(w[k] == c[k]);
            }
        }
        if is_sync(cells, p) {
            assert forall|k: int| 0 <= k < 16 implies w[k] == c[k] by {
                assert(cells[p + k] == (k == 1 || k == 5 || k == 8 || k == 12 || k == 15));
            }
            assert(w =~= c);
        }
    }
}

/// A scan of any cells finds sync marks and nothing else, each sixteen cells behind the
/// one before it at least, and passes over none that does not overlap one that it found.
pub proof fn law_scan_finds_marks(cells: Seq<bool>, i: int)
    requires
        0 <= i,
    ensures
        forall|k: int|
            0 <= k < syncs_from(cells, i).len() ==> is_sync(cells, #[trigger] syncs_from(
                cells,
                i,
            )[k]) && syncs_from(cells, i)[k] >= i,
        forall|k: int|
            0 <= k && k + 1 < syncs_from(cells, i).len() ==> #[trigger] syncs_from(cells, i)[k]
                + 16 <= syncs_from(cells, i)[k + 1],
        forall|q: int|
            i <= q && #[trigger] is_sync(cells, q) ==> exists|k: int|
                0 <= k < syncs_from(cells, i).len() && #[trigger] syncs_from(cells, i)[k] <= q < syncs_from(cells, i)[k] + 16,
    decreases cells.len() - i,
{
    let s = syncs_from(cells, i);
    if i + 16 > cells.len() {
    } else if sync_at(cells, i) {
        let rest = syncs_from(cells, i + 16);
        law_scan_finds_marks(cells, i + 16);
        lemma_is_sync(cells, i);
        assert(s[0] == i);
        assert forall|k: int| 0 < k < s.len() implies #[trigger] s[k] == rest[k - 1] by {}
        assert forall|k: int| 0 <= k < s.len() implies is_sync(cells, #[trigger] s[k]) && s[k]
            >= i by {
            if k > 0 {
                assert(s[k] == rest[k - 1]);
            }
        }
        assert forall|k: int| 0 <= k && k + 1 < s.len() implies #[trigger] s[k] + 16 <= s[k
            + 1] by {
            assert(s[k + 1] == rest[k]);
            if k > 0 {
                assert(s[k] == rest[k - 1]);
                assert(rest[k - 1] + 16 <= rest[k - 1 + 1]);
            } else {
                assert(rest[0] >= i + 16);
            }
        }
        assert forall|q: int| i <= q && #[trigger] is_sync(cells, q) implies exists|k: int|
            0 <= k < s.len() && #[trigger] s[k] <= q < s[k] + 16 by {
            if q < i + 16 {
                assert(s[0] <= q < s[0] + 16);
            } else {
                let k = choose|k: int| 0 <= k < rest.len() && #[trigger] rest[k] <= q < rest[k] + 16;
                assert(s[k + 1] == rest[k]);
            }
        }
    } else {
        law_scan_finds_marks(cells, i + 1);
        lemma_is_sync(cells, i);
        assert forall|q: int| i <= q && #[trigger] is_sync(cells, q) implies exists|k: int|
            0 <= k < s.len() && #[trigger] s[k] <= q < s[k] + 16 by {
            assert(q >= i + 1);
        }
    }
}

/// Sixteen cells are there where none of them lies outside.
pub proof fn law_units_are_there(cells: Seq<bool>, p: int)
    ensures
        has_unit(cells, p) <==> 0 <= p <= cells.len() - 16,
{
}

} // verus!
