//! Figures on a track, for a diagnosis.

use crate::sorting::lemma_sorted_facts;
use crate::sorting::lemma_sorted_is;
use crate::sorting::sort_ticks;
use crate::sorting::sorted;
use vstd::prelude::*;

verus! {

/// The shortest, the middle and the longest of the intervals; zeros where there are
/// none.
pub open spec fn spread_of(flux: Seq<u32>) -> (u32, u32, u32) {
    let s = sorted(flux);
    if flux.len() == 0 {
        (0, 0, 0)
    } else {
        (s[0], s[s.len() as int / 2], s[s.len() - 1])
    }
}

pub fn flux_spread(flux: &[u32]) -> (r: (u32, u32, u32))
    ensures
        r == spread_of(flux@),
{
    let s: Vec<u32> = sort_ticks(flux);
    if s.len() == 0 {
        (0, 0, 0)
    } else {
        (s[0], s[s.len() / 2], s[s.len() - 1])
    }
}

/// The shortest interval is the smallest, the longest the largest.
pub proof fn law_spread_encloses(flux: Seq<u32>, i: int)
    requires
        0 <= i < flux.len(),
    ensures
        spread_of(flux).0 <= flux[i] <= spread_of(flux).2,
{
    broadcast use vstd::seq_lib::group_to_multiset_ensures;

    let s = sorted(flux);
    lemma_sorted_facts(flux);
    assert(flux.contains(flux[i]));
    assert(s.to_multiset().count(flux[i]) > 0);
    assert(s.contains(flux[i]));
    let k = choose|k: int| 0 <= k < s.len() && s[k] == flux[i];
    assert(s[0] <= s[k] <= s[s.len() - 1]);
}

/// The figures are those of the intervals in ascending order, however they came: the
/// first, the middle one, and the last.
pub proof fn law_spread_is_of_the_order(flux: Seq<u32>, t: Seq<u32>)
    requires
        flux.len() > 0,
        t.to_multiset() == flux.to_multiset(),
        forall|i: int, j: int| 0 <= i <= j < t.len() ==> t[i] <= t[j],
    ensures
        t.len() == flux.len(),
        spread_of(flux) == (t[0], t[t.len() as int / 2], t[t.len() - 1]),
        spread_of(Seq::empty()) == (0u32, 0u32, 0u32),
{
    lemma_sorted_is(flux, t);
    lemma_sorted_facts(flux);
}

} // verus!
