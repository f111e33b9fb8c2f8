//! Sorting of tick counts.

use vstd::prelude::*;
use vstd::relations::sorted_by;
use vstd::relations::total_ordering;
use vstd::seq_lib::lemma_multiset_commutative;
use vstd::seq_lib::lemma_sorted_unique;

verus! {

/// The order by value.
pub open spec fn ascending() -> spec_fn(u32, u32) -> bool {
    |a: u32, b: u32| a <= b
}

/// `s` in ascending order.
pub open spec fn sorted(s: Seq<u32>) -> Seq<u32> {
    s.sort_by(ascending())
}

/// Whether no element is below one before it.
pub open spec fn is_sorted(s: Seq<u32>) -> bool {
    forall|i: int, j: int| 0 <= i <= j < s.len() ==> s[i] <= s[j]
}

/// A sequence in ascending order is the sorted form of each of its
/// rearrangements.
pub proof fn lemma_sorted_is(s: Seq<u32>, t: Seq<u32>)
    requires
        is_sorted(t),
        s.to_multiset() == t.to_multiset(),
    ensures
        t == sorted(s),
{
    assert(total_ordering(ascending()));
    s.lemma_sort_by_ensures(ascending());
    assert(sorted_by(t, ascending()));
    lemma_sorted_unique(t, sorted(s), ascending());
}

/// The sorted form is ascending and a rearrangement.
pub proof fn lemma_sorted_facts(s: Seq<u32>)
    ensures
        is_sorted(sorted(s)),
        s.to_multiset() == sorted(s).to_multiset(),
        sorted(s).len() == s.len(),
{
    broadcast use vstd::seq_lib::group_to_multiset_ensures;

    assert(total_ordering(ascending()));
    s.lemma_sort_by_ensures(ascending());
    let t = sorted(s);
    assert(s.to_multiset().len() == s.len() && t.to_multiset().len() == t.len());
    assert forall|i: int, j: int| 0 <= i <= j < t.len() implies t[i] <= t[j] by {
        if i < j {
            assert(ascending()(t[i], t[j]));
        }
    }
}

/// One more element on either side of a merge.
proof fn lemma_merge_step(out: Seq<u32>, a: Seq<u32>, b: Seq<u32>, x: u32)
    requires
        out.to_multiset() == a.to_multiset().add(b.to_multiset()),
    ensures
        out.push(x).to_multiset() == a.push(x).to_multiset().add(b.to_multiset()),
        out.push(x).to_multiset() == a.to_multiset().add(b.push(x).to_multiset()),
{
    broadcast use vstd::seq_lib::group_to_multiset_ensures;
    broadcast use vstd::multiset::group_multiset_axioms;

    let o = out.to_multiset();
    let l = a.to_multiset();
    let r = b.to_multiset();
    assert(out.push(x).to_multiset() =~= o.insert(x));
    assert(a.push(x).to_multiset() =~= l.insert(x));
    assert(b.push(x).to_multiset() =~= r.insert(x));
    assert(o.insert(x) =~= l.insert(x).add(r));
    assert(o.insert(x) =~= l.add(r.insert(x)));
}

/// Merges two ascending lists.
fn merge(a: &Vec<u32>, b: &Vec<u32>) -> (out: Vec<u32>)
    requires
        is_sorted(a@),
        is_sorted(b@),
    ensures
        is_sorted(out@),
        out@.to_multiset() == a@.to_multiset().add(b@.to_multiset()),
{
    broadcast use vstd::seq_lib::group_to_multiset_ensures;
    broadcast use vstd::multiset::group_multiset_axioms;

    let mut out: Vec<u32> = Vec::new();
    let mut i: usize = 0;
    let mut j: usize = 0;
    proof {
        assert(a@.take(0) =~= Seq::<u32>::empty());
        assert(b@.take(0) =~= Seq::<u32>::empty());
        assert(out@.to_multiset() =~= a@.take(0).to_multiset().add(b@.take(0).to_multiset()));
    }
    while i < a.len() || j < b.len()
        invariant
            i <= a.len(),
            j <= b.len(),
            is_sorted(a@),
            is_sorted(b@),
            is_sorted(out@),
            forall|k: int, x: int| 0 <= k < out@.len() && i <= x < a@.len() ==> out@[k] <= a@[x],
            forall|k: int, x: int| 0 <= k < out@.len() && j <= x < b@.len() ==> out@[k] <= b@[x],
            out@.to_multiset() == a@.take(i as int).to_multiset().add(
                b@.take(j as int).to_multiset(),
            ),
        decreases a.len() - i + b.len() - j,
    {
        if j >= b.len() || (i < a.len() && a[i] <= b[j]) {
            proof {
                assert(a@.take(i + 1) =~= a@.take(i as int).push(a@[i as int]));
                lemma_merge_step(out@, a@.take(i as int), b@.take(j as int), a@[i as int]);
            }
            out.push(a[i]);
            i += 1;
        } else {
            proof {
                assert(b@.take(j + 1) =~= b@.take(j as int).push(b@[j as int]));
                lemma_merge_step(out@, a@.take(i as int), b@.take(j as int), b@[j as int]);
            }
            out.push(b[j]);
            j += 1;
        }
    }
    proof {
        assert(a@.take(i as int) =~= a@);
        assert(b@.take(j as int) =~= b@);
    }
    out
}

/// The elements from `from` up to `to` in ascending order.
fn merge_sort(v: &[u32], from: usize, to: usize) -> (out: Vec<u32>)
    requires
        from <= to <= v.len(),
    ensures
        is_sorted(out@),
        out@.to_multiset() == v@.subrange(from as int, to as int).to_multiset(),
    decreases to - from,
{
    broadcast use vstd::seq_lib::group_to_multiset_ensures;

    let ghost part = v@.subrange(from as int, to as int);
    let mut out: Vec<u32> = Vec::new();
    if to == from {
        assert(part =~= out@);
    } else if to - from == 1 {
        out.push(v[from]);
        assert(part =~= out@);
    } else {
        let mid: usize = from + (to - from) / 2;
        let left = merge_sort(v, from, mid);
        let right = merge_sort(v, mid, to);
        out = merge(&left, &right);
        proof {
            let l = v@.subrange(from as int, mid as int);
            let r = v@.subrange(mid as int, to as int);
            assert(part =~= l + r);
            lemma_multiset_commutative(l, r);
        }
    }
    out
}

/// `v` in ascending order.
pub fn sort_ticks(v: &[u32]) -> (out: Vec<u32>)
    ensures
        out@ == sorted(v@),
        out@.len() == v@.len(),
{
    let out = merge_sort(v, 0, v.len());
    proof {
        assert(v@.subrange(0, v@.len() as int) =~= v@);
        lemma_sorted_is(v@, out@);
        lemma_sorted_facts(v@);
    }
    out
}

} // verus!
