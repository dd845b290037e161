//! The ordering predicate shared by every algorithm, the executable
//! adjacent-pairs check, and the basic facts about permutations that
//! the sort proofs lean on.

use vstd::prelude::*;

verus! {

/// A sequence is sorted when every pair of positions is in
/// non-decreasing order.
pub open spec fn sorted(s: Seq<i32>) -> bool {
    forall|i: int, j: int| 0 <= i <= j < s.len() ==> s[i] <= s[j]
}

/// The pairwise form above follows from the adjacent-pairs form:
/// comparing each element with its successor is enough.
pub proof fn lemma_adjacent_implies_sorted(s: Seq<i32>)
    requires
        forall|k: int| 0 < k < s.len() ==> s[k - 1] <= #[trigger] s[k],
    ensures
        sorted(s),
{
    assert forall|i: int, j: int| 0 <= i <= j < s.len() implies s[i] <= s[j] by {
        lemma_chain_le(s, i, j);
    }
}

proof fn lemma_chain_le(s: Seq<i32>, i: int, j: int)
    requires
        forall|k: int| 0 < k < s.len() ==> s[k - 1] <= #[trigger] s[k],
        0 <= i <= j < s.len(),
    ensures
        s[i] <= s[j],
    decreases j - i,
{
    if i < j {
        lemma_chain_le(s, i, j - 1);
    }
}

/// Two sorted sequences holding the same multiset of values are equal:
/// a sorted permutation of a sequence of plain integers is unique.
/// Equal values are indistinguishable here, so any stable ordering of
/// them produces the same sequence as any other ordering; stability is
/// subsumed by the permutation property for this element type.
pub proof fn lemma_sorted_permutation_unique(x: Seq<i32>, y: Seq<i32>)
    requires
        sorted(x),
        sorted(y),
        x.to_multiset() == y.to_multiset(),
    ensures
        x == y,
{
    let leq = |a: i32, b: i32| a <= b;
    assert(vstd::relations::total_ordering(leq)) by {
        assert(vstd::relations::reflexive(leq));
        assert(vstd::relations::transitive(leq));
        assert(vstd::relations::antisymmetric(leq));
        assert(vstd::relations::connected(leq));
    }
    assert(vstd::relations::sorted_by(x, leq));
    assert(vstd::relations::sorted_by(y, leq));
    vstd::seq_lib::lemma_sorted_unique(x, y, leq);
}

/// A permutation keeps every element inside the bounds that held of
/// the original sequence.
pub proof fn lemma_perm_preserves_bounds(x: Seq<i32>, y: Seq<i32>, lo: int, hi: int)
    requires
        x.to_multiset() == y.to_multiset(),
        forall|i: int| 0 <= i < x.len() ==> lo <= #[trigger] x[i] <= hi,
    ensures
        forall|i: int| 0 <= i < y.len() ==> lo <= #[trigger] y[i] <= hi,
{
    broadcast use vstd::seq_lib::group_to_multiset_ensures;

    assert forall|i: int| 0 <= i < y.len() implies lo <= #[trigger] y[i] <= hi by {
        assert(y.to_multiset().count(y[i]) > 0);
        assert(x.contains(y[i]));
        let j = choose|j: int| 0 <= j < x.len() && x[j] == y[i];
        assert(lo <= x[j] <= hi);
    }
}

/// Exchanging two positions of a sequence keeps its multiset of values.
pub proof fn lemma_swap_multiset(s: Seq<i32>, a: int, b: int)
    requires
        0 <= a < s.len(),
        0 <= b < s.len(),
    ensures
        s.update(a, s[b]).update(b, s[a]).to_multiset() == s.to_multiset(),
{
    broadcast use vstd::multiset::group_multiset_axioms;

    s.to_multiset_ensures();
    if a == b {
        assert(s.update(a, s[b]).update(b, s[a]) =~= s);
    } else {
        vstd::seq_lib::to_multiset_update(s, a, s[b]);
        vstd::seq_lib::to_multiset_update(s.update(a, s[b]), b, s[a]);
        assert(s.contains(s[a]));
        assert(s.contains(s[b]));
        assert(s.to_multiset().count(s[a]) > 0);
        assert(s.to_multiset().count(s[b]) > 0);
        assert(s.to_multiset().insert(s[b]).remove(s[a]).insert(s[a]).remove(s[b])
            =~= s.to_multiset());
    }
}

/// Swaps the elements at positions `a` and `b`.
pub(crate) fn swap_items(arr: &mut Vec<i32>, a: usize, b: usize)
    requires
        a < old(arr)@.len(),
        b < old(arr)@.len(),
    ensures
        final(arr)@ == old(arr)@.update(a as int, old(arr)@[b as int]).update(
            b as int,
            old(arr)@[a as int],
        ),
        final(arr)@.to_multiset() == old(arr)@.to_multiset(),
        final(arr)@.len() == old(arr)@.len(),
{
    let va = arr[a];
    let vb = arr[b];
    arr[a] = vb;
    arr[b] = va;
    proof {
        lemma_swap_multiset(old(arr)@, a as int, b as int);
    }
}

/// Linear adjacent-pairs verification that a sequence is in
/// non-decreasing order.
pub fn is_sorted(arr: &Vec<i32>) -> (r: bool)
    ensures
        r == sorted(arr@),
{
    let mut k: usize = 1;
    while k < arr.len()
        invariant
            1 <= k,
            k <= arr.len() || arr.len() == 0,
            forall|m: int| 0 < m < k && m < arr.len() ==> arr@[m - 1] <= #[trigger] arr@[m],
        decreases arr.len() - k,
    {
        if arr[k - 1] > arr[k] {
            return false;
        }
        k += 1;
    }
    proof {
        lemma_adjacent_implies_sorted(arr@);
    }
    true
}

} // verus!
