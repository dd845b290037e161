//! Quick sort with the Lomuto partition scheme: the pivot is the last
//! element of the active range, and the range is split around the
//! pivot's final position before recursing on both sides.

use vstd::prelude::*;
use crate::order::sorted;
use crate::order::swap_items;
use crate::order::lemma_swap_multiset;
use crate::order::lemma_perm_preserves_bounds;

verus! {

/// A swap of two positions inside a window keeps the multiset of the
/// window's values.
proof fn lemma_swap_in_window(s: Seq<i32>, lo: int, hi: int, a: int, b: int)
    requires
        0 <= lo <= a < hi <= s.len(),
        lo <= b < hi,
    ensures
        s.update(a, s[b]).update(b, s[a]).subrange(lo, hi).to_multiset() == s.subrange(
            lo,
            hi,
        ).to_multiset(),
{
    let w = s.subrange(lo, hi);
    assert(s.update(a, s[b]).update(b, s[a]).subrange(lo, hi) =~= w.update(a - lo, w[b - lo]).update(
        b - lo,
        w[a - lo],
    ));
    lemma_swap_multiset(w, a - lo, b - lo);
}

/// Lomuto partition of the window `[lo, hi)`, whose last element is the
/// pivot. Elements at or below the pivot value end up left of the
/// returned position, strictly greater elements right of it, the pivot
/// value at it; nothing outside the window moves and the window keeps
/// its multiset of values.
pub fn partition(arr: &mut Vec<i32>, lo: usize, hi: usize) -> (p: usize)
    requires
        lo < hi <= old(arr)@.len(),
    ensures
        final(arr)@.len() == old(arr)@.len(),
        lo <= p < hi,
        forall|k: int|
            0 <= k < lo || hi <= k < old(arr)@.len() ==> final(arr)@[k] == old(arr)@[k],
        final(arr)@.subrange(lo as int, hi as int).to_multiset() == old(arr)@.subrange(
            lo as int,
            hi as int,
        ).to_multiset(),
        forall|k: int| lo <= k < p ==> #[trigger] final(arr)@[k] <= final(arr)@[p as int],
        forall|k: int| p < k < hi ==> #[trigger] final(arr)@[k] > final(arr)@[p as int],
{
    let n = arr.len();
    let pivot_index = hi - 1;
    let pivot = arr[pivot_index];
    let mut i = lo;
    let mut j = lo;
    while j < pivot_index
        invariant
            n == arr.len(),
            n == old(arr)@.len(),
            lo <= i <= j <= pivot_index,
            pivot_index == hi - 1,
            hi <= n,
            arr@[pivot_index as int] == pivot,
            forall|k: int| lo <= k < i ==> #[trigger] arr@[k] <= pivot,
            forall|k: int| i <= k < j ==> #[trigger] arr@[k] > pivot,
            forall|k: int| 0 <= k < lo || hi <= k < n ==> arr@[k] == old(arr)@[k],
            arr@.subrange(lo as int, hi as int).to_multiset() == old(arr)@.subrange(
                lo as int,
                hi as int,
            ).to_multiset(),
        decreases pivot_index - j,
    {
        if arr[j] <= pivot {
            let ghost before = arr@;
            swap_items(arr, i, j);
            proof {
                lemma_swap_in_window(before, lo as int, hi as int, i as int, j as int);
            }
            i += 1;
        }
        j += 1;
    }
    let ghost before = arr@;
    swap_items(arr, i, pivot_index);
    proof {
        lemma_swap_in_window(before, lo as int, hi as int, i as int, pivot_index as int);
    }
    i
}

/// Sorts the window `[lo, hi)` in place; nothing outside the window
/// moves and the window keeps its multiset of values.
fn quick_sort_between(arr: &mut Vec<i32>, lo: usize, hi: usize)
    requires
        lo <= hi <= old(arr)@.len(),
    ensures
        final(arr)@.len() == old(arr)@.len(),
        forall|k: int|
            0 <= k < lo || hi <= k < old(arr)@.len() ==> final(arr)@[k] == old(arr)@[k],
        final(arr)@.subrange(lo as int, hi as int).to_multiset() == old(arr)@.subrange(
            lo as int,
            hi as int,
        ).to_multiset(),
        sorted(final(arr)@.subrange(lo as int, hi as int)),
    decreases hi - lo,
{
    if hi - lo >= 2 {
        let ghost a0 = arr@;
        let p = partition(arr, lo, hi);
        let ghost a1 = arr@;
        let ghost pv = a1[p as int];
        quick_sort_between(arr, lo, p);
        let ghost a2 = arr@;
        quick_sort_between(arr, p + 1, hi);
        let ghost a3 = arr@;
        proof {
            let loi = lo as int;
            let hii = hi as int;
            let pi = p as int;
            // the pivot and the right part were untouched by the left
            // recursion; the pivot and the left part by the right one
            assert(a2[pi] == pv);
            assert(a3[pi] == pv);
            assert(a3.subrange(loi, pi) =~= a2.subrange(loi, pi));
            // bounds carry from the partition over both recursions
            assert forall|k: int| 0 <= k < pi - loi implies #[trigger] a1.subrange(loi, pi)[k]
                <= pv by {
                assert(a1[loi + k] <= a1[pi]);
            }
            lemma_perm_preserves_bounds(
                a1.subrange(loi, pi),
                a2.subrange(loi, pi),
                i32::MIN as int,
                pv as int,
            );
            assert(a2.subrange(pi + 1, hii) =~= a1.subrange(pi + 1, hii));
            assert forall|k: int| 0 <= k < hii - (pi + 1) implies pv < #[trigger] a2.subrange(
                pi + 1,
                hii,
            )[k] by {
                assert(a1[pi + 1 + k] > a1[pi]);
            }
            lemma_perm_preserves_bounds(
                a2.subrange(pi + 1, hii),
                a3.subrange(pi + 1, hii),
                pv as int + 1,
                i32::MAX as int,
            );
            // the full window is sorted
            let w = a3.subrange(loi, hii);
            assert forall|x: int, y: int| 0 <= x <= y < w.len() implies w[x] <= w[y] by {
                if y < pi - loi {
                    assert(a3.subrange(loi, pi)[x] <= a3.subrange(loi, pi)[y]);
                } else if x > pi - loi {
                    assert(a3.subrange(pi + 1, hii)[x - (pi + 1 - loi)] <= a3.subrange(
                        pi + 1,
                        hii,
                    )[y - (pi + 1 - loi)]);
                    assert(w[x] == a3.subrange(pi + 1, hii)[x - (pi + 1 - loi)]);
                } else {
                    if x < pi - loi {
                        assert(a3.subrange(loi, pi)[x] == a2.subrange(loi, pi)[x]);
                        assert(a2.subrange(loi, pi)[x] <= pv);
                    }
                    if y > pi - loi {
                        assert(w[y] == a3.subrange(pi + 1, hii)[y - (pi + 1 - loi)]);
                        assert(a3.subrange(pi + 1, hii)[y - (pi + 1 - loi)] > pv);
                    }
                }
            }
            // the window's multiset is unchanged: split both windows
            // around the pivot position
            let mid1 = seq![a1[pi]];
            assert(a1.subrange(loi, hii) =~= a1.subrange(loi, pi) + mid1 + a1.subrange(
                pi + 1,
                hii,
            ));
            let mid3 = seq![a3[pi]];
            assert(a3.subrange(loi, hii) =~= a3.subrange(loi, pi) + mid3 + a3.subrange(
                pi + 1,
                hii,
            ));
            assert(mid1 =~= mid3);
            vstd::seq_lib::lemma_multiset_commutative(a1.subrange(loi, pi) + mid1, a1.subrange(pi + 1, hii));
            vstd::seq_lib::lemma_multiset_commutative(a1.subrange(loi, pi), mid1);
            vstd::seq_lib::lemma_multiset_commutative(a3.subrange(loi, pi) + mid3, a3.subrange(pi + 1, hii));
            vstd::seq_lib::lemma_multiset_commutative(a3.subrange(loi, pi), mid3);
            assert(a3.subrange(loi, hii).to_multiset() == a1.subrange(loi, hii).to_multiset());
        }
    } else {
        assert(sorted(arr@.subrange(lo as int, hi as int)));
    }
}

/// In-place quick sort. The result is a non-decreasing permutation of
/// the input. Not stable.
pub fn quick_sort(arr: &mut Vec<i32>)
    ensures
        sorted(final(arr)@),
        final(arr)@.to_multiset() == old(arr)@.to_multiset(),
        final(arr)@.len() == old(arr)@.len(),
{
    let n = arr.len();
    quick_sort_between(arr, 0, n);
    proof {
        assert(arr@.subrange(0, n as int) =~= arr@);
        assert(old(arr)@.subrange(0, n as int) =~= old(arr)@);
    }
}

} // verus!
