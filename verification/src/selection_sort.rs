//! Selection sort: repeatedly finds the minimum of the unsorted suffix
//! (first occurrence on ties) and swaps it into place.

use vstd::prelude::*;
use crate::order::sorted;
use crate::order::swap_items;

verus! {

/// In-place selection sort. The result is a non-decreasing permutation
/// of the input.
pub fn selection_sort(arr: &mut Vec<i32>)
    ensures
        sorted(final(arr)@),
        final(arr)@.to_multiset() == old(arr)@.to_multiset(),
        final(arr)@.len() == old(arr)@.len(),
{
    let n = arr.len();
    if n < 2 {
        return;
    }
    let mut i: usize = 0;
    while i < n - 1
        invariant
            n == arr.len(),
            2 <= n,
            i <= n - 1,
            sorted(arr@.subrange(0, i as int)),
            arr@.to_multiset() == old(arr)@.to_multiset(),
            forall|k1: int, k2: int| 0 <= k1 < i <= k2 < n ==> #[trigger] arr@[k1] <= #[trigger] arr@[k2],
        decreases n - i,
    {
        let mut min_idx: usize = i;
        let mut j: usize = i + 1;
        while j < n
            invariant
                n == arr.len(),
                i <= min_idx < j <= n,
                i < n,
                forall|k: int| i <= k < j ==> arr@[min_idx as int] <= #[trigger] arr@[k],
            decreases n - j,
        {
            if arr[j] < arr[min_idx] {
                min_idx = j;
            }
            j += 1;
        }
        let ghost before = arr@;
        if min_idx != i {
            swap_items(arr, i, min_idx);
        }
        proof {
            assert forall|k1: int, k2: int|
                0 <= k1 < i + 1 <= k2 < n implies #[trigger] arr@[k1] <= #[trigger] arr@[k2] by {
                if k1 < i {
                    assert(before[k1] <= before[min_idx as int]);
                    assert(before[k1] <= before[k2]);
                } else {
                    assert(arr@[k1] == before[min_idx as int]);
                    if k2 == min_idx {
                        assert(arr@[k2] == before[i as int]);
                        assert(before[min_idx as int] <= before[i as int]);
                    } else {
                        assert(arr@[k2] == before[k2]);
                        assert(before[min_idx as int] <= before[k2]);
                    }
                }
            }
            assert(sorted(arr@.subrange(0, i as int + 1))) by {
                assert forall|k1: int, k2: int|
                    0 <= k1 <= k2 < i + 1 implies #[trigger] arr@.subrange(0, i as int + 1)[k1]
                    <= #[trigger] arr@.subrange(0, i as int + 1)[k2] by {
                    assert(arr@[k1] == before[k1] || k1 == i as int);
                    if k2 < i {
                        assert(before.subrange(0, i as int)[k1] <= before.subrange(
                            0,
                            i as int,
                        )[k2]);
                    } else if k1 < i {
                        assert(arr@[k1] <= arr@[k2]);
                    }
                }
            }
        }
        i += 1;
    }
    proof {
        assert forall|k1: int, k2: int| 0 <= k1 <= k2 < n implies arr@[k1] <= arr@[k2] by {
            if k2 < n - 1 {
                assert(arr@.subrange(0, n - 1)[k1] <= arr@.subrange(0, n - 1)[k2]);
            } else if k1 < k2 {
                assert(arr@[k1] <= arr@[k2]);
            }
        }
    }
}

} // verus!
