//! Insertion sort: builds the sorted array one element at a time by
//! shifting larger predecessors right until the key's position is found.

use vstd::prelude::*;
use crate::order::sorted;

verus! {

/// In-place insertion sort. The result is a non-decreasing permutation
/// of the input.
pub fn insertion_sort(arr: &mut Vec<i32>)
    ensures
        sorted(final(arr)@),
        final(arr)@.to_multiset() == old(arr)@.to_multiset(),
        final(arr)@.len() == old(arr)@.len(),
{
    broadcast use vstd::seq_lib::to_multiset_update;
    broadcast use vstd::seq_lib::group_to_multiset_ensures;
    broadcast use vstd::multiset::group_multiset_axioms;

    let n = arr.len();
    if n <= 1 {
        return;
    }
    let mut i: usize = 1;
    while i < n
        invariant
            n == arr.len(),
            1 <= i <= n,
            sorted(arr@.subrange(0, i as int)),
            arr@.to_multiset() == old(arr)@.to_multiset(),
        decreases n - i,
    {
        let key = arr[i];
        let ghost pre = arr@;
        proof {
            assert(arr@.update(i as int, key) =~= pre);
            assert forall|k1: int, k2: int|
                0 <= k1 <= k2 <= i && k1 != i && k2 != i implies #[trigger] arr@[k1]
                <= #[trigger] arr@[k2] by {
                assert(arr@[k1] == arr@.subrange(0, i as int)[k1]);
                assert(arr@[k2] == arr@.subrange(0, i as int)[k2]);
            }
        }
        let mut j: usize = i;
        while j > 0 && arr[j - 1] > key
            invariant
                n == arr.len(),
                j <= i < n,
                arr@.update(j as int, key).to_multiset() == pre.to_multiset(),
                forall|k1: int, k2: int|
                    0 <= k1 <= k2 <= i && k1 != j && k2 != j ==> #[trigger] arr@[k1]
                        <= #[trigger] arr@[k2],
                forall|k: int| j < k <= i ==> #[trigger] arr@[k] > key,
            decreases j,
        {
            let shifted = arr[j - 1];
            let ghost before = arr@;
            arr[j] = shifted;
            proof {
                let jj = j as int;
                before.to_multiset_ensures();
                assert(arr@ == before.update(jj, shifted));
                assert(before.contains(before[jj]));
                assert(before.to_multiset().count(before[jj]) > 0);
                assert(before.contains(shifted));
                assert(before.to_multiset().count(shifted) > 0);
                let m0 = before.to_multiset();
                vstd::seq_lib::to_multiset_update(before, jj, shifted);
                vstd::seq_lib::to_multiset_update(arr@, jj - 1, key);
                vstd::seq_lib::to_multiset_update(before, jj, key);
                assert(arr@.to_multiset() == m0.insert(shifted).remove(before[jj]));
                assert(arr@[jj - 1] == shifted);
                assert(arr@.update(jj - 1, key).to_multiset() == arr@.to_multiset().insert(
                    key,
                ).remove(shifted));
                assert(before.update(jj, key).to_multiset() == m0.insert(key).remove(before[jj]));
                assert(m0.insert(shifted).remove(before[jj]).insert(key).remove(shifted)
                    =~= m0.insert(key).remove(before[jj]));
            }
            j -= 1;
        }
        arr[j] = key;
        proof {
            assert(arr@.to_multiset() == old(arr)@.to_multiset());
            assert forall|k1: int, k2: int| 0 <= k1 <= k2 <= i implies #[trigger] arr@[k1]
                <= #[trigger] arr@[k2] by {
                if k2 == j && k1 < j {
                    assert(arr@[k1] <= arr@[j - 1]);
                }
            }
            assert(sorted(arr@.subrange(0, i as int + 1)));
        }
        i += 1;
    }
    proof {
        assert(arr@ =~= arr@.subrange(0, n as int));
    }
}

} // verus!
