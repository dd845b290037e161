//! Merge sort: splits the array into halves, sorts each recursively,
//! and merges the sorted halves by repeated comparison of their front
//! elements, ties going to the left half.

use vstd::prelude::*;
use crate::order::sorted;

verus! {

/// A copy of the window `[from, to)` of the array.
fn subvec(arr: &Vec<i32>, from: usize, to: usize) -> (r: Vec<i32>)
    requires
        from <= to <= arr@.len(),
    ensures
        r@ == arr@.subrange(from as int, to as int),
{
    let mut r: Vec<i32> = Vec::new();
    let mut k = from;
    while k < to
        invariant
            from <= k <= to <= arr@.len(),
            r@ == arr@.subrange(from as int, k as int),
        decreases to - k,
    {
        let ghost pre = r@;
        r.push(arr[k]);
        proof {
            assert(r@ =~= arr@.subrange(from as int, k as int + 1));
        }
        k += 1;
    }
    r
}

/// Pushing the next element of `a` onto a prefix holding the merge of
/// the consumed fronts keeps the multiset relation.
proof fn lemma_take_from_first(pfx: Seq<i32>, a: Seq<i32>, b: Seq<i32>, ai: int, bj: int)
    requires
        0 <= ai < a.len(),
        0 <= bj <= b.len(),
        pfx.to_multiset() == (a.subrange(0, ai) + b.subrange(0, bj)).to_multiset(),
    ensures
        pfx.push(a[ai]).to_multiset() == (a.subrange(0, ai + 1) + b.subrange(0, bj)).to_multiset(),
{
    broadcast use vstd::seq_lib::group_to_multiset_ensures;
    broadcast use vstd::multiset::group_multiset_axioms;

    let x = a[ai];
    let la = a.subrange(0, ai);
    let lb = b.subrange(0, bj);
    vstd::seq_lib::lemma_multiset_commutative(la, lb);
    vstd::seq_lib::lemma_multiset_commutative(a.subrange(0, ai + 1), lb);
    assert(a.subrange(0, ai + 1) =~= la.push(x));
    assert(la.push(x).to_multiset() == la.to_multiset().insert(x));
    assert(pfx.push(x).to_multiset() == pfx.to_multiset().insert(x));
    assert(la.to_multiset().insert(x).add(lb.to_multiset()) =~= la.to_multiset().add(
        lb.to_multiset(),
    ).insert(x));
}

/// The same step when the element comes from `b`.
proof fn lemma_take_from_second(pfx: Seq<i32>, a: Seq<i32>, b: Seq<i32>, ai: int, bj: int)
    requires
        0 <= ai <= a.len(),
        0 <= bj < b.len(),
        pfx.to_multiset() == (a.subrange(0, ai) + b.subrange(0, bj)).to_multiset(),
    ensures
        pfx.push(b[bj]).to_multiset() == (a.subrange(0, ai) + b.subrange(0, bj + 1)).to_multiset(),
{
    broadcast use vstd::seq_lib::group_to_multiset_ensures;
    broadcast use vstd::multiset::group_multiset_axioms;

    let x = b[bj];
    let la = a.subrange(0, ai);
    let lb = b.subrange(0, bj);
    vstd::seq_lib::lemma_multiset_commutative(la, lb);
    vstd::seq_lib::lemma_multiset_commutative(la, b.subrange(0, bj + 1));
    assert(b.subrange(0, bj + 1) =~= lb.push(x));
    assert(lb.push(x).to_multiset() == lb.to_multiset().insert(x));
    assert(pfx.push(x).to_multiset() == pfx.to_multiset().insert(x));
    assert(la.to_multiset().add(lb.to_multiset().insert(x)) =~= la.to_multiset().add(
        lb.to_multiset(),
    ).insert(x));
}

/// Merges the two sorted arrays `left` and `right` into `arr`, which
/// must have exactly their combined length. The result is sorted and
/// holds exactly the values of `left` and `right` together.
pub fn merge(arr: &mut Vec<i32>, left: &Vec<i32>, right: &Vec<i32>)
    requires
        old(arr)@.len() == left@.len() + right@.len(),
        sorted(left@),
        sorted(right@),
    ensures
        sorted(final(arr)@),
        final(arr)@.to_multiset() == (left@ + right@).to_multiset(),
        final(arr)@.len() == old(arr)@.len(),
{
    let n = arr.len();
    let mut i: usize = 0;
    let mut j: usize = 0;
    let mut k: usize = 0;
    proof {
        assert(arr@.subrange(0, 0) =~= left@.subrange(0, 0) + right@.subrange(0, 0));
    }
    while i < left.len() && j < right.len()
        invariant
            n == arr.len(),
            n == left@.len() + right@.len(),
            i <= left@.len(),
            j <= right@.len(),
            k == i + j,
            sorted(left@),
            sorted(right@),
            sorted(arr@.subrange(0, k as int)),
            arr@.subrange(0, k as int).to_multiset() == (left@.subrange(0, i as int)
                + right@.subrange(0, j as int)).to_multiset(),
            forall|m: int| 0 <= m < k && i < left@.len() ==> #[trigger] arr@[m] <= left@[i as int],
            forall|m: int| 0 <= m < k && j < right@.len() ==> #[trigger] arr@[m] <= right@[j as int],
        decreases n - k,
    {
        let ghost pre = arr@;
        if left[i] <= right[j] {
            arr[k] = left[i];
            proof {
                assert(arr@.subrange(0, k as int + 1) =~= pre.subrange(0, k as int).push(
                    left@[i as int],
                ));
                lemma_take_from_first(
                    pre.subrange(0, k as int),
                    left@,
                    right@,
                    i as int,
                    j as int,
                );
            }
            i += 1;
        } else {
            arr[k] = right[j];
            proof {
                assert(arr@.subrange(0, k as int + 1) =~= pre.subrange(0, k as int).push(
                    right@[j as int],
                ));
                lemma_take_from_second(
                    pre.subrange(0, k as int),
                    left@,
                    right@,
                    i as int,
                    j as int,
                );
            }
            j += 1;
        }
        k += 1;
    }
    while i < left.len()
        invariant
            n == arr.len(),
            n == left@.len() + right@.len(),
            i <= left@.len(),
            j <= right@.len(),
            i < left@.len() ==> j == right@.len(),
            k == i + j,
            sorted(left@),
            sorted(arr@.subrange(0, k as int)),
            arr@.subrange(0, k as int).to_multiset() == (left@.subrange(0, i as int)
                + right@.subrange(0, j as int)).to_multiset(),
            forall|m: int| 0 <= m < k && i < left@.len() ==> #[trigger] arr@[m] <= left@[i as int],
            forall|m: int| 0 <= m < k && j < right@.len() ==> #[trigger] arr@[m] <= right@[j as int],
        decreases n - k,
    {
        let ghost pre = arr@;
        arr[k] = left[i];
        proof {
            assert(arr@.subrange(0, k as int + 1) =~= pre.subrange(0, k as int).push(
                left@[i as int],
            ));
            lemma_take_from_first(pre.subrange(0, k as int), left@, right@, i as int, j as int);
        }
        i += 1;
        k += 1;
    }
    while j < right.len()
        invariant
            n == arr.len(),
            n == left@.len() + right@.len(),
            i == left@.len(),
            j <= right@.len(),
            k == i + j,
            sorted(right@),
            sorted(arr@.subrange(0, k as int)),
            arr@.subrange(0, k as int).to_multiset() == (left@.subrange(0, i as int)
                + right@.subrange(0, j as int)).to_multiset(),
            forall|m: int| 0 <= m < k && j < right@.len() ==> #[trigger] arr@[m] <= right@[j as int],
        decreases n - k,
    {
        let ghost pre = arr@;
        arr[k] = right[j];
        proof {
            assert(arr@.subrange(0, k as int + 1) =~= pre.subrange(0, k as int).push(
                right@[j as int],
            ));
            lemma_take_from_second(pre.subrange(0, k as int), left@, right@, i as int, j as int);
        }
        j += 1;
        k += 1;
    }
    proof {
        assert(arr@ =~= arr@.subrange(0, n as int));
        assert(left@.subrange(0, left@.len() as int) =~= left@);
        assert(right@.subrange(0, right@.len() as int) =~= right@);
    }
}

/// Recursive merge sort. The result is a non-decreasing permutation of
/// the input.
pub fn merge_sort(arr: &mut Vec<i32>)
    ensures
        sorted(final(arr)@),
        final(arr)@.to_multiset() == old(arr)@.to_multiset(),
        final(arr)@.len() == old(arr)@.len(),
    decreases old(arr)@.len(),
{
    let n = arr.len();
    if n <= 1 {
        return;
    }
    let mid = n / 2;
    let mut left = subvec(arr, 0, mid);
    let mut right = subvec(arr, mid, n);
    let ghost l0 = left@;
    let ghost r0 = right@;
    merge_sort(&mut left);
    merge_sort(&mut right);
    merge(arr, &left, &right);
    proof {
        broadcast use vstd::multiset::group_multiset_axioms;

        assert(old(arr)@ =~= l0 + r0);
        vstd::seq_lib::lemma_multiset_commutative(l0, r0);
        vstd::seq_lib::lemma_multiset_commutative(left@, right@);
    }
}

} // verus!
