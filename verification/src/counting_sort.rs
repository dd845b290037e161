//! Counting sort: finds the value range, builds a frequency table,
//! turns it into a prefix-sum table, and places each element into its
//! computed slot, scanning the input in reverse.

use vstd::prelude::*;
use crate::order::sorted;
use crate::counts::count_in;
use crate::counts::count_val;
use crate::counts::p_eq;
use crate::counts::p_key_lt;
use crate::counts::p_key_le;
use crate::counts::p_key_eq;
use crate::counts::lemma_count_bounds;
use crate::counts::lemma_count_split;
use crate::counts::lemma_count_pred_mono;
use crate::counts::lemma_count_pred_equiv;
use crate::counts::lemma_count_pred_equiv_on;
use crate::counts::lemma_count_union_on;
use crate::counts::lemma_count_all;
use crate::counts::lemma_count_none;
use crate::counts::lemma_block_of_pos;
use crate::counts::lemma_equal_counts_equal_multiset;

verus! {

/// The key of counting sort: an element's offset from the minimum value.
pub open spec fn key_shift(min: int) -> spec_fn(i32) -> int {
    |x: i32| x as int - min
}

/// A vector of `len` zero counters.
pub(crate) fn zero_counters(len: usize) -> (r: Vec<usize>)
    ensures
        r@.len() == len,
        forall|k: int| 0 <= k < len ==> r@[k] == 0,
{
    let mut r: Vec<usize> = Vec::new();
    let mut k: usize = 0;
    while k < len
        invariant
            k <= len,
            r@.len() == k,
            forall|m: int| 0 <= m < k ==> r@[m] == 0,
        decreases len - k,
    {
        r.push(0);
        k += 1;
    }
    r
}

/// A vector of `len` zero elements, used as the output buffer.
pub(crate) fn zero_elems(len: usize) -> (r: Vec<i32>)
    ensures
        r@.len() == len,
{
    let mut r: Vec<i32> = Vec::new();
    let mut k: usize = 0;
    while k < len
        invariant
            k <= len,
            r@.len() == k,
        decreases len - k,
    {
        r.push(0);
        k += 1;
    }
    r
}

/// The spread of the values is below the machine's address range, so
/// that the frequency table of `max - min + 1` counters can exist.
pub open spec fn range_fits(s: Seq<i32>) -> bool {
    forall|a: int, b: int|
        0 <= a < s.len() && 0 <= b < s.len() ==> #[trigger] (s[a] as int) - #[trigger] (
        s[b] as int) < usize::MAX as int
}

/// Counting sort. The value range `max - min + 1` must fit in memory,
/// which is the one machine limit demanded of the input. The result is
/// a non-decreasing permutation of the input.
#[verifier::loop_isolation(false)]
pub fn counting_sort(arr: &mut Vec<i32>)
    requires
        range_fits(old(arr)@),
    ensures
        sorted(final(arr)@),
        final(arr)@.to_multiset() == old(arr)@.to_multiset(),
        final(arr)@.len() == old(arr)@.len(),
{
    let n = arr.len();
    if n == 0 {
        return;
    }
    let ghost ni = n as int;

    // find the maximum and minimum values
    let mut mx = arr[0];
    let mut mn = arr[0];
    let mut t: usize = 1;
    while t < n
        invariant
            n == arr.len(),
            1 <= t <= n,
            forall|k: int| 0 <= k < t ==> mn <= #[trigger] arr@[k] <= mx,
            exists|k: int| 0 <= k < t && arr@[k] == mx,
            exists|k: int| 0 <= k < t && arr@[k] == mn,
        decreases n - t,
    {
        if arr[t] > mx {
            mx = arr[t];
        }
        if arr[t] < mn {
            mn = arr[t];
        }
        t += 1;
    }

    let ghost s = arr@;
    let ghost mni = mn as int;
    let ghost keyf = key_shift(mni);

    proof {
        let ka = choose|k: int| 0 <= k < ni && s[k] == mx;
        let kb = choose|k: int| 0 <= k < ni && s[k] == mn;
        assert((s[ka] as int) - (s[kb] as int) < usize::MAX as int);
    }
    let range = ((mx as i64) - (mn as i64) + 1) as usize;
    let ghost ri = range as int;
    proof {
        assert(ri == mx as int - mni + 1);
        assert(forall|k: int| 0 <= k < ni ==> 0 <= #[trigger] keyf(s[k]) < ri);
    }

    // frequency table
    let mut count = zero_counters(range);
    let mut idx: usize = 0;
    while idx < n
        invariant
            n == arr.len(),
            arr@ == s,
            count@.len() == range,
            idx <= n,
            ni == n as int,
            ri == range as int,
            1 <= ri,
            forall|k: int| 0 <= k < ni ==> 0 <= #[trigger] keyf(s[k]) < ri,
            forall|k: int| 0 <= k < ni ==> mni <= #[trigger] s[k] as int,
            forall|e: int|
                0 <= e < ri ==> #[trigger] count@[e] as int == count_in(
                    s,
                    0,
                    idx as int,
                    p_key_eq(keyf, e),
                ),
        decreases n - idx,
    {
        let x = arr[idx];
        let key = ((x as i64) - (mn as i64)) as usize;
        proof {
            assert(0 <= keyf(s[idx as int]) < ri);
            assert(keyf(s[idx as int]) == key as int);
            lemma_count_bounds(s, 0, idx as int, p_key_eq(keyf, key as int));
        }
        let c = count[key];
        count[key] = c + 1;
        proof {
            assert forall|e: int| 0 <= e < ri implies #[trigger] count@[e] as int == count_in(
                s,
                0,
                idx as int + 1,
                p_key_eq(keyf, e),
            ) by {
                assert(count_in(s, 0, idx as int + 1, p_key_eq(keyf, e)) == count_in(
                    s,
                    0,
                    idx as int,
                    p_key_eq(keyf, e),
                ) + if p_key_eq(keyf, e)(s[idx as int]) {
                    1int
                } else {
                    0int
                });
            }
        }
        idx += 1;
    }

    // prefix-sum table
    proof {
        lemma_count_pred_equiv_on(s, 0, ni, p_key_eq(keyf, 0), p_key_le(keyf, 0));
    }
    let mut d: usize = 1;
    while d < range
        invariant
            1 <= d <= range,
            count@.len() == range,
            arr@ == s,
            n == arr.len(),
            ni == n as int,
            ri == range as int,
            forall|k: int| 0 <= k < ni ==> 0 <= #[trigger] keyf(s[k]) < ri,
            forall|e: int|
                0 <= e < d ==> #[trigger] count@[e] as int == count_in(
                    s,
                    0,
                    ni,
                    p_key_le(keyf, e),
                ),
            forall|e: int|
                d <= e < ri ==> #[trigger] count@[e] as int == count_in(
                    s,
                    0,
                    ni,
                    p_key_eq(keyf, e),
                ),
        decreases range - d,
    {
        let a = count[d - 1];
        let b = count[d];
        proof {
            let di = d as int;
            lemma_count_union_on(
                s,
                0,
                ni,
                p_key_lt(keyf, di),
                p_key_eq(keyf, di),
                p_key_le(keyf, di),
            );
            lemma_count_pred_equiv(s, 0, ni, p_key_le(keyf, di - 1), p_key_lt(keyf, di));
            lemma_count_bounds(s, 0, ni, p_key_le(keyf, di));
        }
        count[d] = a + b;
        d += 1;
    }

    // placement, scanning the input in reverse for stability
    let mut out = zero_elems(n);
    let mut i: usize = n;
    proof {
        assert forall|e: int| 0 <= e < ri implies #[trigger] count@[e] as int == count_in(
            s,
            0,
            ni,
            p_key_le(keyf, e),
        ) + count_in(s, ni, ni, p_key_lt(keyf, e)) by {}
    }
    while i > 0
        invariant
            i <= n,
            n == arr.len(),
            arr@ == s,
            out@.len() == n,
            count@.len() == range,
            ni == n as int,
            ri == range as int,
            1 <= ri,
            forall|k: int| 0 <= k < ni ==> 0 <= #[trigger] keyf(s[k]) < ri,
            forall|e: int|
                0 <= e < ri ==> #[trigger] count@[e] as int == count_in(
                    s,
                    0,
                    i as int,
                    p_key_le(keyf, e),
                ) + count_in(s, i as int, ni, p_key_lt(keyf, e)),
            forall|e: int, pos: int|
                #![trigger count@[e], out@[pos]]
                0 <= e < ri && count@[e] <= pos < count_in(s, 0, ni, p_key_le(keyf, e))
                    ==> out@[pos] as int == mni + e,
        decreases i,
    {
        i -= 1;
        let x = arr[i];
        let key = ((x as i64) - (mn as i64)) as usize;
        let ghost ki = key as int;
        let ghost ii = i as int;
        proof {
            assert(0 <= keyf(s[ii]) < ri);
            assert(keyf(s[ii]) == (x as int) - mni);
            assert(keyf(s[ii]) == ki);
            assert(count_in(s, ii, ii, p_key_le(keyf, ki)) == 0);
            assert(count_in(s, ii, ii, p_key_lt(keyf, ki)) == 0);
            lemma_count_split(s, ii, ii + 1, ni, p_key_le(keyf, ki));
            lemma_count_split(s, ii, ii + 1, ni, p_key_lt(keyf, ki));
            lemma_count_split(s, 0, ii + 1, ni, p_key_le(keyf, ki));
            lemma_count_bounds(s, 0, ii, p_key_le(keyf, ki));
            lemma_count_bounds(s, ii + 1, ni, p_key_lt(keyf, ki));
            lemma_count_pred_mono(s, ii + 1, ni, p_key_lt(keyf, ki), p_key_le(keyf, ki));
            assert(count_in(s, ii, ii + 1, p_key_le(keyf, ki)) == 1);
            assert(count_in(s, ii, ii + 1, p_key_lt(keyf, ki)) == 0);
        }
        let c = count[key];
        let ghost cnt_pre = count@;
        let ghost out_pre = out@;
        out[c - 1] = x;
        count[key] = c - 1;
        proof {
            assert forall|e: int| 0 <= e < ri implies #[trigger] count@[e] as int == count_in(
                s,
                0,
                ii,
                p_key_le(keyf, e),
            ) + count_in(s, ii, ni, p_key_lt(keyf, e)) by {
                lemma_count_split(s, ii, ii + 1, ni, p_key_lt(keyf, e));
                assert(count_in(s, ii, ii, p_key_lt(keyf, e)) == 0);
                assert(count_in(s, 0, ii + 1, p_key_le(keyf, e)) == count_in(
                    s,
                    0,
                    ii,
                    p_key_le(keyf, e),
                ) + if p_key_le(keyf, e)(s[ii]) {
                    1int
                } else {
                    0int
                });
                assert(count_in(s, ii, ii + 1, p_key_lt(keyf, e)) == if p_key_lt(keyf, e)(
                    s[ii],
                ) {
                    1int
                } else {
                    0int
                });
            }
            let lt_full = count_in(s, 0, ni, p_key_lt(keyf, ki));
            let le_full = count_in(s, 0, ni, p_key_le(keyf, ki));
            assert(lt_full <= c - 1) by {
                lemma_count_split(s, 0, ii, ni, p_key_lt(keyf, ki));
                lemma_count_pred_mono(s, 0, ii, p_key_lt(keyf, ki), p_key_le(keyf, ki));
            }
            assert(c - 1 < le_full);
            assert forall|e: int, pos: int|
                #![trigger count@[e], out@[pos]]
                0 <= e < ri && count@[e] <= pos < count_in(s, 0, ni, p_key_le(keyf, e))
                    implies out@[pos] as int == mni + e by {
                if pos == c - 1 {
                    if e < ki {
                        lemma_count_pred_mono(s, 0, ni, p_key_le(keyf, e), p_key_lt(keyf, ki));
                        assert(false);
                    } else if e > ki {
                        lemma_count_pred_mono(s, 0, ii, p_key_le(keyf, ki), p_key_le(keyf, e));
                        lemma_count_pred_mono(
                            s,
                            ii + 1,
                            ni,
                            p_key_lt(keyf, ki),
                            p_key_lt(keyf, e),
                        );
                        lemma_count_split(s, ii, ii + 1, ni, p_key_lt(keyf, e));
                        assert(count_in(s, ii, ii + 1, p_key_lt(keyf, e)) >= 0);
                        assert(false);
                    } else {
                        assert(out@[pos] == x);
                        assert(x as int == mni + ki);
                    }
                } else {
                    lemma_count_bounds(s, 0, ni, p_key_le(keyf, e));
                    assert(out@[pos] == out_pre[pos]);
                    if e == ki {
                        assert(cnt_pre[e] as int == c);
                        assert(cnt_pre[e] <= pos);
                    } else {
                        assert(cnt_pre[e] == count@[e]);
                    }
                    assert(out_pre[pos] as int == mni + e);
                }
            }
        }
    }

    // the blocks now start at the counts of strictly smaller keys and
    // tile the output, which gives order and the multiset
    proof {
        assert forall|e: int| 0 <= e < ri implies #[trigger] count_in(
            s,
            0,
            ni,
            p_key_lt(keyf, e),
        ) == count@[e] as int by {}
        lemma_count_none(s, 0, ni, p_key_lt(keyf, 0));
        lemma_count_all(s, 0, ni, p_key_lt(keyf, ri));

        assert forall|a: int, b: int| 0 <= a <= b < ni implies out@[a] <= out@[b] by {
            let da = lemma_block_of_pos(s, keyf, ri, a);
            let db = lemma_block_of_pos(s, keyf, ri, b);
            lemma_count_pred_equiv(s, 0, ni, p_key_lt(keyf, da + 1), p_key_le(keyf, da));
            lemma_count_pred_equiv(s, 0, ni, p_key_lt(keyf, db + 1), p_key_le(keyf, db));
            assert(out@[a] as int == mni + da);
            assert(out@[b] as int == mni + db);
            if da > db {
                lemma_count_pred_mono(s, 0, ni, p_key_lt(keyf, db + 1), p_key_lt(keyf, da));
                assert(false);
            }
        }

        assert forall|v: i32| #[trigger] count_val(out@, 0, ni, v) == count_val(s, 0, ni, v) by {
            if mni <= v as int <= mni + ri - 1 {
                let dv = v as int - mni;
                let ltv = count_in(s, 0, ni, p_key_lt(keyf, dv));
                let lev = count_in(s, 0, ni, p_key_le(keyf, dv));
                lemma_count_pred_equiv(s, 0, ni, p_key_lt(keyf, dv + 1), p_key_le(keyf, dv));
                lemma_count_bounds(s, 0, ni, p_key_le(keyf, dv));
                lemma_count_pred_mono(s, 0, ni, p_key_lt(keyf, dv), p_key_le(keyf, dv));
                lemma_count_bounds(s, 0, ni, p_key_lt(keyf, dv));
                lemma_count_split(out@, 0, ltv, ni, p_eq(v));
                lemma_count_split(out@, ltv, lev, ni, p_eq(v));
                assert forall|k: int| 0 <= k < ltv implies !(p_eq(v)(#[trigger] out@[k])) by {
                    let dk = lemma_block_of_pos(s, keyf, ri, k);
                    if dk >= dv {
                        lemma_count_pred_mono(s, 0, ni, p_key_lt(keyf, dv), p_key_lt(keyf, dk));
                        assert(false);
                    }
                    lemma_count_pred_equiv(s, 0, ni, p_key_lt(keyf, dk + 1), p_key_le(keyf, dk));
                    assert(out@[k] as int == mni + dk);
                }
                lemma_count_none(out@, 0, ltv, p_eq(v));
                assert forall|k: int| lev <= k < ni implies !(p_eq(v)(#[trigger] out@[k])) by {
                    let dk = lemma_block_of_pos(s, keyf, ri, k);
                    if dk <= dv {
                        lemma_count_pred_mono(
                            s,
                            0,
                            ni,
                            p_key_lt(keyf, dk + 1),
                            p_key_lt(keyf, dv + 1),
                        );
                        assert(false);
                    }
                    lemma_count_pred_equiv(s, 0, ni, p_key_lt(keyf, dk + 1), p_key_le(keyf, dk));
                    assert(out@[k] as int == mni + dk);
                }
                lemma_count_none(out@, lev, ni, p_eq(v));
                assert forall|k: int| ltv <= k < lev implies p_eq(v)(#[trigger] out@[k]) by {
                    assert(out@[k] as int == mni + dv);
                }
                lemma_count_all(out@, ltv, lev, p_eq(v));
                lemma_count_union_on(
                    s,
                    0,
                    ni,
                    p_key_lt(keyf, dv),
                    p_key_eq(keyf, dv),
                    p_key_le(keyf, dv),
                );
                lemma_count_pred_equiv(s, 0, ni, p_key_eq(keyf, dv), p_eq(v));
            } else {
                assert forall|k: int| 0 <= k < ni implies !(p_eq(v)(#[trigger] s[k])) by {
                    assert(0 <= keyf(s[k]) < ri);
                }
                lemma_count_none(s, 0, ni, p_eq(v));
                assert forall|k: int| 0 <= k < ni implies !(p_eq(v)(#[trigger] out@[k])) by {
                    let dk = lemma_block_of_pos(s, keyf, ri, k);
                    lemma_count_pred_equiv(s, 0, ni, p_key_lt(keyf, dk + 1), p_key_le(keyf, dk));
                    assert(out@[k] as int == mni + dk);
                }
                lemma_count_none(out@, 0, ni, p_eq(v));
            }
        }
        lemma_equal_counts_equal_multiset(out@, s);
    }

    // copy the output back over the input
    let mut w: usize = 0;
    while w < n
        invariant
            n == arr@.len(),
            out@.len() == n,
            w <= n,
            forall|k: int| 0 <= k < w ==> arr@[k] == #[trigger] out@[k],
        decreases n - w,
    {
        arr[w] = out[w];
        w += 1;
    }
    proof {
        assert(arr@ =~= out@);
    }
}

} // verus!
