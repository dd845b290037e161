//! LSD radix sort, base 10: one stable counting-sort pass per digit
//! position, from the least significant upward. Digit extraction by
//! division and modulo assumes non-negative values; on an all-negative
//! input the digit loop never runs and the input comes back unchanged,
//! and a mixed-sign input is outside the algorithm's domain.

use vstd::prelude::*;
use crate::order::sorted;
use crate::order::lemma_perm_preserves_bounds;
use crate::counts::count_in;
use crate::counts::count_val;
use crate::counts::p_eq;
use crate::counts::p_and;
use crate::counts::p_key_lt;
use crate::counts::p_key_le;
use crate::counts::p_key_eq;
use crate::counts::lemma_count_bounds;
use crate::counts::lemma_count_split;
use crate::counts::lemma_count_pred_mono;
use crate::counts::lemma_count_pred_equiv;
use crate::counts::lemma_count_pred_equiv_on;
use crate::counts::lemma_count_all;
use crate::counts::lemma_count_none;
use crate::counts::lemma_count_subrange;
use crate::counts::lemma_count_filter;
use crate::counts::lemma_block_of_pos;
use crate::counts::lemma_equal_counts_equal_multiset;
use crate::counting_sort::zero_counters;
use crate::counting_sort::zero_elems;

verus! {

/// The key of one radix pass: the base-10 digit at place value `exp`.
pub open spec fn key_digit(exp: int) -> spec_fn(i32) -> int {
    |x: i32| ((x as int) / exp) % 10
}

/// Every element of the sequence is non-negative.
pub open spec fn all_non_negative(s: Seq<i32>) -> bool {
    forall|k: int| 0 <= k < s.len() ==> #[trigger] s[k] >= 0
}

/// Every element of the sequence is negative.
pub open spec fn all_negative(s: Seq<i32>) -> bool {
    forall|k: int| 0 <= k < s.len() ==> #[trigger] s[k] < 0
}

/// The sequence is sorted when compared by remainders modulo `m`.
pub open spec fn sorted_below(s: Seq<i32>, m: int) -> bool {
    forall|i: int, j: int|
        0 <= i <= j < s.len() ==> #[trigger] ((s[i] as int) % m) <= #[trigger] ((s[j] as int) % m)
}

/// Every element kept by a filter occurs in the sequence.
proof fn lemma_filter_membership(s: Seq<i32>, pred: spec_fn(i32) -> bool)
    ensures
        forall|i: int|
            0 <= i < s.filter(pred).len() ==> s.contains(#[trigger] s.filter(pred)[i]),
    decreases s.len(),
{
    reveal(Seq::filter);
    if s.len() != 0 {
        let dl = s.drop_last();
        lemma_filter_membership(dl, pred);
        assert forall|i: int|
            0 <= i < s.filter(pred).len() implies s.contains(#[trigger] s.filter(pred)[i]) by {
            if pred(s.last()) && i == s.filter(pred).len() - 1 {
                assert(s[s.len() - 1] == s.filter(pred)[i]);
            } else {
                assert(s.filter(pred)[i] == dl.filter(pred)[i]);
                assert(dl.contains(dl.filter(pred)[i]));
                let j = choose|j: int| 0 <= j < dl.len() && dl[j] == dl.filter(pred)[i];
                assert(s[j] == s.filter(pred)[i]);
            }
        }
    }
}

/// Filtering keeps the order of what it keeps: a sequence sorted by
/// remainders modulo `m` stays so after a filter.
proof fn lemma_filter_sorted_below(s: Seq<i32>, pred: spec_fn(i32) -> bool, m: int)
    requires
        sorted_below(s, m),
    ensures
        sorted_below(s.filter(pred), m),
    decreases s.len(),
{
    reveal(Seq::filter);
    if s.len() != 0 {
        let dl = s.drop_last();
        assert(sorted_below(dl, m));
        lemma_filter_sorted_below(dl, pred, m);
        lemma_filter_membership(dl, pred);
        let f = s.filter(pred);
        assert forall|i: int, j: int|
            0 <= i <= j < f.len() implies #[trigger] ((f[i] as int) % m) <= #[trigger] ((
        f[j] as int) % m) by {
            if pred(s.last()) && j == f.len() - 1 {
                if i < j {
                    assert(f[i] == dl.filter(pred)[i]);
                    assert(dl.contains(f[i]));
                    let w = choose|w: int| 0 <= w < dl.len() && dl[w] == f[i];
                    assert((s[w] as int) % m <= (s[s.len() - 1] as int) % m);
                }
            } else {
                assert(f[i] == dl.filter(pred)[i]);
                assert(f[j] == dl.filter(pred)[j]);
            }
        }
    }
}

/// One stable counting-sort pass on the digit at place value `exp`:
/// the output is, block by rising digit value, the input's elements
/// carrying that digit, in their input order. That shape is the pass's
/// stability, and the blocks are delimited by the counts of smaller
/// digits.
#[verifier::loop_isolation(false)]
pub fn counting_sort_for_radix(arr: &mut Vec<i32>, exp: u64)
    requires
        exp >= 1,
        all_non_negative(old(arr)@),
    ensures
        final(arr)@.len() == old(arr)@.len(),
        final(arr)@.to_multiset() == old(arr)@.to_multiset(),
        forall|e: int|
            0 <= e < 10 ==> final(arr)@.subrange(
                count_in(
                    old(arr)@,
                    0,
                    old(arr)@.len() as int,
                    p_key_lt(key_digit(exp as int), e),
                ),
                count_in(
                    old(arr)@,
                    0,
                    old(arr)@.len() as int,
                    p_key_lt(key_digit(exp as int), e + 1),
                ),
            ) == old(arr)@.filter(p_key_eq(key_digit(exp as int), e)),
{
    broadcast use vstd::arithmetic::div_mod::lemma_mod_bound;

    let n = arr.len();
    let ghost ni = n as int;
    let ghost s = arr@;
    let ghost expi = exp as int;
    let ghost keyf = key_digit(expi);

    proof {
        assert forall|k: int| 0 <= k < ni implies 0 <= #[trigger] keyf(s[k]) < 10 by {
            assert(0 <= ((s[k] as int) / expi) % 10 < 10);
        }
    }
    if n == 0 {
        proof {
            reveal(Seq::filter);
            assert forall|e: int| 0 <= e < 10 implies arr@.subrange(
                count_in(s, 0, ni, p_key_lt(keyf, e)),
                count_in(s, 0, ni, p_key_lt(keyf, e + 1)),
            ) == s.filter(p_key_eq(keyf, e)) by {
                assert(arr@.subrange(0, 0) =~= s.filter(p_key_eq(keyf, e)));
            }
        }
        return;
    }

    // frequency table over the ten digits
    let mut count = zero_counters(10);
    let mut idx: usize = 0;
    while idx < n
        invariant
            count@.len() == 10,
            idx <= n,
            arr@ == s,
            forall|e: int|
                0 <= e < 10 ==> #[trigger] count@[e] as int == count_in(
                    s,
                    0,
                    idx as int,
                    p_key_eq(keyf, e),
                ),
        decreases n - idx,
    {
        let x = arr[idx];
        let key = (((x as u64) / exp) % 10) as usize;
        proof {
            assert(s[idx as int] >= 0);
            assert(keyf(s[idx as int]) == key as int);
            lemma_count_bounds(s, 0, idx as int, p_key_eq(keyf, key as int));
        }
        let c = count[key];
        count[key] = c + 1;
        proof {
            assert forall|e: int| 0 <= e < 10 implies #[trigger] count@[e] as int == count_in(
                s,
                0,
                idx as int + 1,
                p_key_eq(keyf, e),
            ) by {
                assert(count_in(s, 0, idx as int + 1, p_key_eq(keyf, e)) == count_in(
                    s,
                    0,
                    idx as int,
                    p_key_eq(keyf, e),
                ) + if p_key_eq(keyf, e)(s[idx as int]) {
                    1int
                } else {
                    0int
                });
            }
        }
        idx += 1;
    }

    // prefix-sum table
    proof {
        lemma_count_pred_equiv_on(s, 0, ni, p_key_eq(keyf, 0), p_key_le(keyf, 0));
    }
    let mut d: usize = 1;
    while d < 10
        invariant
            1 <= d <= 10,
            count@.len() == 10,
            arr@ == s,
            forall|e: int|
                0 <= e < d ==> #[trigger] count@[e] as int == count_in(
                    s,
                    0,
                    ni,
                    p_key_le(keyf, e),
                ),
            forall|e: int|
                d <= e < 10 ==> #[trigger] count@[e] as int == count_in(
                    s,
                    0,
                    ni,
                    p_key_eq(keyf, e),
                ),
        decreases 10 - d,
    {
        let a = count[d - 1];
        let b = count[d];
        proof {
            let di = d as int;
            crate::counts::lemma_count_union_on(
                s,
                0,
                ni,
                p_key_lt(keyf, di),
                p_key_eq(keyf, di),
                p_key_le(keyf, di),
            );
            lemma_count_pred_equiv(s, 0, ni, p_key_le(keyf, di - 1), p_key_lt(keyf, di));
            lemma_count_bounds(s, 0, ni, p_key_le(keyf, di));
        }
        count[d] = a + b;
        d += 1;
    }

    // placement, scanning the input in reverse for stability
    let mut out = zero_elems(n);
    let mut i: usize = n;
    proof {
        assert forall|e: int| 0 <= e < 10 implies #[trigger] count@[e] as int == count_in(
            s,
            0,
            i as int,
            p_key_le(keyf, e),
        ) + count_in(s, i as int, ni, p_key_lt(keyf, e)) by {}
        assert forall|e: int| 0 <= e < 10 implies out@.subrange(
            count@[e] as int,
            count_in(s, 0, ni, p_key_le(keyf, e)),
        ) =~= s.subrange(i as int, ni).filter(p_key_eq(keyf, e)) by {
            reveal(Seq::filter);
            lemma_count_bounds(s, 0, ni, p_key_le(keyf, e));
        }
    }
    while i > 0
        invariant
            i <= n,
            arr@ == s,
            out@.len() == n,
            count@.len() == 10,
            forall|e: int|
                0 <= e < 10 ==> #[trigger] count@[e] as int == count_in(
                    s,
                    0,
                    i as int,
                    p_key_le(keyf, e),
                ) + count_in(s, i as int, ni, p_key_lt(keyf, e)),
            forall|e: int|
                0 <= e < 10 ==> out@.subrange(
                    #[trigger] count@[e] as int,
                    count_in(s, 0, ni, p_key_le(keyf, e)),
                ) == s.subrange(i as int, ni).filter(p_key_eq(keyf, e)),
        decreases i,
    {
        i -= 1;
        let x = arr[i];
        let key = (((x as u64) / exp) % 10) as usize;
        let ghost ki = key as int;
        let ghost ii = i as int;
        proof {
            assert(s[ii] >= 0);
            assert(keyf(s[ii]) == ki);
            assert(count_in(s, ii, ii, p_key_le(keyf, ki)) == 0);
            assert(count_in(s, ii, ii, p_key_lt(keyf, ki)) == 0);
            lemma_count_split(s, ii, ii + 1, ni, p_key_le(keyf, ki));
            lemma_count_split(s, ii, ii + 1, ni, p_key_lt(keyf, ki));
            lemma_count_split(s, 0, ii + 1, ni, p_key_le(keyf, ki));
            lemma_count_bounds(s, 0, ii, p_key_le(keyf, ki));
            lemma_count_bounds(s, ii + 1, ni, p_key_lt(keyf, ki));
            lemma_count_pred_mono(s, ii + 1, ni, p_key_lt(keyf, ki), p_key_le(keyf, ki));
            assert(count_in(s, ii, ii + 1, p_key_le(keyf, ki)) == 1);
            assert(count_in(s, ii, ii + 1, p_key_lt(keyf, ki)) == 0);
        }
        let c = count[key];
        let ghost cnt_pre = count@;
        let ghost out_pre = out@;
        out[c - 1] = x;
        count[key] = c - 1;
        proof {
            assert forall|e: int| 0 <= e < 10 implies #[trigger] count@[e] as int == count_in(
                s,
                0,
                ii,
                p_key_le(keyf, e),
            ) + count_in(s, ii, ni, p_key_lt(keyf, e)) by {
                lemma_count_split(s, ii, ii + 1, ni, p_key_lt(keyf, e));
                assert(count_in(s, ii, ii, p_key_lt(keyf, e)) == 0);
                assert(count_in(s, 0, ii + 1, p_key_le(keyf, e)) == count_in(
                    s,
                    0,
                    ii,
                    p_key_le(keyf, e),
                ) + if p_key_le(keyf, e)(s[ii]) {
                    1int
                } else {
                    0int
                });
                assert(count_in(s, ii, ii + 1, p_key_lt(keyf, e)) == if p_key_lt(keyf, e)(
                    s[ii],
                ) {
                    1int
                } else {
                    0int
                });
            }
            let lt_full = count_in(s, 0, ni, p_key_lt(keyf, ki));
            assert(lt_full <= c - 1) by {
                lemma_count_split(s, 0, ii, ni, p_key_lt(keyf, ki));
                lemma_count_pred_mono(s, 0, ii, p_key_lt(keyf, ki), p_key_le(keyf, ki));
            }
            assert(c - 1 < count_in(s, 0, ni, p_key_le(keyf, ki)));
            assert forall|e: int| 0 <= e < 10 implies out@.subrange(
                #[trigger] count@[e] as int,
                count_in(s, 0, ni, p_key_le(keyf, e)),
            ) == s.subrange(ii, ni).filter(p_key_eq(keyf, e)) by {
                lemma_count_bounds(s, 0, ni, p_key_le(keyf, e));
                assert(s.subrange(ii, ni) =~= seq![s[ii]] + s.subrange(ii + 1, ni));
                Seq::<i32>::filter_distributes_over_add(
                    seq![s[ii]],
                    s.subrange(ii + 1, ni),
                    p_key_eq(keyf, e),
                );
                reveal(Seq::filter);
                assert(seq![s[ii]].drop_last() =~= Seq::<i32>::empty());
                if e == ki {
                    assert(seq![s[ii]].filter(p_key_eq(keyf, e)) =~= seq![s[ii]]);
                    assert(out@.subrange(c - 1, count_in(s, 0, ni, p_key_le(keyf, ki))) =~= seq![
                        s[ii],
                    ] + out_pre.subrange(c as int, count_in(s, 0, ni, p_key_le(keyf, ki))));
                } else {
                    assert(Seq::<i32>::empty().filter(p_key_eq(keyf, e)) == Seq::<i32>::empty());
                    assert(seq![s[ii]].filter(p_key_eq(keyf, e)) =~= Seq::<i32>::empty());
                    assert(seq![s[ii]].filter(p_key_eq(keyf, e)) + s.subrange(ii + 1, ni).filter(
                        p_key_eq(keyf, e),
                    ) =~= s.subrange(ii + 1, ni).filter(p_key_eq(keyf, e)));
                    lemma_count_split(s, 0, ii, ni, p_key_le(keyf, e));
                    lemma_count_pred_mono(s, ii, ni, p_key_lt(keyf, e), p_key_le(keyf, e));
                    assert(count@[e] as int <= count_in(s, 0, ni, p_key_le(keyf, e)));
                    if e < ki {
                        lemma_count_pred_mono(s, 0, ni, p_key_le(keyf, e), p_key_lt(keyf, ki));
                        assert(out@.subrange(
                            count@[e] as int,
                            count_in(s, 0, ni, p_key_le(keyf, e)),
                        ) =~= out_pre.subrange(
                            count@[e] as int,
                            count_in(s, 0, ni, p_key_le(keyf, e)),
                        ));
                    } else {
                        lemma_count_pred_mono(s, 0, ii, p_key_le(keyf, ki), p_key_le(keyf, e));
                        lemma_count_pred_mono(
                            s,
                            ii + 1,
                            ni,
                            p_key_lt(keyf, ki),
                            p_key_lt(keyf, e),
                        );
                        lemma_count_split(s, ii, ii + 1, ni, p_key_lt(keyf, e));
                        assert(count_in(s, ii, ii, p_key_lt(keyf, e)) == 0);
                        assert(count@[e] as int >= c);
                        assert(out@.subrange(
                            count@[e] as int,
                            count_in(s, 0, ni, p_key_le(keyf, e)),
                        ) =~= out_pre.subrange(
                            count@[e] as int,
                            count_in(s, 0, ni, p_key_le(keyf, e)),
                        ));
                    }
                }
            }
        }
    }

    // the blocks now start at the counts of strictly smaller digits;
    // value counts match block by block, giving the multiset
    proof {
        assert forall|e: int| 0 <= e < 10 implies out@.subrange(
            count_in(s, 0, ni, p_key_lt(keyf, e)),
            count_in(s, 0, ni, p_key_lt(keyf, e + 1)),
        ) == s.filter(p_key_eq(keyf, e)) by {
            lemma_count_pred_equiv(s, 0, ni, p_key_lt(keyf, e + 1), p_key_le(keyf, e));
            assert(count@[e] as int == count_in(s, 0, ni, p_key_lt(keyf, e)));
            assert(s.subrange(0, ni) =~= s);
        }
        lemma_count_none(s, 0, ni, p_key_lt(keyf, 0));
        lemma_count_all(s, 0, ni, p_key_lt(keyf, 10));

        assert forall|v: i32| #[trigger] count_val(out@, 0, ni, v) == count_val(s, 0, ni, v) by {
            let dv = keyf(v);
            assert(0 <= dv < 10);
            let ltv = count_in(s, 0, ni, p_key_lt(keyf, dv));
            let lev = count_in(s, 0, ni, p_key_lt(keyf, dv + 1));
            lemma_count_pred_equiv(s, 0, ni, p_key_lt(keyf, dv + 1), p_key_le(keyf, dv));
            lemma_count_bounds(s, 0, ni, p_key_le(keyf, dv));
            lemma_count_pred_mono(s, 0, ni, p_key_lt(keyf, dv), p_key_le(keyf, dv));
            lemma_count_bounds(s, 0, ni, p_key_lt(keyf, dv));
            lemma_count_split(out@, 0, ltv, ni, p_eq(v));
            lemma_count_split(out@, ltv, lev, ni, p_eq(v));
            assert forall|k: int| 0 <= k < ltv implies !(p_eq(v)(#[trigger] out@[k])) by {
                let dk = lemma_block_of_pos(s, keyf, 10, k);
                if dk >= dv {
                    lemma_count_pred_mono(s, 0, ni, p_key_lt(keyf, dv), p_key_lt(keyf, dk));
                    assert(false);
                }
                let blk = s.filter(p_key_eq(keyf, dk));
                lemma_count_pred_equiv(s, 0, ni, p_key_lt(keyf, dk + 1), p_key_le(keyf, dk));
                lemma_count_bounds(s, 0, ni, p_key_lt(keyf, dk));
                lemma_count_bounds(s, 0, ni, p_key_lt(keyf, dk + 1));
                lemma_count_pred_mono(s, 0, ni, p_key_lt(keyf, dk), p_key_lt(keyf, dk + 1));
                let base = count_in(s, 0, ni, p_key_lt(keyf, dk));
                assert(out@.subrange(base, count_in(s, 0, ni, p_key_lt(keyf, dk + 1)))[k - base]
                    == out@[k]);
                assert(out@[k] == blk[k - count_in(s, 0, ni, p_key_lt(keyf, dk))]);
                Seq::<i32>::lemma_filter_pred(s, p_key_eq(keyf, dk), k - count_in(
                    s,
                    0,
                    ni,
                    p_key_lt(keyf, dk),
                ));
                assert(keyf(out@[k]) == dk);
            }
            lemma_count_none(out@, 0, ltv, p_eq(v));
            assert forall|k: int| lev <= k < ni implies !(p_eq(v)(#[trigger] out@[k])) by {
                let dk = lemma_block_of_pos(s, keyf, 10, k);
                if dk <= dv {
                    lemma_count_pred_mono(s, 0, ni, p_key_lt(keyf, dk + 1), p_key_lt(keyf, dv + 1));
                    assert(false);
                }
                let blk = s.filter(p_key_eq(keyf, dk));
                lemma_count_pred_equiv(s, 0, ni, p_key_lt(keyf, dk + 1), p_key_le(keyf, dk));
                lemma_count_bounds(s, 0, ni, p_key_lt(keyf, dk));
                lemma_count_bounds(s, 0, ni, p_key_lt(keyf, dk + 1));
                lemma_count_pred_mono(s, 0, ni, p_key_lt(keyf, dk), p_key_lt(keyf, dk + 1));
                let base = count_in(s, 0, ni, p_key_lt(keyf, dk));
                assert(out@.subrange(base, count_in(s, 0, ni, p_key_lt(keyf, dk + 1)))[k - base]
                    == out@[k]);
                assert(out@[k] == blk[k - count_in(s, 0, ni, p_key_lt(keyf, dk))]);
                Seq::<i32>::lemma_filter_pred(s, p_key_eq(keyf, dk), k - count_in(
                    s,
                    0,
                    ni,
                    p_key_lt(keyf, dk),
                ));
                assert(keyf(out@[k]) == dk);
            }
            lemma_count_none(out@, lev, ni, p_eq(v));
            lemma_count_subrange(out@, ltv, lev, p_eq(v));
            lemma_count_filter(s, p_key_eq(keyf, dv), p_eq(v));
            lemma_count_pred_equiv(s, 0, ni, p_and(p_eq(v), p_key_eq(keyf, dv)), p_eq(v));
        }
        lemma_equal_counts_equal_multiset(out@, s);
    }

    // copy the output back over the input
    let mut w: usize = 0;
    while w < n
        invariant
            n == arr@.len(),
            out@.len() == n,
            w <= n,
            forall|k: int| 0 <= k < w ==> arr@[k] == #[trigger] out@[k],
        decreases n - w,
    {
        arr[w] = out[w];
        w += 1;
    }
    proof {
        assert(arr@ =~= out@);
    }
}

/// A stable pass on the digit at place `exp` turns a sequence sorted
/// by remainders modulo `exp` into one sorted by remainders modulo
/// `10 * exp`: within a digit block the pass kept the old order, and
/// between blocks the new digit decides.
proof fn lemma_pass_extends_order(s: Seq<i32>, t: Seq<i32>, exp: int)
    requires
        exp >= 1,
        s.len() == t.len(),
        all_non_negative(s),
        all_non_negative(t),
        sorted_below(s, exp),
        forall|e: int|
            0 <= e < 10 ==> t.subrange(
                count_in(s, 0, s.len() as int, p_key_lt(key_digit(exp), e)),
                count_in(s, 0, s.len() as int, p_key_lt(key_digit(exp), e + 1)),
            ) == s.filter(p_key_eq(key_digit(exp), e)),
    ensures
        sorted_below(t, exp * 10),
{
    broadcast use vstd::arithmetic::div_mod::lemma_mod_bound;

    let ni = s.len() as int;
    let keyf = key_digit(exp);
    assert forall|k: int| 0 <= k < ni implies 0 <= #[trigger] keyf(s[k]) < 10 by {
        assert(0 <= ((s[k] as int) / exp) % 10 < 10);
    }
    lemma_count_none(s, 0, ni, p_key_lt(keyf, 0));
    lemma_count_all(s, 0, ni, p_key_lt(keyf, 10));
    assert forall|a: int, b: int|
        0 <= a <= b < ni implies #[trigger] ((t[a] as int) % (exp * 10)) <= #[trigger] ((
    t[b] as int) % (exp * 10)) by {
        let da = lemma_block_of_pos(s, keyf, 10, a);
        let db = lemma_block_of_pos(s, keyf, 10, b);
        let basea = count_in(s, 0, ni, p_key_lt(keyf, da));
        let baseb = count_in(s, 0, ni, p_key_lt(keyf, db));
        lemma_count_bounds(s, 0, ni, p_key_lt(keyf, da));
        lemma_count_bounds(s, 0, ni, p_key_lt(keyf, da + 1));
        lemma_count_pred_mono(s, 0, ni, p_key_lt(keyf, da), p_key_lt(keyf, da + 1));
        lemma_count_bounds(s, 0, ni, p_key_lt(keyf, db));
        lemma_count_bounds(s, 0, ni, p_key_lt(keyf, db + 1));
        lemma_count_pred_mono(s, 0, ni, p_key_lt(keyf, db), p_key_lt(keyf, db + 1));
        let blka = s.filter(p_key_eq(keyf, da));
        let blkb = s.filter(p_key_eq(keyf, db));
        assert(t.subrange(basea, count_in(s, 0, ni, p_key_lt(keyf, da + 1)))[a - basea]
            == t[a]);
        assert(t.subrange(baseb, count_in(s, 0, ni, p_key_lt(keyf, db + 1)))[b - baseb]
            == t[b]);
        assert(t[a] == blka[a - basea]);
        assert(t[b] == blkb[b - baseb]);
        Seq::<i32>::lemma_filter_pred(s, p_key_eq(keyf, da), a - basea);
        Seq::<i32>::lemma_filter_pred(s, p_key_eq(keyf, db), b - baseb);
        assert(keyf(t[a]) == da);
        assert(keyf(t[b]) == db);
        vstd::arithmetic::div_mod::lemma_mod_breakdown(t[a] as int, exp, 10);
        vstd::arithmetic::div_mod::lemma_mod_breakdown(t[b] as int, exp, 10);
        assert((t[a] as int) % (exp * 10) == exp * da + (t[a] as int) % exp);
        assert((t[b] as int) % (exp * 10) == exp * db + (t[b] as int) % exp);
        if da > db {
            lemma_count_pred_mono(s, 0, ni, p_key_lt(keyf, db + 1), p_key_lt(keyf, da));
            assert(false);
        }
        if da < db {
            assert(exp * da + exp <= exp * db) by (nonlinear_arith)
                requires
                    da < db,
                    exp >= 1,
            ;
            assert((t[a] as int) % exp < exp);
            assert((t[b] as int) % exp >= 0);
        } else {
            lemma_filter_sorted_below(s, p_key_eq(keyf, da), exp);
            assert((blka[a - basea] as int) % exp <= (blka[b - basea] as int) % exp);
        }
    }
}

/// LSD radix sort, base 10. On a non-negative input the result is a
/// non-decreasing permutation of the input. On an all-negative input
/// no digit pass runs, so the input comes back unchanged and in
/// general not sorted: that behaviour is part of the contract, not a
/// defect to correct here. A mixed-sign input is outside the
/// algorithm's domain.
#[verifier::loop_isolation(false)]
pub fn radix_sort(arr: &mut Vec<i32>)
    requires
        all_non_negative(old(arr)@) || all_negative(old(arr)@),
    ensures
        final(arr)@.len() == old(arr)@.len(),
        final(arr)@.to_multiset() == old(arr)@.to_multiset(),
        all_non_negative(old(arr)@) ==> sorted(final(arr)@),
        all_negative(old(arr)@) ==> final(arr)@ == old(arr)@,
{
    let n = arr.len();
    if n == 0 {
        return;
    }

    // find the maximum value
    let mut mx = arr[0];
    let mut t: usize = 1;
    while t < n
        invariant
            1 <= t <= n,
            n == arr.len(),
            arr@ == old(arr)@,
            forall|k: int| 0 <= k < t ==> #[trigger] arr@[k] <= mx,
            exists|k: int| 0 <= k < t && arr@[k] == mx,
        decreases n - t,
    {
        if arr[t] > mx {
            mx = arr[t];
        }
        t += 1;
    }
    if mx < 0 {
        return;
    }
    proof {
        let kw = choose|k: int| 0 <= k < n && arr@[k] == mx;
        assert(!all_negative(arr@));
        assert(all_non_negative(arr@));
    }

    let ghost orig = arr@;
    let mxu = mx as u64;
    let mut exp: u64 = 1;
    proof {
        assert(sorted_below(arr@, 1int)) by {
            assert forall|i: int, j: int| 0 <= i <= j < n implies ((arr@[i] as int) % 1int) <= ((
            arr@[j] as int) % 1int) by {
                vstd::arithmetic::div_mod::lemma_mod_bound(arr@[i] as int, 1int);
                vstd::arithmetic::div_mod::lemma_mod_bound(arr@[j] as int, 1int);
            }
        }
    }
    while mxu / exp > 0
        invariant
            arr@.len() == n,
            exp >= 1,
            all_non_negative(arr@),
            arr@.to_multiset() == orig.to_multiset(),
            forall|k: int| 0 <= k < n ==> #[trigger] arr@[k] <= mx,
            sorted_below(arr@, exp as int),
        decreases mxu / exp,
    {
        let ghost before = arr@;
        counting_sort_for_radix(arr, exp);
        proof {
            lemma_perm_preserves_bounds(before, arr@, 0, mx as int);
            lemma_pass_extends_order(before, arr@, exp as int);
        }
        proof {
            if exp > mxu {
                vstd::arithmetic::div_mod::lemma_basic_div(mxu as int, exp as int);
            }
            assert(exp <= mxu);
            vstd::arithmetic::div_mod::lemma_div_denominator(mxu as int, exp as int, 10);
            vstd::arithmetic::div_mod::lemma_div_decreases(mxu as int / exp as int, 10);
        }
        exp = exp * 10;
    }
    proof {
        assert((mx as int) < (exp as int)) by {
            vstd::arithmetic::div_mod::lemma_small_div_converse(mxu as int, exp as int);
        }
        assert forall|i: int, j: int| 0 <= i <= j < n implies arr@[i] <= arr@[j] by {
            vstd::arithmetic::div_mod::lemma_small_mod(arr@[i] as nat, exp as nat);
            vstd::arithmetic::div_mod::lemma_small_mod(arr@[j] as nat, exp as nat);
            assert((arr@[i] as int) % (exp as int) <= (arr@[j] as int) % (exp as int));
        }
    }
}

} // verus!
