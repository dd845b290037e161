//! Counting over windows of a sequence: the spec-level machinery behind
//! the frequency and prefix-sum tables of counting sort and of the
//! digit passes of radix sort.

use vstd::prelude::*;

verus! {

/// Number of positions in the window `[lo, hi)` whose element satisfies `p`.
pub open spec fn count_in(s: Seq<i32>, lo: int, hi: int, p: spec_fn(i32) -> bool) -> int
    decreases hi - lo,
{
    if lo >= hi {
        0
    } else {
        count_in(s, lo, hi - 1, p) + if p(s[hi - 1]) {
            1int
        } else {
            0int
        }
    }
}

/// A count lies between zero and the window's width.
pub proof fn lemma_count_bounds(s: Seq<i32>, lo: int, hi: int, p: spec_fn(i32) -> bool)
    requires
        lo <= hi,
    ensures
        0 <= count_in(s, lo, hi, p) <= hi - lo,
    decreases hi - lo,
{
    if lo < hi {
        lemma_count_bounds(s, lo, hi - 1, p);
    }
}

/// Counts add over adjacent windows.
pub proof fn lemma_count_split(s: Seq<i32>, lo: int, mid: int, hi: int, p: spec_fn(i32) -> bool)
    requires
        lo <= mid <= hi,
    ensures
        count_in(s, lo, hi, p) == count_in(s, lo, mid, p) + count_in(s, mid, hi, p),
    decreases hi - mid,
{
    if mid < hi {
        lemma_count_split(s, lo, mid, hi - 1, p);
    }
}

/// A weaker predicate counts no more positions.
pub proof fn lemma_count_pred_mono(
    s: Seq<i32>,
    lo: int,
    hi: int,
    p: spec_fn(i32) -> bool,
    q: spec_fn(i32) -> bool,
)
    requires
        forall|x: i32| #[trigger] p(x) ==> q(x),
    ensures
        count_in(s, lo, hi, p) <= count_in(s, lo, hi, q),
    decreases hi - lo,
{
    if lo < hi {
        lemma_count_pred_mono(s, lo, hi - 1, p, q);
    }
}

/// Predicates that agree pointwise count the same positions.
pub proof fn lemma_count_pred_equiv(
    s: Seq<i32>,
    lo: int,
    hi: int,
    p: spec_fn(i32) -> bool,
    q: spec_fn(i32) -> bool,
)
    requires
        forall|x: i32| #[trigger] p(x) == q(x),
    ensures
        count_in(s, lo, hi, p) == count_in(s, lo, hi, q),
    decreases hi - lo,
{
    if lo < hi {
        lemma_count_pred_equiv(s, lo, hi - 1, p, q);
    }
}

/// A predicate holding of every element of the window counts its width.
pub proof fn lemma_count_all(s: Seq<i32>, lo: int, hi: int, p: spec_fn(i32) -> bool)
    requires
        lo <= hi,
        forall|k: int| lo <= k < hi ==> p(#[trigger] s[k]),
    ensures
        count_in(s, lo, hi, p) == hi - lo,
    decreases hi - lo,
{
    if lo < hi {
        lemma_count_all(s, lo, hi - 1, p);
    }
}

/// A predicate holding of no element of the window counts nothing.
pub proof fn lemma_count_none(s: Seq<i32>, lo: int, hi: int, p: spec_fn(i32) -> bool)
    requires
        forall|k: int| lo <= k < hi ==> !p(#[trigger] s[k]),
    ensures
        count_in(s, lo, hi, p) == 0,
    decreases hi - lo,
{
    if lo < hi {
        lemma_count_none(s, lo, hi - 1, p);
    }
}

/// Counts look only at the elements inside the window.
pub proof fn lemma_count_same_window(
    s: Seq<i32>,
    t: Seq<i32>,
    lo: int,
    hi: int,
    p: spec_fn(i32) -> bool,
)
    requires
        forall|k: int| lo <= k < hi ==> s[k] == #[trigger] t[k],
    ensures
        count_in(s, lo, hi, p) == count_in(t, lo, hi, p),
    decreases hi - lo,
{
    if lo < hi {
        lemma_count_same_window(s, t, lo, hi - 1, p);
    }
}

/// A window's count equals the count over the extracted window.
pub proof fn lemma_count_subrange(s: Seq<i32>, lo: int, hi: int, p: spec_fn(i32) -> bool)
    requires
        0 <= lo <= hi <= s.len(),
    ensures
        count_in(s, lo, hi, p) == count_in(s.subrange(lo, hi), 0, hi - lo, p),
    decreases hi - lo,
{
    if lo < hi {
        lemma_count_subrange(s, lo, hi - 1, p);
        lemma_count_same_window(s.subrange(lo, hi - 1), s.subrange(lo, hi), 0, hi - 1 - lo, p);
    }
}

/// The equality predicate as a named closure, so that different lemmas
/// speak of one and the same spec function.
pub open spec fn p_eq(v: i32) -> spec_fn(i32) -> bool {
    |x: i32| x == v
}

/// Number of occurrences of the value `v` in the window `[lo, hi)`.
pub open spec fn count_val(s: Seq<i32>, lo: int, hi: int, v: i32) -> int {
    count_in(s, lo, hi, p_eq(v))
}

/// The count of a value over the whole sequence is its multiset
/// multiplicity.
pub proof fn lemma_count_is_multiplicity(s: Seq<i32>, v: i32)
    ensures
        count_val(s, 0, s.len() as int, v) == s.to_multiset().count(v),
    decreases s.len(),
{
    broadcast use vstd::multiset::group_multiset_axioms;

    if s.len() == 0 {
        s.to_multiset_ensures();
        assert(!s.contains(v));
        assert(s.to_multiset().count(v) == 0);
    } else {
        let t = s.drop_last();
        let x = s[s.len() - 1];
        lemma_count_is_multiplicity(t, v);
        lemma_count_same_window(s, t, 0, s.len() - 1, p_eq(v));
        vstd::seq_lib::to_multiset_build(t, x);
        assert(t.push(x) =~= s);
        assert(s.to_multiset() == t.to_multiset().insert(x));
    }
}

/// Predicates that agree on every element of the window count the same
/// positions there.
pub proof fn lemma_count_pred_equiv_on(
    s: Seq<i32>,
    lo: int,
    hi: int,
    p: spec_fn(i32) -> bool,
    q: spec_fn(i32) -> bool,
)
    requires
        forall|k: int| lo <= k < hi ==> p(#[trigger] s[k]) == q(s[k]),
    ensures
        count_in(s, lo, hi, p) == count_in(s, lo, hi, q),
    decreases hi - lo,
{
    if lo < hi {
        lemma_count_pred_equiv_on(s, lo, hi - 1, p, q);
    }
}

/// On a window where `r` holds exactly when one of the disjoint `p` and
/// `q` holds, the count under `r` is the sum of the counts under each.
pub proof fn lemma_count_union_on(
    s: Seq<i32>,
    lo: int,
    hi: int,
    p: spec_fn(i32) -> bool,
    q: spec_fn(i32) -> bool,
    r: spec_fn(i32) -> bool,
)
    requires
        forall|k: int|
            lo <= k < hi ==> (r(#[trigger] s[k]) == (p(s[k]) || q(s[k])) && !(p(s[k]) && q(s[k]))),
    ensures
        count_in(s, lo, hi, r) == count_in(s, lo, hi, p) + count_in(s, lo, hi, q),
    decreases hi - lo,
{
    if lo < hi {
        lemma_count_union_on(s, lo, hi - 1, p, q, r);
    }
}

/// The elements whose key is below `d`, as one and the same closure for
/// every lemma.
pub open spec fn p_key_lt(keyf: spec_fn(i32) -> int, d: int) -> spec_fn(i32) -> bool {
    |x: i32| keyf(x) < d
}

/// The elements whose key is at most `d`.
pub open spec fn p_key_le(keyf: spec_fn(i32) -> int, d: int) -> spec_fn(i32) -> bool {
    |x: i32| keyf(x) <= d
}

/// The elements whose key is exactly `d`.
pub open spec fn p_key_eq(keyf: spec_fn(i32) -> int, d: int) -> spec_fn(i32) -> bool {
    |x: i32| keyf(x) == d
}

/// Every position below the count of keys under `range` falls in the
/// half-open block of exactly one key value `d`: the block between the
/// count of keys below `d` and the count of keys below `d + 1`.
pub proof fn lemma_block_of_pos(
    s: Seq<i32>,
    keyf: spec_fn(i32) -> int,
    range: int,
    pos: int,
) -> (d: int)
    requires
        range >= 1,
        count_in(s, 0, s.len() as int, p_key_lt(keyf, 0)) <= pos,
        pos < count_in(s, 0, s.len() as int, p_key_lt(keyf, range)),
    ensures
        0 <= d < range,
        count_in(s, 0, s.len() as int, p_key_lt(keyf, d)) <= pos,
        pos < count_in(s, 0, s.len() as int, p_key_lt(keyf, d + 1)),
    decreases range,
{
    let n = s.len() as int;
    if pos >= count_in(s, 0, n, p_key_lt(keyf, range - 1)) {
        range - 1
    } else {
        lemma_block_of_pos(s, keyf, range - 1, pos)
    }
}

/// The conjunction of two predicates as a named closure.
pub open spec fn p_and(p: spec_fn(i32) -> bool, q: spec_fn(i32) -> bool) -> spec_fn(i32) -> bool {
    |x: i32| p(x) && q(x)
}

/// Counting `p` over the elements kept by `q` counts the conjunction
/// over the original sequence.
pub proof fn lemma_count_filter(s: Seq<i32>, q: spec_fn(i32) -> bool, p: spec_fn(i32) -> bool)
    ensures
        count_in(s.filter(q), 0, s.filter(q).len() as int, p) == count_in(
            s,
            0,
            s.len() as int,
            p_and(p, q),
        ),
    decreases s.len(),
{
    reveal(Seq::filter);
    if s.len() == 0 {
    } else {
        let dl = s.drop_last();
        let x = s.last();
        let f = s.filter(q);
        let fdl = dl.filter(q);
        lemma_count_filter(dl, q, p);
        lemma_count_same_window(s, dl, 0, s.len() - 1, p_and(p, q));
        if q(x) {
            assert(f == fdl.push(x));
            lemma_count_same_window(f, fdl, 0, fdl.len() as int, p);
            assert(count_in(f, 0, f.len() as int, p) == count_in(f, 0, f.len() - 1, p) + if p(
                f[f.len() - 1],
            ) {
                1int
            } else {
                0int
            });
        } else {
            assert(f == fdl);
        }
    }
}

/// Sequences in which every value occurs equally often hold the same
/// multiset.
pub proof fn lemma_equal_counts_equal_multiset(x: Seq<i32>, y: Seq<i32>)
    requires
        forall|v: i32| #[trigger] count_val(x, 0, x.len() as int, v) == count_val(
            y,
            0,
            y.len() as int,
            v,
        ),
    ensures
        x.to_multiset() == y.to_multiset(),
{
    assert forall|v: i32| x.to_multiset().count(v) == y.to_multiset().count(v) by {
        lemma_count_is_multiplicity(x, v);
        lemma_count_is_multiplicity(y, v);
    }
    assert(x.to_multiset() =~= y.to_multiset());
}

} // verus!
