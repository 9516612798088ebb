//! Counting over index lists: how many listed keys are down, and sums of
//! per-group values over the active groups.
use vstd::prelude::*;

verus! {

/// The number of entries of `s` that `d` holds.
pub open spec fn count_in(s: Seq<usize>, d: Set<usize>) -> nat
    decreases s.len(),
{
    if s.len() == 0 {
        0
    } else {
        count_in(s.drop_last(), d) + (if d.contains(s.last()) { 1nat } else { 0nat })
    }
}

/// The sum of `vals[i]` over the positions `i` where `live[i]` holds.
pub open spec fn sum_where(live: Seq<bool>, vals: Seq<int>) -> int
    decreases live.len(),
{
    if live.len() == 0 {
        0
    } else {
        let n = (live.len() - 1) as int;
        sum_where(live.drop_last(), vals) + (if live[n] { vals[n] } else { 0 })
    }
}

pub proof fn lemma_count_le(s: Seq<usize>, d: Set<usize>)
    ensures
        count_in(s, d) <= s.len(),
    decreases s.len(),
{
    if s.len() > 0 {
        lemma_count_le(s.drop_last(), d);
    }
}

/// The count reaches the length exactly when every entry is held.
pub proof fn lemma_count_full(s: Seq<usize>, d: Set<usize>)
    ensures
        count_in(s, d) == s.len() <==> (forall|i: int| 0 <= i < s.len() ==> d.contains(#[trigger] s[i])),
    decreases s.len(),
{
    if s.len() > 0 {
        lemma_count_full(s.drop_last(), d);
        lemma_count_le(s.drop_last(), d);
        if count_in(s, d) == s.len() {
            assert forall|i: int| 0 <= i < s.len() implies d.contains(#[trigger] s[i]) by {
                if i < s.len() - 1 {
                    assert(s.drop_last()[i] == s[i]);
                }
            }
        }
        if forall|i: int| 0 <= i < s.len() ==> d.contains(#[trigger] s[i]) {
            assert forall|i: int| 0 <= i < s.drop_last().len() implies d.contains(
                #[trigger] s.drop_last()[i],
            ) by {
                assert(s.drop_last()[i] == s[i]);
            }
            assert(d.contains(s[s.len() - 1]));
        }
    }
}

/// Adding a key that was not held raises the count by one where the key is listed once.
pub proof fn lemma_count_insert(s: Seq<usize>, d: Set<usize>, k: usize)
    requires
        s.no_duplicates(),
        !d.contains(k),
    ensures
        count_in(s, d.insert(k)) == count_in(s, d) + (if s.contains(k) { 1int } else { 0int }),
    decreases s.len(),
{
    if s.len() > 0 {
        let t = s.drop_last();
        assert(t.no_duplicates()) by {
            assert forall|i: int, j: int| 0 <= i < j < t.len() implies t[i] != t[j] by {
                assert(t[i] == s[i] && t[j] == s[j]);
            }
        }
        lemma_count_insert(t, d, k);
        if s.last() == k {
            assert(!t.contains(k)) by {
                if t.contains(k) {
                    let i = choose|i: int| 0 <= i < t.len() && t[i] == k;
                    assert(s[i] == s[s.len() - 1]);
                }
            }
        } else {
            assert(s.contains(k) == t.contains(k)) by {
                if s.contains(k) {
                    let i = choose|i: int| 0 <= i < s.len() && s[i] == k;
                    assert(t[i] == k);
                }
                if t.contains(k) {
                    let i = choose|i: int| 0 <= i < t.len() && t[i] == k;
                    assert(s[i] == k);
                }
            }
        }
    }
}

/// Removing a held key lowers the count by one where the key is listed once.
pub proof fn lemma_count_remove(s: Seq<usize>, d: Set<usize>, k: usize)
    requires
        s.no_duplicates(),
        d.contains(k),
    ensures
        count_in(s, d.remove(k)) + (if s.contains(k) { 1int } else { 0int }) == count_in(s, d),
{
    lemma_count_insert(s, d.remove(k), k);
    assert(d.remove(k).insert(k) =~= d);
}

/// A listed key that is not held leaves the count below the length.
pub proof fn lemma_count_missing(s: Seq<usize>, d: Set<usize>, k: usize)
    requires
        s.contains(k),
        !d.contains(k),
    ensures
        count_in(s, d) < s.len(),
{
    lemma_count_le(s, d);
    lemma_count_full(s, d);
}

/// Changing one position changes the sum by the difference of that position's terms.
pub proof fn lemma_sum_update(live: Seq<bool>, vals: Seq<int>, i: int, b: bool)
    requires
        0 <= i < live.len(),
    ensures
        sum_where(live.update(i, b), vals) == sum_where(live, vals) - (if live[i] { vals[i] } else { 0 })
            + (if b { vals[i] } else { 0 }),
    decreases live.len(),
{
    let n = live.len() - 1;
    if i < n {
        lemma_sum_update(live.drop_last(), vals, i, b);
        assert(live.update(i, b).drop_last() =~= live.drop_last().update(i, b));
    } else {
        assert(live.update(i, b).drop_last() =~= live.drop_last());
    }
}

/// A sum of terms that each lie between `lo <= 0` and `hi >= 0`.
pub proof fn lemma_sum_bounds(live: Seq<bool>, vals: Seq<int>, lo: int, hi: int)
    requires
        lo <= 0 <= hi,
        forall|i: int| 0 <= i < live.len() ==> lo <= #[trigger] vals[i] <= hi,
    ensures
        live.len() * lo <= sum_where(live, vals) <= live.len() * hi,
    decreases live.len(),
{
    if live.len() > 0 {
        lemma_sum_bounds(live.drop_last(), vals, lo, hi);
        assert((live.len() - 1) * lo + lo == live.len() * lo) by (nonlinear_arith);
        assert((live.len() - 1) * hi + hi == live.len() * hi) by (nonlinear_arith);
    }
}

/// A sum of non-negative terms is at least the term of any live position.
pub proof fn lemma_sum_pos(live: Seq<bool>, vals: Seq<int>, i: int)
    requires
        0 <= i < live.len(),
        live[i],
        forall|j: int| 0 <= j < live.len() ==> 0 <= #[trigger] vals[j],
    ensures
        sum_where(live, vals) >= vals[i],
{
    lemma_sum_update(live, vals, i, false);
    lemma_sum_nonneg(live.update(i, false), vals);
}

/// A sum of non-negative terms is non-negative.
pub proof fn lemma_sum_nonneg(live: Seq<bool>, vals: Seq<int>)
    requires
        forall|j: int| 0 <= j < live.len() ==> 0 <= #[trigger] vals[j],
    ensures
        sum_where(live, vals) >= 0,
    decreases live.len(),
{
    if live.len() > 0 {
        lemma_sum_nonneg(live.drop_last(), vals);
    }
}

/// A sum over no live position is zero.
pub proof fn lemma_sum_none(live: Seq<bool>, vals: Seq<int>)
    requires
        forall|i: int| 0 <= i < live.len() ==> !live[i],
    ensures
        sum_where(live, vals) == 0,
    decreases live.len(),
{
    if live.len() > 0 {
        lemma_sum_none(live.drop_last(), vals);
    }
}

/// A sum whose live terms are all zero is zero.
pub proof fn lemma_sum_zero(live: Seq<bool>, vals: Seq<int>)
    requires
        forall|i: int| 0 <= i < live.len() && live[i] ==> vals[i] == 0,
    ensures
        sum_where(live, vals) == 0,
    decreases live.len(),
{
    if live.len() > 0 {
        lemma_sum_zero(live.drop_last(), vals);
    }
}

/// A count over an empty set is zero.
pub proof fn lemma_count_empty(s: Seq<usize>)
    ensures
        count_in(s, Set::empty()) == 0,
    decreases s.len(),
{
    if s.len() > 0 {
        lemma_count_empty(s.drop_last());
    }
}

} // verus!
