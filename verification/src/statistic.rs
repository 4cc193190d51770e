//! Why a selected position holds the element of its rank: the element that
//! every sorted arrangement of the same elements holds at that position.

use vstd::prelude::*;
use vstd::relations::{antisymmetric, sorted_by, strongly_connected, transitive};
use vstd::seq_lib::*;
use crate::rank::selected;

verus! {

/// Adds one to a count for an element that satisfies `p`.
pub open spec fn tally<T>(p: spec_fn(T) -> bool) -> spec_fn(nat, T) -> nat {
    |n: nat, x: T| if p(x) { n + 1 } else { n }
}

/// How many positions of `s` hold an element that satisfies `p`.
pub open spec fn count_where<T>(s: Seq<T>, p: spec_fn(T) -> bool) -> nat {
    s.fold_left(0nat, tally(p))
}

/// `x` is the element of rank `k` among the elements of `s`: every sorted
/// arrangement of these elements holds at `k` an element that ties with `x`.
pub open spec fn has_rank<T>(s: Seq<T>, leq: spec_fn(T, T) -> bool, k: usize, x: T) -> bool {
    forall|sorted: Seq<T>| #[trigger]
        sorted_by(sorted, leq) && sorted.to_multiset() == s.to_multiset() ==> leq(
            x,
            sorted[k as int],
        ) && leq(sorted[k as int], x)
}

/// Two arrangements of the same elements hold equally many that satisfy `p`.
pub proof fn lemma_count_rearranged<T>(s: Seq<T>, r: Seq<T>, p: spec_fn(T) -> bool)
    requires
        s.to_multiset() == r.to_multiset(),
    ensures
        count_where(s, p) == count_where(r, p),
{
    let f = tally(p);
    lemma_fold_left_permutation(s, r, f, 0nat);
}

/// Where every position in `lo..hi` holds an element that satisfies `p`, at
/// least `hi - lo` positions do.
pub proof fn lemma_count_at_least<T>(s: Seq<T>, p: spec_fn(T) -> bool, lo: int, hi: int)
    requires
        0 <= lo <= hi <= s.len(),
        forall|k: int| lo <= k < hi ==> p(#[trigger] s[k]),
    ensures
        count_where(s, p) >= hi - lo,
    decreases s.len(),
{
    if s.len() > 0 {
        let front = s.drop_last();
        if hi == s.len() {
            if lo < hi {
                lemma_count_at_least(front, p, lo, hi - 1);
            }
        } else {
            lemma_count_at_least(front, p, lo, hi);
        }
    }
}

/// Where no position in `lo..hi` holds an element that satisfies `p`, at most
/// the other positions do.
pub proof fn lemma_count_at_most<T>(s: Seq<T>, p: spec_fn(T) -> bool, lo: int, hi: int)
    requires
        0 <= lo <= hi <= s.len(),
        forall|k: int| lo <= k < hi ==> !p(#[trigger] s[k]),
    ensures
        count_where(s, p) <= s.len() - (hi - lo),
    decreases s.len(),
{
    if s.len() > 0 {
        let front = s.drop_last();
        if hi == s.len() {
            if lo < hi {
                lemma_count_at_most(front, p, lo, hi - 1);
            } else {
                lemma_count_at_most(front, p, 0, 0);
            }
        } else {
            lemma_count_at_most(front, p, lo, hi);
        }
    }
}

/// A selected position holds what a sorted arrangement of the same elements
/// holds there, up to a tie; and that very element where no two different
/// elements tie.
pub proof fn lemma_selected_matches_sorted<T>(
    s: Seq<T>,
    sorted: Seq<T>,
    leq: spec_fn(T, T) -> bool,
    k: usize,
)
    requires
        transitive(leq),
        strongly_connected(leq),
        k < s.len(),
        selected(s, leq, k),
        sorted_by(sorted, leq),
        sorted.to_multiset() == s.to_multiset(),
    ensures
        leq(s[k as int], sorted[k as int]),
        leq(sorted[k as int], s[k as int]),
        antisymmetric(leq) ==> s[k as int] == sorted[k as int],
{
    let x = s[k as int];
    let y = sorted[k as int];
    let n = s.len() as int;
    s.to_multiset_ensures();
    sorted.to_multiset_ensures();
    if !leq(x, y) {
        // More than `k` elements would be strictly less than `x`.
        let below = |e: T| !leq(x, e);
        assert forall|i: int| 0 <= i < k + 1 implies below(#[trigger] sorted[i]) by {
            assert(leq(sorted[i], y));
        }
        lemma_count_at_least(sorted, below, 0, k + 1);
        lemma_count_at_most(s, below, k as int, n);
        lemma_count_rearranged(s, sorted, below);
    }
    if !leq(y, x) {
        // More than `n - 1 - k` elements would be strictly greater than `x`.
        let above = |e: T| !leq(e, x);
        assert forall|i: int| k <= i < n implies above(#[trigger] sorted[i]) by {
            assert(leq(y, sorted[i]));
        }
        lemma_count_at_least(sorted, above, k as int, n);
        lemma_count_at_most(s, above, 0, k + 1);
        lemma_count_rearranged(s, sorted, above);
    }
}

/// After a selection at `k`, position `k` holds the element of rank `k` among
/// the elements that the sequence held before.
pub proof fn lemma_selection_finds_rank<T>(
    before: Seq<T>,
    after: Seq<T>,
    leq: spec_fn(T, T) -> bool,
    k: usize,
)
    requires
        transitive(leq),
        strongly_connected(leq),
        k < after.len(),
        selected(after, leq, k),
        after.to_multiset() == before.to_multiset(),
    ensures
        has_rank(before, leq, k, after[k as int]),
{
    assert forall|sorted: Seq<T>| #[trigger]
        sorted_by(sorted, leq) && sorted.to_multiset() == before.to_multiset() implies leq(
        after[k as int],
        sorted[k as int],
    ) && leq(sorted[k as int], after[k as int]) by {
        lemma_selected_matches_sorted(after, sorted, leq, k);
    }
}

/// After a selection at the first position, that position holds a least
/// element of those that the sequence held before.
pub proof fn lemma_first_is_least<T>(before: Seq<T>, after: Seq<T>, leq: spec_fn(T, T) -> bool)
    requires
        strongly_connected(leq),
        0 < after.len(),
        selected(after, leq, 0),
        after.to_multiset() == before.to_multiset(),
    ensures
        before.contains(after[0]),
        forall|i: int| 0 <= i < before.len() ==> leq(after[0], #[trigger] before[i]),
{
    to_multiset_contains(after, after[0]);
    to_multiset_contains(before, after[0]);
    assert forall|i: int| 0 <= i < before.len() implies leq(after[0], #[trigger] before[i]) by {
        to_multiset_contains(before, before[i]);
        to_multiset_contains(after, before[i]);
    }
}

/// After a selection at the last position, that position holds a greatest
/// element of those that the sequence held before.
pub proof fn lemma_last_is_greatest<T>(before: Seq<T>, after: Seq<T>, leq: spec_fn(T, T) -> bool)
    requires
        strongly_connected(leq),
        0 < after.len() <= usize::MAX,
        selected(after, leq, (after.len() - 1) as usize),
        after.to_multiset() == before.to_multiset(),
    ensures
        before.contains(after.last()),
        forall|i: int| 0 <= i < before.len() ==> leq(#[trigger] before[i], after.last()),
{
    to_multiset_contains(after, after.last());
    to_multiset_contains(before, after.last());
    assert forall|i: int| 0 <= i < before.len() implies leq(#[trigger] before[i], after.last()) by {
        to_multiset_contains(before, before[i]);
        to_multiset_contains(after, before[i]);
    }
}

} // verus!
