//! What it means for one position of a sequence to hold the element of its rank.

use vstd::prelude::*;
use vstd::relations::{strongly_connected, transitive};
use crate::permutation::{lemma_rearranged_source, lemma_rearranged_wider, rearranged_within};

verus! {

/// Position `k` is selected within `left..=right`: every element before it in
/// the span is at most the one at `k`, which is at most every element after it.
pub open spec fn selected_within<T>(
    s: Seq<T>,
    leq: spec_fn(T, T) -> bool,
    left: usize,
    right: usize,
    k: usize,
) -> bool {
    &&& forall|p: int| left <= p < k ==> leq(#[trigger] s[p], s[k as int])
    &&& forall|q: int| k < q <= right ==> leq(s[k as int], #[trigger] s[q])
}

/// Position `k` is selected in the whole of `s`: every element before it is at
/// most the one at `k`, which is at most every element after it.
pub open spec fn selected<T>(s: Seq<T>, leq: spec_fn(T, T) -> bool, k: usize) -> bool {
    &&& forall|p: int| 0 <= p < k ==> leq(#[trigger] s[p], s[k as int])
    &&& forall|q: int| k < q < s.len() ==> leq(s[k as int], #[trigger] s[q])
}

/// Position `k` is selected within `left..=right` and nothing else in the span
/// ties with it: every element before it in the span is strictly less than the
/// one at `k`, and every element after it strictly greater.
pub open spec fn strictly_selected_within<T>(
    s: Seq<T>,
    leq: spec_fn(T, T) -> bool,
    left: usize,
    right: usize,
    k: usize,
) -> bool {
    &&& forall|p: int| left <= p < k ==> !leq(s[k as int], #[trigger] s[p])
    &&& forall|q: int| k < q <= right ==> !leq(#[trigger] s[q], s[k as int])
}

/// Position `k` is selected in the whole of `s` and nothing else in `s` ties
/// with it.
pub open spec fn strictly_selected<T>(s: Seq<T>, leq: spec_fn(T, T) -> bool, k: usize) -> bool {
    &&& forall|p: int| 0 <= p < k ==> !leq(s[k as int], #[trigger] s[p])
    &&& forall|q: int| k < q < s.len() ==> !leq(#[trigger] s[q], s[k as int])
}

/// A selected position with which nothing else in the sequence ties is
/// strictly selected.
pub proof fn lemma_selected_without_tie<T>(s: Seq<T>, leq: spec_fn(T, T) -> bool, k: usize)
    requires
        strongly_connected(leq),
        k < s.len(),
        selected(s, leq, k),
        forall|i: int|
            0 <= i < s.len() && i != k ==> !(leq(#[trigger] s[i], s[k as int]) && leq(
                s[k as int],
                s[i],
            )),
    ensures
        strictly_selected(s, leq, k),
{
}

/// Within `lo..=hi`, every element before position `left` is at most every
/// element from `left` on.
pub open spec fn settled_before<T>(
    s: Seq<T>,
    leq: spec_fn(T, T) -> bool,
    lo: usize,
    hi: usize,
    left: usize,
) -> bool {
    forall|p: int, q: int| lo <= p < left <= q <= hi ==> leq(#[trigger] s[p], #[trigger] s[q])
}

/// Within `lo..=hi`, every element up to position `right` is at most every
/// element after `right`.
pub open spec fn settled_after<T>(
    s: Seq<T>,
    leq: spec_fn(T, T) -> bool,
    lo: usize,
    hi: usize,
    right: usize,
) -> bool {
    forall|p: int, q: int| lo <= p <= right < q <= hi ==> leq(#[trigger] s[p], #[trigger] s[q])
}

/// Rearranging the elements between two settled borders keeps both borders.
pub proof fn lemma_settled_kept<T>(
    s0: Seq<T>,
    s1: Seq<T>,
    leq: spec_fn(T, T) -> bool,
    lo: usize,
    hi: usize,
    left: usize,
    right: usize,
)
    requires
        settled_before(s0, leq, lo, hi, left),
        settled_after(s0, leq, lo, hi, right),
        rearranged_within(s0, s1, left, right),
        lo <= left <= right <= hi < s0.len(),
    ensures
        settled_before(s1, leq, lo, hi, left),
        settled_after(s1, leq, lo, hi, right),
{
    assert forall|p: int, q: int| lo <= p < left <= q <= hi implies leq(
        #[trigger] s1[p],
        #[trigger] s1[q],
    ) by {
        if q <= right {
            lemma_rearranged_source(s0, s1, left, right, q);
        }
    }
    assert forall|p: int, q: int| lo <= p <= right < q <= hi implies leq(
        #[trigger] s1[p],
        #[trigger] s1[q],
    ) by {
        if left <= p {
            lemma_rearranged_source(s0, s1, left, right, p);
        }
    }
}

/// A position selected between two settled borders is selected within the
/// whole span.
pub proof fn lemma_selected_between<T>(
    s: Seq<T>,
    leq: spec_fn(T, T) -> bool,
    lo: usize,
    hi: usize,
    left: usize,
    right: usize,
    k: usize,
)
    requires
        settled_before(s, leq, lo, hi, left),
        settled_after(s, leq, lo, hi, right),
        selected_within(s, leq, left, right, k),
        lo <= left <= k <= right <= hi < s.len(),
    ensures
        selected_within(s, leq, lo, hi, k),
{
}

/// Once position `k` is selected between the borders, the left border may move
/// to just after `k`.
pub proof fn lemma_settled_before_moves<T>(
    s: Seq<T>,
    leq: spec_fn(T, T) -> bool,
    lo: usize,
    hi: usize,
    left: usize,
    right: usize,
    k: usize,
    next: usize,
)
    requires
        transitive(leq),
        strongly_connected(leq),
        settled_before(s, leq, lo, hi, left),
        settled_after(s, leq, lo, hi, right),
        selected_within(s, leq, left, right, k),
        lo <= left <= k <= right <= hi < s.len(),
        next == k + 1,
    ensures
        settled_before(s, leq, lo, hi, next),
{
}

/// Once position `k` is selected between the borders, the right border may move
/// to just before `k`.
pub proof fn lemma_settled_after_moves<T>(
    s: Seq<T>,
    leq: spec_fn(T, T) -> bool,
    lo: usize,
    hi: usize,
    left: usize,
    right: usize,
    k: usize,
    next: usize,
)
    requires
        transitive(leq),
        strongly_connected(leq),
        settled_before(s, leq, lo, hi, left),
        settled_after(s, leq, lo, hi, right),
        selected_within(s, leq, left, right, k),
        lo <= left <= k <= right <= hi < s.len(),
        next + 1 == k,
    ensures
        settled_after(s, leq, lo, hi, next),
{
}

/// The state of a search for the element of rank `nth_el` in the span
/// `left..=right` of `orig`, narrowed down to `lower..=upper`: while that span is
/// not empty, both its borders are settled; once it is empty, `nth_el` is
/// selected. Where `nth_el` stood selected with no tie in `orig`, nothing has
/// changed and nothing has been narrowed.
pub open spec fn narrowed<T>(
    s: Seq<T>,
    orig: Seq<T>,
    leq: spec_fn(T, T) -> bool,
    nth_el: usize,
    left: usize,
    right: usize,
    lower: usize,
    upper: usize,
) -> bool {
    &&& lower <= upper ==> settled_before(s, leq, left, right, lower)
    &&& lower <= upper ==> settled_after(s, leq, left, right, upper)
    &&& upper < lower ==> selected_within(s, leq, left, right, nth_el)
    &&& strictly_selected_within(orig, leq, left, right, nth_el) ==> {
        &&& s == orig
        &&& lower <= upper ==> lower == left && upper == right
    }
}

/// Rearranging a part of the narrowed span that holds `nth_el`, in a way that
/// leaves that part alone where `nth_el` stands selected in it with no tie, keeps
/// the state of the search.
pub proof fn lemma_narrowed_kept<T>(
    s0: Seq<T>,
    s1: Seq<T>,
    orig: Seq<T>,
    leq: spec_fn(T, T) -> bool,
    nth_el: usize,
    left: usize,
    right: usize,
    lower: usize,
    upper: usize,
    ll: usize,
    rr: usize,
)
    requires
        narrowed(s0, orig, leq, nth_el, left, right, lower, upper),
        left <= lower <= ll <= nth_el <= rr <= upper <= right < s0.len(),
        rearranged_within(s0, s1, ll, rr),
        strictly_selected_within(s0, leq, ll, rr, nth_el) ==> s1 == s0,
    ensures
        narrowed(s1, orig, leq, nth_el, left, right, lower, upper),
{
    lemma_rearranged_wider(s0, s1, ll, rr, lower, upper);
    lemma_settled_kept(s0, s1, leq, left, right, lower, upper);
}

/// After a partition pass has selected position `j` within the narrowed span,
/// the search goes on in the side of `j` that holds `nth_el`, or ends where `j`
/// is `nth_el`.
pub proof fn lemma_narrowed_further<T>(
    s0: Seq<T>,
    s1: Seq<T>,
    orig: Seq<T>,
    leq: spec_fn(T, T) -> bool,
    nth_el: usize,
    left: usize,
    right: usize,
    lower: usize,
    upper: usize,
    j: usize,
    next_lower: usize,
    next_upper: usize,
)
    requires
        transitive(leq),
        strongly_connected(leq),
        narrowed(s0, orig, leq, nth_el, left, right, lower, upper),
        left <= lower <= nth_el <= upper <= right < s0.len(),
        lower < upper,
        lower <= j <= upper,
        rearranged_within(s0, s1, lower, upper),
        selected_within(s1, leq, lower, upper, j),
        strictly_selected_within(s0, leq, lower, upper, nth_el) ==> j == nth_el && s1 == s0,
        next_lower == if j <= nth_el { j + 1 } else { lower as int },
        next_upper == if nth_el <= j { if j > 0 { j - 1 } else { 0 } } else { upper as int },
    ensures
        narrowed(s1, orig, leq, nth_el, left, right, next_lower, next_upper),
{
    lemma_settled_kept(s0, s1, leq, left, right, lower, upper);
    if j < nth_el {
        lemma_settled_before_moves(s1, leq, left, right, lower, upper, j, next_lower);
    } else if nth_el < j {
        lemma_settled_after_moves(s1, leq, left, right, lower, upper, j, next_upper);
    } else {
        lemma_selected_between(s1, leq, left, right, lower, upper, j);
    }
}

/// A search narrowed down to at most one position has selected `nth_el`.
pub proof fn lemma_narrowed_out<T>(
    s: Seq<T>,
    orig: Seq<T>,
    leq: spec_fn(T, T) -> bool,
    nth_el: usize,
    left: usize,
    right: usize,
    lower: usize,
    upper: usize,
)
    requires
        narrowed(s, orig, leq, nth_el, left, right, lower, upper),
        left <= lower,
        upper <= right < s.len(),
        upper <= lower,
        lower <= upper ==> lower <= nth_el <= upper,
    ensures
        selected_within(s, leq, left, right, nth_el),
{
    if lower <= upper {
        lemma_selected_between(s, leq, left, right, lower, upper, nth_el);
    }
}

} // verus!
