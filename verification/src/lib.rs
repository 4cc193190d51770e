//! In-place selection of the element of a given rank, after Floyd and Rivest.
//!
//! After a call of [`nth_element`], one chosen position of a slice holds the
//! element that a full sort would put there, with nothing greater before it and
//! nothing less after it. The two sides are left in no particular order.
//!
//! The search narrows a span around the chosen position. A long span is first
//! searched within a shorter span that an estimate picks, so that the partition
//! pass over the long span starts from a pivot that is probably near its place;
//! then the pass settles one position and the search goes on beside it. The
//! estimate is the caller's: it steers the amount of work, never the result.
//!
//! - [`order`]: comparators and the relations they decide.
//! - [`permutation`]: rearrangements within a span, and the exchange of two
//!   positions.
//! - [`rank`]: selected positions, and the state of a search.
//! - [`pass`]: the stages of one partition pass.
//! - [`statistic`]: a selected position holds the element of its rank.

use std::cmp::Ordering;
use vstd::prelude::*;
use crate::order::{decides, is_equal, is_greater, is_less, is_total_order};
use crate::pass::{
    between_rounds, lemma_pass_begins, lemma_pass_ends, lemma_round_begins, lemma_round_ends,
    lemma_scan_down_passes, lemma_scan_up_passes, prepared, scanning_down, scanning_up,
};
use crate::permutation::{
    elem, exchange, lemma_rearranged_twice, lemma_rearranged_whole, lemma_rearranged_wider,
    lemma_swapped_rearranges, rearranged_within,
};
use crate::statistic::{has_rank, lemma_selection_finds_rank};
use crate::rank::{
    lemma_narrowed_further, lemma_narrowed_kept, lemma_narrowed_out, narrowed, selected,
    selected_within, strictly_selected, strictly_selected_within,
};

pub mod order;
pub mod pass;
pub mod permutation;
pub mod rank;
pub mod statistic;

verus! {

/// A span is sampled before it is partitioned if its last position lies more
/// than this many positions after its first.
pub const SAMPLING_THRESHOLD: usize = 600;

/// `window` can be asked for an estimate on every span that is sampled: for a
/// rank `k` within `l..=r`, where the span is longer than the threshold.
pub open spec fn estimates_every_span<W: FnMut(usize, usize, usize) -> (usize, usize)>(
    window: W,
) -> bool {
    forall|k: usize, l: usize, r: usize|
        l <= k <= r && r - l > SAMPLING_THRESHOLD ==> #[trigger] call_requires(window, (k, l, r))
}

/// The position in `lo..=hi` that is nearest to `x`.
pub fn clamp_into(x: usize, lo: usize, hi: usize) -> (r: usize)
    requires
        lo <= hi,
    ensures
        r == if x < lo { lo } else if x > hi { hi } else { x },
{
    if x < lo {
        lo
    } else if x > hi {
        hi
    } else {
        x
    }
}

/// Rearranges `a` so that position `nth_el` holds the element of that rank:
/// under every relation that `cmp` decides, each element before it is at most
/// that element, which is at most each element after it, and it ties with what
/// any sorted arrangement of `a` holds at `nth_el`. No element is added, lost or
/// changed. Where `nth_el` already stands selected and nothing else in `a` ties
/// with it, `a` is left as it is.
///
/// `a` must not be empty, `nth_el` must be one of its positions, and `cmp` must
/// answer as a total order does, ties allowed.
///
/// `window` estimates, for a rank and a long span that holds it, the ends of a
/// shorter span in which the element of that rank probably lies. It is asked
/// with the rank, the first and the last position of the span. Whatever it
/// answers, the result is as stated.
pub fn nth_element<T, F, W>(a: &mut [T], nth_el: usize, cmp: &mut F, window: &mut W)
    where F: FnMut(&T, &T) -> Ordering, W: FnMut(usize, usize, usize) -> (usize, usize)
    requires
        nth_el < old(a)@.len(),
        is_total_order(*old(cmp)),
        estimates_every_span(*old(window)),
    ensures
        *final(cmp) == *old(cmp),
        *final(window) == *old(window),
        final(a)@.len() == old(a)@.len(),
        final(a)@.to_multiset() == old(a)@.to_multiset(),
        forall|leq: spec_fn(T, T) -> bool| #[trigger]
            decides(*old(cmp), leq) ==> selected(final(a)@, leq, nth_el),
        forall|leq: spec_fn(T, T) -> bool| #[trigger]
            decides(*old(cmp), leq) ==> has_rank(old(a)@, leq, nth_el, elem(final(a)@, nth_el)),
        forall|leq: spec_fn(T, T) -> bool| #[trigger]
            decides(*old(cmp), leq) && strictly_selected(old(a)@, leq, nth_el) ==> final(a)@ == old(
                a,
            )@,
{
    let last: usize = a.len() - 1;
    floydrivest(a, nth_el, 0, last, cmp, window);
    proof {
        lemma_rearranged_whole(old(a)@, a@, last);
        assert forall|leq: spec_fn(T, T) -> bool| #[trigger]
            decides(*old(cmp), leq) implies has_rank(old(a)@, leq, nth_el, elem(a@, nth_el)) by {
            lemma_selection_finds_rank(old(a)@, a@, leq, nth_el);
        }
    }
}

/// Rearranges the span `left..=right` of `a`, and nothing else, so that
/// position `nth_el` is selected within the span under every relation that `cmp`
/// decides. Where `nth_el` already stands selected within the span and nothing
/// else in the span ties with it, `a` is left as it is.
///
/// While the span under work is longer than the threshold, the span that
/// `window` estimates is clamped around `nth_el` into the span under work and,
/// if that makes it shorter, searched first. Then one partition pass selects
/// some position, and the search goes on in the side of it that holds `nth_el`.
///
/// The search within an estimated span is a call of this function on a shorter
/// span, so the calls end; with estimates that shorten a span by little, their
/// depth can grow with the length of the span.
pub fn floydrivest<T, F, W>(
    a: &mut [T],
    nth_el: usize,
    left: usize,
    right: usize,
    cmp: &mut F,
    window: &mut W,
)
    where F: FnMut(&T, &T) -> Ordering, W: FnMut(usize, usize, usize) -> (usize, usize)
    requires
        left <= nth_el <= right < old(a)@.len(),
        is_total_order(*old(cmp)),
        estimates_every_span(*old(window)),
    ensures
        *final(cmp) == *old(cmp),
        *final(window) == *old(window),
        rearranged_within(old(a)@, final(a)@, left, right),
        forall|leq: spec_fn(T, T) -> bool| #[trigger]
            decides(*old(cmp), leq) ==> selected_within(final(a)@, leq, left, right, nth_el),
        forall|leq: spec_fn(T, T) -> bool| #[trigger]
            decides(*old(cmp), leq) && strictly_selected_within(old(a)@, leq, left, right, nth_el)
                ==> final(a)@ == old(a)@,
    decreases right - left,
{
    let ghost orig = a@;
    let mut lower: usize = left;
    let mut upper: usize = right;
    assert(a@.len() == a.len());
    while upper > lower
        invariant
            left <= lower,
            upper <= right < a@.len() <= usize::MAX,
            left <= nth_el <= right,
            lower <= upper ==> lower <= nth_el <= upper,
            *cmp == *old(cmp),
            *window == *old(window),
            is_total_order(*cmp),
            estimates_every_span(*window),
            rearranged_within(orig, a@, left, right),
            forall|leq: spec_fn(T, T) -> bool| #[trigger]
                decides(*cmp, leq) ==> narrowed(a@, orig, leq, nth_el, left, right, lower, upper),
        decreases (if lower < upper { upper - lower } else { 0 }),
    {
        if upper - lower > SAMPLING_THRESHOLD {
            let (from, to) = window(nth_el, lower, upper);
            let ll: usize = clamp_into(from, lower, nth_el);
            let rr: usize = clamp_into(to, nth_el, upper);
            if rr - ll < upper - lower {
                let ghost before = a@;
                floydrivest(a, nth_el, ll, rr, cmp, window);
                proof {
                    lemma_rearranged_wider(before, a@, ll, rr, left, right);
                    lemma_rearranged_twice(orig, before, a@, left, right);
                    assert forall|leq: spec_fn(T, T) -> bool| #[trigger]
                        decides(*cmp, leq) implies narrowed(
                        a@,
                        orig,
                        leq,
                        nth_el,
                        left,
                        right,
                        lower,
                        upper,
                    ) by {
                        lemma_narrowed_kept(
                            before,
                            a@,
                            orig,
                            leq,
                            nth_el,
                            left,
                            right,
                            lower,
                            upper,
                            ll,
                            rr,
                        );
                    }
                }
            }
        }
        let ghost before = a@;
        let ghost low = lower;
        let ghost high = upper;
        let j = partition(a, nth_el, lower, upper, cmp);
        if j <= nth_el {
            lower = j + 1;
        }
        if nth_el <= j {
            upper = j.saturating_sub(1);
        }
        proof {
            lemma_rearranged_wider(before, a@, low, high, left, right);
            lemma_rearranged_twice(orig, before, a@, left, right);
            assert forall|leq: spec_fn(T, T) -> bool| #[trigger]
                decides(*cmp, leq) implies narrowed(
                a@,
                orig,
                leq,
                nth_el,
                left,
                right,
                lower,
                upper,
            ) by {
                lemma_narrowed_further(
                    before,
                    a@,
                    orig,
                    leq,
                    nth_el,
                    left,
                    right,
                    low,
                    high,
                    j,
                    lower,
                    upper,
                );
            }
        }
    }
    proof {
        assert forall|leq: spec_fn(T, T) -> bool| #[trigger]
            decides(*old(cmp), leq) implies selected_within(a@, leq, left, right, nth_el) by {
            lemma_narrowed_out(a@, orig, leq, nth_el, left, right, lower, upper);
        }
    }
}

/// One partition pass over `left..=right` around the pivot, the element that
/// stands at `nth_el`: rearranges the span and returns a position that is then
/// selected within it. Where the pivot already stands selected within the span
/// and nothing else in the span ties with it, the pass returns `nth_el` and
/// leaves `a` as it is.
///
/// The pivot goes to one end of the span and stays there while two cursors scan
/// towards each other, exchanging what stands on the wrong side; the elements at
/// both ends stop the scans, so neither cursor leaves the span.
fn partition<T, F>(a: &mut [T], nth_el: usize, left: usize, right: usize, cmp: &mut F) -> (j: usize)
    where F: FnMut(&T, &T) -> Ordering
    requires
        left <= nth_el <= right,
        left < right < old(a)@.len(),
        is_total_order(*old(cmp)),
    ensures
        *final(cmp) == *old(cmp),
        left <= j <= right,
        rearranged_within(old(a)@, final(a)@, left, right),
        forall|leq: spec_fn(T, T) -> bool| #[trigger]
            decides(*old(cmp), leq) ==> selected_within(final(a)@, leq, left, right, j),
        forall|leq: spec_fn(T, T) -> bool| #[trigger]
            decides(*old(cmp), leq) && strictly_selected_within(old(a)@, leq, left, right, nth_el)
                ==> j == nth_el && final(a)@ == old(a)@,
{
    let ghost orig = a@;
    let ghost t = elem(orig, nth_el);
    // Some relation that `cmp` decides: under it, what stands at the two ends of
    // the span stops the scans.
    let ghost witness = choose|leq: spec_fn(T, T) -> bool| decides(*cmp, leq);
    exchange(a, left, nth_el);
    proof {
        lemma_swapped_rearranges(orig, left, nth_el, left, right);
    }
    // The end of the span at which the pivot rests while the scans run.
    let rest: usize;
    let greater = is_greater(cmp, &a[right], &a[left]);
    if greater {
        let ghost moved = a@;
        exchange(a, right, left);
        proof {
            lemma_swapped_rearranges(moved, right, left, left, right);
            lemma_rearranged_twice(orig, moved, a@, left, right);
        }
        rest = left;
    } else {
        rest = right;
    }
    proof {
        assert forall|leq: spec_fn(T, T) -> bool| #[trigger]
            decides(*cmp, leq) implies between_rounds(
            a@,
            orig,
            leq,
            nth_el,
            left,
            right,
            rest,
            left,
            right,
        ) by {
            lemma_pass_begins(orig, leq, nth_el, left, right, greater);
        }
    }
    // The other end: there the pivot stands until the first round begins.
    let ghost start: usize = if rest == left { right } else { left };
    let mut i: usize = left;
    let mut j: usize = right;
    while i < j
        invariant
            left <= nth_el <= right,
            left < right < a@.len(),
            orig.len() == a@.len(),
            left <= i <= right,
            left <= j <= right,
            (i == left) == (j == right),
            rest == left || rest == right,
            t == elem(orig, nth_el),
            start == if rest == left { right } else { left },
            i == left ==> elem(a@, start) == t,
            i > left ==> elem(a@, rest) == t,
            *cmp == *old(cmp),
            is_total_order(*cmp),
            decides(*cmp, witness),
            rearranged_within(orig, a@, left, right),
            forall|leq: spec_fn(T, T) -> bool| #[trigger]
                decides(*cmp, leq) ==> between_rounds(
                    a@,
                    orig,
                    leq,
                    nth_el,
                    left,
                    right,
                    rest,
                    i,
                    j,
                ),
        decreases right - i,
    {
        let ghost before = a@;
        let ghost from = i;
        let ghost to = j;
        exchange(a, i, j);
        i += 1;
        j -= 1;
        let ghost first = i;
        let ghost last = j;
        let ghost scanned = a@;
        proof {
            lemma_swapped_rearranges(before, from, to, left, right);
            lemma_rearranged_twice(orig, before, a@, left, right);
            assert forall|leq: spec_fn(T, T) -> bool| #[trigger]
                decides(*cmp, leq) implies scanning_up(
                a@,
                orig,
                leq,
                nth_el,
                left,
                right,
                rest,
                first,
                i,
                j,
            ) by {
                lemma_round_begins(before, orig, leq, nth_el, left, right, rest, from, to);
            }
        }
        // The upward scan stops at `right` at the latest: the element there is at
        // least the pivot.
        while is_less(cmp, &a[i], &a[rest])
            invariant
                a@ == scanned,
                nth_el < orig.len(),
                left < first <= i <= right < a@.len(),
                j < right,
                rest == left || rest == right,
                t == elem(orig, nth_el),
                elem(a@, rest) == t,
                *cmp == *old(cmp),
                is_total_order(*cmp),
                decides(*cmp, witness),
                forall|leq: spec_fn(T, T) -> bool| #[trigger]
                    decides(*cmp, leq) ==> scanning_up(
                        a@,
                        orig,
                        leq,
                        nth_el,
                        left,
                        right,
                        rest,
                        first,
                        i,
                        j,
                    ),
            decreases right - i,
        {
            let ghost passed = i;
            i += 1;
            proof {
                assert forall|leq: spec_fn(T, T) -> bool| #[trigger]
                    decides(*cmp, leq) implies scanning_up(
                    a@,
                    orig,
                    leq,
                    nth_el,
                    left,
                    right,
                    rest,
                    first,
                    i,
                    j,
                ) by {
                    lemma_scan_up_passes(
                        a@,
                        orig,
                        leq,
                        nth_el,
                        left,
                        right,
                        rest,
                        first,
                        passed,
                        j,
                    );
                }
            }
        }
        // The downward scan stops at `left` at the latest: the element there is at
        // most the pivot.
        while is_greater(cmp, &a[j], &a[rest])
            invariant
                a@ == scanned,
                nth_el < orig.len(),
                left < first <= i <= right < a@.len(),
                left <= j <= last < right,
                rest == left || rest == right,
                t == elem(orig, nth_el),
                elem(a@, rest) == t,
                *cmp == *old(cmp),
                is_total_order(*cmp),
                decides(*cmp, witness),
                forall|leq: spec_fn(T, T) -> bool| #[trigger]
                    decides(*cmp, leq) ==> scanning_down(
                        a@,
                        orig,
                        leq,
                        nth_el,
                        left,
                        right,
                        rest,
                        first,
                        i,
                        last,
                        j,
                    ),
            decreases j - left,
        {
            let ghost passed = j;
            j -= 1;
            proof {
                assert forall|leq: spec_fn(T, T) -> bool| #[trigger]
                    decides(*cmp, leq) implies scanning_down(
                    a@,
                    orig,
                    leq,
                    nth_el,
                    left,
                    right,
                    rest,
                    first,
                    i,
                    last,
                    j,
                ) by {
                    lemma_scan_down_passes(
                        a@,
                        orig,
                        leq,
                        nth_el,
                        left,
                        right,
                        rest,
                        first,
                        i,
                        last,
                        passed,
                    );
                }
            }
        }
        proof {
            assert forall|leq: spec_fn(T, T) -> bool| #[trigger]
                decides(*cmp, leq) implies between_rounds(
                a@,
                orig,
                leq,
                nth_el,
                left,
                right,
                rest,
                i,
                j,
            ) by {
                lemma_round_ends(a@, orig, leq, nth_el, left, right, rest, first, i, last, j);
            }
        }
    }
    let ghost scanned = a@;
    let ghost met = j;
    let tie = is_equal(cmp, &a[left], &a[rest]);
    if tie {
        exchange(a, left, j);
    } else {
        j += 1;
        exchange(a, j, right);
    }
    proof {
        if tie {
            lemma_swapped_rearranges(scanned, left, j, left, right);
        } else {
            lemma_swapped_rearranges(scanned, j, right, left, right);
        }
        lemma_rearranged_twice(orig, scanned, a@, left, right);
        assert forall|leq: spec_fn(T, T) -> bool| #[trigger]
            decides(*old(cmp), leq) implies selected_within(a@, leq, left, right, j) && (
        strictly_selected_within(orig, leq, left, right, nth_el) ==> j == nth_el && a@ == orig) by {
            lemma_pass_ends(scanned, orig, leq, nth_el, left, right, rest, i, met, tie);
        }
    }
    j
}

} // verus!
