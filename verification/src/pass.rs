//! One partition pass, seen under one relation: what holds of the span at each
//! stage of the pass, and why each step leads to the next stage.
//!
//! The pass works on the span `left..=right` of a sequence `orig`, around the
//! pivot, the element that `orig` holds at `nth_el`. After the pivot is put at
//! one end of the span, two scans run towards each other; `rest` is the end at
//! which the pivot rests while they run.

use vstd::prelude::*;
use vstd::relations::{strongly_connected, transitive};
use crate::permutation::{elem, swapped};
use crate::rank::{selected_within, strictly_selected_within};

verus! {

/// The span as the pass prepares it: the pivot goes to `left`, and to `right`
/// from there if the element at `right` is greater.
pub open spec fn prepared<T>(
    orig: Seq<T>,
    nth_el: usize,
    left: usize,
    right: usize,
    greater: bool,
) -> Seq<T> {
    if greater {
        swapped(swapped(orig, left, nth_el), right, left)
    } else {
        swapped(orig, left, nth_el)
    }
}

/// What the sequence is while the scans run, where the pivot stood selected
/// with no tie before the pass.
pub open spec fn undisturbed<T>(orig: Seq<T>, nth_el: usize, left: usize, rest: usize) -> Seq<T> {
    if rest == left {
        swapped(orig, left, nth_el)
    } else {
        orig
    }
}

/// Everything before `i` in the span is at most `t`, which is at most everything
/// after `j`.
pub open spec fn sides<T>(
    s: Seq<T>,
    leq: spec_fn(T, T) -> bool,
    t: T,
    left: usize,
    right: usize,
    i: usize,
    j: usize,
) -> bool {
    &&& forall|k: int| left <= k < i ==> leq(#[trigger] s[k], t)
    &&& forall|k: int| j < k <= right ==> leq(t, #[trigger] s[k])
}

/// The state between two rounds of the scans, with the cursors at `i` and `j`.
pub open spec fn between_rounds<T>(
    s: Seq<T>,
    orig: Seq<T>,
    leq: spec_fn(T, T) -> bool,
    nth_el: usize,
    left: usize,
    right: usize,
    rest: usize,
    i: usize,
    j: usize,
) -> bool {
    let t = orig[nth_el as int];
    &&& sides(s, leq, t, left, right, i, j)
    &&& leq(t, s[i as int])
    &&& leq(s[j as int], t)
    &&& strictly_selected_within(orig, leq, left, right, nth_el) ==> {
        &&& rest == left <==> nth_el < right
        &&& i == left ==> swapped(s, left, right) == undisturbed(orig, nth_el, left, rest)
        &&& i > left ==> {
            &&& s == undisturbed(orig, nth_el, left, rest)
            &&& i == if rest == left { nth_el + 1 } else { nth_el as int }
            &&& j + 1 == i
        }
    }
}

/// The state while the upward scan runs: it began at `first` and has passed
/// everything before `i`, all of it strictly less than the pivot.
pub open spec fn scanning_up<T>(
    s: Seq<T>,
    orig: Seq<T>,
    leq: spec_fn(T, T) -> bool,
    nth_el: usize,
    left: usize,
    right: usize,
    rest: usize,
    first: usize,
    i: usize,
    j: usize,
) -> bool {
    let t = orig[nth_el as int];
    &&& sides(s, leq, t, left, right, i, j)
    &&& forall|k: int| first <= k < i ==> !leq(t, #[trigger] s[k])
    &&& strictly_selected_within(orig, leq, left, right, nth_el) ==> {
        &&& rest == left <==> nth_el < right
        &&& first == left + 1
        &&& s == undisturbed(orig, nth_el, left, rest)
    }
}

/// The state while the downward scan runs: the upward scan has stopped at `i`,
/// and the downward scan began at `last` and has passed everything after `j`,
/// all of it strictly greater than the pivot.
pub open spec fn scanning_down<T>(
    s: Seq<T>,
    orig: Seq<T>,
    leq: spec_fn(T, T) -> bool,
    nth_el: usize,
    left: usize,
    right: usize,
    rest: usize,
    first: usize,
    i: usize,
    last: usize,
    j: usize,
) -> bool {
    let t = orig[nth_el as int];
    &&& scanning_up(s, orig, leq, nth_el, left, right, rest, first, i, j)
    &&& leq(t, s[i as int])
    &&& forall|k: int| j < k <= last ==> !leq(#[trigger] s[k], t)
}

/// The prepared span is in the state between rounds, with the cursors at its ends.
pub proof fn lemma_pass_begins<T>(
    orig: Seq<T>,
    leq: spec_fn(T, T) -> bool,
    nth_el: usize,
    left: usize,
    right: usize,
    greater: bool,
)
    requires
        transitive(leq),
        strongly_connected(leq),
        left <= nth_el <= right,
        left < right < orig.len(),
        greater == !leq(elem(swapped(orig, left, nth_el), right), elem(orig, nth_el)),
    ensures
        between_rounds(
            prepared(orig, nth_el, left, right, greater),
            orig,
            leq,
            nth_el,
            left,
            right,
            if greater { left } else { right },
            left,
            right,
        ),
{
    let t = orig[nth_el as int];
    let s = prepared(orig, nth_el, left, right, greater);
    let rest = if greater { left } else { right };
    let moved = swapped(orig, left, nth_el);
    assert(leq(t, t));
    assert(leq(moved[right as int], t) || leq(t, moved[right as int]));
    if strictly_selected_within(orig, leq, left, right, nth_el) {
        if nth_el < right {
            assert(!leq(orig[right as int], t));
        } else {
            assert(!leq(t, orig[left as int]));
            assert(leq(orig[left as int], t) || leq(t, orig[left as int]));
        }
        assert(swapped(s, left, right) =~= undisturbed(orig, nth_el, left, rest));
    }
}

/// A round begins by exchanging the elements under the cursors and moving
/// each cursor one step on; then the upward scan starts.
pub proof fn lemma_round_begins<T>(
    s: Seq<T>,
    orig: Seq<T>,
    leq: spec_fn(T, T) -> bool,
    nth_el: usize,
    left: usize,
    right: usize,
    rest: usize,
    i: usize,
    j: usize,
)
    requires
        left <= nth_el <= right,
        left <= i < j <= right < s.len(),
        s.len() == orig.len(),
        (i == left) == (j == right),
        between_rounds(s, orig, leq, nth_el, left, right, rest, i, j),
    ensures
        scanning_up(
            swapped(s, i, j),
            orig,
            leq,
            nth_el,
            left,
            right,
            rest,
            (i + 1) as usize,
            (i + 1) as usize,
            (j - 1) as usize,
        ),
{
}

/// The upward scan passes an element that is strictly less than the pivot.
pub proof fn lemma_scan_up_passes<T>(
    s: Seq<T>,
    orig: Seq<T>,
    leq: spec_fn(T, T) -> bool,
    nth_el: usize,
    left: usize,
    right: usize,
    rest: usize,
    first: usize,
    i: usize,
    j: usize,
)
    requires
        strongly_connected(leq),
        nth_el < orig.len(),
        i < s.len(),
        i < usize::MAX,
        scanning_up(s, orig, leq, nth_el, left, right, rest, first, i, j),
        !leq(orig[nth_el as int], s[i as int]),
    ensures
        scanning_up(s, orig, leq, nth_el, left, right, rest, first, (i + 1) as usize, j),
{
    let t = orig[nth_el as int];
    assert(leq(t, s[i as int]) || leq(s[i as int], t));
}

/// The downward scan passes an element that is strictly greater than the pivot.
pub proof fn lemma_scan_down_passes<T>(
    s: Seq<T>,
    orig: Seq<T>,
    leq: spec_fn(T, T) -> bool,
    nth_el: usize,
    left: usize,
    right: usize,
    rest: usize,
    first: usize,
    i: usize,
    last: usize,
    j: usize,
)
    requires
        strongly_connected(leq),
        nth_el < orig.len(),
        0 < j < s.len(),
        scanning_down(s, orig, leq, nth_el, left, right, rest, first, i, last, j),
        !leq(s[j as int], orig[nth_el as int]),
    ensures
        scanning_down(s, orig, leq, nth_el, left, right, rest, first, i, last, (j - 1) as usize),
{
    let t = orig[nth_el as int];
    assert(leq(t, s[j as int]) || leq(s[j as int], t));
}

/// When both scans have stopped, the span is in the state between rounds again.
pub proof fn lemma_round_ends<T>(
    s: Seq<T>,
    orig: Seq<T>,
    leq: spec_fn(T, T) -> bool,
    nth_el: usize,
    left: usize,
    right: usize,
    rest: usize,
    first: usize,
    i: usize,
    last: usize,
    j: usize,
)
    requires
        strongly_connected(leq),
        left <= nth_el <= right,
        left < first <= i <= right < s.len(),
        left <= j <= last < right,
        first <= last + 1,
        (first == left + 1) == (last + 1 == right),
        rest == left || rest == right,
        s.len() == orig.len(),
        scanning_down(s, orig, leq, nth_el, left, right, rest, first, i, last, j),
        leq(s[j as int], orig[nth_el as int]),
    ensures
        between_rounds(s, orig, leq, nth_el, left, right, rest, i, j),
{
    let t = orig[nth_el as int];
    if strictly_selected_within(orig, leq, left, right, nth_el) {
        assert(leq(t, t));
        if rest == left {
            assert forall|k: int| left < k <= nth_el implies !leq(t, #[trigger] s[k]) by {
                if k < nth_el {
                    assert(!leq(t, orig[k]));
                } else {
                    assert(!leq(t, orig[left as int]));
                }
            }
            assert(i > nth_el);
            if i > nth_el + 1 {
                let k = nth_el + 1;
                assert(!leq(t, s[k]));
                assert(!leq(orig[k], t));
                assert(leq(orig[k], t) || leq(t, orig[k]));
            }
            assert forall|k: int| nth_el < k < right implies !leq(#[trigger] s[k], t) by {
                assert(!leq(orig[k], t));
            }
            assert(j <= nth_el);
            if j < nth_el {
                assert(!leq(s[nth_el as int], t));
                if left < nth_el {
                    assert(!leq(t, orig[left as int]));
                    assert(leq(orig[left as int], t) || leq(t, orig[left as int]));
                }
            }
        } else {
            assert forall|k: int| left < k < right implies !leq(t, #[trigger] s[k]) by {
                assert(!leq(t, orig[k]));
            }
            assert(i == nth_el);
            if j < last {
                assert(!leq(s[last as int], t));
                assert(!leq(t, orig[last as int]));
                assert(leq(orig[last as int], t) || leq(t, orig[last as int]));
            }
        }
    }
}

/// The last step of the pass: once the cursors have met, the pivot, or an
/// element that ties with it, goes to the border between the two sides, and that
/// position is selected within the span. Where the pivot stood selected with no
/// tie before the pass, the pass has changed nothing.
pub proof fn lemma_pass_ends<T>(
    s: Seq<T>,
    orig: Seq<T>,
    leq: spec_fn(T, T) -> bool,
    nth_el: usize,
    left: usize,
    right: usize,
    rest: usize,
    i: usize,
    j: usize,
    tie: bool,
)
    requires
        transitive(leq),
        strongly_connected(leq),
        left <= nth_el <= right,
        left <= j <= i <= right < s.len(),
        left < i,
        j < right,
        rest == left || rest == right,
        s.len() == orig.len(),
        elem(s, rest) == elem(orig, nth_el),
        between_rounds(s, orig, leq, nth_el, left, right, rest, i, j),
        tie == (leq(elem(s, left), elem(s, rest)) && leq(elem(s, rest), elem(s, left))),
    ensures
        tie ==> selected_within(swapped(s, left, j), leq, left, right, j),
        !tie ==> selected_within(
            swapped(s, (j + 1) as usize, right),
            leq,
            left,
            right,
            (j + 1) as usize,
        ),
        strictly_selected_within(orig, leq, left, right, nth_el) ==> {
            &&& tie ==> j == nth_el && swapped(s, left, j) == orig
            &&& !tie ==> j + 1 == nth_el && swapped(s, (j + 1) as usize, right) == orig
        },
{
    let t = orig[nth_el as int];
    assert(leq(t, t));
    assert(leq(s[left as int], t));
    if tie {
        let after = swapped(s, left, j);
        let e = after[j as int];
        assert(leq(t, e) && leq(e, t));
        assert forall|p: int| left <= p < j implies leq(#[trigger] after[p], e) by {
            if p == left {
                assert(leq(s[j as int], t));
            } else {
                assert(leq(s[p], t));
            }
        }
        assert forall|q: int| j < q <= right implies leq(e, #[trigger] after[q]) by {
            assert(leq(t, s[q]));
        }
        if strictly_selected_within(orig, leq, left, right, nth_el) {
            if rest == right {
                assert(!leq(t, orig[left as int]));
            }
            assert(after =~= orig);
        }
    } else {
        assert(rest == right);
        let at = (j + 1) as usize;
        let after = swapped(s, at, right);
        assert(after[at as int] == t);
        assert forall|p: int| left <= p < at implies leq(#[trigger] after[p], t) by {
            if p == j {
                assert(leq(s[j as int], t));
            } else {
                assert(leq(s[p], t));
            }
        }
        assert forall|q: int| at < q <= right implies leq(t, #[trigger] after[q]) by {
            if q == right {
                assert(leq(t, s[at as int]));
            } else {
                assert(leq(t, s[q]));
            }
        }
        if strictly_selected_within(orig, leq, left, right, nth_el) {
            assert(after =~= orig);
        }
    }
}

} // verus!
