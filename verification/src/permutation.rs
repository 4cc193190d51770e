//! Sequences that hold the same elements in another order, and the swap of two
//! positions from which every such rearrangement in this crate is built.

use vstd::prelude::*;
use vstd::seq_lib::*;

verus! {

/// The element of `s` at position `i`.
pub open spec fn elem<T>(s: Seq<T>, i: usize) -> T {
    s[i as int]
}

/// `s` with the elements at positions `i` and `j` exchanged.
pub open spec fn swapped<T>(s: Seq<T>, i: usize, j: usize) -> Seq<T> {
    s.update(i as int, s[j as int]).update(j as int, s[i as int])
}

/// The part of `s` at the positions `left..=right`.
pub open spec fn span<T>(s: Seq<T>, left: usize, right: usize) -> Seq<T> {
    s.subrange(left as int, right + 1)
}

/// `s1` is `s0` with the elements at the positions `left..=right` put in some
/// other order: both agree at every other position, and the two spans hold the same
/// elements, each as many times in one as in the other.
pub open spec fn rearranged_within<T>(s0: Seq<T>, s1: Seq<T>, left: usize, right: usize) -> bool {
    &&& s0.len() == s1.len()
    &&& forall|k: int| 0 <= k < s0.len() && !(left <= k <= right) ==> s0[k] == s1[k]
    &&& span(s0, left, right).to_multiset() == span(s1, left, right).to_multiset()
}

/// Rearranging twice within the same span is rearranging once.
pub proof fn lemma_rearranged_twice<T>(
    s0: Seq<T>,
    s1: Seq<T>,
    s2: Seq<T>,
    left: usize,
    right: usize,
)
    requires
        rearranged_within(s0, s1, left, right),
        rearranged_within(s1, s2, left, right),
    ensures
        rearranged_within(s0, s2, left, right),
{
}

/// Exchanging two positions of a span rearranges the span.
pub proof fn lemma_swapped_rearranges<T>(s: Seq<T>, i: usize, j: usize, left: usize, right: usize)
    requires
        left <= i <= right,
        left <= j <= right,
        right < s.len(),
    ensures
        rearranged_within(s, swapped(s, i, j), left, right),
{
    let before = span(s, left, right);
    let after = span(swapped(s, i, j), left, right);
    let x = s[i as int];
    let y = s[j as int];
    let half = before.update(i - left, y);
    assert(after =~= half.update(j - left, x));
    to_multiset_update(before, i - left, y);
    to_multiset_update(half, j - left, x);
    assert(before.to_multiset().count(x) > 0) by {
        to_multiset_contains(before, x);
    }
    assert(before.to_multiset().count(y) > 0) by {
        to_multiset_contains(before, y);
    }
    assert(after.to_multiset() =~= before.to_multiset());
}

/// A rearrangement within a span is one within every wider span.
pub proof fn lemma_rearranged_wider<T>(
    s0: Seq<T>,
    s1: Seq<T>,
    left: usize,
    right: usize,
    lo: usize,
    hi: usize,
)
    requires
        rearranged_within(s0, s1, left, right),
        lo <= left <= right <= hi < s0.len(),
    ensures
        rearranged_within(s0, s1, lo, hi),
{
    let front0 = s0.subrange(lo as int, left as int);
    let front1 = s1.subrange(lo as int, left as int);
    let back0 = s0.subrange(right + 1, hi + 1);
    let back1 = s1.subrange(right + 1, hi + 1);
    assert(front0 =~= front1);
    assert(back0 =~= back1);
    assert(span(s0, lo, hi) =~= front0 + span(s0, left, right) + back0);
    assert(span(s1, lo, hi) =~= front1 + span(s1, left, right) + back1);
    lemma_multiset_commutative(front0, span(s0, left, right));
    lemma_multiset_commutative(front1, span(s1, left, right));
    lemma_multiset_commutative(front0 + span(s0, left, right), back0);
    lemma_multiset_commutative(front1 + span(s1, left, right), back1);
}

/// A rearrangement within the span of all positions keeps the multiset of the
/// whole sequence.
pub proof fn lemma_rearranged_whole<T>(s0: Seq<T>, s1: Seq<T>, right: usize)
    requires
        rearranged_within(s0, s1, 0, right),
        right + 1 == s0.len(),
    ensures
        s0.to_multiset() == s1.to_multiset(),
{
    assert(span(s0, 0, right) =~= s0);
    assert(span(s1, 0, right) =~= s1);
}

/// Every element of a rearranged span stood somewhere in that span before.
pub proof fn lemma_rearranged_source<T>(s0: Seq<T>, s1: Seq<T>, left: usize, right: usize, q: int)
    requires
        rearranged_within(s0, s1, left, right),
        left <= q <= right < s0.len(),
    ensures
        exists|p: int| left <= p <= right && s0[p] == s1[q],
{
    let before = span(s0, left, right);
    let after = span(s1, left, right);
    let x = s1[q];
    assert(after[q - left] == x);
    to_multiset_contains(after, x);
    to_multiset_contains(before, x);
}

/// Exchanges the elements at positions `i` and `j` of `a`.
pub fn exchange<T>(a: &mut [T], i: usize, j: usize)
    requires
        i < old(a)@.len(),
        j < old(a)@.len(),
    ensures
        final(a)@ == swapped(old(a)@, i, j),
{
    if i < j {
        let (head, tail) = a.split_at_mut(j);
        core::mem::swap(&mut head[i], &mut tail[0]);
    } else if j < i {
        let (head, tail) = a.split_at_mut(i);
        core::mem::swap(&mut head[j], &mut tail[0]);
    }
}

} // verus!
