//! Three-way comparators and the relations they decide.
//!
//! A relation `leq` is read as "is at most". A comparator may decide a relation
//! with ties: two elements, each at most the other, need not be the same element.

use std::cmp::Ordering;
use vstd::prelude::*;
use vstd::relations::{strongly_connected, transitive};

verus! {

/// The answer that a three-way comparison of `x` with `y` gives under `leq`.
pub open spec fn verdict<T>(leq: spec_fn(T, T) -> bool, x: T, y: T) -> Ordering {
    if !leq(x, y) {
        Ordering::Greater
    } else if leq(y, x) {
        Ordering::Equal
    } else {
        Ordering::Less
    }
}

/// `cmp` decides `leq`: the relation is transitive and leaves no two elements
/// unrelated, and whatever `cmp` answers for two elements is the verdict of the
/// relation on them.
pub open spec fn decides<T, F: FnMut(&T, &T) -> Ordering>(
    cmp: F,
    leq: spec_fn(T, T) -> bool,
) -> bool {
    &&& transitive(leq)
    &&& strongly_connected(leq)
    &&& forall|x: T, y: T, o: Ordering| #[trigger]
        call_ensures(cmp, (&x, &y), o) ==> o == verdict(leq, x, y)
}

/// `cmp` can be asked for any two elements and decides some relation.
pub open spec fn is_total_order<T, F: FnMut(&T, &T) -> Ordering>(cmp: F) -> bool {
    &&& forall|x: T, y: T| #[trigger] call_requires(cmp, (&x, &y))
    &&& exists|leq: spec_fn(T, T) -> bool| decides(cmp, leq)
}

/// Whether `x` is strictly less than `y`.
pub fn is_less<T, F: FnMut(&T, &T) -> Ordering>(cmp: &mut F, x: &T, y: &T) -> (r: bool)
    requires
        is_total_order(*old(cmp)),
    ensures
        *final(cmp) == *old(cmp),
        forall|leq: spec_fn(T, T) -> bool| #[trigger] decides(*old(cmp), leq) ==> r == !leq(*y, *x),
{
    match cmp(x, y) {
        Ordering::Less => true,
        _ => false,
    }
}

/// Whether `x` is strictly greater than `y`.
pub fn is_greater<T, F: FnMut(&T, &T) -> Ordering>(cmp: &mut F, x: &T, y: &T) -> (r: bool)
    requires
        is_total_order(*old(cmp)),
    ensures
        *final(cmp) == *old(cmp),
        forall|leq: spec_fn(T, T) -> bool| #[trigger] decides(*old(cmp), leq) ==> r == !leq(*x, *y),
{
    match cmp(x, y) {
        Ordering::Greater => true,
        _ => false,
    }
}

/// Whether `x` and `y` tie.
pub fn is_equal<T, F: FnMut(&T, &T) -> Ordering>(cmp: &mut F, x: &T, y: &T) -> (r: bool)
    requires
        is_total_order(*old(cmp)),
    ensures
        *final(cmp) == *old(cmp),
        forall|leq: spec_fn(T, T) -> bool| #[trigger]
            decides(*old(cmp), leq) ==> r == (leq(*x, *y) && leq(*y, *x)),
{
    match cmp(x, y) {
        Ordering::Equal => true,
        _ => false,
    }
}

} // verus!
