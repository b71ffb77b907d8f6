//! Priority predicates: the ordering side of the heap.
//!
//! A heap is parametrised by a [`Comparator`], a two-place predicate saying
//! which of two elements must sit closer to the root. [`LessThan`] and
//! [`GreaterThan`] are the two stock comparators, giving min-heaps and
//! max-heaps over any totally ordered element type.

use vstd::prelude::*;
use vstd::std_specs::cmp::PartialOrdSpec;
use core::cmp::Ordering;

verus! {

/// A priority predicate over elements of type `T`.
///
/// `comes_before(a, b)` is the mathematical relation the comparator stands
/// for: it holds when `a` must sit at least as close to the root of a heap
/// as `b`. The executable [`Comparator::compare`] decides that relation
/// whenever [`Comparator::obeys`] holds.
pub trait Comparator<T>: Sized {
    /// The relation that `compare` decides: `a` must come before `b`.
    spec fn comes_before(a: T, b: T) -> bool;

    /// Whether `compare` reliably decides `comes_before`. Comparators built
    /// on `PartialOrd` can only promise agreement when the element type's
    /// `partial_cmp` follows its specification.
    spec fn obeys() -> bool;

    /// Decide whether `a` comes before `b`.
    fn compare(&self, a: &T, b: &T) -> (r: bool)
        ensures
            Self::obeys() ==> r == Self::comes_before(*a, *b),
    ;
}

/// The predicate never holds in both directions at once. `<` and `>` of any
/// partial order satisfy this.
pub open spec fn asymmetric<T, P: Comparator<T>>() -> bool {
    forall|a: T, b: T| #[trigger] P::comes_before(a, b) ==> !P::comes_before(b, a)
}

/// The complement of the predicate, read backwards, is transitive: if `b`
/// does not come before `a`, and `c` does not come before `b`, then `c` does
/// not come before `a`. `<` and `>` of any total order satisfy this.
pub open spec fn co_transitive<T, P: Comparator<T>>() -> bool {
    forall|a: T, b: T, c: T|
        #![trigger P::comes_before(b, a), P::comes_before(c, b)]
        !P::comes_before(b, a) && !P::comes_before(c, b) ==> !P::comes_before(c, a)
}

/// A strict ordering predicate: asymmetric, with a transitive complement.
/// The strict comparisons `<` and `>` of any total order qualify, duplicate
/// elements included; a reflexive predicate such as `<=` does not. The
/// heap's ordering guarantees hold for comparators of this kind.
pub open spec fn strict_ordering<T, P: Comparator<T>>() -> bool {
    asymmetric::<T, P>() && co_transitive::<T, P>()
}

/// The predicate relates every two distinct elements one way or the other.
/// `<` and `>` of any total order satisfy this.
pub open spec fn total_on_distinct<T, P: Comparator<T>>() -> bool {
    forall|a: T, b: T| a != b ==> #[trigger] P::comes_before(a, b) || P::comes_before(b, a)
}

/// The sequence is in priority order: no element comes before an earlier one.
pub open spec fn priority_sorted<T, P: Comparator<T>>(s: Seq<T>) -> bool {
    forall|i: int, j: int|
        #![trigger s[i], s[j]]
        0 <= i < j < s.len() ==> !P::comes_before(s[j], s[i])
}

/// Prefers the smaller element: the comparator of a min-heap.
pub struct LessThan;

impl<T: PartialOrd> Comparator<T> for LessThan {
    open spec fn comes_before(a: T, b: T) -> bool {
        a.partial_cmp_spec(&b) == Some(Ordering::Less)
    }

    open spec fn obeys() -> bool {
        T::obeys_partial_cmp_spec()
    }

    fn compare(&self, a: &T, b: &T) -> (r: bool) {
        a.lt(b)
    }
}

/// Prefers the larger element: the comparator of a max-heap.
pub struct GreaterThan;

impl<T: PartialOrd> Comparator<T> for GreaterThan {
    open spec fn comes_before(a: T, b: T) -> bool {
        a.partial_cmp_spec(&b) == Some(Ordering::Greater)
    }

    open spec fn obeys() -> bool {
        T::obeys_partial_cmp_spec()
    }

    fn compare(&self, a: &T, b: &T) -> (r: bool) {
        a.gt(b)
    }
}

/// On `i32`, the min-heap comparator decides `<` and is a strict ordering.
pub proof fn lemma_less_than_strict_i32()
    ensures
        <LessThan as Comparator<i32>>::obeys(),
        strict_ordering::<i32, LessThan>(),
{
}

/// On `i32`, the max-heap comparator decides `>` and is a strict ordering.
pub proof fn lemma_greater_than_strict_i32()
    ensures
        <GreaterThan as Comparator<i32>>::obeys(),
        strict_ordering::<i32, GreaterThan>(),
{
}

/// On `i32`, min-heap priority order is non-decreasing order.
pub proof fn lemma_priority_sorted_less_than_i32(s: Seq<i32>)
    ensures
        priority_sorted::<i32, LessThan>(s) <==> (forall|i: int, j: int|
            #![trigger s[i], s[j]]
            0 <= i < j < s.len() ==> s[i] <= s[j]),
{
}

/// On `i32`, max-heap priority order is non-increasing order.
pub proof fn lemma_priority_sorted_greater_than_i32(s: Seq<i32>)
    ensures
        priority_sorted::<i32, GreaterThan>(s) <==> (forall|i: int, j: int|
            #![trigger s[i], s[j]]
            0 <= i < j < s.len() ==> s[i] >= s[j]),
{
}

} // verus!
