//! A binary heap with a pluggable ordering predicate.
//!
//! [`heap::Heap`] is an array-backed binary heap whose ordering is chosen at
//! construction through a [`order::Comparator`]: [`order::LessThan`] gives a
//! min-heap, [`order::GreaterThan`] a max-heap, and any user type
//! implementing the trait gives a heap over its own priority relation.

pub mod heap;
pub mod order;
