//! In-place bitonic sorting over any totally ordered element type.
//!
//! The crate offers two entry points: [`first::sort`], specialised to `u32`
//! slices of a vector, and [`second::sort`], generic over any type that
//! implements [`total_order::TotalOrder`].  Both rearrange the vector in
//! place; on power-of-two lengths the result is proved monotone in the
//! requested direction, and on every length the multiset of elements is
//! proved unchanged.

use vstd::prelude::*;

pub mod bitonic;
pub mod first;
pub mod laws;
pub mod second;
pub mod total_order;

verus! {

/// Caller-facing order tag.  It maps one-to-one to the boolean direction
/// flag that the recursion propagates: `Ascending` is `true`.
pub enum SortOrder {
    Ascending,
    Descending,
}

/// The direction flag that a tag stands for.
pub open spec fn direction_of(order: SortOrder) -> bool {
    order is Ascending
}

} // verus!
