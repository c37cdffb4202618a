//! A sequence-backed max-heap over `i64` whose structural operations — push,
//! pop, bulk construction, and extraction into sorted order — are expressed
//! as traversals of a transient hole cursor that moves elements with one
//! write per step instead of two writes per swap.
//!
//! Two interchangeable containers are provided: [`heap::BinaryHeap`], the
//! reference implementation with the textbook two-children sift-down, and
//! [`better::BinaryHeap`], which sifts over the largest odd prefix to save
//! one bounds test per level and repairs the skipped pair with a single
//! corrective comparison. Both are verified against the same contracts:
//! heap order is kept by every operation, `pop` returns the maximum, and
//! `into_sorted_vec` returns the contents sorted ascending. The general laws
//! relating the operations are proved in [`laws`].

mod hole;
mod perm;
pub mod better;
pub mod heap;
pub mod laws;

pub use crate::heap::BinaryHeap;
