//! Totally-ordered priorities: order maintenance with constant-time
//! comparison.
//!
//! A universe of priorities is a circular list of nodes carrying integer
//! labels; comparing two priorities compares their labels, and inserting a
//! new priority between two neighbours relabels just enough of the list to
//! keep a free label available. Two relabeling strategies are provided, as
//! interchangeable backends, together with a naive reference backend and an
//! unbounded one.

use vstd::prelude::*;

pub mod big;
pub mod internal;
pub mod label;
pub mod list_range;
pub mod naive;
pub mod priority;
pub mod store;
pub mod tag_range;

verus! {

/// The capability every backend provides: totally ordered priorities
/// supporting constant-time comparison, and insertion of a new priority
/// directly after an existing one.
/// The universe has run out of labels: no further priority can be inserted
/// where it was asked for.
#[derive(Debug, Clone, Copy, PartialEq, Eq, Structural)]
pub struct Saturated;

pub trait MaintainedOrd: Sized + PartialEq + PartialOrd {
    /// Allocate a new priority in a fresh, isolated universe.
    fn new() -> Self;

    /// Allocate the next greatest priority: one that is greater than `self`
    /// and less than every priority that was greater than `self`.
    fn insert(&self) -> Self;
}

} // verus!
