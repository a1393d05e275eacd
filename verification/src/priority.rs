//! The abstract order-maintenance capability, under its older name.

use vstd::prelude::*;

verus! {

/// The capability every backend provides: totally ordered priorities
/// supporting constant-time comparison, and insertion of a new priority
/// directly after an existing one.
pub trait MaintainOrd: Sized + PartialEq + Eq + PartialOrd {
    /// Allocate a new priority in a fresh arena.
    ///
    /// Priorities allocated in separate arenas cannot be compared; to get a
    /// priority comparable to an existing one, insert after it.
    fn new() -> Self;

    /// Allocate the next greatest priority.
    fn insert(&self) -> Self;
}

} // verus!
