//! Labels: the fixed-width integer tags that make constant-time comparison
//! of priorities possible.

use vstd::prelude::*;

verus! {

/// One more than the largest label value: labels live on the circle of
/// integers modulo `2^64`.
pub open spec fn label_modulus() -> int {
    0x1_0000_0000_0000_0000
}

/// Label (i.e., the "tag") that is used to compare priorities.
///
/// Tag arithmetic is modular: the tag-range backend treats labels as points
/// on a circle of size `2^64`, the list-range backend as plain integers
/// below `2^64`.
#[derive(Debug, Clone, Copy, PartialEq, Eq, Structural)]
pub struct Label(pub u64);

impl Label {
    /// Wrap a raw tag value.
    pub fn new(n: u64) -> (l: Label)
        ensures
            l.0 == n,
    {
        Label(n)
    }

    /// Modular addition on the label circle.
    pub fn wrapping_add(self, rhs: Label) -> (r: Label)
        ensures
            r.0 == if self.0 + rhs.0 < label_modulus() {
                self.0 + rhs.0
            } else {
                self.0 + rhs.0 - label_modulus()
            },
    {
        Label(self.0.wrapping_add(rhs.0))
    }

    /// Modular subtraction on the label circle: the forward distance from
    /// `rhs` to `self`.
    pub fn wrapping_sub(self, rhs: Label) -> (r: Label)
        ensures
            r.0 == if self.0 >= rhs.0 {
                self.0 - rhs.0
            } else {
                self.0 + label_modulus() - rhs.0
            },
    {
        Label(self.0.wrapping_sub(rhs.0))
    }

    /// The midpoint of two labels, rounded down: `(a + b) / 2` computed
    /// without overflow.
    pub fn midpoint(self, rhs: Label) -> (r: Label)
        ensures
            r.0 == (self.0 + rhs.0) / 2,
    {
        proof {
            let a = self.0;
            let b = rhs.0;
            assert((a & b) + ((a ^ b) >> 1u64) == (a + b) / 2) by (bit_vector);
        }
        Label((self.0 & rhs.0) + ((self.0 ^ rhs.0) >> 1u64))
    }
}

} // verus!
