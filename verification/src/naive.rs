//! The naive reference backend: a priority is the exact binary rational
//! `label / 2^depth`. Inserting after a priority halves its gap downward in
//! place (`2·label / 2^(depth+1)`, the same value) and returns the midpoint
//! `(2·label + 1) / 2^(depth+1)`. Labels overflow quickly; this backend is an
//! oracle for small runs, not a scalable structure.

use vstd::prelude::*;
use core::cmp::Ordering;
use vstd::arithmetic::power2::{
    lemma2_to64, lemma2_to64_rest, lemma_pow2_adds, lemma_pow2_pos, lemma_pow2_strictly_increases,
    pow2,
};
use vstd::bits::{lemma_u64_pow2_no_overflow, lemma_u64_shl_is_mul};

verus! {

/// A priority that cannot be cloned: the exact rational `label / 2^depth`.
#[derive(Debug, Clone, Copy, PartialEq, Eq, Structural)]
pub struct UniquePriority {
    pub label: usize,
    pub depth: u32,
}

/// Cross-multiplied comparison of the rationals `a.label / 2^a.depth` and
/// `b.label / 2^b.depth`.
pub open spec fn ratio_cmp(a: UniquePriority, b: UniquePriority) -> Ordering {
    let l = a.label * pow2(b.depth as nat);
    let r = b.label * pow2(a.depth as nat);
    if l < r {
        Ordering::Less
    } else if l == r {
        Ordering::Equal
    } else {
        Ordering::Greater
    }
}

/// Halving the gap of a priority does not move it: `2·label / 2^(depth+1)`
/// compares to everything exactly as `label / 2^depth` does.
pub proof fn lemma_halved_gap_keeps_value(a: UniquePriority, b: UniquePriority, x: UniquePriority)
    requires
        b.label == 2 * a.label,
        b.depth == a.depth + 1,
    ensures
        ratio_cmp(b, x) == ratio_cmp(a, x),
        ratio_cmp(x, b) == ratio_cmp(x, a),
{
    lemma_pow2_adds(1, a.depth as nat);
    lemma2_to64();
    lemma_pow2_pos(a.depth as nat);
    lemma_pow2_pos(x.depth as nat);
    assert(b.label * pow2(x.depth as nat) == 2 * (a.label * pow2(x.depth as nat)))
        by (nonlinear_arith)
        requires
            b.label == 2 * a.label,
    ;
    assert(x.label * pow2(b.depth as nat) == 2 * (x.label * pow2(a.depth as nat)))
        by (nonlinear_arith)
        requires
            pow2(b.depth as nat) == 2 * pow2(a.depth as nat),
    ;
}

impl UniquePriority {
    /// The least priority: `0 / 2^0`.
    pub fn new() -> (p: UniquePriority)
        ensures
            p.label == 0,
            p.depth == 0,
    {
        UniquePriority { label: 0, depth: 0 }
    }

    /// Shrink this priority's gap downward, keeping its value, and return the
    /// next greater priority at the midpoint of the freed gap.
    pub fn insert(&mut self) -> (q: UniquePriority)
        requires
            2 * old(self).label + 1 <= usize::MAX,
            old(self).depth < u32::MAX,
        ensures
            final(self).label == 2 * old(self).label,
            final(self).depth == old(self).depth + 1,
            q.label == 2 * old(self).label + 1,
            q.depth == old(self).depth + 1,
            ratio_cmp(*final(self), q) == Ordering::Less,
            forall|x: UniquePriority|
                #[trigger] ratio_cmp(*old(self), x) == ratio_cmp(*final(self), x),
            forall|x: UniquePriority|
                #[trigger] ratio_cmp(x, *old(self)) == ratio_cmp(x, *final(self)),
    {
        self.label = self.label * 2;
        self.depth = self.depth + 1;
        let q = UniquePriority { label: self.label + 1, depth: self.depth };
        proof {
            lemma_pow2_pos(self.depth as nat);
            assert(self.label * pow2(q.depth as nat) < q.label * pow2(self.depth as nat))
                by (nonlinear_arith)
                requires
                    q.label == self.label + 1,
                    q.depth == self.depth,
                    pow2(self.depth as nat) > 0,
                    pow2(q.depth as nat) == pow2(self.depth as nat),
            ;
            assert forall|x: UniquePriority| #[trigger] ratio_cmp(*old(self), x) == ratio_cmp(
                *self,
                x,
            ) by {
                lemma_halved_gap_keeps_value(*old(self), *self, x);
            }
            assert forall|x: UniquePriority| #[trigger] ratio_cmp(x, *old(self)) == ratio_cmp(
                x,
                *self,
            ) by {
                lemma_halved_gap_keeps_value(*old(self), *self, x);
            }
        }
        q
    }
}

impl PartialOrd for UniquePriority {
    fn partial_cmp(&self, other: &Self) -> (r: Option<Ordering>) {
        proof {
            lemma_pow2_pos(self.depth as nat);
            lemma_pow2_pos(other.depth as nat);
        }
        let r = if self.depth == other.depth {
            proof {
                lemma_cancel_common_factor(
                    self.label as int,
                    other.label as int,
                    pow2(self.depth as nat) as int,
                );
            }
            if self.label < other.label {
                Ordering::Less
            } else if self.label == other.label {
                Ordering::Equal
            } else {
                Ordering::Greater
            }
        } else if self.depth < other.depth {
            cmp_scaled(self.label, other.depth - self.depth, other.label)
        } else {
            match cmp_scaled(other.label, self.depth - other.depth, self.label) {
                Ordering::Less => Ordering::Greater,
                Ordering::Equal => Ordering::Equal,
                Ordering::Greater => Ordering::Less,
            }
        };
        proof {
            if self.depth < other.depth {
                lemma_scaled_is_cross_mul(*self, *other);
            } else if self.depth > other.depth {
                lemma_scaled_is_cross_mul(*other, *self);
            }
        }
        Some(r)
    }
}

impl vstd::std_specs::cmp::PartialOrdSpecImpl for UniquePriority {
    open spec fn obeys_partial_cmp_spec() -> bool {
        true
    }

    open spec fn partial_cmp_spec(&self, other: &Self) -> Option<Ordering> {
        Some(ratio_cmp(*self, *other))
    }
}

/// Comparing two products with a shared positive factor compares the other
/// factors.
proof fn lemma_cancel_common_factor(a: int, b: int, f: int)
    requires
        f > 0,
    ensures
        a * f < b * f <==> a < b,
        a * f == b * f <==> a == b,
{
    assert(a < b ==> a * f < b * f) by (nonlinear_arith)
        requires
            f > 0,
    ;
    assert(a > b ==> a * f > b * f) by (nonlinear_arith)
        requires
            f > 0,
    ;
    assert(a == b ==> a * f == b * f) by (nonlinear_arith);
}

/// Scaling the shallower side by the depth difference decides the
/// cross-multiplied comparison.
proof fn lemma_scaled_is_cross_mul(a: UniquePriority, b: UniquePriority)
    requires
        a.depth < b.depth,
    ensures
        ({
            let scaled = a.label * pow2((b.depth - a.depth) as nat);
            &&& (a.label * pow2(b.depth as nat) < b.label * pow2(a.depth as nat) <==> scaled
                < b.label)
            &&& (a.label * pow2(b.depth as nat) == b.label * pow2(a.depth as nat) <==> scaled
                == b.label)
        }),
{
    let diff = (b.depth - a.depth) as nat;
    lemma_pow2_adds(diff, a.depth as nat);
    lemma_pow2_pos(a.depth as nat);
    lemma_pow2_pos(diff);
    assert(a.label * pow2(b.depth as nat) == (a.label * pow2(diff)) * pow2(a.depth as nat))
        by (nonlinear_arith)
        requires
            pow2(b.depth as nat) == pow2(diff) * pow2(a.depth as nat),
    ;
    lemma_cancel_common_factor(
        a.label * pow2(diff) as int,
        b.label as int,
        pow2(a.depth as nat) as int,
    );
}

/// Compare `label · 2^diff` with `other`, without overflowing.
fn cmp_scaled(label: usize, diff: u32, other: usize) -> (r: Ordering)
    requires
        diff >= 1,
    ensures
        (r == Ordering::Less) <==> label * pow2(diff as nat) < other,
        (r == Ordering::Equal) <==> label * pow2(diff as nat) == other,
        (r == Ordering::Greater) <==> label * pow2(diff as nat) > other,
{
    if diff >= 64 {
        if label == 0 {
            proof {
                assert(0 * pow2(diff as nat) == 0) by (nonlinear_arith);
            }
            if other == 0 {
                Ordering::Equal
            } else {
                Ordering::Less
            }
        } else {
            proof {
                lemma2_to64();
                lemma2_to64_rest();
                if diff > 64 {
                    lemma_pow2_strictly_increases(64, diff as nat);
                }
                assert(label * pow2(diff as nat) >= 1 * pow2(64)) by (nonlinear_arith)
                    requires
                        label >= 1,
                        pow2(diff as nat) >= pow2(64),
                        pow2(64) > 0,
                ;
                assert(other < 0x1_0000_0000_0000_0000);
            }
            Ordering::Greater
        }
    } else {
        proof {
            lemma_u64_pow2_no_overflow(diff as nat);
            lemma_u64_shl_is_mul(1u64, diff as u64);
        }
        let factor: u64 = 1u64 << (diff as u64);
        proof {
            assert(factor == pow2(diff as nat)) by {
                assert(1 * pow2(diff as nat) == pow2(diff as nat)) by (nonlinear_arith);
            }
            assert((label as u128) * (factor as u128) < 0x1_0000_0000_0000_0000_0000_0000_0000_0000)
                by (nonlinear_arith)
                requires
                    label <= 0xffff_ffff_ffff_ffffu128,
                    factor <= 0xffff_ffff_ffff_ffffu128,
            ;
        }
        let scaled: u128 = (label as u128) * (factor as u128);
        proof {
            assert(scaled == label * pow2(diff as nat)) by (nonlinear_arith)
                requires
                    scaled == (label as u128) * (factor as u128),
                    label <= 0xffff_ffff_ffff_ffffu128,
                    factor == pow2(diff as nat),
            ;
        }
        if scaled < other as u128 {
            Ordering::Less
        } else if scaled == other as u128 {
            Ordering::Equal
        } else {
            Ordering::Greater
        }
    }
}

} // verus!
