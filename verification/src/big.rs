//! The unbounded reference backend: a priority is the exact binary fraction
//! written by its bit string, `0.b0 b1 b2 …`. The string plays the role of an
//! arbitrary-precision `label` whose `depth` is its length: inserting after a
//! priority appends `0` to it (halving its gap downward without moving it)
//! and returns the same string ending in `1` instead (the midpoint). No run
//! of inserts can exhaust it.

use vstd::prelude::*;
use core::cmp::Ordering;
use vstd::arithmetic::power2::{lemma2_to64, lemma_pow2_adds, lemma_pow2_pos, pow2};

verus! {

/// The integer a big-endian bit string denotes.
pub open spec fn bits_value(s: Seq<bool>) -> int
    decreases s.len(),
{
    if s.len() == 0 {
        0
    } else {
        2 * bits_value(s.drop_last()) + if s.last() {
            1int
        } else {
            0int
        }
    }
}

/// Cross-multiplied comparison of the fractions denoted by two bit strings:
/// `value(a) / 2^|a|` against `value(b) / 2^|b|`.
pub open spec fn frac_cmp(a: Seq<bool>, b: Seq<bool>) -> Ordering {
    let l = bits_value(a) * pow2(b.len());
    let r = bits_value(b) * pow2(a.len());
    if l < r {
        Ordering::Less
    } else if l == r {
        Ordering::Equal
    } else {
        Ordering::Greater
    }
}

/// Appending a bit doubles the value and adds the bit.
proof fn lemma_bits_value_push(s: Seq<bool>, bit: bool)
    ensures
        bits_value(s.push(bit)) == 2 * bits_value(s) + if bit {
            1int
        } else {
            0int
        },
{
    assert(s.push(bit).drop_last() =~= s);
    assert(s.push(bit).last() == bit);
}

/// A bit string's value is a non-negative integer below `2^length`.
proof fn lemma_bits_value_bound(s: Seq<bool>)
    ensures
        0 <= bits_value(s) < pow2(s.len()),
    decreases s.len(),
{
    lemma_pow2_pos(s.len());
    if s.len() > 0 {
        lemma_bits_value_bound(s.drop_last());
        lemma_pow2_adds(1, (s.len() - 1) as nat);
        lemma2_to64();
    }
}

/// A bit string's value is zero exactly when no bit of it is set.
proof fn lemma_bits_value_zero(s: Seq<bool>)
    ensures
        bits_value(s) == 0 <==> (forall|i: int| 0 <= i < s.len() ==> !s[i]),
    decreases s.len(),
{
    lemma_bits_value_bound(s);
    if s.len() > 0 {
        lemma_bits_value_zero(s.drop_last());
        lemma_bits_value_bound(s.drop_last());
        if bits_value(s) == 0 {
            assert forall|i: int| 0 <= i < s.len() implies !s[i] by {
                if i < s.len() - 1 {
                    assert(s.drop_last()[i] == s[i]);
                }
            }
        } else {
            if forall|i: int| 0 <= i < s.len() ==> !s[i] {
                assert forall|i: int| 0 <= i < s.len() - 1 implies !s.drop_last()[i] by {
                    assert(s.drop_last()[i] == s[i]);
                }
                assert(!s.last());
                assert(false);
            }
        }
    }
}

/// Cutting a bit string splits its value by place value.
proof fn lemma_bits_value_split(s: Seq<bool>, j: int)
    requires
        0 <= j <= s.len(),
    ensures
        bits_value(s) == bits_value(s.take(j)) * pow2((s.len() - j) as nat) + bits_value(
            s.skip(j),
        ),
    decreases s.len(),
{
    if j == s.len() {
        assert(s.take(j) =~= s);
        assert(s.skip(j) =~= Seq::empty());
        assert(pow2(0) == 1) by {
            lemma2_to64();
        }
        assert(bits_value(s) * 1 == bits_value(s)) by (nonlinear_arith);
    } else {
        let t = s.drop_last();
        lemma_bits_value_split(t, j);
        assert(t.take(j) =~= s.take(j));
        assert(s.skip(j) =~= t.skip(j).push(s.last()));
        lemma_bits_value_push(t.skip(j), s.last());
        lemma_pow2_adds(1, (s.len() - 1 - j) as nat);
        lemma2_to64();
        let tk = bits_value(s.take(j));
        let p = pow2((s.len() - 1 - j) as nat) as int;
        assert(2 * (tk * p) == tk * (2 * p)) by (nonlinear_arith);
    }
}

/// At the first differing bit, the string showing `1` denotes the greater
/// fraction, whatever follows in either string.
proof fn lemma_first_difference(a: Seq<bool>, b: Seq<bool>, i: int)
    requires
        0 <= i < a.len(),
        i < b.len(),
        a.take(i) == b.take(i),
        !a[i],
        b[i],
    ensures
        bits_value(a) * pow2(b.len()) < bits_value(b) * pow2(a.len()),
{
    let la = a.len() as int;
    let lb = b.len() as int;
    lemma_bits_value_split(a, i + 1);
    lemma_bits_value_split(b, i + 1);
    let va = bits_value(a.take(i + 1));
    let vb = bits_value(b.take(i + 1));
    assert(a.take(i + 1).drop_last() =~= a.take(i));
    assert(b.take(i + 1).drop_last() =~= b.take(i));
    assert(va == 2 * bits_value(a.take(i)));
    assert(vb == 2 * bits_value(b.take(i)) + 1);
    assert(vb == va + 1);
    let ra = bits_value(a.skip(i + 1));
    let rb = bits_value(b.skip(i + 1));
    lemma_bits_value_bound(a.skip(i + 1));
    lemma_bits_value_bound(b.skip(i + 1));
    lemma_pow2_adds((la - i - 1) as nat, lb as nat);
    lemma_pow2_adds((lb - i - 1) as nat, la as nat);
    lemma_pow2_pos(lb as nat);
    lemma_pow2_pos(la as nat);
    lemma_pow2_pos((la - i - 1) as nat);
    lemma_pow2_pos((lb - i - 1) as nat);
    // both sides, split at the differing bit and scaled to a common weight
    assert((la - i - 1) + lb == (lb - i - 1) + la);
    let k = pow2(((la - i - 1) + lb) as nat) as int;
    assert(bits_value(a) * pow2(lb as nat) == va * k + ra * pow2(lb as nat)) by (nonlinear_arith)
        requires
            bits_value(a) == va * pow2((la - i - 1) as nat) + ra,
            k == pow2((la - i - 1) as nat) * pow2(lb as nat),
    ;
    assert(bits_value(b) * pow2(la as nat) == vb * k + rb * pow2(la as nat)) by (nonlinear_arith)
        requires
            bits_value(b) == vb * pow2((lb - i - 1) as nat) + rb,
            k == pow2((lb - i - 1) as nat) * pow2(la as nat),
    ;
    assert(ra * pow2(lb as nat) < k) by (nonlinear_arith)
        requires
            0 <= ra < pow2((la - i - 1) as nat),
            pow2(lb as nat) > 0,
            k == pow2((la - i - 1) as nat) * pow2(lb as nat),
    ;
    assert(rb * pow2(la as nat) >= 0) by (nonlinear_arith)
        requires
            rb >= 0,
            pow2(la as nat) > 0,
    ;
    assert(va * k + k == (va + 1) * k) by (nonlinear_arith);
}

/// When one string extends the other, the extension decides: all-zero tails
/// leave the fraction unchanged, a set bit in the tail makes it greater.
proof fn lemma_prefix_extension(a: Seq<bool>, b: Seq<bool>)
    requires
        b.len() < a.len(),
        a.take(b.len() as int) == b,
    ensures
        bits_value(a) * pow2(b.len()) >= bits_value(b) * pow2(a.len()),
        (bits_value(a) * pow2(b.len()) == bits_value(b) * pow2(a.len())) <==> bits_value(
            a.skip(b.len() as int),
        ) == 0,
{
    let la = a.len() as int;
    let lb = b.len() as int;
    lemma_bits_value_split(a, lb);
    let ra = bits_value(a.skip(lb));
    lemma_bits_value_bound(a.skip(lb));
    lemma_pow2_adds((la - lb) as nat, lb as nat);
    lemma_pow2_pos(lb as nat);
    lemma_pow2_pos(la as nat);
    assert(bits_value(a) * pow2(lb as nat) == bits_value(b) * pow2(la as nat) + ra * pow2(
        lb as nat,
    )) by (nonlinear_arith)
        requires
            bits_value(a) == bits_value(b) * pow2((la - lb) as nat) + ra,
            pow2(la as nat) == pow2((la - lb) as nat) * pow2(lb as nat),
    ;
    assert(ra * pow2(lb as nat) >= 0 && (ra * pow2(lb as nat) == 0 <==> ra == 0))
        by (nonlinear_arith)
        requires
            ra >= 0,
            pow2(lb as nat) > 0,
    ;
}

/// Compare two bit strings as binary fractions.
fn cmp_bits(a: &Vec<bool>, b: &Vec<bool>) -> (r: Ordering)
    ensures
        r == frac_cmp(a@, b@),
{
    let n = if a.len() < b.len() {
        a.len()
    } else {
        b.len()
    };
    let mut i: usize = 0;
    while i < n
        invariant
            i <= n,
            n == if a@.len() < b@.len() {
                a@.len()
            } else {
                b@.len()
            },
            forall|k: int| 0 <= k < i ==> a@[k] == b@[k],
        decreases n - i,
    {
        let ab = a[i];
        let bb = b[i];
        if ab != bb {
            proof {
                assert(a@.take(i as int) =~= b@.take(i as int));
                if !ab {
                    lemma_first_difference(a@, b@, i as int);
                } else {
                    lemma_first_difference(b@, a@, i as int);
                }
            }
            if !ab {
                return Ordering::Less;
            } else {
                return Ordering::Greater;
            }
        }
        i = i + 1;
    }
    if a.len() == b.len() {
        proof {
            assert(a@ =~= b@);
        }
        Ordering::Equal
    } else if a.len() > b.len() {
        let ghost tail = a@.skip(b@.len() as int);
        proof {
            assert(a@.take(b@.len() as int) =~= b@);
            lemma_prefix_extension(a@, b@);
            lemma_bits_value_zero(tail);
            assert(forall|k: int|
                b@.len() <= k < a@.len() ==> a@[k] == #[trigger] tail[k - b@.len()]);
        }
        if tail_has_set_bit(a, b.len()) {
            proof {
                let k = choose|k: int| b@.len() <= k < a@.len() && a@[k];
                assert(tail[k - b@.len()]);
            }
            Ordering::Greater
        } else {
            proof {
                assert forall|i: int| 0 <= i < tail.len() implies !tail[i] by {
                    assert(tail[i] == a@[b@.len() + i]);
                }
            }
            Ordering::Equal
        }
    } else {
        let ghost tail = b@.skip(a@.len() as int);
        proof {
            assert(b@.take(a@.len() as int) =~= a@);
            lemma_prefix_extension(b@, a@);
            lemma_bits_value_zero(tail);
            assert(forall|k: int|
                a@.len() <= k < b@.len() ==> b@[k] == #[trigger] tail[k - a@.len()]);
        }
        if tail_has_set_bit(b, a.len()) {
            proof {
                let k = choose|k: int| a@.len() <= k < b@.len() && b@[k];
                assert(tail[k - a@.len()]);
            }
            Ordering::Less
        } else {
            proof {
                assert forall|i: int| 0 <= i < tail.len() implies !tail[i] by {
                    assert(tail[i] == b@[a@.len() + i]);
                }
            }
            Ordering::Equal
        }
    }
}

/// Whether any bit from `from` onward is set.
fn tail_has_set_bit(v: &Vec<bool>, from: usize) -> (r: bool)
    requires
        from <= v@.len(),
    ensures
        r <==> exists|k: int| from <= k < v@.len() && v@[k],
{
    let mut j = from;
    while j < v.len()
        invariant
            from <= j <= v@.len(),
            forall|k: int| from <= k < j ==> !v@[k],
        decreases v@.len() - j,
    {
        if v[j] {
            return true;
        }
        j = j + 1;
    }
    false
}

/// A priority that cannot be cloned: the exact binary fraction written by its
/// bits. Its depth is the length of the bit string.
#[derive(Debug)]
pub struct UniquePriority {
    pub bits: Vec<bool>,
}

impl UniquePriority {
    /// The least priority: the empty fraction, zero.
    pub fn new() -> (p: UniquePriority)
        ensures
            p.bits@ == Seq::<bool>::empty(),
    {
        UniquePriority { bits: Vec::new() }
    }

    /// Shrink this priority's gap downward, keeping its value, and return the
    /// next greater priority at the midpoint of the freed gap.
    pub fn insert(&mut self) -> (q: UniquePriority)
        ensures
            final(self).bits@ == old(self).bits@.push(false),
            q.bits@ == old(self).bits@.push(true),
            frac_cmp(final(self).bits@, q.bits@) == Ordering::Less,
            forall|x: Seq<bool>| #[trigger] frac_cmp(old(self).bits@, x) == frac_cmp(
                final(self).bits@,
                x,
            ),
            forall|x: Seq<bool>| #[trigger] frac_cmp(x, old(self).bits@) == frac_cmp(
                x,
                final(self).bits@,
            ),
    {
        let mut q_bits = self.bits.clone();
        q_bits.push(true);
        self.bits.push(false);
        proof {
            let s0 = old(self).bits@;
            let s1 = self.bits@;
            let sq = q_bits@;
            lemma_bits_value_push(s0, false);
            lemma_bits_value_push(s0, true);
            lemma_pow2_pos(s1.len());
            assert(bits_value(s1) * pow2(sq.len()) < bits_value(sq) * pow2(s1.len()))
                by (nonlinear_arith)
                requires
                    bits_value(sq) == bits_value(s1) + 1,
                    sq.len() == s1.len(),
                    pow2(s1.len()) > 0,
            ;
            assert forall|x: Seq<bool>| #[trigger] frac_cmp(s0, x) == frac_cmp(s1, x) by {
                lemma_trailing_zero_keeps_value(s0, x);
            }
            assert forall|x: Seq<bool>| #[trigger] frac_cmp(x, s0) == frac_cmp(x, s1) by {
                lemma_trailing_zero_keeps_value(s0, x);
            }
        }
        UniquePriority { bits: q_bits }
    }
}

/// Appending a `0` does not move a fraction: it compares to everything as it
/// did before.
pub proof fn lemma_trailing_zero_keeps_value(s: Seq<bool>, x: Seq<bool>)
    ensures
        frac_cmp(s.push(false), x) == frac_cmp(s, x),
        frac_cmp(x, s.push(false)) == frac_cmp(x, s),
{
    let t = s.push(false);
    lemma_bits_value_push(s, false);
    lemma_pow2_adds(1, s.len());
    lemma2_to64();
    assert(bits_value(t) * pow2(x.len()) == 2 * (bits_value(s) * pow2(x.len())))
        by (nonlinear_arith)
        requires
            bits_value(t) == 2 * bits_value(s),
    ;
    assert(bits_value(x) * pow2(t.len()) == 2 * (bits_value(x) * pow2(s.len())))
        by (nonlinear_arith)
        requires
            pow2(t.len()) == 2 * pow2(s.len()),
    ;
}

impl PartialEq for UniquePriority {
    fn eq(&self, other: &Self) -> (r: bool) {
        let mut i: usize = 0;
        if self.bits.len() != other.bits.len() {
            return false;
        }
        while i < self.bits.len()
            invariant
                i <= self.bits@.len(),
                self.bits@.len() == other.bits@.len(),
                forall|k: int| 0 <= k < i ==> self.bits@[k] == other.bits@[k],
            decreases self.bits@.len() - i,
        {
            if self.bits[i] != other.bits[i] {
                return false;
            }
            i = i + 1;
        }
        proof {
            assert(self.bits@ =~= other.bits@);
        }
        true
    }
}

impl Eq for UniquePriority {}

impl vstd::std_specs::cmp::PartialEqSpecImpl for UniquePriority {
    open spec fn obeys_eq_spec() -> bool {
        true
    }

    open spec fn eq_spec(&self, other: &Self) -> bool {
        self.bits@ == other.bits@
    }
}

impl PartialOrd for UniquePriority {
    fn partial_cmp(&self, other: &Self) -> (r: Option<Ordering>) {
        Some(cmp_bits(&self.bits, &other.bits))
    }
}

impl vstd::std_specs::cmp::PartialOrdSpecImpl for UniquePriority {
    open spec fn obeys_partial_cmp_spec() -> bool {
        true
    }

    open spec fn partial_cmp_spec(&self, other: &Self) -> Option<Ordering> {
        Some(frac_cmp(self.bits@, other.bits@))
    }
}

} // verus!
