//! Priorities backed by tag-range relabeling.
//!
//! Labels live on a circle of size `2^64`; what orders two priorities is the
//! forward distance of their labels from the label of a sentinel node that is
//! never handed out. An insert walks forward from its position until the
//! distance outgrows the square of the number of nodes walked, then re-spaces
//! the walked nodes evenly over that distance.

use vstd::prelude::*;
use core::cmp::Ordering;
use crate::internal::{Arena, PriorityKey};
use crate::label::{label_modulus, Label};

verus! {

/// Forward distance from `a` to `b` on the label circle.
pub open spec fn rel(a: u64, b: u64) -> int {
    if b >= a {
        b - a
    } else {
        b + label_modulus() - a
    }
}

/// The index `m` steps after `a` around a ring of length `n`, for `a` inside
/// the ring and `m` at most one turn.
pub open spec fn ring_index(a: int, m: int, n: int) -> int {
    if a + m < n {
        a + m
    } else {
        a + m - n
    }
}

/// Forward distance from the label at anchor `a` to the label `m` steps later.
pub open spec fn rel_at(s: Seq<u64>, a: int, m: int) -> int {
    rel(s[a], s[ring_index(a, m, s.len() as int)])
}

/// Seen from anchor `a`, the forward distances strictly increase all the way
/// around the ring.
pub open spec fn sorted_from(s: Seq<u64>, a: int) -> bool {
    forall|x: int, y: int| 0 <= x < y < s.len() ==> rel_at(s, a, x) < rel_at(s, a, y)
}

/// Changing the reference point shifts every forward distance by a constant,
/// modulo one turn of the circle.
proof fn lemma_rel_rebase(u: u64, v: u64, w: u64)
    ensures
        rel(v, w) == if rel(u, w) >= rel(u, v) {
            rel(u, w) - rel(u, v)
        } else {
            rel(u, w) + label_modulus() - rel(u, v)
        },
{
}

/// The distance from a shifted anchor, in terms of distances from the
/// original anchor.
proof fn lemma_rel_at_rebase(s: Seq<u64>, a: int, d: int, m: int)
    requires
        0 <= a < s.len(),
        0 <= d < s.len(),
        0 <= m < s.len(),
        sorted_from(s, a),
    ensures
        rel_at(s, ring_index(a, d, s.len() as int), m) == if d + m < s.len() {
            rel_at(s, a, d + m) - rel_at(s, a, d)
        } else {
            rel_at(s, a, d + m - s.len()) + label_modulus() - rel_at(s, a, d)
        },
{
    let n = s.len() as int;
    let b = ring_index(a, d, n);
    let dm = if d + m < n {
        d + m
    } else {
        d + m - n
    };
    assert(ring_index(b, m, n) == ring_index(a, dm, n));
    lemma_rel_rebase(s[a], s[b], s[ring_index(a, dm, n)]);
    if d + m < n {
        if m != 0 {
            assert(rel_at(s, a, d) < rel_at(s, a, dm));
        }
    } else {
        assert(dm < d);
        assert(rel_at(s, a, dm) < rel_at(s, a, d));
    }
}

/// If the ring is sorted from one anchor, it is sorted from every anchor.
pub proof fn lemma_sorted_from_rotation(s: Seq<u64>, a: int, b: int)
    requires
        0 <= a < s.len(),
        0 <= b < s.len(),
        sorted_from(s, a),
    ensures
        sorted_from(s, b),
{
    let n = s.len() as int;
    let d = if b >= a {
        b - a
    } else {
        b + n - a
    };
    assert(b == ring_index(a, d, n));
    assert forall|x: int, y: int| 0 <= x < y < n implies rel_at(s, b, x) < rel_at(s, b, y) by {
        lemma_rel_at_rebase(s, a, d, x);
        lemma_rel_at_rebase(s, a, d, y);
        if d + x < n && d + y < n {
            assert(rel_at(s, a, d + x) < rel_at(s, a, d + y));
        } else if d + x < n {
            assert(rel_at(s, a, d + x) < label_modulus());
        } else {
            assert(rel_at(s, a, d + x - n) < rel_at(s, a, d + y - n));
        }
    }
}

/// The number of forward steps from `a` to `i` around a ring of length `n`:
/// the inverse of [`ring_index`].
pub open spec fn steps(a: int, i: int, n: int) -> int {
    if i >= a {
        i - a
    } else {
        i + n - a
    }
}

/// The label a forward distance `d` past `a` on the circle.
pub open spec fn label_shift(a: u64, d: int) -> u64 {
    if a + d < label_modulus() {
        (a + d) as u64
    } else {
        (a + d - label_modulus()) as u64
    }
}

/// The label placed `j` steps into an even re-spacing of weight `w` over `c`
/// steps, as a distance from the starting label.
pub open spec fn dspread(w: int, c: int, j: int) -> int {
    j * w / c
}

/// `label_shift` really lands at the requested distance.
proof fn lemma_label_shift(a: u64, d: int)
    requires
        0 <= d < label_modulus(),
    ensures
        rel(a, label_shift(a, d)) == d,
{
}

/// Walking one more step around the ring follows the `next` direction.
proof fn lemma_ring_step(a: int, m: int, n: int)
    requires
        0 <= a < n,
        0 <= m < n,
    ensures
        ring_index(a, m + 1, n) == if ring_index(a, m, n) + 1 == n {
            0int
        } else {
            ring_index(a, m, n) + 1
        },
{
}

/// `steps` inverts `ring_index`.
proof fn lemma_ring_index_inverse(a: int, i: int, n: int)
    requires
        0 <= a < n,
        0 <= i < n,
    ensures
        0 <= steps(a, i, n) < n,
        ring_index(a, steps(a, i, n), n) == i,
        forall|m: int| 0 <= m < n ==> steps(a, #[trigger] ring_index(a, m, n), n) == m,
{
}

/// Bounds and growth of the evenly spread distances `(j * w) / c`.
proof fn lemma_dspread(w: int, c: int, x: int, y: int)
    requires
        1 <= c <= w,
        0 <= x < y <= c,
    ensures
        dspread(w, c, 0) == 0,
        dspread(w, c, c) == w,
        1 <= w / c,
        0 <= dspread(w, c, x),
        dspread(w, c, x) + w / c <= dspread(w, c, y),
        dspread(w, c, y) <= w,
{
    let g = w / c;
    vstd::arithmetic::div_mod::lemma_div_multiples_vanish(w, c);
    vstd::arithmetic::div_mod::lemma_div_is_ordered(c, w, c);
    vstd::arithmetic::div_mod::lemma_div_multiples_vanish(1, c);
    assert(c * 1 == c) by (nonlinear_arith);
    assert(c * g <= w) by {
        vstd::arithmetic::div_mod::lemma_fundamental_div_mod(w, c);
        vstd::arithmetic::div_mod::lemma_mod_bound(w, c);
    }
    assert(x * w >= 0) by (nonlinear_arith)
        requires
            x >= 0,
            w >= 0,
    ;
    vstd::arithmetic::div_mod::lemma_div_pos_is_pos(x * w, c);
    assert(((y - x) * g) * c == (y - x) * (c * g)) by (nonlinear_arith);
    assert(x * w + (y - x) * (c * g) <= x * w + (y - x) * w) by (nonlinear_arith)
        requires
            c * g <= w,
            y - x >= 1,
            c * g >= 0,
    ;
    assert(x * w + (y - x) * w == y * w) by (nonlinear_arith);
    vstd::arithmetic::div_mod::lemma_hoist_over_denominator(x * w, (y - x) * g, c as nat);
    vstd::arithmetic::div_mod::lemma_div_is_ordered(x * w + ((y - x) * g) * c, y * w, c);
    assert((y - x) * g >= 1 * g) by (nonlinear_arith)
        requires
            y - x >= 1,
            g >= 0,
    ;
    assert(y * w <= c * w) by (nonlinear_arith)
        requires
            y <= c,
            w >= 0,
    ;
    vstd::arithmetic::div_mod::lemma_div_is_ordered(y * w, c * w, c);
    assert(c * w == w * c) by (nonlinear_arith);
    assert((w * c) / c == w) by {
        vstd::arithmetic::div_mod::lemma_div_multiples_vanish(w, c);
    }
}

/// A universe of priorities maintained by tag-range relabeling. Its first
/// ring node is a sentinel: it anchors the circle and is never handed out.
pub struct Universe {
    pub(crate) arena: Arena,
}

impl Universe {
    /// The labels of all ring nodes, the sentinel first.
    pub open(crate) spec fn ring_labels(self) -> Seq<u64> {
        Seq::new(
            self.arena.ring().len(),
            |i: int| self.arena.node(self.arena.ring()[i]).label.0,
        )
    }

    /// The live user-visible keys, in positional order (the ring without its
    /// sentinel).
    pub open(crate) spec fn keys(self) -> Seq<usize> {
        self.arena.ring().drop_first()
    }

    /// Whether a key names a live priority of this universe.
    pub open(crate) spec fn contains(self, k: usize) -> bool {
        self.keys().contains(k)
    }

    /// The position of a live priority in the order.
    pub open(crate) spec fn pos(self, k: usize) -> int {
        self.keys().index_of(k)
    }

    /// How many handles point at a live priority.
    pub open(crate) spec fn ref_count(self, k: usize) -> int {
        self.arena.node(k).ref_count as int
    }

    /// Well-formed universe: a structurally sound arena whose first node is
    /// the sentinel, with forward distances from the sentinel strictly
    /// increasing along the ring.
    pub open(crate) spec fn wf(self) -> bool {
        &&& self.arena.wf()
        &&& self.arena.ring().len() >= 1
        &&& self.arena.ring()[0] == self.arena.spec_base()
        &&& sorted_from(self.ring_labels(), 0)
        &&& forall|i: int|
            0 <= i < self.arena.ring().len() ==> (#[trigger] self.arena.node(
                self.arena.ring()[i],
            )).ref_count >= 1
    }

    /// A live priority sits one step past its position on the ring, and never
    /// on the sentinel.
    proof fn lemma_user_pos(self, k: usize)
        requires
            self.wf(),
            self.contains(k),
        ensures
            0 <= self.pos(k) < self.keys().len(),
            self.keys()[self.pos(k)] == k,
            self.arena.ring()[self.pos(k) + 1] == k,
            self.arena.contains_key(k),
            k != self.arena.spec_base(),
            self.arena.ring().index_of(k) == self.pos(k) + 1,
            forall|i: int| 0 <= i < self.keys().len() && self.keys()[i] == k ==> i == self.pos(k),
    {
        let r = self.arena.ring();
        let ks = self.keys();
        assert(exists|i: int| 0 <= i < ks.len() && ks[i] == k);
        let p = ks.index_of(k);
        assert(0 <= p < ks.len() && ks[p] == k);
        assert(r[p + 1] == k);
        assert(r.contains(k));
        self.arena.lemma_pos(k);
        assert(r.index_of(k) == p + 1);
        assert(r[0] != r[p + 1]);
        assert forall|i: int| 0 <= i < ks.len() && ks[i] == k implies i == p by {
            assert(r[i + 1] == k);
        }
    }

    /// Positions determine keys: two live priorities at the same position are
    /// the same priority.
    pub proof fn lemma_pos_injective(self, a: usize, b: usize)
        requires
            self.wf(),
            self.contains(a),
            self.contains(b),
        ensures
            0 <= self.pos(a) < self.keys().len(),
            self.keys()[self.pos(a)] == a,
            self.pos(a) == self.pos(b) <==> a == b,
    {
        self.lemma_user_pos(a);
        self.lemma_user_pos(b);
    }

    /// Create a fresh universe holding one priority, and hand that priority
    /// back. The sentinel keeps label `0`; the first priority starts at the
    /// middle of the label circle.
    pub fn new() -> (r: (Universe, PriorityKey))
        ensures
            r.0.wf(),
            r.0.keys() == seq![r.1.0],
            r.0.ref_count(r.1.0) == 1,
    {
        let mut arena = Arena::new();
        let base = arena.base();
        let ghost r0 = arena.ring();
        let first = arena.insert_after(Label(0x8000_0000_0000_0000), base);
        let u = Universe { arena };
        proof {
            r0.insert_ensures(1, first.0);
            assert(u.arena.ring() =~= seq![base.0, first.0]);
            assert(u.keys() =~= seq![first.0]);
            let s = u.ring_labels();
            assert(s[0] == 0 && s[1] == 0x8000_0000_0000_0000);
            assert(sorted_from(s, 0)) by {
                assert forall|x: int, y: int| 0 <= x < y < 2 implies rel_at(s, 0, x) < rel_at(
                    s,
                    0,
                    y,
                ) by {
                    assert(x == 0 && y == 1);
                    assert(ring_index(0, 0, 2) == 0 && ring_index(0, 1, 2) == 1);
                    assert(rel_at(s, 0, 0) == 0);
                    assert(rel_at(s, 0, 1) == 0x8000_0000_0000_0000);
                }
            }
        }
        (u, first)
    }

    /// Number of live priorities in this universe (the sentinel not counted).
    pub fn total(&self) -> (n: usize)
        requires
            self.wf(),
        ensures
            n == self.keys().len(),
    {
        self.arena.total() - 1
    }

    /// Compare two priorities of this universe: the answer follows their
    /// positional order.
    pub fn compare(&self, a: PriorityKey, b: PriorityKey) -> (r: Ordering)
        requires
            self.wf(),
            self.contains(a.0),
            self.contains(b.0),
        ensures
            (r == Ordering::Equal) <==> a.0 == b.0,
            (r == Ordering::Less) <==> self.pos(a.0) < self.pos(b.0),
            (r == Ordering::Greater) <==> self.pos(a.0) > self.pos(b.0),
    {
        proof {
            self.lemma_user_pos(a.0);
            self.lemma_user_pos(b.0);
        }
        if a.0 == b.0 {
            Ordering::Equal
        } else {
            let base_key = self.arena.base();
            proof {
                assert(self.arena.ring()[0] == base_key.0);
                assert(self.arena.contains_key(base_key.0));
            }
            let base_lab = self.arena.get(base_key).label.0;
            let ra = self.arena.get(a).label.wrapping_sub(Label(base_lab)).0;
            let rb = self.arena.get(b).label.wrapping_sub(Label(base_lab)).0;
            proof {
                let s = self.ring_labels();
                let n = s.len() as int;
                let pa = self.pos(a.0) + 1;
                let pb = self.pos(b.0) + 1;
                assert(ring_index(0, pa, n) == pa && ring_index(0, pb, n) == pb);
                assert(ra as int == rel_at(s, 0, pa));
                assert(rb as int == rel_at(s, 0, pb));
                if pa < pb {
                    assert(rel_at(s, 0, pa) < rel_at(s, 0, pb));
                } else {
                    assert(rel_at(s, 0, pb) < rel_at(s, 0, pa));
                }
            }
            if ra < rb {
                Ordering::Less
            } else {
                Ordering::Greater
            }
        }
    }


    /// Number of handles pointing at a live priority.
    pub fn handle_count(&self, k: PriorityKey) -> (n: usize)
        requires
            self.wf(),
            self.contains(k.0),
        ensures
            n == self.ref_count(k.0),
    {
        proof {
            self.lemma_user_pos(k.0);
        }
        self.arena.get(k).ref_count
    }

    /// Bump the reference count of a live priority; the order is untouched.
    pub fn clone_key(&mut self, k: PriorityKey)
        requires
            old(self).wf(),
            old(self).contains(k.0),
            old(self).ref_count(k.0) < usize::MAX,
        ensures
            final(self).wf(),
            final(self).keys() == old(self).keys(),
            final(self).ref_count(k.0) == old(self).ref_count(k.0) + 1,
            forall|x: usize|
                old(self).contains(x) && x != k.0 ==> final(self).ref_count(x) == old(self).ref_count(x),
    {
        proof {
            self.lemma_user_pos(k.0);
        }
        self.arena.ref_inc(k);
        proof {
            assert(self.ring_labels() =~= old(self).ring_labels());
        }
    }

    /// Drop one handle of a live priority. With other handles left the order
    /// is untouched; dropping the last handle removes the priority. The
    /// sentinel stays either way.
    pub fn release(&mut self, k: PriorityKey)
        requires
            old(self).wf(),
            old(self).contains(k.0),
        ensures
            final(self).wf(),
            old(self).ref_count(k.0) > 1 ==> final(self).keys() == old(self).keys() && final(self).ref_count(k.0) == old(self).ref_count(k.0) - 1,
            old(self).ref_count(k.0) == 1 ==> final(self).keys() == old(self).keys().remove(
                old(self).pos(k.0),
            ),
            forall|x: usize|
                old(self).contains(x) && x != k.0 ==> final(self).contains(x) && final(self).ref_count(x) == old(self).ref_count(x),
    {
        proof {
            self.lemma_user_pos(k.0);
        }
        let last = self.arena.ref_dec(k);
        proof {
            assert(self.ring_labels() =~= old(self).ring_labels());
        }
        if last {
            let ghost mid = *self;
            let ghost rp = self.pos(k.0) + 1;
            proof {
                assert(self.arena.pos(k.0) == rp);
            }
            self.arena.remove(k);
            proof {
                let r0 = mid.arena.ring();
                let r = self.arena.ring();
                let n0 = r0.len() as int;
                r0.remove_ensures(rp);
                assert(r[0] == r0[0]);
                assert forall|x: usize|
                    old(self).contains(x) && x != k.0 implies self.contains(x) by {
                    old(self).lemma_user_pos(x);
                    let i = old(self).pos(x) + 1;
                    if i < rp {
                        assert(r[i] == x);
                        assert(self.keys()[i - 1] == x);
                    } else {
                        assert(i > rp);
                        assert(r[i - 1] == x);
                        assert(self.keys()[i - 2] == x);
                    }
                }
                assert(self.keys() =~= mid.keys().remove(rp - 1));
                let s0 = mid.ring_labels();
                let s = self.ring_labels();
                assert(sorted_from(s, 0)) by {
                    assert forall|x: int, y: int| 0 <= x < y < s.len() implies rel_at(s, 0, x)
                        < rel_at(s, 0, y) by {
                        let fx = if x < rp {
                            x
                        } else {
                            x + 1
                        };
                        let fy = if y < rp {
                            y
                        } else {
                            y + 1
                        };
                        assert(r[x] == r0[fx] && r[y] == r0[fy]);
                        assert(s[x] == s0[fx] && s[y] == s0[fy]);
                        assert(ring_index(0, x, s.len() as int) == x);
                        assert(ring_index(0, fx, n0) == fx);
                        assert(rel_at(s, 0, x) == rel_at(s0, 0, fx));
                        assert(rel_at(s, 0, y) == rel_at(s0, 0, fy));
                        assert(rel_at(s0, 0, fx) < rel_at(s0, 0, fy));
                    }
                }
                assert forall|i: int|
                    0 <= i < r.len() implies (#[trigger] self.arena.node(r[i])).ref_count
                    >= 1 by {
                    let fi = if i < rp {
                        i
                    } else {
                        i + 1
                    };
                    assert(r[i] == r0[fi]);
                    assert(r0.contains(r0[fi]));
                }
            }
        }
    }

    /// Allocate a new priority directly after `p`: greater than `p`, and less
    /// than every priority that was greater than `p`.
    ///
    /// The walk from `p` measures how far labels have spread; once the spread
    /// outgrows the square of the number of nodes walked (or the walk comes
    /// full circle, standing for a whole turn), the walked stretch is
    /// re-spaced evenly over that spread and the new label is the midpoint of
    /// the first gap.
    #[verifier::rlimit(60)]
    pub fn insert(&mut self, p: PriorityKey) -> (q: PriorityKey)
        requires
            old(self).wf(),
            old(self).contains(p.0),
            old(self).keys().len() < usize::MAX - 1,
            old(self).keys().len() + 1 < 0x8000_0000_0000_0000,
        ensures
            final(self).wf(),
            !old(self).contains(q.0),
            final(self).keys() == old(self).keys().insert(old(self).pos(p.0) + 1, q.0),
            final(self).ref_count(q.0) == 1,
            forall|x: usize|
                old(self).contains(x) ==> #[trigger] final(self).ref_count(x) == old(
                    self,
                ).ref_count(x),
    {
        proof {
            self.lemma_user_pos(p.0);
            lemma_sorted_from_rotation(self.ring_labels(), 0, self.pos(p.0) + 1);
        }
        let ghost s0 = self.ring_labels();
        let ghost r0 = self.arena.ring();
        let ghost n = r0.len() as int;
        let ghost rp = self.pos(p.0) + 1;
        let ghost keys0 = self.keys();

        let p_lab = self.arena.get(p).label.0;
        proof {
            assert(p_lab == s0[rp]);
            lemma_ring_step(rp, 0, n);
            assert(ring_index(rp, 0, n) == rp);
        }

        // Measure: walk forward until the spread outgrows the square of the
        // distance walked, or the walk comes full circle back to `p`.
        let mut count: usize = 1;
        let mut cur: PriorityKey = self.arena.get(p).next;
        proof {
            assert(cur.0 == r0[ring_index(rp, 1, n)]);
            assert(r0.contains(cur.0));
        }
        let mut weight: u64 = self.arena.get(cur).label.wrapping_sub(Label(p_lab)).0;
        proof {
            assert(weight as int == rel_at(s0, rp, 1));
            assert(n >= 2);
            assert(rel_at(s0, rp, 0) == 0);
            assert(rel_at(s0, rp, 0) < rel_at(s0, rp, 1));
            assert((count as u128) * (count as u128) < 0x1_0000_0000_0000_0000_0000_0000_0000_0000)
                by (nonlinear_arith)
                requires
                    count < 0x8000_0000_0000_0000u128,
            ;
        }
        while weight != 0 && (weight as u128) <= (count as u128) * (count as u128)
            invariant
                self == old(self),
                self.wf(),
                s0 == self.ring_labels(),
                r0 == self.arena.ring(),
                n == r0.len() as int,
                2 <= n < 0x8000_0000_0000_0000,
                sorted_from(s0, rp),
                0 < rp < n,
                r0[rp] == p.0,
                p_lab == s0[rp],
                1 <= count <= n,
                (count as u128) * (count as u128) < 0x1_0000_0000_0000_0000_0000_0000_0000_0000,
                cur.0 == r0[ring_index(rp, count as int, n)],
                weight as int == rel_at(s0, rp, count as int),
                weight == 0 <==> count == n,
            decreases n - count,
        {
            proof {
                assert(count < n);
                assert(r0.contains(cur.0));
                lemma_ring_step(rp, count as int, n);
            }
            cur = self.arena.get(cur).next;
            count = count + 1;
            proof {
                assert(cur.0 == r0[ring_index(rp, count as int, n)]);
                assert(r0.contains(cur.0));
                assert((count as u128) * (count as u128)
                    < 0x1_0000_0000_0000_0000_0000_0000_0000_0000) by (nonlinear_arith)
                    requires
                        count < 0x8000_0000_0000_0000u128,
                ;
            }
            weight = self.arena.get(cur).label.wrapping_sub(Label(p_lab)).0;
            proof {
                assert(weight as int == rel_at(s0, rp, count as int));
                if count == n {
                    assert(ring_index(rp, count as int, n) == rp);
                    assert(rel_at(s0, rp, count as int) == 0);
                } else {
                    assert(rel_at(s0, rp, 0) < rel_at(s0, rp, count as int));
                }
            }
        }
        let ghost c = count as int;
        let ghost w_eff: int = if weight == 0 {
            label_modulus()
        } else {
            weight as int
        };
        proof {
            // the spread covers the walked stretch generously
            if weight != 0 {
                assert((weight as u128) > (count as u128) * (count as u128));
                assert((count as u128) * (count as u128) == c * c) by (nonlinear_arith)
                    requires
                        c == count as u128,
                ;
                assert(c * c >= c) by (nonlinear_arith)
                    requires
                        c >= 1,
                ;
                assert(w_eff > c * c >= c);
            } else {
                assert(c == n);
                assert(w_eff >= 2 * c);
            }
            assert(c >= 2 ==> c * c >= 2 * c) by (nonlinear_arith);
        }

        // Re-space: spread the walked nodes evenly over the measured weight.
        let mut j: usize = 1;
        let mut node_key: PriorityKey = self.arena.get(p).next;
        proof {
            lemma_ring_index_inverse(rp, rp, n);
        }
        while j < count
            invariant
                self.arena.wf(),
                self.arena.ring() == r0,
                self.arena.spec_base() == old(self).arena.spec_base(),
                n == r0.len() as int,
                2 <= n < 0x8000_0000_0000_0000,
                0 < rp < n,
                r0[rp] == p.0,
                r0[0] == self.arena.spec_base(),
                sorted_from(s0, rp),
                p_lab == s0[rp],
                1 <= count <= n,
                c == count as int,
                c <= w_eff <= label_modulus(),
                weight == 0 <==> count == n,
                weight != 0 ==> w_eff == weight as int && w_eff > c * c,
                weight == 0 ==> w_eff == label_modulus() && w_eff >= 2 * c,
                count as int == c,
                weight as int == rel_at(s0, rp, c),
                1 <= j <= count,
                j < count ==> node_key.0 == r0[ring_index(rp, j as int, n)],
                forall|i: int|
                    0 <= i < n ==> #[trigger] self.ring_labels()[i] == (if 1 <= steps(rp, i, n)
                        < j as int {
                        label_shift(p_lab, dspread(w_eff, c, steps(rp, i, n)))
                    } else {
                        s0[i]
                    }),
                forall|x: usize|
                    r0.contains(x) ==> #[trigger] self.arena.node(x).ref_count == old(
                        self,
                    ).arena.node(x).ref_count,
            decreases count - j,
        {
            proof {
                lemma_ring_index_inverse(rp, rp, n);
                assert(r0.contains(node_key.0));
                lemma_dspread(w_eff, c, j as int, c);
                assert((j as u128) * (weight as u128)
                    < 0x1_0000_0000_0000_0000_0000_0000_0000_0000) by (nonlinear_arith)
                    requires
                        j < 0x8000_0000_0000_0000u128,
                        weight <= 0xffff_ffff_ffff_ffffu128,
                ;
                assert((j as u128) * 0x1_0000_0000_0000_0000u128
                    < 0x1_0000_0000_0000_0000_0000_0000_0000_0000) by (nonlinear_arith)
                    requires
                        j < 0x8000_0000_0000_0000u128,
                ;
            }
            let dj: u64 = if weight == 0 {
                (((j as u128) * 0x1_0000_0000_0000_0000u128) / (count as u128)) as u64
            } else {
                (((j as u128) * (weight as u128)) / (count as u128)) as u64
            };
            proof {
                if weight == 0 {
                    assert((j as u128) * 0x1_0000_0000_0000_0000u128 == j * label_modulus())
                        by (nonlinear_arith)
                        requires
                            j < 0x8000_0000_0000_0000u128,
                    ;
                } else {
                    assert((j as u128) * (weight as u128) == j * (weight as int))
                        by (nonlinear_arith)
                        requires
                            j < 0x8000_0000_0000_0000u128,
                            weight <= 0xffff_ffff_ffff_ffffu128,
                    ;
                }
                assert(dj as int == dspread(w_eff, c, j as int));
                assert(dspread(w_eff, c, j as int) < label_modulus());
            }
            let new_label = Label(p_lab).wrapping_add(Label(dj)).0;
            proof {
                assert(new_label == label_shift(p_lab, dj as int));
            }
            let ghost before = *self;
            self.arena.relabel(node_key, Label(new_label));
            proof {
                let pos_j = ring_index(rp, j as int, n);
                assert(steps(rp, pos_j, n) == j as int);
                assert forall|i: int|
                    0 <= i < n && i != pos_j implies #[trigger] self.ring_labels()[i]
                    == before.ring_labels()[i] by {
                    assert(r0[i] != r0[pos_j]);
                    assert(self.arena.node(r0[i]) == before.arena.node(r0[i]));
                }
                assert(self.ring_labels()[pos_j] == new_label);
            }
            let nx = self.arena.get(node_key).next;
            proof {
                lemma_ring_step(rp, j as int, n);
                assert(nx.0 == r0[ring_index(rp, j as int + 1, n)]);
            }
            node_key = nx;
            j = j + 1;
        }

        // The walked stretch is now evenly spread; distances from `p` strictly
        // increase all the way around.
        let ghost s1 = self.ring_labels();
        proof {
            lemma_ring_index_inverse(rp, rp, n);
            assert(s1[rp] == s0[rp]);
            assert forall|x: int, y: int| 0 <= x < y < n implies rel_at(s1, rp, x) < rel_at(
                s1,
                rp,
                y,
            ) by {
                let px = ring_index(rp, x, n);
                let py = ring_index(rp, y, n);
                assert(steps(rp, px, n) == x && steps(rp, py, n) == y);
                if y < c {
                    lemma_dspread(w_eff, c, y, c);
                    if x == 0 {
                        lemma_dspread(w_eff, c, 0, y);
                        lemma_label_shift(p_lab, dspread(w_eff, c, y));
                        assert(rel_at(s1, rp, x) == 0);
                    } else {
                        lemma_dspread(w_eff, c, x, y);
                        lemma_label_shift(p_lab, dspread(w_eff, c, x));
                        lemma_label_shift(p_lab, dspread(w_eff, c, y));
                    }
                } else if x < c {
                    // y is past the walked stretch (so the walk stopped early)
                    assert(count < n);
                    assert(rel_at(s0, rp, c) <= rel_at(s0, rp, y));
                    assert(rel_at(s1, rp, y) == rel_at(s0, rp, y));
                    if x == 0 {
                        assert(rel_at(s1, rp, x) == 0);
                        assert(rel_at(s0, rp, 0) < rel_at(s0, rp, y));
                    } else {
                        lemma_dspread(w_eff, c, x, c);
                        lemma_label_shift(p_lab, dspread(w_eff, c, x));
                        assert(rel_at(s1, rp, x) == dspread(w_eff, c, x));
                        assert(dspread(w_eff, c, x) + w_eff / c <= dspread(w_eff, c, c));
                        assert(rel_at(s1, rp, x) < w_eff);
                    }
                } else {
                    assert(count < n);
                    assert(rel_at(s1, rp, x) == rel_at(s0, rp, x));
                    assert(rel_at(s1, rp, y) == rel_at(s0, rp, y));
                }
            }
            assert(sorted_from(s1, rp));
        }

        // Allocate at the midpoint of the gap right after `p`.
        proof {
            assert(self.arena.contains_key(p.0));
            assert(s1[rp] == p_lab);
        }
        let succ = self.arena.get(p).next;
        proof {
            lemma_ring_step(rp, 0, n);
            assert(succ.0 == r0[ring_index(rp, 1, n)]);
            assert(r0.contains(succ.0));
        }
        let succ_lab = self.arena.get(succ).label.0;
        let gap = Label(succ_lab).wrapping_sub(Label(p_lab)).0;
        proof {
            assert(gap as int == rel_at(s1, rp, 1));
            lemma_ring_index_inverse(rp, rp, n);
            if count == 1 {
                assert(steps(rp, ring_index(rp, 1, n), n) == 1);
                assert(s1[ring_index(rp, 1, n)] == s0[ring_index(rp, 1, n)]);
                assert(gap as int == rel_at(s0, rp, 1));
                assert(gap as int == w_eff);
                assert(w_eff > 1);
            } else {
                lemma_dspread(w_eff, c, 1, c);
                lemma_label_shift(p_lab, dspread(w_eff, c, 1));
                assert(gap as int == dspread(w_eff, c, 1));
                assert(1 * w_eff == w_eff) by (nonlinear_arith);
                assert(gap as int == w_eff / c);
                assert(w_eff >= 2 * c);
                vstd::arithmetic::div_mod::lemma_div_is_ordered(2 * c, w_eff, c);
                vstd::arithmetic::div_mod::lemma_div_multiples_vanish(2, c);
                assert(c * 2 == 2 * c) by (nonlinear_arith);
                assert(w_eff / c >= 2);
            }
            assert(gap >= 2);
        }
        let half = gap / 2;
        let new_lab = Label(p_lab).wrapping_add(Label(half)).0;
        proof {
            assert(1 <= half as int && (half as int) < gap as int);
            assert(new_lab == label_shift(p_lab, half as int));
            lemma_label_shift(p_lab, half as int);
        }
        let ghost pre = *self;
        let q = self.arena.insert_after(Label(new_lab), p);
        proof {
            let r2 = self.arena.ring();
            let s2 = self.ring_labels();
            let n2 = n + 1;
            r0.insert_ensures(rp + 1, q.0);
            assert(r2.len() == n2);
            assert forall|i: int| 0 <= i < n2 implies #[trigger] s2[i] == (if i < rp + 1 {
                s1[i]
            } else if i == rp + 1 {
                new_lab
            } else {
                s1[i - 1]
            }) by {
                if i < rp + 1 {
                    assert(r2[i] == r0[i]);
                    assert(r0.contains(r0[i]));
                } else if i == rp + 1 {
                    assert(r2[i] == q.0);
                } else {
                    assert(r2[i] == r0[i - 1]);
                    assert(r0.contains(r0[i - 1]));
                }
            }
            // distances from `p` still strictly increase with the new node in
            // the first gap
            assert forall|x: int, y: int| 0 <= x < y < n2 implies rel_at(s2, rp, x) < rel_at(
                s2,
                rp,
                y,
            ) by {
                lemma_rel_at_shifted(s1, s2, rp, x, new_lab);
                lemma_rel_at_shifted(s1, s2, rp, y, new_lab);
                if x == 0 {
                    assert(rel_at(s2, rp, x) == 0);
                }
                if y == 1 {
                    assert(x == 0);
                    assert(rel_at(s2, rp, 1) == half as int);
                } else if x == 1 {
                    assert(rel_at(s2, rp, x) == half as int);
                    assert(rel_at(s2, rp, y) == rel_at(s1, rp, y - 1));
                    assert(rel_at(s1, rp, 1) <= rel_at(s1, rp, y - 1));
                } else if x >= 2 {
                    assert(rel_at(s1, rp, x - 1) < rel_at(s1, rp, y - 1));
                } else {
                    // x == 0, y >= 2
                    assert(rel_at(s1, rp, 0) < rel_at(s1, rp, y - 1));
                }
            }
            assert(sorted_from(s2, rp));
            lemma_sorted_from_rotation(s2, rp, 0);
            assert(r2[0] == r0[0]);
            // the universe's order gains the new key right after `p`
            assert(self.keys() =~= keys0.insert(rp, q.0));
            assert forall|i: int|
                0 <= i < r2.len() implies (#[trigger] self.arena.node(r2[i])).ref_count >= 1 by {
                if i != rp + 1 {
                    let fi = if i < rp + 1 {
                        i
                    } else {
                        i - 1
                    };
                    assert(r2[i] == r0[fi]);
                    assert(r0.contains(r0[fi]));
                }
            }
            assert(!keys0.contains(q.0)) by {
                assert(!r0.contains(q.0));
                assert forall|i: int| 0 <= i < keys0.len() implies keys0[i] != q.0 by {
                    assert(keys0[i] == r0[i + 1]);
                    assert(r0.contains(r0[i + 1]));
                }
            }
        }
        q
    }
}

/// The order that `compare` decides — positional order — is a strict total
/// order on the live priorities of a universe: it never relates a priority to
/// itself, it relates any two distinct priorities one way exactly, and it is
/// transitive.
pub proof fn lemma_order_is_total(u: Universe, a: usize, b: usize, c: usize)
    requires
        u.wf(),
        u.contains(a),
        u.contains(b),
        u.contains(c),
    ensures
        !(u.pos(a) < u.pos(a)),
        a != b ==> (u.pos(a) < u.pos(b) <==> !(u.pos(b) < u.pos(a))),
        u.pos(a) < u.pos(b) && u.pos(b) < u.pos(c) ==> u.pos(a) < u.pos(c),
{
    u.lemma_pos_injective(a, b);
    u.lemma_pos_injective(b, c);
}

/// The priority at an earlier position compares less: positional order is
/// what `compare` answers, for every pair of positions.
pub proof fn lemma_positional_order(u: Universe, i: int, j: int)
    requires
        u.wf(),
        0 <= i < j < u.keys().len(),
    ensures
        u.contains(u.keys()[i]),
        u.contains(u.keys()[j]),
        u.pos(u.keys()[i]) == i,
        u.pos(u.keys()[j]) == j,
        u.pos(u.keys()[i]) < u.pos(u.keys()[j]),
{
    let ks = u.keys();
    assert(ks.contains(ks[i]));
    assert(ks.contains(ks[j]));
    u.lemma_pos_injective(ks[i], ks[j]);
    assert(ks[ks.index_of(ks[i])] == ks[i]);
}

/// The user-visible keys repeat no key: they are the ring past its sentinel.
proof fn lemma_keys_no_dup(u: Universe)
    requires
        u.wf(),
    ensures
        u.keys().no_duplicates(),
{
    let r = u.arena.ring();
    let ks = u.keys();
    assert forall|i: int, j: int|
        0 <= i < ks.len() && 0 <= j < ks.len() && i != j implies ks[i] != ks[j] by {
        assert(ks[i] == r[i + 1] && ks[j] == r[j + 1]);
    }
}

/// A fresh insert lands directly after its parent: the parent compares less
/// than the new priority, and every priority that was greater than the parent
/// is still greater than the new priority.
pub proof fn lemma_insert_adjacent(u0: Universe, u1: Universe, p: usize, q: usize)
    requires
        u0.wf(),
        u0.contains(p),
        !u0.contains(q),
        u1.keys() == u0.keys().insert(u0.pos(p) + 1, q),
    ensures
        u1.contains(p),
        u1.contains(q),
        u1.pos(p) == u0.pos(p),
        u1.pos(q) == u0.pos(p) + 1,
        u1.pos(p) < u1.pos(q),
        forall|x: usize|
            u0.contains(x) && u0.pos(p) < #[trigger] u0.pos(x) ==> u1.contains(x) && u1.pos(q)
                < u1.pos(x),
{
    u0.lemma_pos_injective(p, p);
    lemma_keys_no_dup(u0);
    let ip = u0.pos(p) + 1;
    crate::internal::lemma_insert_index_map(u0.keys(), u1.keys(), ip, q, p);
    assert forall|x: usize|
        u0.contains(x) && u0.pos(p) < #[trigger] u0.pos(x) implies u1.contains(x) && u1.pos(q)
        < u1.pos(x) by {
        u0.lemma_pos_injective(x, p);
        crate::internal::lemma_insert_index_map(u0.keys(), u1.keys(), ip, q, x);
    }
}

/// An insert never reorders the surviving priorities: whatever compared less
/// before still compares less.
pub proof fn lemma_insert_stable(u0: Universe, u1: Universe, p: usize, q: usize, a: usize, b: usize)
    requires
        u0.wf(),
        u0.contains(p),
        !u0.contains(q),
        u1.keys() == u0.keys().insert(u0.pos(p) + 1, q),
        u0.contains(a),
        u0.contains(b),
        u0.pos(a) < u0.pos(b),
    ensures
        u1.contains(a),
        u1.contains(b),
        u1.pos(a) < u1.pos(b),
{
    u0.lemma_pos_injective(p, p);
    lemma_keys_no_dup(u0);
    let ip = u0.pos(p) + 1;
    crate::internal::lemma_insert_index_map(u0.keys(), u1.keys(), ip, q, a);
    crate::internal::lemma_insert_index_map(u0.keys(), u1.keys(), ip, q, b);
}

/// Dropping a priority never reorders the survivors.
pub proof fn lemma_release_stable(u0: Universe, u1: Universe, k: usize, a: usize, b: usize)
    requires
        u0.wf(),
        u0.contains(k),
        u1.keys() == u0.keys().remove(u0.pos(k)),
        u0.contains(a),
        u0.contains(b),
        a != k,
        b != k,
        u0.pos(a) < u0.pos(b),
    ensures
        u1.contains(a),
        u1.contains(b),
        u1.pos(a) < u1.pos(b),
{
    u0.lemma_pos_injective(k, k);
    u0.lemma_pos_injective(a, b);
    lemma_keys_no_dup(u0);
    crate::internal::lemma_remove_index_map(u0.keys(), u1.keys(), u0.pos(k), a);
    crate::internal::lemma_remove_index_map(u0.keys(), u1.keys(), u0.pos(k), b);
}

/// How the distances from an anchor change when one label is inserted right
/// after it: the new label sits at distance one, everything else moves one
/// step further out.
proof fn lemma_rel_at_shifted(s1: Seq<u64>, s2: Seq<u64>, rp: int, m: int, new_lab: u64)
    requires
        0 <= rp < s1.len(),
        s2.len() == s1.len() + 1,
        0 <= m < s2.len(),
        forall|i: int|
            0 <= i < s2.len() ==> #[trigger] s2[i] == (if i < rp + 1 {
                s1[i]
            } else if i == rp + 1 {
                new_lab
            } else {
                s1[i - 1]
            }),
    ensures
        m == 0 ==> rel_at(s2, rp, m) == 0,
        m == 1 ==> rel_at(s2, rp, m) == rel(s1[rp], new_lab),
        m >= 2 ==> rel_at(s2, rp, m) == rel_at(s1, rp, m - 1),
{
    let n = s1.len() as int;
    let n2 = n + 1;
    assert(s2[rp] == s1[rp]);
    if m == 0 {
        assert(ring_index(rp, 0, n2) == rp);
    } else if m == 1 {
        assert(ring_index(rp, 1, n2) == rp + 1);
    } else {
        let v = ring_index(rp, m, n2);
        if rp + m < n2 {
            assert(v == rp + m && v > rp + 1);
            assert(s2[v] == s1[v - 1]);
            assert(ring_index(rp, m - 1, n) == rp + m - 1);
        } else {
            assert(v == rp + m - n2 && v < rp + 1);
            assert(s2[v] == s1[v]);
            assert(ring_index(rp, m - 1, n) == rp + m - 1 - n);
        }
    }
}

} // verus!
