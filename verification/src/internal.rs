//! Internal representation and memory management of priorities.
//!
//! An [`Arena`] owns the nodes of one universe. The nodes form a circular
//! doubly-linked list, kept in a slab and addressed by stable integer keys.
//! The traversal order of that list, starting from a distinguished first
//! node, is the ghost sequence [`Arena::ring`]: every structural contract is
//! stated over it.

use vstd::prelude::*;
use slab::Slab;
use crate::label::Label;
use crate::store::{slab_view, slab_new, slab_get, slab_set, slab_insert, slab_remove};

verus! {

/// Index of a priority in the priority arena.
#[derive(Debug, Clone, Copy, PartialEq, Eq, Structural)]
pub struct PriorityKey(pub usize);

impl PriorityKey {
    /// Unwrap the underlying index type.
    pub fn key(&self) -> (k: usize)
        ensures
            k == self.0,
    {
        self.0
    }
}

/// Contains the actual data of a priority: its place in the circular linked
/// list, its label, and how many handles point at it.
#[derive(Debug, Clone, Copy, PartialEq, Eq, Structural)]
pub struct PriorityInner {
    /// Key of the next priority in the linked list.
    pub next: PriorityKey,
    /// Key of the previous priority in the linked list.
    pub prev: PriorityKey,
    /// Label that is used to numerically compare priorities.
    pub label: Label,
    /// Reference count; the node is deallocated when this reaches zero.
    pub ref_count: usize,
}

impl PriorityInner {
    pub fn next(&self) -> (k: PriorityKey)
        ensures
            k == self.next,
    {
        self.next
    }

    pub fn set_next(&mut self, next: PriorityKey)
        ensures
            *final(self) == (PriorityInner { next, ..*old(self) }),
    {
        self.next = next;
    }

    pub fn prev(&self) -> (k: PriorityKey)
        ensures
            k == self.prev,
    {
        self.prev
    }

    pub fn set_prev(&mut self, prev: PriorityKey)
        ensures
            *final(self) == (PriorityInner { prev, ..*old(self) }),
    {
        self.prev = prev;
    }

    pub fn label(&self) -> (l: Label)
        ensures
            l == self.label,
    {
        self.label
    }

    pub fn set_label(&mut self, label: Label)
        ensures
            *final(self) == (PriorityInner { label, ..*old(self) }),
    {
        self.label = label;
    }

    /// Increment the reference count.
    pub fn ref_inc(&mut self)
        requires
            old(self).ref_count < usize::MAX,
        ensures
            *final(self) == (PriorityInner {
                ref_count: (old(self).ref_count + 1) as usize,
                ..*old(self)
            }),
    {
        self.ref_count = self.ref_count + 1;
    }

    /// Decrement the reference count; returns true when it reaches zero
    /// (time to deallocate).
    pub fn ref_dec(&mut self) -> (zero: bool)
        requires
            old(self).ref_count >= 1,
        ensures
            *final(self) == (PriorityInner {
                ref_count: (old(self).ref_count - 1) as usize,
                ..*old(self)
            }),
            zero == (old(self).ref_count == 1),
    {
        self.ref_count = self.ref_count - 1;
        self.ref_count == 0
    }
}

/// Membership in a sequence with one element inserted.
pub(crate) proof fn lemma_seq_insert_contains<A>(s: Seq<A>, i: int, a: A, x: A)
    requires
        0 <= i <= s.len(),
    ensures
        s.insert(i, a).contains(x) <==> (s.contains(x) || x == a),
{
    s.insert_ensures(i, a);
    let t = s.insert(i, a);
    if t.contains(x) {
        let j = choose|j: int| 0 <= j < t.len() && t[j] == x;
        if j < i {
            assert(s[j] == x);
        } else if j == i {
            assert(x == a);
        } else {
            assert(s[j - 1] == x);
        }
    }
    if s.contains(x) {
        let j = choose|j: int| 0 <= j < s.len() && s[j] == x;
        if j < i {
            assert(t[j] == x);
        } else {
            assert(t[j + 1] == x);
        }
    }
    if x == a {
        assert(t[i] == x);
    }
}

/// Membership in a duplicate-free sequence with one element removed.
pub(crate) proof fn lemma_seq_remove_contains<A>(s: Seq<A>, i: int, x: A)
    requires
        0 <= i < s.len(),
        s.no_duplicates(),
    ensures
        s.remove(i).contains(x) <==> (s.contains(x) && x != s[i]),
{
    s.remove_ensures(i);
    let t = s.remove(i);
    if t.contains(x) {
        let j = choose|j: int| 0 <= j < t.len() && t[j] == x;
        if j < i {
            assert(s[j] == x);
        } else {
            assert(s[j + 1] == x);
        }
    }
    if s.contains(x) && x != s[i] {
        let j = choose|j: int| 0 <= j < s.len() && s[j] == x;
        if j < i {
            assert(t[j] == x);
        } else {
            assert(j > i);
            assert(t[j - 1] == x);
        }
    }
}

/// Where each element of a duplicate-free sequence lands when a fresh one is
/// inserted: everything from the insertion point on moves one place up.
pub proof fn lemma_insert_index_map(ks0: Seq<usize>, ks1: Seq<usize>, ip: int, q: usize, x: usize)
    requires
        ks0.no_duplicates(),
        !ks0.contains(q),
        0 <= ip <= ks0.len(),
        ks1 == ks0.insert(ip, q),
        ks0.contains(x),
    ensures
        ks1.contains(x),
        ks1.contains(q),
        ks1.index_of(q) == ip,
        ks1.index_of(x) == if ks0.index_of(x) < ip {
            ks0.index_of(x)
        } else {
            ks0.index_of(x) + 1
        },
{
    ks0.insert_ensures(ip, q);
    let p0 = ks0.index_of(x);
    assert(0 <= p0 < ks0.len() && ks0[p0] == x);
    let f = if p0 < ip {
        p0
    } else {
        p0 + 1
    };
    assert(ks1[f] == x);
    assert(ks1[ip] == q);
    assert(ks1.contains(x) && ks1.contains(q));
    let p1 = ks1.index_of(x);
    assert(0 <= p1 < ks1.len() && ks1[p1] == x);
    assert forall|i: int, j: int|
        0 <= i < ks1.len() && 0 <= j < ks1.len() && i != j implies ks1[i] != ks1[j] by {
        let fi = if i < ip {
            i
        } else {
            i - 1
        };
        let fj = if j < ip {
            j
        } else {
            j - 1
        };
        if i == ip {
            assert(ks1[j] == ks0[fj]);
            assert(ks0.contains(ks0[fj]));
        } else if j == ip {
            assert(ks1[i] == ks0[fi]);
            assert(ks0.contains(ks0[fi]));
        } else {
            assert(ks1[i] == ks0[fi] && ks1[j] == ks0[fj]);
        }
    }
    assert(p1 == f);
    let pq = ks1.index_of(q);
    assert(0 <= pq < ks1.len() && ks1[pq] == q);
    assert(pq == ip);
}

/// Where each surviving element of a duplicate-free sequence lands when one
/// is removed: everything past the removal point moves one place down.
pub proof fn lemma_remove_index_map(ks0: Seq<usize>, ks1: Seq<usize>, ip: int, x: usize)
    requires
        ks0.no_duplicates(),
        0 <= ip < ks0.len(),
        ks1 == ks0.remove(ip),
        ks0.contains(x),
        x != ks0[ip],
    ensures
        ks1.contains(x),
        ks1.index_of(x) == if ks0.index_of(x) < ip {
            ks0.index_of(x)
        } else {
            ks0.index_of(x) - 1
        },
{
    ks0.remove_ensures(ip);
    let p0 = ks0.index_of(x);
    assert(0 <= p0 < ks0.len() && ks0[p0] == x);
    assert(p0 != ip);
    let f = if p0 < ip {
        p0
    } else {
        p0 - 1
    };
    assert(ks1[f] == x);
    assert(ks1.contains(x));
    assert forall|i: int, j: int|
        0 <= i < ks1.len() && 0 <= j < ks1.len() && i != j implies ks1[i] != ks1[j] by {
        let fi = if i < ip {
            i
        } else {
            i + 1
        };
        let fj = if j < ip {
            j
        } else {
            j + 1
        };
        assert(ks1[i] == ks0[fi] && ks1[j] == ks0[fj]);
    }
    let p1 = ks1.index_of(x);
    assert(0 <= p1 < ks1.len() && ks1[p1] == x);
    assert(p1 == f);
}

/// Shared state between all priorities that can be compared.
pub struct Arena {
    /// Total number of priorities allocated in this arena.
    pub(crate) total: usize,
    /// Internal store of priorities, indexed by key.
    pub(crate) priorities: Slab<PriorityInner>,
    /// Key of the node the circular list was started with.
    pub(crate) base: PriorityKey,
    /// The keys of the live nodes, in traversal order of the circular list.
    pub(crate) ring: Ghost<Seq<usize>>,
}

impl Arena {
    /// The keys of the live nodes, in traversal order of the circular list.
    pub open(crate) spec fn ring(self) -> Seq<usize> {
        self.ring@
    }

    /// The node stored under a (live) key.
    pub open(crate) spec fn node(self, k: usize) -> PriorityInner {
        slab_view(self.priorities)[k]
    }

    /// Whether a key addresses a live node.
    pub open(crate) spec fn contains_key(self, k: usize) -> bool {
        self.ring@.contains(k)
    }

    /// The key the arena was started with.
    pub open(crate) spec fn spec_base(self) -> usize {
        self.base.0
    }

    /// Ring position of a live key.
    pub open(crate) spec fn pos(self, k: usize) -> int {
        self.ring@.index_of(k)
    }

    /// Structural well-formedness: the ring lists each live key exactly once,
    /// the node count matches, and the `next`/`prev` links trace the ring
    /// forward and backward, wrapping at its ends.
    pub open(crate) spec fn wf(self) -> bool {
        let r = self.ring@;
        let m = slab_view(self.priorities);
        &&& m.dom().finite()
        &&& forall|k: usize| m.dom().contains(k) <==> #[trigger] r.contains(k)
        &&& r.no_duplicates()
        &&& self.total == r.len()
        &&& forall|i: int|
            0 <= i < r.len() ==> (#[trigger] m[r[i]]).next.0 == r[if i + 1 == r.len() {
                0int
            } else {
                i + 1
            }]
        &&& forall|i: int|
            0 <= i < r.len() ==> (#[trigger] m[r[i]]).prev.0 == r[if i == 0 {
                r.len() - 1
            } else {
                i - 1
            }]
    }

    /// A live key is in the store.
    proof fn lemma_contained_key_in_dom(self, k: usize)
        requires
            self.wf(),
            self.contains_key(k),
        ensures
            slab_view(self.priorities).dom().contains(k),
    {
    }

    /// The ring position of a live key is well defined and unique.
    pub proof fn lemma_pos(self, k: usize)
        requires
            self.wf(),
            self.contains_key(k),
        ensures
            0 <= self.pos(k) < self.ring().len(),
            self.ring()[self.pos(k)] == k,
            forall|i: int| 0 <= i < self.ring().len() && self.ring()[i] == k ==> i == self.pos(k),
    {
        let r = self.ring@;
        assert(exists|i: int| 0 <= i < r.len() && r[i] == k);
        let p = r.index_of(k);
        assert(0 <= p < r.len() && r[p] == k);
    }

    /// Construct a new arena to allocate priorities in.
    ///
    /// Comes pre-allocated with a base priority carrying label `0`.
    pub fn new() -> (a: Arena)
        ensures
            a.wf(),
            a.ring().len() == 1,
            a.spec_base() == a.ring()[0],
            a.node(a.ring()[0]).label.0 == 0,
            a.node(a.ring()[0]).ref_count == 1,
    {
        let mut priorities = slab_new();
        let placeholder = PriorityInner {
            next: PriorityKey(0),
            prev: PriorityKey(0),
            label: Label(0),
            ref_count: 1,
        };
        let base_key = slab_insert(&mut priorities, placeholder);
        let base_node = PriorityInner {
            next: PriorityKey(base_key),
            prev: PriorityKey(base_key),
            label: Label(0),
            ref_count: 1,
        };
        slab_set(&mut priorities, base_key, base_node);
        let ghost initial_ring: Seq<usize> = seq![base_key];
        let a = Arena {
            total: 1,
            priorities,
            base: PriorityKey(base_key),
            ring: Ghost(initial_ring),
        };
        proof {
            let r = a.ring@;
            let m = slab_view(a.priorities);
            assert(r[0] == base_key);
            assert(m.dom() =~= set![base_key]);
            assert(forall|k: usize| m.dom().contains(k) <==> #[trigger] r.contains(k)) by {
                assert(r.contains(base_key));
                assert(forall|k: usize| #[trigger] r.contains(k) ==> k == base_key);
            }
            assert(m[base_key] == base_node);
        }
        a
    }

    /// Get the base key of the arena.
    pub fn base(&self) -> (k: PriorityKey)
        ensures
            k.0 == self.spec_base(),
    {
        self.base
    }

    /// Retrieve a reference to a priority from the priorities store using a key.
    pub fn get(&self, key: PriorityKey) -> (n: &PriorityInner)
        requires
            self.wf(),
            self.contains_key(key.0),
        ensures
            *n == self.node(key.0),
    {
        proof {
            self.lemma_contained_key_in_dom(key.0);
        }
        slab_get(&self.priorities, key.0)
    }

    /// Total number of priorities allocated in this arena.
    pub fn total(&self) -> (n: usize)
        requires
            self.wf(),
        ensures
            n == self.ring().len(),
    {
        self.total
    }

    /// Insert a new priority into the priorities store, splicing it into the
    /// circular list directly after `prev_key`.
    pub fn insert_after(&mut self, label: Label, prev_key: PriorityKey) -> (new_key: PriorityKey)
        requires
            old(self).wf(),
            old(self).contains_key(prev_key.0),
            old(self).ring().len() < usize::MAX,
        ensures
            final(self).wf(),
            !old(self).contains_key(new_key.0),
            final(self).ring() == old(self).ring().insert(
                old(self).pos(prev_key.0) + 1,
                new_key.0,
            ),
            final(self).spec_base() == old(self).spec_base(),
            final(self).node(new_key.0).label == label,
            final(self).node(new_key.0).ref_count == 1,
            forall|k: usize|
                old(self).contains_key(k) ==> (#[trigger] final(self).node(k)).label == old(
                    self,
                ).node(k).label && final(self).node(k).ref_count == old(self).node(k).ref_count,
    {
        proof {
            self.lemma_contained_key_in_dom(prev_key.0);
            self.lemma_pos(prev_key.0);
        }
        let ghost r0 = self.ring@;
        let ghost m0 = slab_view(self.priorities);
        let ghost p = self.pos(prev_key.0);
        let next_key = self.get(prev_key).next;
        proof {
            // the successor of `prev_key` is the next ring entry, so it is live
            assert(next_key.0 == r0[if p + 1 == r0.len() {
                0int
            } else {
                p + 1
            }]);
            self.lemma_contained_key_in_dom(next_key.0);
        }
        let node = PriorityInner { next: next_key, prev: prev_key, label, ref_count: 1 };
        let nk = slab_insert(&mut self.priorities, node);
        let mut pn = *slab_get(&self.priorities, prev_key.0);
        pn.set_next(PriorityKey(nk));
        slab_set(&mut self.priorities, prev_key.0, pn);
        let mut nn = *slab_get(&self.priorities, next_key.0);
        nn.set_prev(PriorityKey(nk));
        slab_set(&mut self.priorities, next_key.0, nn);
        self.total = self.total + 1;
        proof {
            self.ring@ = r0.insert(p + 1, nk);
        }
        proof {
            let r = self.ring@;
            let m = slab_view(self.priorities);
            let n0 = r0.len() as int;
            assert(!r0.contains(nk));
            r0.insert_ensures(p + 1, nk);
            assert(m.dom() =~= m0.dom().insert(nk));
            assert forall|k: usize| m.dom().contains(k) <==> #[trigger] r.contains(k) by {
                lemma_seq_insert_contains(r0, p + 1, nk, k);
            }
            assert(r.no_duplicates()) by {
                assert forall|i: int, j: int|
                    0 <= i < r.len() && 0 <= j < r.len() && i != j implies r[i] != r[j] by {
                    let fi = if i <= p { i } else { i - 1 };
                    let fj = if j <= p { j } else { j - 1 };
                    if i == p + 1 {
                        assert(r[j] == r0[fj]);
                        assert(r0.contains(r0[fj]));
                    } else if j == p + 1 {
                        assert(r[i] == r0[fi]);
                        assert(r0.contains(r0[fi]));
                    } else {
                        assert(r[i] == r0[fi] && r[j] == r0[fj]);
                    }
                }
            }
            // every node reachable in the new ring is keyed by prev, next, the
            // new node, or an untouched key
            assert forall|i: int| 0 <= i < r.len() implies (#[trigger] m[r[i]]).next.0 == r[if i + 1
                == r.len() {
                0int
            } else {
                i + 1
            }] && m[r[i]].prev.0 == r[if i == 0 {
                r.len() - 1
            } else {
                i - 1
            }] by {
                let x = r[i];
                let succ = r[if i + 1 == r.len() {
                    0int
                } else {
                    i + 1
                }];
                let pred = r[if i == 0 {
                    r.len() - 1
                } else {
                    i - 1
                }];
                if i == p + 1 {
                    // the new node
                    assert(x == nk);
                    assert(m[x] == node);
                } else {
                    let fi = if i <= p { i } else { i - 1 };
                    assert(x == r0[fi]);
                    assert(r0.contains(x));
                    if x == prev_key.0 && x == next_key.0 {
                        // the ring had one node; it now points at the new one
                        // both ways
                        assert(fi == p && p == 0 && n0 == 1);
                        assert(m[x] == nn);
                        assert(m[x].next.0 == nk && m[x].prev.0 == nk);
                        assert(succ == nk && pred == nk);
                    } else if x == prev_key.0 {
                        assert(fi == p);
                        assert(i == p);
                        assert(m[x] == pn);
                        assert(succ == nk);
                    } else if x == next_key.0 {
                        assert(m[x].next == m0[x].next && m[x].prev.0 == nk);
                        if p + 1 == n0 {
                            assert(fi == 0 && i == 0);
                            assert(pred == r[r.len() - 1] && r[r.len() - 1] == nk);
                        } else {
                            assert(fi == p + 1);
                            assert(i == p + 2);
                            assert(pred == r[p + 1] && r[p + 1] == nk);
                        }
                    } else {
                        assert(m[x] == m0[x]);
                    }
                }
            }
        }
        PriorityKey(nk)
    }

    /// Remove a priority from the priorities store, unlinking it from the
    /// circular list.
    pub fn remove(&mut self, key: PriorityKey)
        requires
            old(self).wf(),
            old(self).contains_key(key.0),
        ensures
            final(self).wf(),
            final(self).ring() == old(self).ring().remove(old(self).pos(key.0)),
            final(self).spec_base() == old(self).spec_base(),
            forall|k: usize|
                old(self).contains_key(k) && k != key.0 ==> (#[trigger] final(self).node(
                    k,
                )).label == old(self).node(k).label && final(self).node(k).ref_count == old(
                    self,
                ).node(k).ref_count,
    {
        proof {
            self.lemma_contained_key_in_dom(key.0);
            self.lemma_pos(key.0);
        }
        let ghost r0 = self.ring@;
        let ghost m0 = slab_view(self.priorities);
        let ghost p = self.pos(key.0);
        let ghost n0 = r0.len() as int;
        if self.total > 2 {
            let prio = *self.get(key);
            let next_key = prio.next;
            let prev_key = prio.prev;
            proof {
                assert(next_key.0 == r0[if p + 1 == n0 {
                    0int
                } else {
                    p + 1
                }]);
                assert(prev_key.0 == r0[if p == 0 {
                    n0 - 1
                } else {
                    p - 1
                }]);
                self.lemma_contained_key_in_dom(next_key.0);
                self.lemma_contained_key_in_dom(prev_key.0);
            }
            let mut nn = *slab_get(&self.priorities, next_key.0);
            nn.set_prev(prev_key);
            slab_set(&mut self.priorities, next_key.0, nn);
            let mut pn = *slab_get(&self.priorities, prev_key.0);
            pn.set_next(next_key);
            slab_set(&mut self.priorities, prev_key.0, pn);
        } else if self.total == 2 {
            let last_key = self.get(key).next;
            proof {
                assert(last_key.0 == r0[if p + 1 == n0 {
                    0int
                } else {
                    p + 1
                }]);
                self.lemma_contained_key_in_dom(last_key.0);
            }
            let mut last = *slab_get(&self.priorities, last_key.0);
            last.set_next(last_key);
            last.set_prev(last_key);
            slab_set(&mut self.priorities, last_key.0, last);
        }
        proof {
            assert(slab_view(self.priorities).dom() =~= m0.dom());
        }
        slab_remove(&mut self.priorities, key.0);
        self.total = self.total - 1;
        proof {
            self.ring@ = r0.remove(p);
        }
        proof {
            let r = self.ring@;
            let m = slab_view(self.priorities);
            r0.remove_ensures(p);
            assert(m.dom() =~= m0.dom().remove(key.0));
            assert forall|k: usize| m.dom().contains(k) <==> #[trigger] r.contains(k) by {
                lemma_seq_remove_contains(r0, p, k);
            }
            assert(r.no_duplicates()) by {
                assert forall|i: int, j: int|
                    0 <= i < r.len() && 0 <= j < r.len() && i != j implies r[i] != r[j] by {
                    let fi = if i < p { i } else { i + 1 };
                    let fj = if j < p { j } else { j + 1 };
                    assert(r[i] == r0[fi] && r[j] == r0[fj]);
                }
            }
            assert forall|i: int| 0 <= i < r.len() implies (#[trigger] m[r[i]]).next.0 == r[if i + 1
                == r.len() {
                0int
            } else {
                i + 1
            }] && m[r[i]].prev.0 == r[if i == 0 {
                r.len() - 1
            } else {
                i - 1
            }] by {
                let x = r[i];
                let fi = if i < p { i } else { i + 1 };
                assert(x == r0[fi]);
                assert(r0.contains(x));
                assert(x != key.0);
                if n0 == 2 {
                    // one survivor, linked to itself
                    assert(r.len() == 1 && i == 0);
                } else {
                    let old_next = m0[x].next.0;
                    let old_prev = m0[x].prev.0;
                    assert(old_next == r0[if fi + 1 == n0 {
                        0int
                    } else {
                        fi + 1
                    }]);
                    assert(old_prev == r0[if fi == 0 {
                        n0 - 1
                    } else {
                        fi - 1
                    }]);
                    if old_next == key.0 {
                        assert(m[x].next.0 == m0[key.0].next.0);
                    } else {
                        assert(m[x].next.0 == old_next);
                    }
                    if old_prev == key.0 {
                        assert(m[x].prev.0 == m0[key.0].prev.0);
                    } else {
                        assert(m[x].prev.0 == old_prev);
                    }
                }
            }
        }
    }

    /// Overwrite the label of a live node; the list structure, the other
    /// nodes, and the node's own links and reference count are untouched.
    pub fn relabel(&mut self, key: PriorityKey, label: Label)
        requires
            old(self).wf(),
            old(self).contains_key(key.0),
        ensures
            final(self).wf(),
            final(self).ring() == old(self).ring(),
            final(self).spec_base() == old(self).spec_base(),
            final(self).node(key.0) == (PriorityInner { label, ..old(self).node(key.0) }),
            forall|k: usize|
                old(self).contains_key(k) && k != key.0 ==> final(self).node(k) == old(
                    self,
                ).node(k),
    {
        proof {
            self.lemma_contained_key_in_dom(key.0);
        }
        let mut n2 = *slab_get(&self.priorities, key.0);
        n2.set_label(label);
        slab_set(&mut self.priorities, key.0, n2);
        proof {
            let r = self.ring@;
            let m0 = slab_view(old(self).priorities);
            let m = slab_view(self.priorities);
            assert(m.dom() =~= m0.dom());
            assert forall|i: int| 0 <= i < r.len() implies (#[trigger] m[r[i]]).next
                == m0[r[i]].next && m[r[i]].prev == m0[r[i]].prev by {
                if r[i] == key.0 {
                    assert(m[r[i]] == n2);
                } else {
                    assert(m[r[i]] == m0[r[i]]);
                }
            }
        }
    }

    /// Increment the reference count of a live node.
    pub fn ref_inc(&mut self, key: PriorityKey)
        requires
            old(self).wf(),
            old(self).contains_key(key.0),
            old(self).node(key.0).ref_count < usize::MAX,
        ensures
            final(self).wf(),
            final(self).ring() == old(self).ring(),
            final(self).spec_base() == old(self).spec_base(),
            final(self).node(key.0) == (PriorityInner {
                ref_count: (old(self).node(key.0).ref_count + 1) as usize,
                ..old(self).node(key.0)
            }),
            forall|k: usize|
                old(self).contains_key(k) && k != key.0 ==> final(self).node(k) == old(
                    self,
                ).node(k),
    {
        proof {
            self.lemma_contained_key_in_dom(key.0);
        }
        let mut n = *slab_get(&self.priorities, key.0);
        n.ref_inc();
        slab_set(&mut self.priorities, key.0, n);
        proof {
            let r = self.ring@;
            let m0 = slab_view(old(self).priorities);
            let m = slab_view(self.priorities);
            assert(m.dom() =~= m0.dom());
            assert forall|i: int| 0 <= i < r.len() implies (#[trigger] m[r[i]]).next
                == m0[r[i]].next && m[r[i]].prev == m0[r[i]].prev by {
                if r[i] != key.0 {
                    assert(m[r[i]] == m0[r[i]]);
                }
            }
        }
    }

    /// Decrement the reference count of a live node; returns true when it
    /// reaches zero (time to deallocate).
    pub fn ref_dec(&mut self, key: PriorityKey) -> (zero: bool)
        requires
            old(self).wf(),
            old(self).contains_key(key.0),
            old(self).node(key.0).ref_count >= 1,
        ensures
            final(self).wf(),
            final(self).ring() == old(self).ring(),
            final(self).spec_base() == old(self).spec_base(),
            final(self).node(key.0) == (PriorityInner {
                ref_count: (old(self).node(key.0).ref_count - 1) as usize,
                ..old(self).node(key.0)
            }),
            forall|k: usize|
                old(self).contains_key(k) && k != key.0 ==> final(self).node(k) == old(
                    self,
                ).node(k),
            zero == (old(self).node(key.0).ref_count == 1),
    {
        proof {
            self.lemma_contained_key_in_dom(key.0);
        }
        let mut n = *slab_get(&self.priorities, key.0);
        let zero = n.ref_dec();
        slab_set(&mut self.priorities, key.0, n);
        proof {
            let r = self.ring@;
            let m0 = slab_view(old(self).priorities);
            let m = slab_view(self.priorities);
            assert(m.dom() =~= m0.dom());
            assert forall|i: int| 0 <= i < r.len() implies (#[trigger] m[r[i]]).next
                == m0[r[i]].next && m[r[i]].prev == m0[r[i]].prev by {
                if r[i] != key.0 {
                    assert(m[r[i]] == m0[r[i]]);
                }
            }
        }
        zero
    }
}

} // verus!
