//! The arena's backing store: a slab of nodes with stable integer keys.
//!
//! The slab itself comes from the `slab` crate; the items below state, as
//! trusted contracts, what the store's operations do to its contents. The
//! contents are named by [`slab_view`]: the map from occupied keys to the
//! nodes stored under them.

use vstd::prelude::*;
use slab::Slab;
use crate::internal::PriorityInner;

verus! {

#[verifier::external_type_specification]
#[verifier::external_body]
#[verifier::reject_recursive_types(T)]
pub struct ExSlab<T>(slab::Slab<T>);

/// A slab of priority nodes.
pub type NodeSlab = Slab<PriorityInner>;

/// What a slab of nodes holds: each occupied key, mapped to its node.
pub uninterp spec fn slab_view(s: NodeSlab) -> Map<usize, PriorityInner>;

/// Relies on slab::Slab::new: the new slab is empty.
#[verifier::external_body]
pub(crate) fn slab_new() -> (s: NodeSlab)
    ensures
        slab_view(s) =~= Map::empty(),
{
    Slab::new()
}

/// Relies on slab::Slab::insert: the value is stored under a key that was
/// vacant before the call.
#[verifier::external_body]
pub(crate) fn slab_insert(s: &mut Slab<PriorityInner>, v: PriorityInner) -> (k: usize)
    ensures
        !slab_view(*old(s)).dom().contains(k),
        slab_view(*final(s)) == slab_view(*old(s)).insert(k, v),
{
    s.insert(v)
}

/// Relies on slab::Slab::get: an occupied key yields the value stored under it.
#[verifier::external_body]
pub(crate) fn slab_get(s: &Slab<PriorityInner>, k: usize) -> (v: &PriorityInner)
    requires
        slab_view(*s).dom().contains(k),
    ensures
        *v == slab_view(*s)[k],
{
    s.get(k).unwrap()
}

/// Relies on slab::Slab::get_mut: writing through it replaces the value
/// stored under an occupied key.
#[verifier::external_body]
pub(crate) fn slab_set(s: &mut Slab<PriorityInner>, k: usize, v: PriorityInner)
    requires
        slab_view(*old(s)).dom().contains(k),
    ensures
        slab_view(*final(s)) == slab_view(*old(s)).insert(k, v),
{
    *s.get_mut(k).unwrap() = v;
}

/// Relies on slab::Slab::remove: the key is released and its value returned.
#[verifier::external_body]
pub(crate) fn slab_remove(s: &mut Slab<PriorityInner>, k: usize) -> (v: PriorityInner)
    requires
        slab_view(*old(s)).dom().contains(k),
    ensures
        v == slab_view(*old(s))[k],
        slab_view(*final(s)) == slab_view(*old(s)).remove(k),
{
    s.remove(k)
}

} // verus!
