//! The physics engine's collider set, as far as the sliding windows use it.
//!
//! Colliders and bodies are built elsewhere and are opaque here. What is known
//! of a set is which of them it holds, under which handle each stands, and
//! which colliders are part of a body.

use rapier2d::dynamics::{IslandManager, RigidBody, RigidBodyHandle, RigidBodySet};
use rapier2d::geometry::{Collider, ColliderHandle, ColliderSet};
use vstd::prelude::*;

verus! {

/// An engine handle: index and generation.
pub type Handle = (u32, u32);

#[verifier::external_type_specification]
#[verifier::external_body]
pub struct ExColliderSet(ColliderSet);

#[verifier::external_type_specification]
#[verifier::external_body]
pub struct ExCollider(Collider);

#[verifier::external_type_specification]
#[verifier::external_body]
pub struct ExIslandManager(IslandManager);

#[verifier::external_type_specification]
#[verifier::external_body]
pub struct ExRigidBodySet(RigidBodySet);

#[verifier::external_type_specification]
#[verifier::external_body]
pub struct ExRigidBody(RigidBody);

/// The parentless colliders of a set. Each is given, under its handle, by the
/// colliders that it is a copy of: those that equal it but for what a set
/// keeps in a collider for itself, which is the link to a parent, the flags of
/// pending changes and the place in the broad phase.
pub uninterp spec fn free_colliders(set: ColliderSet) -> Map<Handle, Set<Collider>>;

/// The colliders of a set that are part of a body. Each is given, under its
/// handle, by that body's handle and by the colliders that it is a copy of; its
/// place, which follows the body, does not count either.
pub uninterp spec fn bound_colliders(set: ColliderSet) -> Map<Handle, (Handle, Set<Collider>)>;

/// How many colliders have been removed from a set.
pub uninterp spec fn removal_count(set: ColliderSet) -> nat;

/// The bodies of a set. Each is given, under its handle, by the bodies that it
/// is a copy of: those that equal it but for what is kept in a body on account
/// of the set and of the colliders attached to it, which is the list of these,
/// the mass and the extent that they give it, its place among the islands
/// and the flags of pending changes.
pub uninterp spec fn bodies_in(set: RigidBodySet) -> Map<Handle, Set<RigidBody>>;

/// `ColliderSet::new`: nothing in it, nothing removed yet.
#[verifier::external_body]
pub(crate) fn empty_colliders() -> (r: ColliderSet)
    ensures
        free_colliders(r).dom() == Set::<Handle>::empty(),
        bound_colliders(r).dom() == Set::<Handle>::empty(),
        removal_count(r) == 0,
{
    ColliderSet::new()
}

/// `ColliderSet::insert`: a copy of the collider joins without a parent, under
/// a handle that no collider of the set had; the others stay as they are.
#[verifier::external_body]
pub(crate) fn insert_collider(set: &mut ColliderSet, c: Collider) -> (h: Handle)
    ensures
        !free_colliders(*old(set)).dom().contains(h),
        free_colliders(*final(set)).dom().contains(h),
        free_colliders(*final(set))[h].contains(c),
        free_colliders(*final(set)).remove(h) == free_colliders(*old(set)),
        bound_colliders(*final(set)) == bound_colliders(*old(set)),
        removal_count(*final(set)) == removal_count(*old(set)),
{
    set.insert(c).into_raw_parts()
}

/// `ColliderSet::remove` of a parentless collider, waking nothing: the
/// collider leaves, and bodies and islands stay as they are. The set counts
/// its removals in 32 bits.
#[verifier::external_body]
pub(crate) fn remove_collider(set: &mut ColliderSet, h: Handle, islands: &mut IslandManager, bodies: &mut RigidBodySet)
    requires
        free_colliders(*old(set)).dom().contains(h),
        removal_count(*old(set)) < u32::MAX,
    ensures
        free_colliders(*final(set)) == free_colliders(*old(set)).remove(h),
        bound_colliders(*final(set)) == bound_colliders(*old(set)),
        removal_count(*final(set)) == removal_count(*old(set)) + 1,
        *final(islands) == *old(islands),
        *final(bodies) == *old(bodies),
{
    set.remove(ColliderHandle::from_raw_parts(h.0, h.1), islands, bodies, false);
}

/// `ColliderSet::insert_with_parent`: a copy of the collider joins as part of
/// the body `parent`, under a handle that no collider of the set had; the other
/// colliders stay as they are, and the bodies but for what a new collider
/// changes in them.
#[verifier::external_body]
pub(crate) fn attach_collider(set: &mut ColliderSet, c: Collider, parent: Handle, bodies: &mut RigidBodySet) -> (h: Handle)
    requires
        bodies_in(*old(bodies)).dom().contains(parent),
    ensures
        !bound_colliders(*old(set)).dom().contains(h),
        bound_colliders(*final(set)).dom().contains(h),
        bound_colliders(*final(set))[h].0 == parent,
        bound_colliders(*final(set))[h].1.contains(c),
        bound_colliders(*final(set)).remove(h) == bound_colliders(*old(set)),
        free_colliders(*final(set)) == free_colliders(*old(set)),
        removal_count(*final(set)) == removal_count(*old(set)),
        bodies_in(*final(bodies)) == bodies_in(*old(bodies)),
{
    set.insert_with_parent(c, RigidBodyHandle::from_raw_parts(parent.0, parent.1), bodies)
        .into_raw_parts()
}

/// `RigidBodySet::new`: no bodies.
#[verifier::external_body]
pub(crate) fn empty_bodies() -> (r: RigidBodySet)
    ensures
        bodies_in(r).dom() == Set::<Handle>::empty(),
{
    RigidBodySet::new()
}

/// `RigidBodySet::insert`: a copy of the body joins under a handle that no body
/// of the set had; the others stay as they are.
#[verifier::external_body]
pub(crate) fn insert_body(set: &mut RigidBodySet, b: RigidBody) -> (h: Handle)
    ensures
        !bodies_in(*old(set)).dom().contains(h),
        bodies_in(*final(set)).dom().contains(h),
        bodies_in(*final(set))[h].contains(b),
        bodies_in(*final(set)).remove(h) == bodies_in(*old(set)),
{
    set.insert(b).into_raw_parts()
}

/// `IslandManager::new`. Nothing is claimed of what it returns.
#[verifier::external_body]
pub(crate) fn empty_islands() -> IslandManager {
    IslandManager::new()
}

} // verus!
