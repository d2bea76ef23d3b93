//! The pads that a run has visited, as a set.

use crate::run::{finished, mark_finish, masked_pads, pad_mask};
use crate::slots::Key;
use std::collections::BTreeSet;
use vstd::laws_cmp::{group_laws_cmp, obeys_cmp};
use vstd::prelude::*;

verus! {

/// Keys are ordered, so a set of them is what it should be.
proof fn lemma_keys_are_ordered()
    ensures
        obeys_cmp::<Key>(),
{
    broadcast use group_laws_cmp;

}

/// How many pads there are in it.
pub fn count(visited: &BTreeSet<Key>) -> (r: usize)
    ensures
        r == visited@.len(),
{
    proof {
        lemma_keys_are_ordered();
    }
    visited.len()
}

/// Whether a pad is in it.
pub fn is_visited(visited: &BTreeSet<Key>, key: Key) -> (r: bool)
    ensures
        r == visited@.contains(key),
{
    proof {
        lemma_keys_are_ordered();
    }
    visited.contains(&key)
}

/// Adds a pad; whether it was missing.
pub fn visit(visited: &mut BTreeSet<Key>, key: Key) -> (r: bool)
    ensures
        r == !old(visited)@.contains(key),
        final(visited)@ == old(visited)@.insert(key),
{
    proof {
        lemma_keys_are_ordered();
    }
    visited.insert(key)
}

/// Whether some copy of the finish pad `slot` is in it.
pub fn has_finish(visited: &BTreeSet<Key>, slot: i64) -> (r: bool)
    ensures
        r == finished(visited@, slot),
{
    proof {
        lemma_keys_are_ordered();
    }
    let mut found: bool = false;
    for k in it: visited.iter()
        invariant
            it.seq().unref().to_set() == visited@,
            forall|x: Key| #[trigger]
                visited@.contains(x) ==> exists|j: int|
                    0 <= j < it.seq().len() && #[trigger] it.seq()[j] == x,
            found ==> finished(visited@, slot),
            !found ==> forall|j: int| 0 <= j < it.index() ==> (#[trigger] it.seq()[j]).0 != slot,
    {
        if k.0 == slot {
            assert(it.seq().unref()[it.index() as int] == *k);
            assert(visited@.contains(*k));
            found = true;
        }
    }
    found
}

/// Takes out every copy of the finish pad `slot`.
fn forget(visited: &mut BTreeSet<Key>, slot: i64)
    ensures
        final(visited)@ == old(visited)@.filter(|k: Key| k.0 != slot),
{
    proof {
        lemma_keys_are_ordered();
    }
    let mut kept: BTreeSet<Key> = BTreeSet::new();
    for k in it: visited.iter()
        invariant
            it.seq().unref().to_set() == visited@,
            forall|x: Key| #[trigger]
                visited@.contains(x) ==> exists|j: int|
                    0 <= j < it.seq().len() && #[trigger] it.seq()[j] == x,
            forall|x: Key| #[trigger] kept@.contains(x) ==> x.0 != slot && visited@.contains(x),
            forall|j: int|
                0 <= j < it.index() && (#[trigger] it.seq()[j]).0 != slot ==> kept@.contains(*it.seq()[j]),
    {
        assert(it.seq().unref()[it.index() as int] == *k);
        assert(visited@.contains(*k));
        if k.0 != slot {
            visit(&mut kept, *k);
        }
    }
    assert(kept@ =~= visited@.filter(|k: Key| k.0 != slot));
    *visited = kept;
}

/// Marks the finish pad `slot` visited or not.
pub fn set_finish(visited: &mut BTreeSet<Key>, slot: i64, on: bool)
    ensures
        final(visited)@ == mark_finish(old(visited)@, slot, on),
{
    if on {
        visit(visited, (slot, 0));
    } else {
        forget(visited, slot);
    }
}

/// The first `n` pads, as far as the mask has them.
pub fn from_mask(mask: u64, n: usize) -> (r: BTreeSet<Key>)
    requires
        n <= 64,
    ensures
        r@ == masked_pads(mask, n as nat),
{
    let mut r: BTreeSet<Key> = BTreeSet::new();
    let mut i: usize = 0;
    assert(masked_pads(mask, 0) =~= Set::<Key>::empty());
    while i < n
        invariant
            i <= n <= 64,
            r@ == masked_pads(mask, i as nat),
        decreases n - i,
    {
        if mask & (1u64 << (i as u64)) != 0 {
            visit(&mut r, (i as i64, 0));
        }
        assert(r@ =~= masked_pads(mask, (i + 1) as nat)) by {
            assert forall|k: Key| r@.contains(k) <==> masked_pads(mask, (i + 1) as nat).contains(k) by {}
        }
        i = i + 1;
    }
    r
}

/// The first `n` pads, as a mask.
pub fn to_mask(visited: &BTreeSet<Key>, n: usize) -> (r: u64)
    requires
        n <= 64,
    ensures
        r == pad_mask(visited@, n as nat),
{
    let mut r: u64 = 0;
    let mut i: usize = 0;
    while i < n
        invariant
            i <= n <= 64,
            r == pad_mask(visited@, i as nat),
        decreases n - i,
    {
        if is_visited(visited, (i as i64, 0)) {
            r = r | (1u64 << (i as u64));
        }
        i = i + 1;
    }
    r
}

} // verus!
