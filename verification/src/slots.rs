//! A window of loaded slots: what is in it, in key order, and which engine
//! collider belongs to which slot.

use crate::colliders::{
    bound_colliders, free_colliders, insert_collider, removal_count, remove_collider, Handle,
};
use rapier2d::dynamics::{IslandManager, RigidBodySet};
use rapier2d::geometry::{Collider, ColliderSet};
use vstd::prelude::*;

verus! {

/// A slot's key: two numbers, ordered by the first and then the second.
pub type Key = (i64, i64);

pub open spec fn key_lt(a: Key, b: Key) -> bool {
    a.0 < b.0 || (a.0 == b.0 && a.1 < b.1)
}

/// One loaded slot: its colliders, and what it holds.
pub struct Loaded<V> {
    pub key: Key,
    pub handles: Vec<Handle>,
    pub item: V,
}

/// The loaded slots of one kind, in key order.
pub struct Window<V> {
    pub slots: Vec<Loaded<V>>,
}

/// Keys strictly ascending.
pub open spec fn ascending<V>(s: Seq<Loaded<V>>) -> bool {
    forall|i: int, j: int| 0 <= i < j < s.len() ==> key_lt(#[trigger] s[i].key, #[trigger] s[j].key)
}

pub open spec fn has_key<V>(s: Seq<Loaded<V>>, k: Key) -> bool {
    exists|i: int| 0 <= i < s.len() && #[trigger] s[i].key == k
}

/// Which kind of slot a collider belongs to.
#[derive(Clone, Copy, PartialEq, Eq, Debug, Structural)]
pub enum Kind {
    Cave,
    Shaft,
    Obstacle,
    Pad,
    Fixed,
}

/// The slot that a collider belongs to, and its place among the slot's own.
pub struct Owner {
    pub kind: Kind,
    pub key: Key,
    pub place: int,
}

/// One operation on the engine's collider set.
pub enum Op {
    /// Part `place` of the ship is attached.
    Attach { place: int },
    /// Collider `place` of a slot enters.
    Enter { kind: Kind, key: Key, place: int },
    /// Collider `place` of a slot leaves.
    Leave { kind: Kind, key: Key, place: int },
}

/// The `n` colliders of a slot enter in order.
pub open spec fn entering(kind: Kind, key: Key, n: nat) -> Seq<Op> {
    Seq::new(n, |j: int| Op::Enter { kind, key, place: j })
}

/// The `n` colliders of a slot leave in order.
pub open spec fn leaving(kind: Kind, key: Key, n: nat) -> Seq<Op> {
    Seq::new(n, |j: int| Op::Leave { kind, key, place: j })
}

/// Slots enter one after the other.
pub open spec fn entries<V>(kind: Kind, s: Seq<Loaded<V>>) -> Seq<Op>
    decreases s.len(),
{
    if s.len() == 0 {
        seq![]
    } else {
        entries(kind, s.drop_last()) + entering(kind, s.last().key, s.last().handles@.len())
    }
}

/// Slots leave one after the other.
pub open spec fn exits<V>(kind: Kind, s: Seq<Loaded<V>>) -> Seq<Op>
    decreases s.len(),
{
    if s.len() == 0 {
        seq![]
    } else {
        exits(kind, s.drop_last()) + leaving(kind, s.last().key, s.last().handles@.len())
    }
}

/// Every collider of every slot is registered to it.
pub open spec fn registered<V>(s: Seq<Loaded<V>>, kind: Kind, o: Map<Handle, Owner>) -> bool {
    forall|i: int, j: int|
        0 <= i < s.len() && 0 <= j < s[i].handles@.len() ==> {
            let h = #[trigger] s[i].handles@[j];
            o.dom().contains(h) && o[h] == (Owner { kind, key: s[i].key, place: j })
        }
}

/// Slot `i` holds `h` at place `j`.
pub open spec fn holds_at<V>(s: Seq<Loaded<V>>, i: int, key: Key, j: int, h: Handle) -> bool {
    0 <= i < s.len() && s[i].key == key && 0 <= j < s[i].handles@.len() && s[i].handles@[j] == h
}

/// Every collider registered to this kind stands in its slot.
pub open spec fn accounted<V>(s: Seq<Loaded<V>>, kind: Kind, o: Map<Handle, Owner>) -> bool {
    forall|h: Handle|
        #[trigger] o.dom().contains(h) && o[h].kind == kind ==> exists|i: int| #[trigger]
            holds_at(s, i, o[h].key, o[h].place, h)
}

/// Slots and register agree: a collider belongs to one slot at most, and none
/// is left over.
pub open spec fn in_step<V>(s: Seq<Loaded<V>>, kind: Kind, o: Map<Handle, Owner>) -> bool {
    ascending(s) && registered(s, kind, o) && accounted(s, kind, o)
}

/// Two registers agree on one kind.
pub open spec fn same_kind(o: Map<Handle, Owner>, p: Map<Handle, Owner>, kind: Kind) -> bool {
    forall|h: Handle|
        (#[trigger] o.dom().contains(h) && o[h].kind == kind) ==> p.dom().contains(h) && p[h] == o[h]
}

/// Two registers agree on every kind but one.
pub open spec fn same_but(o: Map<Handle, Owner>, p: Map<Handle, Owner>, kind: Kind) -> bool {
    forall|k: Kind| k != kind ==> #[trigger] same_kind(o, p, k) && same_kind(p, o, k)
}

pub proof fn lemma_other_kind<V>(s: Seq<Loaded<V>>, o: Map<Handle, Owner>, p: Map<Handle, Owner>, changed: Kind, kind: Kind)
    requires
        in_step(s, kind, o),
        same_but(o, p, changed),
        kind != changed,
    ensures
        in_step(s, kind, p),
{
    assert(same_kind(o, p, kind) && same_kind(p, o, kind));
    assert forall|i: int, j: int| 0 <= i < s.len() && 0 <= j < s[i].handles@.len() implies {
        let h = #[trigger] s[i].handles@[j];
        p.dom().contains(h) && p[h] == (Owner { kind, key: s[i].key, place: j })
    } by {
        let h = s[i].handles@[j];
        assert(o.dom().contains(h));
    }
    assert forall|h: Handle| #[trigger] p.dom().contains(h) && p[h].kind == kind implies exists|i: int| #[trigger]
        holds_at(s, i, p[h].key, p[h].place, h) by {
        assert(o.dom().contains(h));
    }
}

/// The engine's side of the world: its colliders, bodies and islands, and the
/// body that is the ship.
pub struct World {
    pub colliders: ColliderSet,
    pub bodies: RigidBodySet,
    pub islands: IslandManager,
    pub ship: Handle,
    /// How many colliders have been removed so far.
    pub removed: u32,
    /// What has been done to the collider set, in order. The engine numbers
    /// its handles by this, so two worlds with one history number them alike.
    pub log: Ghost<Seq<Op>>,
}

impl World {
    pub open spec fn free(&self) -> Map<Handle, Set<Collider>> {
        free_colliders(self.colliders)
    }

    pub open spec fn removals(&self) -> nat {
        removal_count(self.colliders)
    }

    /// The bodies with their colliders, the islands and the ship are those of
    /// `o`: nothing but parentless colliders differs.
    pub open spec fn same_bodies(&self, o: &World) -> bool {
        &&& self.bodies == o.bodies
        &&& bound_colliders(self.colliders) == bound_colliders(o.colliders)
        &&& self.islands == o.islands
        &&& self.ship == o.ship
    }
}

/// The register names exactly the parentless colliders of the world, and the
/// count of removals is right.
pub open spec fn complete(world: &World, o: Map<Handle, Owner>) -> bool {
    o.dom() == world.free().dom() && world.removals() == world.removed
}

/// How many colliders a run of slots holds.
pub open spec fn load<V>(s: Seq<Loaded<V>>) -> nat
    decreases s.len(),
{
    if s.len() == 0 {
        0
    } else {
        load(s.drop_last()) + s.last().handles@.len()
    }
}

/// The slots that `keep` keeps, in order.
pub open spec fn kept<V>(s: Seq<Loaded<V>>, keep: spec_fn(Key, V) -> bool) -> Seq<Loaded<V>>
    decreases s.len(),
{
    if s.len() == 0 {
        seq![]
    } else if keep(s.last().key, s.last().item) {
        kept(s.drop_last(), keep).push(s.last())
    } else {
        kept(s.drop_last(), keep)
    }
}

/// What `keep` does not keep.
pub open spec fn unless<V>(keep: spec_fn(Key, V) -> bool) -> spec_fn(Key, V) -> bool {
    |k: Key, v: V| !keep(k, v)
}

/// The slots whose keys lie in a span.
pub open spec fn within<V>(span: spec_fn(Key) -> bool) -> spec_fn(Key, V) -> bool {
    |k: Key, v: V| span(k)
}

/// The keys that `s` lacks.
pub open spec fn absent<V>(s: Seq<Loaded<V>>) -> spec_fn(Key) -> bool {
    |k: Key| !has_key(s, k)
}

/// The number by which a block of slots is gone through line by line.
pub open spec fn line_of(k: Key, swap: bool) -> int {
    if swap {
        k.1 as int
    } else {
        k.0 as int
    }
}

/// The slots of one line that `p` picks.
pub open spec fn in_line<V>(line: int, swap: bool, p: spec_fn(Key) -> bool) -> spec_fn(Key, V) -> bool {
    |k: Key, v: V| line_of(k, swap) == line && p(k)
}

/// The slots that `p` picks, line by line from `lo` to `hi`.
pub open spec fn rows<V>(s: Seq<Loaded<V>>, lo: int, hi: int, swap: bool, p: spec_fn(Key) -> bool) -> Seq<Loaded<V>>
    decreases hi - lo + 1,
{
    if hi < lo {
        seq![]
    } else {
        rows(s, lo, hi - 1, swap, p) + kept(s, in_line(hi, swap, p))
    }
}

/// What a window's move from `s` to `t` does to the collider set: what lies
/// outside the span leaves in key order, then what is new enters line by line.
pub open spec fn moves<V>(kind: Kind, s: Seq<Loaded<V>>, t: Seq<Loaded<V>>, lo: int, hi: int, swap: bool, span: spec_fn(Key) -> bool) -> Seq<Op> {
    exits(kind, kept(s, unless(within(span)))) + entries(kind, rows(t, lo, hi, swap, absent(s)))
}

pub open spec fn has_slot<V>(s: Seq<Loaded<V>>, e: Loaded<V>) -> bool {
    exists|i: int| 0 <= i < s.len() && #[trigger] s[i] == e
}

/// What `kept` keeps, and nothing else.
pub proof fn lemma_kept<V>(s: Seq<Loaded<V>>, keep: spec_fn(Key, V) -> bool)
    ensures
        forall|e: Loaded<V>| #[trigger] has_slot(kept(s, keep), e) <==> has_slot(s, e) && keep(e.key, e.item),
        ascending(s) ==> ascending(kept(s, keep)),
    decreases s.len(),
{
    if s.len() > 0 {
        let t = s.drop_last();
        let r = kept(t, keep);
        let l = s.last();
        lemma_kept(t, keep);
        assert forall|e: Loaded<V>| #[trigger] has_slot(kept(s, keep), e) <==> has_slot(s, e) && keep(e.key, e.item) by {
            if has_slot(s, e) && keep(e.key, e.item) {
                let i = choose|i: int| 0 <= i < s.len() && #[trigger] s[i] == e;
                if i < t.len() {
                    assert(t[i] == e);
                    assert(has_slot(r, e));
                    let j = choose|j: int| 0 <= j < r.len() && #[trigger] r[j] == e;
                    assert(kept(s, keep)[j] == e);
                } else {
                    assert(kept(s, keep)[r.len() as int] == e);
                }
            }
            if has_slot(kept(s, keep), e) {
                let q = kept(s, keep);
                let i = choose|i: int| 0 <= i < q.len() && #[trigger] q[i] == e;
                if i < r.len() {
                    assert(r[i] == e);
                    assert(has_slot(r, e));
                    assert(has_slot(t, e));
                    let j = choose|j: int| 0 <= j < t.len() && #[trigger] t[j] == e;
                    assert(s[j] == e);
                } else {
                    assert(s[s.len() - 1] == e);
                }
            }
        }
        if ascending(s) {
            assert(ascending(t));
            let q = kept(s, keep);
            assert forall|i: int, j: int| 0 <= i < j < q.len() implies key_lt(#[trigger] q[i].key, #[trigger] q[j].key) by {
                if j == r.len() {
                    assert(r[i] == q[i]);
                    assert(has_slot(r, q[i]));
                    assert(has_slot(t, q[i]));
                    let m = choose|m: int| 0 <= m < t.len() && #[trigger] t[m] == q[i];
                    assert(s[m].key == q[i].key && s[s.len() - 1].key == q[j].key);
                } else {
                    assert(r[i] == q[i] && r[j] == q[j]);
                }
            }
        }
    }
}

proof fn lemma_load_remove<V>(s: Seq<Loaded<V>>, i: int)
    requires
        0 <= i < s.len(),
    ensures
        load(s.remove(i)) + s[i].handles@.len() == load(s),
    decreases s.len(),
{
    if i == s.len() - 1 {
        assert(s.remove(i) =~= s.drop_last());
    } else {
        let t = s.drop_last();
        lemma_load_remove(t, i);
        assert(s.remove(i).drop_last() =~= t.remove(i));
        assert(s.remove(i).last() == s.last());
    }
}

/// Two runs of slots with the same keys line up.
pub proof fn lemma_same_keys<V, W>(a: Seq<Loaded<V>>, b: Seq<Loaded<W>>)
    requires
        ascending(a),
        ascending(b),
        forall|k: Key|
            #![trigger has_key(a, k)]
            #![trigger has_key(b, k)]
            has_key(a, k) <==> has_key(b, k),
    ensures
        a.len() == b.len(),
        forall|i: int| 0 <= i < a.len() ==> #[trigger] a[i].key == b[i].key,
    decreases a.len(),
{
    if a.len() > 0 {
        let k = a.last().key;
        assert(has_key(a, k));
        assert(has_key(b, k));
        let j = choose|j: int| 0 <= j < b.len() && #[trigger] b[j].key == k;
        let l = b.last().key;
        assert(b[b.len() - 1].key == l);
        assert(has_key(b, l));
        let i = choose|i: int| 0 <= i < a.len() && #[trigger] a[i].key == l;
        if j < b.len() - 1 {
            assert(key_lt(b[j].key, b[b.len() - 1].key));
            if i < a.len() - 1 {
                assert(key_lt(a[i].key, a[a.len() - 1].key));
            }
        }
        assert(k == l);
        let (c, d) = (a.drop_last(), b.drop_last());
        assert forall|x: Key|
            #![trigger has_key(c, x)]
            #![trigger has_key(d, x)]
            has_key(c, x) <==> has_key(d, x) by {
            if has_key(c, x) {
                let m = choose|m: int| 0 <= m < c.len() && #[trigger] c[m].key == x;
                assert(a[m].key == x);
                assert(key_lt(a[m].key, a[a.len() - 1].key));
                assert(has_key(a, x));
                let n = choose|n: int| 0 <= n < b.len() && #[trigger] b[n].key == x;
                assert(d[n].key == x);
            }
            if has_key(d, x) {
                let m = choose|m: int| 0 <= m < d.len() && #[trigger] d[m].key == x;
                assert(b[m].key == x);
                assert(key_lt(b[m].key, b[b.len() - 1].key));
                assert(has_key(b, x));
                let n = choose|n: int| 0 <= n < a.len() && #[trigger] a[n].key == x;
                assert(c[n].key == x);
            }
        }
        lemma_same_keys(c, d);
        assert forall|m: int| 0 <= m < a.len() implies #[trigger] a[m].key == b[m].key by {
            if m < a.len() - 1 {
                assert(c[m].key == d[m].key);
            }
        }
    } else if b.len() > 0 {
        assert(b[0].key == b[0].key);
        assert(has_key(b, b[0].key));
        assert(has_key(a, b[0].key));
    }
}

/// Two runs of the same slots are the same.
pub proof fn lemma_same_slots<V>(a: Seq<Loaded<V>>, b: Seq<Loaded<V>>)
    requires
        ascending(a),
        ascending(b),
        forall|e: Loaded<V>|
            #![trigger has_slot(a, e)]
            #![trigger has_slot(b, e)]
            has_slot(a, e) <==> has_slot(b, e),
    ensures
        a == b,
{
    assert forall|k: Key|
            #![trigger has_key(a, k)]
            #![trigger has_key(b, k)]
            has_key(a, k) <==> has_key(b, k) by {
        if has_key(a, k) {
            let i = choose|i: int| 0 <= i < a.len() && #[trigger] a[i].key == k;
            assert(has_slot(a, a[i]));
            let j = choose|j: int| 0 <= j < b.len() && #[trigger] b[j] == a[i];
            assert(b[j].key == k);
        }
        if has_key(b, k) {
            let i = choose|i: int| 0 <= i < b.len() && #[trigger] b[i].key == k;
            assert(has_slot(b, b[i]));
            let j = choose|j: int| 0 <= j < a.len() && #[trigger] a[j] == b[i];
            assert(a[j].key == k);
        }
    }
    lemma_same_keys(a, b);
    assert forall|i: int| 0 <= i < a.len() implies a[i] == b[i] by {
        assert(has_slot(a, a[i]));
        let j = choose|j: int| 0 <= j < b.len() && #[trigger] b[j] == a[i];
        assert(a[i].key == b[i].key);
        if i < j {
            assert(key_lt(b[i].key, b[j].key));
        } else if j < i {
            assert(key_lt(b[j].key, b[i].key));
        }
    }
    assert(a =~= b);
}

pub proof fn lemma_entries_add<V>(kind: Kind, a: Seq<Loaded<V>>, b: Seq<Loaded<V>>)
    ensures
        entries(kind, a + b) == entries(kind, a) + entries(kind, b),
    decreases b.len(),
{
    if b.len() == 0 {
        assert(a + b =~= a);
        assert(entries(kind, a) + entries(kind, b) =~= entries(kind, a));
    } else {
        lemma_entries_add(kind, a, b.drop_last());
        assert((a + b).drop_last() =~= a + b.drop_last());
        assert((a + b).last() == b.last());
        assert(entries(kind, a + b) =~= entries(kind, a) + entries(kind, b));
    }
}

/// Lines that hold the same slots read the same.
pub proof fn lemma_rows_same<V>(t: Seq<Loaded<V>>, u: Seq<Loaded<V>>, lo: int, hi: int, swap: bool, p: spec_fn(Key) -> bool, q: spec_fn(Key) -> bool)
    requires
        ascending(t),
        ascending(u),
        forall|e: Loaded<V>|
            #![trigger has_slot(t, e)]
            #![trigger has_slot(u, e)]
            lo <= line_of(e.key, swap) <= hi ==> (has_slot(t, e) && p(e.key) <==> has_slot(u, e) && q(e.key)),
    ensures
        rows(t, lo, hi, swap, p) == rows(u, lo, hi, swap, q),
    decreases hi - lo + 1,
{
    if lo <= hi {
        lemma_rows_same(t, u, lo, hi - 1, swap, p, q);
        lemma_kept(t, in_line::<V>(hi, swap, p));
        lemma_kept(u, in_line::<V>(hi, swap, q));
        let (a, b) = (kept(t, in_line(hi, swap, p)), kept(u, in_line(hi, swap, q)));
        assert forall|e: Loaded<V>|
            #![trigger has_slot(a, e)]
            #![trigger has_slot(b, e)]
            has_slot(a, e) <==> has_slot(b, e) by {
            assert(has_slot(t, e) || !has_slot(t, e));
            assert(has_slot(u, e) || !has_slot(u, e));
        }
        lemma_same_slots(a, b);
    }
}

/// Nothing in a window is new to it.
pub proof fn lemma_nothing_new<V>(s: Seq<Loaded<V>>, lo: int, hi: int, swap: bool)
    ensures
        rows(s, lo, hi, swap, absent(s)) == Seq::<Loaded<V>>::empty(),
    decreases hi - lo + 1,
{
    if lo <= hi {
        lemma_nothing_new(s, lo, hi - 1, swap);
        lemma_kept(s, in_line::<V>(hi, swap, absent(s)));
        let a = kept(s, in_line(hi, swap, absent(s)));
        if a.len() > 0 {
            assert(has_slot(a, a[0]));
            assert(has_slot(s, a[0]));
            let i = choose|i: int| 0 <= i < s.len() && #[trigger] s[i] == a[0];
            assert(s[i].key == a[0].key);
            assert(has_key(s, a[0].key));
        }
        assert(a =~= Seq::empty());
        assert(rows(s, lo, hi, swap, absent(s)) =~= Seq::empty());
    }
}

/// Takes the colliders of one slot out of the world.
fn unload(handles: &Vec<Handle>, world: &mut World, Ghost(kind): Ghost<Kind>, Ghost(key): Ghost<Key>)
    requires
        forall|j: int| 0 <= j < handles.len() ==> old(world).free().dom().contains(#[trigger] handles@[j]),
        forall|i: int, j: int| 0 <= i < j < handles.len() ==> handles@[i] != handles@[j],
        old(world).removals() == old(world).removed,
        old(world).removals() + handles.len() <= u32::MAX,
    ensures
        final(world).free() == old(world).free().remove_keys(handles@.to_set()),
        final(world).removals() == old(world).removals() + handles.len(),
        final(world).removals() == final(world).removed,
        final(world).same_bodies(old(world)),
        final(world).log@ == old(world).log@ + leaving(kind, key, handles@.len()),
{
    let ghost w0 = *world;
    let mut j: usize = 0;
    assert(world.log@ =~= w0.log@ + leaving(kind, key, 0));
    assert(handles@.subrange(0, 0).to_set() =~= Set::empty());
    assert(world.free() =~= w0.free().remove_keys(Set::empty()));
    while j < handles.len()
        invariant
            j <= handles.len(),
            forall|i: int| 0 <= i < handles.len() ==> w0.free().dom().contains(#[trigger] handles@[i]),
            forall|i: int, k: int| 0 <= i < k < handles.len() ==> handles@[i] != handles@[k],
            world.free() == w0.free().remove_keys(handles@.subrange(0, j as int).to_set()),
            world.removals() == w0.removals() + j,
            world.removals() == world.removed,
            w0.removals() + handles.len() <= u32::MAX,
            world.same_bodies(&w0),
            world.log@ == w0.log@ + leaving(kind, key, j as nat),
        decreases handles.len() - j,
    {
        let h: Handle = handles[j];
        proof {
            let before = handles@.subrange(0, j as int);
            assert(!before.contains(h));
            assert(w0.free().dom().contains(handles@[j as int]));
            let after = handles@.subrange(0, j + 1);
            assert(after =~= before.push(h));
            assert(after.to_set() =~= before.to_set().insert(h)) by {
                assert forall|x: Handle| after.to_set().contains(x) <==> before.to_set().insert(h).contains(x) by {
                    if after.contains(x) {
                        let i = choose|i: int| 0 <= i < after.len() && after[i] == x;
                        if i < before.len() {
                            assert(before[i] == x);
                        }
                    }
                    if before.contains(x) {
                        let i = choose|i: int| 0 <= i < before.len() && before[i] == x;
                        assert(after[i] == x);
                    }
                    assert(after[j as int] == h);
                }
            }
        }
        remove_collider(&mut world.colliders, h, &mut world.islands, &mut world.bodies);
        world.removed = world.removed + 1;
        world.log = Ghost(world.log@.push(Op::Leave { kind, key, place: j as int }));
        assert(world.log@ =~= w0.log@ + leaving(kind, key, (j + 1) as nat));
        assert(world.free() =~= w0.free().remove_keys(handles@.subrange(0, j + 1).to_set()));
        j = j + 1;
    }
    assert(handles@.subrange(0, handles.len() as int) =~= handles@);
}

/// Evicts every slot whose flag is not set, in key order.
pub(crate) fn evict<V>(
    win: &mut Window<V>,
    world: &mut World,
    flags: &Vec<bool>,
    Ghost(keep): Ghost<spec_fn(Key, V) -> bool>,
    Ghost(kind): Ghost<Kind>,
    owners: &mut Ghost<Map<Handle, Owner>>,
)
    requires
        flags.len() == old(win).slots.len(),
        forall|i: int|
            0 <= i < flags.len() ==> #[trigger] flags@[i] == keep(
                old(win).slots@[i].key,
                old(win).slots@[i].item,
            ),
        in_step(old(win).slots@, kind, old(owners)@),
        complete(old(world), old(owners)@),
        old(world).removals() + load(old(win).slots@) <= u32::MAX,
    ensures
        final(win).slots@ == kept(old(win).slots@, keep),
        in_step(final(win).slots@, kind, final(owners)@),
        same_but(old(owners)@, final(owners)@, kind),
        complete(final(world), final(owners)@),
        forall|h: Handle| #[trigger]
            final(world).free().dom().contains(h) ==> old(world).free().dom().contains(h)
                && final(world).free()[h] == old(world).free()[h],
        final(world).removals() <= old(world).removals() + load(old(win).slots@),
        final(world).same_bodies(old(world)),
        final(world).log@ == old(world).log@ + exits(kind, kept(old(win).slots@, unless(keep))),
{
    let ghost s0 = win.slots@;
    let ghost w0 = *world;
    let ghost o0 = owners@;
    let n: usize = flags.len();
    let mut i: usize = 0;
    let mut j: usize = 0;
    assert(s0.subrange(0, 0) =~= Seq::empty());
    assert(win.slots@ =~= kept(s0.subrange(0, 0), keep) + s0.subrange(0, n as int));
    assert(world.log@ =~= w0.log@ + exits(kind, kept(s0.subrange(0, 0), unless(keep))));
    while j < n
        invariant
            i <= j <= n,
            n == flags.len(),
            n == s0.len(),
            forall|k: int| 0 <= k < n ==> #[trigger] flags@[k] == keep(s0[k].key, s0[k].item),
            i == kept(s0.subrange(0, j as int), keep).len(),
            win.slots@ == kept(s0.subrange(0, j as int), keep) + s0.subrange(j as int, n as int),
            in_step(win.slots@, kind, owners@),
            same_but(o0, owners@, kind),
            complete(world, owners@),
            forall|h: Handle| #[trigger]
                world.free().dom().contains(h) ==> w0.free().dom().contains(h) && world.free()[h]
                    == w0.free()[h],
            world.removals() + load(win.slots@) <= w0.removals() + load(s0),
            w0.removals() + load(s0) <= u32::MAX,
            world.same_bodies(&w0),
            world.log@ == w0.log@ + exits(kind, kept(s0.subrange(0, j as int), unless(keep))),
        decreases n - j,
    {
        let ghost cur = win.slots@;
        let ghost pre = s0.subrange(0, j as int);
        let ghost post = s0.subrange(0, j + 1);
        proof {
            assert(post.drop_last() =~= pre);
            assert(post.last() == s0[j as int]);
            assert(cur[i as int] == s0[j as int]);
        }
        if flags[j] {
            proof {
                assert(cur =~= kept(post, keep) + s0.subrange(j + 1, n as int));
            }
            i = i + 1;
        } else {
            let ghost o1 = owners@;
            let slot: Loaded<V> = win.slots.remove(i);
            proof {
                lemma_load_remove(cur, i as int);
                assert forall|a: int| 0 <= a < slot.handles@.len() implies world.free().dom().contains(
                    #[trigger] slot.handles@[a],
                ) by {
                    assert(o1.dom().contains(cur[i as int].handles@[a]));
                }
                assert forall|a: int, b: int| 0 <= a < b < slot.handles@.len() implies slot.handles@[a]
                    != slot.handles@[b] by {
                    assert(o1[cur[i as int].handles@[a]].place == a);
                    assert(o1[cur[i as int].handles@[b]].place == b);
                }
            }
            unload(&slot.handles, world, Ghost(kind), Ghost(slot.key));
            proof {
                let gone = kept(pre, unless(keep));
                assert(gone.push(slot).drop_last() =~= gone);
                assert(kept(post, unless(keep)) == gone.push(slot));
                assert(world.log@ =~= w0.log@ + exits(kind, kept(post, unless(keep))));
                let hs = slot.handles@.to_set();
                let o2 = o1.remove_keys(hs);
                *owners = Ghost(o2);
                assert(cur.remove(i as int) =~= kept(post, keep) + s0.subrange(j + 1, n as int));
                let now = win.slots@;
                assert(now =~= cur.remove(i as int));
                assert(ascending(now)) by {
                    assert forall|a: int, b: int| 0 <= a < b < now.len() implies key_lt(#[trigger] now[a].key, #[trigger] now[b].key) by {
                        let a2 = if a < i { a } else { a + 1 };
                        let b2 = if b < i { b } else { b + 1 };
                        assert(now[a] == cur[a2] && now[b] == cur[b2]);
                    }
                }
                assert forall|a: int, b: int| 0 <= a < now.len() && 0 <= b < now[a].handles@.len() implies {
                    let h = #[trigger] now[a].handles@[b];
                    o2.dom().contains(h) && o2[h] == (Owner { kind, key: now[a].key, place: b })
                } by {
                    let a2 = if a < i { a } else { a + 1 };
                    assert(now[a] == cur[a2]);
                    let h = cur[a2].handles@[b];
                    assert(o1.dom().contains(h));
                    if hs.contains(h) {
                        let c = choose|c: int| 0 <= c < slot.handles@.len() && slot.handles@[c] == h;
                        assert(o1[cur[i as int].handles@[c]].key == cur[i as int].key);
                        if a2 < i {
                            assert(key_lt(cur[a2].key, cur[i as int].key));
                        } else {
                            assert(key_lt(cur[i as int].key, cur[a2].key));
                        }
                        assert(false);
                    }
                }
                assert forall|h: Handle| #[trigger] o2.dom().contains(h) && o2[h].kind == kind implies exists|a: int| #[trigger]
                    holds_at(now, a, o2[h].key, o2[h].place, h) by {
                    assert(o1.dom().contains(h));
                    let a = choose|a: int| #[trigger] holds_at(cur, a, o1[h].key, o1[h].place, h);
                    if a == i {
                        assert(slot.handles@[o1[h].place] == h);
                        assert(hs.contains(h));
                    } else {
                        let a2 = if a < i { a } else { a - 1 };
                        assert(now[a2] == cur[a]);
                        assert(holds_at(now, a2, o2[h].key, o2[h].place, h));
                    }
                }
                assert(same_but(o0, o2, kind)) by {
                    assert forall|k: Kind| k != kind implies #[trigger] same_kind(o0, o2, k) && same_kind(o2, o0, k) by {
                        assert(k != kind);
                        assert(same_kind(o0, o1, k));
                        assert(same_kind(o1, o0, k));
                        assert forall|h: Handle| (#[trigger] o0.dom().contains(h) && o0[h].kind == k) implies o2.dom().contains(h) && o2[h] == o0[h] by {
                            assert(o1.dom().contains(h));
                            if hs.contains(h) {
                                let c = choose|c: int| 0 <= c < slot.handles@.len() && slot.handles@[c] == h;
                                assert(o1[cur[i as int].handles@[c]].kind == kind);
                                assert(false);
                            }
                        }
                        assert forall|h: Handle| (#[trigger] o2.dom().contains(h) && o2[h].kind == k) implies o0.dom().contains(h) && o0[h] == o2[h] by {
                            assert(o1.dom().contains(h));
                        }
                    }
                }
                assert(o2.dom() =~= world.free().dom());
            }
        }
        j = j + 1;
    }
    assert(s0.subrange(0, n as int) =~= s0);
    assert(s0.subrange(n as int, n as int) =~= Seq::empty());
    assert(win.slots@ =~= kept(s0, keep));
}

/// Makes what a slot holds.
pub trait Maker<V> {
    /// What the maker needs in order to work.
    spec fn ready(&self) -> bool;

    /// `r` is what the slot `key` can come out as: nothing at all, or
    /// colliders and an item.
    spec fn makes(&self, key: Key, r: Option<(Seq<Collider>, V)>) -> bool;

    fn make(&self, key: Key) -> (r: Option<(Vec<Collider>, V)>)
        requires
            self.ready(),
        ensures
            match r {
                Some(m) => self.makes(key, Some((m.0@, m.1))),
                None => self.makes(key, None),
            },
    ;
}

/// The colliders `cs` stand in the world under the handles `hs`.
pub open spec fn stored(free: Map<Handle, Set<Collider>>, hs: Seq<Handle>, cs: Seq<Collider>) -> bool {
    &&& hs.len() == cs.len()
    &&& forall|j: int|
        0 <= j < hs.len() ==> free.dom().contains(#[trigger] hs[j]) && free[hs[j]].contains(cs[j])
}

/// Everything in `a` is still in `b`.
pub open spec fn keeps(a: Map<Handle, Set<Collider>>, b: Map<Handle, Set<Collider>>) -> bool {
    forall|h: Handle| #[trigger] a.dom().contains(h) ==> b.dom().contains(h) && b[h] == a[h]
}

/// `e` is a slot as `maker` makes it, its colliders in the world.
pub open spec fn is_made<V, M: Maker<V>>(maker: M, free: Map<Handle, Set<Collider>>, e: Loaded<V>) -> bool {
    exists|cs: Seq<Collider>| #[trigger]
        maker.makes(e.key, Some((cs, e.item))) && stored(free, e.handles@, cs)
}

/// `t` is `s` with slots added: only keys in `span` that `s` lacked, each as
/// `maker` makes it; and no key of `span` is missing but those that `maker`
/// makes nothing of.
pub open spec fn filled<V, M: Maker<V>>(
    s: Seq<Loaded<V>>,
    t: Seq<Loaded<V>>,
    maker: M,
    free: Map<Handle, Set<Collider>>,
    span: spec_fn(Key) -> bool,
) -> bool {
    &&& forall|e: Loaded<V>| #[trigger] has_slot(s, e) ==> has_slot(t, e)
    &&& forall|e: Loaded<V>| #[trigger]
        has_slot(t, e) && !has_slot(s, e) ==> span(e.key) && !has_key(s, e.key) && is_made(
            maker,
            free,
            e,
        )
    &&& forall|k: Key| #[trigger] span(k) ==> has_key(t, k) || maker.makes(k, None)
}

/// Puts colliders into the world, registered to one slot.
pub(crate) fn insert_all(
    world: &mut World,
    cs: Vec<Collider>,
    Ghost(kind): Ghost<Kind>,
    Ghost(key): Ghost<Key>,
    owners: &mut Ghost<Map<Handle, Owner>>,
) -> (hs: Vec<Handle>)
    requires
        complete(old(world), old(owners)@),
    ensures
        stored(final(world).free(), hs@, cs@),
        keeps(old(world).free(), final(world).free()),
        complete(final(world), final(owners)@),
        forall|j: int|
            0 <= j < hs@.len() ==> !old(owners)@.dom().contains(#[trigger] hs@[j])
                && final(owners)@.dom().contains(hs@[j])
                && final(owners)@[hs@[j]] == (Owner { kind, key, place: j }),
        forall|h: Handle| #[trigger]
            old(owners)@.dom().contains(h) ==> final(owners)@.dom().contains(h)
                && final(owners)@[h] == old(owners)@[h],
        forall|h: Handle| #[trigger]
            final(owners)@.dom().contains(h) && !old(owners)@.dom().contains(h)
                ==> final(owners)@[h].kind == kind && final(owners)@[h].key == key && 0
                <= final(owners)@[h].place < hs@.len() && hs@[final(owners)@[h].place] == h,
        final(world).removals() == old(world).removals(),
        final(world).removed == old(world).removed,
        final(world).same_bodies(old(world)),
        final(world).log@ == old(world).log@ + entering(kind, key, cs@.len()),
{
    let ghost w0 = *world;
    let ghost o0 = owners@;
    let ghost all = cs@;
    let mut rest: Vec<Collider> = cs;
    assert(rest@ =~= all.subrange(0, all.len() as int));
    let mut hs: Vec<Handle> = Vec::new();
    assert(world.log@ =~= w0.log@ + entering(kind, key, 0));
    while rest.len() > 0
        invariant
            hs@.len() <= all.len(),
            rest@ == all.subrange(hs@.len() as int, all.len() as int),
            world.log@ == w0.log@ + entering(kind, key, hs@.len()),
            forall|j: int|
                0 <= j < hs@.len() ==> world.free().dom().contains(#[trigger] hs@[j])
                    && world.free()[hs@[j]].contains(all[j]),
            keeps(w0.free(), world.free()),
            complete(world, owners@),
            complete(&w0, o0),
            forall|j: int|
                0 <= j < hs@.len() ==> !o0.dom().contains(#[trigger] hs@[j])
                    && owners@.dom().contains(hs@[j]) && owners@[hs@[j]] == (Owner {
                    kind,
                    key,
                    place: j,
                }),
            forall|h: Handle| #[trigger]
                o0.dom().contains(h) ==> owners@.dom().contains(h) && owners@[h] == o0[h],
            forall|h: Handle| #[trigger]
                owners@.dom().contains(h) && !o0.dom().contains(h) ==> owners@[h].kind == kind
                    && owners@[h].key == key && 0 <= owners@[h].place < hs@.len()
                    && hs@[owners@[h].place] == h,
            world.removals() == w0.removals(),
            world.removed == w0.removed,
            world.same_bodies(&w0),
        decreases rest.len(),
    {
        let ghost hs0 = hs@;
        let ghost o1 = owners@;
        let c: Collider = rest.remove(0);
        assert(c == all[hs0.len() as int]);
        assert(rest@ =~= all.subrange(hs0.len() as int + 1, all.len() as int));
        let h: Handle = insert_collider(&mut world.colliders, c);
        world.log = Ghost(world.log@.push(Op::Enter { kind, key, place: hs0.len() as int }));
        hs.push(h);
        assert(world.log@ =~= w0.log@ + entering(kind, key, hs@.len()));
        proof {
            assert(!o1.dom().contains(h));
            let o2 = o1.insert(h, Owner { kind, key, place: hs0.len() as int });
            *owners = Ghost(o2);
            assert(o2.dom() =~= world.free().dom());
            assert forall|j: int| 0 <= j < hs@.len() implies !o0.dom().contains(#[trigger] hs@[j])
                && o2.dom().contains(hs@[j]) && o2[hs@[j]] == (Owner { kind, key, place: j })
                && world.free().dom().contains(hs@[j]) && world.free()[hs@[j]].contains(all[j]) by {
                if j < hs0.len() {
                    assert(hs@[j] == hs0[j]);
                }
            }
            assert forall|g: Handle| #[trigger] o2.dom().contains(g) && !o0.dom().contains(g) implies o2[g].kind == kind
                && o2[g].key == key && 0 <= o2[g].place < hs@.len() && hs@[o2[g].place] == g by {
                if g != h {
                    assert(o1.dom().contains(g));
                    assert(hs@[o2[g].place] == hs0[o2[g].place]);
                }
            }
        }
    }
    hs
}

impl<V> Window<V> {
    /// How many slots come before `key`.
    fn rank(&self, key: Key) -> (p: usize)
        requires
            ascending(self.slots@),
        ensures
            p <= self.slots@.len(),
            forall|i: int| 0 <= i < p ==> key_lt(#[trigger] self.slots@[i].key, key),
            forall|i: int| p <= i < self.slots@.len() ==> !key_lt(#[trigger] self.slots@[i].key, key),
    {
        let mut lo: usize = 0;
        let mut hi: usize = self.slots.len();
        while lo < hi
            invariant
                lo <= hi <= self.slots@.len(),
                ascending(self.slots@),
                forall|i: int| 0 <= i < lo ==> key_lt(#[trigger] self.slots@[i].key, key),
                forall|i: int|
                    hi <= i < self.slots@.len() ==> !key_lt(#[trigger] self.slots@[i].key, key),
            decreases hi - lo,
        {
            let mid: usize = lo + (hi - lo) / 2;
            let k: Key = self.slots[mid].key;
            if k.0 < key.0 || (k.0 == key.0 && k.1 < key.1) {
                assert forall|i: int| 0 <= i < mid + 1 implies key_lt(#[trigger] self.slots@[i].key, key) by {
                    if i < mid {
                        assert(key_lt(self.slots@[i].key, self.slots@[mid as int].key));
                    }
                }
                lo = mid + 1;
            } else {
                assert forall|i: int| mid <= i < self.slots@.len() implies !key_lt(#[trigger] self.slots@[i].key, key) by {
                    if mid < i {
                        assert(key_lt(self.slots@[mid as int].key, self.slots@[i].key));
                    }
                }
                hi = mid;
            }
        }
        lo
    }

    /// Whether the slot `key` is loaded.
    pub fn has(&self, key: Key) -> (r: bool)
        requires
            ascending(self.slots@),
        ensures
            r == has_key(self.slots@, key),
    {
        let p: usize = self.rank(key);
        if p < self.slots.len() {
            let k: Key = self.slots[p].key;
            let r: bool = k.0 == key.0 && k.1 == key.1;
            proof {
                if r {
                    assert(self.slots@[p as int].key == key);
                } else if has_key(self.slots@, key) {
                    let i = choose|i: int| 0 <= i < self.slots@.len() && #[trigger] self.slots@[i].key == key;
                    if p < i {
                        assert(key_lt(self.slots@[p as int].key, self.slots@[i].key));
                    }
                }
            }
            r
        } else {
            false
        }
    }
}

/// Loads one slot that is not there yet.
fn load_slot<V, M: Maker<V>>(
    win: &mut Window<V>,
    world: &mut World,
    maker: &M,
    key: Key,
    Ghost(kind): Ghost<Kind>,
    owners: &mut Ghost<Map<Handle, Owner>>,
)
    requires
        maker.ready(),
        in_step(old(win).slots@, kind, old(owners)@),
        complete(old(world), old(owners)@),
        !has_key(old(win).slots@, key),
    ensures
        filled(old(win).slots@, final(win).slots@, *maker, final(world).free(), |k: Key| k == key),
        final(world).log@ == old(world).log@ + entries(
            kind,
            kept(final(win).slots@, within(absent(old(win).slots@))),
        ),
        in_step(final(win).slots@, kind, final(owners)@),
        same_but(old(owners)@, final(owners)@, kind),
        complete(final(world), final(owners)@),
        keeps(old(world).free(), final(world).free()),
        final(world).removals() == old(world).removals(),
        final(world).removed == old(world).removed,
        final(world).same_bodies(old(world)),
{
    let ghost s0 = win.slots@;
    let ghost o0 = owners@;
    match maker.make(key) {
        None => {
            assert(filled(s0, win.slots@, *maker, world.free(), |k: Key| k == key));
            proof {
                lemma_none_new(s0);
            }
            assert(world.log@ =~= world.log@ + entries(kind, kept(s0, within(absent(s0)))));
        },
        Some(m) => {
            let ghost cs = m.0@;
            let handles: Vec<Handle> = insert_all(world, m.0, Ghost(kind), Ghost(key), owners);
            let p: usize = win.rank(key);
            let ghost e = Loaded { key, handles, item: m.1 };
            win.slots.insert(p, Loaded { key, handles, item: m.1 });
            proof {
                let t = win.slots@;
                assert(t =~= s0.insert(p as int, e));
                lemma_placed(s0, t, p as int, e, kind, o0, owners@);
                assert(maker.makes(e.key, Some((cs, e.item))));
                assert(is_made(*maker, world.free(), e));
                assert(t[p as int] == e);
                assert(has_key(t, key));
                assert forall|x: Loaded<V>| #[trigger] has_slot(s0, x) implies has_slot(t, x) by {
                    let i = choose|i: int| 0 <= i < s0.len() && #[trigger] s0[i] == x;
                    let j = if i < p { i } else { i + 1 };
                    assert(t[j] == x);
                }
                assert forall|x: Loaded<V>| #[trigger] has_slot(t, x) && !has_slot(s0, x) implies x == e by {
                    let i = choose|i: int| 0 <= i < t.len() && #[trigger] t[i] == x;
                    if i < p {
                        assert(s0[i] == x);
                    } else if i > p {
                        assert(s0[i - 1] == x);
                    }
                }
                assert(filled(s0, t, *maker, world.free(), |k: Key| k == key));
                lemma_one_new(s0, t, e);
                let one = seq![e];
                assert(one.drop_last() =~= seq![]);
                assert(entries(kind, one.drop_last()) == Seq::<Op>::empty());
                assert(entries(kind, one) =~= entering(kind, key, e.handles@.len()));
            }
        },
    }
}

proof fn lemma_none_new<V>(s: Seq<Loaded<V>>)
    ensures
        kept(s, within(absent(s))) == Seq::<Loaded<V>>::empty(),
{
    let a = kept(s, within(absent(s)));
    lemma_kept(s, within::<V>(absent(s)));
    if a.len() > 0 {
        assert(has_slot(a, a[0]));
        assert(has_slot(s, a[0]));
        let i = choose|i: int| 0 <= i < s.len() && #[trigger] s[i] == a[0];
        assert(s[i].key == a[0].key);
        assert(has_key(s, a[0].key));
    }
    assert(a =~= Seq::empty());
}

proof fn lemma_one_new<V>(s: Seq<Loaded<V>>, t: Seq<Loaded<V>>, e: Loaded<V>)
    requires
        ascending(t),
        has_slot(t, e),
        !has_key(s, e.key),
        forall|x: Loaded<V>| #[trigger] has_slot(t, x) && !has_slot(s, x) ==> x == e,
    ensures
        kept(t, within(absent(s))) == seq![e],
{
    let a = kept(t, within(absent(s)));
    let b = seq![e];
    lemma_kept(t, within::<V>(absent(s)));
    assert(b[0] == e);
    assert forall|x: Loaded<V>|
            #![trigger has_slot(a, x)]
            #![trigger has_slot(b, x)]
            has_slot(a, x) <==> has_slot(b, x) by {
        if has_slot(a, x) {
            if has_slot(s, x) {
                let i = choose|i: int| 0 <= i < s.len() && #[trigger] s[i] == x;
                assert(s[i].key == x.key);
                assert(has_key(s, x.key));
            }
            assert(x == e);
        }
        if has_slot(b, x) {
            assert(x == e);
            assert(within::<V>(absent(s))(x.key, x.item));
        }
    }
    lemma_same_slots(a, b);
}

/// A slot whose colliders have just been registered takes its place.
proof fn lemma_placed<V>(
    s: Seq<Loaded<V>>,
    t: Seq<Loaded<V>>,
    p: int,
    e: Loaded<V>,
    kind: Kind,
    o: Map<Handle, Owner>,
    o2: Map<Handle, Owner>,
)
    requires
        in_step(s, kind, o),
        0 <= p <= s.len(),
        t == s.insert(p, e),
        !has_key(s, e.key),
        forall|i: int| 0 <= i < p ==> key_lt(#[trigger] s[i].key, e.key),
        forall|i: int| p <= i < s.len() ==> !key_lt(#[trigger] s[i].key, e.key),
        forall|j: int|
            0 <= j < e.handles@.len() ==> !o.dom().contains(#[trigger] e.handles@[j]) && o2.dom().contains(e.handles@[j])
                && o2[e.handles@[j]] == (Owner { kind, key: e.key, place: j }),
        forall|h: Handle| #[trigger] o.dom().contains(h) ==> o2.dom().contains(h) && o2[h] == o[h],
        forall|h: Handle| #[trigger]
            o2.dom().contains(h) && !o.dom().contains(h) ==> o2[h].kind == kind && o2[h].key == e.key && 0
                <= o2[h].place < e.handles@.len() && e.handles@[o2[h].place] == h,
    ensures
        in_step(t, kind, o2),
        same_but(o, o2, kind),
{
    assert(ascending(t)) by {
        assert forall|a: int, b: int| 0 <= a < b < t.len() implies key_lt(#[trigger] t[a].key, #[trigger] t[b].key) by {
            let a2 = if a < p { a } else { a - 1 };
            let b2 = if b < p { b } else { b - 1 };
            if a == p {
                assert(t[b] == s[b2]);
                assert(s[b2].key != e.key);
            } else if b == p {
                assert(t[a] == s[a2]);
            } else {
                assert(t[a] == s[a2] && t[b] == s[b2]);
            }
        }
    }
    assert forall|a: int, j: int| 0 <= a < t.len() && 0 <= j < t[a].handles@.len() implies {
        let h = #[trigger] t[a].handles@[j];
        o2.dom().contains(h) && o2[h] == (Owner { kind, key: t[a].key, place: j })
    } by {
        if a == p {
            assert(t[a] == e);
        } else {
            let a2 = if a < p { a } else { a - 1 };
            assert(t[a] == s[a2]);
            let h = s[a2].handles@[j];
            assert(o.dom().contains(h));
        }
    }
    assert forall|h: Handle| #[trigger] o2.dom().contains(h) && o2[h].kind == kind implies exists|i: int| #[trigger]
        holds_at(t, i, o2[h].key, o2[h].place, h) by {
        if o.dom().contains(h) {
            let i = choose|i: int| #[trigger] holds_at(s, i, o[h].key, o[h].place, h);
            let i2 = if i < p { i } else { i + 1 };
            assert(t[i2] == s[i]);
            assert(holds_at(t, i2, o2[h].key, o2[h].place, h));
        } else {
            assert(t[p] == e);
            assert(holds_at(t, p, o2[h].key, o2[h].place, h));
        }
    }
    assert forall|k: Kind| k != kind implies #[trigger] same_kind(o, o2, k) && same_kind(o2, o, k) by {
        assert forall|h: Handle| (#[trigger] o2.dom().contains(h) && o2[h].kind == k) implies o.dom().contains(h) && o[h] == o2[h] by {
        }
    }
}

proof fn lemma_keeps_key<V>(s: Seq<Loaded<V>>, t: Seq<Loaded<V>>, k: Key)
    requires
        forall|e: Loaded<V>| #[trigger] has_slot(s, e) ==> has_slot(t, e),
        has_key(s, k),
    ensures
        has_key(t, k),
{
    let i = choose|i: int| 0 <= i < s.len() && #[trigger] s[i].key == k;
    assert(has_slot(s, s[i]));
    let j = choose|j: int| 0 <= j < t.len() && #[trigger] t[j] == s[i];
    assert(t[j].key == k);
}

/// Two fillings in a row are one, over both spans.
proof fn lemma_filled_then<V, M: Maker<V>>(
    s: Seq<Loaded<V>>,
    t: Seq<Loaded<V>>,
    u: Seq<Loaded<V>>,
    maker: M,
    f1: Map<Handle, Set<Collider>>,
    f2: Map<Handle, Set<Collider>>,
    span1: spec_fn(Key) -> bool,
    span2: spec_fn(Key) -> bool,
    span: spec_fn(Key) -> bool,
)
    requires
        filled(s, t, maker, f1, span1),
        filled(t, u, maker, f2, span2),
        keeps(f1, f2),
        forall|k: Key| #[trigger] span(k) <==> span1(k) || span2(k),
    ensures
        filled(s, u, maker, f2, span),
{
    assert forall|e: Loaded<V>| #[trigger] has_slot(s, e) implies has_slot(u, e) by {
        assert(has_slot(t, e));
    }
    assert forall|e: Loaded<V>| #[trigger] has_slot(u, e) && !has_slot(s, e) implies span(e.key)
        && !has_key(s, e.key) && is_made(maker, f2, e) by {
        if has_slot(t, e) {
            assert(span1(e.key));
            let cs = choose|cs: Seq<Collider>| #[trigger]
                maker.makes(e.key, Some((cs, e.item))) && stored(f1, e.handles@, cs);
            assert forall|j: int| 0 <= j < e.handles@.len() implies f2.dom().contains(
                #[trigger] e.handles@[j],
            ) && f2[e.handles@[j]].contains(cs[j]) by {
                assert(f1.dom().contains(e.handles@[j]));
            }
            assert(stored(f2, e.handles@, cs));
        } else {
            assert(span2(e.key));
            if has_key(s, e.key) {
                lemma_keeps_key(s, t, e.key);
            }
        }
        assert(span(e.key));
    }
    assert forall|k: Key| #[trigger] span(k) implies has_key(u, k) || maker.makes(k, None) by {
        if span1(k) {
            if has_key(t, k) {
                lemma_keeps_key(t, u, k);
            }
        } else {
            assert(span2(k));
        }
    }
}

/// The keys of a block: one number between `lo` and `hi`, the other between
/// `from` and `to`, ends included.
pub open spec fn block(lo: int, hi: int, from: int, to: int, swap: bool) -> spec_fn(Key) -> bool {
    |k: Key|
        {
            let (f, i) = if swap {
                (k.1, k.0)
            } else {
                (k.0, k.1)
            };
            lo <= f <= hi && from <= i <= to
        }
}

/// Loads what is missing of a block of slots, line by line.
pub(crate) fn fill<V, M: Maker<V>>(
    win: &mut Window<V>,
    world: &mut World,
    maker: &M,
    lines: (i64, i64),
    along: (i64, i64),
    swap: bool,
    Ghost(kind): Ghost<Kind>,
    owners: &mut Ghost<Map<Handle, Owner>>,
)
    requires
        maker.ready(),
        in_step(old(win).slots@, kind, old(owners)@),
        complete(old(world), old(owners)@),
    ensures
        filled(
            old(win).slots@,
            final(win).slots@,
            *maker,
            final(world).free(),
            block(lines.0 as int, lines.1 as int, along.0 as int, along.1 as int, swap),
        ),
        final(world).log@ == old(world).log@ + entries(
            kind,
            rows(final(win).slots@, lines.0 as int, lines.1 as int, swap, absent(old(win).slots@)),
        ),
        in_step(final(win).slots@, kind, final(owners)@),
        same_but(old(owners)@, final(owners)@, kind),
        complete(final(world), final(owners)@),
        keeps(old(world).free(), final(world).free()),
        final(world).removed == old(world).removed,
        final(world).same_bodies(old(world)),
{
    let ghost s0 = win.slots@;
    let ghost w0 = *world;
    let ghost o0 = owners@;
    let mut at: i128 = lines.0 as i128;
    assert(world.log@ =~= w0.log@ + entries(kind, rows(s0, lines.0 as int, at - 1, swap, absent(s0))));
    while at <= lines.1 as i128
        invariant
            lines.0 <= at,
            at <= lines.1 + 1 || at == lines.0,
            maker.ready(),
            filled(
                s0,
                win.slots@,
                *maker,
                world.free(),
                block(lines.0 as int, at - 1, along.0 as int, along.1 as int, swap),
            ),
            world.log@ == w0.log@ + entries(
                kind,
                rows(win.slots@, lines.0 as int, at - 1, swap, absent(s0)),
            ),
            in_step(win.slots@, kind, owners@),
            same_but(o0, owners@, kind),
            complete(world, owners@),
            keeps(w0.free(), world.free()),
            world.removed == w0.removed,
            world.same_bodies(&w0),
        decreases lines.1 - at + 1,
    {
        let ghost t = win.slots@;
        let ghost f1 = world.free();
        let ghost o1 = owners@;
        let ghost log1 = world.log@;
        fill_line(win, world, maker, at as i64, along, swap, Ghost(kind), owners);
        proof {
            lemma_next_line(
                s0,
                t,
                win.slots@,
                *maker,
                f1,
                world.free(),
                lines.0 as int,
                at as int,
                along.0 as int,
                along.1 as int,
                swap,
            );
            lemma_entries_add(
                kind,
                rows(t, lines.0 as int, at - 1, swap, absent(s0)),
                kept(win.slots@, in_line(at as int, swap, absent(t))),
            );
            assert(world.log@ =~= w0.log@ + entries(
                kind,
                rows(win.slots@, lines.0 as int, at as int, swap, absent(s0)),
            ));
            lemma_filled_then(
                s0,
                t,
                win.slots@,
                *maker,
                f1,
                world.free(),
                block(lines.0 as int, at - 1, along.0 as int, along.1 as int, swap),
                block(at as int, at as int, along.0 as int, along.1 as int, swap),
                block(lines.0 as int, at as int, along.0 as int, along.1 as int, swap),
            );
            lemma_same_but_then(o0, o1, owners@, kind);
            assert(keeps(w0.free(), world.free())) by {
                assert forall|h: Handle| #[trigger] w0.free().dom().contains(h) implies world.free().dom().contains(h)
                    && world.free()[h] == w0.free()[h] by {
                    assert(f1.dom().contains(h));
                }
            }
        }
        at = at + 1;
    }
    proof {
        let a = block(lines.0 as int, at - 1, along.0 as int, along.1 as int, swap);
        let b = block(lines.0 as int, lines.1 as int, along.0 as int, along.1 as int, swap);
        assert(a =~= b);
        if lines.1 < lines.0 {
            assert(rows(win.slots@, lines.0 as int, lines.1 as int, swap, absent(s0)) =~= rows(
                win.slots@,
                lines.0 as int,
                at - 1,
                swap,
                absent(s0),
            ));
        }
    }
}

/// One more line joins the lines before it.
proof fn lemma_next_line<V, M: Maker<V>>(
    s: Seq<Loaded<V>>,
    t: Seq<Loaded<V>>,
    u: Seq<Loaded<V>>,
    maker: M,
    f1: Map<Handle, Set<Collider>>,
    f2: Map<Handle, Set<Collider>>,
    lo: int,
    at: int,
    from: int,
    to: int,
    swap: bool,
)
    requires
        ascending(t),
        ascending(u),
        lo <= at,
        filled(s, t, maker, f1, block(lo, at - 1, from, to, swap)),
        filled(t, u, maker, f2, block(at, at, from, to, swap)),
    ensures
        rows(u, lo, at, swap, absent(s)) == rows(t, lo, at - 1, swap, absent(s)) + kept(
            u,
            in_line(at, swap, absent(t)),
        ),
{
    assert forall|e: Loaded<V>|
        #![trigger has_slot(u, e)]
        #![trigger has_slot(t, e)]
        lo <= line_of(e.key, swap) <= at - 1 implies (has_slot(u, e) && absent(s)(e.key) <==> has_slot(t, e)
        && absent(s)(e.key)) by {
        if has_slot(u, e) && !has_slot(t, e) {
            assert(block(at, at, from, to, swap)(e.key));
        }
    }
    lemma_rows_same(u, t, lo, at - 1, swap, absent(s), absent(s));
    let (p, q) = (in_line::<V>(at, swap, absent(s)), in_line::<V>(at, swap, absent(t)));
    let (a, b) = (kept(u, p), kept(u, q));
    lemma_kept(u, p);
    lemma_kept(u, q);
    assert forall|e: Loaded<V>|
            #![trigger has_slot(a, e)]
            #![trigger has_slot(b, e)]
            has_slot(a, e) <==> has_slot(b, e) by {
        if has_slot(u, e) && line_of(e.key, swap) == at {
            if has_key(s, e.key) {
                lemma_keeps_key(s, t, e.key);
            }
            if has_key(t, e.key) && !has_key(s, e.key) {
                let i = choose|i: int| 0 <= i < t.len() && #[trigger] t[i].key == e.key;
                assert(has_slot(t, t[i]));
                if has_slot(s, t[i]) {
                    let j = choose|j: int| 0 <= j < s.len() && #[trigger] s[j] == t[i];
                    assert(s[j].key == e.key);
                }
                assert(block(lo, at - 1, from, to, swap)(t[i].key));
                assert(false);
            }
        }
    }
    lemma_same_slots(a, b);
}

/// One more slot joins those before it in its line.
proof fn lemma_next_slot<V, M: Maker<V>>(
    s: Seq<Loaded<V>>,
    t: Seq<Loaded<V>>,
    u: Seq<Loaded<V>>,
    maker: M,
    f1: Map<Handle, Set<Collider>>,
    f2: Map<Handle, Set<Collider>>,
    line: int,
    from: int,
    i: int,
    swap: bool,
    key: Key,
)
    requires
        ascending(t),
        ascending(u),
        line_of(key, swap) == line,
        line_of(key, !swap) == i,
        filled(s, t, maker, f1, block(line, line, from, i - 1, swap)),
        filled(t, u, maker, f2, |k: Key| k == key),
    ensures
        kept(u, in_line(line, swap, absent(s))) == kept(t, in_line(line, swap, absent(s))) + kept(
            u,
            within(absent(t)),
        ),
{
    let p = in_line::<V>(line, swap, absent(s));
    let q = within::<V>(absent(t));
    let (a, b, c) = (kept(t, p), kept(u, q), kept(u, p));
    lemma_kept(t, p);
    lemma_kept(u, q);
    lemma_kept(u, p);
    let d = a + b;
    assert forall|e: Loaded<V>| #[trigger] has_slot(b, e) implies e.key == key && !has_slot(t, e) by {
        if has_slot(t, e) {
            let j = choose|j: int| 0 <= j < t.len() && #[trigger] t[j] == e;
            assert(t[j].key == e.key);
            assert(has_key(t, e.key));
        }
        assert(has_slot(u, e));
    }
    assert forall|e: Loaded<V>| #[trigger] has_slot(a, e) implies block(line, line, from, i - 1, swap)(e.key) by {
        assert(has_slot(t, e));
        if has_slot(s, e) {
            let j = choose|j: int| 0 <= j < s.len() && #[trigger] s[j] == e;
            assert(s[j].key == e.key);
            assert(has_key(s, e.key));
        }
    }
    assert(ascending(d)) by {
        assert forall|x: int, y: int| 0 <= x < y < d.len() implies key_lt(#[trigger] d[x].key, #[trigger] d[y].key) by {
            if y < a.len() {
                assert(d[x] == a[x] && d[y] == a[y]);
            } else if x >= a.len() {
                assert(d[x] == b[x - a.len()] && d[y] == b[y - a.len()]);
            } else {
                assert(d[x] == a[x] && d[y] == b[y - a.len()]);
                assert(has_slot(a, a[x]) && has_slot(b, b[y - a.len()]));
            }
        }
    }
    assert forall|e: Loaded<V>|
            #![trigger has_slot(c, e)]
            #![trigger has_slot(d, e)]
            has_slot(c, e) <==> has_slot(d, e) by {
        if has_slot(c, e) {
            if has_slot(t, e) {
                assert(has_slot(a, e));
                let j = choose|j: int| 0 <= j < a.len() && #[trigger] a[j] == e;
                assert(d[j] == e);
            } else {
                assert(!has_key(t, e.key));
                assert(q(e.key, e.item));
                assert(has_slot(b, e));
                let j = choose|j: int| 0 <= j < b.len() && #[trigger] b[j] == e;
                assert(d[a.len() + j] == e);
            }
        }
        if has_slot(d, e) {
            let j = choose|j: int| 0 <= j < d.len() && #[trigger] d[j] == e;
            if j < a.len() {
                assert(a[j] == e);
                assert(has_slot(a, e));
                assert(has_slot(t, e));
                assert(has_slot(u, e));
            } else {
                assert(b[j - a.len()] == e);
                assert(has_slot(b, e));
                if has_key(s, e.key) {
                    lemma_keeps_key(s, t, e.key);
                }
                assert(has_slot(u, e));
            }
            assert(p(e.key, e.item));
        }
    }
    lemma_same_slots(c, d);
}

pub proof fn lemma_same_but_then(a: Map<Handle, Owner>, b: Map<Handle, Owner>, c: Map<Handle, Owner>, kind: Kind)
    requires
        same_but(a, b, kind),
        same_but(b, c, kind),
    ensures
        same_but(a, c, kind),
{
    assert forall|k: Kind| k != kind implies #[trigger] same_kind(a, c, k) && same_kind(c, a, k) by {
        assert(same_kind(a, b, k));
        assert(same_kind(b, a, k));
        assert(same_kind(b, c, k));
        assert(same_kind(c, b, k));
        assert forall|h: Handle| (#[trigger] a.dom().contains(h) && a[h].kind == k) implies c.dom().contains(h) && c[h] == a[h] by {
            assert(b.dom().contains(h));
        }
        assert forall|h: Handle| (#[trigger] c.dom().contains(h) && c[h].kind == k) implies a.dom().contains(h) && a[h] == c[h] by {
            assert(b.dom().contains(h));
        }
    }
}

fn fill_line<V, M: Maker<V>>(
    win: &mut Window<V>,
    world: &mut World,
    maker: &M,
    line: i64,
    along: (i64, i64),
    swap: bool,
    Ghost(kind): Ghost<Kind>,
    owners: &mut Ghost<Map<Handle, Owner>>,
)
    requires
        maker.ready(),
        in_step(old(win).slots@, kind, old(owners)@),
        complete(old(world), old(owners)@),
    ensures
        filled(
            old(win).slots@,
            final(win).slots@,
            *maker,
            final(world).free(),
            block(line as int, line as int, along.0 as int, along.1 as int, swap),
        ),
        final(world).log@ == old(world).log@ + entries(
            kind,
            kept(final(win).slots@, in_line(line as int, swap, absent(old(win).slots@))),
        ),
        in_step(final(win).slots@, kind, final(owners)@),
        same_but(old(owners)@, final(owners)@, kind),
        complete(final(world), final(owners)@),
        keeps(old(world).free(), final(world).free()),
        final(world).removed == old(world).removed,
        final(world).same_bodies(old(world)),
{
    let ghost s0 = win.slots@;
    let ghost w0 = *world;
    let ghost o0 = owners@;
    let mut i: i128 = along.0 as i128;
    proof {
        lemma_nothing_new(s0, line as int, line as int, swap);
        assert(rows(s0, line as int, line - 1, swap, absent(s0)) == Seq::<Loaded<V>>::empty());
        assert(kept(s0, in_line(line as int, swap, absent(s0))) =~= rows(
            s0,
            line as int,
            line as int,
            swap,
            absent(s0),
        ));
        assert(world.log@ =~= w0.log@ + entries(
            kind,
            kept(s0, in_line(line as int, swap, absent(s0))),
        ));
    }
    while i <= along.1 as i128
        invariant
            along.0 <= i,
            i <= along.1 + 1 || i == along.0,
            maker.ready(),
            filled(
                s0,
                win.slots@,
                *maker,
                world.free(),
                block(line as int, line as int, along.0 as int, i - 1, swap),
            ),
            world.log@ == w0.log@ + entries(
                kind,
                kept(win.slots@, in_line(line as int, swap, absent(s0))),
            ),
            in_step(win.slots@, kind, owners@),
            same_but(o0, owners@, kind),
            complete(world, owners@),
            keeps(w0.free(), world.free()),
            world.removed == w0.removed,
            world.same_bodies(&w0),
        decreases along.1 - i + 1,
    {
        let ghost t = win.slots@;
        let ghost f1 = world.free();
        let ghost o1 = owners@;
        let at: i64 = i as i64;
        let key: Key = if swap {
            (at, line)
        } else {
            (line, at)
        };
        let ghost log1 = world.log@;
        if !win.has(key) {
            load_slot(win, world, maker, key, Ghost(kind), owners);
        } else {
            proof {
                lemma_none_new(t);
            }
            assert(world.log@ =~= log1 + entries(kind, kept(t, within(absent(t)))));
        }
        proof {
            lemma_next_slot(
                s0,
                t,
                win.slots@,
                *maker,
                f1,
                world.free(),
                line as int,
                along.0 as int,
                i as int,
                swap,
                key,
            );
            lemma_entries_add(
                kind,
                kept(t, in_line(line as int, swap, absent(s0))),
                kept(win.slots@, within(absent(t))),
            );
            assert(world.log@ =~= w0.log@ + entries(
                kind,
                kept(win.slots@, in_line(line as int, swap, absent(s0))),
            ));
            lemma_filled_then(
                s0,
                t,
                win.slots@,
                *maker,
                f1,
                world.free(),
                block(line as int, line as int, along.0 as int, i - 1, swap),
                |k: Key| k == key,
                block(line as int, line as int, along.0 as int, i as int, swap),
            );
            lemma_same_but_then(o0, o1, owners@, kind);
            assert(keeps(w0.free(), world.free())) by {
                assert forall|h: Handle| #[trigger] w0.free().dom().contains(h) implies world.free().dom().contains(h)
                    && world.free()[h] == w0.free()[h] by {
                    assert(f1.dom().contains(h));
                }
            }
        }
        i = i + 1;
    }
    proof {
        let a = block(line as int, line as int, along.0 as int, i - 1, swap);
        let b = block(line as int, line as int, along.0 as int, along.1 as int, swap);
        assert(a =~= b);
    }
}

/// `t` is `s` with its window moved onto `span`: what stood there stays, what
/// stood outside is gone, and what was missing is as `maker` makes it.
pub open spec fn slid<V, M: Maker<V>>(
    s: Seq<Loaded<V>>,
    t: Seq<Loaded<V>>,
    maker: M,
    free: Map<Handle, Set<Collider>>,
    span: spec_fn(Key) -> bool,
) -> bool {
    &&& forall|e: Loaded<V>| #[trigger] has_slot(s, e) && span(e.key) ==> has_slot(t, e)
    &&& forall|e: Loaded<V>| #[trigger]
        has_slot(t, e) ==> span(e.key) && (has_slot(s, e) || (!has_key(s, e.key) && is_made(
            maker,
            free,
            e,
        )))
    &&& forall|k: Key| #[trigger] span(k) ==> has_key(t, k) || maker.makes(k, None)
}

/// Colliders of other kinds than `kind` are still there, unchanged.
pub open spec fn spared(
    o: Map<Handle, Owner>,
    kind: Kind,
    a: Map<Handle, Set<Collider>>,
    b: Map<Handle, Set<Collider>>,
) -> bool {
    forall|h: Handle| #[trigger]
        o.dom().contains(h) && o[h].kind != kind ==> b.dom().contains(h) && b[h] == a[h]
}

/// The colliders of every slot that is in both `s` and `t` are still there,
/// unchanged.
pub open spec fn undisturbed<V>(
    s: Seq<Loaded<V>>,
    t: Seq<Loaded<V>>,
    a: Map<Handle, Set<Collider>>,
    b: Map<Handle, Set<Collider>>,
) -> bool {
    forall|e: Loaded<V>, j: int|
        #![trigger has_slot(t, e), e.handles@[j]]
        has_slot(s, e) && has_slot(t, e) && 0 <= j < e.handles@.len() ==> b.dom().contains(
            e.handles@[j],
        ) && b[e.handles@[j]] == a[e.handles@[j]]
}

/// What one kind's windows show stays so while another kind's window moves.
pub proof fn lemma_spared<V>(s: Seq<Loaded<V>>, t: Seq<Loaded<V>>, kind: Kind, o: Map<Handle, Owner>, changed: Kind, a: Map<Handle, Set<Collider>>, b: Map<Handle, Set<Collider>>, c: Map<Handle, Set<Collider>>)
    requires
        in_step(t, kind, o),
        spared(o, changed, b, c),
        kind != changed,
        undisturbed(s, t, a, b),
    ensures
        undisturbed(s, t, a, c),
{
    assert forall|e: Loaded<V>, j: int|
        #![trigger has_slot(t, e), e.handles@[j]]
        has_slot(s, e) && has_slot(t, e) && 0 <= j < e.handles@.len() implies c.dom().contains(
        e.handles@[j],
    ) && c[e.handles@[j]] == a[e.handles@[j]] by {
        let i = choose|i: int| 0 <= i < t.len() && #[trigger] t[i] == e;
        assert(o.dom().contains(t[i].handles@[j]));
    }
}

pub proof fn lemma_made_spared<V, M: Maker<V>>(maker: M, t: Seq<Loaded<V>>, e: Loaded<V>, kind: Kind, o: Map<Handle, Owner>, changed: Kind, b: Map<Handle, Set<Collider>>, c: Map<Handle, Set<Collider>>)
    requires
        in_step(t, kind, o),
        spared(o, changed, b, c),
        kind != changed,
        has_slot(t, e),
        is_made(maker, b, e),
    ensures
        is_made(maker, c, e),
{
    let cs = choose|cs: Seq<Collider>| #[trigger]
        maker.makes(e.key, Some((cs, e.item))) && stored(b, e.handles@, cs);
    let i = choose|i: int| 0 <= i < t.len() && #[trigger] t[i] == e;
    assert forall|j: int| 0 <= j < e.handles@.len() implies c.dom().contains(
        #[trigger] e.handles@[j],
    ) && c[e.handles@[j]].contains(cs[j]) by {
        assert(o.dom().contains(t[i].handles@[j]));
        assert(b.dom().contains(e.handles@[j]));
    }
    assert(stored(c, e.handles@, cs));
}

pub proof fn lemma_slid_spared<V, M: Maker<V>>(s: Seq<Loaded<V>>, t: Seq<Loaded<V>>, maker: M, span: spec_fn(Key) -> bool, kind: Kind, o: Map<Handle, Owner>, changed: Kind, b: Map<Handle, Set<Collider>>, c: Map<Handle, Set<Collider>>)
    requires
        in_step(t, kind, o),
        spared(o, changed, b, c),
        kind != changed,
        slid(s, t, maker, b, span),
    ensures
        slid(s, t, maker, c, span),
{
    assert forall|e: Loaded<V>| #[trigger] has_slot(t, e) implies span(e.key) && (has_slot(s, e) || (!has_key(
        s,
        e.key,
    ) && is_made(maker, c, e))) by {
        if !has_slot(s, e) {
            lemma_made_spared(maker, t, e, kind, o, changed, b, c);
        }
    }
}

/// Which of the slots lie in a block.
fn inside<V>(win: &Window<V>, lines: (i64, i64), along: (i64, i64), swap: bool) -> (r: Vec<bool>)
    ensures
        r@.len() == win.slots@.len(),
        forall|i: int|
            0 <= i < r@.len() ==> #[trigger] r@[i] == block(
                lines.0 as int,
                lines.1 as int,
                along.0 as int,
                along.1 as int,
                swap,
            )(win.slots@[i].key),
{
    let mut r: Vec<bool> = Vec::new();
    let mut i: usize = 0;
    while i < win.slots.len()
        invariant
            i <= win.slots@.len(),
            r@.len() == i,
            forall|j: int|
                0 <= j < i ==> #[trigger] r@[j] == block(
                    lines.0 as int,
                    lines.1 as int,
                    along.0 as int,
                    along.1 as int,
                    swap,
                )(win.slots@[j].key),
        decreases win.slots.len() - i,
    {
        let k: Key = win.slots[i].key;
        let (f, j) = if swap {
            (k.1, k.0)
        } else {
            (k.0, k.1)
        };
        r.push(lines.0 <= f && f <= lines.1 && along.0 <= j && j <= along.1);
        i = i + 1;
    }
    r
}

/// Moves a window onto a block; with `fresh` unset, only evicts.
pub(crate) fn slide<V, M: Maker<V>>(
    win: &mut Window<V>,
    world: &mut World,
    maker: &M,
    lines: (i64, i64),
    along: (i64, i64),
    swap: bool,
    fresh: bool,
    Ghost(kind): Ghost<Kind>,
    owners: &mut Ghost<Map<Handle, Owner>>,
)
    requires
        maker.ready(),
        in_step(old(win).slots@, kind, old(owners)@),
        complete(old(world), old(owners)@),
        old(world).removed + load(old(win).slots@) <= u32::MAX,
    ensures
        fresh ==> slid(
            old(win).slots@,
            final(win).slots@,
            *maker,
            final(world).free(),
            block(lines.0 as int, lines.1 as int, along.0 as int, along.1 as int, swap),
        ),
        !fresh ==> final(win).slots@ == kept(
            old(win).slots@,
            |k: Key, v: V|
                block(lines.0 as int, lines.1 as int, along.0 as int, along.1 as int, swap)(k),
        ),
        in_step(final(win).slots@, kind, final(owners)@),
        same_but(old(owners)@, final(owners)@, kind),
        complete(final(world), final(owners)@),
        undisturbed(old(win).slots@, final(win).slots@, old(world).free(), final(world).free()),
        spared(old(owners)@, kind, old(world).free(), final(world).free()),
        final(world).removed <= old(world).removed + load(old(win).slots@),
        final(world).same_bodies(old(world)),
        final(world).log@ == old(world).log@ + if fresh {
            moves(
                kind,
                old(win).slots@,
                final(win).slots@,
                lines.0 as int,
                lines.1 as int,
                swap,
                block(lines.0 as int, lines.1 as int, along.0 as int, along.1 as int, swap),
            )
        } else {
            exits(
                kind,
                kept(
                    old(win).slots@,
                    unless(
                        within(
                            block(lines.0 as int, lines.1 as int, along.0 as int, along.1 as int, swap),
                        ),
                    ),
                ),
            )
        },
{
    let ghost log0 = world.log@;
    let ghost s0 = win.slots@;
    let ghost o0 = owners@;
    let ghost f0 = world.free();
    let ghost span = block(lines.0 as int, lines.1 as int, along.0 as int, along.1 as int, swap);
    let ghost keep = within::<V>(span);
    let flags: Vec<bool> = inside(win, lines, along, swap);
    evict(win, world, &flags, Ghost(keep), Ghost(kind), owners);
    let ghost t = win.slots@;
    let ghost o1 = owners@;
    let ghost f1 = world.free();
    proof {
        lemma_kept(s0, keep);
        lemma_evicted(s0, t, kind, o0, o1, f0, f1);
        assert(keep =~= |k: Key, v: V|
            block(lines.0 as int, lines.1 as int, along.0 as int, along.1 as int, swap)(k));
    }
    if fresh {
        fill(win, world, maker, lines, along, swap, Ghost(kind), owners);
        proof {
            let u = win.slots@;
            lemma_same_but_then(o0, o1, owners@, kind);
            lemma_new_either_way(s0, t, u, *maker, world.free(), span, lines.0 as int, lines.1 as int, swap);
            assert(world.log@ =~= log0 + moves(kind, s0, u, lines.0 as int, lines.1 as int, swap, span));
            assert forall|e: Loaded<V>| #[trigger] has_slot(s0, e) && span(e.key) implies has_slot(u, e) by {
                assert(keep(e.key, e.item));
                assert(has_slot(t, e));
            }
            assert forall|e: Loaded<V>| #[trigger] has_slot(u, e) implies span(e.key) && (has_slot(s0, e) || (
            !has_key(s0, e.key) && is_made(*maker, world.free(), e))) by {
                if has_slot(t, e) {
                    assert(keep(e.key, e.item));
                } else if has_key(s0, e.key) {
                    let i = choose|i: int| 0 <= i < s0.len() && #[trigger] s0[i].key == e.key;
                    assert(has_slot(s0, s0[i]));
                    assert(keep(s0[i].key, s0[i].item));
                    assert(has_slot(t, s0[i]));
                    let j = choose|j: int| 0 <= j < t.len() && #[trigger] t[j] == s0[i];
                    assert(t[j].key == e.key);
                    assert(has_key(t, e.key));
                }
            }
            assert(undisturbed(s0, u, f0, world.free())) by {
                assert forall|e: Loaded<V>, j: int|
                    #![trigger has_slot(u, e), e.handles@[j]]
                    has_slot(s0, e) && has_slot(u, e) && 0 <= j < e.handles@.len() implies world.free().dom().contains(
                    e.handles@[j],
                ) && world.free()[e.handles@[j]] == f0[e.handles@[j]] by {
                    assert(keep(e.key, e.item));
                    assert(has_slot(t, e));
                    assert(f1.dom().contains(e.handles@[j]));
                }
            }
            assert(spared(o0, kind, f0, world.free())) by {
                assert forall|h: Handle| #[trigger] o0.dom().contains(h) && o0[h].kind != kind implies world.free().dom().contains(h)
                    && world.free()[h] == f0[h] by {
                    assert(f1.dom().contains(h));
                }
            }
        }
    }
}

/// What is new to what was left is new to what was there before.
proof fn lemma_new_either_way<V, M: Maker<V>>(
    s: Seq<Loaded<V>>,
    t: Seq<Loaded<V>>,
    u: Seq<Loaded<V>>,
    maker: M,
    free: Map<Handle, Set<Collider>>,
    span: spec_fn(Key) -> bool,
    lo: int,
    hi: int,
    swap: bool,
)
    requires
        ascending(u),
        t == kept(s, within(span)),
        filled(t, u, maker, free, span),
    ensures
        rows(u, lo, hi, swap, absent(t)) == rows(u, lo, hi, swap, absent(s)),
{
    lemma_kept(s, within::<V>(span));
    assert forall|e: Loaded<V>| #[trigger] has_slot(u, e) implies (absent(t)(e.key) <==> absent(s)(e.key)) by {
        if has_key(t, e.key) {
            let i = choose|i: int| 0 <= i < t.len() && #[trigger] t[i].key == e.key;
            assert(has_slot(t, t[i]));
            assert(has_slot(s, t[i]));
            let j = choose|j: int| 0 <= j < s.len() && #[trigger] s[j] == t[i];
            assert(s[j].key == e.key);
        }
        if has_key(s, e.key) {
            let i = choose|i: int| 0 <= i < s.len() && #[trigger] s[i].key == e.key;
            assert(has_slot(s, s[i]));
            assert(span(e.key)) by {
                if has_slot(t, e) {
                    assert(within::<V>(span)(e.key, e.item));
                }
            }
            assert(within::<V>(span)(s[i].key, s[i].item));
            assert(has_slot(t, s[i]));
            let j = choose|j: int| 0 <= j < t.len() && #[trigger] t[j] == s[i];
            assert(t[j].key == e.key);
        }
    }
    lemma_rows_same(u, u, lo, hi, swap, absent(t), absent(s));
}

/// An eviction leaves the colliders of what stays alone.
pub proof fn lemma_evicted<V>(s: Seq<Loaded<V>>, t: Seq<Loaded<V>>, kind: Kind, o: Map<Handle, Owner>, o1: Map<Handle, Owner>, a: Map<Handle, Set<Collider>>, b: Map<Handle, Set<Collider>>)
    requires
        in_step(t, kind, o1),
        same_but(o, o1, kind),
        o1.dom() == b.dom(),
        forall|h: Handle| #[trigger] b.dom().contains(h) ==> a.dom().contains(h) && b[h] == a[h],
    ensures
        undisturbed(s, t, a, b),
        spared(o, kind, a, b),
{
    assert forall|e: Loaded<V>, j: int|
        #![trigger has_slot(t, e), e.handles@[j]]
        has_slot(s, e) && has_slot(t, e) && 0 <= j < e.handles@.len() implies b.dom().contains(
        e.handles@[j],
    ) && b[e.handles@[j]] == a[e.handles@[j]] by {
        let i = choose|i: int| 0 <= i < t.len() && #[trigger] t[i] == e;
        assert(o1.dom().contains(t[i].handles@[j]));
    }
    assert forall|h: Handle| #[trigger] o.dom().contains(h) && o[h].kind != kind implies b.dom().contains(h) && b[h] == a[h] by {
        let k = o[h].kind;
        assert(same_kind(o, o1, k));
        assert(o1.dom().contains(h));
    }
}

} // verus!
