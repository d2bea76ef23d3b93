//! Laws of what is loaded.

use crate::binary32::F32;
use crate::cave::{wave_of, Wave};
use crate::colliders::Handle;
use crate::level::{Level, LevelView, Vec2};
use crate::pad::{GOAL_SLOT_NEG, GOAL_SLOT_POS};
use crate::scene::{cave_span, finish_due, is_finish, slid_pads, Scene};
use crate::scenery::{pad_in, Boulder, CaveMaker, Edge, FinishMaker, Pad, PadMaker};
use crate::slots::{has_key, has_slot, holds_at, in_step, key_lt, stored, Key, Kind, Loaded, Maker};
use rapier2d::geometry::Collider;
use vstd::prelude::*;

verus! {

/// Handle `h` is collider `j` of slot `i`.
pub open spec fn holds<V>(s: Seq<Loaded<V>>, i: int, j: int, h: Handle) -> bool {
    0 <= i < s.len() && 0 <= j < s[i].handles@.len() && s[i].handles@[j] == h
}

/// No two slots of a window share a collider, and no slot lists one twice.
pub proof fn slots_share_nothing(scene: Scene, i: int, j: int, i2: int, j2: int, h: Handle)
    requires
        scene.wf(),
    ensures
        holds(scene.cave.slots@, i, j, h) && holds(scene.cave.slots@, i2, j2, h) ==> i == i2 && j == j2,
        holds(scene.shafts.slots@, i, j, h) && holds(scene.shafts.slots@, i2, j2, h) ==> i == i2 && j == j2,
        holds(scene.obstacles.slots@, i, j, h) && holds(scene.obstacles.slots@, i2, j2, h) ==> i == i2
            && j == j2,
        holds(scene.pads.slots@, i, j, h) && holds(scene.pads.slots@, i2, j2, h) ==> i == i2 && j == j2,
{
    lemma_one_slot(scene.cave.slots@, Kind::Cave, scene, i, j, i2, j2, h);
    lemma_one_slot(scene.shafts.slots@, Kind::Shaft, scene, i, j, i2, j2, h);
    lemma_one_slot(scene.obstacles.slots@, Kind::Obstacle, scene, i, j, i2, j2, h);
    lemma_one_slot(scene.pads.slots@, Kind::Pad, scene, i, j, i2, j2, h);
}

proof fn lemma_one_slot<V>(s: Seq<Loaded<V>>, kind: Kind, scene: Scene, i: int, j: int, i2: int, j2: int, h: Handle)
    requires
        in_step(s, kind, scene.owners@),
    ensures
        holds(s, i, j, h) && holds(s, i2, j2, h) ==> i == i2 && j == j2,
{
    if holds(s, i, j, h) && holds(s, i2, j2, h) {
        let o = scene.owners@;
        assert(o[s[i].handles@[j]].key == s[i].key && o[s[i].handles@[j]].place == j);
        assert(o[s[i2].handles@[j2]].key == s[i2].key && o[s[i2].handles@[j2]].place == j2);
        if i < i2 {
            assert(key_lt(s[i].key, s[i2].key));
        } else if i2 < i {
            assert(key_lt(s[i2].key, s[i].key));
        }
    }
}

/// Windows of different kinds share no collider either.
pub proof fn windows_share_nothing(scene: Scene, i: int, j: int, i2: int, j2: int, h: Handle)
    requires
        scene.wf(),
    ensures
        !(holds(scene.cave.slots@, i, j, h) && holds(scene.shafts.slots@, i2, j2, h)),
        !(holds(scene.cave.slots@, i, j, h) && holds(scene.obstacles.slots@, i2, j2, h)),
        !(holds(scene.cave.slots@, i, j, h) && holds(scene.pads.slots@, i2, j2, h)),
        !(holds(scene.shafts.slots@, i, j, h) && holds(scene.obstacles.slots@, i2, j2, h)),
        !(holds(scene.shafts.slots@, i, j, h) && holds(scene.pads.slots@, i2, j2, h)),
        !(holds(scene.obstacles.slots@, i, j, h) && holds(scene.pads.slots@, i2, j2, h)),
{
    lemma_kind(scene.cave.slots@, Kind::Cave, scene, i, j, h);
    lemma_kind(scene.shafts.slots@, Kind::Shaft, scene, i, j, h);
    lemma_kind(scene.shafts.slots@, Kind::Shaft, scene, i2, j2, h);
    lemma_kind(scene.obstacles.slots@, Kind::Obstacle, scene, i, j, h);
    lemma_kind(scene.obstacles.slots@, Kind::Obstacle, scene, i2, j2, h);
    lemma_kind(scene.pads.slots@, Kind::Pad, scene, i2, j2, h);
}

proof fn lemma_kind<V>(s: Seq<Loaded<V>>, kind: Kind, scene: Scene, i: int, j: int, h: Handle)
    requires
        in_step(s, kind, scene.owners@),
    ensures
        holds(s, i, j, h) ==> scene.owners@.dom().contains(h) && scene.owners@[h].kind == kind,
{
}

/// Every slot's colliders are in the world, and every collider in the world
/// that has no body stands in a slot or is part of a hand-drawn world: nothing
/// dangles, nothing is left behind.
pub proof fn nothing_leaks(scene: Scene, h: Handle)
    requires
        scene.wf(),
    ensures
        scene.world.free().dom().contains(h) <==> {
            ||| exists|i: int, j: int| holds(scene.cave.slots@, i, j, h)
            ||| exists|i: int, j: int| holds(scene.shafts.slots@, i, j, h)
            ||| exists|i: int, j: int| holds(scene.obstacles.slots@, i, j, h)
            ||| exists|i: int, j: int| holds(scene.pads.slots@, i, j, h)
            ||| scene.owners@.dom().contains(h) && scene.owners@[h].kind == Kind::Fixed
        },
{
    let o = scene.owners@;
    if o.dom().contains(h) {
        match o[h].kind {
            Kind::Cave => lemma_found(scene.cave.slots@, Kind::Cave, scene, h),
            Kind::Shaft => lemma_found(scene.shafts.slots@, Kind::Shaft, scene, h),
            Kind::Obstacle => lemma_found(scene.obstacles.slots@, Kind::Obstacle, scene, h),
            Kind::Pad => lemma_found(scene.pads.slots@, Kind::Pad, scene, h),
            Kind::Fixed => {},
        }
    }
    assert forall|i: int, j: int| holds(scene.cave.slots@, i, j, h) implies o.dom().contains(h) by {
        lemma_kind(scene.cave.slots@, Kind::Cave, scene, i, j, h);
    }
    assert forall|i: int, j: int| holds(scene.shafts.slots@, i, j, h) implies o.dom().contains(h) by {
        lemma_kind(scene.shafts.slots@, Kind::Shaft, scene, i, j, h);
    }
    assert forall|i: int, j: int| holds(scene.obstacles.slots@, i, j, h) implies o.dom().contains(h) by {
        lemma_kind(scene.obstacles.slots@, Kind::Obstacle, scene, i, j, h);
    }
    assert forall|i: int, j: int| holds(scene.pads.slots@, i, j, h) implies o.dom().contains(h) by {
        lemma_kind(scene.pads.slots@, Kind::Pad, scene, i, j, h);
    }
}

proof fn lemma_found<V>(s: Seq<Loaded<V>>, kind: Kind, scene: Scene, h: Handle)
    requires
        in_step(s, kind, scene.owners@),
        scene.owners@.dom().contains(h),
        scene.owners@[h].kind == kind,
    ensures
        exists|i: int, j: int| holds(s, i, j, h),
{
    let o = scene.owners@;
    let i = choose|i: int| #[trigger] holds_at(s, i, o[h].key, o[h].place, h);
    assert(holds(s, i, o[h].place, h));
}

/// Wherever the windows stand, the cave around is loaded: 80 segments to
/// either side, in the ship's layer and in the layers above and below; and
/// nothing of the cave beyond.
pub proof fn the_ground_is_there<T: Fn(Wave, F32) -> F32, S: Fn(Edge) -> Collider, H: Fn(Boulder) -> Option<(Collider, Vec<Vec2>)>>(
    scene: Scene,
    old_scene: Scene,
    level: &Level,
    trig: &T,
    segment: &S,
    hull: &H,
    at: Key,
    k: Key,
)
    requires
        level.terrain is None,
        scene.synced_from(&old_scene, level, trig, segment, hull, at),
    ensures
        has_key(scene.cave.slots@, k) <==> at.1 - 1 <= k.0 <= at.1 + 1 && at.0 - 80 <= k.1
            <= at.0 + 80,
{
    let maker = CaveMaker { level, trig, segment };
    let s = scene.cave.slots@;
    if cave_span(at)(k) {
        assert(!maker.makes(k, None));
    }
    if has_key(s, k) {
        let i = choose|i: int| 0 <= i < s.len() && #[trigger] s[i].key == k;
        assert(has_slot(s, s[i]));
    }
}

/// `e` is a pad as the level puts it: in its slot, or at the finish.
pub open spec fn right_pad(level: LevelView, w: spec_fn(Wave, F32) -> F32, e: Loaded<Pad>) -> bool {
    ||| level.pad(w, e.key.0 as int) is Some && e.item == pad_in(level.pad(w, e.key.0 as int)->0, e.key.1 as int)
    ||| e.key.0 == GOAL_SLOT_POS && level.goal_pad(w, 1) is Some && e.item == pad_in(
        level.goal_pad(w, 1)->0,
        e.key.1 as int,
    )
    ||| e.key.0 == GOAL_SLOT_NEG && level.goal_pad(w, -1) is Some && e.item == pad_in(
        level.goal_pad(w, -1)->0,
        e.key.1 as int,
    )
}

/// The decks that the ship can land on are where the level puts its pads, and
/// stay so however the window moves.
pub proof fn pads_stay_right<T: Fn(Wave, F32) -> F32, S: Fn(Edge) -> Collider>(
    s: Seq<Loaded<Pad>>,
    t: Seq<Loaded<Pad>>,
    level: &Level,
    trig: &T,
    segment: &S,
    at: Key,
    free: Map<Handle, Set<Collider>>,
)
    requires
        slid_pads(s, t, level, trig, segment, at, free),
        forall|e: Loaded<Pad>| #[trigger] has_slot(s, e) ==> right_pad(level@, wave_of(*trig), e),
    ensures
        forall|e: Loaded<Pad>| #[trigger] has_slot(t, e) ==> right_pad(level@, wave_of(*trig), e),
{
    let w = wave_of(*trig);
    assert forall|e: Loaded<Pad>| #[trigger] has_slot(t, e) implies right_pad(level@, w, e) by {
        if has_slot(s, e) {
        } else if is_finish(level, trig, segment, at, GOAL_SLOT_POS, 1, free, e) {
            lemma_finish_right(level, trig, segment, at, GOAL_SLOT_POS, 1, free, e);
        } else if is_finish(level, trig, segment, at, GOAL_SLOT_NEG, -1, free, e) {
            lemma_finish_right(level, trig, segment, at, GOAL_SLOT_NEG, -1, free, e);
        } else {
            let maker = PadMaker { level, trig, segment };
            let cs = choose|cs: Seq<Collider>| #[trigger]
                maker.makes(e.key, Some((cs, e.item))) && stored(free, e.handles@, cs);
            assert(maker.makes(e.key, Some((cs, e.item))));
        }
    }
}

proof fn lemma_finish_right<T: Fn(Wave, F32) -> F32, S: Fn(Edge) -> Collider>(
    level: &Level,
    trig: &T,
    segment: &S,
    at: Key,
    slot: i64,
    side: int,
    free: Map<Handle, Set<Collider>>,
    e: Loaded<Pad>,
)
    requires
        is_finish(level, trig, segment, at, slot, side, free, e),
    ensures
        e.key.0 == slot,
        level@.goal_pad(wave_of(*trig), side) is Some,
        e.item == pad_in(level@.goal_pad(wave_of(*trig), side)->0, e.key.1 as int),
{
    let spec = finish_due(level@, wave_of(*trig), at, side)->0;
    let maker = FinishMaker { spec, segment };
    let cs = choose|cs: Seq<Collider>| #[trigger]
        maker.makes(e.key, Some((cs, e.item))) && stored(free, e.handles@, cs);
    assert(maker.makes(e.key, Some((cs, e.item))));
}

/// Every collider without a body stands in a slot.
pub open spec fn only_slots(scene: Scene) -> bool {
    forall|h: Handle| #[trigger]
        scene.owners@.dom().contains(h) ==> scene.owners@[h].kind != Kind::Fixed
}

/// In a generated world every collider without a body stands in a slot, from
/// the start and however the windows move.
pub proof fn generated_worlds_are_all_slots<T: Fn(Wave, F32) -> F32, S: Fn(Edge) -> Collider, H: Fn(Boulder) -> Option<(Collider, Vec<Vec2>)>>(
    o: Scene,
    n: Scene,
    level: &Level,
    trig: &T,
    segment: &S,
    hull: &H,
    at: Key,
)
    requires
        level.terrain is None,
        n.synced_from(&o, level, trig, segment, hull, at),
    ensures
        o.blank() ==> only_slots(o),
        only_slots(o) ==> only_slots(n),
{
}

/// A hand-drawn world is loaded exactly once: after that, no move of the ship
/// touches the collider set, nor what is loaded.
pub proof fn drawn_worlds_load_once<T: Fn(Wave, F32) -> F32, S: Fn(Edge) -> Collider, H: Fn(Boulder) -> Option<(Collider, Vec<Vec2>)>>(
    o: Scene,
    n: Scene,
    m: Scene,
    level: &Level,
    trig: &T,
    segment: &S,
    hull: &H,
    at: Key,
    at2: Key,
)
    requires
        level.terrain is Some,
        n.synced_from(&o, level, trig, segment, hull, at),
        m.synced_from(&n, level, trig, segment, hull, at2),
    ensures
        m.world == n.world,
        m.same_windows(&n),
        m.owners == n.owners,
{
}

} // verus!
