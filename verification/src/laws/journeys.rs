//! Laws of worlds that move from place to place: what they hold in the end, and
//! what has been done to the engine on the way.

use crate::binary32::arith::{f_add, f_mul, f_neg, f_sub};
use crate::binary32::convert::f_of_int;
use crate::binary32::facts::lemma_units_zero;
use crate::binary32::order::f_le;
use crate::binary32::{fl, F32};
use crate::cave::{wave_of, Wave, SEG_LEN};
use crate::laws::rises::lemma_int;
use crate::laws::windows::{
    decided, faithful, histories_agree, new_worlds_agree, nothing_is_faithful, pad_there, plain_pad,
    same_look, same_scene, short_of_finish, the_place_settles_the_pads, the_place_settles_the_scene,
    twins,
};
use crate::level::{Level, LevelView, Vec2};
use crate::pad::{GOAL_SLOT_NEG, GOAL_SLOT_POS};
use crate::scene::{
    boulder_span, cave_span, finish_due, left_x, other_due, pad_moves, pad_stays, right_x, shaft_lines,
    shaft_span, slot_due, Scene, HALF_WINDOW, PAD_MARGIN,
};
use crate::scenery::{Boulder, Edge, Pad, Shaft};
use crate::slots::{
    absent, ascending, has_key, has_slot, in_line, kept, key_lt, lemma_kept, moves, rows, unless,
    within, Key, Kind, Loaded, Op,
};
use rapier2d::geometry::Collider;
use vstd::arithmetic::power2::lemma_pow2_pos;
use vstd::prelude::*;

verus! {

/// One move of a world: from `path[i]` to `path[i + 1]`, to the place `keys[i]`.
pub open spec fn leg<T: Fn(Wave, F32) -> F32, S: Fn(Edge) -> Collider, H: Fn(Boulder) -> Option<(Collider, Vec<Vec2>)>>(
    path: Seq<Scene>,
    keys: Seq<Key>,
    i: int,
    level: &Level,
    trig: &T,
    segment: &S,
    hull: &H,
) -> bool {
    path[i + 1].synced_from(&path[i], level, trig, segment, hull, keys[i])
}

/// A generated world that starts with nothing loaded and moves to the places
/// `keys`, one after the other. Slots there have numbers below those of the
/// finish.
pub open spec fn journey<T: Fn(Wave, F32) -> F32, S: Fn(Edge) -> Collider, H: Fn(Boulder) -> Option<(Collider, Vec<Vec2>)>>(
    path: Seq<Scene>,
    keys: Seq<Key>,
    level: &Level,
    trig: &T,
    segment: &S,
    hull: &H,
) -> bool {
    &&& level.terrain is None
    &&& path.len() == keys.len() + 1
    &&& path[0].blank()
    &&& forall|i: int| 0 <= i < path.len() ==> (#[trigger] path[i]).wf()
    &&& forall|i: int| 0 <= i < keys.len() ==> #[trigger] leg(path, keys, i, level, trig, segment, hull)
    &&& forall|i: int| 0 <= i < keys.len() ==> short_of_finish(level@, #[trigger] keys[i])
}

/// Wherever a world goes, every slot that it holds is what the level has there.
pub proof fn journeys_are_faithful<T: Fn(Wave, F32) -> F32, S: Fn(Edge) -> Collider, H: Fn(Boulder) -> Option<(Collider, Vec<Vec2>)>>(
    path: Seq<Scene>,
    keys: Seq<Key>,
    level: &Level,
    trig: &T,
    segment: &S,
    hull: &H,
    n: int,
)
    requires
        journey(path, keys, level, trig, segment, hull),
        decided(*hull),
        0 <= n < path.len(),
    ensures
        faithful(path[n], level, trig, segment, hull),
    decreases n,
{
    if n == 0 {
        nothing_is_faithful(path[0], level, trig, segment, hull);
    } else {
        let i = n - 1;
        journeys_are_faithful(path, keys, level, trig, segment, hull, i);
        assert(leg(path, keys, i, level, trig, segment, hull));
        assert(path[n].wf() && short_of_finish(level@, keys[i]));
        the_place_settles_the_scene(
            path[i],
            path[n],
            path[i],
            path[n],
            level,
            trig,
            segment,
            hull,
            keys[i],
        );
    }
}

/// What a world holds is a function of its level and its last place: two worlds
/// of one level that end at the same place hold the same slots there, whichever
/// way each of them came.
pub proof fn journeys_end_alike<T: Fn(Wave, F32) -> F32, S: Fn(Edge) -> Collider, H: Fn(Boulder) -> Option<(Collider, Vec<Vec2>)>>(
    path: Seq<Scene>,
    keys: Seq<Key>,
    path2: Seq<Scene>,
    keys2: Seq<Key>,
    level: &Level,
    trig: &T,
    segment: &S,
    hull: &H,
)
    requires
        journey(path, keys, level, trig, segment, hull),
        journey(path2, keys2, level, trig, segment, hull),
        decided(*hull),
        keys.len() > 0,
        keys2.len() > 0,
        keys.last() == keys2.last(),
    ensures
        same_scene(path.last(), path2.last()),
{
    let (i, j) = (keys.len() - 1, keys2.len() - 1);
    journeys_are_faithful(path, keys, level, trig, segment, hull, i);
    journeys_are_faithful(path2, keys2, level, trig, segment, hull, j);
    assert(leg(path, keys, i, level, trig, segment, hull));
    assert(leg(path2, keys2, j, level, trig, segment, hull));
    assert(path[i + 1].wf() && path2[j + 1].wf() && short_of_finish(level@, keys[i]));
    the_place_settles_the_scene(
        path[i],
        path[i + 1],
        path2[j],
        path2[j + 1],
        level,
        trig,
        segment,
        hull,
        keys[i],
    );
}

/// Two worlds of one level that go the same way hold the same slots at every
/// place of it, and the same has been done to their engines in the same order.
pub proof fn journeys_agree<T: Fn(Wave, F32) -> F32, S: Fn(Edge) -> Collider, H: Fn(Boulder) -> Option<(Collider, Vec<Vec2>)>>(
    path: Seq<Scene>,
    path2: Seq<Scene>,
    keys: Seq<Key>,
    level: &Level,
    trig: &T,
    segment: &S,
    hull: &H,
    n: int,
)
    requires
        journey(path, keys, level, trig, segment, hull),
        journey(path2, keys, level, trig, segment, hull),
        decided(*hull),
        path[0].world.log@ == path2[0].world.log@,
        0 <= n < path.len(),
    ensures
        same_scene(path[n], path2[n]),
        path[n].world.log@ == path2[n].world.log@,
    decreases n,
{
    if n == 0 {
        new_worlds_agree(path[0], path2[0]);
    } else {
        let i = n - 1;
        journeys_agree(path, path2, keys, level, trig, segment, hull, i);
        journeys_are_faithful(path, keys, level, trig, segment, hull, i);
        journeys_are_faithful(path2, keys, level, trig, segment, hull, i);
        assert(leg(path, keys, i, level, trig, segment, hull));
        assert(leg(path2, keys, i, level, trig, segment, hull));
        assert(path[n].wf() && path2[n].wf() && short_of_finish(level@, keys[i]));
        histories_agree(
            path[i],
            path[n],
            path2[i],
            path2[n],
            level,
            trig,
            segment,
            hull,
            keys[i],
        );
    }
}

// ---- Coming to the same place twice ----

proof fn lemma_still<V: View>(t: Seq<Loaded<V>>, u: Seq<Loaded<V>>)
    requires
        same_look(t, u),
        ascending(u),
        forall|e: Loaded<V>| #[trigger] has_slot(t, e) ==> has_slot(u, e),
    ensures
        t == u,
{
    assert forall|i: int| 0 <= i < t.len() implies t[i] == u[i] by {
        assert(has_slot(t, t[i]));
        let j = choose|j: int| 0 <= j < u.len() && #[trigger] u[j] == t[i];
        assert(twins(t[i], u[i]));
        if i < j {
            assert(key_lt(u[i].key, u[j].key));
        } else if j < i {
            assert(key_lt(u[j].key, u[i].key));
        }
    }
    assert(t =~= u);
}

proof fn lemma_none_kept<V>(s: Seq<Loaded<V>>, keep: spec_fn(Key, V) -> bool)
    requires
        forall|e: Loaded<V>| #[trigger] has_slot(s, e) ==> !keep(e.key, e.item),
    ensures
        kept(s, keep) == Seq::<Loaded<V>>::empty(),
{
    lemma_kept(s, keep);
    let k = kept(s, keep);
    if k.len() > 0 {
        assert(has_slot(k, k[0]));
    }
    assert(k =~= Seq::empty());
}

proof fn lemma_no_rows<V>(s: Seq<Loaded<V>>, lo: int, hi: int, swap: bool, p: spec_fn(Key) -> bool)
    requires
        forall|e: Loaded<V>| #[trigger] has_slot(s, e) ==> !p(e.key),
    ensures
        rows(s, lo, hi, swap, p) == Seq::<Loaded<V>>::empty(),
    decreases hi - lo + 1,
{
    if lo <= hi {
        lemma_no_rows(s, lo, hi - 1, swap, p);
        lemma_none_kept(s, in_line(hi, swap, p));
        assert(rows(s, lo, hi, swap, p) =~= Seq::empty());
    }
}

proof fn lemma_has_key<V>(s: Seq<Loaded<V>>, e: Loaded<V>)
    requires
        has_slot(s, e),
    ensures
        has_key(s, e.key),
{
    let i = choose|i: int| 0 <= i < s.len() && #[trigger] s[i] == e;
    assert(s[i].key == e.key);
}

proof fn lemma_no_moves<V>(kind: Kind, s: Seq<Loaded<V>>, lo: int, hi: int, swap: bool, span: spec_fn(Key) -> bool)
    requires
        forall|e: Loaded<V>| #[trigger] has_slot(s, e) ==> span(e.key),
    ensures
        moves(kind, s, s, lo, hi, swap, span) == Seq::<Op>::empty(),
{
    lemma_none_kept(s, unless(within(span)));
    assert forall|e: Loaded<V>| #[trigger] has_slot(s, e) implies !absent(s)(e.key) by {
        lemma_has_key(s, e);
    }
    lemma_no_rows(s, lo, hi, swap, absent(s));
    assert(moves(kind, s, s, lo, hi, swap, span) =~= Seq::empty());
}

proof fn lemma_no_pad_moves(s: Seq<Loaded<Pad>>, level: LevelView, w: spec_fn(Wave, F32) -> F32, at: Key)
    requires
        forall|e: Loaded<Pad>| #[trigger] has_slot(s, e) ==> pad_stays(level, at)(e.key, e.item),
    ensures
        pad_moves(s, s, level, w, at) == Seq::<Op>::empty(),
{
    let stay = kept(s, pad_stays(level, at));
    lemma_none_kept(s, unless(pad_stays(level, at)));
    lemma_kept(s, pad_stays(level, at));
    let slots = slot_due(stay, level, w, at);
    let other = other_due(stay, level, w, at);
    assert forall|e: Loaded<Pad>| #[trigger] has_slot(s, e) implies !slots(e.key) && !other(e.key) by {
        assert(has_slot(stay, e));
        lemma_has_key(stay, e);
    }
    let (a, b) = (GOAL_SLOT_POS as int, GOAL_SLOT_NEG as int);
    lemma_no_rows(s, at.1 - 1, at.1 + 1, true, slots);
    lemma_no_rows(s, a, a, false, other);
    lemma_no_rows(s, b, b, false, other);
    assert(pad_moves(s, s, level, w, at) =~= Seq::empty());
}

/// A pad that the window around `at` holds may stay there.
proof fn lemma_pads_stay<T: Fn(Wave, F32) -> F32>(level: &Level, trig: &T, at: Key, e: Loaded<Pad>)
    requires
        !level.goal_distance.nan(),
        plain_pad(level@, wave_of(*trig), e),
        pad_there(level@, wave_of(*trig), at, e.key),
    ensures
        pad_stays(level@, at)(e.key, e.item),
{
    let w = wave_of(*trig);
    if e.key.0 == GOAL_SLOT_POS {
        lemma_finish_stays(level@, w, at, 1);
    } else if e.key.0 == GOAL_SLOT_NEG {
        lemma_finish_stays(level@, w, at, -1);
    }
}

proof fn lemma_finish_stays(level: LevelView, w: spec_fn(Wave, F32) -> F32, at: Key, side: int)
    requires
        !level.goal_distance.nan(),
        side == 1 || side == -1,
        finish_due(level, w, at, side) is Some,
    ensures
        level.goal_pad(w, side) is Some,
        f_le(f_sub(left_x(at), fl(PAD_MARGIN)), level.goal_pad(w, side)->0.cx),
        f_le(level.goal_pad(w, side)->0.cx, f_add(right_x(at), fl(PAD_MARGIN))),
{
    let x = level.goal_pad(w, side)->0.cx;
    let one = f_of_int(side);
    assert(x == f_mul(level.goal_distance, one));
    lemma_unit(side);
    lemma_product_is_a_number(level.goal_distance, one);
    let (a, b) = (f_of_int(at.0 - HALF_WINDOW), f_of_int(at.0 + HALF_WINDOW + 1));
    lemma_whole_number(at.0 - HALF_WINDOW);
    lemma_whole_number(at.0 + HALF_WINDOW + 1);
    lemma_product_is_a_number(a, fl(SEG_LEN));
    lemma_product_is_a_number(b, fl(SEG_LEN));
    lemma_sum_is_a_number(left_x(at), f_neg(fl(PAD_MARGIN)));
    lemma_sum_is_a_number(right_x(at), fl(PAD_MARGIN));
}

proof fn lemma_unit(side: int)
    requires
        side == 1 || side == -1,
    ensures
        f_of_int(side).finite(),
        f_of_int(side).mag() > 0,
{
    lemma_int(side);
    lemma_pow2_pos(149);
    lemma_units_zero();
}

proof fn lemma_whole_number(i: int)
    ensures
        !f_of_int(i).nan(),
{
    reveal(f_of_int);
}

proof fn lemma_product_is_a_number(a: F32, b: F32)
    requires
        !a.nan(),
        b.finite(),
        b.mag() > 0,
    ensures
        !f_mul(a, b).nan(),
{
    reveal(f_mul);
}

proof fn lemma_sum_is_a_number(a: F32, b: F32)
    requires
        !a.nan(),
        b.finite(),
    ensures
        !f_add(a, b).nan(),
{
    reveal(f_add);
}

/// A world that is told to move where it already is stays as it is: nothing
/// enters and nothing leaves. The finish of a level must not be at NaN, where
/// it never stays loaded.
pub proof fn a_second_sync_changes_nothing<T: Fn(Wave, F32) -> F32, S: Fn(Edge) -> Collider, H: Fn(Boulder) -> Option<(Collider, Vec<Vec2>)>>(
    o: Scene,
    n: Scene,
    again: Scene,
    level: &Level,
    trig: &T,
    segment: &S,
    hull: &H,
    at: Key,
)
    requires
        level.terrain is None,
        !level.goal_distance.nan(),
        decided(*hull),
        short_of_finish(level@, at),
        n.wf(),
        again.wf(),
        faithful(o, level, trig, segment, hull),
        n.synced_from(&o, level, trig, segment, hull, at),
        again.synced_from(&n, level, trig, segment, hull, at),
    ensures
        again.cave.slots@ == n.cave.slots@,
        again.shafts.slots@ == n.shafts.slots@,
        again.obstacles.slots@ == n.obstacles.slots@,
        again.pads.slots@ == n.pads.slots@,
        again.world.log@ == n.world.log@,
{
    let w = wave_of(*trig);
    the_place_settles_the_scene(o, n, o, n, level, trig, segment, hull, at);
    the_place_settles_the_scene(o, n, n, again, level, trig, segment, hull, at);
    lemma_still(n.cave.slots@, again.cave.slots@);
    lemma_still(n.obstacles.slots@, again.obstacles.slots@);
    lemma_no_moves(Kind::Cave, n.cave.slots@, at.1 - 1, at.1 + 1, false, cave_span(at));
    lemma_no_moves(Kind::Obstacle, n.obstacles.slots@, at.1 - 1, at.1 + 1, true, boulder_span(at));
    if level.shafts {
        lemma_still(n.shafts.slots@, again.shafts.slots@);
        let l = shaft_lines(at);
        lemma_no_moves(Kind::Shaft, n.shafts.slots@, l.0, l.1, false, shaft_span(at));
    } else {
        assert(again.shafts.slots@ =~= n.shafts.slots@);
        assert forall|e: Loaded<Shaft>| #[trigger] has_slot(n.shafts.slots@, e) implies false by {}
        lemma_none_kept(n.shafts.slots@, unless(within(shaft_span(at))));
    }
    let p = n.pads.slots@;
    assert forall|e: Loaded<Pad>| #[trigger] has_slot(p, e) implies pad_stays(level@, at)(e.key, e.item) by {
        lemma_has_key(p, e);
        the_place_settles_the_pads(o.pads.slots@, p, level, trig, segment, at, n.world.free(), e.key);
        lemma_pads_stay(level, trig, at, e);
    }
    lemma_still(p, again.pads.slots@);
    lemma_no_pad_moves(p, level@, w, at);
    assert(again.operations(&n, level@, w, at) =~= Seq::<Op>::empty());
    assert(again.world.log@ =~= n.world.log@);
}

} // verus!
