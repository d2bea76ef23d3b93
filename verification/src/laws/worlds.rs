//! Laws of the generated world.

use crate::binary32::arith::{f_abs, f_add, f_div, f_mul, f_sub};
use crate::binary32::convert::{f_of_int, f_round, f_to_i64};
use crate::binary32::order::f_lt;
use crate::binary32::{fl, F32};
use crate::cave::{Wave, SEG_LEN};
use crate::level::LevelView;
use crate::obstacle::{OBSTACLE_CLEAR, OBSTACLE_MIN_HALF, RESET_X};
use crate::pad::{PAD_GOAL_CLEAR, PAD_MIN_HALF};
use vstd::prelude::*;

verus! {

/// Seed 0 is the plain cave: no phase is shifted, no slot is reseeded.
pub proof fn seed_zero_is_plain(l: LevelView, salt: u32, k: u32)
    requires
        l.seed == 0,
    ensures
        l.phase(salt) == fl(0),
        l.slot_seed(k) == k,
{
    assert(k ^ 0u32 == k) by (bit_vector);
}

/// Shafts come four to a period: slots that are four apart open alike, 200
/// segments on.
pub proof fn shafts_repeat(l: LevelView, s: int)
    ensures
        l.shaft_open(s + 4) == l.shaft_open(s) + 200,
        l.wall_hash(s + 4, 0) == l.wall_hash(s, 0),
        l.wall_hash(s + 4, 1) == l.wall_hash(s, 1),
{
    assert((s + 4) % 4 == s % 4);
}

/// So do the segments that are left out for them.
pub proof fn openings_repeat(l: LevelView, idx: int)
    ensures
        l.in_opening(idx + 200) == l.in_opening(idx),
{
    if l.in_opening(idx) {
        let s = choose|s: int| #[trigger] l.opens(s, idx);
        shafts_repeat(l, s);
        assert(l.opens(s + 4, idx + 200));
    }
    if l.in_opening(idx + 200) {
        let s = choose|s: int| #[trigger] l.opens(s, idx + 200);
        shafts_repeat(l, s - 4);
        assert(l.opens(s - 4, idx));
    }
}

proof fn lemma_jitter(l: LevelView, s: int)
    ensures
        -6 <= l.shaft_jitter(s) <= 6,
{
}

/// Openings lie apart: at least 35 closed segments come between two shafts.
pub proof fn openings_lie_apart(l: LevelView, s: int, t: int)
    requires
        s < t,
    ensures
        l.shaft_open(s) + 3 + 35 <= l.shaft_open(t),
{
    lemma_jitter(l, s);
    lemma_jitter(l, t);
    assert(s * 50 + 50 <= t * 50);
}

/// A segment belongs to one shaft at most.
pub proof fn one_shaft_per_segment(l: LevelView, s: int, t: int, idx: int)
    requires
        l.opens(s, idx),
        l.opens(t, idx),
    ensures
        s == t,
{
    if s < t {
        openings_lie_apart(l, s, t);
    } else if t < s {
        openings_lie_apart(l, t, s);
    }
}

/// No shaft opens under the start, nor under the old reset point at 64 m,
/// whatever the seed: segments -6 to 28 are closed.
pub proof fn the_start_is_closed(l: LevelView, idx: int)
    requires
        -6 <= idx <= 28,
    ensures
        !l.in_opening(idx),
{
    if l.in_opening(idx) {
        let s = choose|s: int| #[trigger] l.opens(s, idx);
        lemma_jitter(l, s);
        assert(s * 50 + 35 - 6 <= idx && idx < s * 50 + 35 + 6 + 3);
        assert(false);
    }
}

/// A boulder keeps clear of the start, of the old reset point, of the finish
/// pads and of the shafts next to it, and stands only where the cave is wide.
pub proof fn boulders_keep_clear(l: LevelView, w: spec_fn(Wave, F32) -> F32, k: int)
    requires
        l.obstacle(w, k) is Some,
    ensures
        ({
            let cx = l.obstacle(w, k)->0.cx;
            &&& !f_lt(f_abs(cx), fl(OBSTACLE_CLEAR))
            &&& !f_lt(f_abs(f_sub(cx, fl(RESET_X))), fl(OBSTACLE_CLEAR))
            &&& !l.near_goal(cx, fl(OBSTACLE_CLEAR))
            &&& !l.near_shaft(cx)
            &&& !f_lt(l.half_width(w, cx), fl(OBSTACLE_MIN_HALF))
        }),
        6 <= l.obstacle(w, k)->0.pts.len() <= 9,
{
}

/// A pad keeps clear of the finish pads, of the shafts next to it and of every
/// boulder that could reach it, and has headroom.
pub proof fn pads_keep_clear(l: LevelView, w: spec_fn(Wave, F32) -> F32, p: int)
    requires
        l.pad(w, p) is Some,
    ensures
        ({
            let cx = l.pad(w, p)->0.cx;
            &&& !l.near_goal(cx, fl(PAD_GOAL_CLEAR))
            &&& !l.near_shaft(cx)
            &&& !l.boulder_at(w, cx)
            &&& !f_lt(l.half_width(w, cx), fl(PAD_MIN_HALF))
        }),
{
}

/// A goal level has a finish pad on either side, whatever the cave looks like
/// there; a level without a goal has none.
pub proof fn goals_have_finishes(l: LevelView, w: spec_fn(Wave, F32) -> F32, side: int)
    ensures
        f_lt(fl(0), l.goal_distance) ==> l.goal_pad(w, side) is Some && l.goal_pad(w, side)->0.cx
            == f_mul(l.goal_distance, f_of_int(side)),
        l.goal_distance == fl(0) ==> l.goal_pad(w, side) is None,
{
}

/// A level without shafts has no openings, one without boulders no boulders.
pub proof fn switches_switch_off(l: LevelView, w: spec_fn(Wave, F32) -> F32, idx: int)
    ensures
        !l.shafts ==> !l.in_opening(idx),
        !l.obstacles ==> l.obstacle(w, idx) is None,
{
}

/// The same level but for its name and for the flag that its seed is rolled.
pub open spec fn same_ground(a: LevelView, b: LevelView) -> bool {
    a == (LevelView { name: a.name, random_seed: a.random_seed, ..b })
}

proof fn lemma_same_width(a: LevelView, b: LevelView, w: spec_fn(Wave, F32) -> F32, x: F32)
    requires
        same_ground(a, b),
    ensures
        a.center(w, x) == b.center(w, x),
        a.half_width(w, x) == b.half_width(w, x),
        a.floor_y(w, x) == b.floor_y(w, x),
        a.ceiling_y(w, x) == b.ceiling_y(w, x),
{
}

proof fn lemma_same_deck(a: LevelView, b: LevelView, w: spec_fn(Wave, F32) -> F32, cx: F32, n: nat)
    requires
        same_ground(a, b),
    ensures
        a.deck_floor(w, cx, n) == b.deck_floor(w, cx, n),
    decreases n,
{
    if n > 0 {
        lemma_same_deck(a, b, w, cx, (n - 1) as nat);
    }
}

proof fn lemma_same_shafts(a: LevelView, b: LevelView, cx: F32)
    requires
        same_ground(a, b),
    ensures
        a.near_shaft(cx) == b.near_shaft(cx),
        a.near_goal(cx, fl(OBSTACLE_CLEAR)) == b.near_goal(cx, fl(OBSTACLE_CLEAR)),
        a.near_goal(cx, fl(PAD_GOAL_CLEAR)) == b.near_goal(cx, fl(PAD_GOAL_CLEAR)),
{
    assert forall|s: int| #[trigger] a.shaft_open(s) == b.shaft_open(s) by {}
    assert forall|s: int| #[trigger] a.by_shaft(cx, s) == b.by_shaft(cx, s) by {
        assert(a.shaft_open(s) == b.shaft_open(s));
    }
}

proof fn lemma_same_obstacle(a: LevelView, b: LevelView, w: spec_fn(Wave, F32) -> F32, k: int)
    requires
        same_ground(a, b),
    ensures
        a.obstacle(w, k) == b.obstacle(w, k),
{
    let cx = a.obstacle_x(k);
    assert(cx == b.obstacle_x(k));
    lemma_same_width(a, b, w, cx);
    lemma_same_shafts(a, b, cx);
    assert(a.has_obstacle(w, k) == b.has_obstacle(w, k));
    assert(a.obstacle_radius(w, k) == b.obstacle_radius(w, k));
    assert(a.obstacle_y(w, k) == b.obstacle_y(w, k));
    assert(a.obstacle_points(k) == b.obstacle_points(k));
    if a.has_obstacle(w, k) {
        assert forall|i: int| #[trigger] a.obstacle_point(w, k, i) == b.obstacle_point(w, k, i) by {}
        assert(a.obstacle(w, k)->0.pts =~= b.obstacle(w, k)->0.pts);
    }
}

proof fn lemma_same_pad(a: LevelView, b: LevelView, w: spec_fn(Wave, F32) -> F32, p: int)
    requires
        same_ground(a, b),
    ensures
        a.pad(w, p) == b.pad(w, p),
{
    let cx = a.pad_x(p);
    assert(cx == b.pad_x(p));
    lemma_same_width(a, b, w, cx);
    lemma_same_shafts(a, b, cx);
    lemma_same_deck(a, b, w, cx, 13);
    assert forall|k: int| #[trigger] a.boulder_hits(w, cx, k) == b.boulder_hits(w, cx, k) by {
        lemma_same_obstacle(a, b, w, k);
    }
}

proof fn lemma_same_wall(a: LevelView, b: LevelView, w: spec_fn(Wave, F32) -> F32, s: int, gap: int, side: u8)
    requires
        same_ground(a, b),
    ensures
        a.wall(w, s, gap, side) == b.wall(w, s, gap, side),
{
    let xe = a.shaft_edge(s, side);
    assert(xe == b.shaft_edge(s, side)) by {
        assert(a.shaft_open(s) == b.shaft_open(s));
    }
    lemma_same_width(a, b, w, xe);
    assert(a.wall_bottom(w, s, gap, side) == b.wall_bottom(w, s, gap, side));
    assert(a.wall_top(w, s, gap, side) == b.wall_top(w, s, gap, side));
    assert(a.wall_steps(w, s, gap, side) == b.wall_steps(w, s, gap, side));
    assert forall|t: F32| #[trigger] a.wall_x(w, s, side, t) == b.wall_x(w, s, side, t) by {}
    assert(a.wall(w, s, gap, side) =~= b.wall(w, s, gap, side));
}

proof fn lemma_same_opening(a: LevelView, b: LevelView, idx: int)
    requires
        same_ground(a, b),
    ensures
        a.in_opening(idx) == b.in_opening(idx),
{
    assert forall|s: int| #[trigger] a.opens(s, idx) == b.opens(s, idx) by {
        assert(a.shaft_open(s) == b.shaft_open(s));
    }
    if a.in_opening(idx) {
        let s = choose|s: int| #[trigger] a.opens(s, idx);
        assert(b.opens(s, idx));
    }
    if b.in_opening(idx) {
        let s = choose|s: int| #[trigger] b.opens(s, idx);
        assert(a.opens(s, idx));
    }
}

proof fn lemma_same_segment(a: LevelView, b: LevelView, w: spec_fn(Wave, F32) -> F32, i: i64)
    requires
        same_ground(a, b),
    ensures
        a.segment(w, i) == b.segment(w, i),
{
    let x0 = f_mul(f_of_int(i as int), fl(SEG_LEN));
    lemma_same_width(a, b, w, x0);
    lemma_same_width(a, b, w, f_add(x0, fl(SEG_LEN)));
}

proof fn lemma_same_goal(a: LevelView, b: LevelView, w: spec_fn(Wave, F32) -> F32, side: int)
    requires
        same_ground(a, b),
    ensures
        a.goal_pad(w, side) == b.goal_pad(w, side),
{
    lemma_same_deck(a, b, w, f_mul(a.goal_distance, f_of_int(side)), 13);
}

proof fn lemma_same_stand(a: LevelView, b: LevelView, w: spec_fn(Wave, F32) -> F32, x: F32)
    requires
        same_ground(a, b),
    ensures
        a.stand(w, x) == b.stand(w, x),
{
    let p0 = f_to_i64(f_round(f_div(x, a.pad_spacing))) as int;
    lemma_same_width(a, b, w, x);
    lemma_same_pad(a, b, w, p0 - 1);
    lemma_same_pad(a, b, w, p0);
    lemma_same_pad(a, b, w, p0 + 1);
    lemma_same_goal(a, b, w, 1);
    lemma_same_goal(a, b, w, -1);
}

/// The world does not depend on a level's name, nor on whether its seed was
/// rolled: cave, shafts, boulders, pads, finish and spawn are the same.
pub proof fn labels_do_not_shape_the_world(a: LevelView, b: LevelView, w: spec_fn(Wave, F32) -> F32, i: i64, gap: int, side: u8, x: F32)
    requires
        same_ground(a, b),
    ensures
        a.segment(w, i) == b.segment(w, i),
        a.in_opening(i as int) == b.in_opening(i as int),
        a.wall(w, i as int, gap, side) == b.wall(w, i as int, gap, side),
        a.obstacle(w, i as int) == b.obstacle(w, i as int),
        a.pad(w, i as int) == b.pad(w, i as int),
        a.goal_pad(w, side as int) == b.goal_pad(w, side as int),
        a.stand(w, x) == b.stand(w, x),
{
    lemma_same_segment(a, b, w, i);
    lemma_same_opening(a, b, i as int);
    lemma_same_wall(a, b, w, i as int, gap, side);
    lemma_same_obstacle(a, b, w, i as int);
    lemma_same_pad(a, b, w, i as int);
    lemma_same_goal(a, b, w, side as int);
    lemma_same_stand(a, b, w, x);
}

} // verus!
