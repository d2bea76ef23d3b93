//! Laws of decks and of the ground: nothing that stands is sunk in the rock.

use crate::binary32::arith::{f_abs, f_div, f_neg, f_sub};
use crate::binary32::convert::{f_round, f_to_i64};
use crate::binary32::facts::{lemma_add_is_a_number, lemma_add_up};
use crate::binary32::order::f_le;
use crate::binary32::{fl, F32};
use crate::cave::Wave;
use crate::laws::caves::{bounded_wave, the_cave_stays_level, the_cave_stays_open};
use crate::level::LevelView;
use crate::pad::{deck_point, raised, PadSpec, DECK_LIFT, PAD_HALF_W, STAND};
use vstd::prelude::*;

verus! {

proof fn lemma_floor_is_a_number(l: LevelView, w: spec_fn(Wave, F32) -> F32, x: F32)
    requires
        x.finite(),
        !l.endless ==> bounded_wave(w),
    ensures
        !l.floor_y(w, x).nan(),
{
    the_cave_stays_open(l, w, x);
    the_cave_stays_level(l, w, x);
    lemma_add_is_a_number(l.center(w, x), f_neg(l.half_width(w, x)));
}

/// The highest of the first `n` floor points is at least as high as each.
proof fn lemma_deck_floor(l: LevelView, w: spec_fn(Wave, F32) -> F32, cx: F32, n: nat, i: int)
    requires
        !l.endless ==> bounded_wave(w),
        0 <= i < n,
        forall|j: int| 0 <= j < n ==> (#[trigger] deck_point(cx, j)).finite(),
    ensures
        f_le(l.floor_y(w, deck_point(cx, i)), l.deck_floor(w, cx, n)),
    decreases n,
{
    lemma_floor_is_a_number(l, w, deck_point(cx, n - 1));
    if i < n - 1 {
        lemma_deck_floor(l, w, cx, (n - 1) as nat, i);
    }
}

/// A deck dips below none of the 13 floor points that lie under it.
pub proof fn decks_clear_the_floor(l: LevelView, w: spec_fn(Wave, F32) -> F32, cx: F32, i: int)
    requires
        !l.endless ==> bounded_wave(w),
        0 <= i < 13,
        forall|j: int| 0 <= j < 13 ==> (#[trigger] deck_point(cx, j)).finite(),
    ensures
        f_le(l.floor_y(w, deck_point(cx, i)), l.deck(w, cx).y),
{
    lemma_deck_floor(l, w, cx, 13, i);
    lemma_add_up(l.deck_floor(w, cx, 13), fl(DECK_LIFT));
}

/// The pad is there, its deck lies over `x`, and its height is a number.
pub open spec fn covers(pad: Option<PadSpec>, x: F32) -> bool {
    pad is Some && f_le(f_abs(f_sub(pad->0.cx, x)), fl(PAD_HALF_W)) && !pad->0.y.nan()
}

proof fn lemma_raised(ground: F32, pad: Option<PadSpec>, x: F32)
    requires
        !ground.nan(),
    ensures
        f_le(ground, raised(ground, pad, x)),
        covers(pad, x) ==> f_le(pad->0.y, raised(ground, pad, x)),
{
}

/// A ship that stands in a generated world is lower neither than the floor, nor
/// than a deck over its place: a finish deck, or that of one of the three slots
/// nearest to it.
pub proof fn ships_stand_clear(l: LevelView, w: spec_fn(Wave, F32) -> F32, x: F32)
    requires
        x.finite(),
        l.terrain is None,
        !l.endless ==> bounded_wave(w),
    ensures
        f_le(l.floor_y(w, x), l.stand(w, x)),
        covers(l.goal_pad(w, 1), x) ==> f_le(l.goal_pad(w, 1)->0.y, l.stand(w, x)),
        covers(l.goal_pad(w, -1), x) ==> f_le(l.goal_pad(w, -1)->0.y, l.stand(w, x)),
        forall|p: int|
            -1 <= p - f_to_i64(f_round(f_div(x, l.pad_spacing))) <= 1 && covers(#[trigger] l.pad(w, p), x)
                ==> f_le(l.pad(w, p)->0.y, l.stand(w, x)),
{
    lemma_floor_is_a_number(l, w, x);
    let p0 = f_to_i64(f_round(f_div(x, l.pad_spacing))) as int;
    let g0 = l.floor_y(w, x);
    let g1 = raised(g0, l.pad(w, p0 - 1), x);
    let g2 = raised(g1, l.pad(w, p0), x);
    let g3 = raised(g2, l.pad(w, p0 + 1), x);
    let g4 = raised(g3, l.goal_pad(w, 1), x);
    let g5 = raised(g4, l.goal_pad(w, -1), x);
    lemma_raised(g0, l.pad(w, p0 - 1), x);
    lemma_raised(g1, l.pad(w, p0), x);
    lemma_raised(g2, l.pad(w, p0 + 1), x);
    lemma_raised(g3, l.goal_pad(w, 1), x);
    lemma_raised(g4, l.goal_pad(w, -1), x);
    lemma_add_up(g5, fl(STAND));
    assert forall|p: int| -1 <= p - p0 <= 1 && covers(#[trigger] l.pad(w, p), x) implies f_le(
        l.pad(w, p)->0.y,
        l.stand(w, x),
    ) by {
        assert(p == p0 - 1 || p == p0 || p == p0 + 1);
    }
}

} // verus!
