//! Laws of room: a slot that has it holds its boulder, or its pad.

use crate::binary32::arith::{f_abs, f_add, f_div, f_neg, f_sub};
use crate::binary32::convert::{f_round, f_to_i64};
use crate::binary32::facts::{lemma_units_zero, order_is_by_value};
use crate::binary32::{fl, F32};
use crate::cave::{Wave, ONE};
use crate::laws::caves::{bounded_wave, lemma_const, lemma_grain, lemma_one};
use crate::laws::distances::{far_boulders_are_far, lemma_reach};
use crate::laws::errors::{lemma_huge, one, size};
use crate::laws::impacts::{lemma_length, modest};
use crate::laws::landings::{lemma_near_sum, nearby};
use crate::laws::surroundings::boulders_stand_at_their_slots;
use crate::level::{LevelView, Vec2};
use crate::obstacle::{OBSTACLE_CLEAR, OBSTACLE_MIN_HALF, OBSTACLE_SPACING, RESET_X};
use crate::pad::{norm, reach, PAD_HALF_W, PAD_MIN_HALF};
use crate::rng::draw;
use vstd::arithmetic::power2::lemma2_to64;
use vstd::prelude::*;

verus! {

/// A level with nothing to keep clear of but the start: neither goal nor shafts.
pub open spec fn open_ground(l: LevelView) -> bool {
    !l.shafts && l.goal_distance.finite() && l.goal_distance.val() <= 0
}

/// A slot holds a boulder, where the level has any, if it is 9 m from the start
/// and from the spot 64 m to its right, if the cave is 4.5 m to a side, and if
/// its draw is not one of the sixth that leaves the slot out. One of that sixth
/// always does.
pub proof fn boulders_stand_where_there_is_room(l: LevelView, w: spec_fn(Wave, F32) -> F32, k: int)
    requires
        open_ground(l),
        -600 <= k <= 600,
        l.half_width(w, l.obstacle_x(k)).finite(),
    ensures
        ({
            let x = l.obstacle_x(k).val();
            let chance = draw(l.obstacle_seed(k), 2) as int % 6;
            &&& l.obstacles && size(x) >= 9 * one() && 100 * size(x - 64 * one()) >= 901 * one() && 2
                * l.half_width(w, l.obstacle_x(k)).val() >= 9 * one() && chance != 0 ==> l.obstacle(w, k)
                is Some && l.obstacle(w, k)->0.cx == l.obstacle_x(k)
            &&& !l.obstacles || chance == 0 || size(x) < 9 * one() || 100 * size(x - 64 * one()) < 899
                * one() ==> l.obstacle(w, k) is None
        }),
{
    lemma_huge();
    lemma2_to64();
    lemma_grain();
    lemma_units_zero();
    boulders_stand_at_their_slots(l, k);
    let cx = l.obstacle_x(k);
    let u = one();
    assert(-9600 * u <= 16 * k * u <= 9600 * u) by (nonlinear_arith)
        requires
            -600 <= k <= 600,
            u > 0,
    ;
    lemma_const(OBSTACLE_CLEAR, 0x90_0000, 9, 0x1_2000_0000);
    lemma_const(RESET_X, 0x80_0000, 12, 0x8_0000_0000);
    lemma_const(OBSTACLE_MIN_HALF, 0x90_0000, 8, 0x9000_0000);
    let (c, r) = (fl(OBSTACLE_CLEAR), fl(RESET_X));
    assert(f_neg(r).val() == -r.val());
    lemma_near_sum(cx, f_neg(r));
    let d = f_sub(cx, r);
    assert(f_abs(cx).finite() && f_abs(cx).val() == size(cx.val()));
    assert(f_abs(d).finite() && f_abs(d).val() == size(d.val()));
    order_is_by_value(f_abs(cx), c);
    order_is_by_value(f_abs(d), c);
    order_is_by_value(l.half_width(w, cx), fl(OBSTACLE_MIN_HALF));
    order_is_by_value(fl(0), l.goal_distance);
}

/// A slot holds a pad if the cave is 5 m to a side and every boulder is 12 m
/// away; the deck is where the slot puts it.
pub proof fn pads_stand_where_there_is_room(l: LevelView, w: spec_fn(Wave, F32) -> F32, p: int)
    requires
        open_ground(l),
        bounded_wave(w),
        nearby(l.pad_x(p)),
        l.half_width(w, l.pad_x(p)).finite(),
        l.half_width(w, l.pad_x(p)).val() >= 5 * one(),
        forall|k: int|
            (#[trigger] l.obstacle(w, k)) is Some ==> nearby(l.obstacle_x(k)) && 100 * size(
                l.obstacle_x(k).val() - l.pad_x(p).val(),
            ) >= 1202 * one(),
    ensures
        l.pad(w, p) is Some,
        l.pad(w, p)->0.cx == l.pad_x(p),
        l.pad(w, p)->0 == l.deck(w, l.pad_x(p)),
{
    lemma_huge();
    lemma2_to64();
    lemma_grain();
    lemma_units_zero();
    let cx = l.pad_x(p);
    lemma_const(PAD_MIN_HALF, 0xa0_0000, 8, 0xa000_0000);
    order_is_by_value(l.half_width(w, cx), fl(PAD_MIN_HALF));
    order_is_by_value(fl(0), l.goal_distance);
    let k0 = f_to_i64(f_round(f_div(cx, fl(OBSTACLE_SPACING)))) as int;
    lemma_missed(l, w, cx, k0 - 1);
    lemma_missed(l, w, cx, k0);
    lemma_missed(l, w, cx, k0 + 1);
}

proof fn lemma_missed(l: LevelView, w: spec_fn(Wave, F32) -> F32, cx: F32, k: int)
    requires
        bounded_wave(w),
        nearby(cx),
        l.obstacle(w, k) is Some ==> nearby(l.obstacle_x(k)) && 100 * size(
            l.obstacle_x(k).val() - cx.val(),
        ) >= 1202 * one(),
    ensures
        !l.boulder_hits(w, cx, k),
{
    if l.obstacle(w, k) is Some {
        lemma_huge();
        lemma2_to64();
        lemma_grain();
        lemma_one();
        let ob = l.obstacle(w, k)->0;
        lemma_reach(l, w, k, ob.pts, ob.pts.len());
        let r = reach(ob.pts, ob.pts.len());
        lemma_const(PAD_HALF_W, 0xc0_0000, 7, 0x6000_0000);
        lemma_near_sum(r, fl(PAD_HALF_W));
        let a = f_add(r, fl(PAD_HALF_W));
        lemma_near_sum(a, fl(ONE));
        let b = f_add(a, fl(ONE));
        assert(f_neg(cx).val() == -cx.val());
        lemma_near_sum(ob.cx, f_neg(cx));
        let d = f_sub(ob.cx, cx);
        assert(f_abs(d).finite() && f_abs(d).val() == size(d.val()));
        order_is_by_value(f_abs(d), b);
    }
}

/// A pad keeps off every boulder: at least 4 m, the half of its deck and a
/// metre, beyond where the boulder reaches to.
pub proof fn pads_keep_off_boulders(l: LevelView, w: spec_fn(Wave, F32) -> F32, p: int, k: int)
    requires
        bounded_wave(w),
        l.pad(w, p) is Some,
        l.obstacle(w, k) is Some,
        nearby(l.pad(w, p)->0.cx),
        -600 <= k <= 600,
    ensures
        ({
            let ob = l.obstacle(w, k)->0;
            let r = reach(ob.pts, ob.pts.len());
            &&& r.finite() && r.val() >= 0
            &&& 100 * size(ob.cx.val() - l.pad(w, p)->0.cx.val()) >= 100 * r.val() + 398 * one()
        }),
{
    lemma_huge();
    lemma2_to64();
    lemma_grain();
    lemma_one();
    let cx = l.pad(w, p)->0.cx;
    let u = one();
    let k0 = f_to_i64(f_round(f_div(cx, fl(OBSTACLE_SPACING)))) as int;
    if !(-1 <= k - k0 <= 1) {
        far_boulders_are_far(l, w, cx, k);
    } else {
        assert(k == k0 - 1 || k == k0 || k == k0 + 1);
    }
    boulders_stand_at_their_slots(l, k);
    assert(-9600 * u <= 16 * k * u <= 9600 * u) by (nonlinear_arith)
        requires
            -600 <= k <= 600,
            u > 0,
    ;
    let ob = l.obstacle(w, k)->0;
    lemma_reach(l, w, k, ob.pts, ob.pts.len());
    let r = reach(ob.pts, ob.pts.len());
    lemma_const(PAD_HALF_W, 0xc0_0000, 7, 0x6000_0000);
    lemma_near_sum(r, fl(PAD_HALF_W));
    let a = f_add(r, fl(PAD_HALF_W));
    lemma_near_sum(a, fl(ONE));
    let b = f_add(a, fl(ONE));
    assert(f_neg(cx).val() == -cx.val());
    lemma_near_sum(ob.cx, f_neg(cx));
    let d = f_sub(ob.cx, cx);
    assert(f_abs(d).finite() && f_abs(d).val() == size(d.val()));
    order_is_by_value(f_abs(d), b);
}

/// A boulder reaches as far as its farthest corner: no corner is farther from
/// its centre, and one is as far. How far is the length of the way there.
pub proof fn boulders_reach_their_corners(pts: Seq<Vec2>, n: nat) -> (i: int)
    requires
        0 < n <= pts.len(),
        forall|j: int| 0 <= j < pts.len() ==> modest((#[trigger] pts[j]).x) && modest(pts[j].y),
    ensures
        reach(pts, n).finite(),
        0 <= i < n,
        ({
            let (r, e) = (reach(pts, n).val(), pts[i].x.val() * pts[i].x.val() + pts[i].y.val()
                * pts[i].y.val());
            r >= 0 && size(r * r - e) * 0x4_0000 <= e + 0x10_0000 * one()
        }),
        forall|j: int|
            0 <= j < n ==> {
                let e = (#[trigger] pts[j]).x.val() * pts[j].x.val() + pts[j].y.val() * pts[j].y.val();
                (reach(pts, n).val() * reach(pts, n).val() - e) * 0x4_0000 >= -e - 0x10_0000 * one()
            },
    decreases n,
{
    lemma_huge();
    lemma_units_zero();
    let p = pts[n - 1];
    lemma_length(p.x, p.y);
    let last = norm(p);
    let before = reach(pts, (n - 1) as nat);
    if n == 1 {
        order_is_by_value(fl(0), last);
        assert(before == fl(0));
        let (a, b) = (before.val(), last.val());
        assert(a == 0);
        if !(a < b) {
            assert(b == 0);
        }
        0
    } else {
        let i = boulders_reach_their_corners(pts, (n - 1) as nat);
        order_is_by_value(before, last);
        let (a, b) = (before.val(), last.val());
        if a < b {
            assert(a * a <= b * b) by (nonlinear_arith)
                requires
                    0 <= a < b,
            ;
            assert(reach(pts, n) == last);
            n - 1
        } else {
            assert(b * b <= a * a) by (nonlinear_arith)
                requires
                    0 <= b <= a,
            ;
            assert(reach(pts, n) == before);
            i
        }
    }
}

} // verus!
