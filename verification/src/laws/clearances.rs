//! Laws of what keeps boulders and pads away: each reason clears the ground
//! that it is there for, and no other.

use crate::binary32::arith::{f_abs, f_add, f_neg, f_sub};
use crate::binary32::facts::{lemma_add_between, lemma_units_zero, order_is_by_value};
use crate::binary32::{fl, F32};
use crate::cave::Wave;
use crate::laws::caves::{lemma_const, lemma_edge, lemma_grain, lemma_quarters};
use crate::laws::clearings::{lemma_far, lemma_opening, lemma_segment, no_shaft_is_near, FAR};
use crate::laws::errors::{lemma_huge, one, size};
use crate::level::LevelView;
use crate::obstacle::{segment_at, OBSTACLE_CLEAR, OBSTACLE_MIN_HALF, RESET_X, SHAFT_CLEAR};
use crate::pad::{PAD_GOAL_CLEAR, PAD_MIN_HALF};
use vstd::arithmetic::div_mod::lemma_fundamental_div_mod;
use vstd::arithmetic::power2::{lemma2_to64, lemma_pow2_adds, lemma_pow2_pos, pow2};
use vstd::prelude::*;

verus! {

/// `x` is closer to a finish than `gap` quarters of a metre. There is a finish
/// at the goal distance on either side, if that is a number above 0.
pub open spec fn close_to_finish(l: LevelView, x: F32, gap: int) -> bool {
    &&& l.goal_distance.finite() && l.goal_distance.val() > 0
    &&& x.finite()
    &&& 4 * size(size(x.val()) - l.goal_distance.val()) < gap * one()
}

proof fn lemma_near_goal(l: LevelView, cx: F32, gap: F32, n: int)
    requires
        0 < n < 100,
        gap.finite(),
        4 * gap.val() == n * one(),
    ensures
        l.near_goal(cx, gap) ==> close_to_finish(l, cx, n),
        close_to_finish(l, cx, n - 1) ==> l.near_goal(cx, gap),
{
    lemma_huge();
    lemma_units_zero();
    lemma2_to64();
    lemma_pow2_adds(147, 2);
    lemma_pow2_pos(147);
    assert((n - 1) * one() < n * one()) by (nonlinear_arith)
        requires
            one() > 0,
    ;
    let (g, a) = (l.goal_distance, f_abs(cx));
    let d = f_sub(a, g);
    assert(fl(0).val() == 0);
    if g.finite() && cx.finite() {
        order_is_by_value(fl(0), g);
        assert(a.val() == size(cx.val()));
        assert(f_neg(g).val() == -g.val() && f_neg(gap).val() == -gap.val());
        assert(gap.val() > 0) by (nonlinear_arith)
            requires
                4 * gap.val() == n * one(),
                n > 0,
                one() > 0,
        ;
        if g.val() > 0 {
            if a.val() - g.val() >= gap.val() {
                lemma_add_between(a, f_neg(g), gap, a);
            } else if a.val() - g.val() <= -gap.val() {
                lemma_add_between(a, f_neg(g), f_neg(g), f_neg(gap));
            } else {
                lemma_add_between(a, f_neg(g), f_neg(gap), gap);
                let less = lemma_quarters(n - 1);
                assert(f_neg(less).val() == -less.val());
                assert(4 * less.val() == (n - 1) * one()) by (nonlinear_arith)
                    requires
                        less.val() == (n - 1) * pow2(147),
                        one() == pow2(147) * 4,
                ;
                if close_to_finish(l, cx, n - 1) {
                    lemma_add_between(a, f_neg(g), f_neg(less), less);
                }
            }
            assert(f_abs(d).val() == size(d.val()));
            order_is_by_value(f_abs(d), gap);
        }
    } else {
        reveal(f_add);
    }
}

/// The same level without a goal.
pub open spec fn without_goal(l: LevelView) -> LevelView {
    LevelView { goal_distance: fl(0), ..l }
}

/// The same level without shafts.
pub open spec fn without_shafts(l: LevelView) -> LevelView {
    LevelView { shafts: false, ..l }
}

/// Two levels that differ in goal and shafts at most have the same cave and
/// draw the same boulders.
proof fn lemma_same_draws(a: LevelView, b: LevelView, w: spec_fn(Wave, F32) -> F32, k: int)
    requires
        a == (LevelView { goal_distance: a.goal_distance, shafts: a.shafts, ..b }),
    ensures
        a.obstacle_x(k) == b.obstacle_x(k),
        forall|x: F32| #[trigger] a.half_width(w, x) == b.half_width(w, x),
        a.obstacle(w, k) is Some && b.obstacle(w, k) is Some ==> a.obstacle(w, k) == b.obstacle(w, k),
        a.obstacle(w, k) is Some ==> a.obstacle(w, k)->0.cx == a.obstacle_x(k),
{
    assert forall|x: F32| #[trigger] a.half_width(w, x) == b.half_width(w, x) && a.center(w, x)
        == b.center(w, x) by {}
    assert(a.obstacle_radius(w, k) == b.obstacle_radius(w, k));
    assert(a.obstacle_y(w, k) == b.obstacle_y(w, k)) by {
        let x = a.obstacle_x(k);
        assert(a.half_width(w, x) == b.half_width(w, x) && a.center(w, x) == b.center(w, x));
    }
    if a.obstacle(w, k) is Some && b.obstacle(w, k) is Some {
        assert forall|i: int| #[trigger] a.obstacle_point(w, k, i) == b.obstacle_point(w, k, i) by {}
        assert(a.obstacle(w, k)->0.pts =~= b.obstacle(w, k)->0.pts);
    }
}

proof fn lemma_same_near_shaft(a: LevelView, b: LevelView, cx: F32)
    requires
        a == (LevelView { goal_distance: a.goal_distance, ..b }),
    ensures
        a.near_shaft(cx) == b.near_shaft(cx),
{
    assert forall|s: int| #[trigger] a.by_shaft(cx, s) == b.by_shaft(cx, s) by {
        assert(a.shaft_open(s) == b.shaft_open(s));
    }
}

proof fn lemma_clear_consts()
    ensures
        fl(OBSTACLE_CLEAR).finite() && fl(OBSTACLE_CLEAR).val() == 9 * one(),
        fl(PAD_GOAL_CLEAR).finite() && fl(PAD_GOAL_CLEAR).val() == 12 * one(),
        fl(RESET_X).finite() && fl(RESET_X).val() == 64 * one(),
        fl(OBSTACLE_MIN_HALF).finite() && 2 * fl(OBSTACLE_MIN_HALF).val() == 9 * one(),
        fl(PAD_MIN_HALF).finite() && fl(PAD_MIN_HALF).val() == 5 * one(),
{
    lemma2_to64();
    lemma_grain();
    lemma_const(OBSTACLE_CLEAR, 0x90_0000, 9, 0x1_2000_0000);
    lemma_const(PAD_GOAL_CLEAR, 0xc0_0000, 9, 0x1_8000_0000);
    lemma_const(RESET_X, 0x80_0000, 12, 0x8_0000_0000);
    lemma_const(OBSTACLE_MIN_HALF, 0x90_0000, 8, 0x9000_0000);
    lemma_const(PAD_MIN_HALF, 0xa0_0000, 8, 0xa000_0000);
}

/// A goal takes away the boulders within 9 m of its finishes and no others: a
/// boulder of the goal level is the boulder that the level has without the
/// goal, and a boulder of that one is missing only if it is that close.
pub proof fn goals_clear_boulders_at_the_finish(l: LevelView, w: spec_fn(Wave, F32) -> F32, k: int)
    ensures
        match without_goal(l).obstacle(w, k) {
            Some(ob) => {
                &&& l.obstacle(w, k) is Some ==> l.obstacle(w, k) == Some(ob)
                &&& l.obstacle(w, k) is None ==> close_to_finish(l, ob.cx, 36)
                &&& close_to_finish(l, ob.cx, 35) ==> l.obstacle(w, k) is None
            },
            None => l.obstacle(w, k) is None,
        },
{
    let b = without_goal(l);
    lemma_same_draws(l, b, w, k);
    let x = l.obstacle_x(k);
    lemma_same_near_shaft(l, b, x);
    lemma_clear_consts();
    lemma_near_goal(l, x, fl(OBSTACLE_CLEAR), 36);
    assert(l.half_width(w, x) == b.half_width(w, x));
    assert(!b.near_goal(x, fl(OBSTACLE_CLEAR)));
    assert(b.has_obstacle(w, k) ==> (l.has_obstacle(w, k) == !l.near_goal(x, fl(OBSTACLE_CLEAR))));
}

proof fn lemma_same_decks(a: LevelView, b: LevelView, w: spec_fn(Wave, F32) -> F32, cx: F32, n: nat)
    requires
        a == (LevelView { goal_distance: a.goal_distance, shafts: a.shafts, ..b }),
    ensures
        a.deck_floor(w, cx, n) == b.deck_floor(w, cx, n),
    decreases n,
{
    if n > 0 {
        lemma_same_decks(a, b, w, cx, (n - 1) as nat);
    }
}

/// A goal takes away the pads within 12 m of its finishes and no others, but
/// for those that a boulder makes way for: a pad of the level without the goal
/// is missing only if it is that close; and without boulders the two levels
/// have the same pads elsewhere.
pub proof fn goals_clear_pads_at_the_finish(l: LevelView, w: spec_fn(Wave, F32) -> F32, p: int)
    ensures
        match without_goal(l).pad(w, p) {
            Some(pad) => {
                &&& l.pad(w, p) is Some ==> l.pad(w, p) == Some(pad)
                &&& l.pad(w, p) is None ==> close_to_finish(l, pad.cx, 48)
            },
            None => !l.obstacles ==> l.pad(w, p) is None,
        },
        l.pad(w, p) matches Some(pad) ==> !close_to_finish(l, pad.cx, 47),
{
    let b = without_goal(l);
    let x = l.pad_x(p);
    assert(x == b.pad_x(p));
    assert(l.half_width(w, x) == b.half_width(w, x));
    lemma_same_near_shaft(l, b, x);
    lemma_same_decks(l, b, w, x, 13);
    lemma_clear_consts();
    lemma_near_goal(l, x, fl(PAD_GOAL_CLEAR), 48);
    assert(!b.near_goal(x, fl(PAD_GOAL_CLEAR)));
    assert forall|k: int| #[trigger] l.boulder_hits(w, x, k) implies b.boulder_hits(w, x, k) by {
        goals_clear_boulders_at_the_finish(l, w, k);
    }
}

/// Boulders keep 9 m away from the start and from the spot at 64 m, and the
/// cave is 4.5 m to a side where they are.
pub proof fn boulders_keep_their_distance(l: LevelView, w: spec_fn(Wave, F32) -> F32, k: int)
    requires
        l.obstacle(w, k) is Some,
    ensures
        ({
            let x = l.obstacle(w, k)->0.cx;
            let h = l.half_width(w, x);
            &&& x.finite() ==> size(x.val()) >= 9 * one() && 4 * size(x.val() - 64 * one()) >= 35 * one()
            &&& h.finite() ==> 2 * h.val() >= 9 * one()
        }),
{
    lemma_huge();
    lemma_units_zero();
    lemma2_to64();
    lemma_pow2_adds(147, 2);
    lemma_clear_consts();
    let x = l.obstacle_x(k);
    let h = l.half_width(w, x);
    if h.finite() {
        order_is_by_value(h, fl(OBSTACLE_MIN_HALF));
    }
    if x.finite() {
        order_is_by_value(f_abs(x), fl(OBSTACLE_CLEAR));
        assert(f_abs(x).val() == size(x.val()));
        let c = fl(RESET_X);
        assert(f_neg(c).val() == -c.val());
        if 4 * size(x.val() - 64 * one()) < 35 * one() {
            let less = lemma_quarters(35);
            assert(4 * less.val() == 35 * one());
            assert(f_neg(less).val() == -less.val());
            lemma_add_between(x, f_neg(c), f_neg(less), less);
            let d = f_sub(x, c);
            assert(f_abs(d).val() == size(d.val()));
            order_is_by_value(f_abs(d), fl(OBSTACLE_CLEAR));
        }
    }
}

/// Which slots hold a boulder depends on the curves of the cave only through
/// the room that there is: where one cave has a boulder, another that is 4.5 m
/// to a side there has one too, in the same place, turned alike and with as
/// many corners.
pub proof fn boulders_go_by_room_alone(l: LevelView, w: spec_fn(Wave, F32) -> F32, w2: spec_fn(Wave, F32) -> F32, k: int)
    requires
        l.obstacle(w, k) is Some,
    ensures
        ({
            let ob = l.obstacle(w, k)->0;
            let h = l.half_width(w2, ob.cx);
            &&& h.finite() && 2 * h.val() >= 9 * one() ==> {
                &&& l.obstacle(w2, k) is Some
                &&& l.obstacle(w2, k)->0.cx == ob.cx
                &&& l.obstacle(w2, k)->0.rot == ob.rot
                &&& l.obstacle(w2, k)->0.pts.len() == ob.pts.len()
            }
            &&& h.finite() && 2 * h.val() < 9 * one() ==> l.obstacle(w2, k) is None
        }),
{
    lemma_clear_consts();
    let h = l.half_width(w2, l.obstacle_x(k));
    if h.finite() {
        order_is_by_value(h, fl(OBSTACLE_MIN_HALF));
    }
}

/// Pads have 5 m of headroom to a side.
pub proof fn pads_have_headroom(l: LevelView, w: spec_fn(Wave, F32) -> F32, p: int)
    requires
        l.pad(w, p) is Some,
    ensures
        l.half_width(w, l.pad(w, p)->0.cx).finite() ==> l.half_width(w, l.pad(w, p)->0.cx).val() >= 5
            * one(),
{
    lemma_clear_consts();
    let h = l.half_width(w, l.pad_x(p));
    if h.finite() {
        order_is_by_value(h, fl(PAD_MIN_HALF));
    }
}

// ---- Shafts ----

/// `x` is within 8 m of the opening of shaft slot `s`, which is 3 segments of
/// 3 m wide.
pub open spec fn close_to_shaft(l: LevelView, x: F32, s: int) -> bool {
    &&& x.finite()
    &&& (3 * l.shaft_open(s) - 8) * one() < x.val() < (3 * l.shaft_open(s) + 17) * one()
}

proof fn lemma_by_shaft(l: LevelView, cx: F32, s: int)
    requires
        cx.finite(),
        -1_000_000 <= l.shaft_open(s) <= 1_000_000,
    ensures
        l.by_shaft(cx, s) == close_to_shaft(l, cx, s),
{
    lemma2_to64();
    lemma_grain();
    lemma_pow2_pos(147);
    lemma_pow2_adds(147, 2);
    let p = pow2(147) as int;
    let u = one();
    let o = l.shaft_open(s);
    lemma_edge(l, s, 0);
    lemma_edge(l, s, 1);
    lemma_const(SHAFT_CLEAR, 0x80_0000, 9, 0x1_0000_0000);
    let g = fl(SHAFT_CLEAR);
    let (a, b) = (l.shaft_edge(s, 0), l.shaft_edge(s, 1));
    let x = lemma_quarters(12 * o - 32);
    let y = lemma_quarters(12 * (o + 3) + 32);
    assert(a.val() - g.val() == x.val() && b.val() + g.val() == y.val() && x.val() == (3 * o - 8) * u
        && y.val() == (3 * o + 17) * u) by (nonlinear_arith)
        requires
            a.val() == 12 * (o + 0) * p,
            b.val() == 12 * (o + 3) * p,
            g.val() == 32 * p,
            x.val() == (12 * o - 32) * p,
            y.val() == (12 * (o + 3) + 32) * p,
            u == 4 * p,
    ;
    lemma_add_between(a, f_neg(g), x, x);
    lemma_add_between(b, g, y, y);
    order_is_by_value(f_sub(a, g), cx);
    order_is_by_value(cx, f_add(b, g));
}

/// What keeps clear of the shafts keeps 8 m away from every opening; and it is
/// only within 8 m of an opening that a shaft keeps anything away.
proof fn lemma_near_shaft(l: LevelView, cx: F32, s: int)
    requires
        l.shafts,
        cx.finite(),
        size(cx.val()) <= 2_900_000 * one(),
        -1_000_000 <= l.shaft_open(s) <= 1_000_000,
    ensures
        close_to_shaft(l, cx, s) ==> l.near_shaft(cx),
        l.near_shaft(cx) ==> exists|t: int| #[trigger] close_to_shaft(l, cx, t),
{
    lemma2_to64();
    lemma_pow2_pos(147);
    lemma_pow2_adds(147, 2);
    let p = pow2(147) as int;
    lemma_by_shaft(l, cx, s);
    lemma_far(p);
    assert(f_abs(cx).val() == size(cx.val())) by {
        lemma_units_zero();
    }
    order_is_by_value(f_abs(cx), fl(FAR));
    if !l.near_shaft(cx) {
        no_shaft_is_near(l, cx, s);
    } else {
        let c = cx.val();
        let m = c / (12 * p);
        lemma_fundamental_div_mod(c, 12 * p);
        assert((12 * m) * p <= c < (12 * m + 12) * p && -1_000_000 <= m <= 1_000_000) by (nonlinear_arith)
            requires
                c == (12 * p) * m + c % (12 * p),
                0 <= c % (12 * p) < 12 * p,
                -11_600_000 * p <= c <= 11_600_000 * p,
                p > 0,
        ;
        lemma_segment(cx, m);
        let s0 = (segment_at(cx) - 35) as int / 50;
        assert(50 * s0 + 35 <= segment_at(cx) <= 50 * s0 + 84);
        assert(-967_000 <= m <= 967_000) by (nonlinear_arith)
            requires
                (12 * m) * p <= c < (12 * m + 12) * p,
                -11_600_000 * p <= c <= 11_600_000 * p,
                p > 0,
        ;
        lemma_opening(l, s0);
        lemma_opening(l, s0 + 1);
        lemma_by_shaft(l, cx, s0);
        lemma_by_shaft(l, cx, s0 + 1);
        if l.by_shaft(cx, s0) {
            assert(close_to_shaft(l, cx, s0));
        } else {
            assert(close_to_shaft(l, cx, s0 + 1));
        }
    }
}

/// Shafts take away the boulders within 8 m of an opening and no others: a
/// boulder of the level with shafts is the boulder that it has without them,
/// and one of those is missing only if it is that close to an opening. This
/// holds out to 2900 km.
pub proof fn shafts_clear_boulders_at_their_openings(l: LevelView, w: spec_fn(Wave, F32) -> F32, k: int, s: int)
    requires
        l.shafts,
        -1_000_000 <= l.shaft_open(s) <= 1_000_000,
    ensures
        match without_shafts(l).obstacle(w, k) {
            Some(ob) => {
                &&& l.obstacle(w, k) is Some ==> l.obstacle(w, k) == Some(ob)
                &&& ob.cx.finite() && size(ob.cx.val()) <= 2_900_000 * one() ==> {
                    &&& l.obstacle(w, k) is None ==> exists|t: int| #[trigger] close_to_shaft(l, ob.cx, t)
                    &&& close_to_shaft(l, ob.cx, s) ==> l.obstacle(w, k) is None
                }
            },
            None => l.obstacle(w, k) is None,
        },
{
    let b = without_shafts(l);
    lemma_same_draws(l, b, w, k);
    let x = l.obstacle_x(k);
    assert(l.half_width(w, x) == b.half_width(w, x));
    assert(l.near_goal(x, fl(OBSTACLE_CLEAR)) == b.near_goal(x, fl(OBSTACLE_CLEAR)));
    assert(b.has_obstacle(w, k) ==> (l.has_obstacle(w, k) == !l.near_shaft(x)));
    if x.finite() && size(x.val()) <= 2_900_000 * one() {
        lemma_near_shaft(l, x, s);
    }
}

/// Shafts take away the pads within 8 m of an opening and no others, but for
/// those that a boulder makes way for. This holds out to 2900 km.
pub proof fn shafts_clear_pads_at_their_openings(l: LevelView, w: spec_fn(Wave, F32) -> F32, p: int, s: int)
    requires
        l.shafts,
        -1_000_000 <= l.shaft_open(s) <= 1_000_000,
    ensures
        match without_shafts(l).pad(w, p) {
            Some(pad) => {
                &&& l.pad(w, p) is Some ==> l.pad(w, p) == Some(pad)
                &&& pad.cx.finite() && size(pad.cx.val()) <= 2_900_000 * one() ==> {
                    l.pad(w, p) is None ==> exists|t: int| #[trigger] close_to_shaft(l, pad.cx, t)
                }
            },
            None => !l.obstacles ==> l.pad(w, p) is None,
        },
        l.pad(w, p) matches Some(pad) ==> pad.cx.finite() && size(pad.cx.val()) <= 2_900_000 * one()
            ==> !close_to_shaft(l, pad.cx, s),
{
    let b = without_shafts(l);
    let x = l.pad_x(p);
    assert(x == b.pad_x(p));
    assert(l.half_width(w, x) == b.half_width(w, x));
    assert(l.near_goal(x, fl(PAD_GOAL_CLEAR)) == b.near_goal(x, fl(PAD_GOAL_CLEAR)));
    lemma_same_decks(l, b, w, x, 13);
    assert forall|k: int| #[trigger] l.boulder_hits(w, x, k) implies b.boulder_hits(w, x, k) by {
        shafts_clear_boulders_at_their_openings(l, w, k, s);
    }
    if x.finite() && size(x.val()) <= 2_900_000 * one() {
        lemma_near_shaft(l, x, s);
    }
}

} // verus!
