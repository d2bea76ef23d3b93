//! Laws of landings: a ship that rests with both feet on a deck, and nothing
//! else, has landed.
//!
//! Places are told in units of `2^-149` m; a hundred of them are compared, so
//! that the ship's measures come out whole.

use crate::binary32::arith::{f_abs, f_add, f_mul, f_neg, f_sub};
use crate::binary32::facts::{lemma_units_zero, order_is_by_value};
use crate::binary32::order::{f_le, f_lt};
use crate::binary32::{fl, F32};
use crate::cave::ONE;
use crate::laws::caves::{lemma_const, lemma_grain, lemma_one};
use crate::laws::errors::{lemma_huge, lemma_product, lemma_sum, one, size};
use crate::level::Vec2;
use crate::pad::PAD_HALF_W;
use crate::rules::SimParams;
use crate::run::{
    first_under, foot, on_deck, pad_under, settled, stands_on, Motion, FOOT_LINE, FOOT_TOUCH_M,
    FOOT_X, FOOT_Y, LEAN_MAX, LINE_TOUCH, SETTLE_SPIN,
};
use crate::scenery::Pad;
use crate::slots::Loaded;
use vstd::arithmetic::power2::lemma2_to64;
use vstd::prelude::*;

verus! {

/// The ship is at rest: less than 1 m/s along either axis, in either
/// direction, and less than half a radian per second of spin either way.
pub open spec fn at_rest(m: Motion) -> bool {
    &&& m.vx.finite() && size(m.vx.val()) < one()
    &&& m.vy.finite() && size(m.vy.val()) < one()
    &&& m.angvel.finite() && 2 * size(m.angvel.val()) < one()
}

pub(crate) proof fn lemma_below(x: F32, c: F32)
    requires
        c.finite(),
        c.val() > 0,
    ensures
        f_lt(f_abs(x), c) == (x.finite() && size(x.val()) < c.val()),
        f_le(f_abs(x), c) == (x.finite() && size(x.val()) <= c.val()),
{
    lemma_units_zero();
    if x.finite() {
        order_is_by_value(f_abs(x), c);
        assert(f_abs(x).val() == size(x.val()));
    }
}

proof fn lemma_settled(m: Motion)
    ensures
        settled(m) == at_rest(m),
{
    lemma2_to64();
    lemma_grain();
    lemma_one();
    lemma_const(SETTLE_SPIN, 0x80_0000, 5, 0x1000_0000);
    lemma_below(m.vx, fl(ONE));
    lemma_below(m.vy, fl(ONE));
    lemma_below(m.angvel, fl(SETTLE_SPIN));
}

/// 33 hundredths of `t`, to the side of the left or the right foot.
pub open spec fn aside(left: bool, t: int) -> int {
    if left {
        -(33 * t)
    } else {
        33 * t
    }
}

/// A foot of the ship is over the deck, 3 m to either side of its centre, and
/// within 10 cm of its height; `slack` is in hundredths of a unit. The feet are
/// 33 cm to either side of the ship's axis and 73 cm below its centre, turned with
/// the ship.
pub open spec fn foot_over(m: Motion, pad: Pad, left: bool, slack: int) -> bool {
    let (re, im) = (m.rot_re.val(), m.rot_im.val());
    &&& size(100 * (m.x.val() - pad.cx.val()) + aside(left, re) + 73 * im) <= 300 * one() + slack
    &&& size(100 * (m.y.val() - pad.y.val()) + aside(left, im) - 73 * re) <= 10 * one() + slack
}

/// Both feet are over the deck.
pub open spec fn feet_over(m: Motion, pad: Pad, slack: int) -> bool {
    foot_over(m, pad, true, slack) && foot_over(m, pad, false, slack)
}

/// Under the first ruleset: the ship's centre is over the deck, with its foot
/// line, 73 cm below, within 30 cm of it, and the ship leans by less than 0.3
/// radians.
pub open spec fn centre_over(m: Motion, pad: Pad, slack: int) -> bool {
    &&& 100 * size(m.angle.val()) <= 30 * one() + slack
    &&& 100 * size(m.x.val() - pad.cx.val()) <= 300 * one() + slack
    &&& size(100 * (m.y.val() - pad.y.val()) - 73 * one()) <= 30 * one() + slack
}

/// The ship rests over the deck as its ruleset asks.
pub open spec fn rests_over(rules: SimParams, m: Motion, pad: Pad, slack: int) -> bool {
    if rules.land_rule.val() >= one() {
        feet_over(m, pad, slack)
    } else {
        centre_over(m, pad, slack)
    }
}

/// Within 10 km of the start.
pub open spec fn nearby(x: F32) -> bool {
    x.finite() && size(x.val()) <= 10_000 * one()
}

/// A ship within 10 km of the start, with a heading.
pub open spec fn on_the_map(m: Motion) -> bool {
    &&& nearby(m.x) && nearby(m.y)
    &&& m.rot_re.finite() && size(m.rot_re.val()) <= 2 * one()
    &&& m.rot_im.finite() && size(m.rot_im.val()) <= 2 * one()
    &&& m.angle.finite()
}

/// An arm of `k` hundredths, turned.
pub(crate) proof fn lemma_arm(c: F32, k: int, t: F32)
    requires
        c.finite(),
        t.finite(),
        size(c.val()) <= one(),
        size(t.val()) <= 2 * one(),
        size(100 * c.val() - k * one()) * 0x1000 <= one(),
    ensures
        f_mul(c, t).finite(),
        size(100 * f_mul(c, t).val() - k * t.val()) * 0x100 <= one(),
        size(f_mul(c, t).val()) <= 3 * one(),
{
    lemma_huge();
    let (u, a, b) = (one(), c.val(), t.val());
    assert(-(2 * (u * u)) <= a * b <= 2 * (u * u)) by (nonlinear_arith)
        requires
            -u <= a <= u,
            -(2 * u) <= b <= 2 * u,
            u > 0,
    ;
    assert(u * u >= 0x1000_0000_0000 * u) by (nonlinear_arith)
        requires
            u >= 0x1000_0000_0000,
    ;
    lemma_product(c, t);
    let p = f_mul(c, t).val();
    let w = 100 * a - k * u;
    assert(-(2 * (u * u)) <= (w * b) * 0x1000 <= 2 * (u * u)) by (nonlinear_arith)
        requires
            size(w) * 0x1000 <= u,
            -(2 * u) <= b <= 2 * u,
            u > 0,
    {
        let v = w * 0x1000;
        assert(-u <= v <= u);
        assert(-(u * (2 * u)) <= v * b <= u * (2 * u)) by (nonlinear_arith)
            requires
                -u <= v <= u,
                -(2 * u) <= b <= 2 * u,
        ;
        assert(v * b == (w * b) * 0x1000) by (nonlinear_arith)
            requires
                v == w * 0x1000,
        ;
        assert(u * (2 * u) == 2 * (u * u)) by (nonlinear_arith);
    }
    assert(w * b == 100 * (a * b) - k * (u * b)) by (nonlinear_arith)
        requires
            w == 100 * a - k * u,
    ;
    let d = 100 * p - k * b;
    assert(d * u == 100 * (p * u) - k * (u * b)) by (nonlinear_arith)
        requires
            d == 100 * p - k * b,
    ;
    assert(size(d) * 0x100 <= u) by (nonlinear_arith)
        requires
            -(u * u) <= (d * u) * 0x100 <= u * u,
            u > 0,
    {
        let e = d * 0x100;
        assert(e * u == (d * u) * 0x100) by (nonlinear_arith)
            requires
                e == d * 0x100,
        ;
        assert(-u <= e <= u) by (nonlinear_arith)
            requires
                -(u * u) <= e * u <= u * u,
                u > 0,
        ;
    }
    assert(size(p) <= 3 * u) by (nonlinear_arith)
        requires
            -(3 * (u * u)) <= p * u <= 3 * (u * u),
            u > 0,
    {
        assert(3 * (u * u) == (3 * u) * u) by (nonlinear_arith);
        assert(-(3 * u) <= p <= 3 * u) by (nonlinear_arith)
            requires
                -((3 * u) * u) <= p * u <= (3 * u) * u,
                u > 0,
        ;
    }
}

/// A sum near the map.
pub(crate) proof fn lemma_near_sum(a: F32, b: F32)
    requires
        a.finite(),
        b.finite(),
        size(a.val() + b.val()) <= 30_000 * one(),
    ensures
        f_add(a, b).finite(),
        size(f_add(a, b).val() - (a.val() + b.val())) * 500 <= one(),
{
    lemma_huge();
    lemma_sum(a, b);
}

proof fn lemma_measures()
    ensures
        fl(FOOT_X).finite() && size(100 * fl(FOOT_X).val() - 33 * one()) * 0x1000 <= one(),
        fl(FOOT_X).val() > 0 && fl(FOOT_X).val() <= one(),
        f_neg(fl(FOOT_X)).finite() && f_neg(fl(FOOT_X)).val() == -fl(FOOT_X).val(),
        fl(FOOT_Y).finite() && size(100 * fl(FOOT_Y).val() + 73 * one()) * 0x1000 <= one(),
        size(fl(FOOT_Y).val()) <= one(),
        fl(FOOT_LINE).finite() && size(100 * fl(FOOT_LINE).val() - 73 * one()) * 0x1000 <= one(),
        fl(FOOT_TOUCH_M).finite() && size(100 * fl(FOOT_TOUCH_M).val() - 10 * one()) * 0x1000 <= one(),
        fl(FOOT_TOUCH_M).val() > 0,
        fl(LINE_TOUCH).finite() && size(100 * fl(LINE_TOUCH).val() - 30 * one()) * 0x1000 <= one(),
        fl(LINE_TOUCH).val() > 0,
        fl(LEAN_MAX).finite() && size(100 * fl(LEAN_MAX).val() - 30 * one()) * 0x1000 <= one(),
        fl(LEAN_MAX).val() > 0,
        fl(PAD_HALF_W).finite() && fl(PAD_HALF_W).val() == 3 * one(),
        fl(ONE).finite() && fl(ONE).val() == one(),
{
    lemma2_to64();
    lemma_grain();
    lemma_one();
    lemma_const(FOOT_X, 0xa8_f5c3, 4, 0xa8f_5c30);
    lemma_const(0x3f3a_e148, 0xba_e148, 5, 0x175c_2900);
    assert(fl(FOOT_Y) == f_neg(fl(0x3f3a_e148)));
    lemma_const(FOOT_TOUCH_M, 0xcc_cccd, 2, 0x333_3334);
    lemma_const(LINE_TOUCH, 0x99_999a, 4, 0x999_99a0);
    lemma_const(PAD_HALF_W, 0xc0_0000, 7, 0x6000_0000);
}

/// Where a foot stands.
proof fn lemma_foot(m: Motion, left: bool)
    requires
        on_the_map(m),
    ensures
        ({
            let lx = if left {
                f_neg(fl(FOOT_X))
            } else {
                fl(FOOT_X)
            };
            let p = foot(m, lx);
            let (re, im) = (m.rot_re.val(), m.rot_im.val());
            &&& p.x.finite() && p.y.finite()
            &&& size(100 * (p.x.val() - m.x.val()) - (aside(left, re) + 73 * im)) * 2 <= one()
            &&& size(100 * (p.y.val() - m.y.val()) - (aside(left, im) - 73 * re)) * 2 <= one()
            &&& size(p.x.val()) <= 10_010 * one() && size(p.y.val()) <= 10_010 * one()
        }),
{
    lemma_huge();
    lemma_measures();
    let lx = if left {
        f_neg(fl(FOOT_X))
    } else {
        fl(FOOT_X)
    };
    if left {
        lemma_arm(lx, -33, m.rot_re);
        lemma_arm(lx, -33, m.rot_im);
    } else {
        lemma_arm(lx, 33, m.rot_re);
        lemma_arm(lx, 33, m.rot_im);
    }
    lemma_arm(fl(FOOT_Y), -73, m.rot_im);
    lemma_arm(fl(FOOT_Y), -73, m.rot_re);
    let (a, b) = (f_mul(lx, m.rot_re), f_mul(fl(FOOT_Y), m.rot_im));
    let (c, d) = (f_mul(lx, m.rot_im), f_mul(fl(FOOT_Y), m.rot_re));
    assert(f_neg(b).val() == -b.val());
    lemma_two_sums(m.x, a, f_neg(b));
    lemma_two_sums(m.y, c, d);
    let p = foot(m, lx);
    let (re, im) = (m.rot_re.val(), m.rot_im.val());
    lemma_foot_adds_up(m.x.val(), p.x.val(), a.val(), -b.val(), aside(left, re), 73 * im);
    lemma_foot_adds_up(m.y.val(), p.y.val(), c.val(), d.val(), aside(left, im), -(73 * re));
}

pub(crate) proof fn lemma_foot_adds_up(x: int, p: int, a: int, b: int, k: int, l: int)
    requires
        one() > 0,
        size(x) <= 10_000 * one(),
        size(100 * a - k) * 0x100 <= one(),
        size(100 * b - l) * 0x100 <= one(),
        size(a) <= 3 * one(),
        size(b) <= 3 * one(),
        size(p - (x + a + b)) * 250 <= one(),
    ensures
        size(100 * (p - x) - (k + l)) * 2 <= one(),
        size(p) <= 10_010 * one(),
{
}

pub(crate) proof fn lemma_two_sums(x: F32, a: F32, b: F32)
    requires
        nearby(x),
        a.finite(),
        b.finite(),
        size(a.val()) <= 3 * one(),
        size(b.val()) <= 3 * one(),
    ensures
        f_add(f_add(x, a), b).finite(),
        size(f_add(f_add(x, a), b).val() - (x.val() + a.val() + b.val())) * 250 <= one(),
{
    lemma_huge();
    lemma_near_sum(x, a);
    lemma_near_sum(f_add(x, a), b);
}

/// A point over a deck.
proof fn lemma_deck(p: Vec2, pad: Pad, touch: F32)
    requires
        p.x.finite(),
        p.y.finite(),
        size(p.x.val()) <= 10_010 * one(),
        size(p.y.val()) <= 10_010 * one(),
        nearby(pad.cx),
        nearby(pad.y),
        touch.finite(),
        touch.val() > 0,
    ensures
        on_deck(p, pad, touch) ==> 500 * size(p.x.val() - pad.cx.val()) <= 1501 * one() && 500 * size(
            p.y.val() - pad.y.val(),
        ) <= 500 * touch.val() + one(),
        500 * size(p.x.val() - pad.cx.val()) <= 1499 * one() && 500 * size(p.y.val() - pad.y.val()) + one()
            < 500 * touch.val() ==> on_deck(p, pad, touch),
{
    lemma_huge();
    lemma_measures();
    assert(f_neg(pad.cx).val() == -pad.cx.val());
    assert(f_neg(pad.y).val() == -pad.y.val());
    lemma_near_sum(p.x, f_neg(pad.cx));
    lemma_near_sum(p.y, f_neg(pad.y));
    lemma_below(f_sub(p.x, pad.cx), fl(PAD_HALF_W));
    lemma_below(f_sub(p.y, pad.y), touch);
}

/// Standing on a pad is resting over its deck.
proof fn lemma_stands(rules: SimParams, m: Motion, pad: Pad)
    requires
        on_the_map(m),
        nearby(pad.cx),
        nearby(pad.y),
        rules.land_rule.finite(),
    ensures
        stands_on(rules, m, pad) ==> rests_over(rules, m, pad, one()),
        rests_over(rules, m, pad, -one()) ==> stands_on(rules, m, pad),
{
    lemma_huge();
    lemma_measures();
    order_is_by_value(fl(ONE), rules.land_rule);
    if rules.land_rule.val() >= one() {
        lemma_foot_stands(m, pad, true);
        lemma_foot_stands(m, pad, false);
    } else {
        assert(f_neg(fl(FOOT_LINE)).val() == -fl(FOOT_LINE).val());
        lemma_near_sum(m.y, f_neg(fl(FOOT_LINE)));
        lemma_below(m.angle, fl(LEAN_MAX));
        lemma_deck(Vec2 { x: m.x, y: f_sub(m.y, fl(FOOT_LINE)) }, pad, fl(LINE_TOUCH));
    }
}

proof fn lemma_foot_stands(m: Motion, pad: Pad, left: bool)
    requires
        on_the_map(m),
        nearby(pad.cx),
        nearby(pad.y),
    ensures
        ({
            let lx = if left {
                f_neg(fl(FOOT_X))
            } else {
                fl(FOOT_X)
            };
            let there = on_deck(foot(m, lx), pad, fl(FOOT_TOUCH_M));
            &&& there ==> foot_over(m, pad, left, one())
            &&& foot_over(m, pad, left, -one()) ==> there
        }),
{
    lemma_huge();
    lemma_measures();
    lemma_foot(m, left);
    let lx = if left {
        f_neg(fl(FOOT_X))
    } else {
        fl(FOOT_X)
    };
    let p = foot(m, lx);
    lemma_deck(p, pad, fl(FOOT_TOUCH_M));
    let (re, im) = (m.rot_re.val(), m.rot_im.val());
    lemma_over(m.x.val(), p.x.val(), pad.cx.val(), aside(left, re) + 73 * im);
    lemma_over(m.y.val(), p.y.val(), pad.y.val(), aside(left, im) - 73 * re);
}

proof fn lemma_over(x: int, p: int, c: int, k: int)
    requires
        one() > 0,
        size(100 * (p - x) - k) * 2 <= one(),
    ensures
        size(100 * (x - c) + k) * 2 <= 200 * size(p - c) + one(),
        200 * size(p - c) <= size(100 * (x - c) + k) * 2 + one(),
{
}

/// The pads are where numbers are fine enough.
pub open spec fn pads_nearby(pads: Seq<Loaded<Pad>>) -> bool {
    forall|i: int|
        0 <= i < pads.len() ==> nearby((#[trigger] pads[i]).item.cx) && nearby(pads[i].item.y)
}

/// A ship is found on a pad exactly if it is at rest and rests over a deck, but
/// for a centimetre of rounding: one that moves is on no pad, nor is one that
/// has a foot beside the deck or above it; and of the decks that it rests over
/// the first counts.
pub proof fn landings_are_rests(pads: Seq<Loaded<Pad>>, rules: SimParams, m: Motion)
    requires
        on_the_map(m),
        pads_nearby(pads),
        rules.land_rule.finite(),
    ensures
        match pad_under(pads, rules, m) {
            Some(key) => at_rest(m) && exists|i: int|
                0 <= i < pads.len() && (#[trigger] pads[i]).key == key && rests_over(
                    rules,
                    m,
                    pads[i].item,
                    one(),
                ) && forall|j: int|
                    0 <= j < i ==> !rests_over(rules, m, (#[trigger] pads[j]).item, -one()),
            None => at_rest(m) ==> forall|i: int|
                0 <= i < pads.len() ==> !rests_over(rules, m, (#[trigger] pads[i]).item, -one()),
        },
{
    lemma_settled(m);
    assert forall|i: int| 0 <= i < pads.len() implies {
        &&& stands_on(rules, m, (#[trigger] pads[i]).item) ==> rests_over(rules, m, pads[i].item, one())
        &&& rests_over(rules, m, pads[i].item, -one()) ==> stands_on(rules, m, pads[i].item)
    } by {
        lemma_stands(rules, m, pads[i].item);
    }
    if exists|i: int| first_under(pads, rules, m, i) {
        let i = choose|i: int| first_under(pads, rules, m, i);
        assert(pads[i].key == pad_under(pads, rules, m)->0);
        assert forall|j: int| 0 <= j < i implies !rests_over(rules, m, (#[trigger] pads[j]).item, -one()) by {
            assert(!stands_on(rules, m, pads[j].item));
        }
    } else if settled(m) {
        assert forall|i: int| 0 <= i < pads.len() implies !stands_on(rules, m, (#[trigger] pads[i]).item) by {
            lemma_no_first(pads, rules, m, i);
        }
    }
}

/// Where no pad is the first, there is none.
proof fn lemma_no_first(pads: Seq<Loaded<Pad>>, rules: SimParams, m: Motion, n: int)
    requires
        settled(m),
        forall|i: int| !first_under(pads, rules, m, i),
        0 <= n < pads.len(),
    ensures
        forall|j: int| 0 <= j <= n ==> !stands_on(rules, m, (#[trigger] pads[j]).item),
    decreases n,
{
    if n > 0 {
        lemma_no_first(pads, rules, m, n - 1);
    }
    assert(!first_under(pads, rules, m, n));
}

/// The mirror image of a motion.
pub open spec fn mirrored(m: Motion) -> Motion {
    Motion {
        x: f_neg(m.x),
        vx: f_neg(m.vx),
        rot_im: f_neg(m.rot_im),
        angle: f_neg(m.angle),
        angvel: f_neg(m.angvel),
        ..m
    }
}

/// Rest is the same to the left as to the right: of a motion and its mirror
/// image, both are at rest or neither.
pub proof fn rest_has_no_side(pads: Seq<Loaded<Pad>>, mirror: Seq<Loaded<Pad>>, rules: SimParams, m: Motion)
    requires
        pad_under(pads, rules, m) is Some,
        pads.len() == mirror.len(),
        forall|i: int| #![trigger pads[i]] #![trigger mirror[i]]
            0 <= i < pads.len() ==> mirror[i].key == pads[i].key && mirror[i].item == (Pad {
                cx: f_neg(pads[i].item.cx),
                ..pads[i].item
            }) && nearby(pads[i].item.cx) && nearby(pads[i].item.y),
        on_the_map(m),
        rules.land_rule.finite(),
        exists|i: int| 0 <= i < pads.len() && rests_over(rules, m, (#[trigger] pads[i]).item, -one()),
    ensures
        pad_under(mirror, rules, mirrored(m)) is Some,
{
    lemma_units_zero();
    let n = mirrored(m);
    assert(n.x.val() == -m.x.val() && n.rot_im.val() == -m.rot_im.val());
    assert(n.vx.val() == -m.vx.val() && n.angvel.val() == -m.angvel.val() && n.angle.val()
        == -m.angle.val());
    landings_are_rests(pads, rules, m);
    let i = choose|i: int| 0 <= i < pads.len() && rests_over(rules, m, (#[trigger] pads[i]).item, -one());
    assert(mirror[i].item.cx.val() == -pads[i].item.cx.val());
    assert(pads_nearby(mirror)) by {
        assert forall|j: int| 0 <= j < mirror.len() implies nearby((#[trigger] mirror[j]).item.cx)
            && nearby(mirror[j].item.y) by {
            assert(mirror[j].item.cx.val() == -pads[j].item.cx.val());
        }
    }
    landings_are_rests(mirror, rules, n);
    assert(rests_over(rules, n, mirror[i].item, -one()));
}

} // verus!
