//! Laws of the controls: which way the engines push, where, and at what cost.

use crate::binary32::arith::{f_abs, f_add, f_div, f_mul, f_neg, f_sqrt, f_sub};
use crate::binary32::convert::f_of_int;
use crate::binary32::facts::{
    lemma_add_between, lemma_mul_between, lemma_units_zero, order_is_by_value,
};
use crate::binary32::order::{f_clamp, f_eq};
use crate::binary32::{fl, F32};
use crate::cave::{Wave, ONE, TAU};
use crate::laws::caves::{lemma_const, lemma_grain, lemma_one, unit_size};
use crate::laws::distances::lemma_div_between;
use crate::laws::errors::{lemma_huge, lemma_product, lemma_sum, one, quotients_are_near, size};
use crate::laws::impacts::{lemma_length, modest};
use crate::laws::landings::{lemma_arm, lemma_foot_adds_up, lemma_near_sum, lemma_two_sums, nearby};
use crate::laws::rewards::{chosen, lemma_per_tick, small};
use crate::laws::rises::{lemma_grid, lemma_int};
use crate::level::{LevelView, Vec2};
use crate::parse::PHYSICS_DT;
use crate::replay::InputState;
use crate::rules::SimParams;
use crate::run::{
    begun, command, deflection, heading_torque, live, rotation, short_way, throttle, torque, Motion,
    RunView, NOZZLE_X, NOZZLE_Y, PI,
};
use vstd::arithmetic::power2::{lemma2_to64, lemma_pow2_adds, pow2};
use vstd::prelude::*;

verus! {

/// `f` is a push of the strength `p` along the nose of a ship whose heading has
/// the sine `s` and the cosine `c`: upright, the nose points up, and a quarter
/// turn to the left it points left.
pub open spec fn along_the_nose(f: Vec2, p: F32, s: F32, c: F32) -> bool {
    &&& f.x.finite() && f.y.finite()
    &&& size(f.x.val() * one() + s.val() * p.val()) * 0x100_0000 <= size(s.val() * p.val()) + 0x80_0000
        * one()
    &&& size(f.y.val() * one() - c.val() * p.val()) * 0x100_0000 <= size(c.val() * p.val()) + 0x80_0000
        * one()
}

/// `p` is the product of two numbers, within rounding.
pub open spec fn product_of(p: F32, a: F32, b: F32) -> bool {
    p.finite() && size(p.val() * one() - a.val() * b.val()) * 0x100_0000 <= size(a.val() * b.val())
        + 0x80_0000 * one()
}

proof fn lemma_times(a: F32, b: F32)
    requires
        modest(a),
        b.finite(),
        size(b.val()) <= 0x100_0000_0000 * one(),
    ensures
        product_of(f_mul(a, b), a, b),
{
    lemma_huge();
    let (u, x, y) = (one(), a.val(), b.val());
    assert(-(0x1000_0000_0000_0000 * (u * u)) <= x * y <= 0x1000_0000_0000_0000 * (u * u)) by (nonlinear_arith)
        requires
            -(0x10_0000 * u) <= x <= 0x10_0000 * u,
            -(0x100_0000_0000 * u) <= y <= 0x100_0000_0000 * u,
            u > 0,
    {
        let (p, q) = (0x10_0000 * u, 0x100_0000_0000 * u);
        assert(-(p * q) <= x * y <= p * q) by (nonlinear_arith)
            requires
                -p <= x <= p,
                -q <= y <= q,
        ;
        assert(p * q == 0x1000_0000_0000_0000 * (u * u)) by (nonlinear_arith)
            requires
                p == 0x10_0000 * u,
                q == 0x100_0000_0000 * u,
        ;
    }
    lemma_product(a, b);
}

proof fn lemma_nose(p: F32, s: F32, c: F32)
    requires
        unit_size(s),
        unit_size(c),
        p.finite(),
        size(p.val()) <= 0x100_0000_0000 * one(),
    ensures
        along_the_nose(Vec2 { x: f_mul(f_neg(s), p), y: f_mul(c, p) }, p, s, c),
        modest(p) ==> along_the_nose(Vec2 { x: f_mul(f_neg(p), s), y: f_mul(p, c) }, p, s, c),
{
    lemma_huge();
    assert(f_neg(s).val() == -s.val() && f_neg(p).val() == -p.val());
    lemma_times(f_neg(s), p);
    lemma_times(c, p);
    let (a, b, d) = (s.val(), p.val(), c.val());
    assert((-a) * b == -(a * b) && (-b) * a == -(a * b) && b * d == d * b) by (nonlinear_arith);
    if modest(p) {
        lemma_times(f_neg(p), s);
        lemma_times(p, c);
    }
}

/// The main engine pushes with its force times the throttle, along the ship's
/// nose, whichever way it points; without fuel or throttle it does not push. The
/// force is the level's own, where it has one.
pub proof fn thrust_goes_along_the_nose(r: RunView, level: LevelView, rules: SimParams, w: spec_fn(Wave, F32) -> F32, input: InputState, m: Motion, bearing: F32)
    requires
        r.fuel.finite(),
        modest(input.throttle),
        level.thrust_force.finite(),
        modest(chosen(level.thrust_force, rules.thrust_force)),
        unit_size(w(Wave::Sin, m.angle)),
        unit_size(w(Wave::Cos, m.angle)),
    ensures
        match command(r, level, rules, w, input, m, bearing).thrust {
            Some(f) => {
                &&& r.fuel.val() > 0 && input.throttle.val() > 0
                &&& exists|p: F32| #[trigger]
                    product_of(p, chosen(level.thrust_force, rules.thrust_force), input.throttle)
                        && along_the_nose(f, p, w(Wave::Sin, m.angle), w(Wave::Cos, m.angle))
            },
            None => r.fuel.val() <= 0 || input.throttle.val() <= 0,
        },
{
    lemma_huge();
    lemma_units_zero();
    order_is_by_value(fl(0), r.fuel);
    order_is_by_value(fl(0), input.throttle);
    order_is_by_value(fl(0), level.thrust_force);
    let force = chosen(level.thrust_force, rules.thrust_force);
    lemma_times(force, input.throttle);
    let p = f_mul(force, input.throttle);
    lemma_product_size(force, input.throttle);
    lemma_nose(p, w(Wave::Sin, m.angle), w(Wave::Cos, m.angle));
}

proof fn lemma_product_size(a: F32, b: F32)
    requires
        modest(a),
        modest(b),
        product_of(f_mul(a, b), a, b),
    ensures
        size(f_mul(a, b).val()) <= 0x100_0000_0000 * one(),
{
    lemma_huge();
    let (u, x, y, p) = (one(), a.val(), b.val(), f_mul(a, b).val());
    let top = 0x100_0000_0000 * u;
    let t = lemma_grid(0x80_0000, 166);
    lemma_pow2_adds(149, 17);
    lemma2_to64();
    assert(t.val() == top) by (nonlinear_arith)
        requires
            t.val() == 0x80_0000 * pow2(166),
            pow2(166) == u * 0x2_0000,
            top == 0x100_0000_0000 * u,
    ;
    assert(-(top * u) <= x * y <= top * u) by (nonlinear_arith)
        requires
            -(0x10_0000 * u) <= x <= 0x10_0000 * u,
            -(0x10_0000 * u) <= y <= 0x10_0000 * u,
            top == 0x100_0000_0000 * u,
    ;
    assert(f_neg(t).val() == -t.val());
    assert((-top) * u == -(top * u)) by (nonlinear_arith);
    lemma_mul_between(a, b, f_neg(t), t);
}

/// 30 hundredths of `t`, to the side of the left or the right nozzle.
pub open spec fn nozzle_aside(left: bool, t: int) -> int {
    if left {
        -(30 * t)
    } else {
        30 * t
    }
}

/// A side booster pushes with its force along the ship's nose, at its nozzle:
/// 30 cm to the side that it is on and 71 cm below the ship's centre, turned
/// with the ship, within a centimetre. Without fuel, or if none is held, none
/// pushes.
pub proof fn boosters_push_at_their_nozzles(r: RunView, level: LevelView, rules: SimParams, w: spec_fn(Wave, F32) -> F32, input: InputState, m: Motion, bearing: F32)
    requires
        r.fuel.finite(),
        modest(rules.rcs_force),
        unit_size(w(Wave::Sin, m.angle)),
        unit_size(w(Wave::Cos, m.angle)),
        nearby(m.x),
        nearby(m.y),
    ensures
        match command(r, level, rules, w, input, m, bearing).booster {
            Some(b) => {
                let (s, c) = (w(Wave::Sin, m.angle), w(Wave::Cos, m.angle));
                let left = input.rot < 0;
                &&& r.fuel.val() > 0 && input.rot != 0
                &&& along_the_nose(b.force, rules.rcs_force, s, c)
                &&& b.at.x.finite() && b.at.y.finite()
                &&& size(100 * (b.at.x.val() - m.x.val()) - (nozzle_aside(left, c.val()) + 71 * s.val()))
                    <= one()
                &&& size(100 * (b.at.y.val() - m.y.val()) - (nozzle_aside(left, s.val()) - 71 * c.val()))
                    <= one()
            },
            None => r.fuel.val() <= 0 || input.rot == 0,
        },
{
    lemma_huge();
    lemma_units_zero();
    lemma2_to64();
    lemma_grain();
    order_is_by_value(fl(0), r.fuel);
    let (s, c) = (w(Wave::Sin, m.angle), w(Wave::Cos, m.angle));
    lemma_nose(rules.rcs_force, s, c);
    if input.rot != 0 {
        let left = input.rot < 0;
        let side: int = if left {
            -1
        } else {
            1
        };
        lemma_const(NOZZLE_X, 0x99_999a, 4, 0x999_99a0);
        lemma_const(0x3f35_c28f, 0xb5_c28f, 5, 0x16b8_51e0);
        assert(fl(NOZZLE_Y) == f_neg(fl(0x3f35_c28f)));
        let (n, d) = (fl(NOZZLE_X), fl(NOZZLE_Y));
        lemma_int(side);
        let lx = f_mul(n, f_of_int(side));
        let (nv, u) = (n.val(), one());
        assert(f_neg(n).val() == -n.val());
        assert(nv * (1 * u) == nv * u && nv * (-1 * u) == (-nv) * u) by (nonlinear_arith);
        if left {
            lemma_mul_between(n, f_of_int(side), f_neg(n), f_neg(n));
            lemma_arm(lx, -30, c);
            lemma_arm(lx, -30, s);
        } else {
            lemma_mul_between(n, f_of_int(side), n, n);
            lemma_arm(lx, 30, c);
            lemma_arm(lx, 30, s);
        }
        lemma_arm(d, -71, s);
        lemma_arm(d, -71, c);
        let (p, q) = (f_mul(lx, c), f_mul(d, s));
        assert(f_neg(q).val() == -q.val());
        lemma_two_sums(m.x, p, f_neg(q));
        let x = f_sub(f_add(m.x, p), q);
        lemma_foot_adds_up(m.x.val(), x.val(), p.val(), -q.val(), nozzle_aside(left, c.val()), 71 * s.val());
        let (f, g) = (f_mul(lx, s), f_mul(d, c));
        lemma_two_sums(m.y, f, g);
        let y = f_add(f_add(m.y, f), g);
        lemma_foot_adds_up(m.y.val(), y.val(), f.val(), g.val(), nozzle_aside(left, s.val()), -(71 * c.val()));
    }
}

// ---- Steering ----

/// How far the stick is moved is the length of its deflection, and 1 at most.
pub proof fn deflections_are_lengths(input: InputState)
    requires
        modest(input.steer_x),
        modest(input.steer_y),
    ensures
        ({
            let d = deflection(input).val();
            let e = input.steer_x.val() * input.steer_x.val() + input.steer_y.val() * input.steer_y.val();
            &&& deflection(input).finite()
            &&& 0 <= d <= one()
            &&& d < one() ==> size(d * d - e) * 0x4_0000 <= e + 0x10_0000 * one()
            &&& d == one() ==> 0x4_0001 * e + 0x10_0000 * one() >= 0x4_0000 * (one() * one())
        }),
{
    lemma_huge();
    lemma_one();
    lemma_length(input.steer_x, input.steer_y);
    let (x, y) = (input.steer_x, input.steer_y);
    let v = f_sqrt(f_add(f_mul(x, x), f_mul(y, y)));
    order_is_by_value(fl(ONE), v);
    if v.val() >= one() {
        let (a, u) = (v.val(), one());
        assert(a * a >= u * u) by (nonlinear_arith)
            requires
                a >= u,
                u > 0,
        ;
    }
}

/// `s` is the way from one heading to another, `e` further on, the short way
/// around: the same but for a whole turn, and about half a turn at most. A turn
/// is 6.283 radians.
pub open spec fn short_turn(e: int, s: int) -> bool {
    &&& 100 * size(s) <= 315 * one()
    &&& size(1000 * (s - e)) <= 3 * one() || size(1000 * (s - e) + 6283 * one()) <= 3 * one() || size(
        1000 * (s - e) - 6283 * one(),
    ) <= 3 * one()
}

proof fn lemma_short(e: F32)
    requires
        e.finite(),
        100 * size(e.val()) <= 631 * one(),
    ensures
        short_way(e).finite(),
        100 * size(short_way(e).val()) <= 315 * one(),
        ({
            let d = short_way(e).val() - e.val();
            size(1000 * d) <= one() || size(1000 * d + 6283 * one()) <= one() || size(
                1000 * d - 6283 * one(),
            ) <= one()
        }),
{
    lemma_huge();
    lemma2_to64();
    lemma_grain();
    lemma_const(PI, 0xc9_0fdb, 7, 0x6487_ed80);
    lemma_const(TAU, 0xc9_0fdb, 8, 0xc90f_db00);
    let (p, t) = (fl(PI), fl(TAU));
    order_is_by_value(p, e);
    assert(f_neg(t).val() == -t.val() && f_neg(p).val() == -p.val());
    if e.val() > p.val() {
        lemma_sum(e, f_neg(t));
        let o = f_sub(e, t);
        lemma_add_between(e, f_neg(t), f_neg(p), e);
        order_is_by_value(o, f_neg(p));
    } else {
        order_is_by_value(e, f_neg(p));
        if e.val() < -p.val() {
            lemma_sum(e, t);
        }
    }
}

/// A torque of `d` at most `most` either way.
pub open spec fn held_to(d: int, most: int) -> int {
    if d < -most {
        -most
    } else if d > most {
        most
    } else {
        d
    }
}

/// `d` is the way `s` times one gain, less the spin times the other.
pub open spec fn turned_to(rules: SimParams, spin: int, s: int, d: int) -> bool {
    0x10 * size(d * one() - (s * rules.heading_kp.val() - spin * rules.heading_kd.val())) <= one()
        * one()
}

/// Steering turns the ship to where the stick points, the short way around, and
/// damps its spin: the torque is the way to go times one gain, less the spin
/// times the other, held to the limit and scaled by how far the stick is moved.
/// There is none without fuel, without the stick, or while a booster is held.
pub proof fn steering_turns_the_short_way(r: RunView, level: LevelView, rules: SimParams, w: spec_fn(Wave, F32) -> F32, input: InputState, m: Motion, bearing: F32)
    requires
        r.fuel.finite(),
        modest(input.steer_x),
        modest(input.steer_y),
        bearing.finite(),
        m.angle.finite(),
        100 * size(bearing.val()) <= 315 * one(),
        100 * size(m.angle.val()) <= 315 * one(),
        m.angvel.finite(),
        size(m.angvel.val()) <= 100 * one(),
        small(rules.heading_kp),
        small(rules.heading_kd),
        small(rules.heading_torque_max),
    ensures
        match command(r, level, rules, w, input, m, bearing).torque {
            Some(q) => {
                let most = rules.heading_torque_max.val();
                &&& r.fuel.val() > 0 && input.rot == 0 && deflection(input).val() > 0
                &&& q.finite() && size(q.val()) <= most
                &&& exists|s: int, d: int| #[trigger]
                    turned_to(rules, m.angvel.val(), s, d) && short_turn(
                        bearing.val() - m.angle.val(),
                        s,
                    ) && scaled_by(q, held_to(d, most), deflection(input))
            },
            None => r.fuel.val() <= 0 || input.rot != 0 || deflection(input).val() <= 0,
        },
{
    lemma_huge();
    lemma_units_zero();
    lemma_one();
    deflections_are_lengths(input);
    order_is_by_value(fl(0), r.fuel);
    let z = deflection(input);
    order_is_by_value(fl(0), z);
    assert(f_neg(m.angle).val() == -m.angle.val());
    lemma_near_sum(bearing, f_neg(m.angle));
    let err = f_sub(bearing, m.angle);
    lemma_sum(bearing, f_neg(m.angle));
    lemma_short(err);
    let s = short_way(err);
    assert(short_turn(bearing.val() - m.angle.val(), s.val()));
    let (kp, kd, max) = (rules.heading_kp, rules.heading_kd, rules.heading_torque_max);
    lemma_gain(s, kp);
    lemma_gain(m.angvel, kd);
    let (a, b) = (f_mul(s, kp), f_mul(m.angvel, kd));
    assert(f_neg(b).val() == -b.val());
    lemma_sum(a, f_neg(b));
    let d = f_sub(a, b);
    lemma_pd(a.val(), b.val(), d.val(), s.val() * kp.val(), m.angvel.val() * kd.val(), one());
    assert(f_neg(max).val() == -max.val());
    order_is_by_value(d, f_neg(max));
    order_is_by_value(max, d);
    let c = f_clamp(d, f_neg(max), max);
    assert(c.val() == held_to(d.val(), max.val()));
    let (x, y, u) = (c.val(), z.val(), one());
    let t = max.val();
    assert(-(t * u) <= x * y <= t * u) by (nonlinear_arith)
        requires
            -t <= x <= t,
            0 <= y <= u,
            t >= 0,
    ;
    assert((-t) * u == -(t * u)) by (nonlinear_arith);
    lemma_mul_between(c, z, f_neg(max), max);
    lemma_times(c, z);
    let q = f_mul(c, z);
    assert(scaled_by(q, held_to(d.val(), t), z));
    assert(turned_to(rules, m.angvel.val(), s.val(), d.val()));
    assert(heading_torque(rules, input, m, bearing) == q);
}

/// `q` is `d` scaled by `z`, within rounding.
pub open spec fn scaled_by(q: F32, d: int, z: F32) -> bool {
    size(q.val() * one() - d * z.val()) * 0x100_0000 <= size(d * z.val()) + 0x80_0000 * one()
}

proof fn lemma_gain(x: F32, k: F32)
    requires
        x.finite(),
        size(x.val()) <= 100 * one(),
        small(k),
    ensures
        f_mul(x, k).finite(),
        size(f_mul(x, k).val()) <= 100_001 * one(),
        size(f_mul(x, k).val() * one() - x.val() * k.val()) * 100 <= one() * one(),
        size(x.val() * k.val()) <= 100_000 * (one() * one()),
{
    lemma_huge();
    let (u, a, b) = (one(), x.val(), k.val());
    assert(-(100_000 * (u * u)) <= a * b <= 100_000 * (u * u)) by (nonlinear_arith)
        requires
            -(100 * u) <= a <= 100 * u,
            0 <= b <= 1000 * u,
            u > 0,
    ;
    assert(u * u >= 0x1000_0000_0000 * u) by (nonlinear_arith)
        requires
            u >= 0x1000_0000_0000,
    ;
    lemma_product(x, k);
    let p = f_mul(x, k).val();
    assert(size(p) <= 100_001 * u) by (nonlinear_arith)
        requires
            -(100_001 * (u * u)) <= p * u <= 100_001 * (u * u),
            u > 0,
    {
        let t = 100_001 * u;
        assert(100_001 * (u * u) == t * u) by (nonlinear_arith)
            requires
                t == 100_001 * u,
        ;
        assert(-t <= p <= t) by (nonlinear_arith)
            requires
                -(t * u) <= p * u <= t * u,
                u > 0,
        ;
    }
}

proof fn lemma_pd(a: int, b: int, d: int, p: int, q: int, u: int)
    requires
        u > 0x1000_0000_0000,
        size(a) <= 100_001 * u,
        size(b) <= 100_001 * u,
        size(a * u - p) * 100 <= u * u,
        size(b * u - q) * 100 <= u * u,
        size(d - (a - b)) * 0x100_0000 <= size(a - b),
    ensures
        0x10 * size(d * u - (p - q)) <= u * u,
{
    let e = d - (a - b);
    assert(d * u == a * u - b * u + e * u) by (nonlinear_arith)
        requires
            d == a - b + e,
    ;
    assert(-(u * u) <= e * u * 80 <= u * u) by (nonlinear_arith)
        requires
            -u <= 80 * e <= u,
            u > 0,
    ;
}

// ---- Fuel ----

/// What a rate takes out of the tank in a tick.
proof fn lemma_spend(fuel: F32, rate: F32)
    requires
        fuel.finite(),
        size(fuel.val()) <= 1010 * one(),
        small(rate),
    ensures
        ({
            let left = f_sub(fuel, f_mul(rate, fl(PHYSICS_DT)));
            &&& left.finite()
            &&& size(120 * (fuel.val() - left.val()) - rate.val()) * 100 <= one()
            &&& size(left.val()) <= size(fuel.val()) + 10 * one()
        }),
{
    lemma_huge();
    lemma_per_tick(rate);
    let b = f_mul(rate, fl(PHYSICS_DT));
    assert(f_neg(b).val() == -b.val());
    lemma_sum(fuel, f_neg(b));
}

/// A rate times a share of 1 at most.
proof fn lemma_part(rate: F32, part: F32)
    requires
        small(rate),
        part.finite(),
        0 <= part.val() <= one(),
    ensures
        small(f_mul(rate, part)),
        size(f_mul(rate, part).val() * one() - rate.val() * part.val()) * 0x2000 <= one() * one(),
{
    lemma_huge();
    lemma_units_zero();
    let (u, x, y) = (one(), rate.val(), part.val());
    assert(0 <= x * y <= x * u) by (nonlinear_arith)
        requires
            0 <= x,
            0 <= y <= u,
    ;
    assert(x * u <= 1000 * (u * u) && u * u >= 0x1000_0000_0000 * u) by (nonlinear_arith)
        requires
            x <= 1000 * u,
            u >= 0x1000_0000_0000,
    ;
    assert(0 * u == 0);
    lemma_mul_between(rate, part, fl(0), rate);
    lemma_product(rate, part);
}

/// `share` is the part that `q` is of `most`.
pub open spec fn share_of(share: int, q: int, most: int) -> bool {
    0 <= share <= one() && size(share * most - size(q) * one()) * 0x100_0000 <= size(q) * one()
        + 0x80_0000 * most
}

/// The share of the side boosters' rate that a tick burns: all of it with a
/// booster held, as much as the torque is of its limit while steering, and else
/// nothing.
pub open spec fn side_share(share: int, r: RunView, rules: SimParams, input: InputState, torque: Option<F32>) -> bool {
    if r.fuel.val() > 0 && input.rot != 0 {
        share == one()
    } else {
        match torque {
            Some(q) => share_of(share, q.val(), rules.heading_torque_max.val()),
            None => share == 0,
        }
    }
}

/// `left` is what `fuel` leaves after a tick at the rate `rate`, a product: a
/// tick is a 120th of a second, and a tank is never less than empty.
pub open spec fn burns(fuel: int, left: int, rate: int) -> bool {
    &&& left >= 0
    &&& left > 0 ==> size(120 * (fuel - left) * one() - rate) * 40 <= one() * one()
    &&& left == 0 ==> (120 * fuel * one() - rate) * 40 <= one() * one()
}

/// Engines burn fuel by the second: the main engine at its rate times the
/// throttle, and the side boosters at theirs. A tick of a run that is under way
/// counts, and one of a run that is over burns and counts nothing.
pub proof fn engines_burn_by_the_second(r: RunView, level: LevelView, rules: SimParams, w: spec_fn(Wave, F32) -> F32, input: InputState, m: Motion, bearing: F32)
    requires
        small(r.fuel),
        input.throttle.finite(),
        0 <= input.throttle.val() <= one(),
        small(rules.fuel_burn_main),
        small(rules.fuel_burn_rcs),
        small(rules.heading_torque_max),
        rules.heading_torque_max.val() > 0,
        match command(r, level, rules, w, input, m, bearing).torque {
            Some(q) => q.finite() && size(q.val()) <= rules.heading_torque_max.val(),
            None => true,
        },
    ensures
        ({
            let c = command(r, level, rules, w, input, m, bearing);
            let after = begun(r, rules, input, m, bearing);
            let main = if r.fuel.val() > 0 {
                rules.fuel_burn_main.val() * input.throttle.val()
            } else {
                0
            };
            if r.crashed || r.completed {
                after == r
            } else {
                &&& after.run_ticks == r.run_ticks + 1
                &&& after.fuel.finite()
                &&& exists|share: int| #[trigger]
                    side_share(share, r, rules, input, c.torque) && burns(
                        r.fuel.val(),
                        after.fuel.val(),
                        main + rules.fuel_burn_rcs.val() * share,
                    )
            }
        }),
{
    lemma_huge();
    lemma_units_zero();
    order_is_by_value(fl(0), r.fuel);
    let u = one();
    let t = throttle(r, input);
    order_is_by_value(fl(0), t);
    let rm = rules.fuel_burn_main;
    lemma_part(rm, t);
    lemma_spend(r.fuel, f_mul(rm, t));
    let first = if t.val() > 0 {
        f_sub(r.fuel, f_mul(f_mul(rm, t), fl(PHYSICS_DT)))
    } else {
        r.fuel
    };
    let p = rm.val() * t.val();
    assert(t.val() == 0 ==> p == 0) by (nonlinear_arith)
        requires
            p == rm.val() * t.val(),
    ;
    let spent1 = if t.val() > 0 {
        f_mul(rm, t).val()
    } else {
        0
    };
    assert(size(120 * (r.fuel.val() - first.val()) - spent1) * 100 <= u);
    assert(size(spent1 * u - p) * 0x2000 <= u * u) by {
        if t.val() == 0 {
            assert(0 * u == 0 && u * u >= 0) by (nonlinear_arith);
        }
    }
    let rs = rules.fuel_burn_rcs;
    let q = torque(r, rules, input, m, bearing);
    let c = command(r, level, rules, w, input, m, bearing);
    let max = rules.heading_torque_max;
    order_is_by_value(q, fl(0));
    order_is_by_value(fl(0), q);
    let turning = rotation(r, input) != 0;
    let (share, spent2, second) = if turning {
        lemma_spend(first, rs);
        (u, rs.val(), f_sub(first, f_mul(rs, fl(PHYSICS_DT))))
    } else if !f_eq(q, fl(0)) {
        let z = f_div(f_abs(q), max);
        lemma_share(q, max);
        lemma_part(rs, z);
        lemma_spend(first, f_mul(rs, z));
        (z.val(), f_mul(rs, z).val(), f_sub(first, f_mul(f_mul(rs, z), fl(PHYSICS_DT))))
    } else {
        lemma_none(max.val());
        (0, 0, first)
    };
    let s = rs.val() * share;
    assert(size(spent2 * u - s) * 0x2000 <= u * u) by {
        assert(rs.val() * u == rs.val() * one() && rs.val() * 0 == 0 && 0 * u == 0 && u * u >= 0) by (nonlinear_arith)
            requires
                u == one(),
        ;
    }
    assert(size(120 * (first.val() - second.val()) - spent2) * 100 <= u);
    lemma_burnt(r.fuel.val(), first.val(), second.val(), spent1, spent2, p, s, u);
    order_is_by_value(second, fl(0));
    if live(r) {
        assert(begun(r, rules, input, m, bearing).fuel.val() == if second.val() < 0 {
            0
        } else {
            second.val()
        });
        assert(side_share(share, r, rules, input, c.torque));
    }
}

proof fn lemma_none(most: int)
    ensures
        0 * most == 0,
        size(0) * one() == 0,
{
    assert(0 * most == 0 && 0 * one() == 0) by (nonlinear_arith);
}

/// A torque's share of its limit.
proof fn lemma_share(q: F32, max: F32)
    requires
        q.finite(),
        max.finite(),
        0 < max.val() <= 1000 * one(),
        size(q.val()) <= max.val(),
    ensures
        f_div(f_abs(q), max).finite(),
        share_of(f_div(f_abs(q), max).val(), q.val(), max.val()),
{
    lemma_huge();
    lemma_one();
    lemma_units_zero();
    let a = f_abs(q);
    assert(a.finite() && a.val() == size(q.val()));
    let (x, y, u) = (a.val(), max.val(), one());
    assert(0 <= x * u <= u * y && 0 * y == 0) by (nonlinear_arith)
        requires
            0 <= x <= y,
            u > 0,
    ;
    lemma_div_between(a, max, fl(0), fl(ONE));
    quotients_are_near(a, max);
}

proof fn lemma_burnt(fuel: int, first: int, second: int, a: int, b: int, p: int, s: int, u: int)
    requires
        u > 0x1000_0000_0000,
        size(120 * (fuel - first) - a) * 100 <= u,
        size(120 * (first - second) - b) * 100 <= u,
        size(a * u - p) * 0x2000 <= u * u,
        size(b * u - s) * 0x2000 <= u * u,
    ensures
        size(120 * (fuel - second) * u - (p + s)) * 40 <= u * u,
        second < 0 ==> (120 * fuel * u - (p + s)) * 40 <= u * u,
{
    let e = 120 * (fuel - second) - (a + b);
    assert(120 * (fuel - second) * u == a * u + b * u + e * u) by (nonlinear_arith)
        requires
            e == 120 * (fuel - second) - (a + b),
    ;
    assert(-(u * u) <= 50 * (e * u) <= u * u) by (nonlinear_arith)
        requires
            -u <= 50 * e <= u,
            u > 0,
    ;
    if second < 0 {
        assert(120 * fuel * u <= 120 * (fuel - second) * u) by (nonlinear_arith)
            requires
                second < 0,
                u > 0,
        ;
    }
}

} // verus!
