//! Laws of one whole tick: the clock, the flags, the distance, and what the
//! fuel and hull gauges can show.

use crate::binary32::arith::{f_abs, f_add, f_div, f_mul, f_neg, f_sub};
use crate::binary32::facts::{
    lemma_add_between, lemma_add_up, lemma_pack_ge, lemma_pack_le, lemma_pack_mono, lemma_pack_units, lemma_pack_zero,
    lemma_units_at, lemma_units_mono, lemma_units_zero, order_is_by_value,
};
use crate::binary32::order::{f_eq, f_le, f_lt, f_max, f_min};
use crate::binary32::{fl, units, F32};
use crate::cave::{Wave, ONE};
use crate::laws::caves::lemma_one;
use crate::level::LevelView;
use crate::parse::PHYSICS_DT;
use crate::replay::InputState;
use crate::rules::{registry, SimParams};
use crate::run::{
    begun, burnt, command, damage, ended, flown, fuel_cap, hull_cap, impact, jump, landed, live, own_or, report,
    throttle, torque, Command, Motion, RunView,
};
use crate::scenery::Pad;
use crate::sim::torque_in;
use crate::slots::Loaded;
use vstd::arithmetic::power2::{lemma2_to64, lemma_pow2_pos, pow2};
use vstd::prelude::*;

verus! {

/// One tick: the controls, and then what the engine came to.
pub open spec fn tick(r: RunView, level: LevelView, rules: SimParams, input: InputState, m: Motion, bearing: F32, pads: Seq<Loaded<Pad>>, after: Motion) -> RunView {
    ended(begun(r, rules, input, m, bearing), level, rules, pads, after)
}

/// Over one tick the clock goes on by one, unless the run is over; what has
/// crashed or is complete stays so; and the distance grows to where the ship
/// is, unless the run is over.
pub proof fn a_tick_moves_the_clock(r: RunView, level: LevelView, rules: SimParams, input: InputState, m: Motion, bearing: F32, pads: Seq<Loaded<Pad>>, after: Motion)
    ensures
        ({
            let e = tick(r, level, rules, input, m, bearing, pads, after);
            &&& e.run_ticks == r.run_ticks + if live(r) {
                1int
            } else {
                0
            }
            &&& r.crashed ==> e.crashed
            &&& r.completed ==> e.completed
            &&& e.max_dist == if live(r) {
                f_max(r.max_dist, f_abs(after.x))
            } else {
                r.max_dist
            }
        }),
{
}

/// What the engine is given to act on the ship: nothing once the run is over.
pub open spec fn given(r: RunView, level: LevelView, rules: SimParams, w: spec_fn(Wave, F32) -> F32, input: InputState, m: Motion, bearing: F32) -> Option<Command> {
    if live(r) {
        Some(command(r, level, rules, w, input, m, bearing))
    } else {
        None
    }
}

/// Once the run is over or the tank is dry, the controls do nothing: whatever
/// they are, the engine is given the same, and no torque; and whatever the
/// engine makes of that, the tick leaves the same run and reports the same.
pub proof fn dead_controls_do_nothing(r: RunView, level: LevelView, rules: SimParams, w: spec_fn(Wave, F32) -> F32, input: InputState, input2: InputState, m: Motion, bearing: F32, bearing2: F32, pads: Seq<Loaded<Pad>>, engine: spec_fn(Option<Command>) -> Motion)
    requires
        !live(r) || !f_lt(fl(0), r.fuel),
    ensures
        ({
            let a = given(r, level, rules, w, input, m, bearing);
            let b = given(r, level, rules, w, input2, m, bearing2);
            &&& a == b
            &&& torque_in(a) == fl(0)
            &&& tick(r, level, rules, input, m, bearing, pads, engine(a)) == tick(
                r,
                level,
                rules,
                input2,
                m,
                bearing2,
                pads,
                engine(b),
            )
            &&& report(
                begun(r, rules, input, m, bearing),
                level,
                rules,
                pads,
                engine(a),
                torque_in(a),
            ) == report(
                begun(r, rules, input2, m, bearing2),
                level,
                rules,
                pads,
                engine(b),
                torque_in(b),
            )
        }),
{
}

/// Not negative; NaN passes.
spec fn no_loss(x: F32) -> bool {
    x.nan() || f_le(fl(0), x)
}

proof fn lemma_mul_no_loss(a: F32, b: F32)
    requires
        no_loss(a),
        no_loss(b),
    ensures
        no_loss(f_mul(a, b)),
{
    reveal(f_mul);
    lemma_units_zero();
    lemma_pow2_pos(149);
    if !a.nan() && !b.nan() && a.finite() && b.finite() && a.neg() != b.neg() {
        assert(units(a.mag()) * units(b.mag()) == 0) by (nonlinear_arith)
            requires
                units(a.mag()) == 0 || units(b.mag()) == 0,
        ;
        lemma_pack_zero(pow2(149));
    }
}

proof fn lemma_div_no_loss(a: F32, b: F32)
    requires
        a.nan() || !a.neg(),
        b.nan() || !b.neg(),
    ensures
        no_loss(f_div(a, b)),
{
    reveal(f_div);
}

/// Taking away what is not negative never leads up.
proof fn lemma_sub_down(a: F32, x: F32, top: F32)
    requires
        a.nan() || f_le(a, top),
        no_loss(x),
    ensures
        f_sub(a, x).nan() || f_le(f_sub(a, x), top),
        f_sub(a, x).nan() || f_le(f_sub(a, x), a),
{
    reveal(f_add);
    lemma_units_zero();
    let b = f_neg(x);
    if a.finite() && b.finite() {
        let s = a.val() + b.val();
        assert(b.val() <= 0) by {
            if x.mag() > 0 {
                lemma_units_mono(0, x.mag());
            }
        }
        assert(units(a.mag()) * 1 == units(a.mag()));
        if s > 0 {
            lemma_pack_le(s as nat, 1, a.mag());
        } else if s < 0 && a.neg() {
            lemma_pack_ge((-s) as nat, 1, a.mag());
        } else if s == 0 && a.mag() > 0 {
            lemma_units_mono(0, a.mag());
        }
    }
}

/// Where there is no torque to be had, steering has none, or is NaN.
proof fn lemma_no_torque(r: RunView, rules: SimParams, input: InputState, m: Motion, bearing: F32)
    requires
        rules.heading_torque_max.mag() == 0,
    ensures
        ({
            let q = torque(r, rules, input, m, bearing);
            q.nan() || f_eq(q, fl(0))
        }),
{
    reveal(f_mul);
    lemma_units_zero();
    lemma_pow2_pos(149);
    lemma_pack_zero(pow2(149));
    assert forall|n: nat| #[trigger] (units(0) * n) == 0 by {
        assert(units(0) * n == 0) by (nonlinear_arith)
            requires
                units(0) == 0,
        ;
    }
}

/// The controls take fuel, never more than there is, and never give any.
proof fn lemma_burn(r: RunView, rules: SimParams, input: InputState, m: Motion, bearing: F32)
    requires
        f_le(fl(0), r.fuel),
        f_le(fl(0), rules.fuel_burn_main),
        f_le(fl(0), rules.fuel_burn_rcs),
        f_le(fl(0), rules.heading_torque_max),
    ensures
        f_le(fl(0), burnt(r, rules, input, m, bearing)),
        f_le(burnt(r, rules, input, m, bearing), r.fuel),
{
    let t = throttle(r, input);
    let q = torque(r, rules, input, m, bearing);
    let dt = fl(PHYSICS_DT);
    assert(no_loss(dt));
    let first = f_mul(f_mul(rules.fuel_burn_main, t), dt);
    let main = if f_lt(fl(0), t) {
        f_sub(r.fuel, first)
    } else {
        r.fuel
    };
    if f_lt(fl(0), t) {
        lemma_mul_no_loss(rules.fuel_burn_main, t);
        lemma_mul_no_loss(f_mul(rules.fuel_burn_main, t), dt);
        lemma_sub_down(r.fuel, first, r.fuel);
    }
    lemma_mul_no_loss(rules.fuel_burn_rcs, dt);
    lemma_sub_down(main, f_mul(rules.fuel_burn_rcs, dt), r.fuel);
    let share = f_div(f_abs(q), rules.heading_torque_max);
    if rules.heading_torque_max.mag() == 0 {
        lemma_no_torque(r, rules, input, m, bearing);
        assert(q.nan() ==> share.nan()) by {
            reveal(f_div);
        }
    } else {
        lemma_div_no_loss(f_abs(q), rules.heading_torque_max);
    }
    if !f_eq(q, fl(0)) {
        lemma_mul_no_loss(rules.fuel_burn_rcs, share);
        lemma_mul_no_loss(f_mul(rules.fuel_burn_rcs, share), dt);
        lemma_sub_down(main, f_mul(f_mul(rules.fuel_burn_rcs, share), dt), r.fuel);
    }
}

/// `x` lies between 0 and `cap`.
pub open spec fn held_by(x: F32, cap: F32) -> bool {
    f_le(fl(0), x) && f_le(x, cap)
}

/// A ruleset that takes for burning, gives for landing, and has steering to
/// give.
pub open spec fn sound(level: LevelView, rules: SimParams) -> bool {
    &&& f_le(fl(0), rules.fuel_burn_main)
    &&& f_le(fl(0), rules.fuel_burn_rcs)
    &&& f_le(fl(0), rules.heading_torque_max)
    &&& f_le(fl(0), own_or(level.refuel_per_s, rules.pad_refuel_per_s))
    &&& f_le(fl(0), rules.hull_repair_per_s)
}

/// A velocity jump `dv` between the two impact limits leaves a number of
/// `hull`. It does not where the jump over the soft limit and the distance of
/// the two limits are both infinite, nor where an endless hull takes endless
/// damage.
pub open spec fn measured(level: LevelView, rules: SimParams, hull: F32, dv: F32) -> bool {
    f_lt(rules.crash_dv_soft, dv) && !f_lt(rules.crash_dv_hard, dv) ==> !f_sub(
        hull,
        damage(level, rules, dv),
    ).nan()
}

/// Under a finite soft limit and a finite cap every impact is measured, as long
/// as the distance of the limits is finite, or else the jump over the soft one.
pub proof fn impacts_are_measured(level: LevelView, rules: SimParams, hull: F32, dv: F32)
    requires
        rules.crash_dv_soft.finite(),
        !rules.crash_dv_hard.nan(),
        hull_cap(level, rules).finite(),
        held_by(hull, hull_cap(level, rules)),
        f_sub(rules.crash_dv_hard, rules.crash_dv_soft).finite() || f_sub(
            dv,
            rules.crash_dv_soft,
        ).finite(),
    ensures
        measured(level, rules, hull, dv),
{
    let (soft, hard) = (rules.crash_dv_soft, rules.crash_dv_hard);
    if f_lt(soft, dv) && !f_lt(hard, dv) {
        let (num, den) = (f_sub(dv, soft), f_sub(hard, soft));
        lemma_ahead(dv, soft);
        lemma_ahead(hard, soft);
        let ratio = f_div(num, den);
        if den.finite() {
            reveal(f_add);
            assert(hard.finite() && dv.finite());
            order_is_by_value(soft, dv);
            order_is_by_value(dv, hard);
            assert(f_neg(soft).val() == -soft.val());
            lemma_pack_mono((dv.val() - soft.val()) as nat, (hard.val() - soft.val()) as nat, 1);
            assert(num.mag() <= den.mag());
        }
        assert(ratio.finite()) by {
            reveal(f_div);
            lemma_one();
            lemma_units_zero();
            if den.finite() {
                if num.mag() < den.mag() {
                    lemma_units_mono(num.mag(), den.mag());
                }
                lemma_units_mono(0, den.mag());
                let (a, b, u) = (units(num.mag()), units(den.mag()), pow2(149));
                assert(a * u <= u * b) by (nonlinear_arith)
                    requires
                        a <= b,
                ;
                lemma_pack_le(a * u, b, ONE as nat);
            }
        }
        assert(!f_mul(ratio, hull_cap(level, rules)).nan()) by {
            reveal(f_mul);
        }
        assert(!f_sub(hull, damage(level, rules, dv)).nan()) by {
            reveal(f_add);
        }
    }
}

/// The difference of a greater and a lesser number.
proof fn lemma_ahead(a: F32, b: F32)
    requires
        f_lt(b, a),
    ensures
        !f_sub(a, b).nan(),
        !f_sub(a, b).neg(),
        f_sub(a, b).mag() > 0,
{
    reveal(f_add);
    lemma_units_zero();
    if a.finite() && b.finite() {
        order_is_by_value(b, a);
        let s = a.val() + f_neg(b).val();
        assert(f_neg(b).val() == -b.val());
        assert(s >= 1);
        assert(units(1) == 1) by {
            lemma_units_at(0, 1);
            lemma2_to64();
        }
        assert(units(1) * 1 == 1);
        lemma_pack_ge(s as nat, 1, 1);
    }
}

/// An impact takes hull, never more than there is.
proof fn lemma_hit(r: RunView, level: LevelView, rules: SimParams, m: Motion)
    requires
        !r.crashed ==> measured(level, rules, r.hull, jump(r, m)),
        held_by(r.hull, hull_cap(level, rules)),
    ensures
        held_by(flown(r, level, rules, m).hull, hull_cap(level, rules)),
        f_le(flown(r, level, rules, m).hull, r.hull),
{
    match impact(r, level, rules, m) {
        Some(i) => {
            if !i.destroyed {
                let (soft, hard) = (rules.crash_dv_soft, rules.crash_dv_hard);
                let (num, den) = (f_sub(i.dv, soft), f_sub(hard, soft));
                let ratio = f_div(num, den);
                if hard.nan() {
                    reveal(f_add);
                    reveal(f_div);
                } else {
                    lemma_ahead(i.dv, soft);
                    lemma_ahead(hard, soft);
                    lemma_div_no_loss(num, den);
                }
                lemma_mul_no_loss(ratio, hull_cap(level, rules));
                assert(f_mul(ratio, hull_cap(level, rules)) == i.damage);
                lemma_sub_down(r.hull, i.damage, r.hull);
            }
        },
        None => {},
    }
}

/// A fill never leads over the cap, nor down.
proof fn lemma_fill(x: F32, gain: F32, cap: F32)
    requires
        held_by(x, cap),
        no_loss(gain),
    ensures
        held_by(f_min(f_add(x, gain), cap), cap),
        f_le(x, f_min(f_add(x, gain), cap)),
{
    if gain.finite() {
        if gain.neg() {
            reveal(f_add);
            lemma_units_zero();
            assert(gain.mag() == 0);
            assert(gain.val() == 0);
            if !x.neg() && 0 < x.mag() && x.finite() {
                lemma_units_mono(0, x.mag());
                lemma_pack_units(x.mag());
            }
        } else {
            lemma_add_up(x, gain);
        }
    } else {
        reveal(f_add);
    }
}

/// Over a whole tick whose impact, if there is one, is measured, fuel and hull
/// stay between 0 and their caps, and neither rises unless a landing is
/// reported.
pub proof fn gauges_keep_their_bounds(r: RunView, level: LevelView, rules: SimParams, input: InputState, m: Motion, bearing: F32, pads: Seq<Loaded<Pad>>, after: Motion, q: F32)
    requires
        sound(level, rules),
        held_by(r.fuel, fuel_cap(level, rules)),
        held_by(r.hull, hull_cap(level, rules)),
        !r.crashed ==> measured(level, rules, r.hull, jump(r, after)),
    ensures
        ({
            let e = tick(r, level, rules, input, m, bearing, pads, after);
            let told = report(begun(r, rules, input, m, bearing), level, rules, pads, after, q);
            &&& held_by(e.fuel, fuel_cap(level, rules))
            &&& held_by(e.hull, hull_cap(level, rules))
            &&& !told.landed ==> f_le(e.fuel, r.fuel) && f_le(e.hull, r.hull)
        }),
{
    let b = begun(r, rules, input, m, bearing);
    lemma_burn(r, rules, input, m, bearing);
    lemma_hit(b, level, rules, after);
    let f = flown(b, level, rules, after);
    let dt = fl(PHYSICS_DT);
    lemma_mul_no_loss(own_or(level.refuel_per_s, rules.pad_refuel_per_s), dt);
    lemma_mul_no_loss(rules.hull_repair_per_s, dt);
    lemma_fill(f.fuel, f_mul(own_or(level.refuel_per_s, rules.pad_refuel_per_s), dt), fuel_cap(level, rules));
    lemma_fill(f.hull, f_mul(rules.hull_repair_per_s, dt), hull_cap(level, rules));
}

/// The rulesets of the registry are sound, and measure every impact on a hull
/// with a finite cap.
pub proof fn registered_rules_are_sound(level: LevelView, n: int, hull: F32, dv: F32)
    requires
        0 <= n < registry().len(),
        hull_cap(level, registry()[n]).finite(),
        held_by(hull, hull_cap(level, registry()[n])),
    ensures
        sound(level, registry()[n]),
        measured(level, registry()[n], hull, dv),
{
    let rules = registry()[n];
    assert(f_sub(rules.crash_dv_hard, rules.crash_dv_soft).finite()) by {
        let (soft, hard) = (rules.crash_dv_soft, rules.crash_dv_hard);
        order_is_by_value(soft, hard);
        order_is_by_value(fl(0), soft);
        lemma_units_zero();
        assert(f_neg(soft).val() == -soft.val());
        lemma_add_between(hard, f_neg(soft), fl(0), hard);
    }
    impacts_are_measured(level, rules, hull, dv);
}

/// Dead controls never cost fuel: once the run is over or the tank is dry, a
/// tick leaves at least what there was.
pub proof fn dead_controls_cost_nothing(r: RunView, level: LevelView, rules: SimParams, input: InputState, m: Motion, bearing: F32, pads: Seq<Loaded<Pad>>, after: Motion)
    requires
        !live(r) || !f_lt(fl(0), r.fuel),
        held_by(r.fuel, fuel_cap(level, rules)),
        f_le(fl(0), own_or(level.refuel_per_s, rules.pad_refuel_per_s)),
    ensures
        f_le(r.fuel, tick(r, level, rules, input, m, bearing, pads, after).fuel),
{
    let b = begun(r, rules, input, m, bearing);
    let dt = fl(PHYSICS_DT);
    lemma_mul_no_loss(own_or(level.refuel_per_s, rules.pad_refuel_per_s), dt);
    lemma_fill(b.fuel, f_mul(own_or(level.refuel_per_s, rules.pad_refuel_per_s), dt), fuel_cap(level, rules));
}

} // verus!
