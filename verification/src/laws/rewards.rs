//! Laws of what a landing takes and gives, second by second.
//!
//! A tick is a 120th of a second, so rates are compared with 120 times what one
//! tick changes.

use crate::binary32::arith::{f_abs, f_add, f_mul};
use crate::binary32::facts::{lemma_units_at, lemma_units_zero, order_is_by_value};
use crate::binary32::{fl, F32};
use crate::laws::errors::{lemma_huge, lemma_product, lemma_sum, one, size};
use crate::laws::impacts::lemma_scaled;
use crate::level::LevelView;
use crate::pad::{GOAL_SLOT_NEG, GOAL_SLOT_POS};
use crate::parse::PHYSICS_DT;
use crate::rules::SimParams;
use crate::run::{
    ended, flown, fuel_cap, gravity, hull_cap, pad_under, report, spawn_fuel, visit_mask, Motion,
    RunView,
};
use crate::scenery::Pad;
use crate::slots::{Key, Loaded};
use vstd::arithmetic::power2::{
    lemma2_to64, lemma2_to64_rest, lemma_pow2_adds, lemma_pow2_pos, pow2,
};
use vstd::prelude::*;

verus! {

/// A number from 0 to 1000.
pub open spec fn small(x: F32) -> bool {
    x.finite() && 0 <= x.val() <= 1000 * one()
}

pub(crate) proof fn lemma_dt()
    ensures
        fl(PHYSICS_DT).finite(),
        0 < fl(PHYSICS_DT).val() < one(),
        size(120 * fl(PHYSICS_DT).val() - one()) * 0x100_0000 <= one(),
{
    lemma_units_at(119, 0x88_8889);
    lemma2_to64();
    lemma2_to64_rest();
    lemma_pow2_adds(119, 30);
    lemma_pow2_adds(15, 15);
    lemma_pow2_pos(119);
    assert(PHYSICS_DT as nat == 119 * 0x80_0000 + 0x88_8889);
    let (t, p) = (fl(PHYSICS_DT).val(), pow2(119) as int);
    assert(t == 0x88_8889 * p);
    assert(one() == 0x4000_0000 * p) by (nonlinear_arith)
        requires
            one() == p * pow2(30),
            pow2(30) == 0x4000_0000,
    ;
}

/// What a rate per second comes to in one tick.
pub(crate) proof fn lemma_per_tick(rate: F32)
    requires
        small(rate),
    ensures
        f_mul(rate, fl(PHYSICS_DT)).finite(),
        f_mul(rate, fl(PHYSICS_DT)).val() >= 0,
        size(120 * f_mul(rate, fl(PHYSICS_DT)).val() - rate.val()) * 0x1000 <= one(),
{
    lemma_huge();
    lemma_dt();
    let (u, a, b) = (one(), rate.val(), fl(PHYSICS_DT).val());
    assert(0 <= a * b <= 1000 * (u * u)) by (nonlinear_arith)
        requires
            0 <= a <= 1000 * u,
            0 < b < u,
    ;
    assert(u * u >= 0x1000_0000_0000 * u) by (nonlinear_arith)
        requires
            u >= 0x1000_0000_0000,
    ;
    lemma_product(rate, fl(PHYSICS_DT));
    let p = f_mul(rate, fl(PHYSICS_DT)).val();
    assert(p >= 0) by {
        if p < 0 {
            assert(p * u <= -u) by (nonlinear_arith)
                requires
                    p <= -1,
                    u > 0,
            ;
        }
    }
    lemma_scaled(120 * b, u, 0x100_0000, u, a);
    assert((120 * b) * a == 120 * (a * b) && u * a == a * u) by (nonlinear_arith);
    assert(u * a <= 1000 * (u * u)) by (nonlinear_arith)
        requires
            a <= 1000 * u,
            u > 0,
    ;
    let d = 120 * p - a;
    assert(d * u == 120 * (p * u) - a * u) by (nonlinear_arith)
        requires
            d == 120 * p - a,
    ;
    assert(size(d) * 0x1000 <= u) by (nonlinear_arith)
        requires
            -(u * u) <= (d * u) * 0x1000 <= u * u,
            u > 0,
    {
        let e = d * 0x1000;
        assert(e * u == (d * u) * 0x1000) by (nonlinear_arith)
            requires
                e == d * 0x1000,
        ;
        assert(-u <= e <= u) by (nonlinear_arith)
            requires
                -(u * u) <= e * u <= u * u,
                u > 0,
        ;
    }
}

/// Over one tick `before` grew to `after` at `rate` per second, within a
/// hundredth.
pub open spec fn grew_by(before: F32, after: F32, rate: int) -> bool {
    after.finite() && 100 * size(120 * (after.val() - before.val()) - rate) <= one()
}

/// Over one tick `before` grew to `after` at `rate` per second, but not beyond
/// `cap`.
pub open spec fn filled_by(before: F32, after: F32, rate: int, cap: F32) -> bool {
    &&& after.finite() && after.val() <= cap.val()
    &&& after.val() < cap.val() ==> grew_by(before, after, rate)
    &&& 100 * (120 * (after.val() - before.val()) - rate) <= one()
}

proof fn lemma_grows(x: F32, rate: F32)
    requires
        small(x),
        small(rate),
    ensures
        grew_by(x, f_add(x, f_mul(rate, fl(PHYSICS_DT))), rate.val()),
{
    lemma_huge();
    lemma_per_tick(rate);
    lemma_sum(x, f_mul(rate, fl(PHYSICS_DT)));
}

proof fn lemma_counts(x: F32)
    requires
        small(x),
    ensures
        grew_by(x, f_add(x, fl(PHYSICS_DT)), one()),
{
    lemma_huge();
    lemma_dt();
    lemma_sum(x, fl(PHYSICS_DT));
}

/// What a level sets for itself counts, where it is a number above 0; what it
/// does not is the ruleset's.
pub open spec fn chosen(own: F32, rule: F32) -> F32 {
    if own.finite() && own.val() > 0 {
        own
    } else {
        rule
    }
}

/// Tank, hull and gravity are the level's own, where it has any, and else the
/// ruleset's. A run starts with a full tank, or with what the level says, if
/// that is less.
pub proof fn levels_have_their_say(level: LevelView, rules: SimParams)
    requires
        level.fuel_max.finite(),
        level.hull_max.finite(),
        level.gravity_y.finite(),
        level.start_fuel.finite(),
        fuel_cap(level, rules).finite(),
    ensures
        fuel_cap(level, rules) == chosen(level.fuel_max, rules.fuel_max),
        hull_cap(level, rules) == chosen(level.hull_max, rules.hull_max),
        gravity(level, rules) == if level.gravity_y.val() == 0 {
            rules.gravity_y
        } else {
            level.gravity_y
        },
        ({
            let cap = fuel_cap(level, rules).val();
            let start = level.start_fuel.val();
            spawn_fuel(level, rules).val() == if 0 < start < cap {
                start
            } else {
                cap
            }
        }),
{
    lemma_units_zero();
    order_is_by_value(fl(0), level.fuel_max);
    order_is_by_value(fl(0), level.hull_max);
    order_is_by_value(fl(0), level.start_fuel);
    order_is_by_value(fl(0), level.gravity_y);
    order_is_by_value(level.gravity_y, fl(0));
    order_is_by_value(fuel_cap(level, rules), level.start_fuel);
}

/// The gauges and clocks of a run on a tick, from 0 to 1000.
pub open spec fn gauged(r: RunView, level: LevelView, rules: SimParams) -> bool {
    &&& small(r.fuel) && small(r.hull) && small(r.land_timer) && small(r.fuel_out_timer)
    &&& small(fuel_cap(level, rules)) && small(hull_cap(level, rules))
    &&& small(chosen(level.refuel_per_s, rules.pad_refuel_per_s)) && level.refuel_per_s.finite()
    &&& small(rules.hull_repair_per_s)
    &&& small(rules.pad_land_time) && small(rules.fuel_out_end_secs)
}

/// A whole ship that stands on a pad settles, second by second, and has landed
/// once it has settled for the ruleset's landing time; one that stands on none
/// starts anew.
pub proof fn settling_takes_its_time(r: RunView, level: LevelView, rules: SimParams, pads: Seq<Loaded<Pad>>, m: Motion, q: F32)
    requires
        gauged(r, level, rules),
        !ended(r, level, rules, pads, m).crashed,
    ensures
        ({
            let told = report(r, level, rules, pads, m, q);
            let e = ended(r, level, rules, pads, m);
            match pad_under(pads, rules, m) {
                Some(key) => {
                    &&& grew_by(r.land_timer, e.land_timer, one())
                    &&& told.landed == (e.land_timer.val() >= rules.pad_land_time.val())
                },
                None => e.land_timer == fl(0) && !told.landed,
            }
        }),
{
    lemma_counts(r.land_timer);
    order_is_by_value(rules.pad_land_time, f_add(r.land_timer, fl(PHYSICS_DT)));
}

/// A landing visits its pad, refuels and mends, second by second and no further
/// than tank and hull go, and on a level that is scored by pads a first visit
/// brings 100 points. Without a landing nothing is visited, refuelled or scored.
pub proof fn landings_pay(r: RunView, level: LevelView, rules: SimParams, pads: Seq<Loaded<Pad>>, m: Motion, q: F32)
    requires
        gauged(r, level, rules),
        small(flown(r, level, rules, m).hull),
    ensures
        ({
            let told = report(r, level, rules, pads, m, q);
            let e = ended(r, level, rules, pads, m);
            if told.landed {
                let key = pad_under(pads, rules, m)->0;
                let first = !r.visited.contains(key);
                &&& pad_under(pads, rules, m) is Some
                &&& e.visited == r.visited.insert(key)
                &&& e.score == r.score + if first && level.scoring is Pads {
                    100int
                } else {
                    0
                }
                &&& filled_by(
                    r.fuel,
                    e.fuel,
                    chosen(level.refuel_per_s, rules.pad_refuel_per_s).val(),
                    fuel_cap(level, rules),
                )
                &&& told.impact is None ==> filled_by(
                    r.hull,
                    e.hull,
                    rules.hull_repair_per_s.val(),
                    hull_cap(level, rules),
                )
                &&& told.scored ==> first
                &&& level.scoring is Pads ==> told.scored == first
                &&& level.scoring is Distance ==> !told.scored
            } else {
                &&& e.visited == r.visited
                &&& e.score == r.score
                &&& e.fuel == r.fuel
                &&& !told.scored
            }
        }),
{
    lemma_units_zero();
    let f = flown(r, level, rules, m);
    let (rate, cap) = (chosen(level.refuel_per_s, rules.pad_refuel_per_s), fuel_cap(level, rules));
    order_is_by_value(fl(0), level.refuel_per_s);
    lemma_grows(r.fuel, rate);
    order_is_by_value(cap, f_add(r.fuel, f_mul(rate, fl(PHYSICS_DT))));
    let (mend, hull) = (rules.hull_repair_per_s, hull_cap(level, rules));
    lemma_grows(f.hull, mend);
    order_is_by_value(hull, f_add(f.hull, f_mul(mend, fl(PHYSICS_DT))));
}

/// On a level that is flown against the clock, a first landing completes the
/// run at a finish, if the level has a goal, and else once every pad of a
/// hand-drawn world is visited; on other levels only the time limit does. The
/// time limit completes a run that nothing has ended yet, on the tick that
/// reaches it.
pub proof fn runs_end_like_this(r: RunView, level: LevelView, rules: SimParams, pads: Seq<Loaded<Pad>>, m: Motion, q: F32)
    requires
        !r.completed,
        !r.crashed,
        level.goal_distance.finite(),
    ensures
        ({
            let told = report(r, level, rules, pads, m, q);
            let e = ended(r, level, rules, pads, m);
            let key = pad_under(pads, rules, m)->0;
            let goal = if level.goal_distance.val() > 0 {
                key.0 == GOAL_SLOT_POS || key.0 == GOAL_SLOT_NEG
            } else {
                match level.terrain {
                    Some(t) => t.pads.len() > 0 && e.visited.len() == t.pads.len(),
                    None => false,
                }
            };
            let reached = told.landed && level.scoring is Time && !r.visited.contains(key) && goal;
            let late = level.time_limit_ticks > 0 && r.run_ticks >= level.time_limit_ticks;
            &&& e.completed == (!e.crashed && (reached || late))
            &&& told.completed == e.completed
        }),
{
    lemma_units_zero();
    order_is_by_value(fl(0), level.goal_distance);
}

/// A whole ship whose tank is empty at the end of a tick counts the time, and
/// the run is told to be over once it has counted the ruleset's; fuel in the
/// tank starts the count anew.
pub proof fn dry_tanks_count(r: RunView, level: LevelView, rules: SimParams, pads: Seq<Loaded<Pad>>, m: Motion, q: F32)
    requires
        gauged(r, level, rules),
        !ended(r, level, rules, pads, m).crashed,
        ended(r, level, rules, pads, m).fuel.finite(),
    ensures
        ({
            let told = report(r, level, rules, pads, m, q);
            let e = ended(r, level, rules, pads, m);
            &&& e.fuel.val() <= 0 ==> grew_by(r.fuel_out_timer, e.fuel_out_timer, one())
            &&& e.fuel.val() > 0 ==> e.fuel_out_timer == fl(0)
            &&& told.fuel_out == (e.fuel_out_timer.val() >= rules.fuel_out_end_secs.val())
        }),
{
    lemma_units_zero();
    lemma_counts(r.fuel_out_timer);
    let e = ended(r, level, rules, pads, m);
    order_is_by_value(e.fuel, fl(0));
    order_is_by_value(rules.fuel_out_end_secs, e.fuel_out_timer);
}

/// The distance of a run is how far from the start it has ever been, to either
/// side, while it was under way.
pub proof fn distances_are_the_farthest(r: RunView, level: LevelView, rules: SimParams, pads: Seq<Loaded<Pad>>, m: Motion)
    requires
        r.max_dist.finite(),
        m.x.finite(),
    ensures
        ({
            let e = ended(r, level, rules, pads, m).max_dist;
            if r.crashed || r.completed {
                e == r.max_dist
            } else {
                &&& e.finite() && e.val() >= r.max_dist.val() && e.val() >= size(m.x.val())
                &&& e.val() == r.max_dist.val() || e.val() == size(m.x.val())
            }
        }),
{
    let a = f_abs(m.x);
    assert(a.finite() && a.val() == size(m.x.val()));
    order_is_by_value(r.max_dist, a);
}

/// The velocity at the end of a tick is what the next one measures a jump from;
/// a run that its time limit ends there comes to rest.
pub proof fn velocities_are_remembered(r: RunView, level: LevelView, rules: SimParams, pads: Seq<Loaded<Pad>>, m: Motion, q: F32)
    ensures
        ({
            let e = ended(r, level, rules, pads, m);
            let late = level.time_limit_ticks > 0 && r.run_ticks >= level.time_limit_ticks;
            &&& !late ==> e.prev_vx == m.vx && e.prev_vy == m.vy
            &&& e.crashed || r.completed ==> e.prev_vx == m.vx && e.prev_vy == m.vy
            &&& (e.prev_vx == m.vx && e.prev_vy == m.vy) || (e.prev_vx.bits == 0 && e.prev_vy.bits == 0)
            &&& report(r, level, rules, pads, m, q).heading_torque == q
        }),
{
}

/// On a level that is flown against the clock, the pilot is told of a first
/// landing on any pad; where there is a goal, of one at a finish only.
pub proof fn pilots_are_told(r: RunView, level: LevelView, rules: SimParams, pads: Seq<Loaded<Pad>>, m: Motion, q: F32)
    requires
        level.scoring is Time,
        level.goal_distance.finite(),
        report(r, level, rules, pads, m, q).landed,
    ensures
        ({
            let key = pad_under(pads, rules, m)->0;
            let finish = key.0 == 0x7fff_ffff_ffff_ffff || key.0 == 0x7fff_ffff_ffff_fffe;
            report(r, level, rules, pads, m, q).scored == (!r.visited.contains(key) && (
            level.goal_distance.val() > 0 ==> finish))
        }),
{
    lemma_units_zero();
    order_is_by_value(fl(0), level.goal_distance);
}

/// The first bit of a goal level's mask is the finish to the right, the second
/// the one to the left; there is no other. Without a goal, and without pads
/// that are drawn, the mask is empty.
pub proof fn finishes_have_their_bits(level: LevelView, visited: Set<Key>)
    requires
        level.terrain is None,
        level.goal_distance.finite(),
    ensures
        ({
            let mask = visit_mask(level, visited);
            if level.goal_distance.val() > 0 {
                &&& mask % 2 == 1 <==> exists|k: Key| #[trigger]
                    visited.contains(k) && k.0 == 0x7fff_ffff_ffff_ffff
                &&& mask / 2 == 1 <==> exists|k: Key| #[trigger]
                    visited.contains(k) && k.0 == 0x7fff_ffff_ffff_fffe
                &&& mask < 4
            } else {
                mask == 0
            }
        }),
{
    lemma_units_zero();
    order_is_by_value(fl(0), level.goal_distance);
    assert(1u64 | 2u64 == 3 && 1u64 | 0u64 == 1 && 0u64 | 2u64 == 2 && 0u64 | 0u64 == 0) by (bit_vector);
}

} // verus!
