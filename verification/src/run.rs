//! The rules of a run: what the controls do, what the ship suffers, what a
//! landing earns, and when the run is over.
//!
//! Everything here is a function of the run's state, the controls and the
//! ship's motion as the engine reports it.

use crate::binary32::arith::{f_abs, f_add, f_div, f_mul, f_neg, f_sqrt, f_sub};
use crate::binary32::convert::f_of_int;
use crate::binary32::order::{f_clamp, f_eq, f_le, f_lt, f_max, f_min};
use crate::binary32::{fl, F32};
use crate::cave::{Wave, ONE, TAU};
use crate::level::{LevelView, Scoring, Vec2};
use crate::pad::{GOAL_SLOT_NEG, GOAL_SLOT_POS, PAD_HALF_W, PAD_POINTS};
use crate::parse::PHYSICS_DT;
use crate::replay::{InputState, Keyframe};
use crate::rules::SimParams;
use crate::scenery::Pad;
use crate::slots::{Key, Loaded};
use vstd::prelude::*;

verus! {

/// Half a turn, in radians.
pub const PI: u32 = 0x4049_0fdb;

/// `0.3` and `-0.71`: where a side booster pushes, from the ship's centre.
pub const NOZZLE_X: u32 = 0x3e99_999a;

pub const NOZZLE_Y: u32 = 0xbf35_c28f;

/// `0.33` and `-0.73`: where a foot stands, from the ship's centre.
pub const FOOT_X: u32 = 0x3ea8_f5c3;

pub const FOOT_Y: u32 = 0xbf3a_e148;

/// `0.1`: how far from the deck a foot still touches it.
pub const FOOT_TOUCH_M: u32 = 0x3dcc_cccd;

/// `0.73`: how far the feet are below the ship's centre when it is upright.
pub const FOOT_LINE: u32 = 0x3f3a_e148;

/// `0.3`: how far from the deck the foot line may be under the first ruleset.
pub const LINE_TOUCH: u32 = 0x3e99_999a;

/// `0.3`: how far a ship may lean under the first ruleset, in radians.
pub const LEAN_MAX: u32 = 0x3e99_999a;

/// `0.5`: the spin below which a ship counts as settled.
pub const SETTLE_SPIN: u32 = 0x3f00_0000;

/// Where the ship is and how it moves. The heading is given twice: as a unit
/// complex number, and as its angle.
#[derive(Clone, Copy, PartialEq, Eq, Debug, Structural)]
pub struct Motion {
    pub x: F32,
    pub y: F32,
    pub rot_re: F32,
    pub rot_im: F32,
    pub angle: F32,
    pub vx: F32,
    pub vy: F32,
    pub angvel: F32,
}

/// A force at a point.
#[derive(Clone, Copy, PartialEq, Eq, Debug, Structural)]
pub struct Push {
    pub force: Vec2,
    pub at: Vec2,
}

/// What acts on the ship for one tick, in place of whatever acted before.
#[derive(Clone, Copy, PartialEq, Eq, Debug, Structural)]
pub struct Command {
    /// The main engine, pushing at the centre.
    pub thrust: Option<Vec2>,
    /// A side booster.
    pub booster: Option<Push>,
    /// The torque of steering.
    pub torque: Option<F32>,
}

/// What an impact did, with the ship's motion at that moment.
#[derive(Clone, Copy, PartialEq, Eq, Debug, Structural)]
pub struct Impact {
    pub dv: F32,
    pub damage: F32,
    pub destroyed: bool,
    pub x: F32,
    pub y: F32,
    pub vx: F32,
    pub vy: F32,
    pub rot_re: F32,
    pub rot_im: F32,
    pub angvel: F32,
}

/// What one tick did.
#[derive(Clone, Copy, PartialEq, Eq, Debug, Structural)]
pub struct TickReport {
    pub impact: Option<Impact>,
    /// Settled on a pad for long enough.
    pub landed: bool,
    /// A first visit registered.
    pub scored: bool,
    /// The torque of steering.
    pub heading_torque: F32,
    /// The tank has been empty for too long: the run is over.
    pub fuel_out: bool,
    /// The run was completed on this tick.
    pub completed: bool,
}

/// Whether the ship is to be stopped and held where it is.
#[derive(Clone, Copy, PartialEq, Eq, Debug, Structural)]
pub enum Park {
    /// It flies on.
    No,
    /// A wreck: velocities to zero, gravity off.
    Wreck,
    /// The clock ran out: as for a wreck, and no force acts any more.
    Finish,
}

/// The state of a run.
#[verifier::ext_equal]
pub struct RunView {
    pub fuel: F32,
    pub hull: F32,
    pub score: int,
    pub max_dist: F32,
    pub run_ticks: int,
    pub visited: Set<Key>,
    pub crashed: bool,
    pub completed: bool,
    pub land_timer: F32,
    pub fuel_out_timer: F32,
    pub prev_vx: F32,
    pub prev_vy: F32,
}

/// A level's own number where it sets one, else the ruleset's.
pub open spec fn own_or(own: F32, rule: F32) -> F32 {
    if f_lt(fl(0), own) {
        own
    } else {
        rule
    }
}

pub open spec fn fuel_cap(level: LevelView, rules: SimParams) -> F32 {
    own_or(level.fuel_max, rules.fuel_max)
}

pub open spec fn hull_cap(level: LevelView, rules: SimParams) -> F32 {
    own_or(level.hull_max, rules.hull_max)
}

/// What the tank holds at a spawn.
pub open spec fn spawn_fuel(level: LevelView, rules: SimParams) -> F32 {
    if f_lt(fl(0), level.start_fuel) {
        f_min(level.start_fuel, fuel_cap(level, rules))
    } else {
        fuel_cap(level, rules)
    }
}

/// The gravity of a level: its own unless that is 0.
pub open spec fn gravity(level: LevelView, rules: SimParams) -> F32 {
    if f_eq(level.gravity_y, fl(0)) {
        rules.gravity_y
    } else {
        level.gravity_y
    }
}

/// Neither crashed nor completed.
pub open spec fn live(r: RunView) -> bool {
    !r.crashed && !r.completed
}

// ---- Controls ----

/// The throttle that an empty tank leaves.
pub open spec fn throttle(r: RunView, input: InputState) -> F32 {
    if f_lt(fl(0), r.fuel) {
        input.throttle
    } else {
        fl(0)
    }
}

/// The side booster that an empty tank leaves.
pub open spec fn rotation(r: RunView, input: InputState) -> int {
    if f_lt(fl(0), r.fuel) {
        input.rot as int
    } else {
        0
    }
}

/// How far the stick is moved, 1 at most.
pub open spec fn deflection(input: InputState) -> F32 {
    f_min(
        f_sqrt(f_add(f_mul(input.steer_x, input.steer_x), f_mul(input.steer_y, input.steer_y))),
        fl(ONE),
    )
}

/// Whether the stick steers: there is fuel, it is moved, and no side booster
/// is held.
pub open spec fn steering(r: RunView, input: InputState) -> bool {
    f_lt(fl(0), r.fuel) && f_lt(fl(0), deflection(input)) && rotation(r, input) == 0
}

/// An angle that is less than a full turn past half a turn, the short way
/// around.
pub open spec fn short_way(err: F32) -> F32 {
    let once = if f_lt(fl(PI), err) {
        f_sub(err, fl(TAU))
    } else {
        err
    };
    if f_lt(once, f_neg(fl(PI))) {
        f_add(once, fl(TAU))
    } else {
        once
    }
}

/// The torque towards the heading `bearing`.
pub open spec fn heading_torque(rules: SimParams, input: InputState, m: Motion, bearing: F32) -> F32 {
    f_mul(
        f_clamp(
            f_sub(
                f_mul(short_way(f_sub(bearing, m.angle)), rules.heading_kp),
                f_mul(m.angvel, rules.heading_kd),
            ),
            f_neg(rules.heading_torque_max),
            rules.heading_torque_max,
        ),
        deflection(input),
    )
}

/// The steering torque of a tick: none unless the stick steers.
pub open spec fn torque(r: RunView, rules: SimParams, input: InputState, m: Motion, bearing: F32) -> F32 {
    if steering(r, input) {
        heading_torque(rules, input, m, bearing)
    } else {
        fl(0)
    }
}

/// The main engine's force.
pub open spec fn thrust(w: spec_fn(Wave, F32) -> F32, force: F32, throttle: F32, m: Motion) -> Option<Vec2> {
    if f_lt(fl(0), throttle) {
        let f = f_mul(force, throttle);
        Some(
            Vec2 {
                x: f_mul(f_neg(w(Wave::Sin, m.angle)), f),
                y: f_mul(w(Wave::Cos, m.angle), f),
            },
        )
    } else {
        None
    }
}

pub open spec fn sign(i: int) -> int {
    if i > 0 {
        1
    } else if i < 0 {
        -1
    } else {
        0
    }
}

/// A side booster's push at its nozzle.
pub open spec fn booster(w: spec_fn(Wave, F32) -> F32, force: F32, rot: int, m: Motion) -> Option<Push> {
    if rot == 0 {
        None
    } else {
        let lx = f_mul(fl(NOZZLE_X), f_of_int(sign(rot)));
        let ly = fl(NOZZLE_Y);
        let (s, c) = (w(Wave::Sin, m.angle), w(Wave::Cos, m.angle));
        Some(
            Push {
                force: Vec2 { x: f_mul(f_neg(force), s), y: f_mul(force, c) },
                at: Vec2 {
                    x: f_sub(f_add(m.x, f_mul(lx, c)), f_mul(ly, s)),
                    y: f_add(f_add(m.y, f_mul(lx, s)), f_mul(ly, c)),
                },
            },
        )
    }
}

/// What the controls of a live tick do to the ship.
pub open spec fn command(
    r: RunView,
    level: LevelView,
    rules: SimParams,
    w: spec_fn(Wave, F32) -> F32,
    input: InputState,
    m: Motion,
    bearing: F32,
) -> Command {
    Command {
        thrust: thrust(w, own_or(level.thrust_force, rules.thrust_force), throttle(r, input), m),
        booster: booster(w, rules.rcs_force, rotation(r, input), m),
        torque: if steering(r, input) {
            Some(heading_torque(rules, input, m, bearing))
        } else {
            None
        },
    }
}

/// What is left of the fuel after a tick's controls: never less than nothing.
pub open spec fn burnt(r: RunView, rules: SimParams, input: InputState, m: Motion, bearing: F32) -> F32 {
    let t = throttle(r, input);
    let q = torque(r, rules, input, m, bearing);
    let main = if f_lt(fl(0), t) {
        f_sub(r.fuel, f_mul(f_mul(rules.fuel_burn_main, t), fl(PHYSICS_DT)))
    } else {
        r.fuel
    };
    let side = if rotation(r, input) != 0 {
        f_sub(main, f_mul(rules.fuel_burn_rcs, fl(PHYSICS_DT)))
    } else if !f_eq(q, fl(0)) {
        f_sub(
            main,
            f_mul(
                f_mul(rules.fuel_burn_rcs, f_div(f_abs(q), rules.heading_torque_max)),
                fl(PHYSICS_DT),
            ),
        )
    } else {
        main
    };
    f_max(side, fl(0))
}

/// The run after the controls of a tick: the clock has advanced and fuel is
/// burnt, unless the run is over.
pub open spec fn begun(r: RunView, rules: SimParams, input: InputState, m: Motion, bearing: F32) -> RunView {
    if live(r) {
        RunView { run_ticks: r.run_ticks + 1, fuel: burnt(r, rules, input, m, bearing), ..r }
    } else {
        r
    }
}

// ---- Impacts ----

/// How much the velocity jumped over the tick.
pub open spec fn jump(r: RunView, m: Motion) -> F32 {
    let dx = f_sub(m.vx, r.prev_vx);
    let dy = f_sub(m.vy, r.prev_vy);
    f_sqrt(f_add(f_mul(dx, dx), f_mul(dy, dy)))
}

/// What a velocity jump `dv` costs the hull.
pub open spec fn damage(level: LevelView, rules: SimParams, dv: F32) -> F32 {
    f_mul(
        f_div(f_sub(dv, rules.crash_dv_soft), f_sub(rules.crash_dv_hard, rules.crash_dv_soft)),
        hull_cap(level, rules),
    )
}

/// The impact of a tick, if the velocity jumped enough.
pub open spec fn impact(r: RunView, level: LevelView, rules: SimParams, m: Motion) -> Option<Impact> {
    let dv = jump(r, m);
    if !r.crashed && f_lt(rules.crash_dv_soft, dv) {
        let d = damage(level, rules, dv);
        Some(
            Impact {
                dv,
                damage: d,
                destroyed: f_lt(rules.crash_dv_hard, dv) || f_le(f_sub(r.hull, d), fl(0)),
                x: m.x,
                y: m.y,
                vx: m.vx,
                vy: m.vy,
                rot_re: m.rot_re,
                rot_im: m.rot_im,
                angvel: m.angvel,
            },
        )
    } else {
        None
    }
}

/// The run after the flight of a tick: distance counted, damage taken.
pub open spec fn flown(r: RunView, level: LevelView, rules: SimParams, m: Motion) -> RunView {
    let max_dist = if live(r) {
        f_max(r.max_dist, f_abs(m.x))
    } else {
        r.max_dist
    };
    match impact(r, level, rules, m) {
        Some(i) => RunView {
            max_dist,
            hull: if i.destroyed {
                fl(0)
            } else {
                f_sub(r.hull, i.damage)
            },
            crashed: i.destroyed,
            ..r
        },
        None => RunView { max_dist, ..r },
    }
}

// ---- Landing ----

/// Slow enough to settle.
pub open spec fn settled(m: Motion) -> bool {
    f_lt(f_abs(m.vx), fl(ONE)) && f_lt(f_abs(m.vy), fl(ONE)) && f_lt(f_abs(m.angvel), fl(SETTLE_SPIN))
}

/// Where the foot at `lx` stands.
pub open spec fn foot(m: Motion, lx: F32) -> Vec2 {
    Vec2 {
        x: f_sub(f_add(m.x, f_mul(lx, m.rot_re)), f_mul(fl(FOOT_Y), m.rot_im)),
        y: f_add(f_add(m.y, f_mul(lx, m.rot_im)), f_mul(fl(FOOT_Y), m.rot_re)),
    }
}

/// The point is over the deck and within `touch` of it.
pub open spec fn on_deck(p: Vec2, pad: Pad, touch: F32) -> bool {
    f_le(f_abs(f_sub(p.x, pad.cx)), fl(PAD_HALF_W)) && f_lt(f_abs(f_sub(p.y, pad.y)), touch)
}

/// The ship stands on the pad: with both feet, or, under the first ruleset,
/// upright with its centre over the deck.
pub open spec fn stands_on(rules: SimParams, m: Motion, pad: Pad) -> bool {
    if f_le(fl(ONE), rules.land_rule) {
        on_deck(foot(m, f_neg(fl(FOOT_X))), pad, fl(FOOT_TOUCH_M)) && on_deck(
            foot(m, fl(FOOT_X)),
            pad,
            fl(FOOT_TOUCH_M),
        )
    } else {
        f_lt(f_abs(m.angle), fl(LEAN_MAX)) && on_deck(
            Vec2 { x: m.x, y: f_sub(m.y, fl(FOOT_LINE)) },
            pad,
            fl(LINE_TOUCH),
        )
    }
}

/// `i` is the first pad that the settled ship stands on.
pub open spec fn first_under(pads: Seq<Loaded<Pad>>, rules: SimParams, m: Motion, i: int) -> bool {
    &&& 0 <= i < pads.len()
    &&& settled(m)
    &&& stands_on(rules, m, pads[i].item)
    &&& forall|j: int| 0 <= j < i ==> !stands_on(rules, m, #[trigger] pads[j].item)
}

/// The pad that the settled ship stands on.
pub open spec fn pad_under(pads: Seq<Loaded<Pad>>, rules: SimParams, m: Motion) -> Option<Key> {
    if exists|i: int| first_under(pads, rules, m, i) {
        Some(pads[choose|i: int| first_under(pads, rules, m, i)].key)
    } else {
        None
    }
}

/// A landing on `key` is a first visit that completes the run.
pub open spec fn completes(level: LevelView, visited: Set<Key>, key: Key) -> bool {
    &&& level.scoring is Time
    &&& !visited.contains(key)
    &&& if f_lt(fl(0), level.goal_distance) {
        key.0 == GOAL_SLOT_POS || key.0 == GOAL_SLOT_NEG
    } else {
        match level.terrain {
            Some(t) => t.pads.len() > 0 && visited.insert(key).len() == t.pads.len(),
            None => false,
        }
    }
}

/// A landing on `key` is a first visit that the pilot is told of.
pub open spec fn flashes(level: LevelView, visited: Set<Key>, key: Key) -> bool {
    &&& !visited.contains(key)
    &&& match level.scoring {
        Scoring::Pads => true,
        Scoring::Time => f_lt(fl(0), level.goal_distance) ==> key.0 == GOAL_SLOT_POS || key.0
            == GOAL_SLOT_NEG,
        Scoring::Distance => false,
    }
}

/// The run after a landing on `key` that has held for long enough.
pub open spec fn landed(r: RunView, level: LevelView, rules: SimParams, key: Key) -> RunView {
    RunView {
        visited: r.visited.insert(key),
        score: if level.scoring is Pads && !r.visited.contains(key) {
            r.score + PAD_POINTS
        } else {
            r.score
        },
        completed: r.completed || completes(level, r.visited, key),
        fuel: f_min(
            f_add(
                r.fuel,
                f_mul(own_or(level.refuel_per_s, rules.pad_refuel_per_s), fl(PHYSICS_DT)),
            ),
            fuel_cap(level, rules),
        ),
        hull: f_min(
            f_add(r.hull, f_mul(rules.hull_repair_per_s, fl(PHYSICS_DT))),
            hull_cap(level, rules),
        ),
        ..r
    }
}

/// Whether the settling time is up after one more tick.
pub open spec fn held(r: RunView, rules: SimParams) -> bool {
    f_le(rules.pad_land_time, f_add(r.land_timer, fl(PHYSICS_DT)))
}

/// The run of a ship that is whole, after the landing rules of a tick.
pub open spec fn touched(r: RunView, level: LevelView, rules: SimParams, on: Option<Key>) -> RunView {
    match on {
        Some(key) => {
            let timed = RunView { land_timer: f_add(r.land_timer, fl(PHYSICS_DT)), ..r };
            if held(r, rules) {
                landed(timed, level, rules, key)
            } else {
                timed
            }
        },
        None => RunView { land_timer: fl(0), ..r },
    }
}

/// The clock of an empty tank.
pub open spec fn dried(r: RunView) -> RunView {
    RunView {
        fuel_out_timer: if f_le(r.fuel, fl(0)) {
            f_add(r.fuel_out_timer, fl(PHYSICS_DT))
        } else {
            fl(0)
        },
        ..r
    }
}

/// The run after landing and fuel rules; a wreck only loses its settling time.
pub open spec fn rested(r: RunView, level: LevelView, rules: SimParams, on: Option<Key>) -> RunView {
    if r.crashed {
        RunView { land_timer: fl(0), ..r }
    } else {
        dried(touched(r, level, rules, on))
    }
}

/// The clock of a live run has reached the level's limit.
pub open spec fn out_of_time(r: RunView, level: LevelView) -> bool {
    live(r) && level.time_limit_ticks > 0 && r.run_ticks >= level.time_limit_ticks
}

/// The run at the end of a tick: everything, and the time limit last.
pub open spec fn ended(r: RunView, level: LevelView, rules: SimParams, pads: Seq<Loaded<Pad>>, m: Motion) -> RunView {
    let f = flown(r, level, rules, m);
    let d = RunView {
        prev_vx: m.vx,
        prev_vy: m.vy,
        ..rested(f, level, rules, pad_under(pads, rules, m))
    };
    if out_of_time(d, level) {
        RunView { completed: true, prev_vx: fl(0), prev_vy: fl(0), ..d }
    } else {
        d
    }
}

/// What the end of a tick reports.
pub open spec fn report(
    r: RunView,
    level: LevelView,
    rules: SimParams,
    pads: Seq<Loaded<Pad>>,
    m: Motion,
    torque: F32,
) -> TickReport {
    let f = flown(r, level, rules, m);
    let on = pad_under(pads, rules, m);
    let landing = !f.crashed && on is Some && held(f, rules);
    let d = rested(f, level, rules, on);
    TickReport {
        impact: impact(r, level, rules, m),
        landed: landing,
        scored: landing && flashes(level, f.visited, on->0),
        heading_torque: torque,
        fuel_out: !f.crashed && f_le(rules.fuel_out_end_secs, d.fuel_out_timer),
        completed: (landing && completes(level, f.visited, on->0)) || out_of_time(d, level),
    }
}

/// Whether the end of a tick stops the ship.
pub open spec fn park(r: RunView, level: LevelView, rules: SimParams, pads: Seq<Loaded<Pad>>, m: Motion) -> Park {
    let f = flown(r, level, rules, m);
    if !r.crashed && f.crashed {
        Park::Wreck
    } else if out_of_time(rested(f, level, rules, pad_under(pads, rules, m)), level) {
        Park::Finish
    } else {
        Park::No
    }
}

// ---- Keyframes ----

/// Bit `i` of a mask.
pub open spec fn bit(mask: u64, i: int) -> bool {
    mask & (1u64 << (i as u64)) != 0
}

/// Pads 0 to `n` that are visited, as bits.
pub open spec fn pad_mask(visited: Set<Key>, n: nat) -> u64
    decreases n,
{
    if n == 0 {
        0
    } else {
        let rest = pad_mask(visited, (n - 1) as nat);
        if visited.contains(((n - 1) as i64, 0)) {
            rest | (1u64 << ((n - 1) as u64))
        } else {
            rest
        }
    }
}

/// Some copy of the finish pad `slot` is visited.
pub open spec fn finished(visited: Set<Key>, slot: i64) -> bool {
    exists|k: Key| #[trigger] visited.contains(k) && k.0 == slot
}

/// How many pads a mask can speak of.
pub open spec fn mask_len(pads: nat) -> nat {
    if pads < 64 {
        pads
    } else {
        64
    }
}

/// The visits of a run as a mask: the pads of a hand-drawn world, or the two
/// finish pads of a goal level.
pub open spec fn visit_mask(level: LevelView, visited: Set<Key>) -> u64 {
    match level.terrain {
        Some(t) => pad_mask(visited, mask_len(t.pads.len())),
        None => if f_lt(fl(0), level.goal_distance) {
            let a: u64 = if finished(visited, GOAL_SLOT_POS) {
                1
            } else {
                0
            };
            let b: u64 = if finished(visited, GOAL_SLOT_NEG) {
                2
            } else {
                0
            };
            a | b
        } else {
            0
        },
    }
}

/// The first `n` pads, as far as the mask has them.
pub open spec fn masked_pads(mask: u64, n: nat) -> Set<Key> {
    Set::new(|k: Key| 0 <= k.0 < n && k.1 == 0 && bit(mask, k.0 as int))
}

/// Marks the finish pad `slot` visited or not.
pub open spec fn mark_finish(visited: Set<Key>, slot: i64, on: bool) -> Set<Key> {
    if on {
        visited.insert((slot, 0))
    } else {
        visited.filter(|k: Key| k.0 != slot)
    }
}

/// The visits after a keyframe is restored.
pub open spec fn restored_visits(level: LevelView, visited: Set<Key>, mask: u64) -> Set<Key> {
    match level.terrain {
        Some(t) => masked_pads(mask, mask_len(t.pads.len())),
        None => if f_lt(fl(0), level.goal_distance) {
            mark_finish(mark_finish(visited, GOAL_SLOT_POS, bit(mask, 0)), GOAL_SLOT_NEG, bit(mask, 1))
        } else {
            visited
        },
    }
}

/// A keyframe whose clock has reached the level's limit.
pub open spec fn timed_out(level: LevelView, kf: Keyframe) -> bool {
    level.time_limit_ticks > 0 && kf.run_ticks >= level.time_limit_ticks
}

/// Whether a restored run is complete.
pub open spec fn restored_complete(level: LevelView, kf: Keyframe) -> bool {
    ||| timed_out(level, kf)
    ||| level.scoring is Time && match level.terrain {
        Some(t) => t.pads.len() > 0 && masked_pads(kf.visited, mask_len(t.pads.len())).len() == t.pads.len(),
        None => f_lt(fl(0), level.goal_distance) && (bit(kf.visited, 0) || bit(kf.visited, 1)),
    }
}

/// The run after a keyframe is restored.
pub open spec fn restored(r: RunView, level: LevelView, kf: Keyframe) -> RunView {
    RunView {
        fuel: kf.fuel,
        hull: kf.hull,
        score: r.score,
        max_dist: f_abs(kf.x),
        run_ticks: kf.run_ticks as int,
        visited: restored_visits(level, r.visited, kf.visited),
        crashed: false,
        completed: restored_complete(level, kf),
        land_timer: kf.land_timer,
        fuel_out_timer: fl(0),
        prev_vx: kf.vx,
        prev_vy: kf.vy,
    }
}

/// The keyframe of a run.
pub open spec fn snapshot(r: RunView, level: LevelView, m: Motion, tick: u32, glow: F32) -> Keyframe {
    Keyframe {
        tick,
        x: m.x,
        y: m.y,
        rot_re: m.rot_re,
        rot_im: m.rot_im,
        vx: m.vx,
        vy: m.vy,
        angvel: m.angvel,
        fuel: r.fuel,
        hull: r.hull,
        glow,
        land_timer: r.land_timer,
        visited: visit_mask(level, r.visited),
        run_ticks: r.run_ticks as u32,
    }
}

} // verus!
