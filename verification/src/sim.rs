//! The simulation of one run: its state, and what each tick does to it.
//!
//! The engine that moves the ship runs outside. A tick is in two halves:
//! `begin_tick` loads the surroundings and turns the controls into forces, the
//! engine moves the ship, and `end_tick` takes the new motion.

use crate::binary32::arith::{f_div, f_neg};
use crate::binary32::order::{f_le, f_lt, f_min};
use crate::binary32::{fl, F32};
use crate::cave::{sample, steady, wave_of, Wave, ONE, TAU};
use crate::level::{Level, LevelView, Scoring, Vec2};
use crate::pad::{GOAL_SLOT_NEG, GOAL_SLOT_POS, PAD_HALF_W, PAD_POINTS};
use crate::parse::PHYSICS_DT;
use crate::replay::{spawn_keyframe, standing, InputState, Keyframe};
use crate::rules::{registry, sim_params, SimParams};
use crate::run::{
    begun, booster, command, completes, damage, deflection, ended, first_under, flashes, flown,
    foot, fuel_cap, gravity, heading_torque, held, hull_cap, impact, landed, live, on_deck, own_or,
    pad_under, park, report, rested, restored, restored_complete, restored_visits, settled,
    short_way, snapshot, spawn_fuel, stands_on, steering, throttle, thrust, timed_out, torque,
    visit_mask, Command, Impact, Motion, Park, Push, RunView, TickReport, FOOT_LINE, FOOT_TOUCH_M,
    FOOT_X, FOOT_Y, LEAN_MAX, LINE_TOUCH, NOZZLE_X, NOZZLE_Y, PI, SETTLE_SPIN,
};
use crate::scene::{attaching, key_at, key_fits, window_key, Scene};
use crate::scenery::{tireless, willing, Boulder, Edge, Pad};
use crate::slots::{Key, Window};
use crate::visits::{count, from_mask, has_finish, is_visited, set_finish, to_mask, visit};
use std::collections::BTreeSet;
use rapier2d::dynamics::RigidBody;
use rapier2d::geometry::Collider;
use vstd::prelude::*;

verus! {

/// Where a run starts.
pub const SPAWN_X: u32 = 0;

/// How the ship is to be placed in the engine.
#[derive(Clone, Copy, PartialEq, Eq, Debug, Structural)]
pub struct Placement {
    pub x: F32,
    pub y: F32,
    pub rot_re: F32,
    pub rot_im: F32,
    pub vx: F32,
    pub vy: F32,
    pub angvel: F32,
    /// Whether gravity acts on it.
    pub falls: bool,
}

/// Where a keyframe puts the ship: gravity is off once the clock has run out.
pub open spec fn placed(level: LevelView, kf: Keyframe) -> Placement {
    Placement {
        x: kf.x,
        y: kf.y,
        rot_re: kf.rot_re,
        rot_im: kf.rot_im,
        vx: kf.vx,
        vy: kf.vy,
        angvel: kf.angvel,
        falls: !timed_out(level, kf),
    }
}

/// The torque of a command.
pub open spec fn torque_in(c: Option<Command>) -> F32 {
    match c {
        Some(c) => match c.torque {
            Some(q) => q,
            None => fl(0),
        },
        None => fl(0),
    }
}

/// A run in its world.
pub struct Sim {
    pub scene: Scene,
    pub level: Level,
    pub rules: SimParams,
    pub fuel: F32,
    pub hull: F32,
    pub score: u32,
    /// The farthest from the start.
    pub max_dist: F32,
    /// Ticks flown.
    pub run_ticks: u32,
    pub visited_pads: BTreeSet<Key>,
    pub crashed: bool,
    pub completed: bool,
    pub land_timer: F32,
    pub fuel_out_timer: F32,
    pub prev_vel: (F32, F32),
}

impl Sim {
    pub open spec fn wf(&self) -> bool {
        self.scene.wf()
    }

    /// The state of the run.
    pub open spec fn run(&self) -> RunView {
        RunView {
            fuel: self.fuel,
            hull: self.hull,
            score: self.score as int,
            max_dist: self.max_dist,
            run_ticks: self.run_ticks as int,
            visited: self.visited_pads@,
            crashed: self.crashed,
            completed: self.completed,
            land_timer: self.land_timer,
            fuel_out_timer: self.fuel_out_timer,
            prev_vx: self.prev_vel.0,
            prev_vy: self.prev_vel.1,
        }
    }

    /// Level and ruleset are those of `o`.
    pub open spec fn same_setting(&self, o: &Sim) -> bool {
        self.level == o.level && self.rules == o.rules
    }

    /// The keyframe of a spawn at `x` under this run's level and ruleset.
    pub open spec fn spawn(&self, w: spec_fn(Wave, F32) -> F32, x: F32) -> Keyframe {
        Keyframe {
            fuel: spawn_fuel(self.level@, self.rules),
            hull: hull_cap(self.level@, self.rules),
            ..standing(self.level@, w, x)
        }
    }
}

fn pick(own: F32, rule: F32) -> (r: F32)
    ensures
        r == own_or(own, rule),
{
    if fl(0).lt(own) {
        own
    } else {
        rule
    }
}

fn shorter(err: F32) -> (r: F32)
    ensures
        r == short_way(err),
{
    let once: F32 = if fl(PI).lt(err) {
        err.minus(fl(TAU))
    } else {
        err
    };
    if once.lt(fl(PI).negate()) {
        once.plus(fl(TAU))
    } else {
        once
    }
}

fn deflect(input: &InputState) -> (r: F32)
    ensures
        r == deflection(*input),
{
    input.steer_x.times(input.steer_x).plus(input.steer_y.times(input.steer_y)).sqrt().min(fl(ONE))
}

fn engine_force<T: Fn(Wave, F32) -> F32>(trig: &T, force: F32, throttle: F32, m: &Motion) -> (r: Option<Vec2>)
    requires
        steady(*trig),
    ensures
        r == thrust(wave_of(*trig), force, throttle, *m),
{
    if fl(0).lt(throttle) {
        let f: F32 = force.times(throttle);
        Some(
            Vec2 {
                x: sample(trig, Wave::Sin, m.angle).negate().times(f),
                y: sample(trig, Wave::Cos, m.angle).times(f),
            },
        )
    } else {
        None
    }
}

fn booster_push<T: Fn(Wave, F32) -> F32>(trig: &T, force: F32, rot: i8, m: &Motion) -> (r: Option<Push>)
    requires
        steady(*trig),
    ensures
        r == booster(wave_of(*trig), force, rot as int, *m),
{
    if rot == 0 {
        return None;
    }
    let side: i64 = if rot > 0 {
        1
    } else {
        -1
    };
    let lx: F32 = fl(NOZZLE_X).times(F32::of_i64(side));
    let ly: F32 = fl(NOZZLE_Y);
    let s: F32 = sample(trig, Wave::Sin, m.angle);
    let c: F32 = sample(trig, Wave::Cos, m.angle);
    Some(
        Push {
            force: Vec2 { x: force.negate().times(s), y: force.times(c) },
            at: Vec2 {
                x: m.x.plus(lx.times(c)).minus(ly.times(s)),
                y: m.y.plus(lx.times(s)).plus(ly.times(c)),
            },
        },
    )
}

fn is_on_deck(p: Vec2, pad: &Pad, touch: F32) -> (r: bool)
    ensures
        r == on_deck(p, *pad, touch),
{
    p.x.minus(pad.cx).abs().le(fl(PAD_HALF_W)) && p.y.minus(pad.y).abs().lt(touch)
}

fn foot_at(m: &Motion, lx: F32) -> (r: Vec2)
    ensures
        r == foot(*m, lx),
{
    Vec2 {
        x: m.x.plus(lx.times(m.rot_re)).minus(fl(FOOT_Y).times(m.rot_im)),
        y: m.y.plus(lx.times(m.rot_im)).plus(fl(FOOT_Y).times(m.rot_re)),
    }
}

fn is_standing(rules: &SimParams, m: &Motion, pad: &Pad) -> (r: bool)
    ensures
        r == stands_on(*rules, *m, *pad),
{
    if fl(ONE).le(rules.land_rule) {
        is_on_deck(foot_at(m, fl(FOOT_X).negate()), pad, fl(FOOT_TOUCH_M)) && is_on_deck(
            foot_at(m, fl(FOOT_X)),
            pad,
            fl(FOOT_TOUCH_M),
        )
    } else {
        m.angle.abs().lt(fl(LEAN_MAX)) && is_on_deck(
            Vec2 { x: m.x, y: m.y.minus(fl(FOOT_LINE)) },
            pad,
            fl(LINE_TOUCH),
        )
    }
}

/// The pad that the settled ship stands on.
fn find_pad(pads: &Window<Pad>, rules: &SimParams, m: &Motion) -> (r: Option<Key>)
    ensures
        r == pad_under(pads.slots@, *rules, *m),
{
    let still: bool = m.vx.abs().lt(fl(ONE)) && m.vy.abs().lt(fl(ONE)) && m.angvel.abs().lt(
        fl(SETTLE_SPIN),
    );
    if !still {
        return None;
    }
    let mut i: usize = 0;
    while i < pads.slots.len()
        invariant
            i <= pads.slots@.len(),
            settled(*m),
            forall|j: int| 0 <= j < i ==> !stands_on(*rules, *m, #[trigger] pads.slots@[j].item),
        decreases pads.slots.len() - i,
    {
        if is_standing(rules, m, &pads.slots[i].item) {
            proof {
                let s = pads.slots@;
                assert(first_under(s, *rules, *m, i as int));
                let k = choose|k: int| first_under(s, *rules, *m, k);
                assert(k == i) by {
                    if k < i {
                        assert(!stands_on(*rules, *m, s[k].item));
                    } else if i < k {
                        assert(!stands_on(*rules, *m, s[i as int].item));
                    }
                }
            }
            return Some(pads.slots[i].key);
        }
        i = i + 1;
    }
    proof {
        assert forall|k: int| !first_under(pads.slots@, *rules, *m, k) by {
            if 0 <= k < pads.slots@.len() {
                assert(!stands_on(*rules, *m, pads.slots@[k].item));
            }
        }
    }
    None
}

/// The impact of a tick.
fn find_impact(level: &Level, rules: &SimParams, crashed: bool, hull: F32, prev: (F32, F32), m: &Motion, Ghost(r): Ghost<RunView>) -> (i: Option<Impact>)
    requires
        crashed == r.crashed,
        hull == r.hull,
        prev.0 == r.prev_vx,
        prev.1 == r.prev_vy,
    ensures
        i == impact(r, level@, *rules, *m),
{
    if crashed {
        return None;
    }
    let dx: F32 = m.vx.minus(prev.0);
    let dy: F32 = m.vy.minus(prev.1);
    let dv: F32 = dx.times(dx).plus(dy.times(dy)).sqrt();
    if !rules.crash_dv_soft.lt(dv) {
        return None;
    }
    let cap: F32 = pick(level.hull_max, rules.hull_max);
    let damage: F32 = dv.minus(rules.crash_dv_soft).over(
        rules.crash_dv_hard.minus(rules.crash_dv_soft),
    ).times(cap);
    let destroyed: bool = rules.crash_dv_hard.lt(dv) || hull.minus(damage).le(fl(0));
    Some(
        Impact {
            dv,
            damage,
            destroyed,
            x: m.x,
            y: m.y,
            vx: m.vx,
            vy: m.vy,
            rot_re: m.rot_re,
            rot_im: m.rot_im,
            angvel: m.angvel,
        },
    )
}

impl Sim {
    /// A full tank.
    pub fn fuel_cap(&self) -> (r: F32)
        ensures
            r == fuel_cap(self.level@, self.rules),
    {
        pick(self.level.fuel_max, self.rules.fuel_max)
    }

    /// An intact hull.
    pub fn hull_cap(&self) -> (r: F32)
        ensures
            r == hull_cap(self.level@, self.rules),
    {
        pick(self.level.hull_max, self.rules.hull_max)
    }

    /// What the tank holds at a spawn.
    pub fn spawn_fuel(&self) -> (r: F32)
        ensures
            r == spawn_fuel(self.level@, self.rules),
    {
        if fl(0).lt(self.level.start_fuel) {
            self.level.start_fuel.min(self.fuel_cap())
        } else {
            self.fuel_cap()
        }
    }

    /// The gravity of this run.
    pub fn gravity(&self) -> (r: F32)
        ensures
            r == gravity(self.level@, self.rules),
    {
        if self.level.gravity_y.same(fl(0)) {
            self.rules.gravity_y
        } else {
            self.level.gravity_y
        }
    }

    /// The keyframe of a spawn at `x`.
    pub fn spawn_kf<T: Fn(Wave, F32) -> F32>(&self, trig: &T, x: F32) -> (r: Keyframe)
        requires
            steady(*trig),
        ensures
            r == self.spawn(wave_of(*trig), x),
    {
        let kf: Keyframe = spawn_keyframe(&self.level, trig, x);
        Keyframe { fuel: self.spawn_fuel(), hull: self.hull_cap(), ..kf }
    }

    /// How far the settling time has run, 1 at most.
    pub fn land_progress(&self) -> (r: F32)
        ensures
            r == f_min(f_div(self.land_timer, self.rules.pad_land_time), fl(ONE)),
            f_le(r, fl(ONE)),
    {
        self.land_timer.over(self.rules.pad_land_time).min(fl(ONE))
    }

    /// The visits of this run as a mask.
    pub fn visited_mask(&self) -> (r: u64)
        ensures
            r == visit_mask(self.level@, self.visited_pads@),
    {
        match &self.level.terrain {
            Some(t) => {
                let n: usize = if t.pads.len() < 64 {
                    t.pads.len()
                } else {
                    64
                };
                to_mask(&self.visited_pads, n)
            },
            None => {
                if fl(0).lt(self.level.goal_distance) {
                    let a: u64 = if has_finish(&self.visited_pads, GOAL_SLOT_POS) {
                        1
                    } else {
                        0
                    };
                    let b: u64 = if has_finish(&self.visited_pads, GOAL_SLOT_NEG) {
                        2
                    } else {
                        0
                    };
                    a | b
                } else {
                    0
                }
            },
        }
    }

    /// A snapshot of this run.
    pub fn keyframe(&self, m: &Motion, tick: u32, glow: F32) -> (r: Keyframe)
        ensures
            r == snapshot(self.run(), self.level@, *m, tick, glow),
    {
        Keyframe {
            tick,
            x: m.x,
            y: m.y,
            rot_re: m.rot_re,
            rot_im: m.rot_im,
            vx: m.vx,
            vy: m.vy,
            angvel: m.angvel,
            fuel: self.fuel,
            hull: self.hull,
            glow,
            land_timer: self.land_timer,
            visited: self.visited_mask(),
            run_ticks: self.run_ticks,
        }
    }
}

impl Sim {
    /// Takes over the visits that a keyframe holds; whether they complete the
    /// run.
    fn take_visits(&mut self, kf: &Keyframe) -> (r: bool)
        ensures
            final(self).visited_pads@ == restored_visits(
                old(self).level@,
                old(self).visited_pads@,
                kf.visited,
            ),
            (r || timed_out(old(self).level@, *kf)) == restored_complete(old(self).level@, *kf),
            *final(self) == (Sim { visited_pads: final(self).visited_pads, ..*old(self) }),
    {
        let time: bool = match self.level.scoring {
            Scoring::Time => true,
            _ => false,
        };
        match &self.level.terrain {
            Some(t) => {
                let len: usize = t.pads.len();
                let n: usize = if len < 64 {
                    len
                } else {
                    64
                };
                self.visited_pads = from_mask(kf.visited, n);
                time && len > 0 && count(&self.visited_pads) == len
            },
            None => {
                if fl(0).lt(self.level.goal_distance) {
                    let a: bool = kf.visited & (1u64 << 0u64) != 0;
                    let b: bool = kf.visited & (1u64 << 1u64) != 0;
                    set_finish(&mut self.visited_pads, GOAL_SLOT_POS, a);
                    set_finish(&mut self.visited_pads, GOAL_SLOT_NEG, b);
                    time && (a || b)
                } else {
                    false
                }
            },
        }
    }

    /// Puts the run into the state that a keyframe describes, loads its
    /// surroundings, and says where the ship goes. The score stays.
    pub fn restore<T: Fn(Wave, F32) -> F32, S: Fn(Edge) -> Collider, H: Fn(Boulder) -> Option<(Collider, Vec<Vec2>)>>(
        &mut self,
        trig: &T,
        segment: &S,
        hull: &H,
        kf: &Keyframe,
    ) -> (r: Placement)
        requires
            old(self).wf(),
            steady(*trig),
            willing(*segment),
            tireless(*hull),
            old(self).scene.may_sync(&old(self).level, key_at(kf.x, kf.y)),
        ensures
            r == placed(old(self).level@, *kf),
            final(self).wf(),
            final(self).same_setting(old(self)),
            final(self).run() == restored(old(self).run(), old(self).level@, *kf),
            final(self).scene.synced_from(
                &old(self).scene,
                &old(self).level,
                trig,
                segment,
                hull,
                key_at(kf.x, kf.y),
            ),
    {
        let visits_complete: bool = self.take_visits(kf);
        let late: bool = self.level.time_limit_ticks > 0 && kf.run_ticks
            >= self.level.time_limit_ticks;
        self.fuel = kf.fuel;
        self.hull = kf.hull;
        self.crashed = false;
        self.completed = visits_complete || late;
        self.run_ticks = kf.run_ticks;
        self.land_timer = kf.land_timer;
        self.fuel_out_timer = fl(0);
        self.max_dist = kf.x.abs();
        self.prev_vel = (kf.vx, kf.vy);
        self.scene.sync_window(&self.level, trig, segment, hull, window_key(kf.x, kf.y));
        Placement {
            x: kf.x,
            y: kf.y,
            rot_re: kf.rot_re,
            rot_im: kf.rot_im,
            vx: kf.vx,
            vy: kf.vy,
            angvel: kf.angvel,
            falls: !late,
        }
    }

    /// Puts the ship back to a spawn at `x`.
    pub fn reset<T: Fn(Wave, F32) -> F32, S: Fn(Edge) -> Collider, H: Fn(Boulder) -> Option<(Collider, Vec<Vec2>)>>(
        &mut self,
        trig: &T,
        segment: &S,
        hull: &H,
        x: F32,
    ) -> (r: Placement)
        requires
            old(self).wf(),
            steady(*trig),
            willing(*segment),
            tireless(*hull),
            old(self).scene.may_sync(
                &old(self).level,
                key_at(x, old(self).level@.stand(wave_of(*trig), x)),
            ),
        ensures
            r == placed(old(self).level@, old(self).spawn(wave_of(*trig), x)),
            final(self).wf(),
            final(self).same_setting(old(self)),
            final(self).run() == restored(
                old(self).run(),
                old(self).level@,
                old(self).spawn(wave_of(*trig), x),
            ),
            final(self).scene.synced_from(
                &old(self).scene,
                &old(self).level,
                trig,
                segment,
                hull,
                key_at(x, old(self).level@.stand(wave_of(*trig), x)),
            ),
    {
        let kf: Keyframe = self.spawn_kf(trig, x);
        self.restore(trig, segment, hull, &kf)
    }

    /// What a tick needs: a clock that can still count, a range for the steering
    /// torque if the stick steers, and surroundings that can be loaded.
    pub open spec fn may_tick(&self, input: InputState, m: Motion) -> bool {
        &&& live(self.run()) ==> self.run_ticks < u32::MAX
        &&& live(self.run()) && steering(self.run(), input) ==> f_le(
            f_neg(self.rules.heading_torque_max),
            self.rules.heading_torque_max,
        )
        &&& self.scene.synced_at != Some(key_at(m.x, m.y)) ==> self.scene.may_sync(
            &self.level,
            key_at(m.x, m.y),
        )
    }

    /// Whether a tick can be run from here.
    pub fn check_tick(&self, input: &InputState, m: &Motion) -> (r: bool)
        ensures
            r == self.may_tick(*input, *m),
    {
        let at: Key = window_key(m.x, m.y);
        let there: bool = match self.scene.synced_at {
            Some(k) => k.0 == at.0 && k.1 == at.1,
            None => false,
        };
        if !there && !self.scene.check_sync(&self.level, at) {
            return false;
        }
        if self.crashed || self.completed {
            return true;
        }
        let most: F32 = self.rules.heading_torque_max;
        let fueled: bool = fl(0).lt(self.fuel);
        let steers: bool = fueled && fl(0).lt(deflect(input)) && input.rot == 0;
        self.run_ticks < 0xffff_ffff && (!steers || most.negate().le(most))
    }

    /// The first half of a tick: slides the windows if the ship has moved on,
    /// advances the clock, burns fuel, and says what acts on the ship.
    /// `bearing` is the heading that the stick points to.
    pub fn begin_tick<T: Fn(Wave, F32) -> F32, S: Fn(Edge) -> Collider, H: Fn(Boulder) -> Option<(Collider, Vec<Vec2>)>>(
        &mut self,
        trig: &T,
        segment: &S,
        hull: &H,
        input: &InputState,
        m: &Motion,
        bearing: F32,
    ) -> (r: Option<Command>)
        requires
            old(self).wf(),
            steady(*trig),
            willing(*segment),
            tireless(*hull),
            old(self).may_tick(*input, *m),
        ensures
            final(self).wf(),
            final(self).same_setting(old(self)),
            final(self).run() == begun(old(self).run(), old(self).rules, *input, *m, bearing),
            r == if live(old(self).run()) {
                Some(
                    command(
                        old(self).run(),
                        old(self).level@,
                        old(self).rules,
                        wave_of(*trig),
                        *input,
                        *m,
                        bearing,
                    ),
                )
            } else {
                None
            },
            if old(self).scene.synced_at == Some(key_at(m.x, m.y)) {
                final(self).scene == old(self).scene
            } else {
                final(self).scene.synced_from(
                    &old(self).scene,
                    &old(self).level,
                    trig,
                    segment,
                    hull,
                    key_at(m.x, m.y),
                )
            },
    {
        let at: Key = window_key(m.x, m.y);
        let there: bool = match self.scene.synced_at {
            Some(k) => k.0 == at.0 && k.1 == at.1,
            None => false,
        };
        if !there {
            self.scene.sync_window(&self.level, trig, segment, hull, at);
        }
        if self.crashed || self.completed {
            return None;
        }
        Some(self.control(trig, input, m, bearing))
    }

    /// The controls of a live tick.
    fn control<T: Fn(Wave, F32) -> F32>(&mut self, trig: &T, input: &InputState, m: &Motion, bearing: F32) -> (r: Command)
        requires
            live(old(self).run()),
            steady(*trig),
            old(self).run_ticks < u32::MAX,
            steering(old(self).run(), *input) ==> f_le(
                f_neg(old(self).rules.heading_torque_max),
                old(self).rules.heading_torque_max,
            ),
        ensures
            r == command(
                old(self).run(),
                old(self).level@,
                old(self).rules,
                wave_of(*trig),
                *input,
                *m,
                bearing,
            ),
            final(self).run() == begun(old(self).run(), old(self).rules, *input, *m, bearing),
            *final(self) == (Sim {
                run_ticks: final(self).run_ticks,
                fuel: final(self).fuel,
                ..*old(self)
            }),
    {
        let ghost r0 = self.run();
        self.run_ticks = self.run_ticks + 1;
        let fueled: bool = fl(0).lt(self.fuel);
        let throttle: F32 = if fueled {
            input.throttle
        } else {
            fl(0)
        };
        let rot: i8 = if fueled {
            input.rot
        } else {
            0
        };
        let mag: F32 = deflect(input);
        let force: F32 = pick(self.level.thrust_force, self.rules.thrust_force);
        let push: Option<Vec2> = engine_force(trig, force, throttle, m);
        let side: Option<Push> = booster_push(trig, self.rules.rcs_force, rot, m);
        let most: F32 = self.rules.heading_torque_max;
        let steer: Option<F32> = if fueled && fl(0).lt(mag) && rot == 0 {
            let err: F32 = shorter(bearing.minus(m.angle));
            let pull: F32 = err.times(self.rules.heading_kp).minus(
                m.angvel.times(self.rules.heading_kd),
            );
            Some(pull.clamp(most.negate(), most).times(mag))
        } else {
            None
        };
        let twist: F32 = match steer {
            Some(q) => q,
            None => fl(0),
        };
        assert(twist == torque(r0, self.rules, *input, *m, bearing));
        let mut fuel: F32 = self.fuel;
        if fl(0).lt(throttle) {
            fuel = fuel.minus(self.rules.fuel_burn_main.times(throttle).times(fl(PHYSICS_DT)));
        }
        if rot != 0 {
            fuel = fuel.minus(self.rules.fuel_burn_rcs.times(fl(PHYSICS_DT)));
        } else if !twist.same(fl(0)) {
            fuel = fuel.minus(
                self.rules.fuel_burn_rcs.times(twist.abs().over(most)).times(fl(PHYSICS_DT)),
            );
        }
        self.fuel = fuel.max(fl(0));
        Command { thrust: push, booster: side, torque: steer }
    }
}

impl Sim {
    /// Counts the distance and takes the impact of a tick.
    fn fly(&mut self, m: &Motion) -> (i: Option<Impact>)
        ensures
            i == impact(old(self).run(), old(self).level@, old(self).rules, *m),
            final(self).run() == flown(old(self).run(), old(self).level@, old(self).rules, *m),
            *final(self) == (Sim {
                max_dist: final(self).max_dist,
                hull: final(self).hull,
                crashed: final(self).crashed,
                ..*old(self)
            }),
    {
        let ghost r0 = self.run();
        let i: Option<Impact> = find_impact(
            &self.level,
            &self.rules,
            self.crashed,
            self.hull,
            self.prev_vel,
            m,
            Ghost(r0),
        );
        if !self.crashed && !self.completed {
            self.max_dist = self.max_dist.max(m.x.abs());
        }
        match i {
            Some(hit) => {
                self.hull = if hit.destroyed {
                    fl(0)
                } else {
                    self.hull.minus(hit.damage)
                };
                self.crashed = hit.destroyed;
            },
            None => {},
        }
        i
    }

    /// A landing that has held for long enough: whether it flashes, and
    /// whether it completes the run.
    fn land(&mut self, key: Key) -> (r: (bool, bool))
        requires
            old(self).level.scoring is Pads && flashes(old(self).level@, old(self).visited_pads@, key)
                ==> old(self).score + PAD_POINTS <= u32::MAX,
        ensures
            r.0 == flashes(old(self).level@, old(self).visited_pads@, key),
            r.1 == completes(old(self).level@, old(self).visited_pads@, key),
            final(self).run() == landed(old(self).run(), old(self).level@, old(self).rules, key),
            *final(self) == (Sim {
                visited_pads: final(self).visited_pads,
                score: final(self).score,
                completed: final(self).completed,
                fuel: final(self).fuel,
                hull: final(self).hull,
                ..*old(self)
            }),
    {
        let new: bool = visit(&mut self.visited_pads, key);
        let mut flash: bool = false;
        let mut done: bool = false;
        if new {
            match self.level.scoring {
                Scoring::Pads => {
                    self.score = self.score + PAD_POINTS;
                    flash = true;
                },
                Scoring::Time => {
                    if fl(0).lt(self.level.goal_distance) {
                        let finish: bool = key.0 == GOAL_SLOT_POS || key.0 == GOAL_SLOT_NEG;
                        flash = finish;
                        done = finish;
                    } else {
                        flash = true;
                        done = match &self.level.terrain {
                            Some(t) => t.pads.len() > 0 && count(&self.visited_pads) == t.pads.len(),
                            None => false,
                        };
                    }
                },
                Scoring::Distance => {},
            }
        }
        if done {
            self.completed = true;
        }
        let gain: F32 = pick(self.level.refuel_per_s, self.rules.pad_refuel_per_s).times(
            fl(PHYSICS_DT),
        );
        self.fuel = self.fuel.plus(gain).min(self.fuel_cap());
        self.hull = self.hull.plus(self.rules.hull_repair_per_s.times(fl(PHYSICS_DT))).min(
            self.hull_cap(),
        );
        (flash, done)
    }

    /// Whether the score can still take a visit.
    pub fn check_score(&self) -> (r: bool)
        ensures
            r == (self.score + PAD_POINTS <= u32::MAX),
    {
        self.score <= 0xffff_ffff - PAD_POINTS
    }

    /// What the end of a tick needs: if a visit scores, room for its points.
    pub open spec fn may_end(&self, m: Motion) -> bool {
        self.level.scoring is Pads && report(
            self.run(),
            self.level@,
            self.rules,
            self.scene.pads.slots@,
            m,
            fl(0),
        ).scored ==> self.score + PAD_POINTS <= u32::MAX
    }

    /// Whether a tick can be ended with the motion `m`.
    pub fn check_end(&self, m: &Motion) -> (r: bool)
        ensures
            r == self.may_end(*m),
    {
        if self.check_score() {
            return true;
        }
        match self.level.scoring {
            Scoring::Pads => {},
            _ => {
                return true;
            },
        }
        let hit: Option<Impact> = find_impact(
            &self.level,
            &self.rules,
            self.crashed,
            self.hull,
            self.prev_vel,
            m,
            Ghost(self.run()),
        );
        let wreck: bool = match hit {
            Some(i) => i.destroyed,
            None => self.crashed,
        };
        let up: bool = self.rules.pad_land_time.le(self.land_timer.plus(fl(PHYSICS_DT)));
        match find_pad(&self.scene.pads, &self.rules, m) {
            Some(key) => wreck || !up || is_visited(&self.visited_pads, key),
            None => true,
        }
    }

    /// The second half of a tick, with the motion that the engine came to:
    /// impact, landing, fuel and time. Says what happened, and whether the
    /// ship is to be stopped.
    pub fn end_tick(&mut self, m: &Motion, command: &Option<Command>) -> (r: (TickReport, Park))
        requires
            old(self).wf(),
            old(self).may_end(*m),
        ensures
            final(self).wf(),
            final(self).same_setting(old(self)),
            final(self).scene == old(self).scene,
            final(self).run() == ended(
                old(self).run(),
                old(self).level@,
                old(self).rules,
                old(self).scene.pads.slots@,
                *m,
            ),
            r.0 == report(
                old(self).run(),
                old(self).level@,
                old(self).rules,
                old(self).scene.pads.slots@,
                *m,
                torque_in(*command),
            ),
            r.1 == park(
                old(self).run(),
                old(self).level@,
                old(self).rules,
                old(self).scene.pads.slots@,
                *m,
            ),
    {
        let ghost r0 = self.run();
        let twist: F32 = match command {
            Some(c) => match c.torque {
                Some(q) => q,
                None => fl(0),
            },
            None => fl(0),
        };
        let was_wreck: bool = self.crashed;
        let hit: Option<Impact> = self.fly(m);
        let ghost f = self.run();
        let mut landing: bool = false;
        let mut flash: bool = false;
        let mut done: bool = false;
        let mut dry: bool = false;
        if !self.crashed {
            match find_pad(&self.scene.pads, &self.rules, m) {
                Some(key) => {
                    self.land_timer = self.land_timer.plus(fl(PHYSICS_DT));
                    if self.rules.pad_land_time.le(self.land_timer) {
                        let got: (bool, bool) = self.land(key);
                        flash = got.0;
                        done = got.1;
                        landing = true;
                    }
                },
                None => {
                    self.land_timer = fl(0);
                },
            }
            self.fuel_out_timer = if self.fuel.le(fl(0)) {
                self.fuel_out_timer.plus(fl(PHYSICS_DT))
            } else {
                fl(0)
            };
            dry = self.rules.fuel_out_end_secs.le(self.fuel_out_timer);
        } else {
            self.land_timer = fl(0);
        }
        let ghost d = self.run();
        assert(d == rested(
            f,
            old(self).level@,
            old(self).rules,
            pad_under(old(self).scene.pads.slots@, old(self).rules, *m),
        ));
        self.prev_vel = (m.vx, m.vy);
        let late: bool = !self.crashed && !self.completed && self.level.time_limit_ticks > 0
            && self.run_ticks >= self.level.time_limit_ticks;
        if late {
            self.completed = true;
            self.prev_vel = (fl(0), fl(0));
        }
        let stop: Park = if !was_wreck && self.crashed {
            Park::Wreck
        } else if late {
            Park::Finish
        } else {
            Park::No
        };
        (
            TickReport {
                impact: hit,
                landed: landing,
                scored: flash,
                heading_torque: twist,
                fuel_out: dry,
                completed: done || late,
            },
            stop,
        )
    }
}

/// A rounded bar that is part of the ship.
#[derive(Clone, Copy, PartialEq, Eq, Debug, Structural)]
pub struct Capsule {
    pub a: Vec2,
    pub b: Vec2,
    pub radius: F32,
    pub bounce: F32,
}

/// The ship as a body for the engine.
#[derive(Clone, Copy, PartialEq, Eq, Debug, Structural)]
pub struct ShipBody {
    pub at: Vec2,
    pub angular_damping: F32,
    pub linear_damping: F32,
    pub can_sleep: bool,
}

/// `0.42` and `-0.08`: the ends of the hull's axis.
pub const HULL_TOP: u32 = 0x3ed7_0a3d;

pub const HULL_BOTTOM: u32 = 0xbda3_d70a;

/// `0.26`: the hull's radius, and where a leg begins.
pub const HULL_RADIUS: u32 = 0x3e85_1eb8;

/// `-0.3` and `-0.64`: the heights at which a leg begins and ends.
pub const LEG_TOP: u32 = 0xbe99_999a;

pub const LEG_BOTTOM: u32 = 0xbf23_d70a;

/// `0.09`: a leg's radius.
pub const LEG_RADIUS: u32 = 0x3db8_51ec;

/// `0.2`: how much the ship bounces.
pub const SHIP_BOUNCE: u32 = 0x3e4c_cccd;

/// How often the engine refines the forces of one tick.
pub const SOLVER_ITERATIONS: usize = 8;

/// The hull.
pub open spec fn hull_capsule() -> Capsule {
    Capsule {
        a: Vec2 { x: fl(0), y: fl(HULL_TOP) },
        b: Vec2 { x: fl(0), y: fl(HULL_BOTTOM) },
        radius: fl(HULL_RADIUS),
        bounce: fl(SHIP_BOUNCE),
    }
}

/// A leg: the right one, or the left one.
pub open spec fn leg_capsule(right: bool) -> Capsule {
    Capsule {
        a: Vec2 {
            x: if right {
                fl(HULL_RADIUS)
            } else {
                f_neg(fl(HULL_RADIUS))
            },
            y: fl(LEG_TOP),
        },
        b: Vec2 {
            x: if right {
                fl(FOOT_X)
            } else {
                f_neg(fl(FOOT_X))
            },
            y: fl(LEG_BOTTOM),
        },
        radius: fl(LEG_RADIUS),
        bounce: fl(SHIP_BOUNCE),
    }
}

/// The parts of the ship: hull, left leg, right leg.
pub fn ship_capsules() -> (r: Vec<Capsule>)
    ensures
        r@ == seq![hull_capsule(), leg_capsule(false), leg_capsule(true)],
{
    let mut r: Vec<Capsule> = Vec::new();
    r.push(
        Capsule {
            a: Vec2 { x: fl(0), y: fl(HULL_TOP) },
            b: Vec2 { x: fl(0), y: fl(HULL_BOTTOM) },
            radius: fl(HULL_RADIUS),
            bounce: fl(SHIP_BOUNCE),
        },
    );
    r.push(
        Capsule {
            a: Vec2 { x: fl(HULL_RADIUS).negate(), y: fl(LEG_TOP) },
            b: Vec2 { x: fl(FOOT_X).negate(), y: fl(LEG_BOTTOM) },
            radius: fl(LEG_RADIUS),
            bounce: fl(SHIP_BOUNCE),
        },
    );
    r.push(
        Capsule {
            a: Vec2 { x: fl(HULL_RADIUS), y: fl(LEG_TOP) },
            b: Vec2 { x: fl(FOOT_X), y: fl(LEG_BOTTOM) },
            radius: fl(LEG_RADIUS),
            bounce: fl(SHIP_BOUNCE),
        },
    );
    assert(r@ =~= seq![hull_capsule(), leg_capsule(false), leg_capsule(true)]);
    r
}

/// The ship's body under a level and a ruleset.
pub fn ship_body<T: Fn(Wave, F32) -> F32>(level: &Level, rules: &SimParams, trig: &T) -> (r: ShipBody)
    requires
        steady(*trig),
    ensures
        r == (ShipBody {
            at: Vec2 { x: fl(0), y: level@.stand(wave_of(*trig), fl(0)) },
            angular_damping: rules.angular_damping,
            linear_damping: rules.linear_damping,
            can_sleep: f_lt(fl(0), rules.ship_sleep),
        }),
{
    ShipBody {
        at: Vec2 { x: fl(0), y: level.stand_y(trig, fl(0)) },
        angular_damping: rules.angular_damping,
        linear_damping: rules.linear_damping,
        can_sleep: fl(0).lt(rules.ship_sleep),
    }
}

/// A run before it has been placed anywhere.
pub open spec fn unplaced() -> RunView {
    RunView {
        fuel: fl(0),
        hull: fl(0),
        score: 0,
        max_dist: fl(0),
        run_ticks: 0,
        visited: Set::empty(),
        crashed: false,
        completed: false,
        land_timer: fl(0),
        fuel_out_timer: fl(0),
        prev_vx: fl(0),
        prev_vy: fl(0),
    }
}

impl Sim {
    /// `self` stands at its spawn in a new world; the ship is made of `body`
    /// and `parts`.
    pub open spec fn fresh<T: Fn(Wave, F32) -> F32, S: Fn(Edge) -> Collider, H: Fn(Boulder) -> Option<(Collider, Vec<Vec2>)>>(
        &self,
        level: &Level,
        rules: SimParams,
        body: RigidBody,
        parts: Seq<Collider>,
        trig: &T,
        segment: &S,
        hull: &H,
    ) -> bool {
        let kf = self.spawn(wave_of(*trig), fl(SPAWN_X));
        &&& self.wf()
        &&& self.level == *level
        &&& self.rules == rules
        &&& self.run() == restored(unplaced(), level@, kf)
        &&& self.scene.manned(body, parts)
        &&& exists|o: Scene| #[trigger]
            o.blank() && o.world.log@ == attaching(parts.len()) && self.scene.synced_from(
                &o,
                level,
                trig,
                segment,
                hull,
                key_at(kf.x, kf.y),
            )
    }

    /// A new run under the given ruleset, and where the ship goes.
    pub fn with_rules<T: Fn(Wave, F32) -> F32, S: Fn(Edge) -> Collider, H: Fn(Boulder) -> Option<(Collider, Vec<Vec2>)>>(
        level: Level,
        rules: SimParams,
        body: RigidBody,
        parts: Vec<Collider>,
        trig: &T,
        segment: &S,
        hull: &H,
    ) -> (r: (Sim, Placement))
        requires
            steady(*trig),
            willing(*segment),
            tireless(*hull),
            level.terrain is None ==> key_fits(
                key_at(fl(SPAWN_X), level@.stand(wave_of(*trig), fl(SPAWN_X))),
            ),
        ensures
            r.0.fresh(&level, rules, body, parts@, trig, segment, hull),
            r.1 == placed(level@, r.0.spawn(wave_of(*trig), fl(SPAWN_X))),
    {
        let scene: Scene = Scene::new(body, parts);
        let ghost blank = scene;
        let mut sim: Sim = Sim {
            scene,
            level,
            rules,
            fuel: fl(0),
            hull: fl(0),
            score: 0,
            max_dist: fl(0),
            run_ticks: 0,
            visited_pads: BTreeSet::new(),
            crashed: false,
            completed: false,
            land_timer: fl(0),
            fuel_out_timer: fl(0),
            prev_vel: (fl(0), fl(0)),
        };
        assert(sim.run() =~= unplaced());
        assert(blank.blank());
        let at: Placement = sim.reset(trig, segment, hull, fl(SPAWN_X));
        (sim, at)
    }

    /// A new run under the ruleset of live play, and where the ship goes.
    pub fn new<T: Fn(Wave, F32) -> F32, S: Fn(Edge) -> Collider, H: Fn(Boulder) -> Option<(Collider, Vec<Vec2>)>>(
        level: Level,
        body: RigidBody,
        parts: Vec<Collider>,
        trig: &T,
        segment: &S,
        hull: &H,
    ) -> (r: (Sim, Placement))
        requires
            steady(*trig),
            willing(*segment),
            tireless(*hull),
            level.terrain is None ==> key_fits(
                key_at(fl(SPAWN_X), level@.stand(wave_of(*trig), fl(SPAWN_X))),
            ),
        ensures
            r.0.fresh(&level, registry().last(), body, parts@, trig, segment, hull),
            r.1 == placed(level@, r.0.spawn(wave_of(*trig), fl(SPAWN_X))),
    {
        Sim::with_rules(level, sim_params(), body, parts, trig, segment, hull)
    }
}

} // verus!
