use rapier2d::prelude::{
    CCDSolver, Collider, ColliderBuilder, DefaultBroadPhase, ImpulseJointSet,
    IntegrationParameters, MultibodyJointSet, NarrowPhase, PhysicsPipeline, Point,
    RigidBodyBuilder, RigidBodyHandle, Rotation, SharedShape, Vector,
};
use sim_core::binary32::{fl, F32};
use sim_core::cave::Wave;
use sim_core::level::{Level, Vec2};
use sim_core::obstacle::RESET_X;
use sim_core::pad::{GOAL_SLOT_POS, PAD_POINTS};
use sim_core::replay::{
    spawn_keyframe, InputEvent, InputState, Keyframe, Recording, KEYFRAME_EVERY,
};
use sim_core::resim::Playback;
use sim_core::rules::{
    ruleset_number, ruleset_v1, ruleset_v2, rulesets, sim_params, SimParams, FUEL_MAX,
    FUEL_OUT_END_SECS,
};
use sim_core::run::{Motion, Park, TickReport, FOOT_X, FOOT_Y};
use sim_core::scene::window_key;
use sim_core::scenery::{Boulder, Edge};
use sim_core::sim::{ship_body, ship_capsules, Placement, Sim, SOLVER_ITERATIONS};

const DT: f32 = 1.0 / 120.0;

fn f(x: f32) -> F32 {
    F32 { bits: x.to_bits() }
}

fn g(x: F32) -> f32 {
    f32::from_bits(x.bits)
}

fn trig(w: Wave, a: F32) -> F32 {
    match w {
        Wave::Sin => f(g(a).sin()),
        Wave::Cos => f(g(a).cos()),
    }
}

fn point(p: Vec2) -> Point<f32> {
    Point::new(g(p.x), g(p.y))
}

fn vector(p: Vec2) -> Vector<f32> {
    Vector::new(g(p.x), g(p.y))
}

fn segment(e: Edge) -> Collider {
    ColliderBuilder::segment(point(e.a), point(e.b)).friction(g(e.friction)).build()
}

fn hull(b: Boulder) -> Option<(Collider, Vec<Vec2>)> {
    let pts: Vec<Point<f32>> = b.pts.iter().map(|p| point(*p)).collect();
    let collider = ColliderBuilder::convex_hull(&pts)?
        .translation(vector(b.at))
        .rotation(g(b.rot))
        .friction(g(b.friction))
        .restitution(g(b.bounce))
        .build();
    let verts = match collider.shape().as_convex_polygon() {
        Some(cp) => cp.points().iter().map(|p| Vec2 { x: f(p.x), y: f(p.y) }).collect(),
        None => b.pts,
    };
    Some((collider, verts))
}

/// A run with the real engine under it.
struct Flight {
    sim: Sim,
    pipeline: PhysicsPipeline,
    broad: DefaultBroadPhase,
    narrow: NarrowPhase,
    impulse: ImpulseJointSet,
    multibody: MultibodyJointSet,
    ccd: CCDSolver,
    params: IntegrationParameters,
    gravity: Vector<f32>,
}

impl Flight {
    fn new(level: &Level) -> Flight {
        Flight::with_rules(level, sim_params())
    }

    fn with_rules(level: &Level, rules: SimParams) -> Flight {
        let b = ship_body(level, &rules, &trig);
        let body = RigidBodyBuilder::dynamic()
            .translation(vector(b.at))
            .angular_damping(g(b.angular_damping))
            .linear_damping(g(b.linear_damping))
            .can_sleep(b.can_sleep)
            .ccd_enabled(true)
            .build();
        let parts: Vec<Collider> = ship_capsules()
            .iter()
            .map(|c| {
                ColliderBuilder::new(SharedShape::capsule(point(c.a), point(c.b), g(c.radius)))
                    .restitution(g(c.bounce))
                    .build()
            })
            .collect();
        let (sim, at) = Sim::with_rules(level.clone(), rules, body, parts, &trig, &segment, &hull);
        let gravity = Vector::new(0.0, g(sim.gravity()));
        let mut flight = Flight {
            sim,
            pipeline: PhysicsPipeline::new(),
            broad: DefaultBroadPhase::new(),
            narrow: NarrowPhase::new(),
            impulse: ImpulseJointSet::new(),
            multibody: MultibodyJointSet::new(),
            ccd: CCDSolver::new(),
            params: IntegrationParameters {
                dt: DT,
                num_solver_iterations: std::num::NonZeroUsize::new(SOLVER_ITERATIONS).unwrap(),
                ..Default::default()
            },
            gravity,
        };
        flight.place(&at);
        flight
    }

    fn ship(&self) -> RigidBodyHandle {
        let s = self.sim.scene.world.ship;
        RigidBodyHandle::from_raw_parts(s.0, s.1)
    }

    fn place(&mut self, p: &Placement) {
        let h = self.ship();
        let b = self.sim.scene.world.bodies.get_mut(h).unwrap();
        b.set_gravity_scale(1.0, true);
        b.set_translation(Vector::new(g(p.x), g(p.y)), true);
        b.set_rotation(
            Rotation::new_unchecked(rapier2d::na::Complex::new(g(p.rot_re), g(p.rot_im))),
            true,
        );
        b.set_linvel(Vector::new(g(p.vx), g(p.vy)), true);
        b.set_angvel(g(p.angvel), true);
        if !p.falls {
            b.set_gravity_scale(0.0, true);
        }
    }

    fn motion(&self) -> Motion {
        let b = &self.sim.scene.world.bodies[self.ship()];
        let (at, rot, v) = (b.translation(), b.rotation(), b.linvel());
        Motion {
            x: f(at.x),
            y: f(at.y),
            rot_re: f(rot.re),
            rot_im: f(rot.im),
            angle: f(rot.angle()),
            vx: f(v.x),
            vy: f(v.y),
            angvel: f(b.angvel()),
        }
    }

    fn restore(&mut self, kf: &Keyframe) {
        assert!(self.sim.scene.check_sync(&self.sim.level, window_key(kf.x, kf.y)));
        let at = self.sim.restore(&trig, &segment, &hull, kf);
        self.place(&at);
    }

    fn reset(&mut self, x: f32) {
        let kf = self.sim.spawn_kf(&trig, f(x));
        self.restore(&kf);
    }

    fn keyframe(&self, tick: u32, glow: F32) -> Keyframe {
        self.sim.keyframe(&self.motion(), tick, glow)
    }

    fn pose(&self) -> (f32, f32, f32) {
        let m = self.motion();
        (g(m.x), g(m.y), g(m.angle))
    }

    fn vel(&self) -> (f32, f32) {
        let m = self.motion();
        (g(m.vx), g(m.vy))
    }

    fn asleep(&self) -> bool {
        self.sim.scene.world.bodies[self.ship()].is_sleeping()
    }

    fn tick(&mut self, input: InputState) -> TickReport {
        let before = self.motion();
        assert!(self.sim.check_tick(&input, &before));
        let bearing = f((-g(input.steer_x)).atan2(-g(input.steer_y)));
        let cmd = self.sim.begin_tick(&trig, &segment, &hull, &input, &before, bearing);
        let h = self.ship();
        if let Some(c) = &cmd {
            let b = self.sim.scene.world.bodies.get_mut(h).unwrap();
            b.reset_forces(true);
            b.reset_torques(true);
            if let Some(t) = c.thrust {
                b.add_force(vector(t), true);
            }
            if let Some(p) = c.booster {
                b.add_force_at_point(vector(p.force), point(p.at), true);
            }
            if let Some(q) = c.torque {
                b.add_torque(g(q), true);
            }
        }
        let w = &mut self.sim.scene.world;
        self.pipeline.step(
            &self.gravity,
            &self.params,
            &mut w.islands,
            &mut self.broad,
            &mut self.narrow,
            &mut w.bodies,
            &mut w.colliders,
            &mut self.impulse,
            &mut self.multibody,
            &mut self.ccd,
            None,
            &(),
            &(),
        );
        let after = self.motion();
        assert!(self.sim.check_end(&after));
        let (report, park) = self.sim.end_tick(&after, &cmd);
        if park != Park::No {
            let b = self.sim.scene.world.bodies.get_mut(h).unwrap();
            if park == Park::Finish {
                b.reset_forces(true);
                b.reset_torques(true);
            }
            b.set_linvel(Vector::new(0.0, 0.0), true);
            b.set_angvel(0.0, true);
            b.set_gravity_scale(0.0, true);
        }
        report
    }

    /// Centre and top of the pad nearest to the start.
    fn home_pad(&self) -> (f32, f32) {
        let mut best: Option<(f32, f32)> = None;
        for s in &self.sim.scene.pads.slots {
            let (cx, y) = (g(s.item.cx), g(s.item.y));
            if best.map_or(true, |b| cx.abs() < b.0.abs()) {
                best = Some((cx, y));
            }
        }
        best.unwrap()
    }
}

fn controls(throttle: f32, rot: i8, steer_x: f32, steer_y: f32) -> InputState {
    InputState { throttle: f(throttle), rot, steer_x: f(steer_x), steer_y: f(steer_y) }
}

fn idle() -> InputState {
    InputState::default()
}

fn burn() -> InputState {
    controls(1.0, 0, 0.0, 0.0)
}

/// A recording that is being made.
struct Tape {
    rec: Recording,
    last: InputState,
}

impl Tape {
    fn new(rules: SimParams, level: &Level) -> Tape {
        Tape {
            rec: Recording {
                params: rules,
                level: level.to_params(),
                keyframes: Vec::new(),
                events: Vec::new(),
                ticks: 0,
            },
            last: idle(),
        }
    }

    /// Notes a tick; whether a keyframe is due.
    fn note(&mut self, input: InputState) -> bool {
        if input != self.last {
            self.rec.events.push(InputEvent { tick: self.rec.ticks, input });
            self.last = input;
        }
        self.rec.ticks += 1;
        self.rec.ticks % KEYFRAME_EVERY == 0
    }
}

fn crash_frame(sim: &Sim, report: &TickReport, tick: u32, glow: F32) -> Option<Keyframe> {
    let i = report.impact?;
    if !i.destroyed {
        return None;
    }
    Some(Keyframe {
        tick,
        x: i.x,
        y: i.y,
        rot_re: i.rot_re,
        rot_im: i.rot_im,
        vx: i.vx,
        vy: i.vy,
        angvel: i.angvel,
        fuel: sim.fuel,
        hull: sim.hull,
        glow,
        land_timer: f(0.0),
        visited: sim.visited_mask(),
        run_ticks: sim.run_ticks,
    })
}

fn script(tick: u32) -> InputState {
    match tick {
        0..=119 => burn(),
        120..=359 => idle(),
        360..=479 => burn(),
        480..=719 => controls(0.4, 0, 0.7, -0.4),
        720..=899 => controls(0.8, -1, 0.0, 0.0),
        _ => idle(),
    }
}

fn record(flight: &mut Flight, ticks: u32, script: fn(u32) -> InputState) -> Recording {
    let mut tape = Tape::new(flight.sim.rules, &flight.sim.level);
    tape.rec.keyframes.push(flight.keyframe(0, f(0.0)));
    for t in 0..ticks {
        let input = script(t);
        let report = flight.tick(input);
        let due = tape.note(input);
        if let Some(kf) = crash_frame(&flight.sim, &report, tape.rec.ticks, input.throttle) {
            tape.rec.keyframes.push(kf);
            break;
        }
        if due {
            tape.rec.keyframes.push(flight.keyframe(tape.rec.ticks, input.throttle));
        }
    }
    tape.rec
}

fn record_scripted_flight(level: &Level, ticks: u32) -> Recording {
    record(&mut Flight::new(level), ticks, script)
}

fn record_scripted_flight_with(level: &Level, ticks: u32, rules: SimParams) -> Recording {
    record(&mut Flight::with_rules(level, rules), ticks, script)
}

fn resim(rec: &Recording) -> Vec<Keyframe> {
    let mut flight = Flight::with_rules(&Level::from_params(&rec.level), rec.params);
    let first = rec.keyframes[0];
    flight.restore(&first);
    let mut out = vec![first];
    let mut play = Playback::start(first.tick);
    while play.more(rec.ticks) {
        let input = play.feed(&rec.events);
        let report = flight.tick(input);
        let after = flight.motion();
        if let Some(kf) = play.take(&flight.sim, &report, &after) {
            out.push(kf);
        }
    }
    out
}

fn assert_physics_eq(a: &Keyframe, b: &Keyframe) {
    assert_eq!(Keyframe { glow: f(0.0), ..*a }, Keyframe { glow: f(0.0), ..*b });
}

fn assert_replays(rec: &Recording) {
    let out = resim(rec);
    assert_eq!(out.len(), rec.keyframes.len());
    for (a, b) in rec.keyframes.iter().zip(out.iter()) {
        assert_physics_eq(a, b);
    }
}

#[test]
fn out_of_fuel_at_rest_ends_the_run_but_a_pad_refuels() {
    let level = Level::demo();
    let mut flight = Flight::new(&level);
    flight.restore(&spawn_keyframe(&level, &trig, fl(RESET_X)));
    flight.sim.fuel = f(0.0);
    let mut fired_at = None;
    for t in 0..(6.0 / DT) as u32 {
        if flight.tick(idle()).fuel_out {
            fired_at = Some(t);
            break;
        }
    }
    let fired_at = fired_at.expect("a dry ship must end the run");
    assert!(fired_at as f32 * DT >= g(fl(FUEL_OUT_END_SECS)) - 0.1, "fired after {fired_at}");

    let mut flight = Flight::new(&level);
    flight.sim.fuel = f(0.0);
    for _ in 0..(6.0 / DT) as u32 {
        assert!(!flight.tick(idle()).fuel_out, "a pad-parked ship must refuel, not game-over");
    }
    assert!(g(flight.sim.fuel) > 0.0, "the pad must have refueled the parked ship");
}

#[test]
fn a_recording_resims_bit_exactly_under_its_own_header_ruleset() {
    let rules = SimParams { pad_land_time: f(0.4), ..sim_params() };
    let rec = record_scripted_flight_with(&Level::demo(), 1200, rules);
    assert_replays(&rec);

    let mut flight = Flight::with_rules(&Level::demo(), rules);
    let registered = (0..120).position(|_| flight.tick(idle()).landed).expect("must register");
    let secs = (registered + 1) as f32 * DT;
    assert!(secs < 0.5, "registered after {secs} s");
}

#[test]
fn a_level_fuel_override_sets_the_spawn_fill_and_the_refuel_cap() {
    let lvl = Level::parse("fuel = 60\n");
    assert_eq!(lvl.fuel_max, f(60.0));
    assert_eq!(Level::parse("fuel = 1\n").fuel_max, f(5.0), "clamped floor");
    assert_eq!(Level::demo().fuel_max, f(0.0), "no key = inherit the ruleset");

    let mut flight = Flight::new(&lvl);
    assert_eq!(flight.sim.fuel, f(60.0), "spawn fill is the level's tank");
    assert_eq!(flight.sim.fuel_cap(), f(60.0));
    flight.sim.fuel = f(40.0);
    for _ in 0..(4.0 / DT) as u32 {
        flight.tick(idle());
    }
    assert_eq!(flight.sim.fuel, f(60.0), "refuel must cap at the level tank");
    assert_eq!(Flight::new(&Level::demo()).sim.fuel_cap(), fl(FUEL_MAX), "inherit path");

    let rec = record_scripted_flight(&lvl, 600);
    assert_eq!(rec.keyframes[0].fuel, f(60.0));
    assert_eq!(rec.level.fuel_max, f(60.0));
    assert_replays(&rec);
}

#[test]
fn the_other_level_tunables_apply_and_resim_from_the_header() {
    let lvl = Level::parse(
        "fuel = 80\nstart_fuel = 30\ngravity = 3.0\nthrust = 12\nhull = 40\nrefuel_rate = 5\n",
    );
    assert_eq!(lvl.gravity_y, f(-3.0), "file magnitude, stored signed");
    assert_eq!(lvl.thrust_force, f(12.0));
    assert_eq!(lvl.hull_max, f(40.0));
    assert_eq!(lvl.refuel_per_s, f(5.0));
    assert_eq!(lvl.start_fuel, f(30.0));
    assert_eq!(Level::parse("gravity = -100\n").gravity_y, f(-20.0), "clamped");
    assert_eq!(Level::parse("start_fuel = 500\nfuel = 50\n").start_fuel, f(500.0));
    assert_eq!(
        Flight::new(&Level::parse("start_fuel = 500\nfuel = 50\n")).sim.fuel,
        f(50.0),
        "the spawn fill never exceeds the tank"
    );

    let mut flight = Flight::new(&lvl);
    assert_eq!(flight.sim.fuel, f(30.0), "start_fuel is the spawn fill");
    assert_eq!(flight.sim.fuel_cap(), f(80.0));
    assert_eq!(flight.sim.hull, f(40.0), "hull spawns at the level's cap");
    assert_eq!(flight.sim.hull_cap(), f(40.0));
    for _ in 0..((g(flight.sim.rules.pad_land_time) + 2.0) / DT) as u32 {
        flight.tick(idle());
    }
    let fuel = g(flight.sim.fuel);
    assert!((fuel - 40.0).abs() < 0.5, "2 s at 5/s gives about 40, got {fuel}");
    let mut heavy = Flight::new(&lvl);
    let mut base = Flight::new(&Level::demo());
    for _ in 0..60 {
        heavy.tick(burn());
        base.tick(burn());
    }
    let (hy, by) = (heavy.vel().1, base.vel().1);
    assert!(hy > 0.0 && hy != by, "level thrust/gravity must change the climb ({hy} vs {by})");

    let rec = record_scripted_flight(&lvl, 900);
    assert_eq!(rec.level.gravity_y, f(-3.0));
    assert_eq!(rec.level.start_fuel, f(30.0));
    assert_replays(&rec);
}

fn parks_and_registers(rules: SimParams, dx: f32) -> bool {
    let mut flight = Flight::with_rules(&Level::demo(), rules);
    let (cx, _) = flight.home_pad();
    flight.reset(cx + dx);
    (0..(2.0 / DT) as u32).any(|_| flight.tick(idle()).landed)
}

#[test]
fn ruleset_2_needs_both_feet_on_the_deck() {
    assert!(parks_and_registers(ruleset_v1(), 2.85), "legacy rule: centre over the deck counts");
    assert!(!parks_and_registers(ruleset_v2(), 2.85), "a foot over the edge doesn't");
    assert!(parks_and_registers(ruleset_v2(), 2.5), "both feet on the deck counts");
    let mut flight = Flight::with_rules(&Level::demo(), ruleset_v2());
    let at = (0..120).position(|_| flight.tick(idle()).landed).expect("registers");
    assert!(((at + 1) as f32 * DT) < 0.5, "ruleset 2 holds for 0.4 s");
}

/// At rest on one foot at the given tilt, the low foot on the home pad.
fn one_foot_pose(flight: &Flight, a: f32) -> Keyframe {
    let (cx, pad_y) = flight.home_pad();
    let (fx, fy) = (g(fl(FOOT_X)), g(fl(FOOT_Y)));
    let y = pad_y - (-fx * a.sin() + fy * a.cos());
    Keyframe {
        tick: 0,
        x: f(cx),
        y: f(y),
        rot_re: f(a.cos()),
        rot_im: f(a.sin()),
        vx: f(0.0),
        vy: f(0.0),
        angvel: f(0.0),
        fuel: f(100.0),
        hull: f(100.0),
        glow: f(0.0),
        land_timer: f(0.0),
        visited: 0,
        run_ticks: 0,
    }
}

#[test]
fn ruleset_2_does_not_start_the_timer_on_one_foot() {
    let mut flight = Flight::with_rules(&Level::demo(), ruleset_v2());
    let kf = one_foot_pose(&flight, 0.2);
    let (_, pad_y) = flight.home_pad();
    flight.restore(&kf);
    let (fx, fy) = (g(fl(FOOT_X)), g(fl(FOOT_Y)));
    for _ in 0..30 {
        flight.tick(idle());
        let (_, y, ang) = flight.pose();
        let raised = y + fx * ang.sin() + fy * ang.cos() - pad_y;
        assert!(raised > 0.1, "the probe must still be on one foot ({raised} m)");
        assert_eq!(flight.sim.land_progress(), f(0.0), "a foot in the air must not start the hold");
    }
    let mut legacy = Flight::with_rules(&Level::demo(), ruleset_v1());
    legacy.restore(&kf);
    legacy.tick(idle());
    assert!(g(legacy.sim.land_progress()) > 0.0, "the legacy rule tolerates a raised foot");
}

#[test]
fn the_registry_ships_two_rulesets_and_live_play_flies_the_newest() {
    assert_eq!(rulesets().len(), 2);
    assert_eq!(ruleset_number(&ruleset_v1()), Some(1));
    assert_eq!(ruleset_number(&ruleset_v2()), Some(2));
    assert_eq!(ruleset_number(&SimParams { dt: f(0.5), ..ruleset_v2() }), None);
    assert_eq!(sim_params(), ruleset_v2());
    assert_eq!(ruleset_v2().min_logic, 2, "a new predicate bumps the logic floor");
    assert_eq!(ruleset_v1().min_logic, 1, "the baseline stays replayable by logic-1 clients");
    let rec = record_scripted_flight(&Level::demo(), 900);
    assert_eq!(rec.params.min_logic, 2);
    assert_replays(&rec);
}

#[test]
fn a_flight_under_the_first_ruleset_still_replays() {
    let rec1 = record_scripted_flight_with(&Level::demo(), 900, ruleset_v1());
    assert_eq!(ruleset_number(&rec1.params), Some(1));
    assert_replays(&rec1);
}

#[test]
fn land_progress_tracks_the_settle_timer_and_caps_at_one() {
    let mut flight = Flight::new(&Level::demo());
    assert_eq!(flight.sim.land_progress(), f(0.0), "fresh sim must start at zero");
    let mut prev = 0.0f32;
    let mut registered_at = None;
    for t in 0..(2.0 / DT) as u32 {
        let rep = flight.tick(idle());
        let p = g(flight.sim.land_progress());
        assert!(p >= prev, "progress must never move backwards while settled");
        assert!(p <= 1.0, "progress must cap at 1.0");
        if rep.landed && registered_at.is_none() {
            registered_at = Some(t);
            assert_eq!(p, 1.0, "the visit registers exactly at full progress");
        }
        prev = p;
    }
    assert!(registered_at.is_some(), "a parked ship must register the visit");
    assert_eq!(flight.sim.land_progress(), f(1.0), "still parked: the cap holds");

    let mut flight = Flight::new(&Level::demo());
    for _ in 0..((g(flight.sim.rules.pad_land_time) * 0.6) / DT) as u32 {
        flight.tick(idle());
    }
    let mid = g(flight.sim.land_progress());
    assert!(mid > 0.3 && mid < 1.0, "mid-settle progress expected, got {mid}");
    for _ in 0..60 {
        flight.tick(burn());
    }
    assert_eq!(flight.sim.land_progress(), f(0.0), "lift-off must reset the settle progress");
}

fn hop(t: u32) -> InputState {
    match t {
        240..=299 => controls(0.5, 0, 0.0, 0.0),
        _ => idle(),
    }
}

#[test]
fn fresh_sim_per_run_with_pad_contact_resims_exactly() {
    let mut prior = Flight::new(&Level::demo());
    for _ in 0..120 {
        prior.tick(controls(1.0, 1, 0.0, 0.0));
        if prior.sim.crashed {
            break;
        }
    }
    drop(prior);
    let mut flight = Flight::new(&Level::demo());
    let rec = record(&mut flight, 8 * KEYFRAME_EVERY, hop);
    let resimmed = resim(&rec);
    let mut max_drift = 0.0f32;
    for (a, b) in rec.keyframes.iter().zip(&resimmed) {
        let d = ((g(a.x) - g(b.x)).powi(2) + (g(a.y) - g(b.y)).powi(2)).sqrt();
        if d > max_drift {
            max_drift = d;
        }
    }
    assert!(max_drift < 1e-6, "fresh-sim run vs resim diverges: max {max_drift} m");
}

#[test]
fn resim_reproduces_a_scripted_flight_bit_exactly() {
    let rec = record_scripted_flight(&Level::demo(), 12 * KEYFRAME_EVERY);
    assert!(rec.keyframes.len() >= 3, "flight too short to be a meaningful test");
    assert_replays(&rec);
}

#[test]
fn resim_reproduces_on_a_custom_level_bit_exactly() {
    let level = Level::parse(
        "name = T\nscoring = distance\nshafts = off\nobstacles = on\npad_spacing = 90\nseed = 3",
    );
    let rec = record_scripted_flight(&level, 12 * KEYFRAME_EVERY);
    assert!(rec.keyframes.len() >= 3, "flight too short to be a meaningful test");
    assert_replays(&rec);
}

fn endless_level() -> Level {
    Level::parse(
        "name = E\nscoring = distance\nshafts = off\nobstacles = on\nendless = on\nseed = 20260717",
    )
}

/// How long the scripted flight on the endless level may last, and does.
const ENDLESS_TICKS: u32 = 12 * KEYFRAME_EVERY;
const ENDLESS_CRASH: u32 = 917;

/// The keyframes of that flight after the first, in bits: tick, then place,
/// heading, velocity and spin, fuel, hull and glow.
const ENDLESS_FRAMES: [(u32, [u32; 10]); 8] = [
    (
        120,
        [
            0x00000000, 0x40491973, 0x3f800000, 0x00000000, 0x00000000, 0x411b5b66, 0x00000000,
            0x42c0fff8, 0x42c80000, 0x3f800000,
        ],
    ),
    (
        240,
        [
            0x00000000, 0x413308ea, 0x3f800000, 0x00000000, 0x00000000, 0x40cf7d88, 0x00000000,
            0x42c0fff8, 0x42c80000, 0x00000000,
        ],
    ),
    (
        360,
        [
            0x00000000, 0x41827d8e, 0x3f800000, 0x00000000, 0x00000000, 0x4075ea0e, 0x00000000,
            0x42c0fff8, 0x42c80000, 0x00000000,
        ],
    ),
    (
        480,
        [
            0x00000000, 0x41829c0c, 0x3f800000, 0x00000000, 0x00000000, 0x00000000, 0x00000000,
            0x42b9fff0, 0x42405567, 0x3f800000,
        ],
    ),
    (
        600,
        [
            0x3f9d9d3e, 0x4184dcce, 0x3ef92dcc, 0xbf5fa30c, 0x403ea145, 0x3de31cc9, 0x3d149518,
            0x42b6ca93, 0x42405567, 0x3ecccccd,
        ],
    ),
    (
        720,
        [
            0x40bcaf12, 0x4186a210, 0x3efdf240, 0xbf5e4acd, 0x40c872e8, 0x3efceac1, 0x3b14c657,
            0x42b3f6ce, 0x42405567, 0x3ecccccd,
        ],
    ),
    (
        840,
        [
            0x4190a1ec, 0x4189b8ef, 0xbf5fb0cb, 0xbef8fc6e, 0x4188c4b1, 0xc04d9542, 0xc01d1c45,
            0x42abf6d6, 0x42405567, 0x3f4ccccd,
        ],
    ),
    (
        917,
        [
            0x41e242f2, 0x41471677, 0xbe90bd10, 0x3f758ed3, 0x40234ea0, 0x4042d978, 0xc1777fa1,
            0x42a7f6da, 0x00000000, 0x00000000,
        ],
    ),
];

/// That flight as a recording: its first keyframe, the frames, the inputs.
fn endless_recording(level: &Level) -> Recording {
    let mut tape = Tape::new(sim_params(), level);
    for t in 0..ENDLESS_CRASH {
        tape.note(script(t));
    }
    tape.rec.keyframes.push(Flight::new(level).keyframe(0, f(0.0)));
    for (tick, b) in ENDLESS_FRAMES {
        tape.rec.keyframes.push(Keyframe {
            tick,
            x: fl(b[0]),
            y: fl(b[1]),
            rot_re: fl(b[2]),
            rot_im: fl(b[3]),
            vx: fl(b[4]),
            vy: fl(b[5]),
            angvel: fl(b[6]),
            fuel: fl(b[7]),
            hull: fl(b[8]),
            glow: fl(b[9]),
            land_timer: fl(0),
            visited: 0,
            run_ticks: tick,
        });
    }
    tape.rec
}

#[test]
fn a_flight_on_an_endless_level_is_recorded_like_this() {
    let level = endless_level();
    let live = record_scripted_flight(&level, ENDLESS_TICKS);
    let stored = endless_recording(&level);
    assert_eq!(live.keyframes, stored.keyframes);
    assert_eq!(live.events, stored.events);
    assert_eq!(live.ticks, stored.ticks);
}

#[test]
fn resim_reproduces_on_an_endless_level_bit_exactly() {
    let level = endless_level();
    assert!(level.endless);
    let rec = endless_recording(&level);
    assert!(rec.keyframes.len() >= 3, "flight too short to be a meaningful test");
    assert_replays(&rec);
}

#[test]
fn the_time_limit_ends_the_run_parked_with_the_distance_frozen() {
    let level = Level::parse(
        "name = S\nscoring = distance\nshafts = off\nobstacles = off\n\
         endless = on\nseed = 42\ntime_limit = 5",
    );
    assert_eq!(level.time_limit_ticks, 600);
    let mut flight = Flight::new(&level);
    let mut completed_at = None;
    for t in 0..900 {
        let input = if (540..600).contains(&t) { controls(0.5, 0, 0.0, 0.0) } else { idle() };
        if flight.tick(input).completed {
            assert!(completed_at.is_none(), "completed must fire exactly once");
            completed_at = Some(t);
        }
    }
    assert_eq!(completed_at, Some(599), "the 600th tick is the finish");
    assert!(flight.sim.completed && !flight.sim.crashed);
    assert_eq!(flight.sim.run_ticks, 600, "run clock frozen at the limit");
    let dist = flight.sim.max_dist;
    let (_, y0, _) = flight.pose();
    let fuel = flight.sim.fuel;
    for _ in 0..240 {
        flight.tick(controls(1.0, 1, 0.0, 0.0));
    }
    let (_, y1, _) = flight.pose();
    assert_eq!(flight.sim.max_dist, dist, "distance must freeze at the horn");
    assert_eq!(flight.sim.fuel, fuel, "a dead engine must not burn fuel");
    assert!((y1 - y0).abs() < 1e-6, "the finish park must hold: y moved {}", y1 - y0);
    assert!(!flight.sim.crashed, "a parked finish must never turn into a crash");
    let kf2 = flight.keyframe(840, f(0.0));
    assert_eq!(kf2.run_ticks, 600);
    let mut second = Flight::new(&level);
    second.restore(&kf2);
    assert!(second.sim.completed, "a restore at the limit lands completed");
    for _ in 0..120 {
        second.tick(idle());
    }
    let (_, y2, _) = second.pose();
    assert!((y2 - y1).abs() < 1e-6, "restored finish must stay parked");
}

#[test]
fn resim_reproduces_on_a_time_limited_level_bit_exactly() {
    let level = Level::parse(
        "name = S\nscoring = distance\nshafts = off\nobstacles = on\n\
         endless = on\nseed = 7\ntime_limit = 6",
    );
    assert_eq!(level.time_limit_ticks, 720);
    let mut flight = Flight::with_rules(&level, ruleset_v1());
    let rec = record(&mut flight, 8 * KEYFRAME_EVERY, hop);
    assert!(flight.sim.completed && !flight.sim.crashed, "the horn must have fired");
    assert!(rec.keyframes.last().unwrap().run_ticks == 720);
    assert_replays(&rec);
}

#[test]
fn landing_on_the_finish_pad_completes_a_goal_time_trial() {
    let level = Level::parse(
        "name = D\nscoring = time\nshafts = off\nobstacles = on\n\
         endless = on\nseed = 9\ngoal_distance = 100",
    );
    assert_eq!(level.goal_distance, f(100.0));
    let mut flight = Flight::new(&level);
    flight.restore(&spawn_keyframe(&level, &trig, f(100.0)));
    let mut completed_at = None;
    for t in 0..600 {
        if flight.tick(idle()).completed {
            completed_at = Some(t);
            break;
        }
    }
    let at = completed_at.expect("settling on the finish pad must end the run");
    assert!(flight.sim.completed && !flight.sim.crashed);
    assert!(
        at as f32 * DT >= g(flight.sim.rules.pad_land_time) - 0.1,
        "landing registered before the settle time: tick {at}"
    );
    assert_eq!(flight.sim.visited_mask(), 1, "the +x finish is mask bit 0");
    let final_ticks = flight.sim.run_ticks;
    for _ in 0..120 {
        assert!(!flight.tick(burn()).completed, "completed must fire exactly once");
    }
    assert_eq!(flight.sim.run_ticks, final_ticks, "run clock must stay frozen");
    let kf2 = flight.keyframe(final_ticks + 120, f(0.0));
    assert_eq!(kf2.visited, 1);
    let mut second = Flight::new(&level);
    second.restore(&kf2);
    assert!(second.sim.completed, "a restored finish keyframe lands completed");
    assert!(second.sim.visited_pads.iter().any(|&(s, _)| s == GOAL_SLOT_POS));
}

#[test]
fn resim_reproduces_on_a_goal_level_bit_exactly() {
    let level = Level::parse(
        "name = D\nscoring = time\nshafts = off\nobstacles = on\n\
         endless = on\nseed = 9\ngoal_distance = 100",
    );
    let mut flight = Flight::with_rules(&level, ruleset_v1());
    flight.restore(&spawn_keyframe(&level, &trig, f(100.0)));
    let rec = record(&mut flight, 4 * KEYFRAME_EVERY, |_| idle());
    assert!(flight.sim.completed, "the finish landing must have ended the run");
    assert_eq!(rec.keyframes.last().unwrap().visited, 1);
    assert_replays(&rec);
}

#[test]
fn spawn_has_ground_under_the_ship() {
    let mut flight = Flight::new(&Level::demo());
    for _ in 0..240 {
        flight.tick(idle());
    }
    let (_, y, _) = flight.pose();
    let (_, vy) = flight.vel();
    let stand = g(Level::demo().stand_y(&trig, f(0.0)));
    assert!((y - stand).abs() < 0.5, "ship sank or bounced: y={y}");
    assert!(vy.abs() < 0.2, "ship still moving vertically: vy={vy}");
    assert!(!flight.sim.crashed);
}

#[test]
fn empty_tank_kills_thrust_and_rcs() {
    let lvl = Level::demo();
    let mut flight = Flight::new(&lvl);
    let mut kf = spawn_keyframe(&lvl, &trig, f(30.0));
    kf.y = lvl.cave_center(&trig, f(30.0));
    kf.fuel = f(0.05);
    flight.restore(&kf);
    for _ in 0..120 {
        flight.tick(controls(1.0, 1, 0.0, 0.0));
    }
    assert_eq!(flight.sim.fuel, f(0.0));
    let (_, vy) = flight.vel();
    assert!(vy < 0.0, "ship not falling on an empty tank: vy={vy}");
}

#[test]
fn parked_on_spawn_pad_scores_and_refuels() {
    let mut flight = Flight::new(&Level::demo());
    flight.sim.fuel = f(50.0);
    let mut scored = false;
    let mut landed = false;
    for _ in 0..(2.0 / DT) as u32 {
        let rep = flight.tick(idle());
        scored |= rep.scored;
        landed |= rep.landed;
    }
    assert!(scored, "first visit never scored");
    assert!(landed, "never registered as landed");
    assert_eq!(flight.sim.score, PAD_POINTS);
    assert!(g(flight.sim.fuel) > 50.0, "no refuel happened");
}

#[test]
fn ruleset_2_ship_never_sleeps_so_gravity_finishes_a_crooked_touchdown() {
    let mut legacy = Flight::with_rules(&Level::demo(), ruleset_v1());
    let kf = one_foot_pose(&legacy, 0.4);
    legacy.restore(&kf);
    for _ in 0..480 {
        legacy.tick(idle());
    }
    assert!(legacy.asleep(), "ruleset 1 keeps the legacy sleep");
    assert!(legacy.pose().2 > 0.15, "frozen mid-rock: {}", legacy.pose().2);

    let mut flight = Flight::with_rules(&Level::demo(), ruleset_v2());
    flight.restore(&kf);
    let mut landed = false;
    for _ in 0..720 {
        landed |= flight.tick(idle()).landed;
        assert!(!flight.asleep(), "ruleset 2 never sleeps");
    }
    assert!(flight.pose().2.abs() < 0.02, "levelled by gravity alone: {}", flight.pose().2);
    assert!(landed, "the settled ship's landing registers");
}

const DRAWN: &str = "name = Box\nscoring = time\n\
    poly = -60,-10 60,-10 60,-4 -60,-4\n\
    poly = -60,30 60,30 60,36 -60,36\n\
    poly = -66,-10 -60,-10 -60,36 -66,36\n\
    poly = 60,-10 66,-10 66,36 60,36\n\
    start = 0,-2\npad = -20,-3\npad = 20,-3\n";

#[test]
fn a_drawn_world_is_neutral_at_its_start_and_complete_with_its_last_pad() {
    let level = Level::parse(DRAWN);
    let pads: Vec<Vec2> = level.terrain.as_ref().unwrap().pads.clone();
    assert_eq!(pads.len(), 2);
    let mut flight = Flight::new(&level);
    assert_eq!(flight.sim.scene.pads.slots.len(), 2);
    assert_eq!(flight.sim.scene.cave.slots.len(), 0);
    flight.sim.fuel = f(50.0);
    for _ in 0..(2.0 / DT) as u32 {
        let rep = flight.tick(idle());
        assert!(!rep.scored && !rep.landed, "the start platform must be neutral");
    }
    let (_, y, _) = flight.pose();
    assert!((y - g(level.stand_y(&trig, f(0.0)))).abs() < 0.5, "ship sank or bounced: y={y}");
    assert!(flight.sim.visited_pads.is_empty());
    assert_eq!(flight.sim.fuel, f(50.0), "the start platform must not refuel");

    for (i, pad) in pads.iter().enumerate() {
        let mut flight = Flight::new(&level);
        let mut kf = spawn_keyframe(&level, &trig, f(0.0));
        kf.x = pad.x;
        kf.y = f(g(pad.y) + 0.78);
        kf.visited = 3 & !(1 << i);
        flight.restore(&kf);
        assert_eq!(flight.sim.visited_pads.len(), 1, "mask restore seeded the visits");
        assert!(!flight.sim.completed);
        let mut completed_at = None;
        for t in 0..(3.0 / DT) as u32 {
            if flight.tick(idle()).completed {
                completed_at = Some(t);
                break;
            }
        }
        let at = completed_at.expect("the last pad visit must complete the run");
        let final_ticks = flight.sim.run_ticks;
        assert_eq!(final_ticks, at + 1);
        let fuel_before = g(flight.sim.fuel);
        for _ in 0..120 {
            assert!(!flight.tick(burn()).completed, "completed must fire exactly once");
        }
        assert_eq!(flight.sim.run_ticks, final_ticks, "run clock must stay frozen");
        assert!(g(flight.sim.fuel) >= fuel_before, "a dead engine must not burn fuel");
        let kf2 = flight.keyframe(final_ticks + 120, f(0.0));
        assert_eq!(kf2.visited, 3);
        assert_eq!(kf2.run_ticks, final_ticks);
        let mut third = Flight::new(&level);
        third.restore(&kf2);
        assert!(third.sim.completed);
    }
}

#[test]
fn a_drawn_world_replays_bit_exactly() {
    let level = Level::parse(DRAWN);
    let rec = record_scripted_flight(&level, 12 * KEYFRAME_EVERY);
    assert!(rec.keyframes.len() >= 3);
    assert_replays(&rec);
}

#[test]
fn the_windows_follow_the_ship_and_leave_nothing_behind() {
    let level = Level::demo();
    let mut flight = Flight::new(&level);
    for step in 0..40 {
        let x = step as f32 * 37.0 - 700.0;
        flight.reset(x);
        let s = &flight.sim.scene;
        let at = s.synced_at.unwrap();
        assert_eq!(s.cave.slots.len(), 3 * 161);
        assert_eq!(s.cave.slots[0].key, (at.1 - 1, at.0 - 80));
        let mut held: Vec<(u32, u32)> = Vec::new();
        for e in &s.cave.slots {
            held.extend(e.handles.iter());
        }
        for e in &s.shafts.slots {
            held.extend(e.handles.iter());
        }
        for e in &s.obstacles.slots {
            assert_eq!(e.handles.len(), 1);
            assert!(e.item.verts.len() >= 3);
            held.extend(e.handles.iter());
        }
        for e in &s.pads.slots {
            assert_eq!(e.handles.len(), 1);
            held.extend(e.handles.iter());
        }
        let n = held.len();
        held.sort();
        held.dedup();
        assert_eq!(held.len(), n, "no collider belongs to two slots");
        // The ship itself has three.
        assert_eq!(s.world.colliders.len(), n + 3, "no collider is left over");
        for h in &held {
            let handle = rapier2d::prelude::ColliderHandle::from_raw_parts(h.0, h.1);
            assert!(s.world.colliders.get(handle).is_some());
        }
    }
    assert!(flight.sim.scene.world.removed > 0);
}

#[test]
fn a_keyframe_right_after_a_restore_is_the_restored_one() {
    let level = Level::parse("scoring = time\nendless = on\nseed = 9\ngoal_distance = 100");
    let mut flight = Flight::new(&level);
    let kf = Keyframe {
        tick: 77,
        rot_re: f(0.6),
        rot_im: f(0.8),
        vx: f(1.25),
        vy: f(-0.5),
        angvel: f(0.1),
        fuel: f(12.5),
        hull: f(33.0),
        glow: f(0.5),
        land_timer: f(0.25),
        visited: 2,
        run_ticks: 70,
        ..spawn_keyframe(&level, &trig, f(40.0))
    };
    flight.restore(&kf);
    assert_eq!(flight.keyframe(77, f(0.5)), kf);
}
