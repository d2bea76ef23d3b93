use rapier2d::prelude::{Collider, ColliderBuilder, Point, RigidBodyBuilder};
use sim_core::binary32::{fl, F32};
use sim_core::cave::Wave;
use sim_core::level::{Level, Vec2};
use sim_core::pad::{GOAL_SLOT_NEG, GOAL_SLOT_POS};
use sim_core::parse::PHYSICS_DT;
use sim_core::replay::{spawn_keyframe, InputEvent, InputState, Keyframe, KEYFRAME_EVERY};
use sim_core::resim::Playback;
use sim_core::rules::{ruleset_v1, ruleset_v2, SimParams};
use sim_core::run::{Motion, Park, TickReport};
use sim_core::scene::{check_key, window_key};
use sim_core::scenery::{Boulder, Edge};
use sim_core::sim::{ship_body, ship_capsules, Sim};
use sim_core::visits::{count, from_mask, has_finish, is_visited, set_finish, to_mask, visit};
use std::collections::BTreeSet;

fn f(x: f32) -> F32 {
    F32 { bits: x.to_bits() }
}

fn g(x: F32) -> f32 {
    f32::from_bits(x.bits)
}

fn dt() -> f32 {
    g(fl(PHYSICS_DT))
}

fn trig(w: Wave, a: F32) -> F32 {
    match w {
        Wave::Sin => f(g(a).sin()),
        Wave::Cos => f(g(a).cos()),
    }
}

fn segment(e: Edge) -> Collider {
    ColliderBuilder::segment(
        Point::new(g(e.a.x), g(e.a.y)),
        Point::new(g(e.b.x), g(e.b.y)),
    )
    .build()
}

fn hull(b: Boulder) -> Option<(Collider, Vec<Vec2>)> {
    Some((ColliderBuilder::ball(1.0).build(), b.pts))
}

fn sim_with(text: &str, rules: SimParams) -> Sim {
    let body = RigidBodyBuilder::dynamic().build();
    Sim::with_rules(Level::parse(text), rules, body, Vec::new(), &trig, &segment, &hull).0
}

fn sim(text: &str) -> Sim {
    sim_with(text, ruleset_v2())
}

fn at(x: f32, y: f32) -> Motion {
    Motion {
        x: f(x),
        y: f(y),
        rot_re: f(1.0),
        rot_im: f(0.0),
        angle: f(0.0),
        vx: f(0.0),
        vy: f(0.0),
        angvel: f(0.0),
    }
}

fn controls(throttle: f32, rot: i8, steer_x: f32, steer_y: f32) -> InputState {
    InputState { throttle: f(throttle), rot, steer_x: f(steer_x), steer_y: f(steer_y) }
}

fn begin(s: &mut Sim, input: InputState, m: &Motion, bearing: f32) -> Option<sim_core::run::Command> {
    assert!(s.check_tick(&input, m));
    s.begin_tick(&trig, &segment, &hull, &input, m, f(bearing))
}

fn tick(s: &mut Sim, input: InputState, before: &Motion, after: &Motion) -> (TickReport, Park) {
    let c = begin(s, input, before, 0.0);
    assert!(s.check_score());
    s.end_tick(after, &c)
}

/// On the home pad, at rest and upright.
fn home(s: &Sim) -> Motion {
    let mut best = s.scene.pads.slots[0].item;
    for p in &s.scene.pads.slots {
        if g(p.item.cx).abs() < g(best.cx).abs() && p.key.1 == 0 {
            best = p.item;
        }
    }
    at(g(best.cx), g(best.y) + 0.73)
}

/// Away from every pad.
fn aloft() -> Motion {
    at(30.0, 3.0)
}

#[test]
fn a_new_run_stands_at_its_spawn() {
    let l = Level::demo();
    let s = sim("");
    assert_eq!(s.fuel, f(100.0));
    assert_eq!(s.hull, f(100.0));
    assert_eq!((s.score, s.run_ticks), (0, 0));
    assert!(!s.crashed && !s.completed);
    assert_eq!(s.gravity(), f(-1.62));
    assert_eq!(sim("gravity = 3").gravity(), f(-3.0));
    assert_eq!(s.scene.synced_at, Some(window_key(f(0.0), l.stand_y(&trig, f(0.0)))));
    let body = RigidBodyBuilder::dynamic().build();
    let (s, p) = Sim::new(l.clone(), body, Vec::new(), &trig, &segment, &hull);
    assert_eq!(s.rules, ruleset_v2());
    assert_eq!((p.x, p.y), (f(0.0), l.stand_y(&trig, f(0.0))));
    assert_eq!((p.rot_re, p.rot_im, p.falls), (f(1.0), f(0.0), true));
    let kf = spawn_keyframe(&l, &trig, f(5.0));
    assert_eq!((kf.x, kf.y, kf.fuel), (f(5.0), l.stand_y(&trig, f(5.0)), f(100.0)));
    let b = ship_body(&l, &ruleset_v1(), &trig);
    assert!(b.can_sleep && !ship_body(&l, &ruleset_v2(), &trig).can_sleep);
    assert_eq!(b.at, Vec2 { x: f(0.0), y: l.stand_y(&trig, f(0.0)) });
    assert_eq!((b.angular_damping, b.linear_damping), (f(3.0), f(0.2)));
    let parts = ship_capsules();
    assert_eq!(parts.len(), 3);
    assert_eq!(parts[0].radius, f(0.26));
    assert_eq!(parts[0].a, Vec2 { x: f(0.0), y: f(0.42) });
    assert_eq!(parts[1].a, Vec2 { x: f(-0.26), y: f(-0.30) });
    assert_eq!(parts[1].b, Vec2 { x: f(-0.33), y: f(-0.64) });
    assert_eq!(parts[2].b, Vec2 { x: f(0.33), y: f(-0.64) });
    assert!(parts.iter().all(|c| c.bounce == f(0.2)));
}

#[test]
fn thrust_points_along_the_nose_and_burns_fuel() {
    let mut s = sim("");
    let mut m = aloft();
    m.angle = f(0.3);
    let c = begin(&mut s, controls(0.5, 0, 0.0, 0.0), &m, 0.0).unwrap();
    let force = 8.0f32 * 0.5;
    let a = 0.3f32;
    assert_eq!(c.thrust, Some(Vec2 { x: f(-a.sin() * force), y: f(a.cos() * force) }));
    assert_eq!((c.booster, c.torque), (None, None));
    assert_eq!(s.fuel, f((100.0 - 3.5 * 0.5 * dt()).max(0.0)));
    assert_eq!(s.run_ticks, 1);
    let mut s = sim("thrust = 12");
    let c = begin(&mut s, controls(1.0, 0, 0.0, 0.0), &aloft(), 0.0).unwrap();
    assert_eq!(c.thrust, Some(Vec2 { x: f(-0.0f32.sin() * 12.0), y: f(12.0) }));
}

#[test]
fn a_booster_pushes_at_its_nozzle() {
    for (rot, side) in [(1i8, 1.0f32), (-1, -1.0), (100, 1.0), (-128, -1.0)] {
        let mut s = sim("");
        let mut m = aloft();
        m.angle = f(-0.7);
        let a = -0.7f32;
        let c = begin(&mut s, controls(0.0, rot, 0.9, 0.1), &m, 1.0).unwrap();
        let (lx, ly) = (0.30 * side, -0.71);
        let px = 30.0 + lx * a.cos() - ly * a.sin();
        let py = 3.0 + lx * a.sin() + ly * a.cos();
        let push = c.booster.unwrap();
        assert_eq!(push.at, Vec2 { x: f(px), y: f(py) });
        assert_eq!(push.force, Vec2 { x: f(-3.3 * a.sin()), y: f(3.3 * a.cos()) });
        assert_eq!((c.thrust, c.torque), (None, None), "held boosters win over the stick");
        assert_eq!(s.fuel, f(100.0 - 1.2 * dt()));
    }
}

#[test]
fn steering_turns_the_short_way_and_no_harder_than_it_may() {
    let tau = std::f32::consts::TAU;
    for (bearing, angle, angvel) in [(0.4f32, 0.1f32, 0.2f32), (3.0, -3.0, 0.0), (-3.0, 3.0, 1.0)] {
        let mut s = sim("");
        let mut m = aloft();
        m.angle = f(angle);
        m.angvel = f(angvel);
        let input = controls(0.0, 0, 0.3, -0.4);
        let c = begin(&mut s, input, &m, bearing).unwrap();
        let mut err = bearing - angle;
        if err > std::f32::consts::PI {
            err -= tau;
        }
        if err < -std::f32::consts::PI {
            err += tau;
        }
        let mag = (0.3f32 * 0.3 + -0.4f32 * -0.4).sqrt().min(1.0);
        let torque = (err * 14.0 - angvel * 2.2).clamp(-6.0, 6.0) * mag;
        assert_eq!(c.torque, Some(f(torque)));
        assert_eq!(s.fuel, f(100.0 - 1.2 * (torque.abs() / 6.0) * dt()));
        let (report, park) = s.end_tick(&m, &Some(c));
        assert_eq!(report.heading_torque, f(torque));
        assert_eq!(park, Park::No);
    }
}

#[test]
fn an_empty_tank_does_nothing() {
    let mut s = sim("");
    s.fuel = f(0.0);
    let c = begin(&mut s, controls(1.0, 1, 1.0, 1.0), &aloft(), 0.5).unwrap();
    assert_eq!((c.thrust, c.booster, c.torque), (None, None, None));
    assert_eq!(s.fuel, f(0.0));
    s.fuel = f(0.001);
    begin(&mut s, controls(1.0, 1, 0.0, 0.0), &aloft(), 0.5);
    assert_eq!(s.fuel, f(0.0), "never below nothing");
}

#[test]
fn impacts_are_graded_by_the_jump_in_velocity() {
    let mut s = sim("");
    let mut m = aloft();
    m.vx = f(1.5);
    m.vy = f(-2.0);
    let (r, _) = tick(&mut s, controls(0.0, 0, 0.0, 0.0), &aloft(), &m);
    assert_eq!(r.impact, None, "2.5 is not more than 2.5");
    assert_eq!(s.prev_vel, (f(1.5), f(-2.0)));

    let mut s = sim("hull = 40");
    m.vx = f(3.0);
    m.vy = f(0.0);
    let (r, park) = tick(&mut s, controls(0.0, 0, 0.0, 0.0), &aloft(), &m);
    let hit = r.impact.unwrap();
    let damage = (3.0f32 - 2.5) / (6.0 - 2.5) * 40.0;
    assert_eq!((hit.dv, hit.damage, hit.destroyed), (f(3.0), f(damage), false));
    assert_eq!(s.hull, f(40.0 - damage));
    assert_eq!(park, Park::No);

    let mut s = sim("");
    m.vx = f(6.5);
    let (r, park) = tick(&mut s, controls(0.0, 0, 0.0, 0.0), &aloft(), &m);
    assert!(r.impact.unwrap().destroyed && s.crashed);
    assert_eq!((s.hull, park), (f(0.0), Park::Wreck));
    assert_eq!(s.prev_vel, (f(6.5), f(0.0)));
    // A wreck does nothing any more.
    let ticks = s.run_ticks;
    let far = at(90.0, 0.0);
    assert!(begin(&mut s, controls(1.0, 1, 0.0, 0.0), &m, 0.0).is_none());
    let (r, park) = s.end_tick(&far, &None);
    assert_eq!(r.impact, None);
    assert_eq!((s.run_ticks, park, s.fuel), (ticks, Park::No, f(100.0)));
    assert_eq!(s.max_dist, f(30.0));

    let mut s = sim("");
    s.hull = f(5.0);
    m.vx = f(3.0);
    let (r, _) = tick(&mut s, controls(0.0, 0, 0.0, 0.0), &aloft(), &m);
    assert!(r.impact.unwrap().destroyed, "a weak hull goes at less");
}

#[test]
fn a_landing_holds_scores_once_and_refuels() {
    let mut s = sim("");
    let m = home(&s);
    s.fuel = f(50.0);
    s.hull = f(99.95);
    let idle = controls(0.0, 0, 0.0, 0.0);
    let mut timer = 0.0f32;
    let mut first = None;
    for t in 0..60 {
        let (r, _) = tick(&mut s, idle, &m, &m);
        timer += dt();
        assert_eq!(s.land_timer, f(timer));
        assert_eq!(r.landed, timer >= 0.4);
        assert_eq!(s.land_progress(), f((timer / 0.4f32).min(1.0)));
        if r.scored {
            assert!(first.is_none() && r.landed);
            first = Some(t);
            assert_eq!(s.fuel, f(50.0 + 25.0 * dt()));
        }
    }
    assert!(first.is_some());
    assert_eq!(s.score, 100);
    assert_eq!(s.hull, f(100.0), "repaired, and no further");
    assert_eq!(s.visited_pads.len(), 1);
    // Leaving starts over.
    tick(&mut s, idle, &m, &aloft());
    assert_eq!(s.land_timer, f(0.0));
    // Distance levels count visits but pay nothing.
    let mut s = sim("scoring = distance");
    let m = home(&s);
    for _ in 0..60 {
        assert!(!tick(&mut s, idle, &m, &m).0.scored);
    }
    assert_eq!((s.score, s.visited_pads.len()), (0, 1));
}

#[test]
fn settling_asks_for_rest_and_for_feet_on_the_deck() {
    let idle = controls(0.0, 0, 0.0, 0.0);
    let settles = |rules: SimParams, change: fn(&mut Motion)| {
        let mut s = sim_with("", rules);
        let mut m = home(&s);
        change(&mut m);
        s.prev_vel = (m.vx, m.vy);
        tick(&mut s, idle, &m, &m);
        s.land_timer != f(0.0)
    };
    let (v1, v2) = (ruleset_v1(), ruleset_v2());
    for rules in [v1, v2] {
        assert!(settles(rules, |_| {}));
        assert!(settles(rules, |m| m.vx = f(0.99)));
        assert!(!settles(rules, |m| m.vx = f(1.0)));
        assert!(!settles(rules, |m| m.vy = f(-1.0)));
        assert!(!settles(rules, |m| m.angvel = f(0.5)));
        assert!(!settles(rules, |m| m.y = f(g(m.y) + 0.35)));
        assert!(!settles(rules, |m| m.x = f(g(m.x) + 3.1)));
    }
    // The centre over the deck, one foot beside it.
    assert!(settles(v1, |m| m.x = f(g(m.x) + 2.85)));
    assert!(!settles(v2, |m| m.x = f(g(m.x) + 2.85)));
    assert!(settles(v2, |m| m.x = f(g(m.x) + 2.5)));
    // A little above the deck.
    assert!(settles(v1, |m| m.y = f(g(m.y) + 0.2)));
    assert!(!settles(v2, |m| m.y = f(g(m.y) + 0.2)));
    // Leaning.
    assert!(!settles(v1, |m| m.angle = f(0.3)));
    assert!(settles(v1, |m| m.angle = f(0.29)));
    assert!(!settles(v2, |m| {
        m.rot_re = f(0.25f32.cos());
        m.rot_im = f(0.25f32.sin());
    }));
}

#[test]
fn a_finish_pad_completes_a_goal_run() {
    let text = "scoring = time\nendless = on\nseed = 9\nobstacles = off\nshafts = off\ngoal_distance = 100";
    let mut s = sim(text);
    let l = Level::parse(text);
    let pad = l.goal_pad_spec(&trig, -1).unwrap();
    let m = at(-100.0, g(pad.y) + 0.73);
    let idle = controls(0.0, 0, 0.0, 0.0);
    let mut done = 0;
    for _ in 0..100 {
        let (r, park) = tick(&mut s, idle, &m, &m);
        assert_eq!(park, Park::No);
        if r.completed {
            assert!(r.scored && r.landed);
            done += 1;
        }
    }
    assert_eq!(done, 1);
    assert!(s.completed);
    assert_eq!(s.visited_mask(), 2);
    assert!(has_finish(&s.visited_pads, GOAL_SLOT_NEG) && !has_finish(&s.visited_pads, GOAL_SLOT_POS));
    let kf = s.keyframe(&m, 100, f(0.0));
    let mut again = sim(text);
    let p = again.restore(&trig, &segment, &hull, &kf);
    assert!(again.completed && p.falls);
    assert_eq!(again.keyframe(&m, 100, f(0.0)), kf);
    let cleared = Keyframe { visited: 0, ..kf };
    again.restore(&trig, &segment, &hull, &cleared);
    assert!(!again.completed);
    assert_eq!(again.visited_pads.len(), 0);
}

#[test]
fn the_clock_ends_a_limited_run_on_its_tick() {
    let text = "scoring = distance\ntime_limit = 5";
    let mut s = sim(text);
    let mut m = aloft();
    m.vx = f(2.0);
    s.prev_vel = (f(2.0), f(0.0));
    s.run_ticks = 598;
    let idle = controls(0.0, 0, 0.0, 0.0);
    let (r, park) = tick(&mut s, idle, &m, &m);
    assert!(!r.completed && !s.completed && park == Park::No);
    let (r, park) = tick(&mut s, idle, &m, &m);
    assert!(r.completed && s.completed && park == Park::Finish);
    assert_eq!((s.run_ticks, s.prev_vel), (600, (f(0.0), f(0.0))));
    m.vx = f(0.0);
    let (r, park) = tick(&mut s, controls(1.0, 1, 0.0, 0.0), &m, &m);
    assert!(!r.completed && park == Park::No);
    assert_eq!((s.run_ticks, s.fuel, s.max_dist), (600, f(100.0), f(30.0)));
    let kf = s.keyframe(&m, 700, f(0.0));
    let mut again = sim(text);
    let p = again.restore(&trig, &segment, &hull, &kf);
    assert!(again.completed && !p.falls);

    // A crash on the last tick wins.
    let mut s = sim(text);
    s.run_ticks = 599;
    m.vx = f(9.0);
    let (r, park) = tick(&mut s, idle, &aloft(), &m);
    assert!(!r.completed && !s.completed && s.crashed && park == Park::Wreck);
}

#[test]
fn a_dry_run_ends_unless_it_is_refuelled() {
    let mut s = sim("");
    s.fuel = f(0.0);
    let idle = controls(0.0, 0, 0.0, 0.0);
    let mut timer = 0.0f32;
    let mut out = false;
    for _ in 0..310 {
        let (r, _) = tick(&mut s, idle, &aloft(), &aloft());
        timer += dt();
        assert_eq!(r.fuel_out, timer >= 2.5);
        out = r.fuel_out;
    }
    assert!(out);
    s.fuel = f(1.0);
    let (r, _) = tick(&mut s, idle, &aloft(), &aloft());
    assert!(!r.fuel_out);
    assert_eq!(s.fuel_out_timer, f(0.0));
}

#[test]
fn visits_go_through_a_mask_and_back() {
    let mut a = BTreeSet::new();
    assert!(visit(&mut a, (3, 0)) && visit(&mut a, (0, 0)) && visit(&mut a, (63, 0)));
    assert!(!visit(&mut a, (3, 0)));
    visit(&mut a, (5, 1));
    assert_eq!(count(&a), 4);
    let m = to_mask(&a, 64);
    assert_eq!(m, 1 | 8 | (1 << 63));
    let b = from_mask(m, 64);
    assert!(is_visited(&b, (3, 0)) && is_visited(&b, (0, 0)) && is_visited(&b, (63, 0)));
    assert_eq!(count(&b), 3);
    assert_eq!(count(&from_mask(m, 2)), 1);
    assert_eq!(to_mask(&a, 2), 1);
    visit(&mut a, (GOAL_SLOT_POS, 4));
    visit(&mut a, (GOAL_SLOT_POS, 5));
    assert!(has_finish(&a, GOAL_SLOT_POS));
    set_finish(&mut a, GOAL_SLOT_POS, false);
    assert!(!has_finish(&a, GOAL_SLOT_POS) && count(&a) == 4);
    set_finish(&mut a, GOAL_SLOT_NEG, true);
    assert!(is_visited(&a, (GOAL_SLOT_NEG, 0)));
}

#[test]
fn gauges_keep_their_bounds_under_odd_rules() {
    let odd = SimParams {
        fuel_max: f(f32::INFINITY),
        hull_max: f(0.0),
        heading_torque_max: f(0.0),
        crash_dv_hard: f(f32::INFINITY),
        ..ruleset_v2()
    };
    let mut s = sim_with("", odd);
    let steer = controls(1.0, 0, 1.0, 0.0);
    let mut m = aloft();
    assert_eq!((s.fuel, s.hull), (f(f32::INFINITY), f(0.0)));
    let (r, _) = tick(&mut s, steer, &m, &m);
    assert_eq!((r.heading_torque, s.fuel, s.hull), (f(0.0), f(f32::INFINITY), f(0.0)));
    m.vx = f(50.0);
    let (r, _) = tick(&mut s, steer, &aloft(), &m);
    assert!(r.impact.is_some() && s.crashed);
    assert_eq!((s.fuel, s.hull), (f(f32::INFINITY), f(0.0)));

    // An endless jump against an endless limit measures nothing.
    let mut s = sim_with("", SimParams { hull_max: f(100.0), ..odd });
    m.vx = f(f32::INFINITY);
    tick(&mut s, steer, &aloft(), &m);
    assert!(g(s.hull).is_nan() && !s.crashed);
}

#[test]
fn dead_controls_leave_the_same_run() {
    for over in [false, true] {
        let mut runs = Vec::new();
        for input in [controls(1.0, 0, 0.6, -0.6), controls(0.0, 0, 0.0, 0.0), controls(0.3, -1, 0.0, 0.0)] {
            let mut s = sim("");
            if over {
                s.completed = true;
            } else {
                s.fuel = f(0.0);
            }
            let mut m = aloft();
            let c = begin(&mut s, input, &m, 0.4);
            m.vy = f(-0.5);
            assert!(s.check_end(&m));
            let (r, park) = s.end_tick(&m, &c);
            assert_eq!(r.heading_torque, f(0.0));
            runs.push((c, r, park, s.keyframe(&m, 0, f(0.0)), s.score, s.max_dist, s.completed));
        }
        assert!(runs[0] == runs[1] && runs[0] == runs[2]);
    }
}

#[test]
fn a_tick_says_when_it_cannot_be_run() {
    let s = sim("");
    let far = at(f32::INFINITY, 0.0);
    let idle = controls(0.0, 0, 0.0, 0.0);
    assert!(!check_key(window_key(far.x, far.y)));
    assert!(!s.check_tick(&idle, &far));
    assert!(s.check_tick(&idle, &aloft()));
    let mut s = sim("");
    s.run_ticks = u32::MAX;
    assert!(!s.check_tick(&idle, &aloft()));
    s.crashed = true;
    assert!(s.check_tick(&idle, &aloft()));
    let mut s = sim("");
    s.score = u32::MAX - 99;
    assert!(!s.check_score());
    assert!(s.check_end(&aloft()), "a ship that does not land cannot score");
    let bad = SimParams { heading_torque_max: f(-1.0), ..ruleset_v2() };
    let s = sim_with("", bad);
    assert!(s.check_tick(&idle, &aloft()));
    assert!(!s.check_tick(&controls(0.0, 0, 1.0, 0.0), &aloft()));
    // A drawn world has no windows to move.
    let s = sim("poly = 0,0 1,0 0,1");
    assert!(s.check_tick(&idle, &far));
}

#[test]
fn a_recording_feeds_its_events_in_order() {
    let e = |tick: u32, t: f32| InputEvent { tick, input: controls(t, 0, 0.0, 0.0) };
    let events = vec![e(0, 0.1), e(2, 0.2), e(2, 0.3), e(5, 0.5), e(4, 0.4)];
    let mut play = Playback::start(0);
    let mut got = Vec::new();
    let mut s = sim("");
    let none = TickReport {
        impact: None,
        landed: false,
        scored: false,
        heading_torque: f(0.0),
        fuel_out: false,
        completed: false,
    };
    while play.more(7) {
        got.push(g(play.feed(&events).throttle));
        assert!(play.take(&s, &none, &aloft()).is_none());
    }
    assert_eq!(got, vec![0.1, 0.1, 0.3, 0.3, 0.3, 0.4, 0.4]);
    let mut late = Playback::start(3);
    assert_eq!(late.feed(&events).throttle, f(0.3));
    assert_eq!(Playback::start(0).feed(&Vec::new()), InputState::default());

    // Keyframes come on the beat, and a last one with the wreck.
    let mut play = Playback::start(KEYFRAME_EVERY - 1);
    play.feed(&events);
    let kf = play.take(&s, &none, &aloft()).unwrap();
    assert_eq!((kf.tick, kf.glow, kf.fuel), (KEYFRAME_EVERY, f(0.4), f(100.0)));
    let mut m = aloft();
    m.vx = f(9.0);
    let (r, _) = tick(&mut s, controls(0.0, 0, 0.0, 0.0), &aloft(), &m);
    let kf = play.take(&s, &r, &at(0.0, 0.0)).unwrap();
    assert_eq!((kf.tick, kf.x, kf.vx, kf.hull), (KEYFRAME_EVERY + 1, f(30.0), f(9.0), f(0.0)));
    assert_eq!((kf.land_timer, kf.run_ticks), (f(0.0), 1));
    assert!(play.over && !play.more(u32::MAX));
}
