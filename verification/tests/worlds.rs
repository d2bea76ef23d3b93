use sim_core::binary32::{fl, F32};
use sim_core::cave::{Wave, BASE, PERIOD, TAU};
use sim_core::level::{Level, Terrain, Vec2};
use sim_core::rng::{hash_u32, Rng};

fn f(x: f32) -> F32 {
    F32 { bits: x.to_bits() }
}

fn g(x: F32) -> f32 {
    f32::from_bits(x.bits)
}

fn trig(w: Wave, a: F32) -> F32 {
    match w {
        Wave::Sin => f(g(a).sin()),
        Wave::Cos => f(g(a).cos()),
    }
}

fn level(text: &str) -> Level {
    Level::parse(text)
}

#[test]
fn the_hash_and_the_generator_give_these_numbers() {
    assert_eq!(hash_u32(0), 0);
    assert_eq!(hash_u32(1), HASH_1);
    assert_eq!(hash_u32(0xdead_beef), HASH_BEEF);
    let mut r = Rng::new(7);
    assert_eq!(r.next(), RNG7_1);
    assert_eq!(r.next(), RNG7_2);
    let mut r = Rng::new(7);
    assert_eq!(r.unit(), f((RNG7_1 >> 8) as f32 / (1u32 << 24) as f32));
    assert_eq!(r.range(f(-3.0), f(3.0)), {
        let u = (RNG7_2 >> 8) as f32 / (1u32 << 24) as f32;
        f(-3.0 + (3.0 - -3.0) * u)
    });
    let mut r = Rng::new(7);
    assert_eq!(r.range_int(6, 9), 6 + (RNG7_1 % 4) as i32);
}

const HASH_1: u32 = 0x6889_90c0;
const HASH_BEEF: u32 = 0xe628_c683;
const RNG7_1: u32 = 0xccb8_0ac9;
const RNG7_2: u32 = 0xcf26_d79f;

#[test]
fn draws_stay_in_their_ranges() {
    let mut r = Rng::new(1);
    for _ in 0..2000 {
        let u = g(r.unit());
        assert!((0.0..1.0).contains(&u));
        let x = g(r.range(f(-3.0), f(3.0)));
        assert!((-3.0..=3.0).contains(&x));
        let i = r.range_int(-2, 5);
        assert!((-2..=5).contains(&i));
    }
}

#[test]
fn the_periodic_cave_is_a_sum_of_harmonics() {
    let l = Level::demo();
    let base = g(fl(BASE));
    assert_eq!(fl(BASE), fl(TAU).over(fl(PERIOD)));
    for i in -40..40 {
        let x = i as f32 * 17.3;
        let c = (x * base + 0.0).sin() * 14.0
            + (x * base * 3.0 + 0.0).cos() * 5.0
            + (x * base * 7.0 + 0.0).sin() * 3.0;
        let h = 6.5
            + (x * base * 2.0 + 0.0).sin() * 2.5
            + (x * base * 5.0 + 0.0).cos() * 1.5
            + (x * base * 11.0 + 0.0).sin().abs() * 2.0;
        assert_eq!(l.cave_center(&trig, f(x)), f(c), "centre at {x}");
        assert_eq!(l.cave_half_width(&trig, f(x)), f(h), "width at {x}");
    }
}

#[test]
fn a_seed_shifts_the_harmonics() {
    let l = level("seed = 3");
    let phase = |salt: u32| {
        (hash_u32(3 ^ salt) & 0xffff) as f32 / 65535.0 * std::f32::consts::TAU
    };
    assert_eq!(l.phase(1), f(phase(1)));
    assert_eq!(Level::demo().phase(1), f(0.0));
    assert_eq!(Level::demo().slot_seed(17), 17);
    assert_eq!(l.slot_seed(17), 17 ^ 3u32.wrapping_mul(0x9e37_79b9));
    let base = g(fl(BASE));
    let x = 123.0f32;
    let c = (x * base + phase(1)).sin() * 14.0
        + (x * base * 3.0 + phase(2)).cos() * 5.0
        + (x * base * 7.0 + phase(3)).sin() * 3.0;
    assert_eq!(l.cave_center(&trig, f(x)), f(c));
}

fn noise(seed: u32, salt: u32, x: f32, wavelength: f32) -> f32 {
    let t = x / wavelength;
    let i = t.floor();
    let r = t - i;
    let h = |c: i64| {
        let k = (c as u32) ^ seed.wrapping_mul(0x9e37_79b9) ^ salt.wrapping_mul(0x85eb_ca6b);
        (hash_u32(k) & 0xffff) as f32 / 65535.0 * 2.0 - 1.0
    };
    let (a, b) = (h(i as i64), h(i as i64 + 1));
    a + (b - a) * (r * r * (3.0 - 2.0 * r))
}

#[test]
fn the_endless_cave_is_noise_within_bounds() {
    let l = level("endless = on\nseed = 20260717");
    for i in -300..300 {
        let x = i as f32 * 7.77;
        let n = l.vnoise(4, f(x), f(130.0));
        assert_eq!(n, f(noise(20260717, 4, x, 130.0)));
        assert!(g(n).abs() <= 1.0);
        let h = 6.5
            + noise(20260717, 4, x, 130.0) * 2.5
            + noise(20260717, 5, x, 47.0) * 1.5
            + noise(20260717, 6, x, 19.0).abs() * 2.0;
        let w = l.cave_half_width(&trig, f(x));
        assert_eq!(w, f(h));
        assert!((2.5..=12.5).contains(&g(w)), "{} at {x}", g(w));
        assert!(g(l.cave_center(&trig, f(x))).abs() <= 22.0);
    }
}

#[test]
fn segments_run_between_floor_and_ceiling() {
    let l = Level::demo();
    let p = l.seg_points(&trig, -5);
    let (x0, x1) = (-15.0f32, -12.0f32);
    let c0 = g(l.cave_center(&trig, f(x0)));
    let h0 = g(l.cave_half_width(&trig, f(x0)));
    let c1 = g(l.cave_center(&trig, f(x1)));
    let h1 = g(l.cave_half_width(&trig, f(x1)));
    assert_eq!(p.top_a, Vec2 { x: f(x0), y: f(c0 + h0) });
    assert_eq!(p.top_b, Vec2 { x: f(x1), y: f(c1 + h1) });
    assert_eq!(p.bot_a, Vec2 { x: f(x0), y: f(c0 - h0) });
    assert_eq!(p.bot_b, Vec2 { x: f(x1), y: f(c1 - h1) });
    // The ceiling's end is the next segment's start.
    let q = l.seg_points(&trig, -4);
    assert_eq!(p.top_b, q.top_a);
    assert_eq!(p.bot_b, q.bot_a);
}

#[test]
fn shafts_open_where_the_slots_say_and_repeat() {
    let l = Level::demo();
    let opens: Vec<i64> = (-3..6).map(|s| l.shaft_open_seg(s)).collect();
    assert_eq!(opens, vec![-112, -71, -15, 41, 88, 129, 185, 241, 288]);
    for s in -8..8 {
        assert_eq!(l.shaft_open_seg(s + 4), l.shaft_open_seg(s) + 200);
        assert!(l.shaft_open_seg(s + 1) >= l.shaft_open_seg(s) + 38);
        for d in -2..6 {
            let idx = l.shaft_open_seg(s) + d;
            assert_eq!(l.seg_in_opening(idx), (0..3).contains(&d));
            assert_eq!(l.seg_in_opening(idx + 200), l.seg_in_opening(idx));
        }
    }
    for seed in 0..200 {
        let l = level(&format!("seed = {seed}"));
        for idx in -6..=28 {
            assert!(!l.seg_in_opening(idx), "seed {seed} opens {idx}");
        }
    }
    assert!(!level("shafts = off").seg_in_opening(l.shaft_open_seg(0)));
}

#[test]
fn shaft_walls_meet_their_edges_and_stay_wide() {
    let l = level("seed = 11");
    for s in -6..6 {
        let left = l.shaft_wall_pts(&trig, s, 0, 0);
        let right = l.shaft_wall_pts(&trig, s, 0, 1);
        let o = l.shaft_open_seg(s);
        assert_eq!(g(left[0].x), o as f32 * 3.0);
        assert_eq!(g(left[left.len() - 1].x), o as f32 * 3.0);
        assert_eq!(g(right[0].x), (o + 3) as f32 * 3.0);
        assert_eq!(g(right[right.len() - 1].x), (o + 3) as f32 * 3.0);
        for i in 0..=50 {
            let t = f(i as f32 / 50.0);
            let a = g(l.shaft_wall_x(&trig, s, 0, t));
            let b = g(l.shaft_wall_x(&trig, s, 1, t));
            assert!((a - o as f32 * 3.0).abs() <= 1.25);
            assert!(b - a >= 6.5);
        }
        // From the ceiling of one layer to the floor of the next.
        let xe = f(o as f32 * 3.0);
        let (c, h) = (g(l.cave_center(&trig, xe)), g(l.cave_half_width(&trig, xe)));
        assert_eq!(g(left[0].y), 0.0 * 90.0 + c + h);
        assert_eq!(g(left[left.len() - 1].y), {
            let (bot, top) = (0.0 * 90.0 + c + h, 90.0 + c - h);
            bot + (top - bot) * 1.0
        });
        let n = left.len() - 1;
        let rise = (90.0 + c - h) - (c + h);
        assert_eq!(n, (rise / 3.0).ceil().max(1.0) as usize);
    }
}

#[test]
fn boulders_stand_where_their_slots_put_them() {
    let l = Level::demo();
    let mut some = 0;
    for k in -60..60i64 {
        let mut rng = Rng::new(k as u32);
        let cx = k as f32 * 16.0 + g(rng.range(f(-3.0), f(3.0)));
        match l.obstacle_spec(&trig, k) {
            None => {},
            Some(ob) => {
                some += 1;
                assert_eq!(ob.cx, f(cx));
                assert!(cx.abs() >= 9.0 && (cx - 64.0).abs() >= 9.0);
                let hw = g(l.cave_half_width(&trig, f(cx)));
                assert!(hw >= 4.5);
                let empty = rng.range_int(0, 5);
                assert!(empty != 0);
                let max_r = (hw * 0.65).min(5.5);
                let r = g(rng.range(f(0.3), f(1.0))) * max_r;
                let max_off = (hw - r - 1.3).max(0.0);
                let cy = g(l.cave_center(&trig, f(cx))) + g(rng.range(f(-max_off), f(max_off)));
                assert_eq!(ob.cy, f(cy));
                let n = rng.range_int(6, 9);
                assert_eq!(ob.pts.len(), n as usize);
                for i in 0..n {
                    let base = i as f32 / n as f32 * std::f32::consts::TAU;
                    let ang = base + g(rng.range(f(-0.25), f(0.25)));
                    let rad = r * g(rng.range(f(0.6), f(1.0)));
                    let p = ob.pts[i as usize];
                    assert_eq!(p, Vec2 { x: f(rad * ang.cos()), y: f(rad * ang.sin()) });
                }
                assert_eq!(ob.rot, rng.range(f(0.0), f(std::f32::consts::TAU)));
            },
        }
    }
    assert!(some > 20, "only {some} boulders");
    assert!((-60..60).all(|k| level("obstacles = off").obstacle_spec(&trig, k).is_none()));
}

fn deck_top(l: &Level, cx: f32) -> f32 {
    let mut y = f32::NEG_INFINITY;
    for i in 0..=12 {
        let x = f(cx - 3.0 + i as f32 * (3.0 / 6.0));
        y = y.max(g(l.cave_center(&trig, x)) - g(l.cave_half_width(&trig, x)));
    }
    y + 0.1
}

#[test]
fn pads_sit_on_the_highest_floor_under_them() {
    let l = Level::demo();
    let mut some = 0;
    for p in -30..30i64 {
        if let Some(pad) = l.pad_spec(&trig, p) {
            some += 1;
            let mut rng = Rng::new(p as u32 ^ 0x50ad_5eed);
            let cx = p as f32 * 130.0 + g(rng.range(f(-20.0), f(20.0)));
            assert_eq!(pad.cx, f(cx));
            assert_eq!(pad.y, f(deck_top(&l, cx)));
            assert!(g(l.cave_half_width(&trig, pad.cx)) >= 5.0);
        }
    }
    assert!(some > 5, "only {some} pads");
    assert!(l.pad_spec(&trig, 0).is_some());
}

#[test]
fn a_goal_level_has_a_finish_on_either_side() {
    let l = level("scoring = time\nendless = on\nseed = 9\ngoal_distance = 100");
    for side in [1i8, -1] {
        let pad = l.goal_pad_spec(&trig, side).unwrap();
        assert_eq!(pad.cx, f(100.0 * side as f32));
        assert_eq!(pad.y, f(deck_top(&l, 100.0 * side as f32)));
    }
    assert!(Level::demo().goal_pad_spec(&trig, 1).is_none());
    for k in -20..20 {
        if let Some(ob) = l.obstacle_spec(&trig, k) {
            assert!((g(ob.cx).abs() - 100.0).abs() >= 9.0);
        }
        if let Some(pad) = l.pad_spec(&trig, k) {
            assert!((g(pad.cx).abs() - 100.0).abs() >= 12.0);
        }
    }
}

#[test]
fn a_ship_stands_on_the_floor_or_on_a_deck() {
    let l = Level::demo();
    let pad = l.pad_spec(&trig, 0).unwrap();
    assert_eq!(l.stand_y(&trig, pad.cx), f(g(pad.y) + 0.78));
    let x = f(40.0);
    let floor = g(l.cave_center(&trig, x)) - g(l.cave_half_width(&trig, x));
    assert_eq!(l.stand_y(&trig, x), f(floor + 0.78));
    let goal = level("goal_distance = 100\nendless = on\nseed = 9");
    let finish = goal.goal_pad_spec(&trig, 1).unwrap();
    assert_eq!(goal.stand_y(&trig, f(100.0)), f(g(finish.y) + 0.78));
    let drawn = level("poly = 0,0 1,0 1,1\nspawn_y = 7");
    assert_eq!(drawn.stand_y(&trig, f(3.0)), f(7.0 + 0.78));
    let start = level("poly = 0,0 1,0 1,1\nspawn_y = 7\nstart = 0,2");
    assert_eq!(start.stand_y(&trig, f(3.0)), f(2.0 + 0.78));
}

#[test]
fn rock_is_inside_its_polygons() {
    let p = |x: f32, y: f32| Vec2 { x: f(x), y: f(y) };
    let t = Terrain {
        polys: vec![
            vec![p(0.0, 0.0), p(4.0, 0.0), p(4.0, 4.0), p(2.0, 1.0), p(0.0, 4.0)],
            vec![p(10.0, 0.0), p(12.0, 0.0), p(11.0, 2.0)],
        ],
        pads: vec![],
        start: None,
        spawn_y: f(0.0),
    };
    assert!(t.point_in_rock(p(0.5, 1.0)));
    assert!(t.point_in_rock(p(3.5, 1.0)));
    assert!(!t.point_in_rock(p(2.0, 3.0)), "the notch is open");
    assert!(t.point_in_rock(p(11.0, 1.0)));
    assert!(!t.point_in_rock(p(7.0, 1.0)));
    assert!(!t.point_in_rock(p(-1.0, 1.0)));
}

#[test]
fn names_and_rolled_seeds_do_not_shape_the_world() {
    let a = level("name = A\nseed = 5");
    let mut b = level("name = B\nseed = 5");
    b.random_seed = true;
    for i in -50..50i64 {
        assert_eq!(a.seg_points(&trig, i), b.seg_points(&trig, i));
        assert_eq!(a.seg_in_opening(i), b.seg_in_opening(i));
        assert_eq!(a.pad_spec(&trig, i), b.pad_spec(&trig, i));
        assert_eq!(
            a.obstacle_spec(&trig, i).map(|o| (o.cx, o.cy, o.rot, o.pts)),
            b.obstacle_spec(&trig, i).map(|o| (o.cx, o.cy, o.rot, o.pts))
        );
        assert_eq!(a.shaft_wall_pts(&trig, i, 1, 0), b.shaft_wall_pts(&trig, i, 1, 0));
    }
    assert_eq!(a.stand_y(&trig, f(0.0)), b.stand_y(&trig, f(0.0)));
}

#[test]
fn boulders_leave_room_to_pass() {
    let mut seen = 0;
    for l in [Level::demo(), level("endless = on\nseed = 9")] {
        for k in -80..80 {
            let Some(b) = l.obstacle_spec(&trig, k) else { continue };
            seen += 1;
            let hw = g(l.cave_half_width(&trig, b.cx));
            let most = (hw * 0.65).min(5.5);
            assert!((6..=9).contains(&b.pts.len()));
            for p in &b.pts {
                assert!(g(p.x).abs() <= most && g(p.y).abs() <= most);
            }
            let off = (g(b.cy) - g(l.cave_center(&trig, b.cx))).abs();
            assert!(off <= (hw - 0.3 * most - 1.3).max(0.0) + 1e-4);
        }
    }
    assert!(seen > 20);
}

#[test]
fn decks_and_ships_stay_out_of_the_floor() {
    let l = level("goal_distance = 500");
    let floor = |x: f32| g(l.cave_center(&trig, f(x))) - g(l.cave_half_width(&trig, f(x)));
    let mut decks = vec![l.goal_pad_spec(&trig, 1).unwrap(), l.goal_pad_spec(&trig, -1).unwrap()];
    for p in -10..10 {
        if let Some(d) = l.pad_spec(&trig, p) {
            decks.push(d);
        }
    }
    for d in &decks {
        for i in 0..=12 {
            assert!(floor(g(d.cx) - 3.0 + i as f32 * 0.5) <= g(d.y));
        }
        assert!(g(l.stand_y(&trig, d.cx)) >= g(d.y));
    }
    for i in -200..200 {
        let x = i as f32 * 3.7;
        assert!(g(l.stand_y(&trig, f(x))) >= floor(x));
    }
}

#[test]
fn segments_chain_without_a_gap() {
    for l in [Level::demo(), level("endless = on\nseed = 5")] {
        for i in [-1_000_000, -77, -1, 0, 1, 34, 999_999] {
            let (a, b) = (l.seg_points(&trig, i), l.seg_points(&trig, i + 1));
            assert_eq!(a.top_b, b.top_a);
            assert_eq!(a.bot_b, b.bot_a);
            assert_eq!(g(a.top_a.x), 3.0 * i as f32);
            assert!(g(a.top_a.y) > g(a.bot_a.y) && g(a.top_b.y) > g(a.bot_b.y));
        }
    }
}

#[test]
fn shaft_walls_rise_in_steps_of_three_metres() {
    for l in [Level::demo(), level("seed = 12")] {
        for (s, gap) in [(0i64, 0i64), (3, -1), (-7, 99), (2, -100)] {
            for side in [0u8, 1] {
                let p = l.shaft_wall_pts(&trig, s, gap, side);
                assert!((23..=30).contains(&p.len()));
                let open = l.shaft_open_seg(s) + if side == 0 { 0 } else { 3 };
                let e = 3.0 * open as f32;
                assert_eq!((g(p[0].x), g(p[p.len() - 1].x)), (e, e));
                let (c, h) = (g(l.cave_center(&trig, f(e))), g(l.cave_half_width(&trig, f(e))));
                assert!((g(p[0].y) - (90.0 * gap as f32 + c + h)).abs() < 0.01);
                assert!((g(p[p.len() - 1].y) - (90.0 * (gap + 1) as f32 + c - h)).abs() < 0.01);
                for w in p.windows(2) {
                    let d = g(w[1].y) - g(w[0].y);
                    assert!(d > 0.0 && d < 3.03);
                }
                for t in [-2.0, -0.5, 1.0, 7.25] {
                    assert_eq!(g(l.shaft_wall_x(&trig, s, side, f(t))), e);
                }
            }
        }
    }
}

#[test]
fn shaft_walls_are_the_same_in_every_layer() {
    for l in [Level::demo(), level("seed = 12"), level("seed = 9\nendless = on")] {
        for s in [-9i64, 0, 5] {
            for side in [0u8, 1] {
                let p = l.shaft_wall_pts(&trig, s, 0, side);
                for gap in [-100i64, -1, 1, 37, 100] {
                    let q = l.shaft_wall_pts(&trig, s, gap, side);
                    assert_eq!(p.len(), q.len());
                    for (a, b) in p.iter().zip(&q) {
                        assert_eq!(a.x, b.x);
                        assert!((g(b.y) - g(a.y) - 90.0 * gap as f32).abs() <= 0.01);
                    }
                }
            }
        }
    }
}

#[test]
fn rounding_may_give_a_wall_a_step_more_in_one_layer() {
    // Here the walls rise 75 m within a thousandth of a step.
    let l = level("seed = 4692");
    let p = l.shaft_wall_pts(&trig, 1, 2, 0);
    let q = l.shaft_wall_pts(&trig, 1, 3, 0);
    assert_eq!((p.len(), q.len()), (27, 26));
    for (a, b) in [(p[0], q[0]), (p[26], q[25])] {
        assert_eq!(a.x, b.x);
        assert!((g(b.y) - g(a.y) - 90.0).abs() <= 0.01);
    }
}

#[test]
fn boulders_keep_clear_of_every_shaft() {
    let l = Level::demo();
    for k in -200..200 {
        let Some(b) = l.obstacle_spec(&trig, k) else { continue };
        for s in -30..30 {
            let o = l.shaft_open_seg(s) as f32 * 3.0;
            assert!(!(g(b.cx) > o - 8.0 && g(b.cx) < o + 9.0 + 8.0));
        }
    }
}

#[test]
fn no_boulder_reaches_a_pad() {
    let l = Level::demo();
    let stones: Vec<_> = (-150..150).filter_map(|k| l.obstacle_spec(&trig, k)).collect();
    for p in -12..12 {
        let Some(d) = l.pad_spec(&trig, p) else { continue };
        for b in &stones {
            let r = b.pts.iter().map(|q| g(q.x).hypot(g(q.y))).fold(0.0f32, f32::max);
            assert!((g(b.cx) - g(d.cx)).abs() > r + 3.9);
        }
    }
}
