use sim_core::binary32::F32;
use sim_core::level::{Level, Scoring, Vec2};

fn f(x: f32) -> F32 {
    F32 { bits: x.to_bits() }
}

fn p(x: f32, y: f32) -> Vec2 {
    Vec2 { x: f(x), y: f(y) }
}

#[test]
fn an_empty_file_is_the_demo_level() {
    assert!(Level::parse("").same_as(&Level::demo()));
    assert!(Level::parse("\n\n  \r\n").same_as(&Level::demo()));
    assert!(Level::parse("# name = X\n   # seed = 9\nno equals sign").same_as(&Level::demo()));
    let d = Level::demo();
    assert_eq!(d.name, "The Caves");
    assert_eq!(d.scoring, Scoring::Pads);
    assert!(d.shafts && d.obstacles && !d.endless && !d.random_seed);
    assert_eq!(d.pad_spacing, f(130.0));
    assert_eq!((d.seed, d.time_limit_ticks), (0, 0));
    assert!(d.terrain.is_none());
    assert_eq!(d.goal_distance, f(0.0));
}

#[test]
fn unknown_keys_are_ignored_and_known_ones_are_trimmed() {
    let l = Level::parse("  gravitas = 5\nname =   Two Words  \r\n color= red\nseed=12\n");
    assert_eq!(l.name, "Two Words");
    assert_eq!(l.seed, 12);
    assert!(Level::parse("gravitas = 5\ncolor = red").same_as(&Level::demo()));
    // Everything after the first equals sign is the value.
    assert_eq!(Level::parse("name = a = b").name, "a = b");
}

#[test]
fn switches_know_four_words() {
    for v in ["on", "true", "yes", "1"] {
        assert!(Level::parse(&format!("endless = {v}")).endless);
    }
    for v in ["off", "no", "ON", "True", "0", "", "11"] {
        assert!(!Level::parse(&format!("endless = {v}")).endless, "{v}");
    }
    assert!(!Level::parse("shafts = off").shafts);
    assert!(!Level::parse("obstacles = nope").obstacles);
}

#[test]
fn scoring_ignores_case_and_falls_back_to_pads() {
    assert_eq!(Level::parse("scoring = TIME").scoring, Scoring::Time);
    assert_eq!(Level::parse("scoring = Distance").scoring, Scoring::Distance);
    assert_eq!(Level::parse("scoring = time\nscoring = points").scoring, Scoring::Pads);
}

#[test]
fn numbers_are_held_to_their_bounds() {
    let l = |text: &str| Level::parse(text);
    assert_eq!(l("pad_spacing = 10").pad_spacing, f(40.0));
    assert_eq!(l("pad_spacing = 1e9").pad_spacing, f(2000.0));
    assert_eq!(l("pad_spacing = 90").pad_spacing, f(90.0));
    assert_eq!(l("pad_spacing = ninety").pad_spacing, f(130.0));
    assert_eq!(l("goal_distance = 1").goal_distance, f(100.0));
    assert_eq!(l("goal_distance = 99999").goal_distance, f(20000.0));
    assert_eq!(l("fuel = 60\n").fuel_max, f(60.0));
    assert_eq!(l("fuel = 1\n").fuel_max, f(5.0));
    assert_eq!(l("fuel = inf").fuel_max, f(1000.0));
    assert_eq!(l("gravity = 3.0").gravity_y, f(-3.0));
    assert_eq!(l("gravity = -100").gravity_y, f(-20.0));
    assert_eq!(l("gravity = 0").gravity_y, f(-0.2));
    assert_eq!(l("thrust = 0.5").thrust_force, f(1.0));
    assert_eq!(l("thrust = 51").thrust_force, f(50.0));
    assert_eq!(l("hull = 2000").hull_max, f(1000.0));
    assert_eq!(l("refuel_rate = 0").refuel_per_s, f(1.0));
    assert_eq!(l("start_fuel = 1e-3").start_fuel, f(1.0));
    assert!(l("fuel = nan").fuel_max.is_nan());
}

#[test]
fn a_time_limit_is_seconds_in_the_file_and_ticks_in_the_level() {
    assert_eq!(Level::parse("time_limit = 60").time_limit_ticks, 7200);
    assert_eq!(Level::parse("time_limit = 5.5").time_limit_ticks, 660);
    assert_eq!(Level::parse("time_limit = 1").time_limit_ticks, 600);
    assert_eq!(Level::parse("time_limit = 1e9").time_limit_ticks, 144_000);
    assert_eq!(Level::parse("time_limit = soon").time_limit_ticks, 0);
}

#[test]
fn a_seed_is_a_number_or_random() {
    assert_eq!(Level::parse("seed = 4294967295").seed, u32::MAX);
    assert_eq!(Level::parse("seed = 4294967296").seed, 0);
    assert_eq!(Level::parse("seed = -1").seed, 0);
    assert_eq!(Level::parse("seed = +7").seed, 7);
    let r = Level::parse("seed = Random");
    assert!(r.random_seed);
    assert_eq!(r.seed, 0);
}

#[test]
fn any_polygon_makes_a_drawn_world() {
    let text = "shafts = on\nobstacles = on\ngoal_distance = 500\n\
                poly = 0,0 4,0 4,4 0,4\npoly = 0,0 0,1 1,0 junk 2;3\npoly = 1,1 2,2\n\
                pad = 1 , 2\npad = oops\npad = 3,4\nstart = 5, 6\nspawn_y = 9\n";
    let l = Level::parse(text);
    assert!(!l.shafts && !l.obstacles);
    assert_eq!(l.goal_distance, f(0.0));
    let t = l.terrain.unwrap();
    assert_eq!(t.polys.len(), 2, "two points are no polygon");
    assert_eq!(t.polys[0], vec![p(0.0, 0.0), p(4.0, 0.0), p(4.0, 4.0), p(0.0, 4.0)]);
    // Wound clockwise in the file, counter-clockwise in the level.
    assert_eq!(t.polys[1], vec![p(1.0, 0.0), p(0.0, 1.0), p(0.0, 0.0)]);
    assert_eq!(t.pads, vec![p(1.0, 2.0), p(3.0, 4.0)]);
    assert_eq!(t.start, Some(p(5.0, 6.0)));
    assert_eq!(t.spawn_y, f(6.0), "the start platform is the spawn ground");

    let l = Level::parse("pad = 1,2\nstart = 1,1\nspawn_y = 3");
    assert!(l.terrain.is_none(), "without a polygon there is no terrain");
    assert!(l.shafts && l.obstacles);
    let t = Level::parse("poly = 0,0 1,0 0,1\nstart = 1,1\nstart = gone\nspawn_y = 3").terrain.unwrap();
    assert_eq!(t.start, None);
    assert_eq!(t.spawn_y, f(3.0));
}

#[test]
fn a_header_keeps_the_level_but_its_labels() {
    let text = "name = N\nscoring = time\nshafts = off\npad_spacing = 77\nseed = random\nendless = on\n\
                time_limit = 9\ngoal_distance = 300\nfuel = 50\ngravity = 2\nthrust = 9\nhull = 60\n\
                refuel_rate = 3\nstart_fuel = 20";
    let mut l = Level::parse(text);
    l.seed = 1234;
    let h = l.to_params();
    assert_eq!((h.scoring, h.shafts, h.obstacles, h.endless), (2, 0, 1, 1));
    let back = Level::from_params(&h);
    assert_eq!(back.name, "(replay)");
    assert!(!back.random_seed);
    assert_eq!(back.seed, 1234);
    let relabelled = Level { name: l.name.clone(), random_seed: true, ..back };
    assert!(relabelled.same_as(&l));

    let drawn = Level::parse("scoring = distance\npoly = 0,0 1,0 0,1\npad = 1,2");
    let mut h = drawn.to_params();
    assert_eq!(h.scoring, 1);
    h.shafts = 1;
    h.obstacles = 1;
    h.scoring = 77;
    let back = Level::from_params(&h);
    assert!(!back.shafts && !back.obstacles, "a drawn world never runs the generator");
    assert_eq!(back.scoring, Scoring::Pads);
    assert_eq!(back.terrain.unwrap().pads, vec![p(1.0, 2.0)]);
}

#[test]
fn the_same_file_is_recognised_whatever_seed_was_rolled() {
    let file = Level::parse("seed = random\nfuel = 50");
    let mut loaded = file.clone();
    loaded.seed = 99;
    assert!(file.same_file_as(&loaded));
    assert!(!file.same_as(&loaded));
    let other = Level::parse("seed = random\nfuel = 51");
    assert!(!other.same_file_as(&loaded));
    let fixed = Level::parse("seed = 3");
    let mut moved = fixed.clone();
    moved.seed = 4;
    assert!(fixed.same_file_as(&fixed));
    assert!(!fixed.same_file_as(&moved));
    let drawn = Level::parse("poly = 0,0 1,0 0,1\npad = 1,2");
    assert!(drawn.same_file_as(&Level::parse("pad = 1,2\npoly = 0,0 1,0 0,1")));
    assert!(!drawn.same_file_as(&Level::parse("pad = 1,3\npoly = 0,0 1,0 0,1")));
    assert!(!drawn.same_file_as(&Level::demo()));
    // NaN is equal to nothing, itself included.
    let odd = Level::parse("fuel = nan");
    assert!(!odd.same_file_as(&odd));
}

#[test]
fn a_line_that_says_nothing_changes_nothing() {
    let parts = ["name = Two\n", "seed = 7\n", "poly = 0,0 4,0 4,4\n", "pad = 1,2\n"];
    let whole = Level::parse(&parts.concat());
    for x in ["", "  ", "# seed = 9", "no equals sign", "description = x", "= 5", "Seed = 9"] {
        for at in 0..=parts.len() {
            let text = format!("{}{x}\n{}", parts[..at].concat(), parts[at..].concat());
            assert!(Level::parse(&text).same_as(&whole), "{x:?} at {at}");
        }
        assert!(Level::parse(&format!("{}{x}", parts.concat())).same_as(&whole));
    }
    // What says something does change something.
    assert!(!Level::parse(&format!("{}seed = 9", parts.concat())).same_as(&whole));
}

#[test]
fn what_a_file_does_not_set_is_as_in_the_demo() {
    let d = Level::demo();
    let l = Level::parse("name = X\nfuel = 50\nscoring = time");
    assert!(!l.same_as(&d));
    assert!(Level { name: d.name.clone(), fuel_max: d.fuel_max, scoring: d.scoring, ..l }.same_as(&d));
    // A hand-drawn world has no shafts, no boulders and no finish.
    let l = Level::parse("poly = 0,0 4,0 4,4\ngoal_distance = 500");
    assert!(!l.shafts && !l.obstacles && l.goal_distance == f(0.0));
    assert!(
        Level { terrain: None, shafts: d.shafts, obstacles: d.obstacles, ..l }.same_as(&d)
    );
}
