use rapier2d::prelude::{Collider, ColliderBuilder, ColliderHandle, ColliderSet, Point, RigidBodyBuilder};
use sim_core::binary32::F32;
use sim_core::cave::Wave;
use sim_core::level::{Level, Vec2};
use sim_core::scene::{terrain_edges, window_key, Scene};
use sim_core::scenery::{Boulder, Edge};

fn f(x: f32) -> F32 {
    F32 { bits: x.to_bits() }
}

fn g(x: F32) -> f32 {
    f32::from_bits(x.bits)
}

fn trig(w: Wave, a: F32) -> F32 {
    match w {
        Wave::Sin => f(g(a).sin()),
        Wave::Cos => f(g(a).cos()),
    }
}

fn segment(e: Edge) -> Collider {
    ColliderBuilder::segment(Point::new(g(e.a.x), g(e.a.y)), Point::new(g(e.b.x), g(e.b.y)))
        .friction(g(e.friction))
        .build()
}

fn hull(b: Boulder) -> Option<(Collider, Vec<Vec2>)> {
    let pts: Vec<Point<f32>> = b.pts.iter().map(|p| Point::new(g(p.x), g(p.y))).collect();
    let c = ColliderBuilder::convex_hull(&pts)?.friction(g(b.friction)).restitution(g(b.bounce)).build();
    Some((c, b.pts))
}

fn no_hull(_: Boulder) -> Option<(Collider, Vec<Vec2>)> {
    None
}

fn scene() -> Scene {
    Scene::new(RigidBodyBuilder::dynamic().build(), Vec::new())
}

fn ends(c: &Collider) -> (f32, f32, f32, f32) {
    let s = c.shape().as_segment().unwrap();
    (s.a.x, s.a.y, s.b.x, s.b.y)
}

#[test]
fn keys_are_segments_and_layers() {
    assert_eq!(window_key(f(0.0), f(0.0)), (0, 0));
    assert_eq!(window_key(f(-0.1), f(44.9)), (-1, 0));
    assert_eq!(window_key(f(8.9), f(45.0)), (2, 1));
    assert_eq!(window_key(f(9.0), f(-45.0)), (3, -1));
    assert_eq!(window_key(f(f32::NAN), f(f32::INFINITY)), (0, i64::MAX));
}

#[test]
fn a_segment_puts_its_walls_into_a_set() {
    let l = Level::demo();
    let mut set = ColliderSet::new();
    let hs = l.insert_seg(&trig, &segment, 4, 1, &mut set);
    assert_eq!(hs.len(), 2);
    assert_eq!(set.len(), 2);
    let p = l.seg_points(&trig, 4);
    let top = &set[ColliderHandle::from_raw_parts(hs[0].0, hs[0].1)];
    assert_eq!(ends(top), (g(p.top_a.x), g(p.top_a.y) + 90.0, g(p.top_b.x), g(p.top_b.y) + 90.0));
    assert_eq!(top.friction(), 0.0);
    let bottom = &set[ColliderHandle::from_raw_parts(hs[1].0, hs[1].1)];
    assert_eq!(ends(bottom).1, g(p.bot_a.y) + 90.0);
    let open = l.shaft_open_seg(0);
    assert_eq!(l.insert_seg(&trig, &segment, open, 0, &mut set).len(), 0);
    assert_eq!(set.len(), 2);
}

#[test]
fn a_sync_loads_the_window_and_nothing_else() {
    let l = Level::demo();
    let mut s = scene();
    assert!(s.check_sync(&l, (7, 2)));
    s.sync_window(&l, &trig, &segment, &hull, (7, 2));
    assert_eq!(s.synced_at, Some((7, 2)));
    for layer in 0..5 {
        for seg in -80..95 {
            let there = (1..=3).contains(&layer) && (-73..=87).contains(&seg);
            assert_eq!(s.cave.has((layer, seg)), there);
        }
    }
    // Shaft slots of the window, one beyond on each side, below and above.
    for slot in -6..6 {
        for gap in -1..5 {
            let there = (-3..=2).contains(&slot) && (1..=2).contains(&gap);
            assert_eq!(s.shafts.has((slot, gap)), there, "{slot} {gap}");
        }
    }
    for e in &s.shafts.slots {
        assert_eq!(e.item.walls[0], l.shaft_wall_pts(&trig, e.key.0, e.key.1, 0));
        assert_eq!(e.item.walls[1], l.shaft_wall_pts(&trig, e.key.0, e.key.1, 1));
        assert_eq!(e.handles.len(), e.item.walls[0].len() + e.item.walls[1].len() - 2);
        let first = &s.world.colliders[ColliderHandle::from_raw_parts(e.handles[0].0, e.handles[0].1)];
        let w = &e.item.walls[0];
        assert_eq!(ends(first), (g(w[0].x), g(w[0].y), g(w[1].x), g(w[1].y)));
    }
    let (from, to) = ((-73.0 * 3.0 - 3.0) / 16.0f32, (88.0 * 3.0 + 3.0) / 16.0f32);
    let (from, to) = (from.floor() as i64, to.ceil() as i64);
    for layer in 0..5 {
        for k in from - 3..to + 4 {
            let there = (1..=3).contains(&layer)
                && (from..=to).contains(&k)
                && l.obstacle_spec(&trig, k).is_some();
            assert_eq!(s.obstacles.has((k, layer)), there);
        }
    }
    for e in &s.obstacles.slots {
        let ob = l.obstacle_spec(&trig, e.key.0).unwrap();
        assert_eq!((e.item.cx, e.item.rot), (ob.cx, ob.rot));
        assert_eq!(e.item.cy, f(g(ob.cy) + e.key.1 as f32 * 90.0));
    }
    let (from, to) = ((-73.0 * 3.0 - 20.0) / 130.0f32, (88.0 * 3.0 + 20.0) / 130.0f32);
    let (from, to) = (from.floor() as i64, to.ceil() as i64);
    for p in from - 2..to + 3 {
        let there = (from..=to).contains(&p) && l.pad_spec(&trig, p).is_some();
        assert_eq!(s.pads.has((p, 2)), there);
    }
    for e in &s.pads.slots {
        let pad = l.pad_spec(&trig, e.key.0).unwrap();
        assert_eq!(e.item.cx, pad.cx);
        assert_eq!(e.item.y, f(g(pad.y) + e.key.1 as f32 * 90.0));
        let deck = &s.world.colliders[ColliderHandle::from_raw_parts(e.handles[0].0, e.handles[0].1)];
        assert_eq!(ends(deck), (g(pad.cx) - 3.0, g(e.item.y), g(pad.cx) + 3.0, g(e.item.y)));
        assert_eq!(deck.friction(), 0.9);
    }
    // Standing still changes nothing; moving on keeps what stays.
    let before: Vec<((i64, i64), Vec<(u32, u32)>)> =
        s.cave.slots.iter().map(|e| (e.key, e.handles.clone())).collect();
    let n = s.world.colliders.len();
    s.sync_window(&l, &trig, &segment, &hull, (7, 2));
    assert_eq!((s.world.colliders.len(), s.world.removed), (n, 0));
    s.sync_window(&l, &trig, &segment, &hull, (10, 2));
    assert!(s.world.removed > 0);
    for e in &s.cave.slots {
        if e.key.1 <= 87 {
            assert!(before.contains(&(e.key, e.handles.clone())));
        }
    }
    s.sync_window(&l, &trig, &segment, &hull, (100_000, -40));
    assert_eq!(s.cave.slots.len(), 3 * 161);
    assert!(!s.cave.has((2, 10)) && s.cave.has((-40, 100_000)));
}

#[test]
fn switches_leave_their_windows_empty() {
    let l = Level::parse("shafts = off\nobstacles = off");
    let mut s = scene();
    s.sync_window(&l, &trig, &segment, &hull, (0, 0));
    assert_eq!((s.shafts.slots.len(), s.obstacles.slots.len()), (0, 0));
    let l = Level::demo();
    let mut s = scene();
    s.sync_window(&l, &trig, &segment, &no_hull, (0, 0));
    assert_eq!(s.obstacles.slots.len(), 0, "a boulder without a hull is left out");
}

#[test]
fn finish_pads_are_loaded_by_where_they_stand() {
    let l = Level::parse("goal_distance = 1000\nendless = on\nseed = 9");
    let mut s = scene();
    s.sync_window(&l, &trig, &segment, &hull, (0, 0));
    assert!(!s.pads.has((i64::MAX, 0)) && !s.pads.has((i64::MAX - 1, 0)));
    s.sync_window(&l, &trig, &segment, &hull, (260, 0));
    assert!(s.pads.has((i64::MAX, -1)) && s.pads.has((i64::MAX, 0)) && s.pads.has((i64::MAX, 1)));
    assert!(!s.pads.has((i64::MAX - 1, 0)));
    let n = s.world.removed;
    s.sync_window(&l, &trig, &segment, &hull, (260, 0));
    assert_eq!(s.world.removed, n, "and not loaded anew");
    s.sync_window(&l, &trig, &segment, &hull, (-330, 0));
    assert!(s.pads.has((i64::MAX - 1, 0)) && !s.pads.has((i64::MAX, 0)));
}

#[test]
fn a_drawn_world_is_loaded_once() {
    let l = Level::parse("poly = 0,0 4,0 0,4\npoly = 9,0 12,0 12,1 9,1\nstart = 1,2\npad = 20,5\npad = 30,6");
    let t = l.terrain.as_ref().unwrap();
    let edges = terrain_edges(t);
    assert_eq!(edges.len(), 3 + 4 + 1);
    assert_eq!((g(edges[2].a.x), g(edges[2].a.y), g(edges[2].b.x), g(edges[2].b.y)), (0.0, 4.0, 0.0, 0.0));
    assert_eq!(edges[7].friction, f(0.9));
    assert_eq!((g(edges[7].a.x), g(edges[7].b.x), g(edges[7].a.y)), (-2.0, 4.0, 2.0));
    let mut s = scene();
    s.sync_window(&l, &trig, &segment, &hull, (i64::MAX, i64::MIN));
    assert!(s.terrain_loaded);
    assert_eq!(s.world.colliders.len(), 8 + 2);
    assert_eq!(s.pads.slots.len(), 2);
    assert_eq!((s.pads.slots[1].key, s.pads.slots[1].item.cx), ((1, 0), f(30.0)));
    s.sync_window(&l, &trig, &segment, &hull, (3, 3));
    assert_eq!(s.world.colliders.len(), 10);
    assert_eq!(s.synced_at, Some((3, 3)));
}

fn looks(s: &Scene) -> Vec<(usize, (i64, i64), usize)> {
    let mut out = Vec::new();
    for e in &s.cave.slots {
        out.push((0, e.key, e.handles.len()));
    }
    for e in &s.shafts.slots {
        out.push((1, e.key, e.handles.len()));
    }
    for e in &s.obstacles.slots {
        out.push((2, e.key, e.handles.len()));
    }
    for e in &s.pads.slots {
        out.push((3, e.key, e.handles.len()));
    }
    out
}

#[test]
fn the_place_settles_what_is_loaded() {
    let l = Level::demo();
    let (mut a, mut b) = (scene(), scene());
    for at in [(0, 0), (7, 0), (300, 2), (40, -1)] {
        a.sync_window(&l, &trig, &segment, &hull, at);
    }
    b.sync_window(&l, &trig, &segment, &hull, (40, -1));
    assert_eq!(looks(&a), looks(&b));
    for (x, y) in a.obstacles.slots.iter().zip(&b.obstacles.slots) {
        assert_eq!((x.item.cx, x.item.cy, x.item.rot), (y.item.cx, y.item.cy, y.item.rot));
        assert_eq!(x.item.verts, y.item.verts);
    }
    for (x, y) in a.shafts.slots.iter().zip(&b.shafts.slots) {
        assert_eq!(x.item.walls, y.item.walls);
    }
    assert_eq!(a.world.colliders.len(), b.world.colliders.len());
}

#[test]
fn the_same_way_gives_the_same_handles() {
    let l = Level::parse("goal_distance = 100");
    let (mut a, mut b) = (scene(), scene());
    for at in [(0, 0), (1, 0), (2, 0), (30, 1), (29, 1), (2, 0)] {
        a.sync_window(&l, &trig, &segment, &hull, at);
        b.sync_window(&l, &trig, &segment, &hull, at);
        let pairs = a.cave.slots.iter().zip(&b.cave.slots);
        assert!(pairs.into_iter().all(|(x, y)| x.handles == y.handles));
        let pairs = a.pads.slots.iter().zip(&b.pads.slots);
        assert!(pairs.into_iter().all(|(x, y)| x.key == y.key && x.handles == y.handles));
    }
}

#[test]
fn a_second_sync_at_a_place_changes_nothing() {
    fn state(s: &Scene) -> (Vec<((i64, i64), Vec<(u32, u32)>)>, usize, u32) {
        let mut all = Vec::new();
        all.extend(s.cave.slots.iter().map(|e| (e.key, e.handles.clone())));
        all.extend(s.shafts.slots.iter().map(|e| (e.key, e.handles.clone())));
        all.extend(s.obstacles.slots.iter().map(|e| (e.key, e.handles.clone())));
        all.extend(s.pads.slots.iter().map(|e| (e.key, e.handles.clone())));
        (all, s.world.colliders.len(), s.world.removed)
    }
    for text in ["", "goal_distance = 100", "shafts = off\nendless = on"] {
        let l = Level::parse(text);
        let mut s = scene();
        for at in [(0, 0), (31, 1), (-8, 0)] {
            s.sync_window(&l, &trig, &segment, &hull, at);
            let before = state(&s);
            s.sync_window(&l, &trig, &segment, &hull, at);
            assert!(state(&s) == before, "{text:?} at {at:?}");
        }
    }
    // A finish at NaN never stays: it is put in anew every time.
    let l = Level::parse("goal_distance = nan");
    let mut s = scene();
    s.sync_window(&l, &trig, &segment, &hull, (0, 0));
    let before = state(&s);
    s.sync_window(&l, &trig, &segment, &hull, (0, 0));
    assert!(state(&s) != before);
}

#[test]
fn slots_enter_line_by_line() {
    let l = Level::demo();
    let mut s = scene();
    s.sync_window(&l, &trig, &segment, &hull, (0, 0));
    let cave: Vec<u32> = s.cave.slots.iter().flat_map(|e| e.handles.iter().map(|h| h.0)).collect();
    assert!(cave.windows(2).all(|w| w[0] < w[1]), "the cave enters in key order");
    let last = *cave.last().unwrap();
    let mut stones: Vec<((i64, i64), u32)> =
        s.obstacles.slots.iter().map(|e| ((e.key.1, e.key.0), e.handles[0].0)).collect();
    stones.sort();
    assert!(stones.windows(2).all(|w| w[0].1 < w[1].1), "boulders enter layer by layer");
    assert!(stones.iter().all(|b| b.1 > last), "boulders enter after the cave");
    let stone = stones.last().unwrap().1;
    assert!(s.pads.slots.iter().all(|e| e.handles[0].0 > stone), "pads enter last");
}
