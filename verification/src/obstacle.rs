//! Boulders: one slot every 16 m, each a fixed convex polygon or nothing.

use crate::binary32::arith::{f_abs, f_add, f_div, f_mul, f_neg, f_sub};
use crate::binary32::convert::{f_floor, f_of_int, f_to_i64};
use crate::binary32::order::{f_lt, f_max, f_min};
use crate::binary32::{fl, F32};
use crate::cave::{sample, steady, wave_of, Wave, ONE, SEG_LEN, TAU};
use crate::level::{Level, LevelView, Vec2};
use crate::rng::{draw, range_int_of, range_of, Rng};
use crate::shaft::{slot_fits, SHAFT_BASE_SEG, SHAFT_SPACING_SEGS};
use vstd::prelude::*;

verus! {

/// `16`: metres from slot to slot.
pub const OBSTACLE_SPACING: u32 = 0x4180_0000;

/// `64`: a spot that boulders keep clear of, as they do of the start.
pub const RESET_X: u32 = 0x4280_0000;

/// `-3` and `3`: how far a slot's boulder may stand from the slot.
pub const OBSTACLE_JITTER_LO: u32 = 0xc040_0000;

pub const OBSTACLE_JITTER_HI: u32 = 0x4040_0000;

/// `9`: the clearance kept from the start, the reset spot and the finish.
pub const OBSTACLE_CLEAR: u32 = 0x4110_0000;

/// `4.5`: the least half-width that holds a boulder.
pub const OBSTACLE_MIN_HALF: u32 = 0x4090_0000;

/// `8`: the clearance kept from shaft openings.
pub const SHAFT_CLEAR: u32 = 0x4100_0000;

/// `0.65` of the half-width, at most `5.5`: the largest radius.
pub const RADIUS_SHARE: u32 = 0x3f26_6666;

pub const RADIUS_MAX: u32 = 0x40b0_0000;

/// `0.3`: the smallest share of the largest radius.
pub const RADIUS_LEAST: u32 = 0x3e99_999a;

/// `1.3`: the clearance kept to the nearer wall.
pub const WALL_CLEAR: u32 = 0x3fa6_6666;

/// `-0.25` and `0.25`: how far a vertex may leave its even angle.
pub const VERTEX_TURN_LO: u32 = 0xbe80_0000;

pub const VERTEX_TURN_HI: u32 = 0x3e80_0000;

/// `0.6`: the least share of the radius at a vertex.
pub const VERTEX_LEAST: u32 = 0x3f19_999a;

/// A boulder: its centre, its rotation, and the points whose convex hull it is.
#[derive(Debug)]
pub struct ObstacleSpec {
    pub cx: F32,
    pub cy: F32,
    pub rot: F32,
    pub pts: Vec<Vec2>,
}

/// What an `ObstacleSpec` holds.
#[verifier::ext_equal]
pub struct ObstacleView {
    pub cx: F32,
    pub cy: F32,
    pub rot: F32,
    pub pts: Seq<Vec2>,
}

impl View for ObstacleSpec {
    type V = ObstacleView;

    open spec fn view(&self) -> ObstacleView {
        ObstacleView { cx: self.cx, cy: self.cy, rot: self.rot, pts: self.pts@ }
    }
}

/// The view of an optional boulder.
pub open spec fn obstacle_view(o: Option<ObstacleSpec>) -> Option<ObstacleView> {
    match o {
        Some(o) => Some(o@),
        None => None,
    }
}

/// The segment that `x` lies in.
pub open spec fn segment_at(x: F32) -> i64 {
    f_to_i64(f_floor(f_div(x, fl(SEG_LEN))))
}

impl LevelView {
    /// Whether `cx` is within 8 m of the opening of shaft slot `s`.
    pub open spec fn by_shaft(self, cx: F32, s: int) -> bool {
        f_lt(f_sub(self.shaft_edge(s, 0), fl(SHAFT_CLEAR)), cx) && f_lt(
            cx,
            f_add(self.shaft_edge(s, 1), fl(SHAFT_CLEAR)),
        )
    }

    /// Whether `cx` is too close to a shaft to build on.
    pub open spec fn near_shaft(self, cx: F32) -> bool {
        let s0 = (segment_at(cx) - SHAFT_BASE_SEG) as int / SHAFT_SPACING_SEGS as int;
        self.shafts && (self.by_shaft(cx, s0) || self.by_shaft(cx, s0 + 1))
    }

    /// Whether `cx` is within `gap` of a finish pad.
    pub open spec fn near_goal(self, cx: F32, gap: F32) -> bool {
        f_lt(fl(0), self.goal_distance) && f_lt(f_abs(f_sub(f_abs(cx), self.goal_distance)), gap)
    }

    /// The seed of slot `k`.
    pub open spec fn obstacle_seed(self, k: int) -> u32 {
        self.slot_seed(k as u32)
    }

    /// Where slot `k` would put its boulder.
    pub open spec fn obstacle_x(self, k: int) -> F32 {
        f_add(
            f_mul(f_of_int(k), fl(OBSTACLE_SPACING)),
            range_of(draw(self.obstacle_seed(k), 1), fl(OBSTACLE_JITTER_LO), fl(OBSTACLE_JITTER_HI)),
        )
    }

    /// Whether slot `k` holds a boulder: the level has them, the spot is not
    /// kept clear, the cave is wide enough, and the draw does not leave it out.
    pub open spec fn has_obstacle(self, w: spec_fn(Wave, F32) -> F32, k: int) -> bool {
        let cx = self.obstacle_x(k);
        &&& self.obstacles
        &&& !f_lt(f_abs(cx), fl(OBSTACLE_CLEAR))
        &&& !f_lt(f_abs(f_sub(cx, fl(RESET_X))), fl(OBSTACLE_CLEAR))
        &&& !self.near_goal(cx, fl(OBSTACLE_CLEAR))
        &&& !f_lt(self.half_width(w, cx), fl(OBSTACLE_MIN_HALF))
        &&& !self.near_shaft(cx)
        &&& range_int_of(draw(self.obstacle_seed(k), 2), 0, 5) != 0
    }

    /// The radius of the boulder of slot `k`.
    pub open spec fn obstacle_radius(self, w: spec_fn(Wave, F32) -> F32, k: int) -> F32 {
        let hw = self.half_width(w, self.obstacle_x(k));
        f_mul(
            range_of(draw(self.obstacle_seed(k), 3), fl(RADIUS_LEAST), fl(ONE)),
            f_min(f_mul(hw, fl(RADIUS_SHARE)), fl(RADIUS_MAX)),
        )
    }

    /// The height of the boulder of slot `k`.
    pub open spec fn obstacle_y(self, w: spec_fn(Wave, F32) -> F32, k: int) -> F32 {
        let cx = self.obstacle_x(k);
        let r = self.obstacle_radius(w, k);
        let off = f_max(f_sub(f_sub(self.half_width(w, cx), r), fl(WALL_CLEAR)), fl(0));
        f_add(self.center(w, cx), range_of(draw(self.obstacle_seed(k), 4), f_neg(off), off))
    }

    /// How many points the boulder of slot `k` has: 6 to 9.
    pub open spec fn obstacle_points(self, k: int) -> int {
        range_int_of(draw(self.obstacle_seed(k), 5), 6, 9)
    }

    /// Point `i` of the boulder of slot `k`: evenly spread angles, each turned
    /// a little, at a share of the radius.
    pub open spec fn obstacle_point(self, w: spec_fn(Wave, F32) -> F32, k: int, i: int) -> Vec2 {
        let seed = self.obstacle_seed(k);
        let n = self.obstacle_points(k);
        let even = f_mul(f_div(f_of_int(i), f_of_int(n)), fl(TAU));
        let ang = f_add(
            even,
            range_of(draw(seed, (6 + 2 * i) as nat), fl(VERTEX_TURN_LO), fl(VERTEX_TURN_HI)),
        );
        let rad = f_mul(
            self.obstacle_radius(w, k),
            range_of(draw(seed, (7 + 2 * i) as nat), fl(VERTEX_LEAST), fl(ONE)),
        );
        Vec2 { x: f_mul(rad, w(Wave::Cos, ang)), y: f_mul(rad, w(Wave::Sin, ang)) }
    }

    /// The boulder of slot `k`, if it holds one.
    pub open spec fn obstacle(self, w: spec_fn(Wave, F32) -> F32, k: int) -> Option<ObstacleView> {
        if self.has_obstacle(w, k) {
            let n = self.obstacle_points(k);
            Some(
                ObstacleView {
                    cx: self.obstacle_x(k),
                    cy: self.obstacle_y(w, k),
                    rot: range_of(
                        draw(self.obstacle_seed(k), (6 + 2 * n) as nat),
                        fl(0),
                        fl(TAU),
                    ),
                    pts: Seq::new(n as nat, |i: int| self.obstacle_point(w, k, i)),
                },
            )
        } else {
            None
        }
    }
}

impl Level {
    pub(crate) fn is_near_shaft(&self, cx: F32) -> (r: bool)
        ensures
            r == self@.near_shaft(cx),
    {
        if !self.shafts {
            return false;
        }
        let seg: i64 = cx.over(fl(SEG_LEN)).floor().to_i64();
        let (s0, s1) = self.slots_near(seg);
        let (a0, a1) = self.opening_x(s0);
        let (b0, b1) = self.opening_x(s1);
        let clear: F32 = fl(SHAFT_CLEAR);
        (a0.minus(clear).lt(cx) && cx.lt(a1.plus(clear))) || (b0.minus(clear).lt(cx) && cx.lt(
            b1.plus(clear),
        ))
    }

    pub(crate) fn is_near_goal(&self, cx: F32, gap: F32) -> (r: bool)
        ensures
            r == self@.near_goal(cx, gap),
    {
        fl(0).lt(self.goal_distance) && cx.abs().minus(self.goal_distance).abs().lt(gap)
    }

    /// The boulder of slot `k`, if it holds one.
    pub fn obstacle_spec<T: Fn(Wave, F32) -> F32>(&self, trig: &T, k: i64) -> (r: Option<ObstacleSpec>)
        requires
            steady(*trig),
        ensures
            obstacle_view(r) == self@.obstacle(wave_of(*trig), k as int),
    {
        self.obstacle_at(trig, k as i128)
    }

    pub(crate) fn obstacle_at<T: Fn(Wave, F32) -> F32>(&self, trig: &T, k: i128) -> (r: Option<ObstacleSpec>)
        requires
            steady(*trig),
            slot_fits(k as int),
        ensures
            obstacle_view(r) == self@.obstacle(wave_of(*trig), k as int),
    {
        let ghost w = wave_of(*trig);
        let ghost lv = self@;
        let ghost kk = k as int;
        if !self.obstacles {
            return None;
        }
        #[verifier::truncate]
        let low: u32 = k as u32;
        let seed: u32 = self.slot_seed(low);
        let mut rng: Rng = Rng::new(seed);
        let cx: F32 = F32::of_int(k).times(fl(OBSTACLE_SPACING)).plus(
            rng.range(fl(OBSTACLE_JITTER_LO), fl(OBSTACLE_JITTER_HI)),
        );
        assert(rng@ == draw(seed, 1)) by {
            reveal_with_fuel(draw, 2);
        }
        assert(cx == lv.obstacle_x(kk));
        let clear: F32 = fl(OBSTACLE_CLEAR);
        if cx.abs().lt(clear) || cx.minus(fl(RESET_X)).abs().lt(clear) {
            return None;
        }
        if self.is_near_goal(cx, clear) {
            return None;
        }
        let cy_wall: F32 = self.cave_center(trig, cx);
        let hw: F32 = self.cave_half_width(trig, cx);
        if hw.lt(fl(OBSTACLE_MIN_HALF)) {
            return None;
        }
        if self.is_near_shaft(cx) {
            return None;
        }
        let keep: i32 = rng.range_int(0, 5);
        assert(rng@ == draw(seed, 2));
        if keep == 0 {
            return None;
        }
        assert(lv.has_obstacle(w, kk));
        let max_r: F32 = hw.times(fl(RADIUS_SHARE)).min(fl(RADIUS_MAX));
        let r: F32 = rng.range(fl(RADIUS_LEAST), fl(ONE)).times(max_r);
        assert(rng@ == draw(seed, 3));
        assert(r == lv.obstacle_radius(w, kk));
        let max_off: F32 = hw.minus(r).minus(fl(WALL_CLEAR)).max(fl(0));
        let cy: F32 = cy_wall.plus(rng.range(max_off.negate(), max_off));
        assert(rng@ == draw(seed, 4));
        assert(cy == lv.obstacle_y(w, kk));
        let n: i32 = rng.range_int(6, 9);
        assert(rng@ == draw(seed, 5));
        let ghost whole = Seq::new(n as nat, |i: int| lv.obstacle_point(w, kk, i));
        let mut pts: Vec<Vec2> = Vec::new();
        let mut i: i32 = 0;
        while i < n
            invariant
                steady(*trig),
                w == wave_of(*trig),
                lv == self@,
                seed == lv.obstacle_seed(kk),
                r == lv.obstacle_radius(w, kk),
                n == lv.obstacle_points(kk),
                6 <= n <= 9,
                0 <= i <= n,
                rng@ == draw(seed, (5 + 2 * i) as nat),
                whole == Seq::new(n as nat, |i: int| lv.obstacle_point(w, kk, i)),
                pts@ == whole.subrange(0, i as int),
            decreases n - i,
        {
            let even: F32 = F32::of_i64(i as i64).over(F32::of_i64(n as i64)).times(fl(TAU));
            let ang: F32 = even.plus(rng.range(fl(VERTEX_TURN_LO), fl(VERTEX_TURN_HI)));
            assert(rng@ == draw(seed, (6 + 2 * i) as nat));
            let rad: F32 = r.times(rng.range(fl(VERTEX_LEAST), fl(ONE)));
            assert(rng@ == draw(seed, (7 + 2 * i) as nat));
            let x: F32 = rad.times(sample(trig, Wave::Cos, ang));
            let y: F32 = rad.times(sample(trig, Wave::Sin, ang));
            pts.push(Vec2 { x, y });
            assert(pts@ =~= whole.subrange(0, i + 1));
            i = i + 1;
        }
        assert(whole.subrange(0, n as int) =~= whole);
        let rot: F32 = rng.range(fl(0), fl(TAU));
        assert(rng@ == draw(seed, (6 + 2 * n) as nat));
        Some(ObstacleSpec { cx, cy, rot, pts })
    }
}

} // verus!
