//! Landing pads: flat decks on the cave floor, and where a ship stands.

use crate::binary32::arith::{f_abs, f_add, f_div, f_mul, f_sqrt, f_sub};
use crate::binary32::convert::{f_of_int, f_round, f_to_i64};
use crate::binary32::order::{f_le, f_lt, f_max};
use crate::binary32::{fl, F32};
use crate::cave::{steady, wave_of, Wave, ONE};
use crate::level::{Level, LevelView, Vec2};
use crate::obstacle::{ObstacleSpec, OBSTACLE_SPACING};
use crate::rng::{draw, range_of, Rng};
use crate::shaft::slot_fits;
use vstd::prelude::*;

verus! {

/// `3`: half the width of a deck.
pub const PAD_HALF_W: u32 = 0x4040_0000;

/// The score of a first landing.
pub const PAD_POINTS: u32 = 100;

/// `-20` and `20`: how far a slot's pad may stand from the slot.
pub const PAD_JITTER_LO: u32 = 0xc1a0_0000;

pub const PAD_JITTER_HI: u32 = 0x41a0_0000;

/// `5`: the least half-width over a pad.
pub const PAD_MIN_HALF: u32 = 0x40a0_0000;

/// `12`: the clearance kept from a finish pad.
pub const PAD_GOAL_CLEAR: u32 = 0x4140_0000;

/// `0.5`: the distance between the points where a deck samples the floor.
pub const DECK_SAMPLE: u32 = 0x3f00_0000;

/// `0.1`: how far a deck lies above the floor.
pub const DECK_LIFT: u32 = 0x3dcc_cccd;

/// `0.78`: how far a standing ship's origin is above the ground.
pub const STAND: u32 = 0x3f47_ae14;

/// The pattern of negative infinity.
pub const NEG_INF: u32 = 0xff80_0000;

/// Slot numbers of the two finish pads, beyond any real slot.
pub const GOAL_SLOT_POS: i64 = 0x7fff_ffff_ffff_ffff;

pub const GOAL_SLOT_NEG: i64 = 0x7fff_ffff_ffff_fffe;

/// A pad: the centre and the top of its deck.
#[derive(Clone, Copy, PartialEq, Eq, Debug, Structural)]
pub struct PadSpec {
    pub cx: F32,
    pub y: F32,
}

/// The distance of a point from the origin.
pub open spec fn norm(p: Vec2) -> F32 {
    f_sqrt(f_add(f_mul(p.x, p.x), f_mul(p.y, p.y)))
}

/// The largest distance of the first `n` points from the origin.
pub open spec fn reach(pts: Seq<Vec2>, n: nat) -> F32
    decreases n,
{
    if n == 0 {
        fl(0)
    } else {
        f_max(reach(pts, (n - 1) as nat), norm(pts[n - 1]))
    }
}

/// The `i`-th point at which a deck at `cx` samples the floor.
pub open spec fn deck_point(cx: F32, i: int) -> F32 {
    f_add(f_sub(cx, fl(PAD_HALF_W)), f_mul(f_of_int(i), fl(DECK_SAMPLE)))
}

/// The ground at `x`, raised to a deck that covers `x`.
pub open spec fn raised(ground: F32, pad: Option<PadSpec>, x: F32) -> F32 {
    match pad {
        Some(p) => if f_le(f_abs(f_sub(p.cx, x)), fl(PAD_HALF_W)) {
            f_max(ground, p.y)
        } else {
            ground
        },
        None => ground,
    }
}

impl LevelView {
    /// The highest floor under the first `n` of 13 points across a deck at `cx`.
    pub open spec fn deck_floor(self, w: spec_fn(Wave, F32) -> F32, cx: F32, n: nat) -> F32
        decreases n,
    {
        if n == 0 {
            fl(NEG_INF)
        } else {
            f_max(self.deck_floor(w, cx, (n - 1) as nat), self.floor_y(w, deck_point(cx, n - 1)))
        }
    }

    /// A deck at `cx`, just above the highest floor point under it.
    pub open spec fn deck(self, w: spec_fn(Wave, F32) -> F32, cx: F32) -> PadSpec {
        PadSpec { cx, y: f_add(self.deck_floor(w, cx, 13), fl(DECK_LIFT)) }
    }

    /// The finish pad on the side `side`, if the level has a goal.
    pub open spec fn goal_pad(self, w: spec_fn(Wave, F32) -> F32, side: int) -> Option<PadSpec> {
        if f_le(self.goal_distance, fl(0)) {
            None
        } else {
            Some(self.deck(w, f_mul(self.goal_distance, f_of_int(side))))
        }
    }

    /// Where slot `p` would put its pad.
    pub open spec fn pad_x(self, p: int) -> F32 {
        f_add(
            f_mul(f_of_int(p), self.pad_spacing),
            range_of(
                draw(self.slot_seed(p as u32) ^ 0x50ad_5eed, 1),
                fl(PAD_JITTER_LO),
                fl(PAD_JITTER_HI),
            ),
        )
    }

    /// Whether the boulder of slot `k` reaches a deck at `cx`.
    pub open spec fn boulder_hits(self, w: spec_fn(Wave, F32) -> F32, cx: F32, k: int) -> bool {
        match self.obstacle(w, k) {
            Some(ob) => f_lt(
                f_abs(f_sub(ob.cx, cx)),
                f_add(f_add(reach(ob.pts, ob.pts.len()), fl(PAD_HALF_W)), fl(ONE)),
            ),
            None => false,
        }
    }

    /// Whether any boulder reaches a deck at `cx`.
    pub open spec fn boulder_at(self, w: spec_fn(Wave, F32) -> F32, cx: F32) -> bool {
        let k0 = f_to_i64(f_round(f_div(cx, fl(OBSTACLE_SPACING)))) as int;
        self.boulder_hits(w, cx, k0 - 1) || self.boulder_hits(w, cx, k0) || self.boulder_hits(
            w,
            cx,
            k0 + 1,
        )
    }

    /// The pad of slot `p`, if its place is free: high enough, and clear of
    /// the finish, of shafts and of boulders.
    pub open spec fn pad(self, w: spec_fn(Wave, F32) -> F32, p: int) -> Option<PadSpec> {
        let cx = self.pad_x(p);
        if f_lt(self.half_width(w, cx), fl(PAD_MIN_HALF)) || self.near_goal(cx, fl(PAD_GOAL_CLEAR))
            || self.near_shaft(cx) || self.boulder_at(w, cx) {
            None
        } else {
            Some(self.deck(w, cx))
        }
    }

    /// The height of a ship that stands at `x`.
    pub open spec fn stand(self, w: spec_fn(Wave, F32) -> F32, x: F32) -> F32 {
        match self.terrain {
            Some(t) => f_add(t.spawn_y, fl(STAND)),
            None => {
                let p0 = f_to_i64(f_round(f_div(x, self.pad_spacing))) as int;
                let g0 = self.floor_y(w, x);
                let g1 = raised(g0, self.pad(w, p0 - 1), x);
                let g2 = raised(g1, self.pad(w, p0), x);
                let g3 = raised(g2, self.pad(w, p0 + 1), x);
                let g4 = raised(g3, self.goal_pad(w, 1), x);
                let g5 = raised(g4, self.goal_pad(w, -1), x);
                f_add(g5, fl(STAND))
            },
        }
    }
}

fn boulder_reach(ob: &ObstacleSpec) -> (r: F32)
    ensures
        r == reach(ob.pts@, ob.pts@.len()),
{
    let mut far: F32 = fl(0);
    let mut i: usize = 0;
    while i < ob.pts.len()
        invariant
            i <= ob.pts.len(),
            far == reach(ob.pts@, i as nat),
        decreases ob.pts.len() - i,
    {
        let q: Vec2 = ob.pts[i];
        far = far.max(q.x.times(q.x).plus(q.y.times(q.y)).sqrt());
        i = i + 1;
    }
    far
}

fn raise(ground: F32, pad: Option<PadSpec>, x: F32) -> (r: F32)
    ensures
        r == raised(ground, pad, x),
{
    match pad {
        Some(p) => if p.cx.minus(x).abs().le(fl(PAD_HALF_W)) {
            ground.max(p.y)
        } else {
            ground
        },
        None => ground,
    }
}

impl Level {
    fn deck_at<T: Fn(Wave, F32) -> F32>(&self, trig: &T, cx: F32) -> (r: PadSpec)
        requires
            steady(*trig),
        ensures
            r == self@.deck(wave_of(*trig), cx),
    {
        let mut y: F32 = fl(NEG_INF);
        let mut i: i64 = 0;
        while i < 13
            invariant
                steady(*trig),
                0 <= i <= 13,
                y == self@.deck_floor(wave_of(*trig), cx, i as nat),
            decreases 13 - i,
        {
            let x: F32 = cx.minus(fl(PAD_HALF_W)).plus(F32::of_i64(i).times(fl(DECK_SAMPLE)));
            y = y.max(self.floor_y(trig, x));
            i = i + 1;
        }
        PadSpec { cx, y: y.plus(fl(DECK_LIFT)) }
    }

    /// The finish pad on the side `side`, if the level has a goal.
    pub fn goal_pad_spec<T: Fn(Wave, F32) -> F32>(&self, trig: &T, side: i8) -> (r: Option<PadSpec>)
        requires
            steady(*trig),
        ensures
            r == self@.goal_pad(wave_of(*trig), side as int),
    {
        if self.goal_distance.le(fl(0)) {
            return None;
        }
        let cx: F32 = self.goal_distance.times(F32::of_i64(side as i64));
        Some(self.deck_at(trig, cx))
    }

    fn boulder_blocks<T: Fn(Wave, F32) -> F32>(&self, trig: &T, cx: F32, k: i128) -> (r: bool)
        requires
            steady(*trig),
            slot_fits(k as int),
        ensures
            r == self@.boulder_hits(wave_of(*trig), cx, k as int),
    {
        match self.obstacle_at(trig, k) {
            Some(ob) => ob.cx.minus(cx).abs().lt(
                boulder_reach(&ob).plus(fl(PAD_HALF_W)).plus(fl(ONE)),
            ),
            None => false,
        }
    }

    fn pad_at<T: Fn(Wave, F32) -> F32>(&self, trig: &T, p: i128) -> (r: Option<PadSpec>)
        requires
            steady(*trig),
            slot_fits(p as int),
        ensures
            r == self@.pad(wave_of(*trig), p as int),
    {
        #[verifier::truncate]
        let low: u32 = p as u32;
        let mut rng: Rng = Rng::new(self.slot_seed(low) ^ 0x50ad_5eed);
        let cx: F32 = F32::of_int(p).times(self.pad_spacing).plus(
            rng.range(fl(PAD_JITTER_LO), fl(PAD_JITTER_HI)),
        );
        assert(cx == self@.pad_x(p as int)) by {
            reveal_with_fuel(draw, 2);
        }
        if self.cave_half_width(trig, cx).lt(fl(PAD_MIN_HALF)) {
            return None;
        }
        if self.is_near_goal(cx, fl(PAD_GOAL_CLEAR)) {
            return None;
        }
        if self.is_near_shaft(cx) {
            return None;
        }
        let k0: i128 = cx.over(fl(OBSTACLE_SPACING)).round().to_i64() as i128;
        if self.boulder_blocks(trig, cx, k0 - 1) || self.boulder_blocks(trig, cx, k0)
            || self.boulder_blocks(trig, cx, k0 + 1) {
            return None;
        }
        Some(self.deck_at(trig, cx))
    }

    /// The pad of slot `p`, if its place is free.
    pub fn pad_spec<T: Fn(Wave, F32) -> F32>(&self, trig: &T, p: i64) -> (r: Option<PadSpec>)
        requires
            steady(*trig),
        ensures
            r == self@.pad(wave_of(*trig), p as int),
    {
        self.pad_at(trig, p as i128)
    }

    /// The height of a ship that stands at `x`.
    pub fn stand_y<T: Fn(Wave, F32) -> F32>(&self, trig: &T, x: F32) -> (r: F32)
        requires
            steady(*trig),
        ensures
            r == self@.stand(wave_of(*trig), x),
    {
        match &self.terrain {
            Some(t) => {
                return t.spawn_y.plus(fl(STAND));
            },
            None => {},
        }
        let mut ground: F32 = self.floor_y(trig, x);
        let p0: i128 = x.over(self.pad_spacing).round().to_i64() as i128;
        ground = raise(ground, self.pad_at(trig, p0 - 1), x);
        ground = raise(ground, self.pad_at(trig, p0), x);
        ground = raise(ground, self.pad_at(trig, p0 + 1), x);
        ground = raise(ground, self.goal_pad_spec(trig, 1), x);
        ground = raise(ground, self.goal_pad_spec(trig, -1), x);
        ground.plus(fl(STAND))
    }
}

} // verus!
