//! Vertical shafts: where they pierce the cave walls, and the shape of their
//! own walls.

use crate::binary32::arith::{f_add, f_div, f_mul, f_sub};
use crate::binary32::convert::{f_ceil, f_of_int, f_to_usize};
use crate::binary32::order::{f_clamp, f_le, f_max, f_min};
use crate::binary32::{fl, F32};
use crate::cave::{
    fraction16, low_fraction, sample, steady, wave_of, Wave, FIVE, ONE, SEG_LEN, TAU, TWO,
};
use crate::level::{Level, LevelView, Vec2};
use crate::rng::{hash, hash_u32};
use vstd::prelude::*;

verus! {

/// `90`: the world repeats every so many metres upwards.
pub const V_PERIOD: u32 = 0x42b4_0000;

/// Segments from one shaft slot to the next.
pub const SHAFT_SPACING_SEGS: i64 = 50;

/// The segment of slot 0, before jitter.
pub const SHAFT_BASE_SEG: i64 = 35;

/// Segments that an opening takes.
pub const SHAFT_OPEN_SEGS: i64 = 3;

/// `3`: the length of a wall segment.
pub const SHAFT_STEP: u32 = 0x4040_0000;

/// `0.18`: the part of a wall at either end over which it leaves the edge.
pub const ENVELOPE: u32 = 0x3e38_51ec;

/// `0.9` and `0.35`: the two wiggles of a wall.
pub const WIGGLE_WIDE: u32 = 0x3f66_6666;

pub const WIGGLE_FINE: u32 = 0x3eb3_3333;

impl LevelView {
    /// How far slot `s` is shifted, in segments: -6 to 6, alike for slots
    /// that are four apart.
    pub open spec fn shaft_jitter(self, s: int) -> int {
        (hash(self.slot_seed((s % 4) as u32) ^ 0x51ed_270b) % 13) as int - 6
    }

    /// The first segment of the opening of slot `s`.
    pub open spec fn shaft_open(self, s: int) -> int {
        s * SHAFT_SPACING_SEGS + SHAFT_BASE_SEG + self.shaft_jitter(s)
    }

    /// Whether slot `s` opens segment `idx`.
    pub open spec fn opens(self, s: int, idx: int) -> bool {
        self.shaft_open(s) <= idx < self.shaft_open(s) + SHAFT_OPEN_SEGS
    }

    /// Whether segment `idx` lies in the opening of any shaft.
    pub open spec fn in_opening(self, idx: int) -> bool {
        self.shafts && exists|s: int| #[trigger] self.opens(s, idx)
    }

    /// The x of the left (`side` 0) or right edge of the opening of slot `s`.
    pub open spec fn shaft_edge(self, s: int, side: u8) -> F32 {
        let seg = if side == 0 {
            self.shaft_open(s)
        } else {
            self.shaft_open(s) + SHAFT_OPEN_SEGS
        };
        f_mul(f_of_int(seg), fl(SEG_LEN))
    }

    /// The hash that shapes one wall of slot `s`.
    pub open spec fn wall_hash(self, s: int, side: u8) -> u32 {
        hash(self.slot_seed((s % 4) as u32) ^ ((side as u32) << 8) ^ 0xabc0_ffee)
    }

    /// The x of a wall of slot `s` at height `t` of its run.
    pub open spec fn wall_x(self, w: spec_fn(Wave, F32) -> F32, s: int, side: u8, t: F32) -> F32 {
        let h = self.wall_hash(s, side);
        let p1 = f_mul(fraction16(h), fl(TAU));
        let p2 = f_mul(fraction16(h >> 16), fl(TAU));
        let env = wall_envelope(t);
        let wide = w(Wave::Sin, f_add(f_mul(f_mul(t, fl(TAU)), fl(TWO)), p1));
        let fine = w(Wave::Sin, f_add(f_mul(f_mul(t, fl(TAU)), fl(FIVE)), p2));
        f_add(
            self.shaft_edge(s, side),
            f_mul(env, f_add(f_mul(wide, fl(WIGGLE_WIDE)), f_mul(fine, fl(WIGGLE_FINE)))),
        )
    }

    /// Where the shaft of slot `s` leaves the ceiling of layer `gap`.
    pub open spec fn wall_bottom(self, w: spec_fn(Wave, F32) -> F32, s: int, gap: int, side: u8) -> F32 {
        let xe = self.shaft_edge(s, side);
        f_add(
            f_add(f_mul(f_of_int(gap), fl(V_PERIOD)), self.center(w, xe)),
            self.half_width(w, xe),
        )
    }

    /// Where it meets the floor of the layer above.
    pub open spec fn wall_top(self, w: spec_fn(Wave, F32) -> F32, s: int, gap: int, side: u8) -> F32 {
        let xe = self.shaft_edge(s, side);
        f_sub(
            f_add(f_mul(f_of_int(gap + 1), fl(V_PERIOD)), self.center(w, xe)),
            self.half_width(w, xe),
        )
    }

    /// How many segments make up the wall.
    pub open spec fn wall_steps(self, w: spec_fn(Wave, F32) -> F32, s: int, gap: int, side: u8) -> usize {
        let rise = f_sub(self.wall_top(w, s, gap, side), self.wall_bottom(w, s, gap, side));
        f_to_usize(f_max(f_ceil(f_div(rise, fl(SHAFT_STEP))), fl(ONE)))
    }

    /// Point `i` of the wall.
    pub open spec fn wall_point(self, w: spec_fn(Wave, F32) -> F32, s: int, gap: int, side: u8, i: int) -> Vec2 {
        let bot = self.wall_bottom(w, s, gap, side);
        let top = self.wall_top(w, s, gap, side);
        let t = f_div(f_of_int(i), f_of_int(self.wall_steps(w, s, gap, side) as int));
        Vec2 { x: self.wall_x(w, s, side, t), y: f_add(bot, f_mul(f_sub(top, bot), t)) }
    }

    /// The wall from the ceiling of layer `gap` to the floor above.
    pub open spec fn wall(self, w: spec_fn(Wave, F32) -> F32, s: int, gap: int, side: u8) -> Seq<Vec2> {
        Seq::new(
            (self.wall_steps(w, s, gap, side) + 1) as nat,
            |i: int| self.wall_point(w, s, gap, side, i),
        )
    }
}

/// How much of its wiggle a wall shows at height `t`: none at either end.
pub open spec fn wall_envelope(t: F32) -> F32 {
    f_clamp(f_div(f_min(t, f_sub(fl(ONE), t)), fl(ENVELOPE)), fl(0), fl(ONE))
}

/// `a / b` rounded down.
pub(crate) fn floor_div(a: i128, b: i128) -> (r: i128)
    requires
        b == 50,
        -0x1_0000_0000_0000_0000_0000 <= a <= 0x1_0000_0000_0000_0000_0000,
    ensures
        r == a as int / b as int,
{
    if a >= 0 {
        a / b
    } else {
        -((-(a + 1)) / b) - 1
    }
}

/// A bound on slot numbers that leaves room for every sum here.
pub open spec fn slot_fits(s: int) -> bool {
    -0x1_0000_0000_0000_0000 <= s <= 0x1_0000_0000_0000_0000
}

impl Level {
    fn shaft_salt(&self, s: i128) -> (r: u32)
        requires
            slot_fits(s as int),
        ensures
            r == self@.slot_seed((s as int % 4) as u32),
    {
        let m: u32 = if s >= 0 {
            (s % 4) as u32
        } else {
            (3 - (-(s + 1)) % 4) as u32
        };
        self.slot_seed(m)
    }

    pub(crate) fn open_at(&self, s: i128) -> (r: i128)
        requires
            slot_fits(s as int),
        ensures
            r == self@.shaft_open(s as int),
            -0x1000_0000_0000_0000_0000 <= r <= 0x1000_0000_0000_0000_0000,
    {
        let j: i128 = (hash_u32(self.shaft_salt(s) ^ 0x51ed_270b) % 13) as i128 - 6;
        s * 50 + SHAFT_BASE_SEG as i128 + j
    }

    /// The first segment of the opening of slot `s`.
    pub fn shaft_open_seg(&self, s: i64) -> (r: i64)
        requires
            i64::MIN <= self@.shaft_open(s as int) <= i64::MAX,
        ensures
            r == self@.shaft_open(s as int),
    {
        self.open_at(s as i128) as i64
    }

    /// Whether segment `idx` lies in the opening of a shaft.
    pub fn seg_in_opening(&self, idx: i64) -> (r: bool)
        ensures
            r == self@.in_opening(idx as int),
    {
        if !self.shafts {
            return false;
        }
        let i: i128 = idx as i128;
        let s0: i128 = floor_div(i - SHAFT_BASE_SEG as i128, SHAFT_SPACING_SEGS as i128);
        let a: i128 = self.open_at(s0);
        let b: i128 = self.open_at(s0 + 1);
        let n: i128 = SHAFT_OPEN_SEGS as i128;
        proof {
            assert(self@.opens(s0 as int, idx as int) == (a <= i < a + n));
            assert(self@.opens(s0 + 1, idx as int) == (b <= i < b + n));
            assert forall|s: int| #[trigger] self@.opens(s, idx as int) implies s == s0 || s == s0 + 1 by {
                assert(-6 <= self@.shaft_jitter(s) <= 6);
            }
        }
        (i >= a && i < a + n) || (i >= b && i < b + n)
    }

    fn edge_x(&self, s: i128, side: u8) -> (r: F32)
        requires
            slot_fits(s as int),
        ensures
            r == self@.shaft_edge(s as int, side),
    {
        let o: i128 = self.open_at(s);
        let seg: i128 = if side == 0 {
            o
        } else {
            o + SHAFT_OPEN_SEGS as i128
        };
        F32::of_int(seg).times(fl(SEG_LEN))
    }

    /// The edges of the opening of slot `s`.
    pub(crate) fn opening_x(&self, s: i128) -> (r: (F32, F32))
        requires
            slot_fits(s as int),
        ensures
            r == (self@.shaft_edge(s as int, 0), self@.shaft_edge(s as int, 1)),
    {
        (self.edge_x(s, 0), self.edge_x(s, 1))
    }

    /// The slots whose openings can reach segment `seg`.
    pub(crate) fn slots_near(&self, seg: i64) -> (r: (i128, i128))
        ensures
            r.0 == (seg - SHAFT_BASE_SEG) as int / SHAFT_SPACING_SEGS as int,
            r.1 == r.0 + 1,
            slot_fits(r.0 as int),
            slot_fits(r.1 as int),
    {
        let s0: i128 = floor_div(seg as i128 - SHAFT_BASE_SEG as i128, SHAFT_SPACING_SEGS as i128);
        (s0, s0 + 1)
    }

    /// The x of a wall of slot `s` at height `t` of its run.
    pub fn shaft_wall_x<T: Fn(Wave, F32) -> F32>(&self, trig: &T, s: i64, side: u8, t: F32) -> (r: F32)
        requires
            steady(*trig),
        ensures
            r == self@.wall_x(wave_of(*trig), s as int, side, t),
    {
        let edge: F32 = self.edge_x(s as i128, side);
        let h: u32 = hash_u32(self.shaft_salt(s as i128) ^ ((side as u32) << 8) ^ 0xabc0_ffee);
        let p1: F32 = low_fraction(h).times(fl(TAU));
        let p2: F32 = low_fraction(h >> 16).times(fl(TAU));
        assert(f_le(fl(0), fl(ONE)));
        let env: F32 = t.min(fl(ONE).minus(t)).over(fl(ENVELOPE)).clamp(fl(0), fl(ONE));
        let wide: F32 = sample(trig, Wave::Sin, t.times(fl(TAU)).times(fl(TWO)).plus(p1));
        let fine: F32 = sample(trig, Wave::Sin, t.times(fl(TAU)).times(fl(FIVE)).plus(p2));
        edge.plus(env.times(wide.times(fl(WIGGLE_WIDE)).plus(fine.times(fl(WIGGLE_FINE)))))
    }

    /// The wall of slot `s` from the ceiling of layer `gap` to the floor of
    /// the layer above.
    pub fn shaft_wall_pts<T: Fn(Wave, F32) -> F32>(&self, trig: &T, s: i64, gap: i64, side: u8) -> (r: Vec<Vec2>)
        requires
            steady(*trig),
        ensures
            r@ == self@.wall(wave_of(*trig), s as int, gap as int, side),
    {
        let xe: F32 = self.edge_x(s as i128, side);
        let center: F32 = self.cave_center(trig, xe);
        let half: F32 = self.cave_half_width(trig, xe);
        let bot: F32 = F32::of_i64(gap).times(fl(V_PERIOD)).plus(center).plus(half);
        let top: F32 = F32::of_int(gap as i128 + 1).times(fl(V_PERIOD)).plus(center).minus(half);
        let n: usize = top.minus(bot).over(fl(SHAFT_STEP)).ceil().max(fl(ONE)).to_usize();
        let steps: F32 = F32::of_int(n as i128);
        let mut r: Vec<Vec2> = Vec::new();
        let ghost whole = self@.wall(wave_of(*trig), s as int, gap as int, side);
        let mut i: usize = 0;
        loop
            invariant_except_break
                r@ == whole.subrange(0, i as int),
            invariant
                steady(*trig),
                i <= n,
                n == self@.wall_steps(wave_of(*trig), s as int, gap as int, side),
                bot == self@.wall_bottom(wave_of(*trig), s as int, gap as int, side),
                top == self@.wall_top(wave_of(*trig), s as int, gap as int, side),
                steps == f_of_int(n as int),
                whole == self@.wall(wave_of(*trig), s as int, gap as int, side),
                whole.len() == n + 1,
            ensures
                r@ == whole,
            decreases n - i,
        {
            let t: F32 = F32::of_int(i as i128).over(steps);
            let x: F32 = self.shaft_wall_x(trig, s, side, t);
            r.push(Vec2 { x, y: bot.plus(top.minus(bot).times(t)) });
            assert(r@ =~= whole.subrange(0, i + 1));
            if i == n {
                assert(whole.subrange(0, n + 1) =~= whole);
                break;
            }
            i = i + 1;
        }
        r
    }
}

} // verus!
