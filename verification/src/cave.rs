//! The cave: its centre line and half-width, as pure functions of x.
//!
//! The sine and cosine that the periodic cave is made of come from the
//! caller, as a function from a curve and an angle to a number.

use crate::binary32::arith::{f_abs, f_add, f_div, f_mul, f_sub};
use crate::binary32::convert::{f_floor, f_of_int, f_to_i64};
use crate::binary32::{fl, F32};
use crate::level::{Level, LevelView, Vec2};
use crate::rng::{hash, hash_u32, GOLDEN};
use vstd::prelude::*;

verus! {

/// A trigonometric curve.
#[derive(Clone, Copy, PartialEq, Eq, Debug, Structural)]
pub enum Wave {
    Sin,
    Cos,
}

/// What a source of curves gives, as a mathematical function.
pub open spec fn wave_of<T: Fn(Wave, F32) -> F32>(t: T) -> spec_fn(Wave, F32) -> F32 {
    |w: Wave, x: F32| choose|r: F32| call_ensures(t, (w, x), r)
}

/// A source of curves that answers every angle, and always alike.
pub open spec fn steady<T: Fn(Wave, F32) -> F32>(t: T) -> bool {
    &&& forall|w: Wave, x: F32| #[trigger] call_requires(t, (w, x))
    &&& forall|w: Wave, x: F32, a: F32, b: F32|
        #[trigger] call_ensures(t, (w, x), a) && #[trigger] call_ensures(t, (w, x), b) ==> a == b
}

/// `600`: metres after which the cave repeats.
pub const PERIOD: u32 = 0x4416_0000;

/// `3`: metres per cave segment.
pub const SEG_LEN: u32 = 0x4040_0000;

/// `2 pi / 600`: the cave repeats every 600 m.
pub const BASE: u32 = 0x3c2b_92a6;

/// `2 pi`.
pub const TAU: u32 = 0x40c9_0fdb;

/// `65535`.
pub const U16_SPAN: u32 = 0x477f_ff00;

pub const ONE: u32 = 0x3f80_0000;

pub const TWO: u32 = 0x4000_0000;

pub const THREE: u32 = 0x4040_0000;

pub const FIVE: u32 = 0x40a0_0000;

pub const SEVEN: u32 = 0x40e0_0000;

pub const ELEVEN: u32 = 0x4130_0000;

/// `14`, `5`, `3`: amplitudes of the centre line.
pub const CENTER_SLOW: u32 = 0x4160_0000;

pub const CENTER_MEDIUM: u32 = 0x40a0_0000;

pub const CENTER_TIGHT: u32 = 0x4040_0000;

/// `6.5`: the mean half-width; `2.5`, `1.5`, `2`: how far it varies.
pub const WIDTH_MEAN: u32 = 0x40d0_0000;

pub const WIDTH_SLOW: u32 = 0x4020_0000;

pub const WIDTH_MEDIUM: u32 = 0x3fc0_0000;

pub const WIDTH_PINCH: u32 = 0x4000_0000;

/// `210`, `70`, `26`, `130`, `47`, `19`: wavelengths of the endless cave.
pub const WAVELENGTH_1: u32 = 0x4352_0000;

pub const WAVELENGTH_2: u32 = 0x428c_0000;

pub const WAVELENGTH_3: u32 = 0x41d0_0000;

pub const WAVELENGTH_4: u32 = 0x4302_0000;

pub const WAVELENGTH_5: u32 = 0x423c_0000;

pub const WAVELENGTH_6: u32 = 0x4198_0000;

/// The low 16 bits of a hash as a number in `[0, 1]`.
pub open spec fn fraction16(h: u32) -> F32 {
    f_div(f_of_int((h & 0xffff) as int), fl(U16_SPAN))
}

pub(crate) fn low_fraction(h: u32) -> (r: F32)
    ensures
        r == fraction16(h),
{
    let low: u32 = h & 0xffff;
    F32::of_i64(low as i64).over(fl(U16_SPAN))
}

impl LevelView {
    /// The phase that the seed gives harmonic `salt`; none for seed 0.
    pub open spec fn phase(self, salt: u32) -> F32 {
        if self.seed == 0 {
            fl(0)
        } else {
            f_mul(fraction16(hash(self.seed ^ salt)), fl(TAU))
        }
    }

    /// The seed folded into a slot number; seed 0 leaves it as it is.
    pub open spec fn slot_seed(self, k: u32) -> u32 {
        k ^ self.seed.wrapping_mul(GOLDEN)
    }

    /// The noise value at lattice point `c`, in `[-1, 1]`.
    pub open spec fn lattice(self, salt: u32, c: i64) -> F32 {
        let h = hash(
            (c as u32) ^ self.seed.wrapping_mul(GOLDEN) ^ salt.wrapping_mul(0x85eb_ca6b),
        );
        f_sub(f_mul(fraction16(h), fl(TWO)), fl(ONE))
    }

    /// Value noise: lattice values joined by a smoothstep.
    pub open spec fn noise(self, salt: u32, x: F32, wavelength: F32) -> F32 {
        let t = f_div(x, wavelength);
        let i = f_floor(t);
        let f = f_sub(t, i);
        let a = self.lattice(salt, f_to_i64(i));
        let b = self.lattice(salt, f_to_i64(i).wrapping_add(1));
        let ease = f_mul(f_mul(f, f), f_sub(fl(THREE), f_mul(fl(TWO), f)));
        f_add(a, f_mul(f_sub(b, a), ease))
    }

    /// The angle of harmonic `n` at `x`, shifted by the seed's phase.
    pub open spec fn angle(self, x: F32, n: u32, salt: u32) -> F32 {
        if n == ONE {
            f_add(f_mul(x, fl(BASE)), self.phase(salt))
        } else {
            f_add(f_mul(f_mul(x, fl(BASE)), fl(n)), self.phase(salt))
        }
    }

    /// The height of the cave's centre line at `x`.
    pub open spec fn center(self, w: spec_fn(Wave, F32) -> F32, x: F32) -> F32 {
        let (slow, medium, tight) = if self.endless {
            (
                self.noise(1, x, fl(WAVELENGTH_1)),
                self.noise(2, x, fl(WAVELENGTH_2)),
                self.noise(3, x, fl(WAVELENGTH_3)),
            )
        } else {
            (
                w(Wave::Sin, self.angle(x, ONE, 1)),
                w(Wave::Cos, self.angle(x, THREE, 2)),
                w(Wave::Sin, self.angle(x, SEVEN, 3)),
            )
        };
        f_add(
            f_add(f_mul(slow, fl(CENTER_SLOW)), f_mul(medium, fl(CENTER_MEDIUM))),
            f_mul(tight, fl(CENTER_TIGHT)),
        )
    }

    /// Half the height of the cave at `x`.
    pub open spec fn half_width(self, w: spec_fn(Wave, F32) -> F32, x: F32) -> F32 {
        let (slow, medium, pinch) = if self.endless {
            (
                self.noise(4, x, fl(WAVELENGTH_4)),
                self.noise(5, x, fl(WAVELENGTH_5)),
                self.noise(6, x, fl(WAVELENGTH_6)),
            )
        } else {
            (
                w(Wave::Sin, self.angle(x, TWO, 4)),
                w(Wave::Cos, self.angle(x, FIVE, 5)),
                w(Wave::Sin, self.angle(x, ELEVEN, 6)),
            )
        };
        f_add(
            f_add(
                f_add(fl(WIDTH_MEAN), f_mul(slow, fl(WIDTH_SLOW))),
                f_mul(medium, fl(WIDTH_MEDIUM)),
            ),
            f_mul(f_abs(pinch), fl(WIDTH_PINCH)),
        )
    }

    /// The height of the cave floor at `x`.
    pub open spec fn floor_y(self, w: spec_fn(Wave, F32) -> F32, x: F32) -> F32 {
        f_sub(self.center(w, x), self.half_width(w, x))
    }

    /// The height of the cave ceiling at `x`.
    pub open spec fn ceiling_y(self, w: spec_fn(Wave, F32) -> F32, x: F32) -> F32 {
        f_add(self.center(w, x), self.half_width(w, x))
    }
}

/// The ends of a segment's ceiling and floor.
#[derive(Clone, Copy, PartialEq, Eq, Debug, Structural)]
pub struct SegPoints {
    pub top_a: Vec2,
    pub top_b: Vec2,
    pub bot_a: Vec2,
    pub bot_b: Vec2,
}

impl LevelView {
    /// Where cave segment `idx` runs.
    pub open spec fn segment(self, w: spec_fn(Wave, F32) -> F32, idx: i64) -> SegPoints {
        let x0 = f_mul(f_of_int(idx as int), fl(SEG_LEN));
        let x1 = f_add(x0, fl(SEG_LEN));
        SegPoints {
            top_a: Vec2 { x: x0, y: self.ceiling_y(w, x0) },
            top_b: Vec2 { x: x1, y: self.ceiling_y(w, x1) },
            bot_a: Vec2 { x: x0, y: self.floor_y(w, x0) },
            bot_b: Vec2 { x: x1, y: self.floor_y(w, x1) },
        }
    }
}

/// One sample of a curve.
pub(crate) fn sample<T: Fn(Wave, F32) -> F32>(trig: &T, w: Wave, x: F32) -> (r: F32)
    requires
        steady(*trig),
    ensures
        r == wave_of(*trig)(w, x),
{
    trig(w, x)
}

impl Level {
    pub fn phase(&self, salt: u32) -> (r: F32)
        ensures
            r == self@.phase(salt),
    {
        if self.seed == 0 {
            fl(0)
        } else {
            low_fraction(hash_u32(self.seed ^ salt)).times(fl(TAU))
        }
    }

    pub fn slot_seed(&self, k: u32) -> (r: u32)
        ensures
            r == self@.slot_seed(k),
    {
        k ^ self.seed.wrapping_mul(GOLDEN)
    }

    fn lattice(&self, salt: u32, c: i64) -> (r: F32)
        ensures
            r == self@.lattice(salt, c),
    {
        #[verifier::truncate]
        let low: u32 = c as u32;
        let h: u32 = hash_u32(
            low ^ self.seed.wrapping_mul(GOLDEN) ^ salt.wrapping_mul(0x85eb_ca6b),
        );
        low_fraction(h).times(fl(TWO)).minus(fl(ONE))
    }

    pub fn vnoise(&self, salt: u32, x: F32, wavelength: F32) -> (r: F32)
        ensures
            r == self@.noise(salt, x, wavelength),
    {
        let t: F32 = x.over(wavelength);
        let i: F32 = t.floor();
        let f: F32 = t.minus(i);
        let c: i64 = i.to_i64();
        let a: F32 = self.lattice(salt, c);
        let b: F32 = self.lattice(salt, c.wrapping_add(1));
        let ease: F32 = f.times(f).times(fl(THREE).minus(fl(TWO).times(f)));
        a.plus(b.minus(a).times(ease))
    }

    fn angle(&self, x: F32, n: u32, salt: u32) -> (r: F32)
        ensures
            r == self@.angle(x, n, salt),
    {
        let base: F32 = x.times(fl(BASE));
        if n == ONE {
            base.plus(self.phase(salt))
        } else {
            base.times(fl(n)).plus(self.phase(salt))
        }
    }

    pub fn cave_center<T: Fn(Wave, F32) -> F32>(&self, trig: &T, x: F32) -> (r: F32)
        requires
            steady(*trig),
        ensures
            r == self@.center(wave_of(*trig), x),
    {
        let (slow, medium, tight) = if self.endless {
            (
                self.vnoise(1, x, fl(WAVELENGTH_1)),
                self.vnoise(2, x, fl(WAVELENGTH_2)),
                self.vnoise(3, x, fl(WAVELENGTH_3)),
            )
        } else {
            (
                sample(trig, Wave::Sin, self.angle(x, ONE, 1)),
                sample(trig, Wave::Cos, self.angle(x, THREE, 2)),
                sample(trig, Wave::Sin, self.angle(x, SEVEN, 3)),
            )
        };
        slow.times(fl(CENTER_SLOW)).plus(medium.times(fl(CENTER_MEDIUM))).plus(
            tight.times(fl(CENTER_TIGHT)),
        )
    }

    pub fn cave_half_width<T: Fn(Wave, F32) -> F32>(&self, trig: &T, x: F32) -> (r: F32)
        requires
            steady(*trig),
        ensures
            r == self@.half_width(wave_of(*trig), x),
    {
        let (slow, medium, pinch) = if self.endless {
            (
                self.vnoise(4, x, fl(WAVELENGTH_4)),
                self.vnoise(5, x, fl(WAVELENGTH_5)),
                self.vnoise(6, x, fl(WAVELENGTH_6)),
            )
        } else {
            (
                sample(trig, Wave::Sin, self.angle(x, TWO, 4)),
                sample(trig, Wave::Cos, self.angle(x, FIVE, 5)),
                sample(trig, Wave::Sin, self.angle(x, ELEVEN, 6)),
            )
        };
        fl(WIDTH_MEAN).plus(slow.times(fl(WIDTH_SLOW))).plus(medium.times(fl(WIDTH_MEDIUM))).plus(
            pinch.abs().times(fl(WIDTH_PINCH)),
        )
    }

    pub(crate) fn floor_y<T: Fn(Wave, F32) -> F32>(&self, trig: &T, x: F32) -> (r: F32)
        requires
            steady(*trig),
        ensures
            r == self@.floor_y(wave_of(*trig), x),
    {
        self.cave_center(trig, x).minus(self.cave_half_width(trig, x))
    }

    pub fn seg_points<T: Fn(Wave, F32) -> F32>(&self, trig: &T, idx: i64) -> (r: SegPoints)
        requires
            steady(*trig),
        ensures
            r == self@.segment(wave_of(*trig), idx),
    {
        let x0: F32 = F32::of_i64(idx).times(fl(SEG_LEN));
        let x1: F32 = x0.plus(fl(SEG_LEN));
        let (cy0, hw0) = (self.cave_center(trig, x0), self.cave_half_width(trig, x0));
        let (cy1, hw1) = (self.cave_center(trig, x1), self.cave_half_width(trig, x1));
        SegPoints {
            top_a: Vec2 { x: x0, y: cy0.plus(hw0) },
            top_b: Vec2 { x: x1, y: cy1.plus(hw1) },
            bot_a: Vec2 { x: x0, y: cy0.minus(hw0) },
            bot_b: Vec2 { x: x1, y: cy1.minus(hw1) },
        }
    }
}

} // verus!
