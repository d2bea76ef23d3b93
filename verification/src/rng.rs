//! The integer hash that all world generation draws from, and the generator
//! built on it.

use crate::binary32::arith::{f_add, f_div, f_mul, f_sub};
use crate::binary32::convert::f_of_int;
use crate::binary32::{fl, F32};
use vstd::prelude::*;

verus! {

/// `2^24`.
pub const TWO_POW_24: u32 = 0x4b80_0000;

/// Mixed into every seed before the first draw.
pub const GOLDEN: u32 = 0x9e37_79b9;

/// Two rounds of xor-shift and multiply, and a last xor-shift.
pub open spec fn hash(x: u32) -> u32 {
    let a = x ^ (x >> 16);
    let b = a.wrapping_mul(0x7feb_352d);
    let c = b ^ (b >> 15);
    let d = c.wrapping_mul(0x846c_a68b);
    d ^ (d >> 16)
}

pub fn hash_u32(x: u32) -> (r: u32)
    ensures
        r == hash(x),
{
    let a: u32 = x ^ (x >> 16);
    let b: u32 = a.wrapping_mul(0x7feb_352d);
    let c: u32 = b ^ (b >> 15);
    let d: u32 = c.wrapping_mul(0x846c_a68b);
    d ^ (d >> 16)
}

/// A deterministic generator: each draw is the hash of the one before.
pub struct Rng {
    state: u32,
}

impl View for Rng {
    type V = u32;

    closed spec fn view(&self) -> u32 {
        self.state
    }
}

/// The generator's state after `n` draws from the seed `seed`.
pub open spec fn draw(seed: u32, n: nat) -> u32
    decreases n,
{
    if n == 0 {
        hash(seed ^ GOLDEN)
    } else {
        hash(draw(seed, (n - 1) as nat))
    }
}

/// A draw as a number in `[0, 1)`.
pub open spec fn unit_of(d: u32) -> F32 {
    f_div(f_of_int((d >> 8) as int), fl(TWO_POW_24))
}

/// A draw as a number between `a` and `b`.
pub open spec fn range_of(d: u32, a: F32, b: F32) -> F32 {
    f_add(a, f_mul(f_sub(b, a), unit_of(d)))
}

/// A draw as an integer from `a` to `b`.
pub open spec fn range_int_of(d: u32, a: int, b: int) -> int {
    a + d as int % (b - a + 1)
}

impl Rng {
    pub fn new(seed: u32) -> (r: Rng)
        ensures
            r@ == draw(seed, 0),
    {
        Rng { state: hash_u32(seed ^ GOLDEN) }
    }

    pub fn next(&mut self) -> (r: u32)
        ensures
            r == hash(old(self)@),
            final(self)@ == r,
    {
        self.state = hash_u32(self.state);
        self.state
    }

    pub fn unit(&mut self) -> (r: F32)
        ensures
            final(self)@ == hash(old(self)@),
            r == unit_of(final(self)@),
    {
        let d: u32 = self.next() >> 8;
        F32::of_i64(d as i64).over(fl(TWO_POW_24))
    }

    pub fn range(&mut self, a: F32, b: F32) -> (r: F32)
        ensures
            final(self)@ == hash(old(self)@),
            r == range_of(final(self)@, a, b),
    {
        let u: F32 = self.unit();
        a.plus(b.minus(a).times(u))
    }

    pub fn range_int(&mut self, a: i32, b: i32) -> (r: i32)
        requires
            a <= b,
            b - a < i32::MAX,
        ensures
            final(self)@ == hash(old(self)@),
            r == range_int_of(final(self)@, a as int, b as int),
            a <= r <= b,
    {
        let d: u32 = self.next();
        let span: u32 = (b - a + 1) as u32;
        a + (d % span) as i32
    }
}

} // verus!
