//! IEEE 754 binary32 arithmetic on bit patterns.
//!
//! A number is its 32-bit pattern. Every finite number is a whole multiple of
//! `2^-149`, so its exact value is an integer number of those units; an
//! operation is specified as the exact result in units, rounded once to the
//! nearest representable number, ties to even.

pub mod arith;
pub mod convert;
pub mod decimal;
pub mod facts;
pub mod order;
pub mod rounding;

use vstd::arithmetic::power2::pow2;
use vstd::prelude::*;

verus! {

/// A binary32 number, held as its bit pattern.
#[derive(Clone, Copy, PartialEq, Eq, Debug, Structural)]
pub struct F32 {
    pub bits: u32,
}

/// The pattern of positive infinity: the first magnitude that is not finite.
pub const INF_BITS: u32 = 0x7f80_0000;

/// The sign bit.
pub const SIGN_BIT: u32 = 0x8000_0000;

/// The quiet NaN that every invalid operation gives.
pub const NAN_BITS: u32 = 0x7fc0_0000;

/// The number with pattern `bits`.
pub open spec fn spec_fl(bits: u32) -> F32 {
    F32 { bits }
}

/// The number with pattern `bits`.
#[verifier::when_used_as_spec(spec_fl)]
pub fn fl(bits: u32) -> (r: F32)
    ensures
        r == spec_fl(bits),
{
    F32 { bits }
}

impl F32 {
    /// The sign bit: true of negative numbers and of `-0`.
    pub open spec fn neg(self) -> bool {
        self.bits >= SIGN_BIT
    }

    /// The pattern without the sign bit.
    pub open spec fn mag(self) -> nat {
        if self.neg() {
            (self.bits - SIGN_BIT) as nat
        } else {
            self.bits as nat
        }
    }

    pub open spec fn nan(self) -> bool {
        self.mag() > INF_BITS
    }

    pub open spec fn infinite(self) -> bool {
        self.mag() == INF_BITS
    }

    pub open spec fn finite(self) -> bool {
        self.mag() < INF_BITS
    }

    /// The exact value in units of `2^-149`; meaningful for finite numbers.
    pub open spec fn val(self) -> int {
        if self.neg() {
            -(units(self.mag()) as int)
        } else {
            units(self.mag()) as int
        }
    }
}

/// The size of one step of the significand at magnitude `mag`, as a power of two.
pub open spec fn step_of(mag: nat) -> nat {
    if mag < 0x80_0000 {
        0
    } else {
        (mag / 0x80_0000 - 1) as nat
    }
}

/// The significand of a finite magnitude, the implicit leading bit set.
pub open spec fn significand(mag: nat) -> nat {
    (mag - step_of(mag) * 0x80_0000) as nat
}

/// The value of a finite magnitude in units of `2^-149`.
pub open spec fn units(mag: nat) -> nat {
    significand(mag) * pow2(step_of(mag))
}

/// The number with the given sign and magnitude pattern.
pub open spec fn signed(neg: bool, mag: nat) -> F32 {
    if neg {
        F32 { bits: (mag + SIGN_BIT) as u32 }
    } else {
        F32 { bits: mag as u32 }
    }
}

/// `n / d` to the nearest integer, ties to even.
pub open spec fn nearest(n: nat, d: nat) -> nat {
    let q = n / d;
    let r = n % d;
    if 2 * r < d || (2 * r == d && q % 2 == 0) {
        q
    } else {
        q + 1
    }
}

/// How many low bits of `v` a 24-bit significand leaves out.
pub open spec fn excess(v: nat) -> nat
    decreases v,
{
    if v < 0x100_0000 {
        0
    } else {
        1 + excess(v / 2)
    }
}

/// The magnitude pattern nearest to `n / d` units, ties to even; infinity
/// where that lies beyond the largest finite number.
pub open spec fn pack(n: nat, d: nat) -> nat {
    let k = excess(n / d);
    let b = k * 0x80_0000 + nearest(n, d * pow2(k));
    if b < INF_BITS {
        b
    } else {
        INF_BITS as nat
    }
}

impl F32 {
    pub fn is_neg(self) -> (r: bool)
        ensures
            r == self.neg(),
    {
        self.bits >= SIGN_BIT
    }

    pub fn magnitude(self) -> (r: u32)
        ensures
            r == self.mag(),
    {
        if self.bits >= SIGN_BIT {
            self.bits - SIGN_BIT
        } else {
            self.bits
        }
    }

    pub fn is_nan(self) -> (r: bool)
        ensures
            r == self.nan(),
    {
        self.magnitude() > INF_BITS
    }

    pub fn is_infinite(self) -> (r: bool)
        ensures
            r == self.infinite(),
    {
        self.magnitude() == INF_BITS
    }

    pub fn is_finite(self) -> (r: bool)
        ensures
            r == self.finite(),
    {
        self.magnitude() < INF_BITS
    }
}

/// The number with sign `neg` and magnitude pattern `mag`.
pub fn from_parts(neg: bool, mag: u32) -> (r: F32)
    requires
        mag < SIGN_BIT,
    ensures
        r == signed(neg, mag as nat),
{
    if neg {
        F32 { bits: mag + SIGN_BIT }
    } else {
        F32 { bits: mag }
    }
}

/// Significand and step of a finite magnitude.
pub(crate) fn decode(mag: u32) -> (r: (u32, u32))
    requires
        mag < INF_BITS,
    ensures
        r.0 == significand(mag as nat),
        r.1 == step_of(mag as nat),
        r.0 < 0x100_0000,
        r.1 <= 253,
        r.1 > 0 ==> r.0 >= 0x80_0000,
{
    let e: u32 = mag / 0x80_0000;
    if e == 0 {
        (mag, 0)
    } else {
        (mag - (e - 1) * 0x80_0000, e - 1)
    }
}

} // verus!
