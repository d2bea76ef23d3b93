//! Comparison, minimum, maximum and clamping.

use super::F32;
use vstd::prelude::*;

verus! {

impl F32 {
    /// Position on the number line, both zeros at 0; ordered as the values are.
    pub open spec fn rank(self) -> int {
        if self.neg() {
            -(self.mag() as int)
        } else {
            self.mag() as int
        }
    }
}

/// `a < b`; false if either is NaN.
pub open spec fn f_lt(a: F32, b: F32) -> bool {
    !a.nan() && !b.nan() && a.rank() < b.rank()
}

/// `a <= b`; false if either is NaN.
pub open spec fn f_le(a: F32, b: F32) -> bool {
    !a.nan() && !b.nan() && a.rank() <= b.rank()
}

/// `a == b`; the zeros are equal, NaN equals nothing.
pub open spec fn f_eq(a: F32, b: F32) -> bool {
    !a.nan() && !b.nan() && a.rank() == b.rank()
}

/// The lesser number; a NaN gives way to the other operand.
pub open spec fn f_min(a: F32, b: F32) -> F32 {
    if a.nan() || f_lt(b, a) {
        b
    } else {
        a
    }
}

/// The greater number; a NaN gives way to the other operand.
pub open spec fn f_max(a: F32, b: F32) -> F32 {
    if a.nan() || f_lt(a, b) {
        b
    } else {
        a
    }
}

/// `x` held between `lo` and `hi`; NaN stays NaN.
pub open spec fn f_clamp(x: F32, lo: F32, hi: F32) -> F32 {
    if f_lt(x, lo) {
        lo
    } else if f_lt(hi, x) {
        hi
    } else {
        x
    }
}

impl F32 {
    fn position(self) -> (r: i64)
        ensures
            r == self.rank(),
    {
        if self.is_neg() {
            -(self.magnitude() as i64)
        } else {
            self.magnitude() as i64
        }
    }

    pub fn lt(self, b: F32) -> (r: bool)
        ensures
            r == f_lt(self, b),
    {
        !self.is_nan() && !b.is_nan() && self.position() < b.position()
    }

    pub fn le(self, b: F32) -> (r: bool)
        ensures
            r == f_le(self, b),
    {
        !self.is_nan() && !b.is_nan() && self.position() <= b.position()
    }

    pub fn same(self, b: F32) -> (r: bool)
        ensures
            r == f_eq(self, b),
    {
        !self.is_nan() && !b.is_nan() && self.position() == b.position()
    }

    pub fn min(self, b: F32) -> (r: F32)
        ensures
            r == f_min(self, b),
    {
        if self.is_nan() || b.lt(self) {
            b
        } else {
            self
        }
    }

    pub fn max(self, b: F32) -> (r: F32)
        ensures
            r == f_max(self, b),
    {
        if self.is_nan() || self.lt(b) {
            b
        } else {
            self
        }
    }

    pub fn clamp(self, lo: F32, hi: F32) -> (r: F32)
        requires
            f_le(lo, hi),
        ensures
            r == f_clamp(self, lo, hi),
    {
        if self.lt(lo) {
            lo
        } else if hi.lt(self) {
            hi
        } else {
            self
        }
    }
}

} // verus!
