//! Conversion between integers and numbers, and rounding to whole numbers.

use super::arith::{pack_exact, scale_up};
use super::facts::lemma_pack_units;
use super::{decode, from_parts, pack, signed, significand, step_of, units, F32, INF_BITS};
use vstd::arithmetic::div_mod::{lemma_fundamental_div_mod, lemma_fundamental_div_mod_converse};
use vstd::arithmetic::power2::{
    lemma2_to64, lemma_pow2_adds, lemma_pow2_pos, lemma_pow2_strictly_increases, pow2,
};
use vstd::prelude::*;

verus! {

/// How many units make 1.
pub open spec fn one_units() -> nat {
    pow2(149)
}

/// The number nearest to the integer `i`; a zero takes the sign `neg`.
pub open spec fn whole(i: int, neg: bool) -> F32 {
    if i == 0 {
        signed(neg, 0)
    } else if i > 0 {
        signed(false, pack((i * one_units()) as nat, 1))
    } else {
        signed(true, pack((-i * one_units()) as nat, 1))
    }
}

/// The number nearest to the integer `i`.
#[verifier::opaque]
pub open spec fn f_of_int(i: int) -> F32 {
    whole(i, false)
}

/// The magnitude of a finite number, fraction cut off.
pub open spec fn int_part(a: F32) -> nat {
    units(a.mag()) / one_units()
}

/// What `int_part` cuts off, in units.
pub open spec fn frac_part(a: F32) -> nat {
    units(a.mag()) % one_units()
}

/// The integer below or at a finite number.
pub open spec fn floor_int(a: F32) -> int {
    if a.neg() && frac_part(a) != 0 {
        -(int_part(a) as int) - 1
    } else if a.neg() {
        -(int_part(a) as int)
    } else {
        int_part(a) as int
    }
}

/// The integer above or at a finite number.
pub open spec fn ceil_int(a: F32) -> int {
    if a.neg() {
        -(int_part(a) as int)
    } else if frac_part(a) != 0 {
        int_part(a) as int + 1
    } else {
        int_part(a) as int
    }
}

/// The integer nearest to a finite number, halves away from zero.
pub open spec fn round_int(a: F32) -> int {
    let i = if 2 * frac_part(a) >= one_units() {
        int_part(a) as int + 1
    } else {
        int_part(a) as int
    };
    if a.neg() {
        -i
    } else {
        i
    }
}

#[verifier::opaque]
pub open spec fn f_floor(a: F32) -> F32 {
    if a.finite() {
        whole(floor_int(a), a.neg())
    } else {
        a
    }
}

#[verifier::opaque]
pub open spec fn f_ceil(a: F32) -> F32 {
    if a.finite() {
        whole(ceil_int(a), a.neg())
    } else {
        a
    }
}

#[verifier::opaque]
pub open spec fn f_round(a: F32) -> F32 {
    if a.finite() {
        whole(round_int(a), a.neg())
    } else {
        a
    }
}

/// The value cut to an integer and held to the range of `i64`; NaN gives 0.
#[verifier::opaque]
pub open spec fn f_to_i64(a: F32) -> i64 {
    if a.nan() {
        0
    } else if a.neg() {
        if a.infinite() || int_part(a) > 0x8000_0000_0000_0000 {
            i64::MIN
        } else {
            (-(int_part(a) as int)) as i64
        }
    } else {
        if a.infinite() || int_part(a) > i64::MAX {
            i64::MAX
        } else {
            int_part(a) as i64
        }
    }
}

/// As `f_to_i64`, held to the range of `u32`.
pub open spec fn f_to_u32(a: F32) -> u32 {
    let i = f_to_i64(a);
    if i < 0 {
        0
    } else if i > u32::MAX {
        u32::MAX
    } else {
        i as u32
    }
}

/// The value cut to an integer and held to the range of `usize`; NaN gives 0.
#[verifier::opaque]
pub open spec fn f_to_usize(a: F32) -> usize {
    if a.nan() || a.neg() {
        0
    } else if a.infinite() || int_part(a) > usize::MAX {
        usize::MAX
    } else {
        int_part(a) as usize
    }
}

/// What a fraction is, as far as rounding cares.
enum Fraction {
    Zero,
    BelowHalf,
    HalfOrMore,
}

/// Integer part and fraction of a magnitude below `2^24`, where the fraction
/// may be nonzero; `None` where the magnitude is a whole number of `2^(k-149)`.
fn split(mag: u32) -> (r: Option<(u32, Fraction)>)
    requires
        mag < INF_BITS,
    ensures
        match r {
            None => step_of(mag as nat) >= 149,
            Some((ip, fr)) => {
                &&& step_of(mag as nat) < 149
                &&& ip == units(mag as nat) / one_units()
                &&& ip < 0x100_0000
                &&& (fr is Zero <==> units(mag as nat) % one_units() == 0)
                &&& (fr is HalfOrMore <==> 2 * (units(mag as nat) % one_units()) >= one_units())
            },
        },
{
    let (m, k) = decode(mag);
    if k >= 149 {
        None
    } else {
        let s: u32 = 149 - k;
        let ghost p = pow2(k as nat);
        let ghost q = pow2(s as nat);
        let ghost u = units(mag as nat);
        proof {
            lemma_pow2_pos(k as nat);
            lemma_pow2_pos(s as nat);
            lemma_pow2_adds(s as nat, k as nat);
            assert(u == m * p);
            assert(one_units() == q * p);
        }
        if s >= 25 {
            proof {
                lemma2_to64();
                if s > 25 {
                    lemma_pow2_strictly_increases(25, s as nat);
                }
                assert(2 * u < q * p) by (nonlinear_arith)
                    requires
                        u == m * p,
                        2 * m < q,
                        p > 0,
                ;
                lemma_fundamental_div_mod_converse(u as int, one_units() as int, 0, u as int);
                assert(m > 0 ==> u > 0) by (nonlinear_arith)
                    requires
                        u == m * p,
                        p > 0,
                ;
            }
            if m == 0 {
                assert(u == 0) by (nonlinear_arith)
                    requires
                        u == m * p,
                        m == 0,
                ;
                Some((0, Fraction::Zero))
            } else {
                Some((0, Fraction::BelowHalf))
            }
        } else {
            proof {
                lemma2_to64();
                if s < 25 {
                    lemma_pow2_strictly_increases(s as nat, 25);
                }
                assert(1 * q == q);
            }
            let w: u128 = scale_up(1, s);
            let d: u32 = w as u32;
            let ip: u32 = m / d;
            let fr: u32 = m % d;
            proof {
                lemma_fundamental_div_mod(m as int, d as int);
                assert(u == ip * (q * p) + fr * p && fr * p < q * p) by (nonlinear_arith)
                    requires
                        u == m * p,
                        m == d * ip + fr,
                        fr < d,
                        d == q,
                        p > 0,
                ;
                assert(fr * p >= 0) by (nonlinear_arith)
                    requires
                        p > 0,
                        fr >= 0,
                ;
                lemma_fundamental_div_mod_converse(u as int, one_units() as int, ip as int, (fr * p) as int);
                assert((fr * p == 0) == (fr == 0)) by (nonlinear_arith)
                    requires
                        p > 0,
                ;
                assert((2 * (fr * p) >= q * p) == (2 * fr >= q)) by (nonlinear_arith)
                    requires
                        p > 0,
                ;
            }
            if fr == 0 {
                Some((ip, Fraction::Zero))
            } else if 2 * fr >= d {
                Some((ip, Fraction::HalfOrMore))
            } else {
                Some((ip, Fraction::BelowHalf))
            }
        }
    }
}

/// Beyond `2^24` every number is whole.
pub proof fn lemma_whole_already(a: F32)
    requires
        a.finite(),
        step_of(a.mag()) >= 149,
    ensures
        frac_part(a) == 0,
        whole(if a.neg() { -(int_part(a) as int) } else { int_part(a) as int }, a.neg()) == a,
{
    let k = step_of(a.mag());
    let m = significand(a.mag());
    let j = (k - 149) as nat;
    lemma_pow2_adds(149, j);
    lemma_pow2_pos(149);
    lemma_pow2_pos(j);
    let i = m * pow2(j);
    assert(units(a.mag()) == i * one_units()) by (nonlinear_arith)
        requires
            units(a.mag()) == m * pow2(k),
            pow2(k) == pow2(149) * pow2(j),
            one_units() == pow2(149),
            i == m * pow2(j),
    ;
    lemma_fundamental_div_mod_converse(units(a.mag()) as int, one_units() as int, i as int, 0);
    lemma_pack_units(a.mag());
    assert(i > 0) by (nonlinear_arith)
        requires
            m > 0,
            pow2(j) > 0,
            i == m * pow2(j),
    ;
}

fn whole_small(neg: bool, ip: u32) -> (r: F32)
    requires
        ip <= 0x100_0000,
    ensures
        r == whole(if neg { -(ip as int) } else { ip as int }, neg),
{
    if ip == 0 {
        from_parts(neg, 0)
    } else {
        from_parts(neg, pack_exact(ip as u128, 149))
    }
}

impl F32 {
    pub fn of_int(i: i128) -> (r: F32)
        requires
            -0x1_0000_0000_0000_0000_0000 <= i <= 0x1_0000_0000_0000_0000_0000,
        ensures
            r == f_of_int(i as int),
    {
        reveal(f_of_int);
        if i == 0 {
            from_parts(false, 0)
        } else if i > 0 {
            from_parts(false, pack_exact(i as u128, 149))
        } else {
            from_parts(true, pack_exact((-i) as u128, 149))
        }
    }

    pub fn of_i64(i: i64) -> (r: F32)
        ensures
            r == f_of_int(i as int),
    {
        F32::of_int(i as i128)
    }

    pub fn floor(self) -> (r: F32)
        ensures
            r == f_floor(self),
    {
        reveal(f_floor);
        if !self.is_finite() {
            return self;
        }
        let neg: bool = self.is_neg();
        match split(self.magnitude()) {
            None => {
                proof {
                    lemma_whole_already(self);
                }
                self
            },
            Some((ip, fr)) => match fr {
                Fraction::Zero => whole_small(neg, ip),
                _ => if neg {
                    whole_small(neg, ip + 1)
                } else {
                    whole_small(neg, ip)
                },
            },
        }
    }

    pub fn ceil(self) -> (r: F32)
        ensures
            r == f_ceil(self),
    {
        reveal(f_ceil);
        if !self.is_finite() {
            return self;
        }
        let neg: bool = self.is_neg();
        match split(self.magnitude()) {
            None => {
                proof {
                    lemma_whole_already(self);
                }
                self
            },
            Some((ip, fr)) => match fr {
                Fraction::Zero => whole_small(neg, ip),
                _ => if neg {
                    whole_small(neg, ip)
                } else {
                    whole_small(neg, ip + 1)
                },
            },
        }
    }

    pub fn round(self) -> (r: F32)
        ensures
            r == f_round(self),
    {
        reveal(f_round);
        if !self.is_finite() {
            return self;
        }
        let neg: bool = self.is_neg();
        match split(self.magnitude()) {
            None => {
                proof {
                    lemma_whole_already(self);
                    lemma_pow2_pos(149);
                }
                self
            },
            Some((ip, fr)) => match fr {
                Fraction::HalfOrMore => whole_small(neg, ip + 1),
                _ => whole_small(neg, ip),
            },
        }
    }

    pub fn to_i64(self) -> (r: i64)
        ensures
            r == f_to_i64(self),
    {
        reveal(f_to_i64);
        let neg: bool = self.is_neg();
        if self.is_nan() {
            return 0;
        }
        if self.is_infinite() {
            return if neg {
                i64::MIN
            } else {
                i64::MAX
            };
        }
        let mag: u32 = self.magnitude();
        match split(mag) {
            Some((ip, _fr)) => if neg {
                -(ip as i64)
            } else {
                ip as i64
            },
            None => {
                let (m, k) = decode(mag);
                let j: u32 = k - 149;
                let ghost u = units(mag as nat);
                let ghost p = pow2(j as nat);
                proof {
                    lemma_pow2_adds(149, j as nat);
                    lemma_pow2_pos(149);
                    lemma_pow2_pos(j as nat);
                    assert(u == (m * p) * one_units()) by (nonlinear_arith)
                        requires
                            u == m * pow2(k as nat),
                            pow2(k as nat) == pow2(149) * p,
                            one_units() == pow2(149),
                    ;
                    assert(m * p >= 0) by (nonlinear_arith)
                        requires
                            p > 0,
                            m >= 0,
                    ;
                    lemma_fundamental_div_mod_converse(u as int, one_units() as int, (m * p) as int, 0);
                }
                if j > 64 {
                    proof {
                        lemma2_to64();
                        lemma_pow2_strictly_increases(64, j as nat);
                        assert(m * p > 0x8000_0000_0000_0000) by (nonlinear_arith)
                            requires
                                m >= 1,
                                p > 0x8000_0000_0000_0000,
                        ;
                    }
                    if neg {
                        i64::MIN
                    } else {
                        i64::MAX
                    }
                } else {
                    let w: u128 = scale_up(m as u128, j);
                    if neg {
                        if w >= 0x8000_0000_0000_0000 {
                            i64::MIN
                        } else {
                            -(w as i64)
                        }
                    } else {
                        if w > 0x7fff_ffff_ffff_ffff {
                            i64::MAX
                        } else {
                            w as i64
                        }
                    }
                }
            },
        }
    }

    pub fn to_usize(self) -> (r: usize)
        ensures
            r == f_to_usize(self),
    {
        reveal(f_to_usize);
        if self.is_nan() || self.is_neg() {
            return 0;
        }
        if self.is_infinite() {
            return usize::MAX;
        }
        let mag: u32 = self.magnitude();
        match split(mag) {
            Some((ip, _fr)) => ip as usize,
            None => {
                let (m, k) = decode(mag);
                let j: u32 = k - 149;
                let ghost u = units(mag as nat);
                let ghost p = pow2(j as nat);
                proof {
                    lemma_pow2_adds(149, j as nat);
                    lemma_pow2_pos(149);
                    lemma_pow2_pos(j as nat);
                    assert(u == (m * p) * one_units()) by (nonlinear_arith)
                        requires
                            u == m * pow2(k as nat),
                            pow2(k as nat) == pow2(149) * p,
                            one_units() == pow2(149),
                    ;
                    assert(m * p >= 0) by (nonlinear_arith)
                        requires
                            p > 0,
                            m >= 0,
                    ;
                    lemma_fundamental_div_mod_converse(u as int, one_units() as int, (m * p) as int, 0);
                }
                if j > 64 {
                    proof {
                        lemma2_to64();
                        lemma_pow2_strictly_increases(64, j as nat);
                        assert(m * p > 0xffff_ffff_ffff_ffff) by (nonlinear_arith)
                            requires
                                m >= 1,
                                p > 0xffff_ffff_ffff_ffff,
                        ;
                    }
                    usize::MAX
                } else {
                    let w: u128 = scale_up(m as u128, j);
                    if w > usize::MAX as u128 {
                        usize::MAX
                    } else {
                        w as usize
                    }
                }
            },
        }
    }

    pub fn to_u32(self) -> (r: u32)
        ensures
            r == f_to_u32(self),
    {
        let i: i64 = self.to_i64();
        if i < 0 {
            0
        } else if i > u32::MAX as i64 {
            u32::MAX
        } else {
            i as u32
        }
    }
}

} // verus!
