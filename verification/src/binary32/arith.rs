//! Addition, multiplication, division and square root.

use super::facts::lemma_pack_zero;
use super::rounding::{lemma_excess_unique, lemma_nearest_scale, round_pack};
use super::{
    decode, excess, fl, from_parts, nearest, pack, signed, significand, step_of, units, F32,
    INF_BITS, NAN_BITS,
};
use vstd::arithmetic::div_mod::{lemma_fundamental_div_mod, lemma_fundamental_div_mod_converse};
use vstd::arithmetic::mul::lemma_mul_strictly_positive;
use vstd::arithmetic::power2::{
    lemma2_to64, lemma2_to64_rest, lemma_pow2_adds, lemma_pow2_pos, lemma_pow2_strictly_increases,
    lemma_pow2_unfold, pow2,
};
use vstd::prelude::*;

verus! {

pub open spec fn f_neg(a: F32) -> F32 {
    signed(!a.neg(), a.mag())
}

pub open spec fn f_abs(a: F32) -> F32 {
    signed(false, a.mag())
}

/// The exact sum, rounded once.
#[verifier::opaque]
pub open spec fn f_add(a: F32, b: F32) -> F32 {
    if a.nan() || b.nan() {
        fl(NAN_BITS)
    } else if a.infinite() {
        if b.infinite() && a.neg() != b.neg() {
            fl(NAN_BITS)
        } else {
            a
        }
    } else if b.infinite() {
        b
    } else {
        let s = a.val() + b.val();
        if s == 0 {
            signed(a.neg() && b.neg(), 0)
        } else if s > 0 {
            signed(false, pack(s as nat, 1))
        } else {
            signed(true, pack((-s) as nat, 1))
        }
    }
}

pub open spec fn f_sub(a: F32, b: F32) -> F32 {
    f_add(a, f_neg(b))
}

/// The exact product, rounded once.
#[verifier::opaque]
pub open spec fn f_mul(a: F32, b: F32) -> F32 {
    let neg = a.neg() != b.neg();
    if a.nan() || b.nan() {
        fl(NAN_BITS)
    } else if a.infinite() || b.infinite() {
        if a.mag() == 0 || b.mag() == 0 {
            fl(NAN_BITS)
        } else {
            signed(neg, INF_BITS as nat)
        }
    } else {
        signed(neg, pack(units(a.mag()) * units(b.mag()), pow2(149)))
    }
}

/// The exact quotient, rounded once.
#[verifier::opaque]
pub open spec fn f_div(a: F32, b: F32) -> F32 {
    let neg = a.neg() != b.neg();
    if a.nan() || b.nan() || (a.infinite() && b.infinite()) || (a.mag() == 0 && b.mag() == 0) {
        fl(NAN_BITS)
    } else if a.infinite() || b.mag() == 0 {
        signed(neg, INF_BITS as nat)
    } else if b.infinite() {
        signed(neg, 0)
    } else {
        signed(neg, pack(units(a.mag()) * pow2(149), units(b.mag())))
    }
}

/// The integer square root, rounded down.
pub open spec fn root_floor(n: nat) -> nat {
    choose|r: nat| is_root(n, r)
}

pub open spec fn is_root(n: nat, r: nat) -> bool {
    r * r <= n < (r + 1) * (r + 1)
}

/// The magnitude pattern nearest to the square root of `x` square units.
pub open spec fn pack_root(x: nat) -> nat {
    let k = excess(root_floor(x));
    let f = root_floor(x / pow2(2 * k));
    let q = if 4 * x > (2 * f + 1) * (2 * f + 1) * pow2(2 * k) {
        f + 1
    } else {
        f
    };
    k * 0x80_0000 + q
}

/// The exact square root, rounded once.
#[verifier::opaque]
pub open spec fn f_sqrt(a: F32) -> F32 {
    if a.nan() || (a.neg() && a.mag() != 0) {
        fl(NAN_BITS)
    } else if a.infinite() || a.mag() == 0 {
        a
    } else {
        signed(false, pack_root(units(a.mag()) * pow2(149)))
    }
}

/// Equal ratios round alike.
pub proof fn lemma_pack_ratio(n1: nat, d1: nat, n2: nat, d2: nat)
    requires
        d1 > 0,
        d2 > 0,
        n1 * d2 == n2 * d1,
    ensures
        pack(n1, d1) == pack(n2, d2),
{
    lemma_pack_scale(n1, d1, d2);
    lemma_pack_scale(n2, d2, d1);
    assert(d1 * d2 == d2 * d1) by (nonlinear_arith);
}

proof fn lemma_pack_scale(n: nat, d: nat, c: nat)
    requires
        d > 0,
        c > 0,
    ensures
        pack(n * c, d * c) == pack(n, d),
{
    lemma_nearest_scale(n, d, c);
    let k = excess(n / d);
    lemma_pow2_pos(k);
    lemma_mul_strictly_positive(d as int, pow2(k) as int);
    lemma_nearest_scale(n, d * pow2(k), c);
    assert((d * c) * pow2(k) == (d * pow2(k)) * c) by (nonlinear_arith);
}

/// `m * 2^n`.
pub(crate) fn scale_up(m: u128, n: u32) -> (r: u128)
    requires
        m < 0x100_0000,
        n <= 64,
    ensures
        r == m * pow2(n as nat),
        r < 0x100_0000_0000_0000_0000_0000,
{
    let mut r: u128 = m;
    let mut i: u32 = 0;
    proof {
        lemma2_to64();
        lemma2_to64_rest();
    }
    while i < n
        invariant
            i <= n <= 64,
            m < 0x100_0000,
            r == m * pow2(i as nat),
            r < 0x100_0000_0000_0000_0000_0000,
            pow2(64) == 0x1_0000_0000_0000_0000,
        decreases n - i,
    {
        proof {
            lemma_pow2_unfold((i + 1) as nat);
            lemma_pow2_pos((i + 1) as nat);
            if i + 1 < 64 {
                lemma_pow2_strictly_increases((i + 1) as nat, 64);
            }
            assert(m * pow2((i + 1) as nat) == 2 * (m * pow2(i as nat))) by (nonlinear_arith)
                requires
                    pow2((i + 1) as nat) == 2 * pow2(i as nat),
            ;
            assert(m * pow2((i + 1) as nat) < 0x100_0000 * 0x1_0000_0000_0000_0000) by (nonlinear_arith)
                requires
                    m < 0x100_0000,
                    0 < pow2((i + 1) as nat) <= 0x1_0000_0000_0000_0000,
            ;
        }
        r = r * 2;
        i = i + 1;
    }
    r
}

/// The pattern of the integer `m * 2^e` units.
pub(crate) fn pack_exact(m: u128, e: u32) -> (r: u32)
    requires
        0 < m < 0x100_0000_0000_0000_0000_0000_0000,
        e <= 300,
    ensures
        r == pack(m as nat * pow2(e as nat), 1),
        r <= INF_BITS,
{
    let mut t: u128 = m;
    let mut k: u32 = e;
    while t < 0x80_0000 && k > 0
        invariant
            0 < t < 0x100_0000_0000_0000_0000_0000_0000,
            k <= 300,
            t * pow2(k as nat) == m * pow2(e as nat),
        decreases k,
    {
        proof {
            lemma_pow2_unfold(k as nat);
            assert((2 * t) * pow2((k - 1) as nat) == t * pow2(k as nat)) by (nonlinear_arith)
                requires
                    pow2(k as nat) == 2 * pow2((k - 1) as nat),
            ;
        }
        t = t * 2;
        k = k - 1;
    }
    proof {
        assert(t as nat % 1 == 0);
    }
    round_pack(t, k as i32, false, Ghost(t as nat), Ghost(1))
}

/// The sum of two finite numbers given by sign, significand and step, the
/// first with the larger step.
fn add_aligned(neg1: bool, m1: u32, k1: u32, neg2: bool, m2: u32, k2: u32) -> (r: F32)
    requires
        m1 < 0x100_0000,
        m2 < 0x100_0000,
        k2 <= k1 <= 253,
        k1 > 0 ==> m1 >= 0x80_0000,
    ensures
        ({
            let v1 = m1 * pow2(k1 as nat);
            let v2 = m2 * pow2(k2 as nat);
            let s = (if neg1 {
                -v1
            } else {
                v1
            }) + (if neg2 {
                -v2
            } else {
                v2
            });
            r == if s == 0 {
                signed(neg1 && neg2, 0)
            } else if s > 0 {
                signed(false, pack(s as nat, 1))
            } else {
                signed(true, pack((-s) as nat, 1))
            }
        }),
{
    let diff: u32 = k1 - k2;
    let ghost v1: int = m1 * pow2(k1 as nat);
    let ghost v2: int = m2 * pow2(k2 as nat);
    let ghost p2: nat = pow2(k2 as nat);
    proof {
        lemma_pow2_pos(k2 as nat);
        lemma_pow2_adds(diff as nat, k2 as nat);
        lemma_pow2_pos(k1 as nat);
        assert(v2 >= 0) by (nonlinear_arith)
            requires
                v2 == m2 * p2,
                p2 > 0,
        ;
    }
    if diff < 64 {
        let a: u128 = scale_up(m1 as u128, diff);
        let b: u128 = m2 as u128;
        proof {
            assert(a * p2 == v1) by (nonlinear_arith)
                requires
                    a == m1 * pow2(diff as nat),
                    v1 == m1 * pow2(k1 as nat),
                    pow2(k1 as nat) == pow2(diff as nat) * p2,
            ;
            assert((a + b) * p2 == v1 + v2 && (a - b) * p2 == v1 - v2 && (b - a) * p2 == v2 - v1)
                by (nonlinear_arith)
                requires
                    a * p2 == v1,
                    b * p2 == v2,
            ;
            assert(a > b ==> (a - b) * p2 > 0) by (nonlinear_arith)
                requires
                    p2 > 0,
            ;
            assert(b > a ==> (b - a) * p2 > 0) by (nonlinear_arith)
                requires
                    p2 > 0,
            ;
            assert(a + b > 0 ==> (a + b) * p2 > 0) by (nonlinear_arith)
                requires
                    p2 > 0,
            ;
            assert(0 * p2 == 0);
        }
        if neg1 == neg2 {
            let m: u128 = a + b;
            if m == 0 {
                assert(v1 + v2 == 0);
                from_parts(neg1, 0)
            } else {
                from_parts(neg1, pack_exact(m, k2))
            }
        } else if a == b {
            assert((a - b) * p2 == 0);
            from_parts(false, 0)
        } else if a > b {
            from_parts(neg1, pack_exact(a - b, k2))
        } else {
            from_parts(neg2, pack_exact(b - a, k2))
        }
    } else {
        assert(v1 > 0) by (nonlinear_arith)
            requires
                m1 > 0,
                v1 == m1 * pow2(k1 as nat),
                pow2(k1 as nat) > 0,
        ;
        if m2 == 0 {
            assert(v2 == 0);
            from_parts(neg1, pack_exact(m1 as u128, k1))
        } else {
            // The second number lies wholly below the kept bits of the first.
            let e: u32 = k1 - 40;
            let a: u128 = scale_up(m1 as u128, 40);
            let ghost d: nat = pow2(e as nat);
            proof {
                lemma_pow2_pos(e as nat);
                lemma_pow2_adds(40, e as nat);
                lemma_pow2_adds(24, k2 as nat);
                lemma2_to64();
                lemma2_to64_rest();
                if k2 + 24 < e {
                    lemma_pow2_strictly_increases((k2 + 24) as nat, e as nat);
                }
                assert(0 < v2 < pow2(24) * p2) by (nonlinear_arith)
                    requires
                        v2 == m2 * p2,
                        0 < m2 < pow2(24),
                        p2 > 0,
                ;
                assert(v1 == a * d) by (nonlinear_arith)
                    requires
                        v1 == m1 * pow2(k1 as nat),
                        a == m1 * pow2(40),
                        pow2(k1 as nat) == pow2(40) * d,
                ;
                assert(a >= 0x80_0000 * 0x100_0000_0000) by (nonlinear_arith)
                    requires
                        a == m1 * pow2(40),
                        m1 >= 0x80_0000,
                        pow2(40) == 0x100_0000_0000,
                ;
                assert(v1 > v2) by (nonlinear_arith)
                    requires
                        v1 == a * d,
                        a >= 1,
                        v2 < d,
                        d > 0,
                ;
            }
            let ghost n: nat = (if neg1 == neg2 {
                v1 + v2
            } else {
                v1 - v2
            }) as nat;
            let m: u128 = if neg1 == neg2 {
                a
            } else {
                a - 1
            };
            proof {
                if neg1 == neg2 {
                    lemma_fundamental_div_mod_converse(n as int, d as int, a as int, v2);
                } else {
                    assert((a - 1) * d + (d - v2) == v1 - v2) by (nonlinear_arith)
                        requires
                            v1 == a * d,
                    ;
                    lemma_fundamental_div_mod_converse(n as int, d as int, (a - 1) as int, d - v2);
                }
                lemma_pack_ratio(n * d, d, n, 1);
            }
            let b: u32 = round_pack(m, e as i32, true, Ghost(n), Ghost(d));
            from_parts(neg1, b)
        }
    }
}

/// Shifts a nonzero significand up to 24 bits.
fn normalise(m: u32, k: u32) -> (r: (u32, i32))
    requires
        0 < m < 0x100_0000,
        k <= 253,
    ensures
        0x80_0000 <= r.0 < 0x100_0000,
        -23 <= r.1 <= k,
        r.0 == m * pow2((k - r.1) as nat),
{
    let mut t: u32 = m;
    let mut i: i32 = 0;
    proof {
        lemma2_to64();
        assert(m * 1 == m);
    }
    while t < 0x80_0000
        invariant
            0 < t < 0x100_0000,
            0 <= i <= 23,
            t == m * pow2(i as nat),
            i < 23 || t >= 0x80_0000,
            t >= pow2(i as nat),
            pow2(23) == 0x80_0000,
            m > 0,
        decreases 23 - i,
    {
        proof {
            lemma_pow2_unfold((i + 1) as nat);
            assert(m * pow2((i + 1) as nat) == 2 * (m * pow2(i as nat))) by (nonlinear_arith)
                requires
                    pow2((i + 1) as nat) == 2 * pow2(i as nat),
            ;
        }
        t = t * 2;
        i = i + 1;
    }
    (t, k as i32 - i)
}

/// The integer square root of `y`, which has 47 or 48 bits.
fn root_48(y: u64) -> (f: u64)
    requires
        0x4000_0000_0000 <= y < 0x1_0000_0000_0000,
    ensures
        f * f <= y < (f + 1) * (f + 1),
        0x80_0000 <= f < 0x100_0000,
{
    let mut f: u64 = 0x80_0000;
    let mut bit: u64 = 0x80_0000;
    let mut i: u32 = 0;
    proof {
        lemma2_to64();
    }
    while bit > 1
        invariant
            i <= 23,
            bit == pow2((23 - i) as nat),
            0x80_0000 <= f,
            f + bit <= 0x100_0000,
            f * f <= y,
            y < (f + bit) * (f + bit),
            y < 0x1_0000_0000_0000,
            pow2(0) == 1,
        decreases bit,
    {
        proof {
            if i == 23 {
                assert(false);
            }
            lemma_pow2_unfold((23 - i) as nat);
        }
        bit = bit / 2;
        i = i + 1;
        let c: u64 = f + bit;
        assert(c * c <= 0x100_0000 * 0x100_0000) by (nonlinear_arith)
            requires
                c <= 0x100_0000,
        ;
        if c * c <= y {
            f = c;
        }
    }
    f
}

pub proof fn lemma_root_floor(n: nat, r: nat)
    requires
        r * r <= n < (r + 1) * (r + 1),
    ensures
        root_floor(n) == r,
{
    assert(is_root(n, r));
    let s = root_floor(n);
    assert(is_root(n, s));
    assert(s == r) by (nonlinear_arith)
        requires
            s * s <= n < (s + 1) * (s + 1),
            r * r <= n < (r + 1) * (r + 1),
            s >= 0,
            r >= 0,
    ;
}

/// The root of `y * 4^h`, from the root of `y`.
proof fn lemma_pack_root(y: nat, h: nat, f: nat)
    requires
        f * f <= y < (f + 1) * (f + 1),
        0x80_0000 <= f < 0x100_0000,
    ensures
        pack_root(y * pow2(2 * h)) == h * 0x80_0000 + if y > f * f + f {
            f + 1
        } else {
            f
        },
{
    let p = pow2(h);
    let p2 = pow2(2 * h);
    lemma_pow2_pos(h);
    lemma_pow2_adds(h, h);
    assert(p2 == p * p);
    let x = y * p2;
    lemma_root_exists(x);
    let g = root_floor(x);
    assert(is_root(x, g));
    assert(f * p <= g) by (nonlinear_arith)
        requires
            x == y * (p * p),
            f * f <= y,
            x < (g + 1) * (g + 1),
            p > 0,
            g >= 0,
            f >= 0,
    {
        if g < f * p {
            assert((g + 1) * (g + 1) <= (f * p) * (f * p));
            assert((f * p) * (f * p) == (f * f) * (p * p));
            assert((f * f) * (p * p) <= y * (p * p));
        }
    }
    assert(g < (f + 1) * p) by (nonlinear_arith)
        requires
            x == y * (p * p),
            y < (f + 1) * (f + 1),
            g * g <= x,
            p > 0,
            g >= 0,
            f >= 0,
    {
        if g >= (f + 1) * p {
            assert(g * g >= ((f + 1) * p) * ((f + 1) * p));
            assert(((f + 1) * p) * ((f + 1) * p) == ((f + 1) * (f + 1)) * (p * p));
            assert(y * (p * p) < ((f + 1) * (f + 1)) * (p * p));
        }
    }
    assert(g as int == f * p + (g - f * p) && 0 <= g - f * p < p) by (nonlinear_arith)
        requires
            f * p <= g,
            g < (f + 1) * p,
    ;
    lemma_fundamental_div_mod_converse(g as int, p as int, f as int, g - f * p);
    lemma_excess_unique(g, h);
    lemma_pow2_pos(2 * h);
    lemma_fundamental_div_mod_converse(x as int, p2 as int, y as int, 0);
    lemma_root_floor(y, f);
    assert((4 * x > (2 * f + 1) * (2 * f + 1) * p2) == (y > f * f + f)) by (nonlinear_arith)
        requires
            x == y * p2,
            p2 > 0,
    {
        assert((2 * f + 1) * (2 * f + 1) == 4 * (f * f + f) + 1);
        if y > f * f + f {
            assert(4 * y > (2 * f + 1) * (2 * f + 1));
            assert((4 * y) * p2 > ((2 * f + 1) * (2 * f + 1)) * p2);
        } else {
            assert((4 * y) * p2 <= ((2 * f + 1) * (2 * f + 1)) * p2);
        }
    }
}

pub(crate) proof fn lemma_root_exists(n: nat)
    ensures
        exists|r: nat| is_root(n, r),
    decreases n,
{
    if n == 0 {
        assert(is_root(n, 0)) by (nonlinear_arith)
            requires
                n == 0,
        ;
    } else {
        let n0 = (n - 1) as nat;
        lemma_root_exists(n0);
        let r = root_floor(n0);
        if n < (r + 1) * (r + 1) {
            assert(is_root(n, r));
        } else {
            let s = r + 1;
            assert(s * s <= n < (s + 1) * (s + 1)) by (nonlinear_arith)
                requires
                    n == s * s,
            ;
            assert(is_root(n, s));
        }
    }
}

impl F32 {
    pub fn negate(self) -> (r: F32)
        ensures
            r == f_neg(self),
    {
        from_parts(!self.is_neg(), self.magnitude())
    }

    pub fn abs(self) -> (r: F32)
        ensures
            r == f_abs(self),
    {
        from_parts(false, self.magnitude())
    }

    pub fn plus(self, b: F32) -> (r: F32)
        ensures
            r == f_add(self, b),
    {
        reveal(f_add);
        if self.is_nan() || b.is_nan() {
            fl(NAN_BITS)
        } else if self.is_infinite() {
            if b.is_infinite() && self.is_neg() != b.is_neg() {
                fl(NAN_BITS)
            } else {
                self
            }
        } else if b.is_infinite() {
            b
        } else {
            let (m1, k1) = decode(self.magnitude());
            let (m2, k2) = decode(b.magnitude());
            if k1 >= k2 {
                add_aligned(self.is_neg(), m1, k1, b.is_neg(), m2, k2)
            } else {
                add_aligned(b.is_neg(), m2, k2, self.is_neg(), m1, k1)
            }
        }
    }

    pub fn minus(self, b: F32) -> (r: F32)
        ensures
            r == f_sub(self, b),
    {
        self.plus(b.negate())
    }

    pub fn times(self, b: F32) -> (r: F32)
        ensures
            r == f_mul(self, b),
    {
        reveal(f_mul);
        let neg: bool = self.is_neg() != b.is_neg();
        if self.is_nan() || b.is_nan() {
            fl(NAN_BITS)
        } else if self.is_infinite() || b.is_infinite() {
            if self.magnitude() == 0 || b.magnitude() == 0 {
                fl(NAN_BITS)
            } else {
                from_parts(neg, INF_BITS)
            }
        } else {
            let (m1, k1) = decode(self.magnitude());
            let (m2, k2) = decode(b.magnitude());
            assert((m1 as u128) * (m2 as u128) < 0x100_0000 * 0x100_0000) by (nonlinear_arith)
                requires
                    m1 < 0x100_0000,
                    m2 < 0x100_0000,
            ;
            let m: u128 = (m1 as u128) * (m2 as u128);
            let ghost u1: nat = units(self.mag());
            let ghost u2: nat = units(b.mag());
            let ghost p12: nat = pow2((k1 + k2) as nat);
            proof {
                lemma_pow2_pos(149);
                lemma_pow2_adds(k1 as nat, k2 as nat);
                assert(u1 * u2 == m * p12) by (nonlinear_arith)
                    requires
                        u1 == m1 * pow2(k1 as nat),
                        u2 == m2 * pow2(k2 as nat),
                        p12 == pow2(k1 as nat) * pow2(k2 as nat),
                        m == m1 * m2,
                ;
            }
            if m == 0 {
                proof {
                    assert(u1 * u2 == 0) by (nonlinear_arith)
                        requires
                            u1 * u2 == m * p12,
                            m == 0,
                    ;
                    lemma_pack_zero(pow2(149));
                }
                from_parts(neg, 0)
            } else {
                let e: i32 = (k1 + k2) as i32 - 149;
                proof {
                    assert(m1 >= 1 && m2 >= 1) by (nonlinear_arith)
                        requires
                            m == m1 * m2,
                            m > 0,
                            m1 >= 0,
                            m2 >= 0,
                    ;
                    if e > 0 {
                        if k1 > 0 {
                            assert(m >= 0x80_0000) by (nonlinear_arith)
                                requires
                                    m == m1 * m2,
                                    m1 >= 0x80_0000,
                                    m2 >= 1,
                            ;
                        } else {
                            assert(m >= 0x80_0000) by (nonlinear_arith)
                                requires
                                    m == m1 * m2,
                                    m2 >= 0x80_0000,
                                    m1 >= 1,
                            ;
                        }
                    }
                    if e >= 0 {
                        lemma_pow2_adds(e as nat, 149);
                        lemma_pow2_pos(e as nat);
                        assert((m as nat * pow2(e as nat)) * pow2(149) == (m * p12) * 1) by (nonlinear_arith)
                            requires
                                p12 == pow2(e as nat) * pow2(149),
                        ;
                        lemma_pack_ratio(m as nat * pow2(e as nat), 1, (m * p12) as nat, pow2(149));
                    } else {
                        let f = (-e) as nat;
                        lemma_pow2_adds(f, (k1 + k2) as nat);
                        lemma_pow2_pos(f);
                        assert(m * pow2(149) == (m * p12) * (1 * pow2(f))) by (nonlinear_arith)
                            requires
                                pow2(149) == pow2(f) * p12,
                        ;
                        lemma_pack_ratio(m as nat, 1 * pow2(f), (m * p12) as nat, pow2(149));
                    }
                }
                from_parts(neg, round_pack(m, e, false, Ghost(m as nat), Ghost(1)))
            }
        }
    }

    pub fn over(self, b: F32) -> (r: F32)
        ensures
            r == f_div(self, b),
    {
        reveal(f_div);
        let neg: bool = self.is_neg() != b.is_neg();
        let (x, y) = (self.magnitude(), b.magnitude());
        if self.is_nan() || b.is_nan() || (self.is_infinite() && b.is_infinite()) || (x == 0 && y == 0) {
            fl(NAN_BITS)
        } else if self.is_infinite() || y == 0 {
            from_parts(neg, INF_BITS)
        } else if b.is_infinite() {
            from_parts(neg, 0)
        } else if x == 0 {
            proof {
                lemma_units_pos(b.mag());
                lemma2_to64();
                assert(0 * pow2(0) == 0);
                assert(units(0) == 0);
                assert(0 * pow2(149) == 0);
                lemma_pack_zero(units(b.mag()));
            }
            from_parts(neg, 0)
        } else {
            let (m1, k1) = decode(x);
            let (m2, k2) = decode(y);
            let (n1, j1) = normalise(m1, k1);
            let (n2, j2) = normalise(m2, k2);
            let n: u128 = scale_up(n1 as u128, 40);
            let m: u128 = n / (n2 as u128);
            let e: i32 = j1 - j2 + 109;
            proof {
                let u1 = units(x as nat);
                let u2 = units(y as nat);
                lemma_units_pos(y as nat);
                lemma2_to64_rest();
                lemma_fundamental_div_mod(n as int, n2 as int);
                assert(m >= 0x100_0000) by (nonlinear_arith)
                    requires
                        n == n2 * m + n % (n2 as u128),
                        n % (n2 as u128) < n2,
                        n == n1 * pow2(40),
                        pow2(40) == 0x100_0000_0000,
                        n1 >= 0x80_0000,
                        n2 < 0x100_0000,
                ;
                assert(m <= n) by (nonlinear_arith)
                    requires
                        n == n2 * m + n % (n2 as u128),
                        n % (n2 as u128) >= 0,
                        n2 >= 1,
                ;
                // u1 * 2^a1 == n1 * 2^k1 and likewise for the divisor.
                let a1 = (k1 - j1) as nat;
                let a2 = (k2 - j2) as nat;
                let (pk1, pk2, pa1, pa2) = (pow2(k1 as nat), pow2(k2 as nat), pow2(a1), pow2(a2));
                lemma_pow2_pos(a1);
                lemma_pow2_pos(a2);
                lemma_pow2_pos(k1 as nat);
                lemma_pow2_pos(k2 as nat);
                lemma_pow2_pos(149);
                assert(u1 * pa1 == n1 * pk1) by (nonlinear_arith)
                    requires
                        u1 == m1 * pk1,
                        n1 == m1 * pa1,
                ;
                assert(u2 * pa2 == n2 * pk2) by (nonlinear_arith)
                    requires
                        u2 == m2 * pk2,
                        n2 == m2 * pa2,
                ;
                if e >= 0 {
                    let pe = pow2(e as nat);
                    lemma_pow2_pos(e as nat);
                    // 40 + e + a1 + k2 == 149 + k1 + a2
                    lemma_pow2_adds(40, e as nat);
                    lemma_pow2_adds((40 + e) as nat, a1);
                    lemma_pow2_adds((40 + e + a1) as nat, k2 as nat);
                    lemma_pow2_adds(149, k1 as nat);
                    lemma_pow2_adds((149 + k1) as nat, a2);
                    assert(pow2(40) * pe * pa1 * pk2 == pow2(149) * pk1 * pa2);
                    assert(n as nat * pe == n1 as nat * (pow2(40) * pe)) by (nonlinear_arith)
                        requires
                            n == n1 * pow2(40),
                    ;
                    lemma_cross(n as nat * pe, n2 as nat, u1 * pow2(149), u2, n1 as nat, n2 as nat, u1, pow2(40) * pe, pa1, pa2, pk1, pk2, pow2(149), 1);
                    lemma_pack_ratio(n as nat * pe, n2 as nat, u1 * pow2(149), u2);
                } else {
                    let f = (-e) as nat;
                    let pf = pow2(f);
                    lemma_pow2_pos(f);
                    // 40 + a1 + k2 == 149 + k1 + a2 + f
                    lemma_pow2_adds(40, a1);
                    lemma_pow2_adds((40 + a1) as nat, k2 as nat);
                    lemma_pow2_adds(149, k1 as nat);
                    lemma_pow2_adds((149 + k1) as nat, a2);
                    lemma_pow2_adds((149 + k1 + a2) as nat, f);
                    assert(pow2(40) * pa1 * pk2 == pow2(149) * pk1 * pa2 * pf);
                    lemma_cross(n as nat, n2 as nat * pf, u1 * pow2(149), u2, n1 as nat, n2 as nat, u1, pow2(40), pa1, pa2, pk1, pk2, pow2(149), pf);
                    lemma_mul_strictly_positive(n2 as int, pf as int);
                    lemma_pack_ratio(n as nat, n2 as nat * pf, u1 * pow2(149), u2);
                }
            }
            let sticky: bool = n % (n2 as u128) != 0;
            from_parts(neg, round_pack(m, e, sticky, Ghost(n as nat), Ghost(n2 as nat)))
        }
    }

    pub fn sqrt(self) -> (r: F32)
        ensures
            r == f_sqrt(self),
    {
        reveal(f_sqrt);
        let x: u32 = self.magnitude();
        if self.is_nan() || (self.is_neg() && x != 0) {
            fl(NAN_BITS)
        } else if self.is_infinite() || x == 0 {
            self
        } else {
            let (m, k) = decode(x);
            let (n, j) = normalise(m, k);
            // The exponent left after taking 23 or 24 bits more is even.
            let odd: bool = j % 2 != 0;
            let p: u32 = if odd {
                24
            } else {
                23
            };
            let wide: u128 = scale_up(n as u128, p);
            let h: u32 = ((j + 149 - p as i32) / 2) as u32;
            proof {
                lemma2_to64();
                assert(wide >= 0x4000_0000_0000 && wide < 0x1_0000_0000_0000) by (nonlinear_arith)
                    requires
                        wide == n * pow2(p as nat),
                        0x80_0000 <= n < 0x100_0000,
                        pow2(p as nat) == 0x80_0000 || pow2(p as nat) == 0x100_0000,
                ;
            }
            let y: u64 = wide as u64;
            proof {
                assert(2 * h + p == j + 149);
                let a = (k - j) as nat;
                lemma_pow2_pos(a);
                lemma_pow2_adds(a, (2 * h + p) as nat);
                lemma_pow2_adds(k as nat, 149);
                lemma_pow2_adds(p as nat, (2 * h) as nat);
                assert(a + 2 * h + p == k + 149);
                assert(units(x as nat) * pow2(149) == y * pow2((2 * h) as nat)) by (nonlinear_arith)
                    requires
                        units(x as nat) == m * pow2(k as nat),
                        n == m * pow2(a),
                        y == n * pow2(p as nat),
                        pow2((2 * h + p) as nat) == pow2(p as nat) * pow2((2 * h) as nat),
                        pow2(a) * pow2((2 * h + p) as nat) == pow2(k as nat) * pow2(149),
                {
                    assert(m * pow2(k as nat) * pow2(149) == m * (pow2(k as nat) * pow2(149)));
                    assert((m * pow2(a)) * (pow2(p as nat) * pow2((2 * h) as nat)) == ((m * pow2(a)) * pow2(p as nat)) * pow2((2 * h) as nat));
                    assert(m * (pow2(a) * pow2((2 * h + p) as nat)) == (m * pow2(a)) * pow2((2 * h + p) as nat));
                }
            }
            let f: u64 = root_48(y);
            assert(f * f <= 0x100_0000 * 0x100_0000) by (nonlinear_arith)
                requires
                    f <= 0x100_0000,
            ;
            let q: u32 = if y - f * f > f {
                f as u32 + 1
            } else {
                f as u32
            };
            proof {
                lemma_pack_root(y as nat, h as nat, f as nat);
            }
            from_parts(false, h * 0x80_0000 + q)
        }
    }
}

pub proof fn lemma_units_pos(mag: nat)
    requires
        0 < mag < INF_BITS,
    ensures
        units(mag) > 0,
{
    lemma_pow2_pos(step_of(mag));
    assert(significand(mag) > 0);
    lemma_mul_strictly_positive(significand(mag) as int, pow2(step_of(mag)) as int);
}

/// The cross product that shows two quotients equal.
proof fn lemma_cross(n: nat, d: nat, n2: nat, d2: nat, a: nat, b: nat, u1: nat, c: nat, pa1: nat, pa2: nat, pk1: nat, pk2: nat, w: nat, pf: nat)
    requires
        pa1 > 0,
        pa2 > 0,
        n == a * c,
        n2 == u1 * w,
        u1 * pa1 == a * pk1,
        d2 * pa2 == b * pk2,
        d == b * pf,
        c * pa1 * pk2 == w * pk1 * pa2 * pf,
    ensures
        n * d2 == n2 * d,
{
    // Multiply both sides by pa1 * pa2 and compare.
    let ab = a * b;
    let l = c * pa1 * pk2;
    assert((n * d2) * (pa1 * pa2) == (n * pa1) * (d2 * pa2)) by (nonlinear_arith);
    assert((n * pa1) * (b * pk2) == ab * l) by (nonlinear_arith)
        requires
            n == a * c,
            ab == a * b,
            l == c * pa1 * pk2,
    ;
    assert((n2 * d) * (pa1 * pa2) == (u1 * pa1) * (w * d * pa2)) by (nonlinear_arith)
        requires
            n2 == u1 * w,
    ;
    assert((a * pk1) * (w * d * pa2) == ab * (w * pk1 * pa2 * pf)) by (nonlinear_arith)
        requires
            d == b * pf,
            ab == a * b,
    ;
    assert(n * d2 == n2 * d) by (nonlinear_arith)
        requires
            (n * d2) * (pa1 * pa2) == (n2 * d) * (pa1 * pa2),
            pa1 > 0,
            pa2 > 0,
    {
        assert(pa1 * pa2 > 0);
    }
}

} // verus!
