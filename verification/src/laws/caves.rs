//! Laws of the cave's shape: how far its curves can go.

use crate::binary32::arith::{f_abs, f_add, f_div, f_mul, f_neg, f_sub, lemma_pack_ratio};
use crate::binary32::convert::{
    f_floor, f_of_int, f_to_i64, floor_int, frac_part, int_part, lemma_whole_already, one_units,
};
use crate::binary32::facts::{
    lemma_add_between, lemma_mul_between, lemma_pack_error, lemma_pack_le, lemma_pack_le_half,
    lemma_pack_steps, lemma_pack_units, lemma_units_at, lemma_units_mono, lemma_units_zero,
    order_is_by_value,
};
use crate::binary32::order::{f_eq, f_le, f_lt, f_min};
use crate::binary32::{fl, pack, signed, significand, step_of, units, F32, INF_BITS};
use crate::cave::{
    fraction16, Wave, BASE, CENTER_MEDIUM, CENTER_SLOW, CENTER_TIGHT, ELEVEN, FIVE, ONE, SEG_LEN,
    SEVEN, TAU, THREE, TWO, U16_SPAN, WAVELENGTH_1, WAVELENGTH_2, WAVELENGTH_3, WAVELENGTH_4,
    WAVELENGTH_5, WAVELENGTH_6, WIDTH_MEAN, WIDTH_MEDIUM, WIDTH_PINCH, WIDTH_SLOW,
};
use crate::level::LevelView;
use crate::rng::{hash, range_of, unit_of, GOLDEN, TWO_POW_24};
use crate::shaft::{wall_envelope, ENVELOPE, WIGGLE_FINE, WIGGLE_WIDE};
use vstd::arithmetic::power2::{
    lemma2_to64, lemma2_to64_rest, lemma_pow2_adds, lemma_pow2_pos, pow2,
};
use vstd::prelude::*;

verus! {

/// A fine unit of which every constant here is a whole multiple.
pub(crate) closed spec fn grain() -> int {
    pow2(120) as int
}

pub(crate) proof fn lemma_grain()
    ensures
        grain() > 0,
        pow2(149) == 0x2000_0000 * grain(),
        pow2(126) == 0x40 * grain(),
        pow2(125) == 0x20 * grain(),
{
    lemma2_to64();
    lemma_pow2_pos(120);
    lemma_pow2_adds(120, 29);
    lemma_pow2_adds(120, 6);
    lemma_pow2_adds(120, 5);
    assert(pow2(29) == 0x2000_0000) by {
        lemma2_to64_rest();
        lemma_pow2_adds(14, 15);
    }
}

/// The value of a constant in grains.
pub(crate) proof fn lemma_const(bits: u32, m: nat, s: nat, c: nat)
    requires
        bits < INF_BITS,
        bits as nat == (s + 120) * 0x80_0000 + m,
        0x80_0000 <= m < 0x100_0000,
        s <= 16,
        c == m * pow2(s),
    ensures
        fl(bits).finite(),
        fl(bits).val() == c * grain(),
        f_neg(fl(bits)).finite(),
        f_neg(fl(bits)).val() == -(c * grain()),
{
    lemma_units_at(s + 120, m);
    lemma_pow2_adds(s, 120);
    assert(m * (pow2(s) * pow2(120)) == c * pow2(120)) by (nonlinear_arith)
        requires
            c == m * pow2(s),
    ;
    assert(-(c * grain()) == -(c * pow2(120)));
}

/// `1` in grains.
pub(crate) proof fn lemma_one()
    ensures
        fl(ONE).finite(),
        fl(ONE).val() == pow2(149),
        f_neg(fl(ONE)).finite(),
        f_neg(fl(ONE)).val() == -(pow2(149) as int),
{
    lemma2_to64();
    lemma_grain();
    lemma_const(ONE, 0x80_0000, 6, 0x2000_0000);
}

/// A number between -1 and 1.
pub open spec fn unit_size(a: F32) -> bool {
    a.finite() && -(pow2(149) as int) <= a.val() <= pow2(149)
}

/// A number of size at most 1 times a constant.
pub(crate) proof fn lemma_scale(a: F32, c: F32)
    requires
        unit_size(a),
        c.finite(),
        c.val() >= 0,
    ensures
        f_mul(a, c).finite(),
        -c.val() <= f_mul(a, c).val() <= c.val(),
        a.val() >= 0 ==> f_mul(a, c).val() >= 0,
{
    let u = pow2(149) as int;
    let (x, y) = (a.val(), c.val());
    assert(-y * u <= x * y <= y * u) by (nonlinear_arith)
        requires
            -u <= x <= u,
            y >= 0,
    ;
    lemma_units_zero();
    let lo = if x >= 0 {
        fl(0)
    } else {
        f_neg(c)
    };
    assert(f_neg(c).val() == -y);
    if x >= 0 {
        assert(x * y >= 0) by (nonlinear_arith)
            requires
                x >= 0,
                y >= 0,
        ;
        assert(fl(0).val() == 0);
        assert(fl(0).val() * u == 0) by (nonlinear_arith)
            requires
                fl(0).val() == 0,
        ;
    } else {
        assert(lo.val() * u == -y * u);
    }
    lemma_mul_between(a, c, lo, c);
}

/// A whole number that fits a significand is exact.
pub(crate) proof fn lemma_small_int(n: nat)
    requires
        n < 0x100_0000,
    ensures
        f_of_int(n as int).finite(),
        f_of_int(n as int).val() == n * pow2(149),
        !f_of_int(n as int).neg(),
{
    reveal(f_of_int);
    lemma_units_zero();
    lemma_pack_steps(n, 149);
    if n > 0 {
        assert((n as int * one_units()) as nat == n * pow2(149));
    } else {
        assert(n * pow2(149) == 0) by (nonlinear_arith)
            requires
                n == 0,
        ;
    }
}

/// 16 bits of a hash make a number from 0 to 1.
pub(crate) proof fn lemma_fraction16(h: u32)
    ensures
        unit_size(fraction16(h)),
        fraction16(h).val() >= 0,
{
    let low = h & 0xffff;
    assert(h & 0xffff <= 0xffff) by (bit_vector);
    let n = low as nat;
    let u = pow2(149);
    lemma_pow2_pos(149);
    lemma_small_int(n);
    lemma_one();
    lemma_units_zero();
    let b = fl(U16_SPAN);
    assert(b.val() == 65535 * u) by {
        lemma_units_at(141, 0xff_ff00);
        lemma2_to64();
        lemma_pow2_adds(8, 141);
        assert(0xff_ff00 * pow2(141) == 65535 * (256 * pow2(141))) by (nonlinear_arith);
    }
    reveal(f_div);
    let a = f_of_int(low as int);
    let num = units(a.mag()) * u;
    assert(num <= units(ONE as nat) * units(b.mag())) by (nonlinear_arith)
        requires
            num == (n * u) * u,
            units(ONE as nat) == u,
            units(b.mag()) == 65535 * u,
            n <= 65535,
            u > 0,
    ;
    assert(units(b.mag()) > 0);
    lemma_pack_le(num, units(b.mag()), ONE as nat);
    let r = pack(num, units(b.mag()));
    if r < ONE {
        lemma_units_mono(r, ONE as nat);
    }
    if b.mag() == 0 {
        assert(false);
    }
}

/// Lattice values lie between -1 and 1.
pub(crate) proof fn lemma_lattice(l: LevelView, salt: u32, c: i64)
    ensures
        unit_size(l.lattice(salt, c)),
{
    let h = hash(
        (c as u32) ^ l.seed.wrapping_mul(GOLDEN) ^ salt.wrapping_mul(0x85eb_ca6b),
    );
    let q = fraction16(h);
    lemma_fraction16(h);
    lemma_one();
    lemma_grain();
    lemma2_to64();
    lemma_const(TWO, 0x80_0000, 7, 0x4000_0000);
    lemma_scale(q, fl(TWO));
    lemma_add_between(f_mul(q, fl(TWO)), f_neg(fl(ONE)), f_neg(fl(ONE)), fl(ONE));
}

/// What is left of a number above its floor lies between 0 and 1.
proof fn lemma_above_floor(t: F32)
    requires
        t.finite(),
    ensures
        f_sub(t, f_floor(t)).finite(),
        0 <= f_sub(t, f_floor(t)).val() <= pow2(149),
{
    reveal(f_floor);
    lemma_one();
    lemma_units_zero();
    let u = pow2(149);
    lemma_pow2_pos(149);
    let f = f_floor(t);
    let i = floor_int(t);
    vstd::arithmetic::div_mod::lemma_fundamental_div_mod(units(t.mag()) as int, u as int);
    vstd::arithmetic::div_mod::lemma_mod_division_less_than_divisor(units(t.mag()) as int, u as int);
    let q = int_part(t) as int;
    let w = frac_part(t) as int;
    assert(units(t.mag()) == u * q + w && 0 <= w < u);
    if step_of(t.mag()) >= 149 {
        lemma_whole_already(t);
        assert(f == t);
        lemma_add_between(t, f_neg(t), fl(0), fl(ONE));
    } else {
        let m = significand(t.mag());
        let s = step_of(t.mag());
        assert(m < 0x100_0000);
        lemma_pow2_adds(s, (148 - s) as nat);
        lemma_pow2_pos((148 - s) as nat);
        lemma_pow2_pos(s);
        lemma_pow2_adds(148, 1);
        lemma2_to64();
        assert(q < 0x80_0000) by (nonlinear_arith)
            requires
                u * q + w == m * pow2(s),
                w >= 0,
                m < 0x100_0000,
                pow2(148) == pow2(s) * pow2((148 - s) as nat),
                pow2((148 - s) as nat) > 0,
                pow2(s) > 0,
                u == pow2(148) * 2,
        ;
        let n = if i >= 0 {
            i as nat
        } else {
            (-i) as nat
        };
        assert(n <= 0x80_0000);
        lemma_pack_steps(n, 149);
        assert(n as int * one_units() == n * pow2(149));
        assert(f.finite() && f.val() == i * u) by {
            if i == 0 {
                assert(i * u == 0) by (nonlinear_arith)
                    requires
                        i == 0,
                ;
            } else if i < 0 {
                assert(i * u == -(n * u)) by (nonlinear_arith)
                    requires
                        i == -(n as int),
                ;
            }
        }
        assert(0 <= t.val() - i * u <= u) by (nonlinear_arith)
            requires
                0 <= w < u,
                t.val() == u * q + w && i == q || t.val() == -(u * q + w) && w == 0 && i == -q || t.val()
                    == -(u * q + w) && w != 0 && i == -q - 1,
        ;
        assert(f_neg(f).finite() && f_neg(f).val() == -f.val());
        lemma_add_between(t, f_neg(f), fl(0), fl(ONE));
    }
}

/// The smoothstep of a number.
spec fn ease(f: F32) -> F32 {
    f_mul(f_mul(f, f), f_sub(fl(THREE), f_mul(fl(TWO), f)))
}

/// A product that exceeds 1 by half a step at most is rounded to 1 or less.
proof fn lemma_mul_to_one(a: F32, b: F32)
    requires
        a.finite(),
        b.finite(),
        a.val() >= 0,
        b.val() >= 0,
        a.val() * b.val() <= (pow2(149) + pow2(125)) * pow2(149),
    ensures
        f_mul(a, b).finite(),
        0 <= f_mul(a, b).val() <= pow2(149),
{
    reveal(f_mul);
    lemma_one();
    lemma_grain();
    lemma_units_zero();
    lemma_pow2_pos(149);
    let u = pow2(149);
    let (x, y) = (units(a.mag()), units(b.mag()));
    let n = x * y;
    assert(n == a.val() * b.val()) by (nonlinear_arith)
        requires
            n == x * y,
            a.val() == x || (x == 0 && a.val() == 0),
            b.val() == y || (y == 0 && b.val() == 0),
    ;
    let b1 = ONE as nat;
    assert(step_of(b1) == 126 && significand(b1) == 0x80_0000);
    assert(2 * n <= (2 * significand(b1) + 1) * pow2(step_of(b1)) * u) by (nonlinear_arith)
        requires
            n <= (u + pow2(125)) * u,
            significand(b1) == 0x80_0000,
            pow2(step_of(b1)) == 0x40 * grain(),
            pow2(125) == 0x20 * grain(),
            u == 0x2000_0000 * grain(),
    ;
    lemma_pack_le_half(n, u, b1);
    let r = pack(n, u);
    if r < b1 {
        lemma_units_mono(r, b1);
    }
    if n == 0 {
        lemma_pack_le(0, u, 0);
        assert(units(0) * u == 0) by (nonlinear_arith)
            requires
                units(0) == 0,
        ;
    } else {
        assert(a.val() == x && b.val() == y);
        if a.neg() {
            assert(x == 0);
            assert(n == 0) by (nonlinear_arith)
                requires
                    x == 0,
                    n == x * y,
            ;
        }
        if b.neg() {
            assert(y == 0);
            assert(n == 0) by (nonlinear_arith)
                requires
                    y == 0,
                    n == x * y,
            ;
        }
    }
}

/// A number below one half: the smoothstep is at most three quarters.
proof fn lemma_ease_low(f: F32)
    requires
        f.finite(),
        0 <= f.val(),
        2 * f.val() <= pow2(149),
    ensures
        ease(f).finite(),
        0 <= ease(f).val() <= pow2(149),
{
    lemma_grain();
    lemma_one();
    lemma2_to64();
    lemma_units_zero();
    let u = pow2(149) as int;
    let g = grain();
    let quarter: u32 = 0x3e80_0000;
    lemma_const(quarter, 0x80_0000, 4, 0x800_0000);
    lemma_const(TWO, 0x80_0000, 7, 0x4000_0000);
    lemma_const(THREE, 0xc0_0000, 7, 0x6000_0000);
    let x = f.val();
    assert(0 <= x * x <= fl(quarter).val() * u) by (nonlinear_arith)
        requires
            0 <= x,
            2 * x <= u,
            u == 0x2000_0000 * g,
            fl(quarter).val() == 0x800_0000 * g,
    ;
    assert(fl(0).val() * u == 0) by (nonlinear_arith)
        requires
            fl(0).val() == 0,
    ;
    lemma_mul_between(f, f, fl(0), fl(quarter));
    let p = f_mul(f, f);
    assert(0 <= fl(TWO).val() * x <= fl(ONE).val() * u) by (nonlinear_arith)
        requires
            0 <= x,
            2 * x <= u,
            fl(TWO).val() == 0x4000_0000 * g,
            u == 0x2000_0000 * g,
            fl(ONE).val() == u,
            g > 0,
    ;
    lemma_mul_between(fl(TWO), f, fl(0), fl(ONE));
    let t = f_mul(fl(TWO), f);
    assert(f_neg(t).finite() && f_neg(t).val() == -t.val());
    lemma_add_between(fl(THREE), f_neg(t), fl(0), fl(THREE));
    let q = f_sub(fl(THREE), t);
    let (pv, qv) = (p.val(), q.val());
    assert(0 <= pv * qv <= u * u) by (nonlinear_arith)
        requires
            0 <= pv <= 0x800_0000 * g,
            0 <= qv <= 0x6000_0000 * g,
            u == 0x2000_0000 * g,
    ;
    lemma_mul_between(p, q, fl(0), fl(ONE));
}

/// A number from one half up to 1: the smoothstep still does not exceed 1.
proof fn lemma_ease_high(f: F32)
    requires
        f.finite(),
        2 * f.val() >= pow2(149),
        f.val() <= pow2(149),
    ensures
        ease(f).finite(),
        0 <= ease(f).val() <= pow2(149),
{
    lemma_grain();
    lemma_one();
    lemma2_to64();
    lemma_units_zero();
    let u = pow2(149) as int;
    let g = grain();
    let half: u32 = 0x3f00_0000;
    lemma_const(half, 0x80_0000, 5, 0x1000_0000);
    lemma_const(TWO, 0x80_0000, 7, 0x4000_0000);
    lemma_const(THREE, 0xc0_0000, 7, 0x6000_0000);
    let mag = f.mag();
    assert(!f.neg());
    assert(half <= mag <= ONE) by {
        if mag < half {
            lemma_units_mono(mag, half as nat);
        }
        if mag > ONE {
            lemma_units_mono(ONE as nat, mag);
        }
    }
    // The significand of `f` over a step of 2^125, and how far it is from 1.
    let m = (mag - 125 * 0x80_0000) as nat;
    let e = 0x100_0000 - m;
    assert(0x80_0000 <= m <= 0x100_0000);
    lemma_units_at(125, m);
    let x = f.val();
    assert(x == m * (0x20 * g));
    // Twice the number, exactly.
    let t = fl((mag + 0x80_0000) as u32);
    lemma_units_at(126, m);
    assert(t.finite() && t.val() == m * (0x40 * g));
    assert(fl(TWO).val() * x == t.val() * u) by (nonlinear_arith)
        requires
            fl(TWO).val() == 0x4000_0000 * g,
            x == m * (0x20 * g),
            t.val() == m * (0x40 * g),
            u == 0x2000_0000 * g,
    ;
    lemma_mul_between(fl(TWO), f, t, t);
    let two_f = f_mul(fl(TWO), f);
    // Three less that, exactly.
    let k = (0x180_0000 - m) as nat;
    assert(0x80_0000 <= k <= 0x100_0000);
    let q0 = fl((126 * 0x80_0000 + k) as u32);
    lemma_units_at(126, k);
    assert(q0.finite() && q0.val() == k * (0x40 * g));
    assert(f_neg(two_f).finite() && f_neg(two_f).val() == -(m * (0x40 * g)));
    assert(fl(THREE).val() - m * (0x40 * g) == k * (0x40 * g)) by (nonlinear_arith)
        requires
            fl(THREE).val() == 0x6000_0000 * g,
            k == 0x180_0000 - m,
    ;
    lemma_add_between(fl(THREE), f_neg(two_f), q0, q0);
    let q = f_sub(fl(THREE), two_f);
    // The square, rounded.
    let p = f_mul(f, f);
    assert(0 <= x * x <= u * u) by (nonlinear_arith)
        requires
            0 <= x <= u,
    ;
    assert(fl(0).val() * u == 0) by (nonlinear_arith)
        requires
            fl(0).val() == 0,
    ;
    lemma_mul_between(f, f, fl(0), fl(ONE));
    lemma_square_error(f, m, g);
    let pv = p.val();
    let w = 0x1000_0000_0000 * 0x10 - 0x200_0000 * e + e * e + 0x80_0000;
    assert(0x8_0000 * pv <= w * g) by (nonlinear_arith)
        requires
            0x8_0000 * pv <= (m * m + 0x80_0000) * g,
            m == 0x100_0000 - e,
            w == 0x1_0000_0000_0000 - 0x200_0000 * e + e * e + 0x80_0000,
            g > 0,
    ;
    assert(k == 0x80_0000 + e);
    assert(w * k <= 0x80_0000_0000_0000_0000 + 0x8000_0000_0000) by (nonlinear_arith)
        requires
            w == 0x1_0000_0000_0000 - 0x200_0000 * e + e * e + 0x80_0000,
            k == 0x80_0000 + e,
            0 <= e <= 0x80_0000,
    ;
    assert(pv * q.val() <= (u + pow2(125)) * u) by (nonlinear_arith)
        requires
            0x8_0000 * pv <= w * g,
            pv >= 0,
            q.val() == k * (0x40 * g),
            w * k <= 0x80_0000_0000_0000_0000 + 0x8000_0000_0000,
            u == 0x2000_0000 * g,
            pow2(125) == 0x20 * g,
            g > 0,
            k > 0,
    ;
    lemma_mul_to_one(p, q);
}

/// How far the rounded square of a number between one half and 1 is off.
proof fn lemma_square_error(f: F32, m: nat, g: int)
    requires
        f.finite(),
        !f.neg(),
        0x80_0000 <= m <= 0x100_0000,
        g == grain(),
        f.val() == m * (0x20 * g),
        f_mul(f, f).finite(),
    ensures
        0x8_0000 * f_mul(f, f).val() <= (m * m + 0x80_0000) * g,
{
    reveal(f_mul);
    lemma_grain();
    lemma2_to64();
    let u = pow2(149);
    let x = units(f.mag());
    let n = x * x;
    let d = u;
    lemma_pow2_pos(149);
    // The exact square is a whole number of units.
    lemma_pow2_pos(101);
    lemma_pow2_adds(101, 19);
    lemma_pow2_adds(101, 24);
    let c = pow2(101);
    assert(g == c * 0x8_0000);
    let v = (m * m * c) as nat;
    assert(n * 1 == v * d) by (nonlinear_arith)
        requires
            n == x * x,
            x == m * (0x20 * g),
            g == c * 0x8_0000,
            v == m * m * c,
            d == 0x2000_0000 * g,
    ;
    lemma_pack_ratio(n, d, v, 1);
    assert(pack(n, d) == pack(v, 1));
    if m == 0x100_0000 {
        // Exactly 1.
        lemma_one();
        assert(v == units(ONE as nat)) by (nonlinear_arith)
            requires
                v == m * m * c,
                m == 0x100_0000,
                units(ONE as nat) == 0x2000_0000 * g,
                g == c * 0x8_0000,
        ;
        lemma_pack_units(ONE as nat);
        assert(0x8_0000 * (0x2000_0000 * g) <= (m * m + 0x80_0000) * g) by (nonlinear_arith)
            requires
                m == 0x100_0000,
                g > 0,
        ;
    } else {
        assert(v < 0x100_0000 * pow2(125)) by (nonlinear_arith)
            requires
                v == m * m * c,
                m <= 0xff_ffff,
                pow2(125) == c * 0x100_0000,
                c > 0,
        ;
        lemma_pack_error(v, 125);
        assert(0x8_0000 * units(pack(v, 1)) <= (m * m + 0x80_0000) * g) by (nonlinear_arith)
            requires
                2 * units(pack(v, 1)) <= 2 * v + pow2(125),
                v == m * m * c,
                pow2(125) == c * 0x100_0000,
                g == c * 0x8_0000,
        ;
    }
}

/// The smoothstep of a number between 0 and 1 lies between 0 and 1.
proof fn lemma_ease(f: F32)
    requires
        f.finite(),
        0 <= f.val() <= pow2(149),
    ensures
        ease(f).finite(),
        0 <= ease(f).val() <= pow2(149),
{
    if 2 * f.val() <= pow2(149) {
        lemma_ease_low(f);
    } else {
        lemma_ease_high(f);
    }
}

/// A sum that exceeds size 1 by half a step at most is rounded to size 1 or
/// less.
proof fn lemma_add_to_one(a: F32, b: F32)
    requires
        a.finite(),
        b.finite(),
        -(pow2(149) + pow2(125)) <= a.val() + b.val() <= pow2(149) + pow2(125),
    ensures
        unit_size(f_add(a, b)),
{
    lemma_one();
    lemma_grain();
    let u = pow2(149) as int;
    let s = a.val() + b.val();
    if -u <= s <= u {
        lemma_add_between(a, b, f_neg(fl(ONE)), fl(ONE));
    } else {
        reveal(f_add);
        let n = if s > 0 {
            s as nat
        } else {
            (-s) as nat
        };
        let b1 = ONE as nat;
        assert(step_of(b1) == 126 && significand(b1) == 0x80_0000);
        assert(2 * n <= (2 * significand(b1) + 1) * pow2(step_of(b1)) * 1) by (nonlinear_arith)
            requires
                n <= u + pow2(125),
                significand(b1) == 0x80_0000,
                pow2(step_of(b1)) == 0x40 * grain(),
                pow2(125) == 0x20 * grain(),
                u == 0x2000_0000 * grain(),
        ;
        lemma_pack_le_half(n, 1, b1);
        let r = pack(n, 1);
        if r < b1 {
            lemma_units_mono(r, b1);
        }
    }
}

/// A blend of two numbers of size at most 1 has size at most 1.
proof fn lemma_blend(a: F32, b: F32, s: F32)
    requires
        unit_size(a),
        unit_size(b),
        s.finite(),
        0 <= s.val() <= pow2(149),
    ensures
        unit_size(f_add(a, f_mul(f_sub(b, a), s))),
{
    lemma_one();
    lemma_grain();
    lemma2_to64();
    lemma_units_zero();
    let u = pow2(149) as int;
    lemma_const(TWO, 0x80_0000, 7, 0x4000_0000);
    let gap = b.val() - a.val();
    assert(f_neg(a).finite() && f_neg(a).val() == -a.val());
    lemma_add_between(b, f_neg(a), f_neg(fl(TWO)), fl(TWO));
    let d = f_sub(b, a);
    assert(2 * d.val() <= 2 * gap + pow2(126) && 2 * gap <= 2 * d.val() + pow2(126)) by {
        lemma_difference_error(b, f_neg(a));
    }
    let (dv, sv) = (d.val(), s.val());
    assert(dv >= 0 ==> 0 <= dv * sv <= dv * u) by (nonlinear_arith)
        requires
            0 <= sv <= u,
    ;
    assert(dv <= 0 ==> dv * u <= dv * sv <= 0) by (nonlinear_arith)
        requires
            0 <= sv <= u,
    ;
    assert(fl(0).val() * u == 0) by (nonlinear_arith)
        requires
            fl(0).val() == 0,
    ;
    if dv >= 0 {
        lemma_mul_between(d, s, fl(0), d);
    } else {
        lemma_mul_between(d, s, d, fl(0));
    }
    lemma_add_to_one(a, f_mul(d, s));
}

/// How far a rounded sum of size at most 2 is off.
proof fn lemma_difference_error(a: F32, b: F32)
    requires
        a.finite(),
        b.finite(),
        -(2 * pow2(149)) <= a.val() + b.val() <= 2 * pow2(149),
    ensures
        2 * f_add(a, b).val() <= 2 * (a.val() + b.val()) + pow2(126),
        2 * (a.val() + b.val()) <= 2 * f_add(a, b).val() + pow2(126),
{
    lemma_grain();
    lemma2_to64();
    lemma_units_zero();
    lemma_const(TWO, 0x80_0000, 7, 0x4000_0000);
    let s = a.val() + b.val();
    lemma_add_between(a, b, f_neg(fl(TWO)), fl(TWO));
    if s == 2 * pow2(149) {
        lemma_add_between(a, b, fl(TWO), fl(TWO));
    } else if s == -(2 * pow2(149)) {
        lemma_add_between(a, b, f_neg(fl(TWO)), f_neg(fl(TWO)));
    } else {
        reveal(f_add);
        let n = if s > 0 {
            s as nat
        } else {
            (-s) as nat
        };
        assert(n < 0x100_0000 * pow2(126));
        if s != 0 {
            lemma_pack_error(n, 126);
        }
    }
}

/// Value noise lies between -1 and 1, whatever the seed and however far out.
pub proof fn noise_is_bounded(l: LevelView, salt: u32, x: F32, wavelength: F32)
    requires
        x.finite(),
        wavelength.finite(),
        f_le(fl(ONE), wavelength),
    ensures
        f_le(f_neg(fl(ONE)), l.noise(salt, x, wavelength)),
        f_le(l.noise(salt, x, wavelength), fl(ONE)),
{
    lemma_noise(l, salt, x, wavelength);
    lemma_one();
    order_is_by_value(f_neg(fl(ONE)), l.noise(salt, x, wavelength));
    order_is_by_value(l.noise(salt, x, wavelength), fl(ONE));
}

pub(crate) proof fn lemma_noise(l: LevelView, salt: u32, x: F32, wavelength: F32)
    requires
        x.finite(),
        wavelength.finite(),
        f_le(fl(ONE), wavelength),
    ensures
        unit_size(l.noise(salt, x, wavelength)),
{
    let t = f_div(x, wavelength);
    assert(t.finite()) by {
        reveal(f_div);
        lemma_one();
        order_is_by_value(fl(ONE), wavelength);
        let u = pow2(149);
        lemma_pow2_pos(149);
        let w = units(wavelength.mag());
        lemma_units_zero();
        assert(w >= u);
        let n = units(x.mag()) * u;
        assert(n <= units(x.mag()) * w) by (nonlinear_arith)
            requires
                n == units(x.mag()) * u,
                w >= u,
        ;
        lemma_pack_le(n, w, x.mag());
    }
    let i = f_floor(t);
    let c = f_to_i64(i);
    lemma_above_floor(t);
    lemma_ease(f_sub(t, i));
    lemma_lattice(l, salt, c);
    lemma_lattice(l, salt, c.wrapping_add(1));
    lemma_blend(l.lattice(salt, c), l.lattice(salt, c.wrapping_add(1)), ease(f_sub(t, i)));
}

/// A curve that stays between -1 and 1, as sine and cosine do.
pub open spec fn bounded_wave(w: spec_fn(Wave, F32) -> F32) -> bool {
    forall|c: Wave, a: F32| a.finite() ==> unit_size(#[trigger] w(c, a))
}

pub(crate) proof fn lemma_angle(l: LevelView, x: F32, n: u32, salt: u32)
    requires
        x.finite(),
        n == ONE || n == TWO || n == THREE || n == FIVE || n == SEVEN || n
            == ELEVEN,
    ensures
        l.angle(x, n, salt).finite(),
{
    lemma_grain();
    lemma_one();
    lemma2_to64();
    lemma_units_zero();
    let u = pow2(149) as int;
    let max: u32 = 0x7f7f_ffff;
    let b1: u32 = 0x7c7f_ffff;
    let b2: u32 = 0x7e7f_ffff;
    lemma_units_at(253, 0xff_ffff);
    lemma_units_at(247, 0xff_ffff);
    lemma_units_at(251, 0xff_ffff);
    lemma_pow2_adds(247, 6);
    lemma_pow2_adds(247, 4);
    lemma_pow2_adds(149, 98);
    lemma_pow2_pos(98);
    let v1 = units(b1 as nat) as int;
    assert(units(max as nat) == 64 * v1);
    assert(units(b2 as nat) == 16 * v1);
    // The base frequency is below 1/64.
    let base = fl(BASE);
    lemma_units_mono(BASE as nat, 0x3c80_0000);
    lemma_units_at(120, 0x80_0000);
    assert(units(0x3c80_0000) == 0x80_0000 * grain());
    let xv = x.val();
    assert(-64 * v1 <= xv <= 64 * v1) by {
        if x.mag() < max {
            lemma_units_mono(x.mag(), max as nat);
        }
    }
    let bv = base.val();
    assert(0 <= bv && 64 * bv <= u);
    assert(-v1 * u <= xv * bv <= v1 * u) by (nonlinear_arith)
        requires
            -64 * v1 <= xv <= 64 * v1,
            0 <= bv,
            64 * bv <= u,
            v1 >= 0,
    ;
    assert(f_neg(fl(b1)).finite() && f_neg(fl(b1)).val() == -v1);
    lemma_mul_between(x, base, f_neg(fl(b1)), fl(b1));
    let y = f_mul(x, base);
    let z = if n == ONE {
        y
    } else {
        lemma_const(TWO, 0x80_0000, 7, 0x4000_0000);
        lemma_const(THREE, 0xc0_0000, 7, 0x6000_0000);
        lemma_const(FIVE, 0xa0_0000, 8, 0xa000_0000);
        lemma_const(SEVEN, 0xe0_0000, 8, 0xe000_0000);
        lemma_const(ELEVEN, 0xb0_0000, 9, 0x1_6000_0000);
        let nv = fl(n).val();
        let yv = y.val();
        assert(0 <= nv <= 16 * u);
        assert(-(16 * v1) * u <= yv * nv <= (16 * v1) * u) by (nonlinear_arith)
            requires
                -v1 <= yv <= v1,
                0 <= nv <= 16 * u,
                v1 >= 0,
        ;
        assert(f_neg(fl(b2)).finite() && f_neg(fl(b2)).val() == -(16 * v1));
        lemma_mul_between(y, fl(n), f_neg(fl(b2)), fl(b2));
        f_mul(y, fl(n))
    };
    assert(-(16 * v1) <= z.val() <= 16 * v1);
    let tau = fl(TAU);
    assert(tau.finite() && 0 <= tau.val() <= 8 * u) by {
        lemma_units_mono(TAU as nat, 0x4100_0000);
        lemma_const(0x4100_0000, 0x80_0000, 9, 0x1_0000_0000);
    }
    let h = l.phase(salt);
    assert(h.finite() && 0 <= h.val() <= 8 * u) by {
        if l.seed != 0 {
            let q = hash(l.seed ^ salt);
            lemma_fraction16(q);
            lemma_scale(fraction16(q), tau);
        }
    }
    assert(8 * u <= v1) by (nonlinear_arith)
        requires
            v1 == 0xff_ffff * pow2(247),
            pow2(247) == u * pow2(98),
            pow2(98) > 0,
            u > 0,
    ;
    assert(f_neg(fl(max)).finite() && f_neg(fl(max)).val() == -(64 * v1));
    lemma_add_between(z, h, f_neg(fl(max)), fl(max));
}

/// `2.5` and `12.5`.
pub const WIDTH_MIN: u32 = 0x4020_0000;

pub const WIDTH_MAX: u32 = 0x4148_0000;

/// `22`.
pub const CENTER_MAX: u32 = 0x41b0_0000;

/// The sum that makes up a width.
proof fn lemma_width_sum(slow: F32, medium: F32, pinch: F32)
    requires
        unit_size(slow),
        unit_size(medium),
        unit_size(pinch),
    ensures
        ({
            let r = f_add(
                f_add(
                    f_add(fl(WIDTH_MEAN), f_mul(slow, fl(WIDTH_SLOW))),
                    f_mul(medium, fl(WIDTH_MEDIUM)),
                ),
                f_mul(f_abs(pinch), fl(WIDTH_PINCH)),
            );
            f_le(fl(WIDTH_MIN), r) && f_le(r, fl(WIDTH_MAX))
        }),
{
    lemma_grain();
    lemma2_to64();
    lemma_units_zero();
    let g = grain();
    let mean = fl(WIDTH_MEAN);
    lemma_const(WIDTH_MEAN, 0xd0_0000, 8, 0xd000_0000);
    lemma_const(WIDTH_SLOW, 0xa0_0000, 7, 0x5000_0000);
    lemma_const(WIDTH_MEDIUM, 0xc0_0000, 6, 0x3000_0000);
    lemma_const(WIDTH_PINCH, 0x80_0000, 7, 0x4000_0000);
    lemma_const(0x4080_0000, 0x80_0000, 8, 0x8000_0000);
    lemma_const(0x4110_0000, 0x90_0000, 9, 0x1_2000_0000);
    lemma_const(WIDTH_MIN, 0xa0_0000, 7, 0x5000_0000);
    lemma_const(0x4128_0000, 0xa8_0000, 9, 0x1_5000_0000);
    lemma_const(WIDTH_MAX, 0xc8_0000, 9, 0x1_9000_0000);
    lemma_scale(slow, fl(WIDTH_SLOW));
    lemma_scale(medium, fl(WIDTH_MEDIUM));
    assert(unit_size(f_abs(pinch)) && f_abs(pinch).val() >= 0);
    lemma_scale(f_abs(pinch), fl(WIDTH_PINCH));
    let a = f_mul(slow, fl(WIDTH_SLOW));
    lemma_add_between(mean, a, fl(0x4080_0000), fl(0x4110_0000));
    let s1 = f_add(mean, a);
    let b = f_mul(medium, fl(WIDTH_MEDIUM));
    lemma_add_between(s1, b, fl(WIDTH_MIN), fl(0x4128_0000));
    let s2 = f_add(s1, b);
    let c = f_mul(f_abs(pinch), fl(WIDTH_PINCH));
    lemma_add_between(s2, c, fl(WIDTH_MIN), fl(WIDTH_MAX));
    let r = f_add(s2, c);
    order_is_by_value(fl(WIDTH_MIN), r);
    order_is_by_value(r, fl(WIDTH_MAX));
}

proof fn lemma_center_sum(slow: F32, medium: F32, tight: F32)
    requires
        unit_size(slow),
        unit_size(medium),
        unit_size(tight),
    ensures
        ({
            let r = f_add(
                f_add(
                    f_mul(slow, fl(CENTER_SLOW)),
                    f_mul(medium, fl(CENTER_MEDIUM)),
                ),
                f_mul(tight, fl(CENTER_TIGHT)),
            );
            f_le(f_neg(fl(CENTER_MAX)), r) && f_le(r, fl(CENTER_MAX))
        }),
{
    lemma_grain();
    lemma2_to64();
    lemma_const(CENTER_SLOW, 0xe0_0000, 9, 0x1_c000_0000);
    lemma_const(CENTER_MEDIUM, 0xa0_0000, 8, 0xa000_0000);
    lemma_const(CENTER_TIGHT, 0xc0_0000, 7, 0x6000_0000);
    lemma_const(0x4198_0000, 0x98_0000, 10, 0x2_6000_0000);
    lemma_const(CENTER_MAX, 0xb0_0000, 10, 0x2_c000_0000);
    lemma_scale(slow, fl(CENTER_SLOW));
    lemma_scale(medium, fl(CENTER_MEDIUM));
    lemma_scale(tight, fl(CENTER_TIGHT));
    let a = f_mul(slow, fl(CENTER_SLOW));
    let b = f_mul(medium, fl(CENTER_MEDIUM));
    lemma_add_between(a, b, f_neg(fl(0x4198_0000)), fl(0x4198_0000));
    let s = f_add(a, b);
    let c = f_mul(tight, fl(CENTER_TIGHT));
    lemma_add_between(s, c, f_neg(fl(CENTER_MAX)), fl(CENTER_MAX));
    let r = f_add(s, c);
    order_is_by_value(f_neg(fl(CENTER_MAX)), r);
    order_is_by_value(r, fl(CENTER_MAX));
}

/// No seed and no stretch of the cave can pinch it shut, nor blow it up: half
/// its height is between 2.5 and 12.5 everywhere.
pub proof fn the_cave_stays_open(l: LevelView, w: spec_fn(Wave, F32) -> F32, x: F32)
    requires
        x.finite(),
        !l.endless ==> bounded_wave(w),
    ensures
        f_le(fl(WIDTH_MIN), l.half_width(w, x)),
        f_le(l.half_width(w, x), fl(WIDTH_MAX)),
{
    if l.endless {
        lemma_noise(l, 4, x, fl(WAVELENGTH_4));
        lemma_noise(l, 5, x, fl(WAVELENGTH_5));
        lemma_noise(l, 6, x, fl(WAVELENGTH_6));
        lemma_width_sum(
            l.noise(4, x, fl(WAVELENGTH_4)),
            l.noise(5, x, fl(WAVELENGTH_5)),
            l.noise(6, x, fl(WAVELENGTH_6)),
        );
    } else {
        lemma_angle(l, x, TWO, 4);
        lemma_angle(l, x, FIVE, 5);
        lemma_angle(l, x, ELEVEN, 6);
        lemma_width_sum(
            w(Wave::Sin, l.angle(x, TWO, 4)),
            w(Wave::Cos, l.angle(x, FIVE, 5)),
            w(Wave::Sin, l.angle(x, ELEVEN, 6)),
        );
    }
}

/// The centre line never strays more than 22 m from the middle of its layer.
pub proof fn the_cave_stays_level(l: LevelView, w: spec_fn(Wave, F32) -> F32, x: F32)
    requires
        x.finite(),
        !l.endless ==> bounded_wave(w),
    ensures
        f_le(f_neg(fl(CENTER_MAX)), l.center(w, x)),
        f_le(l.center(w, x), fl(CENTER_MAX)),
{
    if l.endless {
        lemma_noise(l, 1, x, fl(WAVELENGTH_1));
        lemma_noise(l, 2, x, fl(WAVELENGTH_2));
        lemma_noise(l, 3, x, fl(WAVELENGTH_3));
        lemma_center_sum(
            l.noise(1, x, fl(WAVELENGTH_1)),
            l.noise(2, x, fl(WAVELENGTH_2)),
            l.noise(3, x, fl(WAVELENGTH_3)),
        );
    } else {
        lemma_angle(l, x, ONE, 1);
        lemma_angle(l, x, THREE, 2);
        lemma_angle(l, x, SEVEN, 3);
        lemma_center_sum(
            w(Wave::Sin, l.angle(x, ONE, 1)),
            w(Wave::Cos, l.angle(x, THREE, 2)),
            w(Wave::Sin, l.angle(x, SEVEN, 3)),
        );
    }
}

/// A draw lies in `[0, 1)`.
pub proof fn draws_lie_below_one(d: u32)
    ensures
        f_le(fl(0), unit_of(d)),
        f_lt(unit_of(d), fl(ONE)),
{
    lemma_unit_draw(d);
    lemma_one();
    lemma_units_zero();
    order_is_by_value(fl(0), unit_of(d));
    order_is_by_value(unit_of(d), fl(ONE));
}

proof fn lemma_unit_draw(d: u32)
    ensures
        unit_of(d).finite(),
        0 <= unit_of(d).val() < pow2(149),
{
    assert(d >> 8 < 0x100_0000) by (bit_vector);
    let n = (d >> 8) as nat;
    let u = pow2(149);
    lemma_pow2_pos(149);
    lemma_grain();
    lemma_one();
    lemma2_to64();
    lemma_units_zero();
    lemma_small_int(n);
    let b = fl(TWO_POW_24);
    assert(b.val() == 0x100_0000 * u) by {
        lemma_units_at(150, 0x80_0000);
        lemma_pow2_adds(149, 1);
    }
    let top = 0x3f7f_ffff;
    assert(units(top) == 0xff_ffff * pow2(125)) by {
        lemma_units_at(125, 0xff_ffff);
    }
    reveal(f_div);
    let a = f_of_int((d >> 8) as int);
    let num = units(a.mag()) * u;
    assert(num <= units(top) * units(b.mag())) by (nonlinear_arith)
        requires
            num == (n * u) * u,
            units(top) == 0xff_ffff * pow2(125),
            units(b.mag()) == 0x100_0000 * u,
            pow2(125) == 0x20 * grain(),
            u == 0x2000_0000 * grain(),
            n <= 0xff_ffff,
            grain() > 0,
    ;
    lemma_pack_le(num, units(b.mag()), top);
    let r = pack(num, units(b.mag()));
    lemma_units_mono(r, ONE as nat);
}

/// A draw between two numbers whose difference is exact stays between them.
pub proof fn ranges_are_kept(d: u32, a: F32, b: F32)
    requires
        a.finite(),
        b.finite(),
        f_le(a, b),
        f_sub(b, a).finite(),
        f_sub(b, a).val() == b.val() - a.val(),
    ensures
        f_le(a, range_of(d, a, b)),
        f_le(range_of(d, a, b), b),
{
    lemma_unit_draw(d);
    lemma_units_zero();
    order_is_by_value(a, b);
    let u = pow2(149) as int;
    let gap = f_sub(b, a);
    let (x, y) = (gap.val(), unit_of(d).val());
    assert(0 <= x * y <= x * u) by (nonlinear_arith)
        requires
            x >= 0,
            0 <= y <= u,
    ;
    assert(fl(0).val() * u == 0) by (nonlinear_arith)
        requires
            fl(0).val() == 0,
    ;
    lemma_mul_between(gap, unit_of(d), fl(0), gap);
    lemma_add_between(a, f_mul(gap, unit_of(d)), a, b);
    order_is_by_value(a, range_of(d, a, b));
    order_is_by_value(range_of(d, a, b), b);
}

// ---- Shaft walls ----

/// `1.25`.
pub const WIGGLE_MAX: u32 = 0x3fa0_0000;

/// How far a shaft wall is from its edge at height `t`.
pub open spec fn wiggle(l: LevelView, w: spec_fn(Wave, F32) -> F32, s: int, side: u8, t: F32) -> F32 {
    let h = l.wall_hash(s, side);
    let p1 = f_mul(fraction16(h), fl(TAU));
    let p2 = f_mul(fraction16(h >> 16), fl(TAU));
    f_mul(
        wall_envelope(t),
        f_add(
            f_mul(w(Wave::Sin, f_add(f_mul(f_mul(t, fl(TAU)), fl(TWO)), p1)), fl(WIGGLE_WIDE)),
            f_mul(w(Wave::Sin, f_add(f_mul(f_mul(t, fl(TAU)), fl(FIVE)), p2)), fl(WIGGLE_FINE)),
        ),
    )
}

proof fn lemma_envelope(t: F32)
    requires
        t.finite(),
        0 <= t.val() <= pow2(149),
    ensures
        unit_size(wall_envelope(t)),
        wall_envelope(t).val() >= 0,
        t.val() == 0 || t.val() == pow2(149) ==> wall_envelope(t).val() == 0,
{
    lemma_one();
    lemma_units_zero();
    lemma_grain();
    let u = pow2(149) as int;
    assert(f_neg(t).finite() && f_neg(t).val() == -t.val());
    lemma_add_between(fl(ONE), f_neg(t), fl(0), fl(ONE));
    let back = f_sub(fl(ONE), t);
    order_is_by_value(back, t);
    let low = f_min(t, back);
    let q = f_div(low, fl(ENVELOPE));
    assert(low.finite() && low.val() >= 0);
    if t.val() == u {
        lemma_add_between(fl(ONE), f_neg(t), fl(0), fl(0));
        assert(low.val() == 0);
    }
    assert(!q.nan() && (low.val() == 0 ==> q.mag() == 0)) by {
        reveal(f_div);
        let d = units(fl(ENVELOPE).mag());
        lemma_units_mono(0, fl(ENVELOPE).mag());
        if low.val() == 0 {
            if low.mag() > 0 {
                lemma_units_mono(0, low.mag());
            }
            assert(units(low.mag()) * pow2(149) == 0) by (nonlinear_arith)
                requires
                    units(low.mag()) == 0,
            ;
            assert(units(0) * d == 0) by (nonlinear_arith)
                requires
                    units(0) == 0,
            ;
            lemma_pack_le(0, d, 0);
        }
    }
    let r = wall_envelope(t);
    assert(f_le(fl(0), r) && f_le(r, fl(ONE)));
    order_is_by_value(fl(0), r);
    order_is_by_value(r, fl(ONE));
}

proof fn lemma_wall_angle(t: F32, n: u32, h: u32)
    requires
        t.finite(),
        0 <= t.val() <= pow2(149),
        n == TWO || n == FIVE,
    ensures
        f_add(f_mul(f_mul(t, fl(TAU)), fl(n)), f_mul(fraction16(h), fl(TAU))).finite(),
{
    lemma_grain();
    lemma2_to64();
    lemma_units_zero();
    let u = pow2(149) as int;
    let tau = fl(TAU);
    let eight: u32 = 0x4100_0000;
    let forty: u32 = 0x4220_0000;
    let sixty4: u32 = 0x4280_0000;
    lemma_units_mono(TAU as nat, eight as nat);
    lemma_const(eight, 0x80_0000, 9, 0x1_0000_0000);
    lemma_const(forty, 0xa0_0000, 11, 0x5_0000_0000);
    lemma_const(sixty4, 0x80_0000, 12, 0x8_0000_0000);
    lemma_const(TWO, 0x80_0000, 7, 0x4000_0000);
    lemma_const(FIVE, 0xa0_0000, 8, 0xa000_0000);
    assert(tau.finite() && 0 <= tau.val() <= 8 * u);
    lemma_scale(t, tau);
    let a = f_mul(t, tau);
    let (x, y) = (a.val(), fl(n).val());
    assert(0 <= x * y <= (40 * u) * u) by (nonlinear_arith)
        requires
            0 <= x <= 8 * u,
            0 <= y <= 5 * u,
    ;
    assert(fl(0).val() * u == 0) by (nonlinear_arith)
        requires
            fl(0).val() == 0,
    ;
    lemma_mul_between(a, fl(n), fl(0), fl(forty));
    lemma_fraction16(h);
    lemma_scale(fraction16(h), tau);
    lemma_add_between(
        f_mul(a, fl(n)),
        f_mul(fraction16(h), tau),
        fl(0),
        fl(sixty4),
    );
}

proof fn lemma_wiggle(l: LevelView, w: spec_fn(Wave, F32) -> F32, s: int, side: u8, t: F32)
    requires
        bounded_wave(w),
        t.finite(),
        0 <= t.val() <= pow2(149),
    ensures
        wiggle(l, w, s, side, t).finite(),
        -fl(WIGGLE_MAX).val() <= wiggle(l, w, s, side, t).val() <= fl(WIGGLE_MAX).val(),
        wall_envelope(t).val() == 0 ==> wiggle(l, w, s, side, t).val() == 0,
{
    lemma_grain();
    lemma2_to64();
    lemma_units_zero();
    let u = pow2(149) as int;
    let h = l.wall_hash(s, side);
    lemma_wall_angle(t, TWO, h);
    lemma_wall_angle(t, FIVE, h >> 16);
    let wide = w(Wave::Sin, f_add(f_mul(f_mul(t, fl(TAU)), fl(TWO)), f_mul(fraction16(h), fl(TAU))));
    let fine = w(
        Wave::Sin,
        f_add(f_mul(f_mul(t, fl(TAU)), fl(FIVE)), f_mul(fraction16(h >> 16), fl(TAU))),
    );
    assert(unit_size(wide) && unit_size(fine));
    lemma_const(WIGGLE_WIDE, 0xe6_6666, 5, 0x1ccc_ccc0);
    lemma_const(WIGGLE_FINE, 0xb3_3333, 4, 0xb33_3330);
    lemma_const(WIGGLE_MAX, 0xa0_0000, 6, 0x2800_0000);
    lemma_scale(wide, fl(WIGGLE_WIDE));
    lemma_scale(fine, fl(WIGGLE_FINE));
    let (a, b) = (f_mul(wide, fl(WIGGLE_WIDE)), f_mul(fine, fl(WIGGLE_FINE)));
    lemma_add_between(a, b, f_neg(fl(WIGGLE_MAX)), fl(WIGGLE_MAX));
    let y = f_add(a, b);
    let env = wall_envelope(t);
    lemma_envelope(t);
    let (e, v, m) = (env.val(), y.val(), fl(WIGGLE_MAX).val());
    assert(-m * u <= e * v <= m * u) by (nonlinear_arith)
        requires
            0 <= e <= u,
            -m <= v <= m,
    ;
    assert(f_neg(fl(WIGGLE_MAX)).val() * u == -m * u);
    lemma_mul_between(env, y, f_neg(fl(WIGGLE_MAX)), fl(WIGGLE_MAX));
    if e == 0 {
        assert(e * v == 0 && fl(0).val() * u == 0) by (nonlinear_arith)
            requires
                e == 0,
                fl(0).val() == 0,
        ;
        lemma_mul_between(env, y, fl(0), fl(0));
    }
}

/// A shaft wall is its edge and a wiggle of 1.25 m at most.
pub proof fn walls_wiggle_little(l: LevelView, w: spec_fn(Wave, F32) -> F32, s: int, side: u8, t: F32)
    requires
        bounded_wave(w),
        f_le(fl(0), t),
        f_le(t, fl(ONE)),
    ensures
        l.wall_x(w, s, side, t) == f_add(l.shaft_edge(s, side), wiggle(l, w, s, side, t)),
        f_le(f_neg(fl(WIGGLE_MAX)), wiggle(l, w, s, side, t)),
        f_le(wiggle(l, w, s, side, t), fl(WIGGLE_MAX)),
{
    lemma_one();
    lemma_units_zero();
    lemma_grain();
    lemma2_to64();
    order_is_by_value(fl(0), t);
    order_is_by_value(t, fl(ONE));
    lemma_wiggle(l, w, s, side, t);
    lemma_const(WIGGLE_MAX, 0xa0_0000, 6, 0x2800_0000);
    order_is_by_value(f_neg(fl(WIGGLE_MAX)), wiggle(l, w, s, side, t));
    order_is_by_value(wiggle(l, w, s, side, t), fl(WIGGLE_MAX));
}

/// At either end a shaft wall meets the edge of its opening exactly.
pub proof fn walls_meet_their_edges(l: LevelView, w: spec_fn(Wave, F32) -> F32, s: int, side: u8, t: F32)
    requires
        bounded_wave(w),
        t == fl(0) || t == fl(ONE),
        l.shaft_edge(s, side).finite(),
    ensures
        f_eq(l.wall_x(w, s, side, t), l.shaft_edge(s, side)),
{
    lemma_one();
    lemma_units_zero();
    lemma_wiggle(l, w, s, side, t);
    lemma_envelope(t);
    let edge = l.shaft_edge(s, side);
    let z = wiggle(l, w, s, side, t);
    lemma_add_between(edge, z, edge, edge);
    order_is_by_value(f_add(edge, z), edge);
    order_is_by_value(edge, f_add(edge, z));
}

/// The number `c / 4`, exactly.
pub(crate) proof fn lemma_quarters(c: int) -> (r: F32)
    requires
        -0x100_0000 < c < 0x100_0000,
    ensures
        r.finite(),
        r.val() == c * pow2(147),
{
    let n = if c >= 0 {
        c as nat
    } else {
        (-c) as nat
    };
    lemma_pack_steps(n, 147);
    lemma_units_zero();
    let mag = pack(n * pow2(147), 1);
    let r = signed(c < 0, mag);
    if c < 0 {
        assert(c * pow2(147) == -(n * pow2(147))) by (nonlinear_arith)
            requires
                c == -(n as int),
        ;
    }
    r
}

pub(crate) proof fn lemma_edge(l: LevelView, s: int, side: u8)
    requires
        -1_000_000 <= l.shaft_open(s) <= 1_000_000,
    ensures
        l.shaft_edge(s, side).finite(),
        l.shaft_edge(s, side).val() == 12 * (l.shaft_open(s) + if side == 0 {
            0int
        } else {
            3
        }) * pow2(147),
{
    let seg = l.shaft_open(s) + if side == 0 {
        0int
    } else {
        3
    };
    let p = pow2(147) as int;
    lemma_pow2_adds(147, 2);
    lemma2_to64();
    lemma_grain();
    let r = lemma_quarters(12 * seg);
    let n = if seg >= 0 {
        seg as nat
    } else {
        (-seg) as nat
    };
    let a = f_of_int(seg);
    assert(a.finite() && a.val() == seg * pow2(149)) by {
        reveal(f_of_int);
        lemma_units_zero();
        lemma_pack_steps(n, 149);
        assert(n as int * one_units() == n * pow2(149));
        if seg < 0 {
            assert(seg * pow2(149) == -(n * pow2(149))) by (nonlinear_arith)
                requires
                    seg == -(n as int),
            ;
            assert(-seg * one_units() == n * pow2(149));
        } else if seg == 0 {
            assert(seg * pow2(149) == 0) by (nonlinear_arith)
                requires
                    seg == 0,
            ;
        }
    }
    lemma_const(SEG_LEN, 0xc0_0000, 7, 0x6000_0000);
    let c = fl(SEG_LEN);
    assert(r.val() * pow2(149) == a.val() * c.val()) by (nonlinear_arith)
        requires
            r.val() == (12 * seg) * p,
            a.val() == seg * pow2(149),
            c.val() == 0x6000_0000 * grain(),
            pow2(149) == 0x2000_0000 * grain(),
            pow2(149) == p * 4,
    ;
    lemma_mul_between(a, c, r, r);
}

/// Every shaft stays at least 6.5 m wide, out to a million segments from the
/// start.
pub proof fn shafts_stay_wide(l: LevelView, w: spec_fn(Wave, F32) -> F32, s: int, t: F32, t2: F32)
    requires
        bounded_wave(w),
        f_le(fl(0), t),
        f_le(t, fl(ONE)),
        f_le(fl(0), t2),
        f_le(t2, fl(ONE)),
        -1_000_000 <= l.shaft_open(s) <= 1_000_000,
    ensures
        l.wall_x(w, s, 0, t).finite(),
        l.wall_x(w, s, 1, t2).finite(),
        2 * (l.wall_x(w, s, 1, t2).val() - l.wall_x(w, s, 0, t).val()) >= 13 * pow2(149),
{
    lemma_one();
    lemma_units_zero();
    lemma_grain();
    lemma2_to64();
    order_is_by_value(fl(0), t);
    order_is_by_value(t, fl(ONE));
    order_is_by_value(fl(0), t2);
    order_is_by_value(t2, fl(ONE));
    lemma_wiggle(l, w, s, 0, t);
    lemma_wiggle(l, w, s, 1, t2);
    lemma_const(WIGGLE_MAX, 0xa0_0000, 6, 0x2800_0000);
    lemma_edge(l, s, 0);
    lemma_edge(l, s, 1);
    let p = pow2(147) as int;
    lemma_pow2_adds(147, 2);
    let o = l.shaft_open(s);
    let (e0, e1) = (l.shaft_edge(s, 0), l.shaft_edge(s, 1));
    let lo0 = lemma_quarters(12 * o - 5);
    let hi0 = lemma_quarters(12 * o + 5);
    let lo1 = lemma_quarters(12 * (o + 3) - 5);
    let hi1 = lemma_quarters(12 * (o + 3) + 5);
    assert(e0.val() - 5 * p == lo0.val() && e0.val() + 5 * p == hi0.val()) by (nonlinear_arith)
        requires
            e0.val() == 12 * (o + 0) * p,
            lo0.val() == (12 * o - 5) * p,
            hi0.val() == (12 * o + 5) * p,
    ;
    assert(e1.val() - 5 * p == lo1.val() && e1.val() + 5 * p == hi1.val()) by (nonlinear_arith)
        requires
            e1.val() == 12 * (o + 3) * p,
            lo1.val() == (12 * (o + 3) - 5) * p,
            hi1.val() == (12 * (o + 3) + 5) * p,
    ;
    assert(5 * p == fl(WIGGLE_MAX).val());
    lemma_add_between(e0, wiggle(l, w, s, 0, t), lo0, hi0);
    lemma_add_between(e1, wiggle(l, w, s, 1, t2), lo1, hi1);
    assert(lo1.val() - hi0.val() == 26 * p) by (nonlinear_arith)
        requires
            lo1.val() == (12 * (o + 3) - 5) * p,
            hi0.val() == (12 * o + 5) * p,
    ;
}

} // verus!
