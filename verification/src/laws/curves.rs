//! Laws of curves: how the cave is made up of waves and of noise.

use crate::binary32::arith::{f_abs, f_add, f_div, f_mul, f_neg, f_sub};
use crate::binary32::convert::{f_floor, f_to_i64};
use crate::binary32::facts::{lemma_add_between, lemma_units_zero, order_is_by_value};
use crate::binary32::order::f_min;
use crate::binary32::{fl, units, F32};
use crate::cave::{
    fraction16, Wave, CENTER_MEDIUM, CENTER_SLOW, CENTER_TIGHT, ELEVEN, FIVE, ONE, SEVEN, TAU,
    THREE, TWO, WAVELENGTH_1, WAVELENGTH_2, WAVELENGTH_3, WAVELENGTH_4, WAVELENGTH_5, WAVELENGTH_6,
    WIDTH_MEAN, WIDTH_MEDIUM, WIDTH_PINCH, WIDTH_SLOW,
};
use crate::laws::caves::{
    bounded_wave, lemma_angle, lemma_const, lemma_fraction16, lemma_grain, lemma_lattice,
    lemma_noise, lemma_one, lemma_scale, unit_size,
};
use crate::laws::errors::{lemma_huge, lemma_product, lemma_quotient, lemma_sum, one, size};
use crate::laws::landings::{lemma_arm, nearby};
use crate::laws::roundings::floors_are_at_most_one_below;
use crate::laws::surroundings::lemma_near_quotient;
use crate::level::LevelView;
use crate::shaft::{wall_envelope, ENVELOPE, WIGGLE_FINE, WIGGLE_WIDE};
use vstd::arithmetic::power2::lemma2_to64;
use vstd::prelude::*;

verus! {

// ---- Noise ----

/// `s` is how far an even way has come, at the share `f` of it, if it starts and
/// ends gently: `3 f^2 - 2 f^3`.
pub open spec fn gentle(s: int, f: int) -> bool {
    size(s * (one() * one()) - (f * f) * (3 * one() - 2 * f)) * 0x2_0000 <= one() * one() * one()
}

/// `f` is the part of a wavelength that `x` is past the lattice point `k`.
pub open spec fn past(f: int, x: int, wavelength: int, k: int) -> bool {
    0 <= f <= one() && 20 * size((f + k * one()) * wavelength - x * one()) <= one() * one()
}

/// `n` is the share `s` of the way from `a` to `b`.
pub open spec fn between(n: int, a: int, b: int, s: int) -> bool {
    size((n - a) * one() - (b - a) * s) * 0x2_0000 <= one() * one()
}

/// Noise goes gently from the value at one lattice point to the value at the
/// next, a wavelength on.
pub proof fn noise_goes_gently(l: LevelView, salt: u32, x: F32, wavelength: F32)
    requires
        nearby(x),
        wavelength.finite(),
        3 * one() <= wavelength.val() <= 2000 * one(),
    ensures
        exists|k: i64, f: int, s: int| #[trigger]
            past(f, x.val(), wavelength.val(), k as int) && #[trigger] gentle(s, f) && between(
                l.noise(salt, x, wavelength).val(),
                l.lattice(salt, k).val(),
                l.lattice(salt, (k + 1) as i64).val(),
                s,
            ),
{
    lemma_huge();
    lemma_near_quotient(x, wavelength);
    let u = one();
    let t = f_div(x, wavelength);
    floors_are_at_most_one_below(t);
    let i = f_floor(t);
    let k = f_to_i64(i);
    lemma_span(k as int, t.val(), u);
    assert(f_neg(i).val() == -i.val());
    lemma_sum(t, f_neg(i));
    let f = f_sub(t, i);
    lemma_one();
    lemma_units_zero();
    lemma_add_between(t, f_neg(i), fl(0), fl(ONE));
    lemma_ease(f);
    let e = f_mul(f_mul(f, f), f_sub(fl(THREE), f_mul(fl(TWO), f)));
    lemma_past(f.val(), k as int, t.val(), wavelength.val(), x.val(), u);
    assert(past(f.val(), x.val(), wavelength.val(), k as int));
    assert(gentle(e.val(), f.val()));
    let (a, b) = (l.lattice(salt, k), l.lattice(salt, k.wrapping_add(1)));
    lemma_lattice(l, salt, k);
    lemma_lattice(l, salt, (k + 1) as i64);
    lemma_mix(a, b, e);
}

proof fn lemma_span(k: int, t: int, u: int)
    requires
        u > 0,
        size(t) <= 8_000_000 * u,
        k * u <= t < (k + 1) * u,
    ensures
        -8_000_001 <= k <= 8_000_001,
        0 <= t - k * u < u,
{
    assert((k + 1) * u == k * u + u) by (nonlinear_arith);
    assert(-8_000_001 <= k <= 8_000_001) by (nonlinear_arith)
        requires
            u > 0,
            -(8_000_000 * u) <= t <= 8_000_000 * u,
            k * u <= t < k * u + u,
    ;
}

proof fn lemma_past(f: int, k: int, t: int, w: int, x: int, u: int)
    requires
        u > 0x1000_0000_0000,
        0 <= f,
        0 <= t - k * u < u,
        size(f - (t - k * u)) * 0x100_0000 <= t - k * u,
        3 * u <= w <= 2000 * u,
        50 * size(t * w - x * u) <= u * u,
    ensures
        20 * size((f + k * u) * w - x * u) <= u * u,
{
    let d = f - (t - k * u);
    assert((f + k * u) * w == t * w + d * w) by (nonlinear_arith)
        requires
            d == f - (t - k * u),
    ;
    assert(-(2000 * (u * u)) <= 0x100_0000 * (d * w) <= 2000 * (u * u)) by (nonlinear_arith)
        requires
            -u <= 0x100_0000 * d <= u,
            0 <= w <= 2000 * u,
            u > 0,
    {
        let e = 0x100_0000 * d;
        assert(-(u * (2000 * u)) <= e * w <= u * (2000 * u)) by (nonlinear_arith)
            requires
                -u <= e <= u,
                0 <= w <= 2000 * u,
        ;
        assert(e * w == 0x100_0000 * (d * w)) by (nonlinear_arith)
            requires
                e == 0x100_0000 * d,
        ;
        assert(u * (2000 * u) == 2000 * (u * u)) by (nonlinear_arith);
    }
}

/// The gentle step, rounded.
proof fn lemma_ease(f: F32)
    requires
        f.finite(),
        0 <= f.val() <= one(),
    ensures
        ({
            let e = f_mul(f_mul(f, f), f_sub(fl(THREE), f_mul(fl(TWO), f)));
            e.finite() && size(e.val()) <= 9 * one() && gentle(e.val(), f.val())
        }),
{
    lemma_huge();
    lemma2_to64();
    lemma_grain();
    lemma_const(TWO, 0x80_0000, 7, 0x4000_0000);
    lemma_const(THREE, 0xc0_0000, 7, 0x6000_0000);
    let (u, v) = (one(), f.val());
    let w = u * u;
    assert(w >= 0x1000_0000_0000 * u && 0 <= v * v <= w && 0 <= (2 * u) * v <= 2 * w) by (nonlinear_arith)
        requires
            w == u * u,
            u >= 0x1000_0000_0000,
            0 <= v <= u,
    ;
    lemma_product(f, f);
    lemma_product(fl(TWO), f);
    let (p, q) = (f_mul(f, f), f_mul(fl(TWO), f));
    lemma_over(p.val(), v * v, u);
    lemma_over(q.val(), (2 * u) * v, u);
    lemma_twice(q.val(), v, u);
    assert(f_neg(q).val() == -q.val());
    lemma_sum(fl(THREE), f_neg(q));
    let c = f_sub(fl(THREE), q);
    lemma_small(p.val(), c.val(), u);
    lemma_product(p, c);
    let e = f_mul(p, c);
    lemma_over(e.val(), p.val() * c.val(), u);
    lemma_cubic(p.val(), c.val(), e.val(), v, u);
}

proof fn lemma_small(p: int, c: int, u: int)
    by (nonlinear_arith)
    requires
        u > 0,
        -(2 * u) <= p <= 2 * u,
        -(4 * u) <= c <= 4 * u,
    ensures
        -(8 * (u * u)) <= p * c <= 8 * (u * u),
{
}

/// A rounded product of 8 at most.
proof fn lemma_over(p: int, v: int, u: int)
    requires
        u > 0x1000_0000_0000,
        size(v) <= 8 * (u * u),
        size(p * u - v) * 0x100_0000 <= size(v) + 0x80_0000 * u,
    ensures
        size(p * u - v) * 0x10_0000 <= u * u,
        size(p) <= 9 * u,
        size(v) <= u * u ==> size(p) <= 2 * u,
{
    let w = u * u;
    assert(w >= 0x1000_0000_0000 * u) by (nonlinear_arith)
        requires
            w == u * u,
            u >= 0x1000_0000_0000,
    ;
    let a = p * u;
    assert(size(a) <= 9 * w);
    assert(-(9 * u) <= p <= 9 * u) by (nonlinear_arith)
        requires
            -(9 * w) <= p * u <= 9 * w,
            w == u * u,
            u > 0,
    ;
    if size(v) <= w {
        assert(size(a) <= 2 * w);
        assert(-(2 * u) <= p <= 2 * u) by (nonlinear_arith)
            requires
                -(2 * w) <= p * u <= 2 * w,
                w == u * u,
                u > 0,
        ;
    }
}

proof fn lemma_twice(q: int, v: int, u: int)
    requires
        u > 0,
        size(q * u - (2 * u) * v) * 0x10_0000 <= u * u,
    ensures
        size(q - 2 * v) * 0x10_0000 <= u,
{
    let d = q - 2 * v;
    assert(d * u == q * u - (2 * u) * v) by (nonlinear_arith)
        requires
            d == q - 2 * v,
    ;
    assert(-u <= 0x10_0000 * d <= u) by (nonlinear_arith)
        requires
            -(u * u) <= 0x10_0000 * (d * u) <= u * u,
            u > 0,
    ;
}

proof fn lemma_cubic(p: int, c: int, e: int, v: int, u: int)
    requires
        u > 0x1000_0000_0000,
        0 <= v <= u,
        size(c) <= 4 * u,
        size(p * u - v * v) * 0x10_0000 <= u * u,
        size(c - (3 * u - 2 * v)) * 0x8_0000 <= u,
        size(e * u - p * c) * 0x10_0000 <= u * u,
    ensures
        size(e * (u * u) - (v * v) * (3 * u - 2 * v)) * 0x2_0000 <= u * u * u,
{
    let (w, z, b) = (u * u, u * u * u, 3 * u - 2 * v);
    let (x, y, d) = (p * u - v * v, e * u - p * c, c - b);
    let (i, k) = (p * c, v * v);
    assert(e * w == (e * u) * u) by (nonlinear_arith)
        requires
            w == u * u,
    ;
    assert((e * u) * u == y * u + i * u) by (nonlinear_arith)
        requires
            e * u == y + i,
    ;
    assert(i * u == (p * u) * c) by (nonlinear_arith)
        requires
            i == p * c,
    ;
    assert((p * u) * c == x * c + k * c) by (nonlinear_arith)
        requires
            p * u == x + k,
    ;
    assert(k * c == k * b + k * d) by (nonlinear_arith)
        requires
            c == b + d,
    ;
    assert(-z <= 0x10_0000 * (y * u) <= z) by (nonlinear_arith)
        requires
            -w <= 0x10_0000 * y <= w,
            z == w * u,
            u > 0,
    {
        let g = 0x10_0000 * y;
        assert(-(w * u) <= g * u <= w * u) by (nonlinear_arith)
            requires
                -w <= g <= w,
                u > 0,
        ;
        assert(g * u == 0x10_0000 * (y * u)) by (nonlinear_arith)
            requires
                g == 0x10_0000 * y,
        ;
    }
    assert(-(4 * z) <= 0x10_0000 * (x * c) <= 4 * z) by (nonlinear_arith)
        requires
            -w <= 0x10_0000 * x <= w,
            -(4 * u) <= c <= 4 * u,
            z == w * u,
            w >= 0,
            u > 0,
    {
        let g = 0x10_0000 * x;
        assert(-(w * (4 * u)) <= g * c <= w * (4 * u)) by (nonlinear_arith)
            requires
                -w <= g <= w,
                -(4 * u) <= c <= 4 * u,
        ;
        assert(g * c == 0x10_0000 * (x * c) && w * (4 * u) == 4 * (w * u)) by (nonlinear_arith)
            requires
                g == 0x10_0000 * x,
        ;
    }
    assert(-z <= 0x8_0000 * ((v * v) * d) <= z) by (nonlinear_arith)
        requires
            -u <= 0x8_0000 * d <= u,
            0 <= v <= u,
            w == u * u,
            z == w * u,
    {
        let (g, h) = (0x8_0000 * d, v * v);
        assert(0 <= h <= w) by (nonlinear_arith)
            requires
                h == v * v,
                0 <= v <= u,
                w == u * u,
        ;
        assert(-(w * u) <= h * g <= w * u) by (nonlinear_arith)
            requires
                -u <= g <= u,
                0 <= h <= w,
        ;
        assert(h * g == 0x8_0000 * (h * d)) by (nonlinear_arith)
            requires
                g == 0x8_0000 * d,
        ;
    }
}

/// A share of the way from one unit-size number to another.
proof fn lemma_mix(a: F32, b: F32, e: F32)
    requires
        unit_size(a),
        unit_size(b),
        e.finite(),
        size(e.val()) <= 9 * one(),
    ensures
        f_add(a, f_mul(f_sub(b, a), e)).finite(),
        between(f_add(a, f_mul(f_sub(b, a), e)).val(), a.val(), b.val(), e.val()),
{
    lemma_huge();
    let u = one();
    assert(f_neg(a).val() == -a.val());
    lemma_sum(b, f_neg(a));
    let g = f_sub(b, a);
    let (x, s, d) = (g.val(), e.val(), b.val() - a.val());
    assert(-(27 * (u * u)) <= x * s <= 27 * (u * u)) by (nonlinear_arith)
        requires
            -(3 * u) <= x <= 3 * u,
            -(9 * u) <= s <= 9 * u,
            u > 0,
    ;
    assert(u * u >= 0x1000_0000_0000 * u) by (nonlinear_arith)
        requires
            u >= 0x1000_0000_0000,
    ;
    lemma_product(g, e);
    let p = f_mul(g, e);
    assert(-(28 * u) <= p.val() <= 28 * u) by (nonlinear_arith)
        requires
            -(28 * (u * u)) <= p.val() * u <= 28 * (u * u),
            u > 0,
    ;
    lemma_sum(a, p);
    let n = f_add(a, p);
    let (h, j) = (x - d, n.val() - (a.val() + p.val()));
    assert((n.val() - a.val()) * u - d * s == j * u + (p.val() * u - x * s) + h * s) by (nonlinear_arith)
        requires
            h == x - d,
            j == n.val() - (a.val() + p.val()),
    ;
    assert(-(u * u) <= 0x8_0000 * (j * u) <= u * u) by (nonlinear_arith)
        requires
            -u <= 0x8_0000 * j <= u,
            u > 0,
    ;
    assert(-(9 * (u * u)) <= 0x80_0000 * (h * s) <= 9 * (u * u)) by (nonlinear_arith)
        requires
            -u <= 0x80_0000 * h <= u,
            -(9 * u) <= s <= 9 * u,
            u > 0,
    {
        let y = 0x80_0000 * h;
        assert(-(9 * (u * u)) <= y * s <= 9 * (u * u)) by (nonlinear_arith)
            requires
                -u <= y <= u,
                -(9 * u) <= s <= 9 * u,
        ;
        assert(y * s == 0x80_0000 * (h * s)) by (nonlinear_arith)
            requires
                y == 0x80_0000 * h,
        ;
    }
}

// ---- The cave ----

/// A curve of size 1 at most, times a constant of 14 at most.
proof fn lemma_swing(a: F32, c: F32, n: int)
    requires
        unit_size(a),
        c.finite(),
        0 <= n <= 28,
        2 * c.val() == n * one(),
    ensures
        f_mul(a, c).finite(),
        size(2 * f_mul(a, c).val() - n * a.val()) * 0x4_0000 <= one(),
        size(f_mul(a, c).val()) <= 15 * one(),
{
    lemma_huge();
    let (u, x, y) = (one(), a.val(), c.val());
    assert(0 <= n * u <= 28 * u) by (nonlinear_arith)
        requires
            0 <= n <= 28,
            u > 0,
    ;
    let w = u * u;
    assert(-(14 * w) <= x * y <= 14 * w && w >= 0x1000_0000_0000 * u) by (nonlinear_arith)
        requires
            -u <= x <= u,
            0 <= y <= 14 * u,
            w == u * u,
            u >= 0x1000_0000_0000,
    ;
    lemma_product(a, c);
    let p = f_mul(a, c).val();
    assert(2 * (x * y) == (n * x) * u) by (nonlinear_arith)
        requires
            2 * y == n * u,
    ;
    let d = 2 * p - n * x;
    assert(d * u == 2 * (p * u) - (n * x) * u) by (nonlinear_arith)
        requires
            d == 2 * p - n * x,
    ;
    assert(size(p * u - x * y) * 0x10_0000 <= w);
    assert(-u <= 0x4_0000 * d <= u) by (nonlinear_arith)
        requires
            -w <= 0x4_0000 * (d * u) <= w,
            w == u * u,
            u > 0,
    ;
    assert(-(28 * u) <= n * x <= 28 * u) by (nonlinear_arith)
        requires
            0 <= n <= 28,
            -u <= x <= u,
    ;
}

/// The three curves that make up the centre line, and the three of the width.
pub open spec fn curves(l: LevelView, w: spec_fn(Wave, F32) -> F32, x: F32) -> (F32, F32, F32, F32, F32, F32) {
    if l.endless {
        (
            l.noise(1, x, fl(0x4352_0000)),
            l.noise(2, x, fl(0x428c_0000)),
            l.noise(3, x, fl(0x41d0_0000)),
            l.noise(4, x, fl(0x4302_0000)),
            l.noise(5, x, fl(0x423c_0000)),
            l.noise(6, x, fl(0x4198_0000)),
        )
    } else {
        (
            w(Wave::Sin, l.angle(x, 0x3f80_0000, 1)),
            w(Wave::Cos, l.angle(x, 0x4040_0000, 2)),
            w(Wave::Sin, l.angle(x, 0x40e0_0000, 3)),
            w(Wave::Sin, l.angle(x, 0x4000_0000, 4)),
            w(Wave::Cos, l.angle(x, 0x40a0_0000, 5)),
            w(Wave::Sin, l.angle(x, 0x4130_0000, 6)),
        )
    }
}

/// The cave adds up: its centre line is 14 of a slow curve, 5 of a medium and 3
/// of a tight one; to either side it is 6.5 m wide, and 2.5 and 1.5 of two other
/// curves and 2 of the size of a third; its floor and its ceiling are that far
/// below and above the centre line.
pub proof fn the_cave_adds_up(l: LevelView, w: spec_fn(Wave, F32) -> F32, x: F32)
    requires
        x.finite(),
        !l.endless ==> bounded_wave(w),
    ensures
        ({
            let (a, b, c, d, e, f) = curves(l, w, x);
            let (m, h) = (l.center(w, x), l.half_width(w, x));
            &&& m.finite() && 1000 * size(m.val() - (14 * a.val() + 5 * b.val() + 3 * c.val())) <= one()
            &&& h.finite() && 1000 * size(
                2 * h.val() - (13 * one() + 5 * d.val() + 3 * e.val() + 4 * size(f.val())),
            ) <= one()
            &&& l.floor_y(w, x).finite() && 1000 * size(l.floor_y(w, x).val() - (m.val() - h.val()))
                <= one()
            &&& l.ceiling_y(w, x).finite() && 1000 * size(l.ceiling_y(w, x).val() - (m.val() + h.val()))
                <= one()
        }),
{
    lemma_huge();
    let (a, b, c, d, e, f) = curves(l, w, x);
    lemma_curves(l, w, x);
    lemma_middle(a, b, c);
    lemma_side(d, e, f);
    let (m, h) = (l.center(w, x), l.half_width(w, x));
    assert(f_neg(h).val() == -h.val());
    lemma_sum(m, f_neg(h));
    lemma_sum(m, h);
}

proof fn lemma_middle(a: F32, b: F32, c: F32)
    requires
        unit_size(a),
        unit_size(b),
        unit_size(c),
    ensures
        ({
            let m = f_add(
                f_add(f_mul(a, fl(CENTER_SLOW)), f_mul(b, fl(CENTER_MEDIUM))),
                f_mul(c, fl(CENTER_TIGHT)),
            );
            &&& m.finite() && size(m.val()) <= 23 * one()
            &&& 1000 * size(m.val() - (14 * a.val() + 5 * b.val() + 3 * c.val())) <= one()
        }),
{
    lemma_huge();
    lemma2_to64();
    lemma_grain();
    lemma_const(CENTER_SLOW, 0xe0_0000, 9, 0x1_c000_0000);
    lemma_const(CENTER_MEDIUM, 0xa0_0000, 8, 0xa000_0000);
    lemma_const(CENTER_TIGHT, 0xc0_0000, 7, 0x6000_0000);
    lemma_swing(a, fl(CENTER_SLOW), 28);
    lemma_swing(b, fl(CENTER_MEDIUM), 10);
    lemma_swing(c, fl(CENTER_TIGHT), 6);
    let (p, q, r) = (
        f_mul(a, fl(CENTER_SLOW)),
        f_mul(b, fl(CENTER_MEDIUM)),
        f_mul(c, fl(CENTER_TIGHT)),
    );
    let u = one();
    let (x, y, z) = (p.val(), q.val(), r.val());
    lemma_sum(p, q);
    let s = f_add(p, q);
    lemma_little_off(s.val(), x + y, u);
    lemma_sum(s, r);
    let m = f_add(s, r);
    lemma_little_off(m.val(), s.val() + z, u);
    lemma_three(x, y, z, s.val(), m.val(), a.val(), b.val(), c.val(), u);
}

proof fn lemma_three(x: int, y: int, z: int, s: int, m: int, a: int, b: int, c: int, u: int)
    requires
        u > 0,
        size(a) <= u,
        size(b) <= u,
        size(c) <= u,
        size(2 * x - 28 * a) * 0x4_0000 <= u,
        size(2 * y - 10 * b) * 0x4_0000 <= u,
        size(2 * z - 6 * c) * 0x4_0000 <= u,
        size(s - (x + y)) * 0x2_0000 <= u,
        size(m - (s + z)) * 0x2_0000 <= u,
    ensures
        size(m) <= 23 * u,
        1000 * size(m - (14 * a + 5 * b + 3 * c)) <= u,
{
}

proof fn lemma_side(d: F32, e: F32, f: F32)
    requires
        unit_size(d),
        unit_size(e),
        unit_size(f),
    ensures
        ({
            let h = f_add(
                f_add(f_add(fl(WIDTH_MEAN), f_mul(d, fl(WIDTH_SLOW))), f_mul(e, fl(WIDTH_MEDIUM))),
                f_mul(f_abs(f), fl(WIDTH_PINCH)),
            );
            &&& h.finite() && size(h.val()) <= 13 * one()
            &&& 1000 * size(
                2 * h.val() - (13 * one() + 5 * d.val() + 3 * e.val() + 4 * size(f.val())),
            ) <= one()
        }),
{
    lemma_huge();
    lemma2_to64();
    lemma_grain();
    lemma_const(WIDTH_MEAN, 0xd0_0000, 8, 0xd000_0000);
    lemma_const(WIDTH_SLOW, 0xa0_0000, 7, 0x5000_0000);
    lemma_const(WIDTH_MEDIUM, 0xc0_0000, 6, 0x3000_0000);
    lemma_const(WIDTH_PINCH, 0x80_0000, 7, 0x4000_0000);
    lemma_swing(d, fl(WIDTH_SLOW), 5);
    lemma_swing(e, fl(WIDTH_MEDIUM), 3);
    assert(f_abs(f).finite() && f_abs(f).val() == size(f.val()));
    lemma_swing(f_abs(f), fl(WIDTH_PINCH), 4);
    let (p, q, r) = (
        f_mul(d, fl(WIDTH_SLOW)),
        f_mul(e, fl(WIDTH_MEDIUM)),
        f_mul(f_abs(f), fl(WIDTH_PINCH)),
    );
    let m = fl(WIDTH_MEAN);
    let u = one();
    let (x, y, z) = (p.val(), q.val(), r.val());
    lemma_sum(m, p);
    let a = f_add(m, p);
    lemma_little_off(a.val(), m.val() + x, u);
    lemma_sum(a, q);
    let b = f_add(a, q);
    lemma_little_off(b.val(), a.val() + y, u);
    lemma_sum(b, r);
    let c = f_add(b, r);
    lemma_little_off(c.val(), b.val() + z, u);
    lemma_adds(m.val(), x, y, z, a.val(), b.val(), c.val(), d.val(), e.val(), size(f.val()), u);
}

proof fn lemma_little_off(s: int, v: int, u: int)
    requires
        size(v) <= 90 * u,
        size(s - v) * 0x100_0000 <= size(v),
    ensures
        size(s - v) * 0x2_0000 <= u,
        size(s) <= size(v) + u,
{
}

proof fn lemma_adds(m: int, x: int, y: int, z: int, a: int, b: int, c: int, d: int, e: int, f: int, u: int)
    requires
        u > 0,
        2 * m == 13 * u,
        size(d) <= u,
        size(e) <= u,
        0 <= f <= u,
        size(2 * x - 5 * d) * 0x4_0000 <= u,
        size(2 * y - 3 * e) * 0x4_0000 <= u,
        size(2 * z - 4 * f) * 0x4_0000 <= u,
        size(a - (m + x)) * 0x2_0000 <= u,
        size(b - (a + y)) * 0x2_0000 <= u,
        size(c - (b + z)) * 0x2_0000 <= u,
    ensures
        size(c) <= 13 * u,
        1000 * size(2 * c - (13 * u + 5 * d + 3 * e + 4 * f)) <= u,
{
}

proof fn lemma_curves(l: LevelView, w: spec_fn(Wave, F32) -> F32, x: F32)
    requires
        x.finite(),
        !l.endless ==> bounded_wave(w),
    ensures
        ({
            let (a, b, c, d, e, f) = curves(l, w, x);
            unit_size(a) && unit_size(b) && unit_size(c) && unit_size(d) && unit_size(e) && unit_size(f)
        }),
{
    if l.endless {
        lemma_noise(l, 1, x, fl(WAVELENGTH_1));
        lemma_noise(l, 2, x, fl(WAVELENGTH_2));
        lemma_noise(l, 3, x, fl(WAVELENGTH_3));
        lemma_noise(l, 4, x, fl(WAVELENGTH_4));
        lemma_noise(l, 5, x, fl(WAVELENGTH_5));
        lemma_noise(l, 6, x, fl(WAVELENGTH_6));
    } else {
        lemma_angle(l, x, ONE, 1);
        lemma_angle(l, x, THREE, 2);
        lemma_angle(l, x, SEVEN, 3);
        lemma_angle(l, x, TWO, 4);
        lemma_angle(l, x, FIVE, 5);
        lemma_angle(l, x, ELEVEN, 6);
    }
}

// ---- Shaft walls ----

/// `env` is how much of its wiggle a wall shows at the height `t`: all of it but
/// for the lowest and the highest 18 hundredths, where it grows evenly from
/// nothing.
pub open spec fn swings(env: int, t: int) -> bool {
    let m = if 2 * t <= one() {
        t
    } else {
        one() - t
    };
    &&& 0 <= env <= one()
    &&& 1000 * m >= 181 * one() ==> env == one()
    &&& 1000 * m <= 179 * one() ==> 1000 * size(18 * env - 100 * m) <= 18 * one()
}

/// `a` is `n` turns by the height `t`, from a phase within one turn. A turn is
/// 6.283 radians.
pub open spec fn turns(a: int, n: int, t: int) -> bool {
    6283 * (n * t) - 2 * one() <= 1000 * a <= 6284 * (n * t) + 6286 * one()
}

/// `d` is what a wall is off its edge: 90 and 35 hundredths of two curves, as far
/// as it swings.
pub open spec fn wiggles(d: int, env: int, wide: int, fine: int) -> bool {
    size((100 * d) * one() - env * (90 * wide + 35 * fine)) <= one() * one()
}

/// A shaft wall wiggles about the edge of its opening: twice, and five times
/// more finely, from the ceiling to the floor above.
pub proof fn walls_wiggle_like_this(l: LevelView, w: spec_fn(Wave, F32) -> F32, s: int, side: u8, t: F32)
    requires
        bounded_wave(w),
        t.finite(),
        0 <= t.val() <= one(),
        nearby(l.shaft_edge(s, side)),
    ensures
        l.wall_x(w, s, side, t).finite(),
        exists|env: int, a: F32, b: F32|
            #![trigger swings(env, t.val()), w(Wave::Sin, a), w(Wave::Sin, b)]
            swings(env, t.val()) && a.finite() && b.finite() && turns(a.val(), 2, t.val()) && turns(
                b.val(),
                5,
                t.val(),
            ) && wiggles(
                l.wall_x(w, s, side, t).val() - l.shaft_edge(s, side).val(),
                env,
                w(Wave::Sin, a).val(),
                w(Wave::Sin, b).val(),
            ),
{
    lemma_huge();
    let h = l.wall_hash(s, side);
    lemma_turns(t, TWO, 2, h);
    lemma_turns(t, FIVE, 5, h >> 16);
    let a = f_add(f_mul(f_mul(t, fl(TAU)), fl(TWO)), f_mul(fraction16(h), fl(TAU)));
    let b = f_add(f_mul(f_mul(t, fl(TAU)), fl(FIVE)), f_mul(fraction16(h >> 16), fl(TAU)));
    let env = wall_envelope(t);
    lemma_swings(t);
    let (wide, fine) = (w(Wave::Sin, a), w(Wave::Sin, b));
    lemma_wiggle_size(wide, fine, env, l.shaft_edge(s, side));
    assert(swings(env.val(), t.val()));
}

proof fn lemma_turns(t: F32, c: u32, n: int, h: u32)
    requires
        t.finite(),
        0 <= t.val() <= one(),
        c == TWO && n == 2 || c == FIVE && n == 5,
    ensures
        ({
            let a = f_add(f_mul(f_mul(t, fl(TAU)), fl(c)), f_mul(fraction16(h), fl(TAU)));
            a.finite() && turns(a.val(), n, t.val())
        }),
{
    lemma_huge();
    lemma2_to64();
    lemma_grain();
    lemma_const(TAU, 0xc9_0fdb, 8, 0xc90f_db00);
    lemma_const(TWO, 0x80_0000, 7, 0x4000_0000);
    lemma_const(FIVE, 0xa0_0000, 8, 0xa000_0000);
    let (u, tau) = (one(), fl(TAU));
    assert(6_283_000 * u <= 1_000_000 * tau.val() <= 6_283_200 * u);
    lemma_fraction16(h);
    lemma_scale(fraction16(h), tau);
    lemma_part(t, tau);
    let p = f_mul(t, tau);
    lemma_whole_times(p, fl(c), n);
    let q = f_mul(p, fl(c));
    let r = f_mul(fraction16(h), tau);
    lemma_sum(q, r);
}

/// A height of 1 at most, in turns.
proof fn lemma_part(t: F32, tau: F32)
    requires
        t.finite(),
        0 <= t.val() <= one(),
        tau.finite(),
        6_283_000 * one() <= 1_000_000 * tau.val() <= 6_283_200 * one(),
    ensures
        ({
            let p = f_mul(t, tau);
            &&& p.finite() && 0 <= p.val() <= 7 * one()
            &&& 10_000 * p.val() >= 62_830 * t.val() - one()
            &&& 10_000 * p.val() <= 62_832 * t.val() + one()
        }),
{
    lemma_huge();
    let (u, x, y) = (one(), t.val(), tau.val());
    let w = u * u;
    assert(0 <= x * y <= 7 * w && w >= 0x1000_0000_0000 * u) by (nonlinear_arith)
        requires
            0 <= x <= u,
            0 <= y <= 7 * u,
            w == u * u,
            u >= 0x1000_0000_0000,
    ;
    lemma_scale(t, tau);
    lemma_product(t, tau);
    let p = f_mul(t, tau).val();
    assert(62_830 * (x * u) <= 10_000 * (x * y) <= 62_832 * (x * u)) by (nonlinear_arith)
        requires
            0 <= x,
            62_830 * u <= 10_000 * y <= 62_832 * u,
    ;
    assert(size(p * u - x * y) * 0x10_0000 <= w);
    assert(10_000 * p >= 62_830 * x - u && 10_000 * p <= 62_832 * x + u) by (nonlinear_arith)
        requires
            62_830 * (x * u) - w <= 10_000 * (p * u) <= 62_832 * (x * u) + w,
            w == u * u,
            u > 0,
    ;
}

proof fn lemma_whole_times(p: F32, c: F32, n: int)
    requires
        p.finite(),
        0 <= p.val() <= 7 * one(),
        c.finite(),
        c.val() == n * one(),
        n == 2 || n == 5,
    ensures
        f_mul(p, c).finite(),
        10_000 * size(f_mul(p, c).val() - n * p.val()) <= one(),
{
    lemma_huge();
    let (u, x) = (one(), p.val());
    let w = u * u;
    assert(x * (n * u) == (n * x) * u && 0 <= x * u <= 7 * w && w >= 0x1000_0000_0000 * u) by (nonlinear_arith)
        requires
            0 <= x <= 7 * u,
            w == u * u,
            u >= 0x1000_0000_0000,
    ;
    assert((n * x) * u == n * (x * u)) by (nonlinear_arith);
    assert(0 <= (n * x) * u <= 35 * w);
    lemma_product(p, c);
    let d = f_mul(p, c).val() - n * x;
    assert(d * u == f_mul(p, c).val() * u - (n * x) * u) by (nonlinear_arith)
        requires
            d == f_mul(p, c).val() - n * x,
    ;
    assert(-u <= 10_000 * d <= u) by (nonlinear_arith)
        requires
            -w <= 10_000 * (d * u) <= w,
            w == u * u,
            u > 0,
    ;
}

proof fn lemma_swings(t: F32)
    requires
        t.finite(),
        0 <= t.val() <= one(),
    ensures
        wall_envelope(t).finite(),
        swings(wall_envelope(t).val(), t.val()),
{
    lemma_huge();
    lemma2_to64();
    lemma_grain();
    lemma_one();
    lemma_units_zero();
    lemma_const(ENVELOPE, 0xb8_51ec, 3, 0x5c2_8f60);
    let (u, v, c) = (one(), t.val(), fl(ENVELOPE));
    assert(size(100 * c.val() - 18 * u) * 0x10_0000 <= u);
    assert(f_neg(t).val() == -v);
    lemma_sum(fl(ONE), f_neg(t));
    let o = f_sub(fl(ONE), t);
    let m = f_min(t, o);
    order_is_by_value(o, t);
    let x = if 2 * v <= u {
        v
    } else {
        u - v
    };
    assert(m.finite() && 0 <= m.val() && size(m.val() - x) * 0x10_0000 <= u);
    lemma_quotient(m, c);
    let q = f_div(m, c);
    order_is_by_value(q, fl(0));
    order_is_by_value(fl(ONE), q);
    lemma_slope(q.val(), c.val(), m.val(), x, u);
}

proof fn lemma_slope(q: int, c: int, m: int, x: int, u: int)
    requires
        u > 0x1000_0000_0000,
        size(100 * c - 18 * u) * 0x10_0000 <= u,
        0 <= m,
        0 <= x <= u,
        size(m - x) * 0x10_0000 <= u,
        size(q * c - m * u) * 0x100_0000 <= size(m) * u + 0x80_0000 * c,
    ensures
        1000 * x >= 181 * u ==> q >= u,
        1000 * x <= 179 * u ==> q <= u && 1000 * size(18 * q - 100 * x) <= 18 * u,
        q >= 0 || 1000 * size(18 * q) <= u,
{
    let w = u * u;
    assert(w >= 0x1000_0000_0000 * u && 0 <= m * u <= 2 * w) by (nonlinear_arith)
        requires
            w == u * u,
            u >= 0x1000_0000_0000,
            0 <= m <= 2 * u,
    ;
    assert(size(q * c - m * u) * 0x10_0000 <= w);
    assert(-(10 * u) <= q <= 20 * u) by (nonlinear_arith)
        requires
            -w <= q * c <= 3 * w,
            100 * c >= 17 * u,
            w == u * u,
            u > 0,
    {
        if q > 20 * u {
            assert(q * (100 * c) >= (20 * u) * (17 * u)) by (nonlinear_arith)
                requires
                    q > 20 * u,
                    100 * c >= 17 * u,
                    u > 0,
            ;
            assert(q * (100 * c) == 100 * (q * c) && (20 * u) * (17 * u) == 340 * (u * u)) by (nonlinear_arith);
        }
        if q < -(10 * u) {
            assert((-q) * (100 * c) >= (10 * u) * (17 * u)) by (nonlinear_arith)
                requires
                    -q > 10 * u,
                    100 * c >= 17 * u,
                    u > 0,
            ;
            assert((-q) * (100 * c) == -(100 * (q * c)) && (10 * u) * (17 * u) == 170 * (u * u)) by (nonlinear_arith);
        }
    }
    let e = 100 * c - 18 * u;
    assert(100 * (q * c) == 18 * (q * u) + q * e) by (nonlinear_arith)
        requires
            e == 100 * c - 18 * u,
    ;
    assert(-(20 * w) <= 0x10_0000 * (q * e) <= 20 * w) by (nonlinear_arith)
        requires
            -(10 * u) <= q <= 20 * u,
            -u <= 0x10_0000 * e <= u,
            w == u * u,
            u > 0,
    {
        let g = 0x10_0000 * e;
        assert(-(20 * (u * u)) <= q * g <= 20 * (u * u)) by (nonlinear_arith)
            requires
                -(10 * u) <= q <= 20 * u,
                -u <= g <= u,
                u > 0,
        ;
        assert(q * g == 0x10_0000 * (q * e)) by (nonlinear_arith)
            requires
                g == 0x10_0000 * e,
        ;
    }
    let d = 18 * q - 100 * m;
    assert(d * u == 18 * (q * u) - 100 * (m * u)) by (nonlinear_arith)
        requires
            d == 18 * q - 100 * m,
    ;
    assert(-w <= 5000 * (d * u) <= w);
    assert(-u <= 5000 * d <= u) by (nonlinear_arith)
        requires
            -w <= 5000 * (d * u) <= w,
            w == u * u,
            u > 0,
    ;
}

proof fn lemma_wiggle_size(wide: F32, fine: F32, env: F32, edge: F32)
    requires
        unit_size(wide),
        unit_size(fine),
        env.finite(),
        0 <= env.val() <= one(),
        nearby(edge),
    ensures
        ({
            let x = f_add(
                edge,
                f_mul(env, f_add(f_mul(wide, fl(WIGGLE_WIDE)), f_mul(fine, fl(WIGGLE_FINE)))),
            );
            x.finite() && wiggles(x.val() - edge.val(), env.val(), wide.val(), fine.val())
        }),
{
    lemma_huge();
    lemma2_to64();
    lemma_grain();
    lemma_const(WIGGLE_WIDE, 0xe6_6666, 5, 0x1ccc_ccc0);
    lemma_const(WIGGLE_FINE, 0xb3_3333, 4, 0xb33_3330);
    lemma_arm(fl(WIGGLE_WIDE), 90, wide);
    lemma_arm(fl(WIGGLE_FINE), 35, fine);
    lemma_commutes(wide, fl(WIGGLE_WIDE));
    lemma_commutes(fine, fl(WIGGLE_FINE));
    let (p, q) = (f_mul(wide, fl(WIGGLE_WIDE)), f_mul(fine, fl(WIGGLE_FINE)));
    lemma_sum(p, q);
    let s = f_add(p, q);
    let (u, e, v) = (one(), env.val(), s.val());
    let w = u * u;
    assert(-(7 * w) <= e * v <= 7 * w && w >= 0x1000_0000_0000 * u) by (nonlinear_arith)
        requires
            0 <= e <= u,
            -(7 * u) <= v <= 7 * u,
            w == u * u,
            u >= 0x1000_0000_0000,
    ;
    lemma_product(env, s);
    let y = f_mul(env, s);
    assert(-(8 * u) <= y.val() <= 8 * u) by (nonlinear_arith)
        requires
            -(8 * w) <= y.val() * u <= 8 * w,
            w == u * u,
            u > 0,
    ;
    lemma_sum(edge, y);
    let x = f_add(edge, y);
    let (g, d, j) = (90 * wide.val() + 35 * fine.val(), x.val() - edge.val(), x.val() - (edge.val() + y.val()));
    let h = 100 * v - g;
    assert(size(h) * 0x40 <= u);
    assert((100 * d) * u == 100 * (j * u) + 100 * (y.val() * u) && e * g == 100 * (e * v) - e * h) by (nonlinear_arith)
        requires
            d == y.val() + j,
            h == 100 * v - g,
    ;
    assert(-w <= 1000 * (j * u) <= w) by (nonlinear_arith)
        requires
            -u <= 1000 * j <= u,
            w == u * u,
            u > 0,
    ;
    assert(-w <= 0x40 * (e * h) <= w) by (nonlinear_arith)
        requires
            -u <= 0x40 * h <= u,
            0 <= e <= u,
            w == u * u,
    {
        let k = 0x40 * h;
        assert(-(u * u) <= e * k <= u * u) by (nonlinear_arith)
            requires
                -u <= k <= u,
                0 <= e <= u,
        ;
        assert(e * k == 0x40 * (e * h)) by (nonlinear_arith)
            requires
                k == 0x40 * h,
        ;
    }
}

proof fn lemma_commutes(a: F32, b: F32)
    requires
        a.finite(),
        b.finite(),
    ensures
        f_mul(a, b) == f_mul(b, a),
{
    reveal(f_mul);
    assert(units(a.mag()) * units(b.mag()) == units(b.mag()) * units(a.mag())) by (nonlinear_arith);
}

} // verus!
