//! Laws of distance: the pads and boulders of far slots are far.

use crate::binary32::arith::{
    f_abs, f_add, f_div, f_mul, f_neg, f_sqrt, f_sub, is_root, lemma_root_exists, pack_root,
    root_floor,
};
use crate::binary32::convert::{f_of_int, f_round, f_to_i64, frac_part, int_part, round_int};
use crate::binary32::facts::{
    lemma_add_between, lemma_excess_at_most, lemma_excess_normal, lemma_mul_between, lemma_pack_ge,
    lemma_pack_le, lemma_units_at, lemma_units_mono, lemma_units_zero, order_is_by_value,
};
use crate::binary32::order::f_le;
use crate::binary32::{excess, fl, pack, units, F32};
use crate::cave::{Wave, ONE};
use crate::laws::boulders::{boulders_are_small, lemma_either_way, vertices_lie_within};
use crate::laws::caves::{bounded_wave, lemma_const, lemma_grain, lemma_one};
use crate::laws::clearings::lemma_back;
use crate::laws::rises::{lemma_grid, lemma_int};
use crate::level::{LevelView, Vec2};
use crate::obstacle::{OBSTACLE_JITTER_HI, OBSTACLE_JITTER_LO, OBSTACLE_SPACING, RADIUS_MAX};
use crate::pad::{reach, PAD_HALF_W, PAD_JITTER_HI, PAD_JITTER_LO};
use crate::rng::{draw, range_of};
use vstd::arithmetic::div_mod::lemma_fundamental_div_mod;
use vstd::arithmetic::mul::{lemma_mul_is_associative, lemma_mul_is_commutative};
use vstd::arithmetic::power2::{lemma2_to64, lemma_pow2_adds, lemma_pow2_pos, pow2};
use vstd::prelude::*;

verus! {

/// A quotient stays between numbers that its exact value lies between.
pub(crate) proof fn lemma_div_between(a: F32, b: F32, lo: F32, hi: F32)
    requires
        a.finite(),
        b.finite(),
        b.val() > 0,
        lo.finite(),
        hi.finite(),
        lo.val() * b.val() <= a.val() * pow2(149) <= hi.val() * b.val(),
    ensures
        f_div(a, b).finite(),
        lo.val() <= f_div(a, b).val() <= hi.val(),
{
    reveal(f_div);
    lemma_units_zero();
    lemma_pow2_pos(149);
    let u = pow2(149);
    let d = units(b.mag());
    let v = units(a.mag());
    let n = v * u;
    let m = pack(n, d);
    let (l, h) = (units(lo.mag()), units(hi.mag()));
    let (x, y) = (lo.val(), hi.val());
    if a.val() > 0 {
        assert(y > 0 && n <= y * d) by (nonlinear_arith)
            requires
                n == v * u,
                v * u <= y * d,
                v > 0,
                u > 0,
                d > 0,
        ;
        lemma_pack_le(n, d, hi.mag());
        if m < hi.mag() {
            lemma_units_mono(m, hi.mag());
        }
        if x > 0 {
            assert(n >= l * d);
            lemma_pack_ge(n, d, lo.mag());
            if lo.mag() < m {
                lemma_units_mono(lo.mag(), m);
            }
        }
    } else if a.val() < 0 {
        assert(-(n as int) == a.val() * u && n > 0) by (nonlinear_arith)
            requires
                n == v * u,
                a.val() == -v,
                v > 0,
                u > 0,
        ;
        assert(x < 0 && n <= (-x) * d) by (nonlinear_arith)
            requires
                x * d <= -(n as int),
                n > 0,
                d > 0,
        {
            assert((-x) * d == -(x * d)) by (nonlinear_arith);
        }
        lemma_pack_le(n, d, lo.mag());
        if m < lo.mag() {
            lemma_units_mono(m, lo.mag());
        }
        if y < 0 {
            assert(n >= h * d) by (nonlinear_arith)
                requires
                    -(n as int) <= y * d,
                    y == -h,
            ;
            lemma_pack_ge(n, d, hi.mag());
            if hi.mag() < m {
                lemma_units_mono(hi.mag(), m);
            }
        }
    } else {
        assert(v == 0 && n == 0) by (nonlinear_arith)
            requires
                n == v * u,
                v == 0,
        ;
        assert(x <= 0 && y >= 0) by (nonlinear_arith)
            requires
                x * d <= 0 <= y * d,
                d > 0,
        ;
        lemma_pack_le(0, d, 0);
    }
}

/// The nearest integer is at most half off.
pub(crate) proof fn lemma_round(q: F32)
    requires
        q.finite(),
    ensures
        -(pow2(149) as int) <= 2 * (q.val() - round_int(q) * pow2(149)) <= pow2(149),
{
    lemma_pow2_pos(149);
    let u = pow2(149) as int;
    let v = units(q.mag()) as int;
    let (n, r) = (int_part(q) as int, frac_part(q) as int);
    lemma_fundamental_div_mod(v, u);
    let i = if 2 * r >= u {
        n + 1
    } else {
        n
    };
    assert(-u <= 2 * (v - i * u) <= u) by (nonlinear_arith)
        requires
            v == u * n + r,
            0 <= r < u,
            i == if 2 * r >= u {
                n + 1
            } else {
                n
            },
    ;
    if q.neg() {
        assert(2 * (-v - (-i) * u) == -(2 * (v - i * u))) by (nonlinear_arith);
    }
}

/// A quotient is off by a 256th at most.
proof fn lemma_div_fine(a: F32, b: F32, least: int, most: int)
    requires
        a.finite(),
        b.finite(),
        least > 0,
        256 * most <= 8_400_000 * least,
        b.val() >= least * pow2(149),
        -(most * pow2(149)) <= a.val() <= most * pow2(149),
    ensures
        f_div(a, b).finite(),
        -(b.val() * pow2(141)) <= f_div(a, b).val() * b.val() - a.val() * pow2(149) <= b.val() * pow2(141),
        -33_000 * pow2(149) <= f_div(a, b).val() <= 33_000 * pow2(149),
{
    lemma2_to64();
    lemma_pow2_pos(141);
    lemma_pow2_adds(141, 8);
    let (g, u) = (pow2(141) as int, pow2(149) as int);
    let (x, s) = (a.val(), b.val());
    let w = s * g;
    let n = x * u;
    assert(w > 0 && -8_400_000 * w <= n <= 8_400_000 * w) by (nonlinear_arith)
        requires
            w == s * g,
            n == x * u,
            s >= least * u,
            least > 0,
            256 * most <= 8_400_000 * least,
            u == 256 * g,
            g > 0,
            -(most * u) <= x <= most * u,
    {
        let z = u * g;
        assert(z > 0) by (nonlinear_arith)
            requires
                z == u * g,
                u == 256 * g,
                g > 0,
        ;
        assert(s * g >= least * z) by (nonlinear_arith)
            requires
                s >= least * u,
                g > 0,
                z == u * g,
        ;
        assert(-(most * (u * u)) <= x * u <= most * (u * u)) by (nonlinear_arith)
            requires
                -(most * u) <= x <= most * u,
                u > 0,
        ;
        assert(most * (u * u) == (256 * most) * z) by (nonlinear_arith)
            requires
                u == 256 * g,
                z == u * g,
        ;
        assert((256 * most) * z <= (8_400_000 * least) * z) by (nonlinear_arith)
            requires
                256 * most <= 8_400_000 * least,
                z > 0,
        ;
        assert((8_400_000 * least) * z == 8_400_000 * (least * z)) by (nonlinear_arith);
        assert(least * z > 0) by (nonlinear_arith)
            requires
                least > 0,
                z > 0,
        ;
    }
    let k = n / w;
    lemma_fundamental_div_mod(n, w);
    assert(k * w <= n <= (k + 1) * w && -8_400_001 <= k <= 8_400_000) by (nonlinear_arith)
        requires
            n == w * k + n % w,
            0 <= n % w < w,
            -8_400_000 * w <= n <= 8_400_000 * w,
            w > 0,
    ;
    let lo = lemma_grid(k, 141);
    let hi = lemma_grid(k + 1, 141);
    assert(lo.val() * s == k * w && hi.val() * s == (k + 1) * w && (k + 1) * w == k * w + w) by (nonlinear_arith)
        requires
            lo.val() == k * g,
            hi.val() == (k + 1) * g,
            w == s * g,
    ;
    assert(s > 0) by (nonlinear_arith)
        requires
            s >= least * u,
            least > 0,
            u == 256 * g,
            g > 0,
    ;
    lemma_div_between(a, b, lo, hi);
    let q = f_div(a, b).val();
    assert(k * w <= q * s <= (k + 1) * w) by (nonlinear_arith)
        requires
            lo.val() * s == k * w,
            hi.val() * s == (k + 1) * w,
            lo.val() <= q <= hi.val(),
            s > 0,
    ;
    assert(-33_000 * u <= q <= 33_000 * u) by (nonlinear_arith)
        requires
            k * g <= q <= (k + 1) * g,
            -8_400_001 <= k <= 8_400_000,
            u == 256 * g,
            g > 0,
    ;
}

/// The slot that a place is taken to be nearest to is no more than half a
/// slot away, and a 256th.
proof fn lemma_nearest_slot(x: F32, sp: F32, least: int, most: int)
    requires
        x.finite(),
        sp.finite(),
        least > 0,
        256 * most <= 8_400_000 * least,
        sp.val() >= least * pow2(149),
        -(most * pow2(149)) <= x.val() <= most * pow2(149),
    ensures
        ({
            let k = f_to_i64(f_round(f_div(x, sp)));
            -129 * sp.val() <= 256 * (k * sp.val() - x.val()) <= 129 * sp.val()
        }),
{
    lemma2_to64();
    lemma_pow2_pos(141);
    lemma_pow2_adds(141, 8);
    reveal(f_round);
    let (g, u) = (pow2(141) as int, pow2(149) as int);
    let (c, s) = (x.val(), sp.val());
    lemma_div_fine(x, sp, least, most);
    let q = f_div(x, sp);
    lemma_round(q);
    let k = round_int(q);
    assert(-33_001 <= k <= 33_001) by (nonlinear_arith)
        requires
            -u <= 2 * (q.val() - k * u) <= u,
            -33_000 * u <= q.val() <= 33_000 * u,
            u > 0,
    ;
    lemma_back(k, q.neg());
    assert(s > 0) by (nonlinear_arith)
        requires
            s >= least * u,
            least > 0,
            u == 256 * g,
            g > 0,
    ;
    assert(-129 * s <= 256 * (k * s - c) <= 129 * s) by (nonlinear_arith)
        requires
            -u <= 2 * (q.val() - k * u) <= u,
            -(s * g) <= q.val() * s - c * u <= s * g,
            u == 256 * g,
            g > 0,
            s > 0,
    {
        let e = q.val() - k * u;
        assert(-(u * s) <= 2 * (e * s) <= u * s) by (nonlinear_arith)
            requires
                -u <= 2 * e <= u,
                s > 0,
        ;
        assert(q.val() * s - c * u == (k * s - c) * u + e * s) by (nonlinear_arith)
            requires
                e == q.val() - k * u,
        ;
        let d = k * s - c;
        assert(2 * (d * u) <= u * s + 2 * (s * g) && 2 * (d * u) >= -(u * s) - 2 * (s * g));
        assert(u * s == 256 * (s * g)) by (nonlinear_arith)
            requires
                u == 256 * g,
        ;
        assert(2 * (d * u) == 512 * (d * g)) by (nonlinear_arith)
            requires
                u == 256 * g,
        ;
        assert(512 * (d * g) <= 258 * (s * g) && 512 * (d * g) >= -258 * (s * g));
        assert(256 * d <= 129 * s && 256 * d >= -129 * s) by (nonlinear_arith)
            requires
                512 * (d * g) <= 258 * (s * g),
                512 * (d * g) >= -258 * (s * g),
                g > 0,
        ;
    }
}

/// A sum is off by a quarter at most.
pub(crate) proof fn lemma_add_quarter(a: F32, b: F32)
    requires
        a.finite(),
        b.finite(),
        -0xff_0000 * pow2(147) <= a.val() + b.val() <= 0xff_0000 * pow2(147),
    ensures
        f_add(a, b).finite(),
        -(pow2(147) as int) <= f_add(a, b).val() - (a.val() + b.val()) <= pow2(147),
{
    lemma_pow2_pos(147);
    let g = pow2(147) as int;
    let s = a.val() + b.val();
    let k = s / g;
    lemma_fundamental_div_mod(s, g);
    assert(k * g <= s <= (k + 1) * g && -0xff_0001 <= k <= 0xff_0000 && (k + 1) * g == k * g + g) by (nonlinear_arith)
        requires
            s == g * k + s % g,
            0 <= s % g < g,
            -0xff_0000 * g <= s <= 0xff_0000 * g,
            g > 0,
    ;
    let lo = lemma_grid(k, 147);
    let hi = lemma_grid(k + 1, 147);
    lemma_add_between(a, b, lo, hi);
}

/// A whole multiple is off by a quarter at most.
pub(crate) proof fn lemma_times_quarter(p: int, b: F32)
    requires
        b.finite(),
        -0x10_0000 < p < 0x10_0000,
        -0x80_0000 * pow2(147) <= p * b.val() <= 0x80_0000 * pow2(147),
    ensures
        f_mul(f_of_int(p), b).finite(),
        -(pow2(147) as int) <= f_mul(f_of_int(p), b).val() - p * b.val() <= pow2(147),
{
    lemma_pow2_pos(147);
    lemma_pow2_pos(149);
    lemma_int(p);
    let (g, u) = (pow2(147) as int, pow2(149) as int);
    let s = p * b.val();
    let k = s / g;
    lemma_fundamental_div_mod(s, g);
    assert(k * g <= s <= (k + 1) * g && -0x80_0001 <= k <= 0x80_0000 && (k + 1) * g == k * g + g) by (nonlinear_arith)
        requires
            s == g * k + s % g,
            0 <= s % g < g,
            -0x80_0000 * g <= s <= 0x80_0000 * g,
            g > 0,
    ;
    let lo = lemma_grid(k, 147);
    let hi = lemma_grid(k + 1, 147);
    let a = f_of_int(p);
    assert(lo.val() * u <= a.val() * b.val() <= hi.val() * u) by (nonlinear_arith)
        requires
            lo.val() == k * g,
            hi.val() == (k + 1) * g,
            k * g <= s <= (k + 1) * g,
            s == p * b.val(),
            a.val() == p * u,
            u > 0,
    {
        assert(a.val() * b.val() == s * u) by (nonlinear_arith)
            requires
                s == p * b.val(),
                a.val() == p * u,
        ;
    }
    lemma_mul_between(a, b, lo, hi);
}

/// Two slots on or more is at least 383/256 of a slot away.
proof fn lemma_two_slots(k: int, p: int, s: int, c: int)
    requires
        -129 * s <= 256 * (k * s - c) <= 129 * s,
        s > 0,
    ensures
        p >= k + 2 ==> 256 * (p * s - c) >= 383 * s,
        p <= k - 2 ==> 256 * (p * s - c) <= -383 * s,
{
    let t = p * s;
    assert((p >= k + 2 ==> 256 * (t - c) >= 383 * s) && (p <= k - 2 ==> 256 * (t - c) <= -383 * s)) by (nonlinear_arith)
        requires
            t == p * s,
            -129 * s <= 256 * (k * s - c) <= 129 * s,
            s > 0,
    {
        let (z, m) = (k * s, p - k);
        assert(t == z + m * s) by (nonlinear_arith)
            requires
                t == p * s,
                z == k * s,
                m == p - k,
        ;
        if p >= k + 2 {
            assert(m * s >= 2 * s) by (nonlinear_arith)
                requires
                    m >= 2,
                    s > 0,
            ;
        }
        if p <= k - 2 {
            assert(m * s <= -2 * s) by (nonlinear_arith)
                requires
                    m <= -2,
                    s > 0,
            ;
        }
    }
}

/// A pad whose slot is not among the three nearest to a place does not lie
/// over it, within a thousand kilometres of the start.
pub proof fn far_pads_are_far(l: LevelView, x: F32, p: int)
    requires
        x.finite(),
        -0x10_0000 * pow2(149) <= x.val() <= 0x10_0000 * pow2(149),
        l.pad_spacing.finite(),
        40 * pow2(149) <= l.pad_spacing.val() <= 2000 * pow2(149),
        -0x10_0000 < p < 0x10_0000,
        -0x20_0000 * pow2(149) <= p * l.pad_spacing.val() <= 0x20_0000 * pow2(149),
        !(-1 <= p - f_to_i64(f_round(f_div(x, l.pad_spacing))) <= 1),
    ensures
        !f_le(f_abs(f_sub(l.pad_x(p), x)), fl(PAD_HALF_W)),
{
    lemma2_to64();
    lemma_grain();
    lemma_units_zero();
    lemma_pow2_pos(141);
    lemma_pow2_adds(141, 8);
    lemma_pow2_adds(147, 2);
    let u = pow2(149) as int;
    let sp = l.pad_spacing;
    let (c, s) = (x.val(), sp.val());
    lemma_nearest_slot(x, sp, 40, 0x10_0000);
    let k = f_to_i64(f_round(f_div(x, sp))) as int;
    lemma_times_quarter(p, sp);
    let a = f_mul(f_of_int(p), sp);
    lemma_const(PAD_JITTER_HI, 0xa0_0000, 10, 0x2_8000_0000);
    let hi = fl(PAD_JITTER_HI);
    assert(hi.val() == 20 * u);
    assert(f_neg(hi) == fl(PAD_JITTER_LO));
    let d = draw(l.slot_seed(p as u32) ^ 0x50ad_5eed, 1);
    lemma_either_way(d, hi);
    let j = range_of(d, fl(PAD_JITTER_LO), hi);
    order_is_by_value(fl(PAD_JITTER_LO), j);
    order_is_by_value(j, hi);
    lemma_add_quarter(a, j);
    let at = l.pad_x(p);
    assert(at == f_add(a, j));
    assert(f_neg(x).val() == -c);
    lemma_add_quarter(at, f_neg(x));
    let off = f_sub(at, x);
    let t = p * s;
    lemma_two_slots(k, p, s, c);
    lemma_const(PAD_HALF_W, 0xc0_0000, 7, 0x6000_0000);
    order_is_by_value(f_abs(off), fl(PAD_HALF_W));
}

/// The root of less than 64 is 8 at most.
proof fn lemma_root_below(a: F32)
    requires
        a.finite(),
        !a.neg(),
        a.val() < 64 * pow2(149),
    ensures
        f_sqrt(a).finite(),
        !f_sqrt(a).neg(),
        f_sqrt(a).val() <= 8 * pow2(149),
{
    reveal(f_sqrt);
    lemma2_to64();
    lemma_units_zero();
    let u = pow2(149);
    lemma_pow2_pos(149);
    lemma_pow2_adds(149, 3);
    lemma_pow2_adds(24, 128);
    assert(0x100_0000 * pow2(128) == pow2(152)) by {
        assert(pow2(24) == 0x100_0000);
    }
    lemma_units_at(128, 0x100_0000);
    let top = 0x4100_0000nat;
    assert(units(top) == 8 * u);
    if a.mag() > 0 {
        let x = units(a.mag()) * u;
        lemma_root_exists(x);
        let r = root_floor(x);
        assert(is_root(x, r));
        assert(r < 8 * u) by (nonlinear_arith)
            requires
                r * r <= x,
                x == units(a.mag()) * u,
                units(a.mag()) < 64 * u,
                u > 0,
        {
            assert(units(a.mag()) * u < (8 * u) * (8 * u)) by (nonlinear_arith)
                requires
                    units(a.mag()) < 64 * u,
                    u > 0,
            ;
            if r >= 8 * u {
                assert(r * r >= (8 * u) * (8 * u)) by (nonlinear_arith)
                    requires
                        r >= 8 * u,
                ;
            }
        }
        let k = excess(r);
        lemma_excess_at_most(r, 128);
        lemma_excess_normal(r);
        let y = x / pow2(2 * k);
        lemma_root_exists(y);
        let f = root_floor(y);
        assert(is_root(y, f));
        lemma_pow2_pos(k);
        lemma_pow2_pos(2 * k);
        lemma_pow2_adds(k, k);
        lemma_quotient_times(x, pow2(2 * k));
        let p = pow2(k);
        assert(f < 0x100_0000) by (nonlinear_arith)
            requires
                f * f <= y,
                y * (p * p) <= x,
                x < (r + 1) * (r + 1),
                r / p < 0x100_0000,
                p > 0,
        {
            assert((f * p) * (f * p) == (f * f) * (p * p)) by {
                let (a, b) = (f as int, p as int);
                lemma_mul_is_associative(a, b, a * b);
                lemma_mul_is_associative(b, a, b);
                lemma_mul_is_commutative(a, b);
                lemma_mul_is_associative(a, b, b);
                lemma_mul_is_associative(a, a, b * b);
            }
            assert((f * f) * (p * p) <= y * (p * p)) by (nonlinear_arith)
                requires
                    f * f <= y,
                    p > 0,
            ;
            assert(f * p < r + 1) by (nonlinear_arith)
                requires
                    (f * p) * (f * p) < (r + 1) * (r + 1),
            ;
            assert(r < 0x100_0000 * p) by (nonlinear_arith)
                requires
                    r / p < 0x100_0000,
                    p > 0,
            ;
            assert(f < 0x100_0000) by (nonlinear_arith)
                requires
                    f * p < 0x100_0000 * p,
                    p > 0,
            ;
        }
        let m = pack_root(x);
        assert(m <= top);
        if m < top {
            lemma_units_mono(m, top);
        }
    }
}

proof fn lemma_quotient_times(x: nat, d: nat)
    requires
        d > 0,
    ensures
        (x / d) * d <= x,
{
    lemma_fundamental_div_mod(x as int, d as int);
    assert((x / d) * d == d * (x / d)) by (nonlinear_arith);
}

/// How far a boulder reaches: 8 m at most.
pub(crate) proof fn lemma_reach(l: LevelView, w: spec_fn(Wave, F32) -> F32, k: int, pts: Seq<Vec2>, n: nat)
    requires
        l.obstacle_x(k).finite(),
        bounded_wave(w),
        n <= pts.len() <= l.obstacle_points(k),
        forall|i: int| 0 <= i < pts.len() ==> #[trigger] pts[i] == l.obstacle_point(w, k, i),
    ensures
        reach(pts, n).finite(),
        0 <= reach(pts, n).val() <= 8 * pow2(149),
    decreases n,
{
    lemma_units_zero();
    lemma_pow2_pos(149);
    if n > 0 {
        lemma_reach(l, w, k, pts, (n - 1) as nat);
        let p = pts[n - 1];
        assert(p == l.obstacle_point(w, k, n - 1));
        vertices_lie_within(l, w, k, n - 1);
        boulders_are_small(l, w, k);
        lemma2_to64();
        lemma_grain();
        lemma_const(RADIUS_MAX, 0xb0_0000, 8, 0xb000_0000);
        let r = l.obstacle_radius(w, k);
        order_is_by_value(r, fl(RADIUS_MAX));
        order_is_by_value(f_abs(p.x), r);
        order_is_by_value(f_abs(p.y), r);
        lemma_square(p.x);
        lemma_square(p.y);
        let (x, y) = (f_mul(p.x, p.x), f_mul(p.y, p.y));
        let lo = lemma_grid(0, 149);
        let hi = lemma_grid(62, 149);
        assert(0 * pow2(149) == 0) by (nonlinear_arith);
        lemma_add_between(x, y, lo, hi);
        let v = f_add(x, y);
        assert(!v.neg()) by {
            reveal(f_add);
        }
        lemma_root_below(v);
        let far = f_sqrt(v);
        order_is_by_value(reach(pts, (n - 1) as nat), far);
        if far.mag() > 0 {
            lemma_units_mono(0, far.mag());
        }
    }
}

/// The square of what is no more than 5.5 is 31 at most, and not negative.
proof fn lemma_square(x: F32)
    requires
        x.finite(),
        -11 * pow2(149) <= 2 * x.val() <= 11 * pow2(149),
    ensures
        f_mul(x, x).finite(),
        !f_mul(x, x).neg(),
        0 <= f_mul(x, x).val() <= 31 * pow2(149),
{
    lemma_pow2_pos(149);
    let u = pow2(149) as int;
    let lo = lemma_grid(0, 149);
    let hi = lemma_grid(31, 149);
    let v = x.val();
    assert(0 <= v * v <= (31 * u) * u) by (nonlinear_arith)
        requires
            -11 * u <= 2 * v <= 11 * u,
            u > 0,
    ;
    assert((0 * u) * u == 0) by (nonlinear_arith);
    lemma_mul_between(x, x, lo, hi);
    reveal(f_mul);
}

/// A boulder whose slot is not among the three nearest to a deck does not
/// reach it, within five hundred kilometres of the start.
pub proof fn far_boulders_are_far(l: LevelView, w: spec_fn(Wave, F32) -> F32, cx: F32, k: int)
    requires
        bounded_wave(w),
        cx.finite(),
        -0x8_0000 * pow2(149) <= cx.val() <= 0x8_0000 * pow2(149),
        -0x2_0000 <= k <= 0x2_0000,
        !(-1 <= k - f_to_i64(f_round(f_div(cx, fl(OBSTACLE_SPACING)))) <= 1),
    ensures
        !l.boulder_hits(w, cx, k),
{
    lemma2_to64();
    lemma_grain();
    lemma_units_zero();
    lemma_one();
    lemma_pow2_pos(149);
    lemma_pow2_adds(147, 2);
    lemma_pow2_pos(147);
    let (q, u) = (pow2(147) as int, pow2(149) as int);
    let sp = fl(OBSTACLE_SPACING);
    lemma_const(OBSTACLE_SPACING, 0x80_0000, 10, 0x2_0000_0000);
    let (c, s) = (cx.val(), sp.val());
    assert(s == 16 * u);
    lemma_nearest_slot(cx, sp, 16, 0x8_0000);
    let k0 = f_to_i64(f_round(f_div(cx, sp))) as int;
    assert(-0x80_0000 * q <= k * s <= 0x80_0000 * q) by (nonlinear_arith)
        requires
            s == 16 * (4 * q),
            -0x2_0000 <= k <= 0x2_0000,
            q > 0,
    ;
    lemma_times_quarter(k, sp);
    let a = f_mul(f_of_int(k), sp);
    lemma_const(OBSTACLE_JITTER_HI, 0xc0_0000, 7, 0x6000_0000);
    let three = fl(OBSTACLE_JITTER_HI);
    assert(f_neg(three) == fl(OBSTACLE_JITTER_LO));
    let d = draw(l.obstacle_seed(k), 1);
    lemma_either_way(d, three);
    let j = range_of(d, fl(OBSTACLE_JITTER_LO), three);
    order_is_by_value(fl(OBSTACLE_JITTER_LO), j);
    order_is_by_value(j, three);
    lemma_add_quarter(a, j);
    let at = l.obstacle_x(k);
    assert(at == f_add(a, j));
    assert(f_neg(cx).val() == -c);
    lemma_add_quarter(at, f_neg(cx));
    let off = f_sub(at, cx);
    lemma_two_slots(k0, k, s, c);
    match l.obstacle(w, k) {
        Some(ob) => {
            let n = l.obstacle_points(k);
            assert(ob.pts.len() == n);
            lemma_reach(l, w, k, ob.pts, ob.pts.len());
            let r = reach(ob.pts, ob.pts.len());
            lemma_const(PAD_HALF_W, 0xc0_0000, 7, 0x6000_0000);
            let lo = lemma_grid(0, 149);
            let hi = lemma_grid(11, 149);
            let top = lemma_grid(12, 149);
            assert(0 * pow2(149) == 0) by (nonlinear_arith);
            lemma_add_between(r, fl(PAD_HALF_W), lo, hi);
            lemma_add_between(f_add(r, fl(PAD_HALF_W)), fl(ONE), lo, top);
            order_is_by_value(f_abs(off), f_add(f_add(r, fl(PAD_HALF_W)), fl(ONE)));
        },
        None => {},
    }
}

} // verus!
