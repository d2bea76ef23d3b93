//! Laws of clearance: what is built keeps clear of every shaft.

use crate::binary32::arith::{f_abs, f_add, f_div, f_neg, f_sub};
use crate::binary32::convert::{f_floor, f_to_i64, floor_int, frac_part, int_part, one_units, whole};
use crate::binary32::facts::{
    lemma_add_between, lemma_pack_ge, lemma_pack_le, lemma_pack_steps, lemma_units_at,
    lemma_units_mono, lemma_units_zero, order_is_by_value,
};
use crate::binary32::order::f_le;
use crate::binary32::{fl, pack, units, F32};
use crate::cave::SEG_LEN;
use crate::laws::caves::{lemma_const, lemma_edge, lemma_grain, lemma_quarters};
use crate::level::LevelView;
use crate::obstacle::{segment_at, SHAFT_CLEAR};
use vstd::arithmetic::div_mod::{lemma_fundamental_div_mod, lemma_fundamental_div_mod_converse};
use vstd::arithmetic::power2::{lemma2_to64, lemma_pow2_adds, lemma_pow2_pos, pow2};
use vstd::prelude::*;

verus! {

/// `2900000`: how far from the start positions are exact enough.
pub const FAR: u32 = 0x4a31_0080;

/// A third stays between numbers that its exact value lies between.
pub(crate) proof fn lemma_third(a: F32, lo: F32, hi: F32)
    requires
        a.finite(),
        lo.finite(),
        hi.finite(),
        3 * lo.val() <= a.val() <= 3 * hi.val(),
    ensures
        f_div(a, fl(SEG_LEN)).finite(),
        lo.val() <= f_div(a, fl(SEG_LEN)).val() <= hi.val(),
{
    reveal(f_div);
    lemma2_to64();
    lemma_grain();
    lemma_units_zero();
    lemma_pow2_pos(149);
    lemma_const(SEG_LEN, 0xc0_0000, 7, 0x6000_0000);
    let u = pow2(149);
    let d = units(SEG_LEN as nat);
    assert(d == 3 * u);
    let n = units(a.mag()) * u;
    let m = pack(n, d);
    let (l, h) = (units(lo.mag()), units(hi.mag()));
    let v = units(a.mag());
    if a.val() > 0 {
        assert(n <= h * d) by (nonlinear_arith)
            requires
                n == v * u,
                d == 3 * u,
                v <= 3 * h,
        ;
        lemma_pack_le(n, d, hi.mag());
        if m < hi.mag() {
            lemma_units_mono(m, hi.mag());
        }
        if lo.val() > 0 {
            assert(n >= l * d) by (nonlinear_arith)
                requires
                    n == v * u,
                    d == 3 * u,
                    v >= 3 * l,
            ;
            lemma_pack_ge(n, d, lo.mag());
            if lo.mag() < m {
                lemma_units_mono(lo.mag(), m);
            }
        }
    } else if a.val() < 0 {
        assert(n <= l * d) by (nonlinear_arith)
            requires
                n == v * u,
                d == 3 * u,
                v <= 3 * l,
        ;
        lemma_pack_le(n, d, lo.mag());
        if m < lo.mag() {
            lemma_units_mono(m, lo.mag());
        }
        if hi.val() < 0 {
            assert(n >= h * d) by (nonlinear_arith)
                requires
                    n == v * u,
                    d == 3 * u,
                    v >= 3 * h,
            ;
            lemma_pack_ge(n, d, hi.mag());
            if hi.mag() < m {
                lemma_units_mono(hi.mag(), m);
            }
        }
    } else {
        assert(v == 0);
        assert(n == 0) by (nonlinear_arith)
            requires
                n == v * u,
                v == 0,
        ;
        lemma_pack_le(0, d, 0);
    }
}

/// The integer below a number.
proof fn lemma_floor(q: F32)
    requires
        q.finite(),
    ensures
        floor_int(q) * pow2(149) <= q.val() < (floor_int(q) + 1) * pow2(149),
{
    lemma_pow2_pos(149);
    let u = pow2(149) as int;
    let v = units(q.mag()) as int;
    let (n, r) = (int_part(q) as int, frac_part(q) as int);
    lemma_fundamental_div_mod(v, u);
    let k = floor_int(q);
    if q.neg() {
        assert(k * u <= -v < (k + 1) * u) by (nonlinear_arith)
            requires
                v == u * n + r,
                0 <= r < u,
                k == if r != 0 {
                    -n - 1
                } else {
                    -n
                },
        ;
    } else {
        assert(k * u <= v < (k + 1) * u) by (nonlinear_arith)
            requires
                v == u * n + r,
                0 <= r < u,
                k == n,
        ;
    }
}

pub(crate) proof fn lemma_back(i: int, neg: bool)
    requires
        -0x100_0000 < i < 0x100_0000,
    ensures
        f_to_i64(whole(i, neg)) == i,
{
    reveal(f_to_i64);
    lemma_pow2_pos(149);
    lemma_units_zero();
    let u = pow2(149) as int;
    let n = if i >= 0 {
        i as nat
    } else {
        (-i) as nat
    };
    lemma_pack_steps(n, 149);
    lemma_fundamental_div_mod_converse(n * u, u, n as int, 0);
    lemma_fundamental_div_mod_converse(0, u, 0, 0);
    if i > 0 {
        assert((i * one_units()) as nat == n * pow2(149));
    } else if i < 0 {
        assert((-i * one_units()) as nat == n * pow2(149));
    }
}

/// The segment that a place is taken to lie in is the one it lies in, or the
/// next.
pub(crate) proof fn lemma_segment(cx: F32, m: int)
    requires
        cx.finite(),
        -1_000_000 <= m <= 1_000_000,
        (12 * m) * pow2(147) <= cx.val() < (12 * m + 12) * pow2(147),
    ensures
        m <= segment_at(cx) <= m + 1,
{
    reveal(f_floor);
    lemma2_to64();
    lemma_pow2_pos(147);
    lemma_pow2_adds(147, 2);
    let p = pow2(147) as int;
    let u = pow2(149) as int;
    let lo = lemma_quarters(4 * m);
    let hi = lemma_quarters(4 * m + 4);
    assert(3 * lo.val() <= cx.val() <= 3 * hi.val()) by (nonlinear_arith)
        requires
            lo.val() == (4 * m) * p,
            hi.val() == (4 * m + 4) * p,
            (12 * m) * p <= cx.val() < (12 * m + 12) * p,
    ;
    lemma_third(cx, lo, hi);
    let q = f_div(cx, fl(SEG_LEN));
    lemma_floor(q);
    let k = floor_int(q);
    assert(m <= k <= m + 1) by (nonlinear_arith)
        requires
            k * u <= q.val() < (k + 1) * u,
            (4 * m) * p <= q.val() <= (4 * m + 4) * p,
            u == 4 * p,
            p > 0,
    ;
    lemma_back(k, q.neg());
}

/// Where the opening of a shaft begins, give or take six segments.
pub(crate) proof fn lemma_opening(l: LevelView, s: int)
    ensures
        50 * s + 29 <= l.shaft_open(s) <= 50 * s + 41,
{
}

/// What keeps clear of the two shafts that are looked at keeps clear of every
/// shaft: the others are too far.
pub proof fn no_shaft_is_near(l: LevelView, cx: F32, s: int)
    requires
        l.shafts,
        !l.near_shaft(cx),
        cx.finite(),
        f_le(f_abs(cx), fl(FAR)),
        -1_000_000 <= l.shaft_open(s) <= 1_000_000,
    ensures
        !l.by_shaft(cx, s),
{
    lemma2_to64();
    lemma_grain();
    lemma_pow2_pos(147);
    lemma_pow2_adds(147, 2);
    let p = pow2(147) as int;
    let c = cx.val();
    let o = l.shaft_open(s);
    lemma_opening(l, s);
    order_is_by_value(f_abs(cx), fl(FAR));
    lemma_far(p);
    let m = c / (12 * p);
    lemma_fundamental_div_mod(c, 12 * p);
    assert((12 * m) * p <= c < (12 * m + 12) * p && -1_000_000 <= m <= 1_000_000) by (nonlinear_arith)
        requires
            c == (12 * p) * m + c % (12 * p),
            0 <= c % (12 * p) < 12 * p,
            -11_600_000 * p <= c <= 11_600_000 * p,
            p > 0,
    ;
    lemma_segment(cx, m);
    let k = segment_at(cx) as int;
    let s0 = (k - 35) / 50;
    assert(50 * s0 + 35 <= k <= 50 * s0 + 84);
    lemma_edge(l, s, 0);
    lemma_edge(l, s, 1);
    lemma_const(SHAFT_CLEAR, 0x80_0000, 9, 0x1_0000_0000);
    let g = fl(SHAFT_CLEAR);
    assert(g.val() == 32 * p);
    let (a, b) = (l.shaft_edge(s, 0), l.shaft_edge(s, 1));
    let x = lemma_quarters(12 * o - 32);
    let y = lemma_quarters(12 * (o + 3) + 32);
    assert(a.val() - g.val() == x.val() && b.val() + g.val() == y.val()) by (nonlinear_arith)
        requires
            a.val() == 12 * (o + 0) * p,
            b.val() == 12 * (o + 3) * p,
            g.val() == 32 * p,
            x.val() == (12 * o - 32) * p,
            y.val() == (12 * (o + 3) + 32) * p,
    ;
    lemma_add_between(a, f_neg(g), x, x);
    lemma_add_between(b, g, y, y);
    order_is_by_value(f_sub(a, g), cx);
    order_is_by_value(cx, f_add(b, g));
    if s <= s0 - 1 {
        assert(y.val() <= c) by (nonlinear_arith)
            requires
                y.val() == (12 * (o + 3) + 32) * p,
                o <= 50 * s + 41,
                s <= s0 - 1,
                50 * s0 + 35 <= k,
                k <= m + 1,
                (12 * m) * p <= c,
                p > 0,
        {
            assert(12 * (o + 3) + 32 <= 12 * m);
            assert((12 * (o + 3) + 32) * p <= (12 * m) * p) by (nonlinear_arith)
                requires
                    12 * (o + 3) + 32 <= 12 * m,
                    p > 0,
            ;
        }
    } else if s >= s0 + 2 {
        assert(c <= x.val()) by (nonlinear_arith)
            requires
                x.val() == (12 * o - 32) * p,
                o >= 50 * s + 29,
                s >= s0 + 2,
                k <= 50 * s0 + 84,
                m <= k,
                c < (12 * m + 12) * p,
                p > 0,
        {
            assert(12 * m + 12 <= 12 * o - 32);
            assert((12 * m + 12) * p <= (12 * o - 32) * p) by (nonlinear_arith)
                requires
                    12 * m + 12 <= 12 * o - 32,
                    p > 0,
            ;
        }
    }
}

pub(crate) proof fn lemma_far(p: int)
    requires
        p == pow2(147),
    ensures
        fl(FAR).finite(),
        fl(FAR).val() == 11_600_000 * p,
{
    lemma2_to64();
    let r = lemma_quarters(11_600_000);
    lemma_units_at(147, 0xb1_0080);
}

} // verus!
