//! Laws of the cave's segments: they chain without a gap.

use crate::binary32::arith::{f_add, f_mul, f_neg};
use crate::binary32::convert::{f_of_int, one_units};
use crate::binary32::facts::{
    lemma_add_between, lemma_mul_between, lemma_pack_steps, lemma_units_mono, lemma_units_zero,
    order_is_by_value,
};
use crate::binary32::order::f_lt;
use crate::binary32::{fl, F32};
use crate::cave::{Wave, SEG_LEN};
use crate::laws::caves::{
    bounded_wave, lemma_const, lemma_grain, lemma_quarters, the_cave_stays_level,
    the_cave_stays_open, CENTER_MAX, WIDTH_MAX, WIDTH_MIN,
};
use crate::level::LevelView;
use vstd::arithmetic::div_mod::lemma_fundamental_div_mod;
use vstd::arithmetic::power2::{lemma2_to64, lemma_pow2_adds, lemma_pow2_pos, pow2};
use vstd::prelude::*;

verus! {

/// Where segment `seg` begins: at three metres for each.
proof fn lemma_segment_x(seg: int)
    requires
        -1_000_001 <= seg <= 1_000_001,
    ensures
        f_mul(f_of_int(seg), fl(SEG_LEN)).finite(),
        f_mul(f_of_int(seg), fl(SEG_LEN)).val() == (12 * seg) * pow2(147),
        seg == 0 ==> f_mul(f_of_int(seg), fl(SEG_LEN)) == fl(0),
{
    let p = pow2(147) as int;
    lemma_pow2_adds(147, 2);
    lemma2_to64();
    lemma_grain();
    let r = lemma_quarters(12 * seg);
    let n = if seg >= 0 {
        seg as nat
    } else {
        (-seg) as nat
    };
    let a = f_of_int(seg);
    assert(a.finite() && a.val() == seg * pow2(149) && (seg == 0 ==> a == fl(0))) by {
        reveal(f_of_int);
        lemma_units_zero();
        lemma_pack_steps(n, 149);
        assert(n as int * one_units() == n * pow2(149));
        if seg < 0 {
            assert(seg * pow2(149) == -(n * pow2(149))) by (nonlinear_arith)
                requires
                    seg == -(n as int),
            ;
            assert(-seg * one_units() == n * pow2(149));
        } else if seg == 0 {
            assert(seg * pow2(149) == 0) by (nonlinear_arith)
                requires
                    seg == 0,
            ;
        }
    }
    lemma_const(SEG_LEN, 0xc0_0000, 7, 0x6000_0000);
    let c = fl(SEG_LEN);
    assert(c.val() == 12 * p);
    assert(r.val() * pow2(149) == a.val() * c.val()) by (nonlinear_arith)
        requires
            r.val() == (12 * seg) * p,
            a.val() == seg * pow2(149),
            c.val() == 12 * p,
    ;
    lemma_mul_between(a, c, r, r);
    if seg == 0 {
        reveal(f_mul);
        lemma_units_zero();
        let x = f_mul(a, c);
        assert((12 * seg) * p == 0) by (nonlinear_arith)
            requires
                seg == 0,
        ;
        assert(!x.neg());
        if x.mag() > 0 {
            lemma_units_mono(0, x.mag());
        }
    }
}

/// Numbers of the same value are the same, but for the sign of zero.
proof fn lemma_same_number(a: F32, b: F32)
    requires
        a.finite(),
        b.finite(),
        a.val() == b.val(),
        a.val() != 0,
    ensures
        a == b,
{
    lemma_units_zero();
    if a.mag() < b.mag() {
        lemma_units_mono(a.mag(), b.mag());
    } else if b.mag() < a.mag() {
        lemma_units_mono(b.mag(), a.mag());
    }
    assert(a.neg() == b.neg());
}

/// Each segment ends where the next begins, ceiling and floor, out to a
/// million segments from the start; and it begins at three metres for each.
pub proof fn segments_chain(l: LevelView, w: spec_fn(Wave, F32) -> F32, idx: i64)
    requires
        -1_000_000 <= idx <= 1_000_000,
    ensures
        l.segment(w, idx).top_b == l.segment(w, (idx + 1) as i64).top_a,
        l.segment(w, idx).bot_b == l.segment(w, (idx + 1) as i64).bot_a,
        l.segment(w, idx).top_a.x == l.segment(w, idx).bot_a.x,
        l.segment(w, idx).top_a.x.val() == 3 * idx * pow2(149),
        l.segment(w, idx).top_b.x.val() == 3 * (idx + 1) * pow2(149),
{
    let p = pow2(147) as int;
    lemma_pow2_adds(147, 2);
    lemma2_to64();
    lemma_grain();
    let i = idx as int;
    lemma_segment_x(i);
    lemma_segment_x(i + 1);
    lemma_const(SEG_LEN, 0xc0_0000, 7, 0x6000_0000);
    let c = fl(SEG_LEN);
    let x0 = f_mul(f_of_int(i), c);
    let next = f_mul(f_of_int(i + 1), c);
    assert(x0.val() + c.val() == next.val()) by (nonlinear_arith)
        requires
            x0.val() == (12 * i) * p,
            next.val() == (12 * (i + 1)) * p,
            c.val() == 12 * p,
    ;
    lemma_add_between(x0, c, next, next);
    let x1 = f_add(x0, c);
    assert(x1 == next) by {
        lemma_pow2_pos(147);
        if i + 1 != 0 {
            assert(next.val() != 0) by (nonlinear_arith)
                requires
                    next.val() == (12 * (i + 1)) * p,
                    i + 1 != 0,
                    p > 0,
            ;
            lemma_same_number(x1, next);
        } else {
            reveal(f_add);
            assert(x0.val() + c.val() == 0) by (nonlinear_arith)
                requires
                    x0.val() == (12 * i) * p,
                    c.val() == 12 * p,
                    i == -1,
            ;
        }
    }
    assert((12 * i) * p == 3 * i * (4 * p)) by (nonlinear_arith);
    assert((12 * (i + 1)) * p == 3 * (i + 1) * (4 * p)) by (nonlinear_arith);
}

/// The ceiling is above the floor everywhere.
pub proof fn the_ceiling_is_above_the_floor(l: LevelView, w: spec_fn(Wave, F32) -> F32, x: F32)
    requires
        x.finite(),
        !l.endless ==> bounded_wave(w),
    ensures
        f_lt(l.floor_y(w, x), l.ceiling_y(w, x)),
{
    lemma2_to64();
    lemma_grain();
    lemma_pow2_adds(147, 2);
    let p = pow2(147) as int;
    lemma_pow2_pos(147);
    the_cave_stays_open(l, w, x);
    the_cave_stays_level(l, w, x);
    let (c, h) = (l.center(w, x), l.half_width(w, x));
    lemma_const(WIDTH_MIN, 0xa0_0000, 7, 0x5000_0000);
    lemma_const(WIDTH_MAX, 0xc8_0000, 9, 0x1_9000_0000);
    lemma_const(CENTER_MAX, 0xb0_0000, 10, 0x2_c000_0000);
    order_is_by_value(fl(WIDTH_MIN), h);
    order_is_by_value(h, fl(WIDTH_MAX));
    order_is_by_value(f_neg(fl(CENTER_MAX)), c);
    order_is_by_value(c, fl(CENTER_MAX));
    assert(fl(WIDTH_MIN).val() == 10 * p && fl(WIDTH_MAX).val() == 50 * p && fl(CENTER_MAX).val() == 88 * p);
    let k = c.val() / p;
    lemma_fundamental_div_mod(c.val(), p);
    assert(k * p <= c.val() < (k + 1) * p && -89 <= k <= 88) by (nonlinear_arith)
        requires
            c.val() == p * k + c.val() % p,
            0 <= c.val() % p < p,
            -88 * p <= c.val() <= 88 * p,
            p > 0,
    ;
    let above = lemma_quarters(k + 10);
    let below = lemma_quarters(k - 9);
    let hi = lemma_quarters(200);
    let lo = lemma_quarters(-200);
    assert(above.val() == k * p + 10 * p && below.val() == (k + 1) * p - 10 * p && hi.val() == 200 * p && lo.val()
        == -200 * p) by (nonlinear_arith)
        requires
            above.val() == (k + 10) * p,
            below.val() == (k - 9) * p,
            hi.val() == 200 * p,
            lo.val() == -200 * p,
    ;
    lemma_add_between(c, h, above, hi);
    assert(f_neg(h).val() == -h.val());
    lemma_add_between(c, f_neg(h), lo, below);
    assert(below.val() < above.val()) by (nonlinear_arith)
        requires
            above.val() == k * p + 10 * p,
            below.val() == (k + 1) * p - 10 * p,
            p > 0,
    ;
    order_is_by_value(l.floor_y(w, x), l.ceiling_y(w, x));
}

} // verus!
