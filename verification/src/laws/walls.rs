//! Laws of shaft walls: they end where they meet the cave, and run up from
//! there.

use crate::binary32::arith::{f_add, f_div, f_mul, f_neg, f_sub};
use crate::binary32::convert::f_of_int;
use crate::binary32::facts::{
    lemma_add_between, lemma_pack_zero, lemma_units_mono, lemma_units_zero, order_is_by_value,
};
use crate::binary32::order::{f_eq, f_le, f_min};
use crate::binary32::{fl, units, F32};
use crate::cave::{fraction16, Wave, FIVE, ONE, TAU, TWO};
use crate::laws::caves::{
    bounded_wave, lemma_const, lemma_edge, lemma_grain, lemma_one, lemma_scale, lemma_small_int,
    walls_meet_their_edges, WIGGLE_MAX,
};
use crate::laws::clearings::lemma_opening;
use crate::laws::errors::{lemma_huge, one};
use crate::level::LevelView;
use crate::shaft::{wall_envelope, ENVELOPE, WIGGLE_FINE, WIGGLE_WIDE};
use vstd::arithmetic::power2::{lemma2_to64, lemma_pow2_adds, lemma_pow2_pos, pow2};
use vstd::prelude::*;

verus! {

/// At the ends of its run and beyond, a wall shows nothing of its wiggle.
proof fn lemma_no_envelope(t: F32)
    requires
        t.finite(),
        f_le(t, fl(0)) || f_le(fl(ONE), t),
    ensures
        wall_envelope(t).mag() == 0,
{
    lemma_one();
    lemma2_to64();
    lemma_units_zero();
    let x = f_sub(fl(ONE), t);
    assert(!x.nan() && (f_le(fl(ONE), t) ==> x.rank() <= 0)) by {
        reveal(f_add);
        if f_le(fl(ONE), t) {
            order_is_by_value(fl(ONE), t);
            assert(f_neg(t).val() == -t.val());
        }
    }
    let z = f_min(t, x);
    assert(!z.nan() && z.rank() <= 0);
    let d = f_div(z, fl(ENVELOPE));
    assert(!d.nan() && d.rank() <= 0) by {
        reveal(f_div);
        if z.mag() == 0 {
            let e = units(ENVELOPE as nat);
            assert(e > 0) by {
                lemma_units_mono(0, ENVELOPE as nat);
            }
            assert(units(z.mag()) * pow2(149) == 0) by (nonlinear_arith)
                requires
                    units(z.mag()) == 0,
            ;
            lemma_pack_zero(e);
        }
    }
}

/// At either end of its run, and beyond, a shaft wall meets the edge of its
/// opening exactly, as long as its height is not so great that the curves have
/// no argument any more.
pub proof fn walls_end_at_their_edges(l: LevelView, w: spec_fn(Wave, F32) -> F32, s: int, side: u8, t: F32)
    requires
        bounded_wave(w),
        t.finite(),
        f_le(t, fl(0)) || f_le(fl(ONE), t),
        l.shaft_edge(s, side).finite(),
        f_add(f_mul(f_mul(t, fl(TAU)), fl(TWO)), f_mul(fraction16(l.wall_hash(s, side)), fl(TAU))).finite(),
        f_add(
            f_mul(f_mul(t, fl(TAU)), fl(FIVE)),
            f_mul(fraction16(l.wall_hash(s, side) >> 16), fl(TAU)),
        ).finite(),
    ensures
        f_eq(l.wall_x(w, s, side, t), l.shaft_edge(s, side)),
{
    lemma_one();
    lemma2_to64();
    lemma_grain();
    lemma_units_zero();
    lemma_no_envelope(t);
    let h = l.wall_hash(s, side);
    let a = w(
        Wave::Sin,
        f_add(f_mul(f_mul(t, fl(TAU)), fl(TWO)), f_mul(fraction16(h), fl(TAU))),
    );
    let b = w(
        Wave::Sin,
        f_add(f_mul(f_mul(t, fl(TAU)), fl(FIVE)), f_mul(fraction16(h >> 16), fl(TAU))),
    );
    lemma_const(WIGGLE_MAX, 0xa0_0000, 6, 0x2800_0000);
    lemma_const(WIGGLE_WIDE, 0xe6_6666, 5, 0x1ccc_ccc0);
    lemma_const(WIGGLE_FINE, 0xb3_3333, 4, 0xb33_3330);
    lemma_scale(a, fl(WIGGLE_WIDE));
    lemma_scale(b, fl(WIGGLE_FINE));
    let (x, y) = (f_mul(a, fl(WIGGLE_WIDE)), f_mul(b, fl(WIGGLE_FINE)));
    lemma_add_between(x, y, f_neg(fl(WIGGLE_MAX)), fl(WIGGLE_MAX));
    let sum = f_add(x, y);
    let env = wall_envelope(t);
    let z = f_mul(env, sum);
    assert(z.mag() == 0) by {
        reveal(f_mul);
        lemma_pow2_pos(149);
        assert(units(env.mag()) * units(sum.mag()) == 0) by (nonlinear_arith)
            requires
                units(env.mag()) == 0,
        ;
        lemma_pack_zero(pow2(149));
    }
    let edge = l.shaft_edge(s, side);
    assert(z.val() == 0);
    lemma_add_between(edge, z, edge, edge);
    order_is_by_value(f_add(edge, z), edge);
    order_is_by_value(edge, f_add(edge, z));
}

proof fn lemma_zero_over(n: int)
    requires
        0 < n < 0x100_0000,
    ensures
        f_div(f_of_int(0), f_of_int(n)) == fl(0),
{
    lemma_small_int(0);
    lemma_small_int(n as nat);
    lemma_units_zero();
    lemma_pow2_pos(149);
    reveal(f_div);
    reveal(f_of_int);
    let u = pow2(149);
    let e = units(f_of_int(n).mag());
    assert(e == n * u);
    assert(e > 0) by (nonlinear_arith)
        requires
            e == n * u,
            n > 0,
            u > 0,
    ;
    assert(units(0) * u == 0) by (nonlinear_arith)
        requires
            units(0) == 0,
    ;
    lemma_pack_zero(e);
}

/// A wall begins on the ceiling that it rises from, at the edge of its opening.
pub proof fn walls_begin_on_the_ceiling(l: LevelView, w: spec_fn(Wave, F32) -> F32, s: int, gap: int, side: u8)
    requires
        bounded_wave(w),
        l.shaft_edge(s, side).finite(),
        l.wall_bottom(w, s, gap, side).finite(),
        l.wall_top(w, s, gap, side).finite(),
        f_sub(l.wall_top(w, s, gap, side), l.wall_bottom(w, s, gap, side)).finite(),
        0 < l.wall_steps(w, s, gap, side) < 0x100_0000,
    ensures
        l.wall(w, s, gap, side).len() == l.wall_steps(w, s, gap, side) + 1,
        f_eq(l.wall(w, s, gap, side)[0].x, l.shaft_edge(s, side)),
        f_eq(l.wall(w, s, gap, side)[0].y, l.wall_bottom(w, s, gap, side)),
{
    let n = l.wall_steps(w, s, gap, side) as int;
    lemma_zero_over(n);
    lemma_units_zero();
    walls_meet_their_edges(l, w, s, side, fl(0));
    let bot = l.wall_bottom(w, s, gap, side);
    let rise = f_sub(l.wall_top(w, s, gap, side), bot);
    let z = f_mul(rise, fl(0));
    assert(z.mag() == 0) by {
        reveal(f_mul);
        lemma_pow2_pos(149);
        assert(units(rise.mag()) * units(0) == 0) by (nonlinear_arith)
            requires
                units(0) == 0,
        ;
        lemma_pack_zero(pow2(149));
    }
    assert(z.val() == 0);
    lemma_add_between(bot, z, bot, bot);
    order_is_by_value(f_add(bot, z), bot);
    order_is_by_value(bot, f_add(bot, z));
}

/// The cave is open exactly between the walls of a shaft, 9 m apart: a segment
/// that lies between them has neither floor nor ceiling, and any other has both.
/// The shaft of slot `s` opens 50 segments on from the one before, give or take
/// 6.
pub proof fn caves_open_between_walls(l: LevelView, w: spec_fn(Wave, F32) -> F32, s: int, idx: i64, layer: i64)
    requires
        l.shafts,
        -1_000_000 <= l.shaft_open(s) <= 1_000_000,
    ensures
        ({
            let (a, b) = (l.shaft_edge(s, 0), l.shaft_edge(s, 1));
            let between = a.val() <= 3 * idx * one() && 3 * (idx + 1) * one() <= b.val();
            &&& a.finite() && b.finite() && b.val() - a.val() == 9 * one()
            &&& 3 * (50 * s + 29) * one() <= a.val() <= 3 * (50 * s + 41) * one()
            &&& between <==> l.opens(s, idx as int)
            &&& between ==> l.seg_edges(w, idx, layer).len() == 0
            &&& !(exists|t: int| #[trigger] l.opens(t, idx as int)) ==> l.seg_edges(w, idx, layer).len() == 2
        }),
{
    lemma_huge();
    lemma2_to64();
    lemma_pow2_adds(147, 2);
    lemma_pow2_pos(147);
    lemma_edge(l, s, 0);
    lemma_edge(l, s, 1);
    lemma_opening(l, s);
    let (u, g, o, i) = (one(), pow2(147) as int, l.shaft_open(s), idx as int);
    assert(12 * (o + 0) * g == 3 * o * u && 12 * (o + 3) * g == 3 * o * u + 9 * u) by (nonlinear_arith)
        requires
            u == g * 4,
    ;
    assert(3 * (i + 1) * u == 3 * i * u + 3 * u) by (nonlinear_arith);
    lemma_order(o, i, u);
    lemma_order(50 * s + 29, o, u);
    lemma_order(o, 50 * s + 41, u);
}

proof fn lemma_order(o: int, i: int, u: int)
    requires
        u > 0,
    ensures
        o <= i <==> 3 * o * u <= 3 * i * u,
        i <= o + 2 <==> 3 * i * u + 3 * u <= 3 * o * u + 9 * u,
{
    assert(o <= i ==> 3 * o * u <= 3 * i * u) by (nonlinear_arith)
        requires
            u > 0,
    ;
    assert(o > i ==> 3 * o * u > 3 * i * u) by (nonlinear_arith)
        requires
            u > 0,
    ;
    assert(3 * (o + 2) * u == 3 * o * u + 6 * u && 3 * (o + 3) * u == 3 * o * u + 9 * u) by (nonlinear_arith);
    assert(i <= o + 2 ==> 3 * i * u <= 3 * (o + 2) * u) by (nonlinear_arith)
        requires
            u > 0,
    ;
    assert(i >= o + 3 ==> 3 * i * u >= 3 * (o + 3) * u) by (nonlinear_arith)
        requires
            u > 0,
    ;
}

} // verus!
