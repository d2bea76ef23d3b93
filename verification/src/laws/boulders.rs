//! Laws of the boulders: they leave room to fly past.

use crate::binary32::arith::{f_abs, f_add, f_div, f_mul, f_neg, f_sub};
use crate::binary32::convert::f_of_int;
use crate::binary32::facts::{
    lemma_add_between, lemma_pack_le, lemma_pack_steps, lemma_units_mono, lemma_units_zero,
    order_is_by_value,
};
use crate::binary32::order::{f_le, f_max, f_min};
use crate::binary32::{fl, pack, significand, step_of, units, F32};
use crate::cave::{Wave, ONE, TAU};
use crate::laws::caves::{
    bounded_wave, grain, lemma_const, lemma_grain, lemma_one, lemma_scale, lemma_small_int,
    ranges_are_kept, the_cave_stays_open, unit_size, WIDTH_MAX, WIDTH_MIN,
};
use crate::level::LevelView;
use crate::obstacle::{
    RADIUS_LEAST, RADIUS_MAX, RADIUS_SHARE, VERTEX_LEAST, VERTEX_TURN_HI, VERTEX_TURN_LO,
    WALL_CLEAR,
};
use crate::rng::{draw, range_of};
use vstd::arithmetic::power2::{
    lemma2_to64, lemma_pow2_adds, lemma_pow2_pos, lemma_pow2_unfold, pow2,
};
use vstd::prelude::*;

verus! {

/// A sum that fits a significand is exact.
proof fn lemma_exact_sum(a: F32, b: F32, c: nat, k: nat)
    requires
        a.finite(),
        b.finite(),
        a.val() + b.val() == c * pow2(k),
        c < 0x100_0000,
        k <= 253,
    ensures
        f_add(a, b).finite(),
        f_add(a, b).val() == a.val() + b.val(),
{
    reveal(f_add);
    lemma_units_zero();
    lemma_pack_steps(c, k);
}

/// A draw between two shares of which the greater is 1.
proof fn lemma_share(d: u32, least: F32, c: nat)
    requires
        least.finite(),
        least.val() >= 0,
        c < 0x100_0000,
        fl(ONE).val() - least.val() == c * pow2(125),
    ensures
        unit_size(range_of(d, least, fl(ONE))),
        range_of(d, least, fl(ONE)).val() >= 0,
{
    lemma_one();
    let a = f_neg(least);
    assert(a.val() == -least.val());
    lemma_exact_sum(fl(ONE), a, c, 125);
    order_is_by_value(least, fl(ONE));
    ranges_are_kept(d, least, fl(ONE));
    let r = range_of(d, least, fl(ONE));
    assert(r.finite());
    order_is_by_value(least, r);
    order_is_by_value(r, fl(ONE));
}

/// A draw between a number and its opposite.
pub(crate) proof fn lemma_either_way(d: u32, off: F32)
    requires
        off.finite(),
        off.val() >= 0,
        step_of(off.mag()) <= 252,
    ensures
        f_le(f_neg(off), range_of(d, f_neg(off), off)),
        f_le(range_of(d, f_neg(off), off), off),
        range_of(d, f_neg(off), off).finite(),
{
    let lo = f_neg(off);
    assert(lo.val() == -off.val());
    assert(f_neg(lo).val() == off.val());
    let (m, s) = (significand(off.mag()), step_of(off.mag()));
    assert(m < 0x100_0000);
    lemma_pow2_unfold(s + 1);
    assert(m * (2 * pow2(s)) == 2 * (m * pow2(s))) by (nonlinear_arith);
    lemma_exact_sum(off, f_neg(lo), m, s + 1);
    order_is_by_value(lo, off);
    ranges_are_kept(d, lo, off);
}

/// The shares of a full turn at which vertices stand.
proof fn lemma_turn_share(i: int, n: int)
    requires
        0 <= i < n <= 9,
    ensures
        unit_size(f_div(f_of_int(i), f_of_int(n))),
{
    let u = pow2(149);
    lemma_pow2_pos(149);
    lemma_small_int(i as nat);
    lemma_small_int(n as nat);
    lemma_one();
    lemma_units_zero();
    reveal(f_div);
    let (a, b) = (f_of_int(i), f_of_int(n));
    let num = units(a.mag()) * u;
    let den = units(b.mag());
    assert(n * u > 0) by (nonlinear_arith)
        requires
            n > 0,
            u > 0,
    ;
    assert(num <= units(ONE as nat) * den) by (nonlinear_arith)
        requires
            num == (i * u) * u,
            units(ONE as nat) == u,
            den == n * u,
            i <= n,
            u > 0,
    ;
    lemma_pack_le(num, den, ONE as nat);
    let r = pack(num, den);
    if r < ONE {
        lemma_units_mono(r, ONE as nat);
    }
}

/// The angle of a vertex is a number.
proof fn lemma_vertex_angle(d: u32, i: int, n: int)
    requires
        0 <= i < n <= 9,
    ensures
        f_add(
            f_mul(f_div(f_of_int(i), f_of_int(n)), fl(TAU)),
            range_of(d, fl(VERTEX_TURN_LO), fl(VERTEX_TURN_HI)),
        ).finite(),
{
    lemma2_to64();
    lemma_grain();
    lemma_const(TAU, 0xc9_0fdb, 8, 0xc90f_db00);
    lemma_const(VERTEX_TURN_HI, 0x80_0000, 4, 0x800_0000);
    lemma_const(0x4100_0000, 0x80_0000, 9, 0x1_0000_0000);
    lemma_turn_share(i, n);
    lemma_scale(f_div(f_of_int(i), f_of_int(n)), fl(TAU));
    let even = f_mul(f_div(f_of_int(i), f_of_int(n)), fl(TAU));
    let turn = range_of(d, fl(VERTEX_TURN_LO), fl(VERTEX_TURN_HI));
    assert(f_neg(fl(VERTEX_TURN_HI)) == fl(VERTEX_TURN_LO));
    lemma_either_way(d, fl(VERTEX_TURN_HI));
    order_is_by_value(fl(VERTEX_TURN_LO), turn);
    order_is_by_value(turn, fl(VERTEX_TURN_HI));
    let hi = fl(0x4100_0000);
    lemma_add_between(even, turn, f_neg(hi), hi);
}

/// A number times a share of it stays below it.
proof fn lemma_part(a: F32, b: F32)
    requires
        a.finite(),
        a.val() >= 0,
        unit_size(b),
    ensures
        f_mul(a, b).finite(),
        -a.val() <= f_mul(a, b).val() <= a.val(),
        b.val() >= 0 ==> f_mul(a, b).val() >= 0,
{
    lemma_scale(b, a);
    reveal(f_mul);
    assert(units(a.mag()) * units(b.mag()) == units(b.mag()) * units(a.mag())) by (nonlinear_arith);
    assert(f_mul(a, b) == f_mul(b, a));
}

proof fn lemma_radius(l: LevelView, w: spec_fn(Wave, F32) -> F32, k: int)
    requires
        l.obstacle_x(k).finite(),
        bounded_wave(w),
    ensures
        l.half_width(w, l.obstacle_x(k)).finite(),
        0 <= l.half_width(w, l.obstacle_x(k)).val() <= fl(WIDTH_MAX).val(),
        f_mul(l.half_width(w, l.obstacle_x(k)), fl(RADIUS_SHARE)).finite(),
        fl(RADIUS_MAX).finite(),
        l.obstacle_radius(w, k).finite(),
        0 <= l.obstacle_radius(w, k).val() <= fl(RADIUS_MAX).val(),
        l.obstacle_radius(w, k).val() <= f_mul(
            l.half_width(w, l.obstacle_x(k)),
            fl(RADIUS_SHARE),
        ).val(),
{
    lemma2_to64();
    lemma_grain();
    lemma_one();
    lemma_units_zero();
    let x = l.obstacle_x(k);
    let hw = l.half_width(w, x);
    the_cave_stays_open(l, w, x);
    lemma_const(WIDTH_MIN, 0xa0_0000, 7, 0x5000_0000);
    lemma_const(WIDTH_MAX, 0xc8_0000, 9, 0x1_9000_0000);
    order_is_by_value(fl(WIDTH_MIN), hw);
    order_is_by_value(hw, fl(WIDTH_MAX));
    lemma_const(RADIUS_SHARE, 0xa6_6666, 5, 0x14cc_ccc0);
    lemma_const(RADIUS_MAX, 0xb0_0000, 8, 0xb000_0000);
    lemma_const(RADIUS_LEAST, 0x99_999a, 4, 0x999_99a0);
    let scaled = f_mul(hw, fl(RADIUS_SHARE));
    lemma_part(hw, fl(RADIUS_SHARE));
    let most = f_min(scaled, fl(RADIUS_MAX));
    order_is_by_value(fl(RADIUS_MAX), scaled);
    lemma_pow2_adds(120, 5);
    assert(0x2000_0000 * grain() - 0x999_99a0 * grain() == 0xb3_3333 * (0x20 * grain())) by (nonlinear_arith);
    let d = draw(l.obstacle_seed(k), 3);
    lemma_share(d, fl(RADIUS_LEAST), 0xb3_3333);
    lemma_scale(range_of(d, fl(RADIUS_LEAST), fl(ONE)), most);
}

/// A boulder's radius is at most 5.5 m, and at most 0.65 of half the height of
/// the cave where it stands.
pub proof fn boulders_are_small(l: LevelView, w: spec_fn(Wave, F32) -> F32, k: int)
    requires
        l.obstacle_x(k).finite(),
        bounded_wave(w),
    ensures
        f_le(fl(0), l.obstacle_radius(w, k)),
        f_le(l.obstacle_radius(w, k), fl(RADIUS_MAX)),
        f_le(
            l.obstacle_radius(w, k),
            f_mul(l.half_width(w, l.obstacle_x(k)), fl(RADIUS_SHARE)),
        ),
{
    lemma_radius(l, w, k);
    lemma_units_zero();
    let r = l.obstacle_radius(w, k);
    order_is_by_value(fl(0), r);
    order_is_by_value(r, fl(RADIUS_MAX));
    order_is_by_value(r, f_mul(l.half_width(w, l.obstacle_x(k)), fl(RADIUS_SHARE)));
}

/// No vertex of a boulder is farther from its centre than the radius, along
/// either axis.
pub proof fn vertices_lie_within(l: LevelView, w: spec_fn(Wave, F32) -> F32, k: int, i: int)
    requires
        l.obstacle_x(k).finite(),
        bounded_wave(w),
        0 <= i < l.obstacle_points(k),
    ensures
        f_le(f_abs(l.obstacle_point(w, k, i).x), l.obstacle_radius(w, k)),
        f_le(f_abs(l.obstacle_point(w, k, i).y), l.obstacle_radius(w, k)),
{
    lemma2_to64();
    lemma_grain();
    lemma_one();
    lemma_radius(l, w, k);
    let seed = l.obstacle_seed(k);
    let n = l.obstacle_points(k);
    assert(6 <= n <= 9);
    let r = l.obstacle_radius(w, k);
    lemma_const(VERTEX_LEAST, 0x99_999a, 5, 0x1333_3340);
    assert(0x2000_0000 * grain() - 0x1333_3340 * grain() == 0x66_6666 * (0x20 * grain())) by (nonlinear_arith);
    let share = range_of(draw(seed, (7 + 2 * i) as nat), fl(VERTEX_LEAST), fl(ONE));
    lemma_share(draw(seed, (7 + 2 * i) as nat), fl(VERTEX_LEAST), 0x66_6666);
    lemma_part(r, share);
    let rad = f_mul(r, share);
    lemma_vertex_angle(draw(seed, (6 + 2 * i) as nat), i, n);
    let ang = f_add(
        f_mul(f_div(f_of_int(i), f_of_int(n)), fl(TAU)),
        range_of(draw(seed, (6 + 2 * i) as nat), fl(VERTEX_TURN_LO), fl(VERTEX_TURN_HI)),
    );
    lemma_part(rad, w(Wave::Cos, ang));
    lemma_part(rad, w(Wave::Sin, ang));
    let p = l.obstacle_point(w, k, i);
    order_is_by_value(f_abs(p.x), r);
    order_is_by_value(f_abs(p.y), r);
}

/// A boulder stands off the centre line by no more than leaves its radius and
/// 1.3 m to the nearer wall.
pub proof fn boulders_leave_a_gap(l: LevelView, w: spec_fn(Wave, F32) -> F32, k: int)
    requires
        l.obstacle_x(k).finite(),
        bounded_wave(w),
    ensures
        ({
            let x = l.obstacle_x(k);
            let room = f_sub(f_sub(l.half_width(w, x), l.obstacle_radius(w, k)), fl(WALL_CLEAR));
            let most = f_max(room, fl(0));
            let off = range_of(draw(l.obstacle_seed(k), 4), f_neg(most), most);
            &&& l.obstacle_y(w, k) == f_add(l.center(w, x), off)
            &&& f_le(f_neg(most), off)
            &&& f_le(off, most)
        }),
{
    lemma2_to64();
    lemma_grain();
    lemma_radius(l, w, k);
    lemma_units_zero();
    let hw = l.half_width(w, l.obstacle_x(k));
    let r = l.obstacle_radius(w, k);
    lemma_const(WIDTH_MAX, 0xc8_0000, 9, 0x1_9000_0000);
    lemma_const(RADIUS_MAX, 0xb0_0000, 8, 0xb000_0000);
    lemma_const(WALL_CLEAR, 0xa6_6666, 6, 0x2999_9980);
    let hi = fl(WIDTH_MAX);
    assert(f_neg(r).val() == -r.val());
    lemma_add_between(hw, f_neg(r), f_neg(hi), hi);
    let left = f_sub(hw, r);
    let top = fl(0x4180_0000);
    lemma_const(0x4180_0000, 0x80_0000, 10, 0x2_0000_0000);
    lemma_add_between(left, f_neg(fl(WALL_CLEAR)), f_neg(top), hi);
    let room = f_sub(left, fl(WALL_CLEAR));
    let most = f_max(room, fl(0));
    order_is_by_value(room, fl(0));
    order_is_by_value(most, hi);
    assert(step_of(most.mag()) <= 252);
    lemma_either_way(draw(l.obstacle_seed(k), 4), most);
}

} // verus!
