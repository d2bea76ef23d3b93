//! Laws of shapes: where draws fall, how decks lie, and where ships stand.

use crate::binary32::arith::{f_abs, f_div, f_mul, f_neg, f_sub};
use crate::binary32::convert::{f_of_int, f_round, f_to_i64};
use crate::binary32::facts::{
    lemma_mul_between, lemma_units_at, lemma_units_zero, order_is_by_value,
};
use crate::binary32::order::{f_le, f_max};
use crate::binary32::{fl, F32};
use crate::cave::Wave;
use crate::laws::caves::{lemma_const, lemma_grain};
use crate::laws::distances::lemma_div_between;
use crate::laws::errors::{lemma_huge, lemma_product, lemma_sum, one, size};
use crate::laws::landings::{lemma_near_sum, nearby};
use crate::laws::rises::{lemma_grid, lemma_int};
use crate::level::LevelView;
use crate::pad::{deck_point, raised, PadSpec, DECK_LIFT, DECK_SAMPLE, NEG_INF, PAD_HALF_W, STAND};
use crate::rng::{range_int_of, range_of, unit_of, TWO_POW_24};
use vstd::arithmetic::div_mod::{
    lemma_fundamental_div_mod, lemma_fundamental_div_mod_converse, lemma_small_mod,
};
use vstd::arithmetic::power2::{lemma2_to64, lemma_pow2_adds, lemma_pow2_pos, pow2};
use vstd::prelude::*;

verus! {

// ---- Draws ----

/// A draw's share: a whole number of 2^24ths.
proof fn lemma_unit(d: u32)
    ensures
        unit_of(d).finite(),
        0x100_0000 * unit_of(d).val() == (d / 256) * one(),
        0 <= unit_of(d).val() < one(),
{
    assert(d >> 8 == d / 256) by (bit_vector);
    let n = (d / 256) as int;
    assert(0 <= n < 0x100_0000);
    lemma_int(n);
    lemma2_to64();
    lemma_units_zero();
    lemma_units_at(150, 0x80_0000);
    lemma_pow2_adds(149, 1);
    lemma_pow2_adds(125, 24);
    lemma_pow2_pos(125);
    let r = lemma_grid(n, 125);
    let b = fl(TWO_POW_24);
    let (u, p) = (one(), pow2(125) as int);
    assert(b.val() == 0x100_0000 * u);
    assert((n * p) * (0x100_0000 * u) == (n * u) * u && 0x100_0000 * (n * p) == n * u) by (nonlinear_arith)
        requires
            u == p * 0x100_0000,
    ;
    lemma_div_between(f_of_int(n), b, r, r);
    assert(0 <= n * p < u) by (nonlinear_arith)
        requires
            0 <= n < 0x100_0000,
            u == p * 0x100_0000,
            p > 0,
    ;
}

/// A draw falls between its bounds as it falls among all draws: the greater, the
/// nearer to the upper bound. The low 8 bits do not count.
pub proof fn draws_spread_evenly(d: u32, a: F32, b: F32)
    requires
        a.finite(),
        b.finite(),
        size(a.val()) <= 100 * one(),
        size(b.val()) <= 100 * one(),
    ensures
        range_of(d, a, b).finite(),
        10_000 * size(
            0x100_0000 * (range_of(d, a, b).val() - a.val()) - (b.val() - a.val()) * (d / 256),
        ) <= 0x100_0000 * one(),
{
    lemma_huge();
    lemma_unit(d);
    let (u, t) = (one(), unit_of(d));
    assert(f_neg(a).val() == -a.val());
    lemma_sum(b, f_neg(a));
    let gap = f_sub(b, a);
    let (g, v, n) = (gap.val(), t.val(), (d / 256) as int);
    assert(-(201 * (u * u)) <= g * v <= 201 * (u * u)) by (nonlinear_arith)
        requires
            -(201 * u) <= g <= 201 * u,
            0 <= v < u,
    ;
    assert(u * u >= 0x1000_0000_0000 * u) by (nonlinear_arith)
        requires
            u >= 0x1000_0000_0000,
    ;
    lemma_product(gap, t);
    let p = f_mul(gap, t);
    lemma_product_share(p.val(), g, v, n, u, b.val() - a.val());
    lemma_sum(a, p);
}

proof fn lemma_product_share(p: int, g: int, v: int, n: int, u: int, e: int)
    requires
        u > 0x1000_0000_0000,
        0 <= v < u,
        0x100_0000 * v == n * u,
        0 <= n < 0x100_0000,
        size(e) <= 200 * u,
        size(g - e) * 0x100_0000 <= size(e),
        size(g * v) <= 201 * (u * u),
        size(p * u - g * v) * 0x100_0000 <= size(g * v) + 0x80_0000 * u,
    ensures
        20_000 * size(0x100_0000 * p - e * n) <= 0x100_0000 * u,
        size(p) <= 202 * u,
{
    let w = u * u;
    assert(w >= 0x1000_0000_0000 * u) by (nonlinear_arith)
        requires
            w == u * u,
            u >= 0x1000_0000_0000,
    ;
    assert(size(p * u - g * v) * 80_000 <= w);
    assert(g * v == e * v + (g - e) * v) by (nonlinear_arith);
    let f = g - e;
    assert(-w <= 80_000 * (f * v) <= w) by (nonlinear_arith)
        requires
            -u <= 80_000 * f <= u,
            0 <= v < u,
            w == u * u,
            u > 0,
    {
        let k = 80_000 * f;
        assert(-(u * u) <= k * v <= u * u) by (nonlinear_arith)
            requires
                -u <= k <= u,
                0 <= v < u,
        ;
        assert(k * v == 80_000 * (f * v)) by (nonlinear_arith)
            requires
                k == 80_000 * f,
        ;
    }
    assert(size(p * u - e * v) * 40_000 <= w);
    assert(0x100_0000 * (e * v) == (e * n) * u) by (nonlinear_arith)
        requires
            0x100_0000 * v == n * u,
    ;
    let q = 0x100_0000 * p - e * n;
    assert(q * u == 0x100_0000 * (p * u) - (e * n) * u) by (nonlinear_arith)
        requires
            q == 0x100_0000 * p - e * n,
    ;
    assert(-(0x100_0000 * u) <= 40_000 * q <= 0x100_0000 * u) by (nonlinear_arith)
        requires
            -(0x100_0000 * w) <= 40_000 * (q * u) <= 0x100_0000 * w,
            w == u * u,
            u > 0,
    ;
    assert(-(202 * u) <= p <= 202 * u) by (nonlinear_arith)
        requires
            -(202 * w) <= p * u <= 202 * w,
            w == u * u,
            u > 0,
    ;
}

/// A whole draw takes each number from `a` to `b` in turn, as draws go up.
pub proof fn whole_draws_go_round(d: u32, a: int, b: int)
    requires
        a <= b,
        d < u32::MAX,
    ensures
        a <= range_int_of(d, a, b) <= b,
        range_int_of((d + 1) as u32, a, b) == if range_int_of(d, a, b) == b {
            a
        } else {
            range_int_of(d, a, b) + 1
        },
        range_int_of(0, a, b) == a,
{
    let n = b - a + 1;
    let q = d as int / n;
    let r = d as int % n;
    lemma_fundamental_div_mod(d as int, n);
    lemma_small_mod(0, n as nat);
    if r == n - 1 {
        assert(d as int + 1 == (q + 1) * n + 0) by (nonlinear_arith)
            requires
                d as int == n * q + r,
                r == n - 1,
        ;
        lemma_fundamental_div_mod_converse(d as int + 1, n, q + 1, 0);
    } else {
        assert(d as int + 1 == q * n + (r + 1)) by (nonlinear_arith)
            requires
                d as int == n * q + r,
        ;
        lemma_fundamental_div_mod_converse(d as int + 1, n, q, r + 1);
    }
}

// ---- Decks ----

/// A deck looks at the floor every half metre, from 3 m to its left to 3 m to
/// its right.
pub proof fn decks_look_across(cx: F32, i: int)
    requires
        nearby(cx),
        0 <= i < 13,
    ensures
        deck_point(cx, i).finite(),
        100 * size(2 * (deck_point(cx, i).val() - cx.val()) - (i - 6) * one()) <= one(),
{
    lemma_huge();
    lemma2_to64();
    lemma_grain();
    lemma_const(PAD_HALF_W, 0xc0_0000, 7, 0x6000_0000);
    lemma_const(DECK_SAMPLE, 0x80_0000, 5, 0x1000_0000);
    lemma_int(i);
    let u = one();
    let h = fl(DECK_SAMPLE);
    let w = fl(PAD_HALF_W);
    assert(2 * h.val() == u);
    let p = pow2(148) as int;
    lemma_pow2_adds(148, 1);
    let r = lemma_grid(i, 148);
    assert((i * u) * h.val() == r.val() * u && 2 * r.val() == i * u) by (nonlinear_arith)
        requires
            2 * h.val() == u,
            r.val() == i * p,
            u == p * 2,
    ;
    lemma_mul_between(f_of_int(i), h, r, r);
    assert(f_neg(w).val() == -w.val());
    lemma_near_sum(cx, f_neg(w));
    let a = f_sub(cx, w);
    let b = f_mul(f_of_int(i), h);
    assert(0 <= i * u <= 12 * u) by (nonlinear_arith)
        requires
            0 <= i < 13,
            u > 0,
    ;
    lemma_near_sum(a, b);
    assert((i - 6) * u == i * u - 6 * u) by (nonlinear_arith);
}

/// What a deck lies on: the floor at one of its first `n` points, and none of
/// them is higher.
proof fn lemma_highest(l: LevelView, w: spec_fn(Wave, F32) -> F32, cx: F32, n: nat) -> (i: int)
    requires
        0 < n <= 13,
        forall|j: int| 0 <= j < 13 ==> nearby(l.floor_y(w, #[trigger] deck_point(cx, j))),
    ensures
        0 <= i < n,
        l.deck_floor(w, cx, n) == l.floor_y(w, deck_point(cx, i)),
        forall|j: int|
            0 <= j < n ==> l.floor_y(w, #[trigger] deck_point(cx, j)).val() <= l.floor_y(
                w,
                deck_point(cx, i),
            ).val(),
    decreases n,
{
    let last = l.floor_y(w, deck_point(cx, n - 1));
    if n == 1 {
        assert(l.deck_floor(w, cx, 0) == fl(NEG_INF));
        assert(nearby(l.floor_y(w, deck_point(cx, 0))));
        assert(f_max(fl(NEG_INF), last) == last);
        0
    } else {
        let i = lemma_highest(l, w, cx, (n - 1) as nat);
        let before = l.floor_y(w, deck_point(cx, i));
        assert(nearby(before) && nearby(last));
        order_is_by_value(before, last);
        if before.val() < last.val() {
            n - 1
        } else {
            i
        }
    }
}

/// A deck lies 10 cm above the highest of the 13 floor points under it.
pub proof fn decks_lie_on_the_highest_floor(l: LevelView, w: spec_fn(Wave, F32) -> F32, cx: F32)
    requires
        forall|j: int| 0 <= j < 13 ==> nearby(l.floor_y(w, #[trigger] deck_point(cx, j))),
    ensures
        l.deck(w, cx).cx == cx,
        l.deck(w, cx).y.finite(),
        forall|j: int|
            0 <= j < 13 ==> 100 * (l.deck(w, cx).y.val() - l.floor_y(w, #[trigger] deck_point(cx, j)).val())
                >= 9 * one(),
        exists|i: int|
            0 <= i < 13 && 100 * (l.deck(w, cx).y.val() - l.floor_y(w, #[trigger] deck_point(cx, i)).val())
                <= 11 * one(),
{
    lemma_huge();
    lemma2_to64();
    lemma_grain();
    lemma_const(DECK_LIFT, 0xcc_cccd, 2, 0x333_3334);
    let i = lemma_highest(l, w, cx, 13);
    let top = l.floor_y(w, deck_point(cx, i));
    assert(nearby(top));
    lemma_near_sum(top, fl(DECK_LIFT));
    assert(100 * (l.deck(w, cx).y.val() - l.floor_y(w, deck_point(cx, i)).val()) <= 11 * one());
}

/// The finish lies as far from the start as the level says, on either side.
pub proof fn finishes_lie_at_the_goal(l: LevelView, w: spec_fn(Wave, F32) -> F32)
    requires
        l.goal_distance.finite(),
    ensures
        l.goal_distance.val() > 0 ==> l.goal_pad(w, 1) is Some && l.goal_pad(w, -1) is Some,
        l.goal_distance.val() <= 0 ==> l.goal_pad(w, 1) is None && l.goal_pad(w, -1) is None,
        match l.goal_pad(w, 1) {
            Some(p) => p.cx.finite() && p.cx.val() == l.goal_distance.val(),
            None => true,
        },
        match l.goal_pad(w, -1) {
            Some(p) => p.cx.finite() && p.cx.val() == -l.goal_distance.val(),
            None => true,
        },
{
    lemma_huge();
    lemma_units_zero();
    order_is_by_value(l.goal_distance, fl(0));
    lemma_int(1);
    lemma_int(-1);
    let g = l.goal_distance;
    let (v, u) = (g.val(), one());
    assert(f_neg(g).val() == -v);
    assert(v * (1 * u) == v * u && v * (-1 * u) == (-v) * u) by (nonlinear_arith);
    lemma_mul_between(g, f_of_int(1), g, g);
    lemma_mul_between(g, f_of_int(-1), f_neg(g), f_neg(g));
}

// ---- Standing ----

/// The pad is there, and its deck lies over `x`, all but a centimetre.
pub open spec fn under(pad: Option<PadSpec>, x: F32) -> bool {
    pad is Some && 100 * size(pad->0.cx.val() - x.val()) <= 301 * one()
}

proof fn lemma_covering(pad: Option<PadSpec>, x: F32)
    requires
        nearby(x),
        pad is Some ==> nearby(pad->0.cx),
    ensures
        pad is Some && f_le(f_abs(f_sub(pad->0.cx, x)), fl(PAD_HALF_W)) ==> under(pad, x),
        pad is Some && 100 * size(pad->0.cx.val() - x.val()) <= 299 * one() ==> f_le(
            f_abs(f_sub(pad->0.cx, x)),
            fl(PAD_HALF_W),
        ),
{
    lemma_huge();
    lemma2_to64();
    lemma_grain();
    lemma_const(PAD_HALF_W, 0xc0_0000, 7, 0x6000_0000);
    if pad is Some {
        let cx = pad->0.cx;
        assert(f_neg(x).val() == -x.val());
        lemma_near_sum(cx, f_neg(x));
        lemma_sum(cx, f_neg(x));
        let d = f_abs(f_sub(cx, x));
        assert(d.finite() && d.val() == size(f_sub(cx, x).val()));
        order_is_by_value(d, fl(PAD_HALF_W));
    }
}

/// `g` is the ground at `x`, or a deck over it.
pub open spec fn footing(l: LevelView, w: spec_fn(Wave, F32) -> F32, x: F32, g: F32) -> bool {
    let p0 = f_to_i64(f_round(f_div(x, l.pad_spacing))) as int;
    ||| g == l.floor_y(w, x)
    ||| under(l.goal_pad(w, 1), x) && g == l.goal_pad(w, 1)->0.y
    ||| under(l.goal_pad(w, -1), x) && g == l.goal_pad(w, -1)->0.y
    ||| exists|p: int| p0 - 1 <= p <= p0 + 1 && under(#[trigger] l.pad(w, p), x) && g == l.pad(w, p)->0.y
}

/// The pads that a ship at `x` may stand on are in reach of the numbers.
pub open spec fn pads_in_reach(l: LevelView, w: spec_fn(Wave, F32) -> F32, x: F32) -> bool {
    let p0 = f_to_i64(f_round(f_div(x, l.pad_spacing))) as int;
    &&& forall|p: int|
        p0 - 1 <= p <= p0 + 1 && (#[trigger] l.pad(w, p)) is Some ==> nearby(l.pad(w, p)->0.cx) && nearby(
            l.pad(w, p)->0.y,
        )
    &&& l.goal_pad(w, 1) is Some ==> nearby(l.goal_pad(w, 1)->0.cx) && nearby(l.goal_pad(w, 1)->0.y)
    &&& l.goal_pad(w, -1) is Some ==> nearby(l.goal_pad(w, -1)->0.cx) && nearby(l.goal_pad(w, -1)->0.y)
}

/// A ship stands with its centre 78 cm above what is under it: the floor, or the
/// highest deck; in a hand-drawn world, the level's own ground.
pub proof fn ships_stand_on_something(l: LevelView, w: spec_fn(Wave, F32) -> F32, x: F32)
    requires
        nearby(x),
        nearby(l.floor_y(w, x)),
        pads_in_reach(l, w, x),
        l.terrain is Some ==> nearby(l.terrain->0.spawn_y),
    ensures
        l.stand(w, x).finite(),
        l.terrain is Some ==> size(100 * (l.stand(w, x).val() - l.terrain->0.spawn_y.val()) - 78 * one())
            <= one(),
        l.terrain is None ==> exists|g: F32| #[trigger]
            footing(l, w, x, g) && g.finite() && size(100 * (l.stand(w, x).val() - g.val()) - 78 * one())
                <= one(),
{
    lemma_huge();
    lemma2_to64();
    lemma_grain();
    lemma_const(STAND, 0xc7_ae14, 5, 0x18f5_c280);
    match l.terrain {
        Some(t) => {
            lemma_near_sum(t.spawn_y, fl(STAND));
        },
        None => {
            let p0 = f_to_i64(f_round(f_div(x, l.pad_spacing))) as int;
            let g0 = l.floor_y(w, x);
            let (a, b, c) = (l.pad(w, p0 - 1), l.pad(w, p0), l.pad(w, p0 + 1));
            let (d, e) = (l.goal_pad(w, 1), l.goal_pad(w, -1));
            lemma_covering(a, x);
            lemma_covering(b, x);
            lemma_covering(c, x);
            lemma_covering(d, x);
            lemma_covering(e, x);
            let g1 = raised(g0, a, x);
            let g2 = raised(g1, b, x);
            let g3 = raised(g2, c, x);
            let g4 = raised(g3, d, x);
            let g5 = raised(g4, e, x);
            assert(footing(l, w, x, g1) && nearby(g1));
            assert(footing(l, w, x, g2) && nearby(g2));
            assert(footing(l, w, x, g3) && nearby(g3));
            assert(footing(l, w, x, g4) && nearby(g4));
            assert(footing(l, w, x, g5) && nearby(g5));
            lemma_near_sum(g5, fl(STAND));
        },
    }
}

} // verus!
