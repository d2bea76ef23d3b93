//! Laws of how shaft walls rise: step by step from one cave to the next.

use crate::binary32::arith::{f_add, f_div, f_mul, f_neg, f_sub};
use crate::binary32::convert::{
    ceil_int, f_ceil, f_of_int, f_to_usize, frac_part, int_part, one_units, whole,
};
use crate::binary32::facts::{
    lemma_add_between, lemma_mul_between, lemma_pack_ge, lemma_pack_le, lemma_pack_steps,
    lemma_units_mono, lemma_units_zero, order_is_by_value,
};
use crate::binary32::order::{f_eq, f_max};
use crate::binary32::{fl, pack, signed, units, F32};
use crate::cave::{Wave, ONE};
use crate::laws::caves::{
    bounded_wave, lemma_const, lemma_grain, lemma_one, lemma_small_int, the_cave_stays_level,
    the_cave_stays_open, walls_meet_their_edges, CENTER_MAX, WIDTH_MAX, WIDTH_MIN,
};
use crate::laws::clearings::lemma_third;
use crate::level::LevelView;
use crate::shaft::{SHAFT_STEP, V_PERIOD};
use vstd::arithmetic::div_mod::{lemma_fundamental_div_mod, lemma_fundamental_div_mod_converse};
use vstd::arithmetic::power2::{lemma2_to64, lemma_pow2_adds, lemma_pow2_pos, pow2};
use vstd::prelude::*;

verus! {

/// `1/1024` m, in units.
spec fn fine() -> int {
    pow2(139) as int
}

proof fn lemma_fine()
    ensures
        fine() > 0,
        pow2(149) == 1024 * fine(),
        fine() == 1024 * pow2(129),
        pow2(129) > 0,
{
    lemma2_to64();
    lemma_pow2_pos(129);
    lemma_pow2_adds(139, 10);
    lemma_pow2_adds(129, 10);
}

/// The number of `c` steps of `2^e` units, exactly.
pub(crate) proof fn lemma_grid(c: int, e: nat) -> (r: F32)
    requires
        -0x100_0000 < c < 0x100_0000,
        e <= 253,
    ensures
        r.finite(),
        r.val() == c * pow2(e),
        c >= 0 ==> !r.neg(),
{
    let n = if c >= 0 {
        c as nat
    } else {
        (-c) as nat
    };
    lemma_pack_steps(n, e);
    lemma_units_zero();
    let r = signed(c < 0, pack(n * pow2(e), 1));
    if c < 0 {
        assert(c * pow2(e) == -(n * pow2(e))) by (nonlinear_arith)
            requires
                c == -(n as int),
        ;
    }
    r
}

/// A sum is off by a fine step at most.
proof fn lemma_add_fine(a: F32, b: F32)
    requires
        a.finite(),
        b.finite(),
        -0xff_0000 * fine() <= a.val() + b.val() <= 0xff_0000 * fine(),
    ensures
        f_add(a, b).finite(),
        -fine() <= f_add(a, b).val() - (a.val() + b.val()) <= fine(),
{
    lemma_fine();
    let g = fine();
    let s = a.val() + b.val();
    let k = s / g;
    lemma_fundamental_div_mod(s, g);
    assert(k * g <= s <= (k + 1) * g && s - k * g <= g && -0xff_0001 <= k <= 0xff_0000) by (nonlinear_arith)
        requires
            s == g * k + s % g,
            0 <= s % g < g,
            -0xff_0000 * g <= s <= 0xff_0000 * g,
            g > 0,
    ;
    assert((k + 1) * g == k * g + g) by (nonlinear_arith);
    let lo = lemma_grid(k, 139);
    let hi = lemma_grid(k + 1, 139);
    lemma_add_between(a, b, lo, hi);
}

/// A product is off by a fine step at most.
proof fn lemma_mul_fine(a: F32, b: F32)
    requires
        a.finite(),
        b.finite(),
        0 <= a.val() * b.val() <= 0xff_0000 * (fine() * pow2(149)),
    ensures
        f_mul(a, b).finite(),
        -(fine() * pow2(149)) <= f_mul(a, b).val() * pow2(149) - a.val() * b.val() <= fine() * pow2(149),
{
    lemma_fine();
    lemma_pow2_pos(149);
    let (g, u) = (fine(), pow2(149) as int);
    let w = g * u;
    assert(w > 0) by (nonlinear_arith)
        requires
            g > 0,
            u > 0,
            w == g * u,
    ;
    let s = a.val() * b.val();
    let k = s / w;
    lemma_fundamental_div_mod(s, w);
    assert(k * w <= s <= (k + 1) * w && 0 <= k <= 0xff_0000) by (nonlinear_arith)
        requires
            s == w * k + s % w,
            0 <= s % w < w,
            0 <= s <= 0xff_0000 * w,
            w > 0,
    ;
    let lo = lemma_grid(k, 139);
    let hi = lemma_grid(k + 1, 139);
    assert((k * g) * u == k * w && ((k + 1) * g) * u == (k + 1) * w && (k + 1) * w == k * w + w) by (nonlinear_arith)
        requires
            w == g * u,
    ;
    lemma_mul_between(a, b, lo, hi);
    let m = f_mul(a, b).val();
    assert(k * w <= m * u <= (k + 1) * w) by (nonlinear_arith)
        requires
            (k * g) * u == k * w,
            ((k + 1) * g) * u == (k + 1) * w,
            k * g <= m <= (k + 1) * g,
            u > 0,
    ;
}

/// A share `i / n` is off by `2^-20` at most.
proof fn lemma_share_fine(i: int, n: int)
    requires
        0 <= i <= n,
        0 < n <= 29,
    ensures
        ({
            let t = f_div(f_of_int(i), f_of_int(n));
            &&& t.finite()
            &&& 0 <= t.val() <= pow2(149)
            &&& -(n * pow2(129)) <= n * t.val() - i * pow2(149) <= n * pow2(129)
            &&& i == n ==> t == fl(ONE)
        }),
{
    lemma_fine();
    lemma2_to64();
    lemma_one();
    lemma_units_zero();
    lemma_pow2_pos(149);
    reveal(f_div);
    lemma_small_int(i as nat);
    lemma_small_int(n as nat);
    let (u, h) = (pow2(149) as int, pow2(129) as int);
    assert(u == 0x10_0000 * h);
    let k = (i * 0x10_0000) / n;
    lemma_fundamental_div_mod(i * 0x10_0000, n);
    assert(k * n <= i * 0x10_0000 <= (k + 1) * n && 0 <= k <= 0x10_0000) by (nonlinear_arith)
        requires
            i * 0x10_0000 == n * k + (i * 0x10_0000) % n,
            0 <= (i * 0x10_0000) % n < n,
            0 <= i <= n,
            n > 0,
    ;
    let lo = lemma_grid(k, 129);
    let hi = lemma_grid(k + 1, 129);
    let (a, b) = (f_of_int(i), f_of_int(n));
    let num = units(a.mag()) * pow2(149);
    let den = units(b.mag());
    assert(den == n * u && num == (i * u) * u);
    assert(n * u > 0) by (nonlinear_arith)
        requires
            n > 0,
            u > 0,
    ;
    assert((k * h) * (n * u) <= (i * u) * u <= ((k + 1) * h) * (n * u)) by (nonlinear_arith)
        requires
            k * n <= i * 0x10_0000 <= (k + 1) * n,
            u == 0x10_0000 * h,
            h > 0,
    {
        assert((k * h) * (n * u) == (k * n) * (h * u)) by (nonlinear_arith);
        assert(((k + 1) * h) * (n * u) == ((k + 1) * n) * (h * u)) by (nonlinear_arith);
        assert((i * u) * u == (i * 0x10_0000) * (h * u)) by (nonlinear_arith)
            requires
                u == 0x10_0000 * h,
        ;
        let w = h * u;
        assert(w > 0) by (nonlinear_arith)
            requires
                w == h * u,
                u == 0x10_0000 * h,
                h > 0,
        ;
        let (x, y, z) = (k * n, i * 0x10_0000, (k + 1) * n);
        assert(x * w <= y * w <= z * w) by (nonlinear_arith)
            requires
                x <= y <= z,
                w > 0,
        ;
    }
    lemma_pack_ge(num, den, lo.mag());
    lemma_pack_le(num, den, hi.mag());
    let m = pack(num, den);
    if lo.mag() < m {
        lemma_units_mono(lo.mag(), m);
    }
    if m < hi.mag() {
        lemma_units_mono(m, hi.mag());
    }
    assert(num <= units(ONE as nat) * den) by (nonlinear_arith)
        requires
            num == (i * u) * u,
            den == n * u,
            units(ONE as nat) == u,
            i <= n,
            u > 0,
    ;
    lemma_pack_le(num, den, ONE as nat);
    if m < ONE {
        lemma_units_mono(m, ONE as nat);
    }
    let t = f_div(a, b);
    let v = t.val();
    assert(-(n * h) <= n * v - i * u <= n * h) by (nonlinear_arith)
        requires
            k * h <= v <= (k + 1) * h,
            k * n <= i * 0x10_0000 <= (k + 1) * n,
            u == 0x10_0000 * h,
            h > 0,
            n > 0,
    {
        assert(n * (k * h) <= n * v <= n * ((k + 1) * h)) by (nonlinear_arith)
            requires
                k * h <= v <= (k + 1) * h,
                n > 0,
        ;
        assert(n * (k * h) == (k * n) * h) by (nonlinear_arith);
        assert(n * ((k + 1) * h) == (k * n) * h + n * h) by (nonlinear_arith);
        assert(i * u == (i * 0x10_0000) * h) by (nonlinear_arith)
            requires
                u == 0x10_0000 * h,
        ;
        let (x, y) = (k * n, i * 0x10_0000);
        assert((k + 1) * n == x + n) by (nonlinear_arith)
            requires
                x == k * n,
        ;
        assert(x * h <= y * h <= x * h + n * h) by (nonlinear_arith)
            requires
                x <= y <= x + n,
                h > 0,
        ;
    }
    if i == n {
        assert(num >= units(ONE as nat) * den) by (nonlinear_arith)
            requires
                num == (i * u) * u,
                den == n * u,
                units(ONE as nat) == u,
                i == n,
        ;
        lemma_pack_ge(num, den, ONE as nat);
    }
}

pub(crate) proof fn lemma_int(i: int)
    requires
        -0x100_0000 < i < 0x100_0000,
    ensures
        f_of_int(i).finite(),
        f_of_int(i).val() == i * pow2(149),
{
    reveal(f_of_int);
    lemma_units_zero();
    let n = if i >= 0 {
        i as nat
    } else {
        (-i) as nat
    };
    lemma_pack_steps(n, 149);
    if i < 0 {
        assert(i * pow2(149) == -(n * pow2(149))) by (nonlinear_arith)
            requires
                i == -(n as int),
        ;
        assert((-i * one_units()) as nat == n * pow2(149));
    } else if i == 0 {
        assert(i * pow2(149) == 0) by (nonlinear_arith)
            requires
                i == 0,
        ;
    } else {
        assert((i * one_units()) as nat == n * pow2(149));
    }
}

/// How far layer `gap` is lifted: 90 m for each.
pub(crate) proof fn lemma_lift(gap: int)
    requires
        -101 <= gap <= 101,
    ensures
        f_mul(f_of_int(gap), fl(V_PERIOD)).finite(),
        f_mul(f_of_int(gap), fl(V_PERIOD)).val() == 90 * gap * pow2(149),
{
    lemma2_to64();
    lemma_grain();
    lemma_int(gap);
    lemma_const(V_PERIOD, 0xb4_0000, 12, 0xb_4000_0000);
    let u = pow2(149) as int;
    assert(fl(V_PERIOD).val() == 90 * u);
    let r = lemma_grid(90 * gap, 149);
    assert(r.val() * u == f_of_int(gap).val() * fl(V_PERIOD).val()) by (nonlinear_arith)
        requires
            r.val() == (90 * gap) * u,
            f_of_int(gap).val() == gap * u,
            fl(V_PERIOD).val() == 90 * u,
    ;
    lemma_mul_between(f_of_int(gap), fl(V_PERIOD), r, r);
}

impl LevelView {
    /// Where a wall leaves its ceiling, before rounding.
    spec fn exact_bottom(self, w: spec_fn(Wave, F32) -> F32, s: int, gap: int, side: u8) -> int {
        let xe = self.shaft_edge(s, side);
        90 * gap * pow2(149) + self.center(w, xe).val() + self.half_width(w, xe).val()
    }

    /// Where it meets the floor above, before rounding.
    spec fn exact_top(self, w: spec_fn(Wave, F32) -> F32, s: int, gap: int, side: u8) -> int {
        let xe = self.shaft_edge(s, side);
        90 * (gap + 1) * pow2(149) + self.center(w, xe).val() - self.half_width(w, xe).val()
    }
}

/// How high a wall rises, within a few fine steps.
proof fn lemma_rise(l: LevelView, w: spec_fn(Wave, F32) -> F32, s: int, gap: int, side: u8)
    requires
        bounded_wave(w),
        l.shaft_edge(s, side).finite(),
        -100 <= gap <= 100,
    ensures
        ({
            let (bot, top) = (l.wall_bottom(w, s, gap, side), l.wall_top(w, s, gap, side));
            let rise = f_sub(top, bot);
            let (g, u) = (fine(), pow2(149) as int);
            &&& bot.finite() && top.finite() && rise.finite()
            &&& -9200 * u <= bot.val() <= 9200 * u
            &&& 65 * u - 5 * g <= rise.val() <= 85 * u + 5 * g
            &&& -g <= rise.val() - (top.val() - bot.val()) <= g
            &&& -2 * g <= bot.val() - l.exact_bottom(w, s, gap, side) <= 2 * g
            &&& -2 * g <= top.val() - l.exact_top(w, s, gap, side) <= 2 * g
        }),
{
    lemma2_to64();
    lemma_grain();
    lemma_fine();
    let (g, u) = (fine(), pow2(149) as int);
    let xe = l.shaft_edge(s, side);
    the_cave_stays_open(l, w, xe);
    the_cave_stays_level(l, w, xe);
    let (c, h) = (l.center(w, xe), l.half_width(w, xe));
    lemma_const(WIDTH_MIN, 0xa0_0000, 7, 0x5000_0000);
    lemma_const(WIDTH_MAX, 0xc8_0000, 9, 0x1_9000_0000);
    lemma_const(CENTER_MAX, 0xb0_0000, 10, 0x2_c000_0000);
    order_is_by_value(fl(WIDTH_MIN), h);
    order_is_by_value(h, fl(WIDTH_MAX));
    order_is_by_value(f_neg(fl(CENTER_MAX)), c);
    order_is_by_value(c, fl(CENTER_MAX));
    assert(2 * fl(WIDTH_MIN).val() == 5 * u && 2 * fl(WIDTH_MAX).val() == 25 * u && fl(CENTER_MAX).val() == 22 * u);
    lemma_lift(gap);
    lemma_lift(gap + 1);
    let (a, b) = (f_mul(f_of_int(gap), fl(V_PERIOD)), f_mul(f_of_int(gap + 1), fl(V_PERIOD)));
    assert(-9000 * u <= a.val() <= 9000 * u && b.val() == a.val() + 90 * u) by (nonlinear_arith)
        requires
            a.val() == 90 * gap * u,
            b.val() == 90 * (gap + 1) * u,
            -100 <= gap <= 100,
            u > 0,
    ;
    lemma_add_fine(a, c);
    lemma_add_fine(f_add(a, c), h);
    lemma_add_fine(b, c);
    assert(f_neg(h).val() == -h.val());
    lemma_add_fine(f_add(b, c), f_neg(h));
    let bot = f_add(f_add(a, c), h);
    let top = f_sub(f_add(b, c), h);
    assert(f_neg(bot).val() == -bot.val());
    lemma_add_fine(top, f_neg(bot));
}

proof fn lemma_ceil(q: F32)
    requires
        q.finite(),
        !q.neg(),
    ensures
        (ceil_int(q) - 1) * pow2(149) < q.val() <= ceil_int(q) * pow2(149),
{
    lemma_pow2_pos(149);
    let u = pow2(149) as int;
    let v = units(q.mag()) as int;
    let (n, r) = (int_part(q) as int, frac_part(q) as int);
    lemma_fundamental_div_mod(v, u);
    let k = ceil_int(q);
    assert((k - 1) * u < v <= k * u) by (nonlinear_arith)
        requires
            v == u * n + r,
            0 <= r < u,
            k == if r != 0 {
                n + 1
            } else {
                n
            },
    ;
}

/// How many steps a wall takes.
proof fn lemma_steps(rise: F32)
    requires
        rise.finite(),
        65 * pow2(149) - 5 * fine() <= rise.val() <= 85 * pow2(149) + 5 * fine(),
    ensures
        ({
            let n = f_to_usize(f_max(f_ceil(f_div(rise, fl(SHAFT_STEP))), fl(ONE))) as int;
            &&& 22 <= n <= 29
            &&& rise.val() <= 3 * n * pow2(149) + 3 * fine()
            &&& rise.val() >= 3 * (n - 1) * pow2(149) - 3 * fine()
        }),
{
    lemma_fine();
    lemma2_to64();
    lemma_one();
    lemma_units_zero();
    reveal(f_ceil);
    reveal(f_to_usize);
    let (g, u) = (fine(), pow2(149) as int);
    let r = rise.val();
    let k = r / (3 * g);
    lemma_fundamental_div_mod(r, 3 * g);
    assert(3 * (k * g) <= r <= 3 * ((k + 1) * g) && 22000 <= k <= 29200 && k * g + g == (k + 1) * g) by (nonlinear_arith)
        requires
            r == (3 * g) * k + r % (3 * g),
            0 <= r % (3 * g) < 3 * g,
            65 * (1024 * g) - 5 * g <= r <= 85 * (1024 * g) + 5 * g,
            g > 0,
    ;
    let lo = lemma_grid(k, 139);
    let hi = lemma_grid(k + 1, 139);
    lemma_third(rise, lo, hi);
    let q = f_div(rise, fl(SHAFT_STEP));
    assert(q.val() > 0) by (nonlinear_arith)
        requires
            q.val() >= k * g,
            k >= 22000,
            g > 0,
    ;
    assert(r - 3 * q.val() <= 3 * g && 3 * q.val() - r <= 3 * g);
    lemma_ceil(q);
    let i = ceil_int(q);
    assert(22 <= i <= 29) by (nonlinear_arith)
        requires
            (i - 1) * u < q.val() <= i * u,
            u == 1024 * g,
            65 * u - 8 * g <= 3 * q.val() <= 85 * u + 8 * g,
            g > 0,
    ;
    let c = whole(i, false);
    lemma_pack_steps(i as nat, 149);
    assert((i * one_units()) as nat == i as nat * pow2(149));
    lemma_fundamental_div_mod_converse(i * u, u, i, 0);
    assert(c.finite() && !c.neg() && c.val() == i * u);
    assert(c.val() > u) by (nonlinear_arith)
        requires
            c.val() == i * u,
            i >= 22,
            u > 0,
    ;
    order_is_by_value(c, fl(ONE));
    assert(f_max(c, fl(ONE)) == c);
    assert(int_part(c) == i);
    assert(3 * (i - 1) * u - 3 * g <= r <= 3 * i * u + 3 * g) by (nonlinear_arith)
        requires
            -3 * g <= r - 3 * q.val() <= 3 * g,
            (i - 1) * u < q.val() <= i * u,
    ;
}

/// A shaft wall takes 22 to 29 steps, each of them upward and of 3 m at most
/// but for rounding, which adds a hundredth of a metre at the worst; and it
/// ends at the edge of its opening, on the floor above within a hundredth of a
/// metre. This holds out to a hundred layers from the start.
pub proof fn walls_rise(l: LevelView, w: spec_fn(Wave, F32) -> F32, s: int, gap: int, side: u8, i: int)
    requires
        bounded_wave(w),
        l.shaft_edge(s, side).finite(),
        -100 <= gap <= 100,
        0 <= i < l.wall_steps(w, s, gap, side),
    ensures
        ({
            let p = l.wall(w, s, gap, side);
            let n = l.wall_steps(w, s, gap, side);
            let u = pow2(149);
            &&& p.len() == n + 1
            &&& 22 <= n <= 29
            &&& p[i].y.finite() && p[i + 1].y.finite()
            &&& p[i].y.val() < p[i + 1].y.val()
            &&& 100 * (p[i + 1].y.val() - p[i].y.val()) <= 301 * u
            &&& f_eq(p[n as int].x, l.shaft_edge(s, side))
            &&& p[n as int].y.finite()
            &&& -(u as int) <= 100 * (p[n as int].y.val() - l.wall_top(w, s, gap, side).val()) <= u
        }),
{
    lemma_fine();
    lemma_rise(l, w, s, gap, side);
    let (bot, top) = (l.wall_bottom(w, s, gap, side), l.wall_top(w, s, gap, side));
    let rise = f_sub(top, bot);
    lemma_steps(rise);
    let n = l.wall_steps(w, s, gap, side) as int;
    let (g, u, h) = (fine(), pow2(149) as int, pow2(129) as int);
    lemma_height(bot, rise, i, n);
    lemma_height(bot, rise, i + 1, n);
    lemma_height(bot, rise, n, n);
    let (t0, t1) = (f_div(f_of_int(i), f_of_int(n)).val(), f_div(f_of_int(i + 1), f_of_int(n)).val());
    lemma_share_fine(i, n);
    lemma_share_fine(i + 1, n);
    lemma_share_fine(n, n);
    let (y0, y1) = (l.wall_point(w, s, gap, side, i).y.val(), l.wall_point(w, s, gap, side, i + 1).y.val());
    let r = rise.val();
    let b = bot.val();
    // n times the two heights, in square units
    let d = n * (t1 - t0);
    assert(u - 2 * n * h <= d <= u + 2 * n * h) by (nonlinear_arith)
        requires
            -(n * h) <= n * t0 - i * u <= n * h,
            -(n * h) <= n * t1 - (i + 1) * u <= n * h,
            d == n * (t1 - t0),
    ;
    assert(n * ((y1 - y0) * u) <= r * d + n * (4 * (g * u)) && n * ((y1 - y0) * u) >= r * d - n * (4 * (g * u)))
        by (nonlinear_arith)
        requires
            -(2 * (g * u)) <= (y0 - b) * u - r * t0 <= 2 * (g * u),
            -(2 * (g * u)) <= (y1 - b) * u - r * t1 <= 2 * (g * u),
            d == n * (t1 - t0),
            n > 0,
    {
        let e = (y1 - y0) * u - r * (t1 - t0);
        assert(e == ((y1 - b) * u - r * t1) - ((y0 - b) * u - r * t0)) by (nonlinear_arith)
            requires
                e == (y1 - y0) * u - r * (t1 - t0),
        ;
        assert(n * e <= n * (4 * (g * u)) && n * e >= -(n * (4 * (g * u)))) by (nonlinear_arith)
            requires
                -(4 * (g * u)) <= e <= 4 * (g * u),
                n > 0,
        ;
        assert(n * e == n * ((y1 - y0) * u) - r * d) by (nonlinear_arith)
            requires
                e == (y1 - y0) * u - r * (t1 - t0),
                d == n * (t1 - t0),
        ;
    }
    lemma_bounds(r, d, n, g, u, h, y1 - y0);
    // the last height
    let m = f_mul(rise, fl(ONE));
    lemma_exact_end(rise, m);
    lemma_add_fine(bot, m);
    walls_meet_their_edges(l, w, s, side, fl(ONE));
}

/// The ends of a wall lie 90 m higher with every layer, within a hundredth of a
/// metre, and the wall takes as many steps in one layer as in another, or one
/// more or less.
pub proof fn ends_repeat(l: LevelView, w: spec_fn(Wave, F32) -> F32, s: int, gap: int, other: int, side: u8)
    requires
        bounded_wave(w),
        l.shaft_edge(s, side).finite(),
        -100 <= gap <= 100,
        -100 <= other <= 100,
    ensures
        ({
            let u = pow2(149) as int;
            let (a, b) = (l.wall_bottom(w, s, gap, side), l.wall_bottom(w, s, other, side));
            let (c, d) = (l.wall_top(w, s, gap, side), l.wall_top(w, s, other, side));
            let (m, n) = (l.wall_steps(w, s, gap, side), l.wall_steps(w, s, other, side));
            &&& a.finite() && b.finite() && c.finite() && d.finite()
            &&& -u <= 100 * (b.val() - a.val() - 90 * (other - gap) * u) <= u
            &&& -u <= 100 * (d.val() - c.val() - 90 * (other - gap) * u) <= u
            &&& -1 <= n - m <= 1
        }),
{
    lemma_fine();
    lemma_rise(l, w, s, gap, side);
    lemma_rise(l, w, s, other, side);
    let (g, u) = (fine(), pow2(149) as int);
    lemma_layers(gap, other, u);
    let r0 = f_sub(l.wall_top(w, s, gap, side), l.wall_bottom(w, s, gap, side));
    let r1 = f_sub(l.wall_top(w, s, other, side), l.wall_bottom(w, s, other, side));
    lemma_steps(r0);
    lemma_steps(r1);
    let (m, n) = (l.wall_steps(w, s, gap, side) as int, l.wall_steps(w, s, other, side) as int);
    assert(-10 * g <= r1.val() - r0.val() <= 10 * g);
    assert(-1 <= n - m <= 1) by (nonlinear_arith)
        requires
            3 * (m - 1) * u - 3 * g <= r0.val() <= 3 * m * u + 3 * g,
            3 * (n - 1) * u - 3 * g <= r1.val() <= 3 * n * u + 3 * g,
            -10 * g <= r1.val() - r0.val() <= 10 * g,
            u == 1024 * g,
            g > 0,
    ;
}

proof fn lemma_layers(gap: int, other: int, u: int)
    ensures
        90 * other * u == 90 * gap * u + 90 * (other - gap) * u,
        90 * (other + 1) * u == 90 * (gap + 1) * u + 90 * (other - gap) * u,
{
    assert(90 * other * u == 90 * gap * u + 90 * (other - gap) * u) by (nonlinear_arith);
    assert(90 * (other + 1) * u == 90 * (gap + 1) * u + 90 * (other - gap) * u) by (nonlinear_arith);
}

/// A shaft wall is the same wall in every layer, 90 m higher with each: point
/// for point it has the same x, and the height is off by a hundredth of a metre
/// at most. Where rounding gives it a step more in one layer than in another,
/// only its ends repeat.
pub proof fn walls_repeat(l: LevelView, w: spec_fn(Wave, F32) -> F32, s: int, gap: int, other: int, side: u8, i: int)
    requires
        bounded_wave(w),
        l.shaft_edge(s, side).finite(),
        -100 <= gap <= 100,
        -100 <= other <= 100,
        l.wall_steps(w, s, gap, side) == l.wall_steps(w, s, other, side),
        0 <= i <= l.wall_steps(w, s, gap, side),
    ensures
        ({
            let u = pow2(149) as int;
            let (p, q) = (l.wall(w, s, gap, side), l.wall(w, s, other, side));
            &&& p.len() == q.len()
            &&& p[i].x == q[i].x
            &&& p[i].y.finite() && q[i].y.finite()
            &&& -u <= 100 * (q[i].y.val() - p[i].y.val() - 90 * (other - gap) * u) <= u
        }),
{
    lemma_fine();
    let (g, u) = (fine(), pow2(149) as int);
    lemma_exact_height(l, w, s, gap, side, i);
    lemma_exact_height(l, w, s, other, side, i);
    lemma_layers(gap, other, u);
    let t = f_div(f_of_int(i), f_of_int(l.wall_steps(w, s, gap, side) as int)).val();
    let (y0, y1) = (l.wall_point(w, s, gap, side, i).y.val(), l.wall_point(w, s, other, side, i).y.val());
    let (b0, b1) = (l.exact_bottom(w, s, gap, side), l.exact_bottom(w, s, other, side));
    let (t0, t1) = (l.exact_top(w, s, gap, side), l.exact_top(w, s, other, side));
    let lift = 90 * (other - gap) * u;
    assert(b1 == b0 + lift && t1 == t0 + lift);
    let (e0, e1) = (y0 * u - (b0 * (u - t) + t0 * t), y1 * u - (b1 * (u - t) + t1 * t));
    assert((y1 - y0 - lift) * u == e1 - e0) by (nonlinear_arith)
        requires
            b1 == b0 + lift,
            t1 == t0 + lift,
            e0 == y0 * u - (b0 * (u - t) + t0 * t),
            e1 == y1 * u - (b1 * (u - t) + t1 * t),
    ;
    let d = y1 - y0 - lift;
    assert(-10 * g <= d <= 10 * g) by (nonlinear_arith)
        requires
            d * u == e1 - e0,
            -5 * (g * u) <= e0 <= 5 * (g * u),
            -5 * (g * u) <= e1 <= 5 * (g * u),
            u > 0,
    ;
}

/// The height of point `i`, within five fine steps of where it would be without
/// rounding.
proof fn lemma_exact_height(l: LevelView, w: spec_fn(Wave, F32) -> F32, s: int, gap: int, side: u8, i: int)
    requires
        bounded_wave(w),
        l.shaft_edge(s, side).finite(),
        -100 <= gap <= 100,
        0 <= i <= l.wall_steps(w, s, gap, side),
    ensures
        ({
            let u = pow2(149) as int;
            let t = f_div(f_of_int(i), f_of_int(l.wall_steps(w, s, gap, side) as int)).val();
            let y = l.wall_point(w, s, gap, side, i).y;
            let (b, c) = (l.exact_bottom(w, s, gap, side), l.exact_top(w, s, gap, side));
            &&& y.finite()
            &&& -5 * (fine() * u) <= y.val() * u - (b * (u - t) + c * t) <= 5 * (fine() * u)
        }),
{
    lemma_fine();
    lemma_rise(l, w, s, gap, side);
    let (bot, top) = (l.wall_bottom(w, s, gap, side), l.wall_top(w, s, gap, side));
    let rise = f_sub(top, bot);
    lemma_steps(rise);
    let n = l.wall_steps(w, s, gap, side) as int;
    lemma_height(bot, rise, i, n);
    lemma_share_fine(i, n);
    let (g, u) = (fine(), pow2(149) as int);
    let t = f_div(f_of_int(i), f_of_int(n)).val();
    let y = l.wall_point(w, s, gap, side, i).y.val();
    let (b, c) = (l.exact_bottom(w, s, gap, side), l.exact_top(w, s, gap, side));
    let (x, z, r) = (bot.val(), top.val(), rise.val());
    let (db, dc, dr) = (x - b, z - c, r - (z - x));
    let e = (y - x) * u - r * t;
    assert(y * u - (b * (u - t) + c * t) == e + dr * t + db * (u - t) + dc * t) by (nonlinear_arith)
        requires
            db == x - b,
            dc == z - c,
            dr == r - (z - x),
            e == (y - x) * u - r * t,
    ;
    assert(-(g * t) <= dr * t <= g * t) by (nonlinear_arith)
        requires
            -g <= dr <= g,
            t >= 0,
    ;
    assert(-(2 * g * t) <= dc * t <= 2 * g * t) by (nonlinear_arith)
        requires
            -2 * g <= dc <= 2 * g,
            t >= 0,
    ;
    assert(-(2 * g * (u - t)) <= db * (u - t) <= 2 * g * (u - t)) by (nonlinear_arith)
        requires
            -2 * g <= db <= 2 * g,
            t <= u,
    ;
    assert(g * t + 2 * g * t + 2 * g * (u - t) <= 3 * (g * u)) by (nonlinear_arith)
        requires
            0 <= t <= u,
            g > 0,
    ;
}

/// The height of point `i`, within two fine steps.
proof fn lemma_height(bot: F32, rise: F32, i: int, n: int)
    requires
        bot.finite(),
        rise.finite(),
        -9200 * pow2(149) <= bot.val() <= 9200 * pow2(149),
        0 <= rise.val() <= 86 * pow2(149),
        0 <= i <= n,
        0 < n <= 29,
    ensures
        ({
            let t = f_div(f_of_int(i), f_of_int(n));
            let y = f_add(bot, f_mul(rise, t));
            let k = fine() * pow2(149);
            &&& y.finite()
            &&& -(2 * k) <= (y.val() - bot.val()) * pow2(149) - rise.val() * t.val() <= 2 * k
        }),
{
    lemma_fine();
    lemma_pow2_pos(149);
    lemma_product(rise, i, n);
    let (g, u) = (fine(), pow2(149) as int);
    let t = f_div(f_of_int(i), f_of_int(n));
    let m = f_mul(rise, t);
    let (r, v) = (rise.val(), t.val());
    assert(-2 * u <= m.val() <= 87 * u) by (nonlinear_arith)
        requires
            -(g * u) <= m.val() * u - r * v <= g * u,
            0 <= r * v <= (86 * u) * u,
            u == 1024 * g,
            g > 0,
    ;
    lemma_add_fine(bot, m);
    let y = f_add(bot, m);
    let e = y.val() - (bot.val() + m.val());
    assert(-(g * u) <= e * u <= g * u) by (nonlinear_arith)
        requires
            -g <= e <= g,
            u > 0,
    ;
    assert((y.val() - bot.val()) * u == e * u + m.val() * u) by (nonlinear_arith)
        requires
            e == y.val() - (bot.val() + m.val()),
    ;
}

/// A share of the rise, within a fine step.
proof fn lemma_product(rise: F32, i: int, n: int)
    requires
        rise.finite(),
        0 <= rise.val() <= 86 * pow2(149),
        0 <= i <= n,
        0 < n <= 29,
    ensures
        ({
            let t = f_div(f_of_int(i), f_of_int(n));
            let m = f_mul(rise, t);
            let k = fine() * pow2(149);
            &&& m.finite()
            &&& 0 <= rise.val() * t.val() <= (86 * pow2(149)) * pow2(149)
            &&& -k <= m.val() * pow2(149) - rise.val() * t.val() <= k
        }),
{
    lemma_fine();
    lemma_share_fine(i, n);
    let (g, u) = (fine(), pow2(149) as int);
    let (r, v) = (rise.val(), f_div(f_of_int(i), f_of_int(n)).val());
    assert(0 <= r * v <= (86 * u) * u) by (nonlinear_arith)
        requires
            0 <= r <= 86 * u,
            0 <= v <= u,
    ;
    assert((86 * u) * u <= 0xff_0000 * (g * u)) by (nonlinear_arith)
        requires
            u == 1024 * g,
            g > 0,
    ;
    lemma_mul_fine(rise, f_div(f_of_int(i), f_of_int(n)));
}

/// What the bounds on `n` times a step say of the step.
proof fn lemma_bounds(r: int, d: int, n: int, g: int, u: int, h: int, y: int)
    requires
        u == 1024 * g,
        g == 1024 * h,
        h > 0,
        22 <= n <= 29,
        65 * u - 5 * g <= r <= 85 * u + 5 * g,
        r <= 3 * n * u + 3 * g,
        u - 2 * n * h <= d <= u + 2 * n * h,
        n * (y * u) <= r * d + n * (4 * (g * u)),
        n * (y * u) >= r * d - n * (4 * (g * u)),
    ensures
        0 < y,
        100 * y <= 301 * u,
{
    let k = 2 * n * h;
    assert(r * d <= r * u + r * k && r * d >= r * u - r * k) by (nonlinear_arith)
        requires
            u - k <= d <= u + k,
            r >= 0,
    ;
    assert(r * k <= n * (g * u)) by (nonlinear_arith)
        requires
            0 <= r <= 86 * u,
            k == 2 * n * h,
            g == 1024 * h,
            h > 0,
            n > 0,
            u > 0,
    {
        assert(r * k <= (86 * u) * k) by (nonlinear_arith)
            requires
                r <= 86 * u,
                k >= 0,
        ;
        assert((86 * u) * k == (172 * n) * (h * u)) by (nonlinear_arith)
            requires
                k == 2 * n * h,
        ;
        assert(n * (g * u) == (1024 * n) * (h * u)) by (nonlinear_arith)
            requires
                g == 1024 * h,
        ;
        assert(h * u > 0) by (nonlinear_arith)
            requires
                h > 0,
                u > 0,
        ;
        let z = h * u;
        assert((172 * n) * z <= (1024 * n) * z) by (nonlinear_arith)
            requires
                z > 0,
                n > 0,
        ;
    }
    assert(n * y <= r + 5 * (n * g) && n * y >= r - 5 * (n * g)) by (nonlinear_arith)
        requires
            n * (y * u) <= r * u + n * (g * u) + n * (4 * (g * u)),
            n * (y * u) >= r * u - n * (g * u) - n * (4 * (g * u)),
            u > 0,
    {
        let (a, b) = (n * y, n * g);
        assert(n * (y * u) == a * u && n * (g * u) == b * u && n * (4 * (g * u)) == 4 * (b * u)) by (nonlinear_arith)
            requires
                a == n * y,
                b == n * g,
        ;
        assert(a * u <= (r + 5 * b) * u && a * u >= (r - 5 * b) * u) by (nonlinear_arith)
            requires
                a * u <= r * u + b * u + 4 * (b * u),
                a * u >= r * u - b * u - 4 * (b * u),
        ;
        assert(a <= r + 5 * b && a >= r - 5 * b) by (nonlinear_arith)
            requires
                a * u <= (r + 5 * b) * u,
                a * u >= (r - 5 * b) * u,
                u > 0,
        ;
    }
    assert(0 < y) by (nonlinear_arith)
        requires
            n * y >= r - 5 * (n * g),
            r >= 65 * (1024 * g) - 5 * g,
            22 <= n <= 29,
            g > 0,
    ;
    assert(y <= 3 * u + 6 * g) by (nonlinear_arith)
        requires
            n * y <= r + 5 * (n * g),
            r <= 3 * n * u + 3 * g,
            n >= 22,
            g > 0,
    ;
}

/// The whole of a rise is the rise.
proof fn lemma_exact_end(rise: F32, m: F32)
    requires
        rise.finite(),
        m == f_mul(rise, fl(ONE)),
    ensures
        m.finite(),
        m.val() == rise.val(),
{
    lemma_one();
    lemma_mul_between(rise, fl(ONE), rise, rise);
}

} // verus!
