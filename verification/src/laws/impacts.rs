//! Laws of impacts: what the ship's velocity loses all at once, the hull pays.
//!
//! Everything here is said of the values of the numbers, in whole units of
//! `2^-149`; squares are in square units.

use crate::binary32::arith::{f_add, f_div, f_mul, f_neg, f_sqrt, f_sub};
use crate::binary32::facts::{lemma_units_zero, order_is_by_value};
use crate::binary32::order::f_le;
use crate::binary32::{fl, F32};
use crate::laws::errors::{
    lemma_huge, lemma_product, lemma_quotient, lemma_sum, one, roots_are_near, size,
};
use crate::level::LevelView;
use crate::rules::SimParams;
use crate::run::{ended, hull_cap, park, report, Motion, Park, RunView};
use crate::scenery::Pad;
use crate::slots::Loaded;
use vstd::prelude::*;

verus! {

/// A number between minus a million and a million, about.
pub open spec fn modest(x: F32) -> bool {
    x.finite() && size(x.val()) <= 0x10_0000 * one()
}

/// The square of how much the velocity changed, in square units: the sum of
/// the squares of the changes along either axis.
pub open spec fn change(r: RunView, m: Motion) -> int {
    let (x, y) = (m.vx.val() - r.prev_vx.val(), m.vy.val() - r.prev_vy.val());
    x * x + y * y
}

/// All velocities of a tick are modest.
pub open spec fn modest_flight(r: RunView, m: Motion) -> bool {
    modest(m.vx) && modest(m.vy) && modest(r.prev_vx) && modest(r.prev_vy)
}

/// The square of a rounded difference.
proof fn lemma_squared(a: F32, b: F32)
    requires
        modest(a),
        modest(b),
    ensures
        ({
            let d = f_sub(a, b);
            let p = f_mul(d, d);
            let e = (a.val() - b.val()) * (a.val() - b.val());
            &&& p.finite()
            &&& p.val() >= 0
            &&& 0 <= e <= 0x1000_0000_0000 * (one() * one())
            &&& size(p.val() * one() - e) * 0x20_0000 <= e + 0x20_0000 * one()
        }),
{
    lemma_huge();
    let u = one();
    assert(f_neg(b).val() == -b.val());
    lemma_sum(a, f_neg(b));
    let d = f_sub(a, b);
    let (x, y) = (a.val() - b.val(), d.val());
    let (e, f) = (x * x, y * y);
    assert(0 <= e <= 0x1000_0000_0000 * (u * u)) by (nonlinear_arith)
        requires
            e == x * x,
            -(0x20_0000 * u) <= x <= 0x20_0000 * u,
            u > 0,
    ;
    lemma_near_squares(x, y);
    assert(f >= 0) by (nonlinear_arith)
        requires
            f == y * y,
    ;
    assert(u * u > 0) by (nonlinear_arith)
        requires
            u > 0,
    ;
    lemma_product(d, d);
    let p = f_mul(d, d);
    assert(p.val() >= 0) by {
        reveal(f_mul);
    }
}

/// Numbers that are near have squares that are near.
proof fn lemma_near_squares(x: int, y: int)
    requires
        size(y - x) * 0x100_0000 <= size(x),
    ensures
        size(y * y - x * x) * 0x40_0000 <= x * x,
{
    let d = y - x;
    let (s, t) = (size(x), size(d));
    assert(y * y - x * x == d * (2 * x + d)) by (nonlinear_arith)
        requires
            d == y - x,
    ;
    let z = 2 * x + d;
    assert(size(d * z) <= t * (3 * s)) by (nonlinear_arith)
        requires
            -t <= d <= t,
            -(3 * s) <= z <= 3 * s,
            t >= 0,
            s >= 0,
    {
        let w = 3 * s;
        assert(d * z <= t * w && d * z >= -(t * w)) by (nonlinear_arith)
            requires
                -t <= d <= t,
                -w <= z <= w,
        ;
    }
    assert(t * (3 * s) * 0x40_0000 <= s * s) by (nonlinear_arith)
        requires
            t * 0x100_0000 <= s,
            s >= 0,
            t >= 0,
    ;
    assert(s * s == x * x) by (nonlinear_arith)
        requires
            s == size(x),
            size(x) == x || size(x) == -x,
    ;
}

/// The jump of the velocity is the length of its change.
proof fn lemma_jump(r: RunView, m: Motion)
    requires
        modest_flight(r, m),
    ensures
        ({
            let dx = f_sub(m.vx, r.prev_vx);
            let dy = f_sub(m.vy, r.prev_vy);
            let dv = f_sqrt(f_add(f_mul(dx, dx), f_mul(dy, dy)));
            let e = change(r, m);
            &&& dv.finite()
            &&& dv.val() >= 0
            &&& 0 <= e <= 0x2000_0000_0000 * (one() * one())
            &&& size(dv.val() * dv.val() - e) * 0x4_0000 <= e + 0x10_0000 * one()
        }),
{
    lemma_squared(m.vx, r.prev_vx);
    lemma_squared(m.vy, r.prev_vy);
    let dx = f_sub(m.vx, r.prev_vx);
    let dy = f_sub(m.vy, r.prev_vy);
    let (x, y) = (m.vx.val() - r.prev_vx.val(), m.vy.val() - r.prev_vy.val());
    lemma_root_of_sum(f_mul(dx, dx), f_mul(dy, dy), x * x, y * y);
}

/// The root of the sum of two squares `x` and `y`.
proof fn lemma_root_of_sum(p: F32, q: F32, x: int, y: int)
    requires
        p.finite(),
        q.finite(),
        p.val() >= 0,
        q.val() >= 0,
        0 <= x <= 0x1000_0000_0000 * (one() * one()),
        0 <= y <= 0x1000_0000_0000 * (one() * one()),
        size(p.val() * one() - x) * 0x20_0000 <= x + 0x20_0000 * one(),
        size(q.val() * one() - y) * 0x20_0000 <= y + 0x20_0000 * one(),
    ensures
        ({
            let v = f_sqrt(f_add(p, q));
            &&& v.finite()
            &&& v.val() >= 0
            &&& size(v.val() * v.val() - (x + y)) * 0x4_0000 <= (x + y) + 0x10_0000 * one()
        }),
{
    lemma_huge();
    let u = one();
    let (a, b) = (p.val(), q.val());
    let e = x + y;
    let w = a + b;
    assert(w * u == a * u + b * u) by (nonlinear_arith)
        requires
            w == a + b,
    ;
    assert(u * u >= u) by (nonlinear_arith)
        requires
            u > 0,
    ;
    assert(w <= 0x1000_0000_0000_0000 * u) by (nonlinear_arith)
        requires
            w * u <= 0x4000_0000_0000 * (u * u) + 4 * u,
            u > 0,
            u * u >= u,
    {
        assert(0x4000_0000_0000 * (u * u) + 4 * u <= (0x4000_0000_0004 * u) * u) by (nonlinear_arith)
            requires
                u * u >= u,
        ;
        assert(w <= 0x4000_0000_0004 * u) by (nonlinear_arith)
            requires
                w * u <= (0x4000_0000_0004 * u) * u,
                u > 0,
        ;
    }
    lemma_sum(p, q);
    let s = f_add(p, q);
    roots_are_near(s);
    let (v, z) = (s.val(), s.val() - w);
    assert(v * u == w * u + z * u) by (nonlinear_arith)
        requires
            z == v - w,
    ;
    let t = size(z);
    assert(size(z * u) * 0x100_0000 <= w * u) by (nonlinear_arith)
        requires
            t * 0x100_0000 <= w,
            t == size(z),
            u > 0,
    {
        assert(size(z * u) == t * u) by {
            lemma_size_times(z, u);
        }
        assert((t * 0x100_0000) * u <= w * u) by (nonlinear_arith)
            requires
                t * 0x100_0000 <= w,
                u > 0,
        ;
        assert((t * 0x100_0000) * u == (t * u) * 0x100_0000) by (nonlinear_arith);
    }
}

/// The length of a vector.
pub(crate) proof fn lemma_length(x: F32, y: F32)
    requires
        modest(x),
        modest(y),
    ensures
        ({
            let v = f_sqrt(f_add(f_mul(x, x), f_mul(y, y)));
            let e = x.val() * x.val() + y.val() * y.val();
            &&& v.finite()
            &&& v.val() >= 0
            &&& e >= 0
            &&& size(v.val() * v.val() - e) * 0x4_0000 <= e + 0x10_0000 * one()
        }),
{
    lemma_own_square(x);
    lemma_own_square(y);
    let (a, b) = (x.val(), y.val());
    lemma_root_of_sum(f_mul(x, x), f_mul(y, y), a * a, b * b);
}

proof fn lemma_own_square(x: F32)
    requires
        modest(x),
    ensures
        f_mul(x, x).finite(),
        f_mul(x, x).val() >= 0,
        0 <= x.val() * x.val() <= 0x1000_0000_0000 * (one() * one()),
        size(f_mul(x, x).val() * one() - x.val() * x.val()) * 0x20_0000 <= x.val() * x.val() + 0x20_0000
            * one(),
{
    lemma_huge();
    let (a, u) = (x.val(), one());
    let e = a * a;
    assert(0 <= e <= 0x1000_0000_0000 * (u * u)) by (nonlinear_arith)
        requires
            e == a * a,
            -(0x10_0000 * u) <= a <= 0x10_0000 * u,
            u > 0,
    ;
    assert(u * u > 0) by (nonlinear_arith)
        requires
            u > 0,
    ;
    lemma_product(x, x);
    assert(f_mul(x, x).val() >= 0) by {
        reveal(f_mul);
    }
}

pub(crate) proof fn lemma_size_times(a: int, b: int)
    requires
        b >= 0,
    ensures
        size(a * b) == size(a) * b,
{
    assert((-a) * b == -(a * b)) by (nonlinear_arith);
    if a >= 0 {
        assert(a * b >= 0) by (nonlinear_arith)
            requires
                a >= 0,
                b >= 0,
        ;
    } else {
        assert((-a) * b >= 0) by (nonlinear_arith)
            requires
                a < 0,
                b >= 0,
        ;
    }
}

/// What is near stays near on another scale.
pub(crate) proof fn lemma_scaled(x: int, y: int, k: int, b: int, c: int)
    requires
        c >= 0,
        size(x - y) * k <= b,
    ensures
        size(x * c - y * c) * k <= b * c,
{
    assert((x - y) * c == x * c - y * c) by (nonlinear_arith);
    lemma_size_times(x - y, c);
    let d = size(x - y);
    assert((d * c) * k <= b * c) by (nonlinear_arith)
        requires
            d * k <= b,
            c >= 0,
    ;
}

/// A jump whose square is `e` clearly exceeds `limit`.
pub open spec fn exceeds(e: int, limit: F32) -> bool {
    0x4_0000 * (limit.val() * limit.val()) + 0x10_0000 * one() < 0x3_ffff * e
}

/// A jump whose square is `e` clearly stays below `limit`.
pub open spec fn spares(e: int, limit: F32) -> bool {
    0x4_0001 * e + 0x10_0000 * one() <= 0x4_0000 * (limit.val() * limit.val())
}

/// Impact limits as a ruleset should have them, and modest.
pub open spec fn graded(level: LevelView, rules: SimParams) -> bool {
    &&& modest(rules.crash_dv_soft) && modest(rules.crash_dv_hard)
    &&& 0 <= rules.crash_dv_soft.val() < rules.crash_dv_hard.val()
    &&& modest(hull_cap(level, rules)) && 0 <= hull_cap(level, rules).val()
}

proof fn lemma_larger(a: int, b: int)
    requires
        a * a > b * b,
        a >= 0,
        b >= 0,
    ensures
        a > b,
{
    if a <= b {
        assert(a * a <= b * b) by (nonlinear_arith)
            requires
                0 <= a <= b,
        ;
    }
}

proof fn lemma_no_larger(a: int, b: int)
    requires
        a * a <= b * b,
        a >= 0,
        b >= 0,
    ensures
        a <= b,
{
    if a > b {
        assert(a * a > b * b) by (nonlinear_arith)
            requires
                a > b,
                b >= 0,
        ;
    }
}

/// An impact is a jump of the velocity, as long as the change of the velocity
/// is long, whichever way it points: its square is the sum of the squares of
/// the changes along the two axes, within rounding. It is told with the ship's
/// place and motion. A ship that is whole suffers one if the jump clearly
/// exceeds the soft limit, and none if it clearly stays below.
pub proof fn impacts_measure_the_jump(r: RunView, level: LevelView, rules: SimParams, pads: Seq<Loaded<Pad>>, m: Motion, q: F32)
    requires
        modest_flight(r, m),
        modest(rules.crash_dv_soft),
        0 <= rules.crash_dv_soft.val(),
    ensures
        match report(r, level, rules, pads, m, q).impact {
            Some(i) => {
                &&& !r.crashed
                &&& i.dv.finite() && i.dv.val() > rules.crash_dv_soft.val()
                &&& size(i.dv.val() * i.dv.val() - change(r, m)) * 0x4_0000 <= change(r, m) + 0x10_0000
                    * one()
                &&& !spares(change(r, m), rules.crash_dv_soft)
                &&& i.x == m.x && i.y == m.y && i.vx == m.vx && i.vy == m.vy
                &&& i.rot_re == m.rot_re && i.rot_im == m.rot_im && i.angvel == m.angvel
            },
            None => r.crashed || !exceeds(change(r, m), rules.crash_dv_soft),
        },
{
    lemma_jump(r, m);
    let dx = f_sub(m.vx, r.prev_vx);
    let dy = f_sub(m.vy, r.prev_vy);
    let dv = f_sqrt(f_add(f_mul(dx, dx), f_mul(dy, dy)));
    let soft = rules.crash_dv_soft;
    order_is_by_value(soft, dv);
    let e = change(r, m);
    if exceeds(e, soft) {
        lemma_larger(dv.val(), soft.val());
    }
    if spares(e, soft) {
        lemma_no_larger(dv.val(), soft.val());
    }
}

/// What an impact of `dv` costs, within rounding.
proof fn lemma_damage(dv: F32, soft: F32, hard: F32, cap: F32)
    requires
        dv.finite(),
        modest(soft),
        modest(hard),
        modest(cap),
        0 <= cap.val(),
        0 <= soft.val() < dv.val() <= hard.val(),
    ensures
        ({
            let g = f_mul(f_div(f_sub(dv, soft), f_sub(hard, soft)), cap);
            let (n, d) = (dv.val() - soft.val(), hard.val() - soft.val());
            &&& g.finite()
            &&& g.val() >= 0
            &&& size(g.val() * d - n * cap.val()) * 0x10_0000 <= n * cap.val() + 0x1000_0000_0000 * d
        }),
{
    lemma_huge();
    let u = one();
    assert(f_neg(soft).val() == -soft.val());
    lemma_sum(dv, f_neg(soft));
    lemma_sum(hard, f_neg(soft));
    let (a, b) = (f_sub(dv, soft), f_sub(hard, soft));
    let (num, den) = (a.val(), b.val());
    let (n, d, c) = (dv.val() - soft.val(), hard.val() - soft.val(), cap.val());
    assert(den > 0 && num > 0 && num <= 2 * den);
    lemma_quotient(a, b);
    let ratio = f_div(a, b);
    let t = ratio.val();
    assert(t >= 0) by {
        reveal(f_div);
    }
    assert(t <= 4 * u) by (nonlinear_arith)
        requires
            size(t * den - num * u) * 0x100_0000 <= num * u + 0x80_0000 * den,
            num <= 2 * den,
            den > 0,
            u >= 1,
    {
        assert(t * den * 0x100_0000 <= num * u * 0x100_0000 + num * u + 0x80_0000 * den);
        assert(num * u <= (2 * den) * u) by (nonlinear_arith)
            requires
                num <= 2 * den,
                u >= 1,
        ;
        assert(den <= den * u) by (nonlinear_arith)
            requires
                den > 0,
                u >= 1,
        ;
        assert((2 * den) * u == 2 * (den * u)) by (nonlinear_arith);
        assert((4 * u) * den == 4 * (den * u)) by (nonlinear_arith);
        assert(t * den <= (4 * u) * den);
        assert(t <= 4 * u) by (nonlinear_arith)
            requires
                t * den <= (4 * u) * den,
                den > 0,
        ;
    }
    assert(0 <= t * c <= 0x40_0000 * (u * u)) by (nonlinear_arith)
        requires
            0 <= t <= 4 * u,
            0 <= c <= 0x10_0000 * u,
    ;
    assert(u * u > 0) by (nonlinear_arith)
        requires
            u > 0,
    ;
    lemma_product(ratio, cap);
    let g = f_mul(ratio, cap).val();
    assert(g >= 0) by {
        if g < 0 {
            assert(g * u <= -u) by (nonlinear_arith)
                requires
                    g <= -1,
                    u > 0,
            ;
        }
    }
    lemma_damage_sums(g, t, num, den, n, d, c, u);
}

proof fn lemma_damage_sums(g: int, t: int, num: int, den: int, n: int, d: int, c: int, u: int)
    requires
        u > 0,
        g >= 0,
        t >= 0,
        num > 0,
        den > 0,
        n > 0,
        d > 0,
        0 <= c <= 0x10_0000 * u,
        size(num - n) * 0x100_0000 <= n,
        size(den - d) * 0x100_0000 <= d,
        size(t * den - num * u) * 0x100_0000 <= num * u + 0x80_0000 * den,
        size(g * u - t * c) * 0x100_0000 <= t * c + 0x80_0000 * u,
    ensures
        size(g * d - n * c) * 0x10_0000 <= n * c + 0x1000_0000_0000 * d,
{
    // everything on the scale of u * den
    lemma_scaled(g * u, t * c, 0x100_0000, t * c + 0x80_0000 * u, den);
    lemma_scaled(t * den, num * u, 0x100_0000, num * u + 0x80_0000 * den, c);
    let (a, b, e) = ((g * u) * den, (t * c) * den, (num * u) * c);
    assert((t * den) * c == b) by (nonlinear_arith)
        requires
            b == (t * c) * den,
    ;
    assert((t * c + 0x80_0000 * u) * den == b + 0x80_0000 * (u * den)) by (nonlinear_arith)
        requires
            b == (t * c) * den,
    ;
    assert((num * u + 0x80_0000 * den) * c == e + 0x80_0000 * (den * c)) by (nonlinear_arith)
        requires
            e == (num * u) * c,
    ;
    assert(den * c <= 0x10_0000 * (u * den)) by (nonlinear_arith)
        requires
            c <= 0x10_0000 * u,
            den > 0,
    ;
    let z = u * den;
    assert(z > 0) by (nonlinear_arith)
        requires
            z == u * den,
            u > 0,
            den > 0,
    ;
    assert(e >= 0 && b >= 0) by (nonlinear_arith)
        requires
            e == (num * u) * c,
            b == (t * c) * den,
            num > 0,
            u > 0,
            c >= 0,
            t >= 0,
            den > 0,
    ;
    assert(size(a - e) * 0x40_0000 <= e + 0x800_0000_0000 * z);
    let (x, y) = (g * den, num * c);
    assert(size(x - y) * 0x40_0000 <= y + 0x800_0000_0000 * den) by {
        assert(a == x * u) by (nonlinear_arith)
            requires
                a == (g * u) * den,
                x == g * den,
        ;
        assert(e == y * u) by (nonlinear_arith)
            requires
                e == (num * u) * c,
                y == num * c,
        ;
        assert((x - y) * u == a - e) by (nonlinear_arith)
            requires
                a == x * u,
                e == y * u,
        ;
        lemma_size_times(x - y, u);
        let s = size(x - y);
        assert(s * 0x40_0000 <= y + 0x800_0000_0000 * den) by (nonlinear_arith)
            requires
                (s * u) * 0x40_0000 <= y * u + 0x800_0000_0000 * (u * den),
                u > 0,
        {
            let (l, r) = (s * 0x40_0000, y + 0x800_0000_0000 * den);
            assert(l * u <= r * u) by (nonlinear_arith)
                requires
                    l == s * 0x40_0000,
                    r == y + 0x800_0000_0000 * den,
                    (s * u) * 0x40_0000 <= y * u + 0x800_0000_0000 * (u * den),
            ;
            assert(l <= r) by (nonlinear_arith)
                requires
                    l * u <= r * u,
                    u > 0,
            ;
        }
    }
    lemma_scaled(num, n, 0x100_0000, n, c);
    lemma_scaled(den, d, 0x100_0000, d, g);
    assert(den * g == x && d * g == g * d) by (nonlinear_arith)
        requires
            x == g * den,
    ;
    assert(n * c >= 0 && d * g >= 0) by (nonlinear_arith)
        requires
            n > 0,
            c >= 0,
            d > 0,
            g >= 0,
    ;
}

/// What an impact costs grows evenly with the jump, from nothing at the soft
/// limit to the whole hull at the hard limit, within rounding; and an impact
/// destroys the ship exactly if its jump exceeds the hard limit or it costs all
/// the hull that there is. A destroyed ship is a wreck without a hull; one that
/// is not flies on with what is left, unless a landing mends it.
pub proof fn impacts_are_graded(r: RunView, level: LevelView, rules: SimParams, pads: Seq<Loaded<Pad>>, m: Motion, q: F32)
    requires
        modest_flight(r, m),
        graded(level, rules),
        modest(r.hull),
        0 <= r.hull.val(),
    ensures
        ({
            let told = report(r, level, rules, pads, m, q);
            let e = ended(r, level, rules, pads, m);
            let (soft, hard) = (rules.crash_dv_soft.val(), rules.crash_dv_hard.val());
            let cap = hull_cap(level, rules).val();
            match told.impact {
                Some(i) => {
                    let n = i.dv.val() - soft;
                    &&& i.dv.val() <= hard ==> i.damage.finite() && size(
                        i.damage.val() * (hard - soft) - n * cap,
                    ) * 0x10_0000 <= n * cap + 0x1000_0000_0000 * (hard - soft)
                    &&& i.destroyed == (i.dv.val() > hard || r.hull.val() <= i.damage.val())
                    &&& e.crashed == i.destroyed
                    &&& exceeds(change(r, m), rules.crash_dv_hard) ==> i.destroyed
                    &&& i.destroyed ==> e.hull == fl(0) && park(r, level, rules, pads, m) == Park::Wreck
                    &&& !i.destroyed && !told.landed ==> {
                        let left = r.hull.val() - i.damage.val();
                        &&& e.hull.finite()
                        &&& size(e.hull.val() - left) * 0x100_0000 <= left
                    }
                },
                None => e.crashed == r.crashed && (!told.landed ==> e.hull == r.hull),
            }
        }),
{
    lemma_jump(r, m);
    let dx = f_sub(m.vx, r.prev_vx);
    let dy = f_sub(m.vy, r.prev_vy);
    let dv = f_sqrt(f_add(f_mul(dx, dx), f_mul(dy, dy)));
    let (soft, hard) = (rules.crash_dv_soft, rules.crash_dv_hard);
    let cap = hull_cap(level, rules);
    order_is_by_value(soft, dv);
    order_is_by_value(hard, dv);
    if exceeds(change(r, m), hard) {
        lemma_larger(dv.val(), hard.val());
    }
    if soft.val() < dv.val() <= hard.val() {
        lemma_damage(dv, soft, hard, cap);
        let g = f_mul(f_div(f_sub(dv, soft), f_sub(hard, soft)), cap);
        lemma_left(r.hull, g);
    }
}

/// What is left of a hull.
proof fn lemma_left(a: F32, b: F32)
    requires
        modest(a),
        0 <= a.val(),
        b.finite(),
        0 <= b.val(),
    ensures
        f_le(f_sub(a, b), fl(0)) == (a.val() <= b.val()),
        a.val() > b.val() ==> f_sub(a, b).finite() && size(f_sub(a, b).val() - (a.val() - b.val()))
            * 0x100_0000 <= a.val() - b.val(),
{
    lemma_huge();
    assert(f_neg(b).val() == -b.val());
    if a.val() > b.val() {
        lemma_sum(a, f_neg(b));
        order_is_by_value(f_sub(a, b), fl(0));
    } else {
        reveal(f_add);
        let s = a.val() + f_neg(b).val();
        lemma_units_zero();
    }
    assert(fl(0).val() == 0) by {
        lemma_units_zero();
    }
}

} // verus!
