//! Laws of hand-drawn polygons: they come out wound counter-clockwise.

use crate::binary32::arith::{f_mul, f_neg, f_sub};
use crate::binary32::facts::{
    lemma_add_between, lemma_mul_between, lemma_units_zero, order_is_by_value,
};
use crate::binary32::{fl, F32};
use crate::laws::errors::size;
use crate::laws::rises::lemma_grid;
use crate::level::Vec2;
use crate::parse::{area2, draft, parse_level, parse_points, wound};
use crate::text::{lines, split_once, trim, words};
use vstd::arithmetic::div_mod::{lemma_fundamental_div_mod, lemma_mod_self_0, lemma_small_mod};
use vstd::arithmetic::power2::{lemma_pow2_adds, lemma_pow2_pos, pow2};
use vstd::prelude::*;

verus! {

/// A corner, in units.
pub open spec fn corner(v: Vec2) -> (int, int) {
    (v.x.val(), v.y.val())
}

/// The corners of a polygon, in units.
pub open spec fn corners(p: Seq<Vec2>) -> Seq<(int, int)> {
    p.map_values(|v: Vec2| corner(v))
}

/// Twice the signed area between two arms that reach from the origin to `a` and
/// to `b`: positive if `b` is to the left of `a`.
pub open spec fn cross(a: (int, int), b: (int, int)) -> int {
    a.0 * b.1 - b.0 * a.1
}

/// Twice the signed area that a walk along `s` sweeps over, seen from the
/// origin.
pub open spec fn swept(s: Seq<(int, int)>) -> int
    decreases s.len(),
{
    if s.len() < 2 {
        0
    } else {
        swept(s.drop_last()) + cross(s[s.len() - 2], s[s.len() - 1])
    }
}

/// Twice the signed area of the closed polygon `s`: positive if it is wound
/// counter-clockwise.
pub open spec fn twice_area(s: Seq<(int, int)>) -> int {
    if s.len() == 0 {
        0
    } else {
        swept(s) + cross(s.last(), s[0])
    }
}

// ---- Areas ----

proof fn lemma_swept_front(s: Seq<(int, int)>)
    requires
        s.len() >= 2,
    ensures
        swept(s) == cross(s[0], s[1]) + swept(s.drop_first()),
    decreases s.len(),
{
    if s.len() > 2 {
        lemma_swept_front(s.drop_last());
        assert(s.drop_last().drop_first() =~= s.drop_first().drop_last());
        assert(swept(s.drop_first()) == swept(s.drop_first().drop_last()) + cross(
            s[s.len() - 2],
            s[s.len() - 1],
        ));
    } else {
        assert(swept(s.drop_last()) == 0);
        assert(swept(s.drop_first()) == 0);
    }
}

proof fn lemma_swept_back(s: Seq<(int, int)>)
    ensures
        swept(s.reverse()) == -swept(s),
    decreases s.len(),
{
    if s.len() >= 2 {
        let r = s.reverse();
        lemma_swept_front(r);
        assert(r.drop_first() =~= s.drop_last().reverse());
        lemma_swept_back(s.drop_last());
        let (a, b) = (s[s.len() - 2], s[s.len() - 1]);
        assert(cross(b, a) == -cross(a, b));
    }
}

proof fn lemma_swept_joined(a: Seq<(int, int)>, b: Seq<(int, int)>)
    requires
        a.len() > 0,
        b.len() > 0,
    ensures
        swept(a + b) == swept(a) + cross(a.last(), b[0]) + swept(b),
    decreases b.len(),
{
    let s = a + b;
    if b.len() == 1 {
        assert(s.drop_last() =~= a);
    } else {
        lemma_swept_joined(a, b.drop_last());
        assert(s.drop_last() =~= a + b.drop_last());
    }
}

/// A polygon walked the other way has the opposite area.
pub proof fn areas_turn_over(s: Seq<(int, int)>)
    ensures
        twice_area(s.reverse()) == -twice_area(s),
{
    lemma_swept_back(s);
    if s.len() > 0 {
        let (a, b) = (s[0], s.last());
        assert(s.reverse().last() == a && s.reverse()[0] == b);
        assert(cross(a, b) == -cross(b, a));
    }
}

/// The area does not depend on the corner that the walk starts at.
pub proof fn areas_have_no_start(s: Seq<(int, int)>, k: int)
    requires
        0 <= k <= s.len(),
    ensures
        twice_area(s.skip(k) + s.take(k)) == twice_area(s),
{
    let (a, b) = (s.take(k), s.skip(k));
    if 0 < k < s.len() {
        lemma_swept_joined(a, b);
        lemma_swept_joined(b, a);
        assert(a + b =~= s);
    } else if k == 0 {
        assert(b + a =~= s);
    } else {
        assert(b + a =~= s);
    }
}

/// The polygon moved by `d`.
pub open spec fn moved(s: Seq<(int, int)>, d: (int, int)) -> Seq<(int, int)> {
    s.map_values(|c: (int, int)| (c.0 + d.0, c.1 + d.1))
}

proof fn lemma_swept_moved(s: Seq<(int, int)>, d: (int, int))
    requires
        s.len() > 0,
    ensures
        swept(moved(s, d)) == swept(s) + cross(d, s.last()) - cross(d, s[0]),
    decreases s.len(),
{
    if s.len() >= 2 {
        lemma_swept_moved(s.drop_last(), d);
        assert(moved(s, d).drop_last() =~= moved(s.drop_last(), d));
        let (a, b) = (s[s.len() - 2], s[s.len() - 1]);
        lemma_cross_moved(a, b, d);
    }
}

proof fn lemma_cross_moved(a: (int, int), b: (int, int), d: (int, int))
    ensures
        cross((a.0 + d.0, a.1 + d.1), (b.0 + d.0, b.1 + d.1)) == cross(a, b) + cross(d, b) - cross(d, a),
{
    let (p, q, r, s, x, y) = (a.0, a.1, b.0, b.1, d.0, d.1);
    assert((p + x) * (s + y) - (r + x) * (q + y) == (p * s - r * q) + (x * s - r * y) - (x * q - p * y))
        by (nonlinear_arith);
}

/// Nor does it depend on where the polygon lies.
pub proof fn areas_have_no_place(s: Seq<(int, int)>, d: (int, int))
    ensures
        twice_area(moved(s, d)) == twice_area(s),
{
    if s.len() > 0 {
        lemma_swept_moved(s, d);
        lemma_cross_moved(s.last(), s[0], d);
    }
}

// ---- Exact sums ----

/// Every coordinate of `p` is a whole number of steps of `2^e` units, `c` at
/// most in size, and few enough of them that an area of `p` is exact.
pub open spec fn on_grid(p: Seq<Vec2>, e: nat, c: int) -> bool {
    &&& 75 <= e <= 190
    &&& 0 <= c && 2 * p.len() * (c * c) < 0x100_0000
    &&& forall|i: int| 0 <= i < p.len() ==> stepped((#[trigger] p[i]).x, e, c) && stepped(p[i].y, e, c)
}

pub open spec fn stepped(v: F32, e: nat, c: int) -> bool {
    v.finite() && v.val() % (pow2(e) as int) == 0 && size(v.val()) <= c * pow2(e)
}

spec fn steps(v: F32, e: nat) -> int {
    v.val() / (pow2(e) as int)
}

proof fn lemma_steps(v: F32, e: nat, c: int)
    requires
        stepped(v, e, c),
        c >= 0,
    ensures
        v.val() == steps(v, e) * pow2(e),
        size(steps(v, e)) <= c,
{
    lemma_pow2_pos(e);
    let (x, p) = (v.val(), pow2(e) as int);
    let k = steps(v, e);
    lemma_fundamental_div_mod(x, p);
    assert(x == k * p && -c <= k <= c) by (nonlinear_arith)
        requires
            x == p * k,
            -(c * p) <= x <= c * p,
            p > 0,
    ;
}

/// The area that one edge adds, in steps.
spec fn edge_steps(a: Vec2, b: Vec2, e: nat) -> int {
    steps(a.x, e) * steps(b.y, e) - steps(b.x, e) * steps(a.y, e)
}

proof fn lemma_product_steps(a: F32, b: F32, e: nat, c: int)
    requires
        75 <= e <= 190,
        stepped(a, e, c),
        stepped(b, e, c),
        0 <= c,
        2 * (c * c) < 0x100_0000,
    ensures
        f_mul(a, b).finite(),
        f_mul(a, b).val() == (steps(a, e) * steps(b, e)) * pow2((2 * e - 149) as nat),
        size(steps(a, e) * steps(b, e)) <= c * c,
{
    lemma_steps(a, e, c);
    lemma_steps(b, e, c);
    let (k, l) = (steps(a, e), steps(b, e));
    assert(-(c * c) <= k * l <= c * c) by (nonlinear_arith)
        requires
            -c <= k <= c,
            -c <= l <= c,
    ;
    let g = (2 * e - 149) as nat;
    let r = lemma_grid(k * l, g);
    lemma_pow2_adds(e, e);
    lemma_pow2_adds(g, 149);
    let (p, q, u) = (pow2(e) as int, pow2(g) as int, pow2(149) as int);
    assert(r.val() * u == a.val() * b.val()) by (nonlinear_arith)
        requires
            r.val() == (k * l) * q,
            a.val() == k * p,
            b.val() == l * p,
            q * u == p * p,
    {
        assert(((k * l) * q) * u == (k * l) * (q * u)) by (nonlinear_arith);
        assert((k * p) * (l * p) == (k * l) * (p * p)) by (nonlinear_arith);
    }
    lemma_mul_between(a, b, r, r);
}

/// The first `m` edges of a polygon, in steps.
spec fn sum_steps(p: Seq<Vec2>, e: nat, m: nat) -> int
    decreases m,
{
    if m == 0 {
        0
    } else {
        sum_steps(p, e, (m - 1) as nat) + edge_steps(p[m - 1], p[(m as int) % (p.len() as int)], e)
    }
}

proof fn lemma_area_steps(p: Seq<Vec2>, e: nat, c: int, m: nat)
    requires
        on_grid(p, e, c),
        m <= p.len(),
    ensures
        area2(p, m).finite(),
        area2(p, m).val() == sum_steps(p, e, m) * pow2((2 * e - 149) as nat),
        size(sum_steps(p, e, m)) <= 2 * m * (c * c),
    decreases m,
{
    let g = (2 * e - 149) as nat;
    let q = pow2(g) as int;
    if m == 0 {
        lemma_units_zero();
        assert(0 * q == 0 && 2 * 0 * (c * c) == 0) by (nonlinear_arith);
    } else {
        let n = (m - 1) as nat;
        lemma_area_steps(p, e, c, n);
        if m < p.len() {
            lemma_small_mod(m, p.len());
        } else {
            lemma_mod_self_0(p.len() as int);
        }
        let (a, b) = (p[m - 1], p[(m as int) % (p.len() as int)]);
        let k = c * c;
        assert(0 <= k && 2 * k < 0x100_0000 && 2 * m * k < 0x100_0000 && 2 * m * k == 2 * n * k + 2 * k)
            by (nonlinear_arith)
            requires
                k == c * c,
                1 <= m <= p.len(),
                n == m - 1,
                2 * p.len() * k < 0x100_0000,
        ;
        lemma_product_steps(a.x, b.y, e, c);
        lemma_product_steps(b.x, a.y, e, c);
        let (x, y) = (steps(a.x, e) * steps(b.y, e), steps(b.x, e) * steps(a.y, e));
        let (s, t) = (f_mul(a.x, b.y), f_mul(b.x, a.y));
        let r = lemma_grid(x - y, g);
        assert(f_neg(t).val() == -t.val());
        assert(x * q - y * q == (x - y) * q) by (nonlinear_arith);
        lemma_add_between(s, f_neg(t), r, r);
        let d = f_sub(s, t);
        let h = sum_steps(p, e, n);
        let z = lemma_grid(h + (x - y), g);
        assert(h * q + (x - y) * q == (h + (x - y)) * q) by (nonlinear_arith);
        lemma_add_between(area2(p, n), d, z, z);
    }
}

proof fn lemma_sum_is_swept(p: Seq<Vec2>, e: nat, c: int, m: nat)
    requires
        on_grid(p, e, c),
        m < p.len(),
    ensures
        sum_steps(p, e, m) * (pow2(e) * pow2(e)) == swept(corners(p.take((m + 1) as int))),
    decreases m,
{
    let q = (pow2(e) * pow2(e)) as int;
    let s = corners(p.take((m + 1) as int));
    if m == 0 {
        assert(0 * q == 0) by (nonlinear_arith);
    } else {
        let n = (m - 1) as nat;
        lemma_sum_is_swept(p, e, c, n);
        assert(s.drop_last() =~= corners(p.take(m as int)));
        lemma_small_mod(m, p.len());
        lemma_edge(p[m - 1], p[m as int], e, c);
        let (h, k) = (sum_steps(p, e, n), edge_steps(p[m - 1], p[m as int], e));
        assert((h + k) * q == h * q + k * q) by (nonlinear_arith);
    }
}

proof fn lemma_edge(a: Vec2, b: Vec2, e: nat, c: int)
    requires
        stepped(a.x, e, c),
        stepped(a.y, e, c),
        stepped(b.x, e, c),
        stepped(b.y, e, c),
        0 <= c,
    ensures
        edge_steps(a, b, e) * (pow2(e) * pow2(e)) == cross(corner(a), corner(b)),
{
    lemma_steps(a.x, e, c);
    lemma_steps(a.y, e, c);
    lemma_steps(b.x, e, c);
    lemma_steps(b.y, e, c);
    let p = pow2(e) as int;
    let (x, y, z, w) = (steps(a.x, e), steps(a.y, e), steps(b.x, e), steps(b.y, e));
    assert((x * w - z * y) * (p * p) == (x * p) * (w * p) - (z * p) * (y * p)) by (nonlinear_arith);
}

/// Where the sums are exact, the sign of the area that is computed is the sign
/// of the area.
proof fn lemma_sign(p: Seq<Vec2>, e: nat, c: int)
    requires
        on_grid(p, e, c),
        p.len() > 0,
    ensures
        (wound(p) == p.reverse() && twice_area(corners(p)) < 0) || (wound(p) == p && twice_area(corners(p))
            >= 0),
{
    let n = p.len();
    lemma_area_steps(p, e, c, n);
    lemma_sum_is_swept(p, e, c, (n - 1) as nat);
    assert(p.take(n as int) =~= p);
    lemma_mod_self_0(n as int);
    lemma_edge(p[n - 1], p[0], e, c);
    let (h, k) = (sum_steps(p, e, (n - 1) as nat), edge_steps(p[n - 1], p[0], e));
    lemma_pow2_pos(e);
    lemma_pow2_pos((2 * e - 149) as nat);
    let (q, g) = ((pow2(e) * pow2(e)) as int, pow2((2 * e - 149) as nat) as int);
    assert(q > 0) by (nonlinear_arith)
        requires
            q == pow2(e) * pow2(e),
            pow2(e) > 0,
    ;
    let t = h + k;
    assert(sum_steps(p, e, n) == t);
    assert(t * q == h * q + k * q) by (nonlinear_arith)
        requires
            t == h + k,
    ;
    assert(twice_area(corners(p)) == t * q);
    assert((t < 0) == (t * q < 0) && (t < 0) == (t * g < 0)) by (nonlinear_arith)
        requires
            q > 0,
            g > 0,
    ;
    lemma_units_zero();
    order_is_by_value(area2(p, n), fl(0));
}

/// Winding a polygon keeps its corners, in order or in reverse order.
pub proof fn winding_keeps_the_corners(p: Seq<Vec2>)
    ensures
        wound(p) == p || wound(p) == p.reverse(),
{
}

/// A wound polygon runs counter-clockwise around its area, where the area is
/// exact.
pub proof fn wound_polygons_turn_left(p: Seq<Vec2>, e: nat, c: int)
    requires
        on_grid(p, e, c),
    ensures
        twice_area(corners(wound(p))) >= 0,
{
    if p.len() > 0 {
        lemma_sign(p, e, c);
        if wound(p) == p.reverse() {
            areas_turn_over(corners(p));
            assert(corners(p.reverse()) =~= corners(p).reverse());
        }
    } else {
        assert(wound(p).len() == 0);
    }
}

/// Which way a polygon is wound does not depend on the corner that its line
/// starts with: of the same outline, both are turned or neither.
pub proof fn winding_has_no_start(p: Seq<Vec2>, k: int, e: nat, c: int)
    requires
        on_grid(p, e, c),
        0 <= k < p.len(),
    ensures
        ({
            let q = p.skip(k) + p.take(k);
            (wound(p) == p && wound(q) == q) || (wound(p) == p.reverse() && wound(q) == q.reverse())
        }),
{
    let q = p.skip(k) + p.take(k);
    assert(on_grid(q, e, c)) by {
        assert forall|i: int| 0 <= i < q.len() implies stepped((#[trigger] q[i]).x, e, c) && stepped(
            q[i].y,
            e,
            c,
        ) by {
            let j = if i < p.len() - k {
                i + k
            } else {
                i - (p.len() - k)
            };
            assert(q[i] == p[j]);
        }
    }
    lemma_sign(p, e, c);
    lemma_sign(q, e, c);
    areas_have_no_start(corners(p), k);
    assert(corners(q) =~= corners(p).skip(k) + corners(p).take(k));
}

/// The same polygon drawn elsewhere is wound alike.
pub proof fn winding_has_no_place(p: Seq<Vec2>, q: Seq<Vec2>, d: (int, int), e: nat, c: int)
    requires
        on_grid(p, e, c),
        on_grid(q, e, c),
        p.len() > 0,
        corners(q) == moved(corners(p), d),
    ensures
        (wound(p) == p && wound(q) == q) || (wound(p) == p.reverse() && wound(q) == q.reverse()),
{
    assert(corners(p).len() == p.len() && corners(q).len() == q.len());
    lemma_sign(p, e, c);
    lemma_sign(q, e, c);
    areas_have_no_place(corners(p), d);
}

/// A polygon comes out the same whichever way it was drawn, if it has an area.
pub proof fn winding_has_no_direction(p: Seq<Vec2>, e: nat, c: int)
    requires
        on_grid(p, e, c),
        twice_area(corners(p)) != 0,
    ensures
        wound(p.reverse()) == wound(p),
{
    let q = p.reverse();
    assert(p.len() > 0);
    assert(on_grid(q, e, c)) by {
        assert forall|i: int| 0 <= i < q.len() implies stepped((#[trigger] q[i]).x, e, c) && stepped(
            q[i].y,
            e,
            c,
        ) by {
            assert(q[i] == p[p.len() - 1 - i]);
        }
    }
    lemma_sign(p, e, c);
    lemma_sign(q, e, c);
    areas_turn_over(corners(p));
    assert(corners(q) =~= corners(p).reverse());
    assert(q.reverse() =~= p);
}

/// Of a wound triangle the third corner lies to the left of the first side, or
/// on it.
pub proof fn wound_triangles_turn_left(p: Seq<Vec2>, e: nat, c: int)
    requires
        on_grid(p, e, c),
        p.len() == 3,
    ensures
        ({
            let (a, b, d) = (corner(wound(p)[0]), corner(wound(p)[1]), corner(wound(p)[2]));
            (b.0 - a.0) * (d.1 - a.1) - (d.0 - a.0) * (b.1 - a.1) >= 0
        }),
{
    wound_polygons_turn_left(p, e, c);
    let s = corners(wound(p));
    reveal_with_fuel(swept, 4);
    assert(s.len() == 3);
    let (a, b, d) = (s[0], s[1], s[2]);
    assert(s.drop_last()[0] == a && s.drop_last()[1] == b && s.drop_last().len() == 2);
    assert(twice_area(s) == cross(a, b) + cross(b, d) + cross(d, a));
    let (x, y, z, w, v, t) = (a.0, a.1, b.0, b.1, d.0, d.1);
    assert((z - x) * (t - y) - (v - x) * (w - y) == (x * w - z * y) + (z * t - v * w) + (v * y - x * t))
        by (nonlinear_arith);
}

// ---- Level files ----

proof fn lemma_drawn(ls: Seq<Seq<char>>, i: int) -> (p: Seq<Vec2>)
    requires
        0 <= i < draft(ls).polys.len(),
    ensures
        draft(ls).polys[i] == wound(p),
        p.len() >= 3,
    decreases ls.len(),
{
    let before = draft(ls.drop_last());
    if i < before.polys.len() {
        lemma_drawn(ls.drop_last(), i)
    } else {
        let l = trim(ls.last());
        let (k, v) = split_once(l, '=').unwrap();
        parse_points(words(trim(v)))
    }
}

/// Every polygon of a level file has three corners at least and is wound
/// counter-clockwise: the closing edge included, it has no negative area, where
/// the area is exact.
pub proof fn parsed_polygons_turn_left(text: Seq<char>, i: int, e: nat, c: int)
    requires
        parse_level(text).terrain is Some,
        0 <= i < parse_level(text).terrain->0.polys.len(),
    ensures
        parse_level(text).terrain->0.polys[i].len() >= 3,
        on_grid(parse_level(text).terrain->0.polys[i], e, c) ==> twice_area(
            corners(parse_level(text).terrain->0.polys[i]),
        ) >= 0,
{
    lemma_no_terrain_yet(lines(text));
    let q = parse_level(text).terrain->0.polys[i];
    let p = lemma_drawn(lines(text), i);
    if on_grid(q, e, c) {
        assert(on_grid(p, e, c)) by {
            if q != p {
                assert(q == p.reverse());
                assert forall|j: int| 0 <= j < p.len() implies stepped((#[trigger] p[j]).x, e, c) && stepped(
                    p[j].y,
                    e,
                    c,
                ) by {
                    assert(p[j] == q[p.len() - 1 - j]);
                }
            }
        }
        wound_polygons_turn_left(p, e, c);
    }
}

proof fn lemma_no_terrain_yet(ls: Seq<Seq<char>>)
    ensures
        draft(ls).level.terrain is None,
    decreases ls.len(),
{
    if ls.len() > 0 {
        lemma_no_terrain_yet(ls.drop_last());
    }
}

} // verus!
