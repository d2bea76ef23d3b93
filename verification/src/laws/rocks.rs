//! Laws of solid rock: which points lie inside a hand-drawn polygon.

use crate::binary32::arith::{f_add, f_div, f_mul, f_neg, f_sub};
use crate::binary32::facts::order_is_by_value;
use crate::binary32::F32;
use crate::laws::errors::{lemma_huge, lemma_product, lemma_quotient, lemma_sum, one, size};
use crate::level::Vec2;
use crate::terrain::{crosses, crossings, in_rock, inside};
use vstd::arithmetic::div_mod::{lemma_mod_self_0, lemma_small_mod};
use vstd::prelude::*;

verus! {

/// A polygon drawn from its second corner on: the same corners in the same
/// order.
pub open spec fn from_the_second(poly: Seq<Vec2>) -> Seq<Vec2> {
    poly.drop_first().push(poly[0])
}

/// What is inside a polygon does not depend on the corner it is drawn from.
pub proof fn rock_has_no_start(poly: Seq<Vec2>, p: Vec2)
    requires
        poly.len() > 0,
    ensures
        inside(from_the_second(poly), p) == inside(poly, p),
{
    let n = poly.len();
    let turned = from_the_second(poly);
    lemma_shifted(poly, p, (n - 1) as nat);
    lemma_mod_self_0(n as int);
    if n == 1 {
        lemma_mod_self_0(1);
    } else {
        lemma_small_mod(1, n);
    }
    assert(turned[n - 1] == poly[0]);
    assert(turned[0] == poly[1int % n as int]);
    assert(turned.len() == n);
    assert(crossings(turned, p, n) == crossings(poly, p, n)) by {
        reveal_with_fuel(crossings, 2);
    }
}

/// All edges but the last one count alike.
proof fn lemma_shifted(poly: Seq<Vec2>, p: Vec2, n: nat)
    requires
        n < poly.len(),
    ensures
        crossings(from_the_second(poly), p, n) + crossings(poly, p, 1) == crossings(
            poly,
            p,
            n + 1,
        ),
    decreases n,
{
    if n > 0 {
        lemma_shifted(poly, p, (n - 1) as nat);
        let turned = from_the_second(poly);
        lemma_small_mod(n, poly.len());
        assert(turned[n - 1] == poly[n as int]);
        if n + 1 < poly.len() {
            lemma_small_mod((n + 1) as nat, poly.len());
            assert(turned[n as int] == poly[n as int + 1]);
        } else {
            lemma_mod_self_0(poly.len() as int);
            assert(turned[n as int] == poly[0]);
        }
    } else {
        assert(crossings(from_the_second(poly), p, 0) == 0);
    }
}

/// Rock is where any polygon is: no polygon takes away from another.
pub proof fn rock_adds_up(a: Seq<Seq<Vec2>>, b: Seq<Seq<Vec2>>, poly: Seq<Vec2>, p: Vec2)
    ensures
        in_rock(a + b, p) == (in_rock(a, p) || in_rock(b, p)),
        in_rock(seq![poly], p) == inside(poly, p),
        !in_rock(seq![], p),
{
    if in_rock(a, p) {
        let i = choose|i: int| 0 <= i < a.len() && inside(#[trigger] a[i], p);
        assert((a + b)[i] == a[i]);
    }
    if in_rock(b, p) {
        let i = choose|i: int| 0 <= i < b.len() && inside(#[trigger] b[i], p);
        assert((a + b)[a.len() + i] == b[i]);
    }
    if in_rock(a + b, p) {
        let i = choose|i: int| 0 <= i < (a + b).len() && inside(#[trigger] (a + b)[i], p);
        if i < a.len() {
            assert(a[i] == (a + b)[i]);
        } else {
            assert(b[i - a.len()] == (a + b)[i]);
        }
    }
    if inside(poly, p) {
        assert(seq![poly][0] == poly);
    }
}

/// A point within 10 km of the start.
pub open spec fn mapped(p: Vec2) -> bool {
    &&& p.x.finite() && size(p.x.val()) <= 10_000 * one()
    &&& p.y.finite() && size(p.y.val()) <= 10_000 * one()
}

/// Nothing is inside a polygon that lies above or below all of it.
pub proof fn rock_has_a_top_and_a_bottom(poly: Seq<Vec2>, p: Vec2)
    requires
        mapped(p),
        forall|i: int| 0 <= i < poly.len() ==> mapped(#[trigger] poly[i]),
        (forall|i: int| 0 <= i < poly.len() ==> (#[trigger] poly[i]).y.val() <= p.y.val()) || (forall|i: int|
            0 <= i < poly.len() ==> (#[trigger] poly[i]).y.val() > p.y.val()),
    ensures
        !inside(poly, p),
{
    lemma_level_with(poly, p, poly.len());
}

proof fn lemma_level_with(poly: Seq<Vec2>, p: Vec2, n: nat)
    requires
        n <= poly.len(),
        mapped(p),
        forall|i: int| 0 <= i < poly.len() ==> mapped(#[trigger] poly[i]),
        (forall|i: int| 0 <= i < poly.len() ==> (#[trigger] poly[i]).y.val() <= p.y.val()) || (forall|i: int|
            0 <= i < poly.len() ==> (#[trigger] poly[i]).y.val() > p.y.val()),
    ensures
        crossings(poly, p, n) == 0,
    decreases n,
{
    if n > 0 {
        lemma_level_with(poly, p, (n - 1) as nat);
        let m = n as int % poly.len() as int;
        if n < poly.len() {
            lemma_small_mod(n, poly.len());
        } else {
            lemma_mod_self_0(n as int);
        }
        let (a, b) = (poly[n - 1], poly[m]);
        order_is_by_value(p.y, a.y);
        order_is_by_value(p.y, b.y);
    }
}

/// The line through `a` and `b`, at the height of `p`, is to the right of `p`
/// by more than a share of the edge's height: positive in square units, and
/// measured upwards.
pub open spec fn lead(a: Vec2, b: Vec2, p: Vec2) -> int {
    let d = (b.x.val() - a.x.val()) * (p.y.val() - a.y.val()) - (p.x.val() - a.x.val()) * (b.y.val()
        - a.y.val());
    if b.y.val() > a.y.val() {
        d
    } else {
        -d
    }
}

/// Whether the height of `p` is between the ends of an edge; the lower end
/// counts, the upper one does not.
pub open spec fn level_with(a: Vec2, b: Vec2, p: Vec2) -> bool {
    a.y.val() <= p.y.val() < b.y.val() || b.y.val() <= p.y.val() < a.y.val()
}

/// `p` is at least 2 cm to the left or the right of the edge.
pub open spec fn clear_of(a: Vec2, b: Vec2, p: Vec2) -> bool {
    level_with(a, b, p) ==> 50 * size(lead(a, b, p)) >= size(b.y.val() - a.y.val()) * one()
}

/// An edge is ahead of a point, to its right, at the point's own height,
/// wherever along the edge that is.
pub proof fn edges_ahead_are_crossed(a: Vec2, b: Vec2, p: Vec2)
    requires
        mapped(a),
        mapped(b),
        mapped(p),
        clear_of(a, b, p),
        level_with(a, b, p) ==> size(b.y.val() - a.y.val()) * 0x1000 >= one(),
    ensures
        crosses(a, b, p) <==> level_with(a, b, p) && lead(a, b, p) > 0,
{
    lemma_huge();
    order_is_by_value(p.y, a.y);
    order_is_by_value(p.y, b.y);
    if level_with(a, b, p) {
        lemma_meets(a, b, p);
        let m = f_add(f_div(f_mul(f_sub(b.x, a.x), f_sub(p.y, a.y)), f_sub(b.y, a.y)), a.x);
        order_is_by_value(p.x, m);
    }
}

/// How many of the first `n` edges of a polygon are ahead of a point.
pub open spec fn ahead(poly: Seq<Vec2>, p: Vec2, n: nat) -> nat
    decreases n,
{
    if n == 0 {
        0
    } else {
        let (a, b) = (poly[n - 1], if n == poly.len() {
            poly[0]
        } else {
            poly[n as int]
        });
        let rest = ahead(poly, p, (n - 1) as nat);
        if level_with(a, b, p) && lead(a, b, p) > 0 {
            rest + 1
        } else {
            rest
        }
    }
}

/// `p` is 2 cm from every edge, and no edge at its height is flat.
pub open spec fn clear_of_all(poly: Seq<Vec2>, p: Vec2) -> bool {
    forall|i: int, j: int|
        #![trigger poly[i], poly[j]]
        0 <= i < poly.len() && 0 <= j < poly.len() && (j == i + 1 || (i == poly.len() - 1 && j == 0))
            ==> clear_of(poly[i], poly[j], p) && (level_with(poly[i], poly[j], p) ==> size(
            poly[j].y.val() - poly[i].y.val(),
        ) * 0x1000 >= one())
}

/// A point is inside a polygon if an odd number of edges, the closing one among
/// them, is ahead of it.
pub proof fn rock_goes_by_edges_ahead(poly: Seq<Vec2>, p: Vec2)
    requires
        mapped(p),
        forall|i: int| 0 <= i < poly.len() ==> mapped(#[trigger] poly[i]),
        clear_of_all(poly, p),
    ensures
        inside(poly, p) <==> ahead(poly, p, poly.len()) % 2 == 1,
{
    lemma_ahead_of(poly, p, poly.len());
}

proof fn lemma_ahead_of(poly: Seq<Vec2>, p: Vec2, n: nat)
    requires
        n <= poly.len(),
        mapped(p),
        forall|i: int| 0 <= i < poly.len() ==> mapped(#[trigger] poly[i]),
        clear_of_all(poly, p),
    ensures
        crossings(poly, p, n) == ahead(poly, p, n),
    decreases n,
{
    if n > 0 {
        lemma_ahead_of(poly, p, (n - 1) as nat);
        if n < poly.len() {
            lemma_small_mod(n, poly.len());
            edges_ahead_are_crossed(poly[n - 1], poly[n as int], p);
        } else {
            lemma_mod_self_0(n as int);
            edges_ahead_are_crossed(poly[n - 1], poly[0], p);
        }
    }
}

/// A rectangle is solid all through, and only there.
pub proof fn rectangles_are_solid(l: F32, r: F32, b: F32, t: F32, p: Vec2)
    requires
        mapped(Vec2 { x: l, y: b }),
        mapped(Vec2 { x: r, y: t }),
        mapped(p),
        l.val() < r.val(),
        t.val() - b.val() >= one(),
        50 * size(p.x.val() - l.val()) >= one(),
        50 * size(p.x.val() - r.val()) >= one(),
    ensures
        ({
            let poly = seq![
                Vec2 { x: l, y: b },
                Vec2 { x: r, y: b },
                Vec2 { x: r, y: t },
                Vec2 { x: l, y: t },
            ];
            inside(poly, p) <==> l.val() < p.x.val() < r.val() && b.val() <= p.y.val() < t.val()
        }),
{
    lemma_huge();
    let poly = seq![
        Vec2 { x: l, y: b },
        Vec2 { x: r, y: b },
        Vec2 { x: r, y: t },
        Vec2 { x: l, y: t },
    ];
    let (h, v) = (t.val() - b.val(), p.y.val());
    lemma_upright(0, p.x.val() - r.val(), h, v - b.val(), one());
    lemma_upright(0, p.x.val() - l.val(), h, v - t.val(), one());
    let (c, d) = (p.x.val() - r.val(), p.x.val() - l.val());
    assert(b.val() - t.val() == -h);
    assert(lead(poly[1], poly[2], p) == -(c * h));
    assert(lead(poly[3], poly[0], p) == -(d * h));
    assert(!level_with(poly[0], poly[1], p) && !level_with(poly[2], poly[3], p));
    assert(clear_of_all(poly, p));
    rock_goes_by_edges_ahead(poly, p);
    let n1: nat = if b.val() <= v < t.val() && c < 0 {
        1
    } else {
        0
    };
    let n3: nat = if b.val() <= v < t.val() && d < 0 {
        1
    } else {
        0
    };
    assert(ahead(poly, p, 0) == 0);
    assert(ahead(poly, p, 1) == 0);
    assert(ahead(poly, p, 2) == n1);
    assert(ahead(poly, p, 3) == n1);
    assert(ahead(poly, p, 4) == n1 + n3);
}

proof fn lemma_upright(z: int, d: int, h: int, y: int, u: int)
    requires
        z == 0,
        h > 0,
        u > 0,
        50 * size(d) >= u,
    ensures
        z * y - d * h == -(d * h),
        z * y - d * (-h) == d * h,
        50 * size(d * h) >= h * u,
        d * h > 0 <==> d > 0,
        d * h < 0 <==> d < 0,
{
    assert(z * y == 0 && d * (-h) == -(d * h)) by (nonlinear_arith)
        requires
            z == 0,
    ;
    assert(d > 0 ==> d * h > 0 && 50 * (d * h) >= h * u) by (nonlinear_arith)
        requires
            h > 0,
            d > 0 ==> 50 * d >= u,
    ;
    assert(d < 0 ==> d * h < 0 && 50 * (d * h) <= -(h * u)) by (nonlinear_arith)
        requires
            h > 0,
            d < 0 ==> 50 * d <= -u,
    ;
}

proof fn lemma_within(a: int, b: int, m: int, n: int)
    by (nonlinear_arith)
    requires
        -m <= a <= m,
        -n <= b <= n,
    ensures
        -(m * n) <= a * b <= m * n,
{
}

proof fn lemma_regroup(x: int, y: int, h: int, x2: int, y2: int, h2: int, q: int)
    by (nonlinear_arith)
    ensures
        x2 * y2 - x * y == x2 * (y2 - y) + (x2 - x) * y,
        q * h == q * h2 - q * (h2 - h),
        x2 * (0x100_0000 * (y2 - y)) == 0x100_0000 * (x2 * (y2 - y)),
        (0x100_0000 * (x2 - x)) * y == 0x100_0000 * ((x2 - x) * y),
        q * (0x100_0000 * (h2 - h)) == 0x100_0000 * (q * (h2 - h)),
{
}

proof fn lemma_multiple(c: int, u: int, h: int)
    by (nonlinear_arith)
    ensures
        (c * u) * h == c * (u * h),
        (c * u) * (c * h) == c * c * (u * h),
{
}

/// Where a rounded line is, times the edge's height.
#[verifier::spinoff_prover]
proof fn lemma_line(x: int, y: int, h: int, x2: int, y2: int, h2: int, pi: int, q: int, u: int)
    requires
        u > 0x1000_0000_0000,
        h * 0x1000 >= u,
        0 <= y <= h <= 20_000 * u,
        size(x) <= 20_000 * u,
        size(x2 - x) * 0x100_0000 <= size(x),
        size(y2 - y) * 0x100_0000 <= size(y),
        size(h2 - h) * 0x100_0000 <= size(h),
        size(pi * u - x2 * y2) * 0x100_0000 <= size(x2 * y2) + 0x80_0000 * u,
        size(q * h2 - pi * u) * 0x100_0000 <= size(pi * u) + 0x80_0000 * h2,
    ensures
        size(q * h - x * y) * 100 <= h * u,
        size(q) <= 20_500 * u,
{
    let w = u * h;
    assert(h * u == u * h && w >= h * 0x100_0000 && w >= 0x1_0000_0000 * u) by (nonlinear_arith)
        requires
            w == u * h,
            u > 0x1000_0000_0000,
            h * 0x1000 >= u,
    ;
    lemma_regroup(x, y, h, x2, y2, h2, q);
    lemma_multiple(20_001, u, h);
    lemma_multiple(20_500, u, h);
    lemma_within(x2, 0x100_0000 * (y2 - y), 20_001 * u, h);
    lemma_within(0x100_0000 * (x2 - x), y, 20_001 * u, h);
    assert(size(x2 * y2 - x * y) * 0x100_0000 <= 40_002 * w);
    lemma_within(x, y, 20_001 * u, h);
    assert(size(x2 * y2) <= 20_002 * w);
    assert(size(pi * u) <= 20_003 * w);
    assert(size(q * h2) <= 20_004 * w);
    lemma_small_quotient(q, h, h2, u);
    lemma_within(q, 0x100_0000 * (h2 - h), 20_500 * u, h);
    assert(size(q * h2 - pi * u) * 0x100_0000 <= 20_005 * w);
    assert(size(pi * u - x2 * y2) * 0x100_0000 <= 20_005 * w);
}

proof fn lemma_small_quotient(q: int, h: int, h2: int, u: int)
    requires
        u > 0,
        h > 0x1000,
        size(h2 - h) * 0x100_0000 <= h,
        size(q * h2) <= 20_004 * (u * h),
    ensures
        size(q) <= 20_500 * u,
{
    assert(h2 > 0 && 101 * h2 >= 100 * h);
    assert(q <= 20_500 * u) by (nonlinear_arith)
        requires
            q * h2 <= 20_004 * (u * h),
            101 * h2 >= 100 * h,
            h2 > 0,
            u > 0,
            h > 0,
    {
        if q > 20_500 * u {
            assert(q * h2 >= (20_500 * u) * h2);
            assert(101 * ((20_500 * u) * h2) >= 100 * 20_500 * (u * h));
        }
    }
    assert(-q <= 20_500 * u) by (nonlinear_arith)
        requires
            -(q * h2) <= 20_004 * (u * h),
            101 * h2 >= 100 * h,
            h2 > 0,
            u > 0,
            h > 0,
    {
        if -q > 20_500 * u {
            assert((-q) * h2 >= (20_500 * u) * h2);
            assert(101 * ((20_500 * u) * h2) >= 100 * 20_500 * (u * h));
        }
    }
}

/// Where an edge meets the height of a point.
proof fn lemma_meets(a: Vec2, b: Vec2, p: Vec2)
    requires
        mapped(a),
        mapped(b),
        mapped(p),
        level_with(a, b, p),
        size(b.y.val() - a.y.val()) * 0x1000 >= one(),
        50 * size(lead(a, b, p)) >= size(b.y.val() - a.y.val()) * one(),
    ensures
        ({
            let m = f_add(f_div(f_mul(f_sub(b.x, a.x), f_sub(p.y, a.y)), f_sub(b.y, a.y)), a.x);
            m.finite() && (p.x.val() < m.val() <==> lead(a, b, p) > 0)
        }),
{
    lemma_huge();
    let u = one();
    assert(f_neg(a.x).val() == -a.x.val() && f_neg(a.y).val() == -a.y.val());
    lemma_sum(b.x, f_neg(a.x));
    lemma_sum(p.y, f_neg(a.y));
    lemma_sum(b.y, f_neg(a.y));
    let (dx, dy, dh) = (f_sub(b.x, a.x), f_sub(p.y, a.y), f_sub(b.y, a.y));
    let (x, y, h) = (b.x.val() - a.x.val(), p.y.val() - a.y.val(), b.y.val() - a.y.val());
    lemma_within(dx.val(), dy.val(), 20_001 * u, 20_001 * u);
    lemma_multiple(20_001, u, u);
    lemma_product(dx, dy);
    let pi = f_mul(dx, dy);
    let q = f_div(pi, dh);
    let up = h > 0;
    lemma_turned(pi.val(), u, dx.val(), dy.val(), q.val(), dh.val(), x, y, h);
    lemma_bounded(pi.val(), dx.val(), dy.val(), y, h, u);
    if up {
        lemma_quotient(pi, dh);
        lemma_either(size(pi.val()), size(pi.val() * u), u, pi.val());
        lemma_line(x, y, h, dx.val(), dy.val(), dh.val(), pi.val(), q.val(), u);
    } else {
        lemma_opposite(pi, dh);
        assert(f_neg(pi).val() == -pi.val() && f_neg(dh).val() == -dh.val());
        lemma_quotient(f_neg(pi), f_neg(dh));
        lemma_either(size(pi.val()), size(pi.val() * u), u, pi.val());
        lemma_line(x, -y, -h, dx.val(), -dy.val(), -dh.val(), -pi.val(), q.val(), u);
    }
    lemma_sum(q, a.x);
    let m = f_add(q, a.x);
    lemma_ahead(x, y, h, q.val(), p.x.val() - a.x.val(), m.val() - a.x.val(), u);
}

proof fn lemma_turned(pi: int, u: int, dx: int, dy: int, q: int, dh: int, x: int, y: int, h: int)
    by (nonlinear_arith)
    ensures
        (-pi) * u == -(pi * u),
        dx * (-dy) == -(dx * dy),
        q * (-dh) == -(q * dh),
        q * (-h) == -(q * h),
        x * (-y) == -(x * y),
        (-h) * u == -(h * u),
{
}

proof fn lemma_either(a: int, b: int, u: int, v: int)
    requires
        a == size(v),
        b == size(v * u),
        u > 0,
    ensures
        a * u == b,
{
    assert((-v) * u == -(v * u)) by (nonlinear_arith);
    assert(v >= 0 ==> v * u >= 0) by (nonlinear_arith)
        requires
            u > 0,
    ;
    assert(v < 0 ==> v * u < 0) by (nonlinear_arith)
        requires
            u > 0,
    ;
}

proof fn lemma_opposite(a: F32, b: F32)
    requires
        a.finite(),
        b.finite(),
        b.val() != 0,
    ensures
        f_div(a, b) == f_div(f_neg(a), f_neg(b)),
{
    reveal(f_div);
}

/// A product that a quotient can stand.
proof fn lemma_bounded(pi: int, dx: int, dy: int, y: int, h: int, u: int)
    requires
        u > 0x1000_0000_0000,
        size(h) * 0x1000 >= u,
        size(dx) <= 20_001 * u,
        size(dy) <= 20_001 * u,
        size(pi * u - dx * dy) * 0x100_0000 <= size(dx * dy) + 0x80_0000 * u,
        size(dx * dy) <= 400_040_001 * (u * u),
    ensures
        size(pi) <= 0x2_0000_0000 * u,
        size(pi) <= 0x800_0000_0000_0000 * size(h),
{
    assert(u * u >= 0x1000_0000_0000 * u) by (nonlinear_arith)
        requires
            u >= 0x1000_0000_0000,
    ;
    let (a, b, w) = (pi * u, dx * dy, u * u);
    assert(size(a) <= 0x2_0000_0000 * w);
    assert(-(0x2_0000_0000 * u) <= pi <= 0x2_0000_0000 * u) by (nonlinear_arith)
        requires
            -(0x2_0000_0000 * (u * u)) <= pi * u <= 0x2_0000_0000 * (u * u),
            u > 0,
    {
        let t = 0x2_0000_0000 * u;
        assert(t * u == 0x2_0000_0000 * (u * u));
        if pi > t {
            assert(pi * u > t * u);
        }
        if pi < -t {
            assert(pi * u < (-t) * u);
        }
    }
}

/// A point 2 cm from a line is on the same side of the rounded one.
proof fn lemma_ahead(x: int, y: int, h: int, q: int, v: int, m: int, u: int)
    requires
        u > 0,
        h != 0,
        size(q * h - x * y) * 100 <= size(h * u),
        size(m - q) * 400 <= u,
        50 * size(x * y - v * h) >= size(h) * u,
    ensures
        v < m <==> (if h > 0 {
            x * y - v * h
        } else {
            -(x * y - v * h)
        }) > 0,
{
    let d = q - v;
    assert(d * h == q * h - v * h) by (nonlinear_arith)
        requires
            d == q - v,
    ;
    assert(size(h) * u == size(h * u)) by {
        assert((-h) * u == -(h * u)) by (nonlinear_arith);
        assert(h > 0 ==> h * u > 0) by (nonlinear_arith)
            requires
                u > 0,
        ;
        assert(h < 0 ==> h * u < 0) by (nonlinear_arith)
            requires
                u > 0,
        ;
    }
    let w = size(h) * u;
    assert(size(d * h) * 100 >= w);
    let t = if h > 0 {
        d
    } else {
        -d
    };
    let k = size(h);
    assert(d * h == t * k) by (nonlinear_arith)
        requires
            (h > 0 && t == d && k == h) || (h < 0 && t == -d && k == -h),
    ;
    assert(t * k * 100 >= k * u ==> t * 100 >= u) by (nonlinear_arith)
        requires
            k > 0,
    ;
    assert(t * k * 100 <= -(k * u) ==> t * 100 <= -u) by (nonlinear_arith)
        requires
            k > 0,
    ;
}

} // verus!
