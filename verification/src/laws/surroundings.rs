//! Laws of what is loaded around the ship: all that is near, and nothing that
//! is far.

use crate::binary32::arith::{f_add, f_div, f_mul, f_neg, f_sub};
use crate::binary32::convert::f_of_int;
use crate::binary32::facts::{lemma_add_between, lemma_mul_between, order_is_by_value};
use crate::binary32::{fl, F32};
use crate::cave::{wave_of, Wave, SEG_LEN};
use crate::laws::boulders::lemma_either_way;
use crate::laws::caves::{lemma_const, lemma_grain};
use crate::laws::clearings::lemma_opening;
use crate::laws::distances::{lemma_add_quarter, lemma_times_quarter};
use crate::laws::errors::{lemma_huge, lemma_quotient, one, size};
use crate::laws::landings::nearby;
use crate::laws::rises::lemma_int;
use crate::laws::roundings::{
    ceilings_are_at_most_one_above, countable, floors_are_at_most_one_below, roundings_are_nearest,
};
use crate::level::{Level, LevelView, Vec2};
use crate::obstacle::{OBSTACLE_JITTER_HI, OBSTACLE_JITTER_LO, OBSTACLE_SPACING};
use crate::pad::{GOAL_SLOT_NEG, GOAL_SLOT_POS, PAD_JITTER_HI, PAD_JITTER_LO};
use crate::rng::{draw, range_of};
use crate::scene::{
    boulder_span, finish_span, key_at, left_x, pad_span, right_x, shaft_span, slot_range, Scene,
    BOULDER_MARGIN, PAD_MARGIN,
};
use crate::scenery::{Boulder, BoulderMaker, Edge, ShaftMaker};
use crate::shaft::V_PERIOD;
use crate::slots::{has_key, has_slot, Key, Maker};
use rapier2d::geometry::Collider;
use vstd::arithmetic::power2::{lemma2_to64, lemma_pow2_adds, lemma_pow2_pos, pow2};
use vstd::prelude::*;

verus! {

// ---- Where the window stands ----

/// A quotient near the map.
pub(crate) proof fn lemma_near_quotient(a: F32, s: F32)
    requires
        a.finite(),
        s.finite(),
        size(a.val()) <= 310_000 * one(),
        3 * one() <= s.val() <= 2000 * one(),
    ensures
        countable(f_div(a, s)),
        50 * size(f_div(a, s).val() * s.val() - a.val() * one()) <= one() * one(),
{
    lemma_huge();
    let (u, x, y) = (one(), a.val(), s.val());
    assert(size(x) <= 0x1000_0000_0000_0000 * y);
    lemma_quotient(a, s);
    let q = f_div(a, s).val();
    assert(size(x) * u <= 310_000 * (u * u) && u * u >= 0x1000_0000_0000 * u) by (nonlinear_arith)
        requires
            size(x) <= 310_000 * u,
            u >= 0x1000_0000_0000,
    ;
    assert(size(x) * u >= 0 && (-x) * u == -(x * u)) by (nonlinear_arith)
        requires
            size(x) >= 0,
            u >= 0,
    ;
    let (w, v) = (u * u, q * y);
    assert(size(x * u) <= 310_000 * w);
    assert(size(v) <= 310_001 * w);
    assert(-(8_000_000 * u) <= q <= 8_000_000 * u) by (nonlinear_arith)
        requires
            -(310_001 * (u * u)) <= q * y <= 310_001 * (u * u),
            y >= 3 * u,
            u > 0,
    {
        let t = 8_000_000 * u;
        if q > t {
            assert(q * y >= t * (3 * u)) by (nonlinear_arith)
                requires
                    q > t,
                    y >= 3 * u,
                    t > 0,
                    u > 0,
            ;
            assert(t * (3 * u) == 24_000_000 * (u * u)) by (nonlinear_arith)
                requires
                    t == 8_000_000 * u,
            ;
        }
        if q < -t {
            assert((-q) * y >= t * (3 * u)) by (nonlinear_arith)
                requires
                    -q > t,
                    y >= 3 * u,
                    t > 0,
                    u > 0,
            ;
            assert((-q) * y == -(q * y)) by (nonlinear_arith);
            assert(t * (3 * u) == 24_000_000 * (u * u)) by (nonlinear_arith)
                requires
                    t == 8_000_000 * u,
            ;
        }
    }
}

/// `k` times `s` is not above `a` if `k` is not above the quotient.
proof fn lemma_multiple_below(k: int, q: int, s: int, a: int, u: int)
    requires
        u > 0,
        s > 0,
        50 * size(q * s - a * u) <= u * u,
    ensures
        k * u <= q ==> 50 * (k * s - a) <= u,
        k * u >= q ==> 50 * (k * s - a) >= -u,
{
    assert((k * s - a) * u == (k * u) * s - a * u) by (nonlinear_arith);
    assert(k * u <= q ==> (k * u) * s <= q * s) by (nonlinear_arith)
        requires
            s > 0,
    ;
    assert(k * u >= q ==> (k * u) * s >= q * s) by (nonlinear_arith)
        requires
            s > 0,
    ;
    let d = k * s - a;
    assert(50 * (d * u) <= u * u ==> 50 * d <= u) by (nonlinear_arith)
        requires
            u > 0,
    ;
    assert(50 * (d * u) >= -(u * u) ==> 50 * d >= -u) by (nonlinear_arith)
        requires
            u > 0,
    ;
}

/// The window stands around the ship: a segment is 3 m long, a layer 90 m high
/// and centred on its height. Right at a border, within 2 cm, either side will
/// do.
pub proof fn windows_stand_around_the_ship(x: F32, y: F32)
    requires
        nearby(x),
        nearby(y),
    ensures
        ({
            let k = key_at(x, y);
            &&& 50 * (3 * k.0 * one() - x.val()) <= one()
            &&& 50 * (3 * (k.0 + 1) * one() - x.val()) >= -one()
            &&& 2 * size(90 * k.1 * one() - y.val()) <= 91 * one()
        }),
{
    lemma_huge();
    lemma2_to64();
    lemma_grain();
    lemma_const(SEG_LEN, 0xc0_0000, 7, 0x6000_0000);
    lemma_const(V_PERIOD, 0xb4_0000, 12, 0xb_4000_0000);
    let u = one();
    let k = key_at(x, y);
    let (a, b) = (fl(SEG_LEN), fl(V_PERIOD));
    lemma_near_quotient(x, a);
    lemma_near_quotient(y, b);
    floors_are_at_most_one_below(f_div(x, a));
    roundings_are_nearest(f_div(y, b));
    let (p, q) = (f_div(x, a).val(), f_div(y, b).val());
    let (i, j) = (k.0 as int, k.1 as int);
    lemma_multiple_below(i, p, 3 * u, x.val(), u);
    lemma_multiple_below(i + 1, p, 3 * u, x.val(), u);
    assert(i * (3 * u) == 3 * i * u && (i + 1) * (3 * u) == 3 * (i + 1) * u) by (nonlinear_arith);
    lemma_half(j, q, y.val(), u);
}

proof fn lemma_half(j: int, q: int, y: int, u: int)
    requires
        u > 0,
        2 * size(q - j * u) <= u,
        50 * size(q * (90 * u) - y * u) <= u * u,
    ensures
        2 * size(90 * j * u - y) <= 91 * u,
{
    assert(q * (90 * u) - y * u == (90 * q - y) * u) by (nonlinear_arith);
    let d = 90 * q - y;
    assert(-u <= 50 * d <= u) by (nonlinear_arith)
        requires
            -(u * u) <= 50 * (d * u) <= u * u,
            u > 0,
    ;
    assert(90 * j * u == 90 * (j * u)) by (nonlinear_arith);
}

/// The slots, `s` apart, that the window takes in.
proof fn lemma_range(at: Key, margin: F32, m: int, s: F32)
    requires
        -100_000 <= at.0 <= 100_000,
        0 <= m <= 100,
        margin.finite(),
        margin.val() == m * one(),
        s.finite(),
        3 * one() <= s.val() <= 2000 * one(),
    ensures
        ({
            let r = slot_range(at, margin, s);
            let (a, b) = ((3 * (at.0 - 80) - m) * one(), (3 * (at.0 + 81) + m) * one());
            &&& 50 * (r.0 * s.val() - a) <= one()
            &&& 50 * ((r.0 + 1) * s.val() - a) >= -one()
            &&& 50 * (r.1 * s.val() - b) >= -one()
            &&& 50 * ((r.1 - 1) * s.val() - b) <= one()
        }),
{
    lemma_huge();
    lemma2_to64();
    let u = one();
    lemma_ends(at);
    let (i, j) = (3 * (at.0 - 80), 3 * (at.0 + 81));
    lemma_int(i - m);
    lemma_int(j + m);
    assert(f_neg(margin).val() == -margin.val());
    assert((i - m) * u == i * u - m * u && (j + m) * u == j * u + m * u) by (nonlinear_arith);
    let (lo, hi) = (f_of_int(i - m), f_of_int(j + m));
    lemma_add_between(left_x(at), f_neg(margin), lo, lo);
    lemma_add_between(right_x(at), margin, hi, hi);
    let (a, b) = (f_sub(left_x(at), margin), f_add(right_x(at), margin));
    assert(size(a.val()) <= 310_000 * u && size(b.val()) <= 310_000 * u) by {
        lemma_size_times_one(i - m, 310_000, u);
        lemma_size_times_one(j + m, 310_000, u);
    }
    lemma_near_quotient(a, s);
    lemma_near_quotient(b, s);
    floors_are_at_most_one_below(f_div(a, s));
    ceilings_are_at_most_one_above(f_div(b, s));
    let r = slot_range(at, margin, s);
    let (p, q) = (f_div(a, s).val(), f_div(b, s).val());
    lemma_multiple_below(r.0 as int, p, s.val(), a.val(), u);
    lemma_multiple_below(r.0 + 1, p, s.val(), a.val(), u);
    lemma_multiple_below(r.1 as int, q, s.val(), b.val(), u);
    lemma_multiple_below(r.1 - 1, q, s.val(), b.val(), u);
}

proof fn lemma_size_times_one(i: int, n: int, u: int)
    by (nonlinear_arith)
    requires
        -n <= i <= n,
        u > 0,
    ensures
        -(n * u) <= i * u <= n * u,
{
}

/// Where the window ends.
proof fn lemma_ends(at: Key)
    requires
        -100_000 <= at.0 <= 100_000,
    ensures
        left_x(at).finite() && left_x(at).val() == 3 * (at.0 - 80) * one(),
        right_x(at).finite() && right_x(at).val() == 3 * (at.0 + 81) * one(),
{
    lemma_huge();
    lemma2_to64();
    lemma_grain();
    lemma_const(SEG_LEN, 0xc0_0000, 7, 0x6000_0000);
    let u = one();
    let (i, j) = (at.0 - 80, at.0 + 81);
    lemma_int(i);
    lemma_int(j);
    lemma_int(3 * i);
    lemma_int(3 * j);
    assert((i * u) * (3 * u) == (3 * i * u) * u && (j * u) * (3 * u) == (3 * j * u) * u) by (nonlinear_arith);
    lemma_mul_between(f_of_int(i), fl(SEG_LEN), f_of_int(3 * i), f_of_int(3 * i));
    lemma_mul_between(f_of_int(j), fl(SEG_LEN), f_of_int(3 * j), f_of_int(3 * j));
}

// ---- What is loaded ----

/// The shafts that open within the window are loaded, below the ship's layer
/// and above it; and none that opens farther off.
pub proof fn shafts_around_are_loaded<T: Fn(Wave, F32) -> F32, S: Fn(Edge) -> Collider, H: Fn(Boulder) -> Option<(Collider, Vec<Vec2>)>>(
    scene: Scene,
    old_scene: Scene,
    level: &Level,
    trig: &T,
    segment: &S,
    hull: &H,
    at: Key,
    k: Key,
)
    requires
        level.terrain is None,
        level.shafts,
        scene.synced_from(&old_scene, level, trig, segment, hull, at),
    ensures
        at.0 - 85 <= level@.shaft_open(k.0 as int) <= at.0 + 85 && at.1 - 1 <= k.1 <= at.1 ==> has_key(
            scene.shafts.slots@,
            k,
        ),
        has_key(scene.shafts.slots@, k) ==> at.0 - 171 <= level@.shaft_open(k.0 as int) <= at.0 + 171
            && at.1 - 1 <= k.1 <= at.1,
{
    lemma_opening(level@, k.0 as int);
    let maker = ShaftMaker { level, trig, segment };
    let s = scene.shafts.slots@;
    if shaft_span(at)(k) {
        assert(!maker.makes(k, None));
    }
    if has_key(s, k) {
        let i = choose|i: int| 0 <= i < s.len() && #[trigger] s[i].key == k;
        assert(has_slot(s, s[i]));
    }
}

/// `hull` gives every boulder a shape.
pub open spec fn able<H: Fn(Boulder) -> Option<(Collider, Vec<Vec2>)>>(hull: H) -> bool {
    forall|b: Boulder, r: Option<(Collider, Vec<Vec2>)>| #[trigger]
        call_ensures(hull, (b,), r) ==> r is Some
}

/// Where a slot's boulder stands: its slot, 16 m from the next, give or take 3 m.
pub proof fn boulders_stand_at_their_slots(l: LevelView, k: int)
    requires
        -0x1_0000 <= k <= 0x1_0000,
    ensures
        l.obstacle_x(k).finite(),
        2 * size(l.obstacle_x(k).val() - 16 * k * one()) <= 7 * one(),
{
    lemma_huge();
    lemma2_to64();
    lemma_grain();
    lemma_pow2_adds(147, 2);
    lemma_pow2_pos(147);
    let (u, g) = (one(), pow2(147) as int);
    lemma_const(OBSTACLE_SPACING, 0x80_0000, 10, 0x2_0000_0000);
    lemma_const(OBSTACLE_JITTER_HI, 0xc0_0000, 7, 0x6000_0000);
    let hi = fl(OBSTACLE_JITTER_HI);
    assert(f_neg(hi) == fl(OBSTACLE_JITTER_LO) && f_neg(hi).val() == -hi.val());
    assert(k * (16 * u) == 16 * k * u && 16 * k * u == 64 * k * g) by (nonlinear_arith)
        requires
            u == 4 * g,
    ;
    lemma_size_times_one(64 * k, 0x40_0000, g);
    lemma_times_quarter(k, fl(OBSTACLE_SPACING));
    let d = draw(l.obstacle_seed(k), 1);
    lemma_either_way(d, hi);
    let j = range_of(d, fl(OBSTACLE_JITTER_LO), hi);
    order_is_by_value(fl(OBSTACLE_JITTER_LO), j);
    order_is_by_value(j, hi);
    lemma_add_quarter(f_mul(f_of_int(k), fl(OBSTACLE_SPACING)), j);
}

/// Where a slot's pad stands: its slot, give or take 20 m.
pub proof fn pads_stand_at_their_slots(l: LevelView, p: int)
    requires
        l.pad_spacing.finite(),
        40 * one() <= l.pad_spacing.val() <= 2000 * one(),
        -0x10_0000 < p < 0x10_0000,
        size(p * l.pad_spacing.val()) <= 0x20_0000 * one(),
    ensures
        l.pad_x(p).finite(),
        2 * size(l.pad_x(p).val() - p * l.pad_spacing.val()) <= 41 * one(),
{
    lemma_huge();
    lemma2_to64();
    lemma_grain();
    lemma_pow2_adds(147, 2);
    lemma_pow2_pos(147);
    lemma_times_quarter(p, l.pad_spacing);
    lemma_const(PAD_JITTER_HI, 0xa0_0000, 10, 0x2_8000_0000);
    let hi = fl(PAD_JITTER_HI);
    assert(f_neg(hi) == fl(PAD_JITTER_LO) && f_neg(hi).val() == -hi.val());
    let d = draw(l.slot_seed(p as u32) ^ 0x50ad_5eed, 1);
    lemma_either_way(d, hi);
    let j = range_of(d, fl(PAD_JITTER_LO), hi);
    order_is_by_value(fl(PAD_JITTER_LO), j);
    order_is_by_value(j, hi);
    lemma_add_quarter(f_mul(f_of_int(p), l.pad_spacing), j);
}

/// A slot whose place is in the window is among the window's slots.
proof fn lemma_taken_in(k: int, r: int, s: int, u: int)
    requires
        s > 0,
    ensures
        k <= r - 1 ==> k * s <= r * s - s,
        k >= r + 1 ==> k * s >= r * s + s,
        k >= r ==> k * s >= r * s,
        k <= r ==> k * s <= r * s,
        (r + 1) * s == r * s + s,
        (r - 1) * s == r * s - s,
{
    assert((r + 1) * s == r * s + s && (r - 1) * s == r * s - s) by (nonlinear_arith);
    assert((k <= r - 1 ==> k * s <= r * s - s) && (k >= r + 1 ==> k * s >= r * s + s) && (k >= r ==> k
        * s >= r * s) && (k <= r ==> k * s <= r * s)) by (nonlinear_arith)
        requires
            s > 0,
    ;
}

/// Every boulder in the window is loaded, in the ship's layer and in the layers
/// above and below; and none whose slot is more than 23 m outside.
pub proof fn boulders_around_are_loaded<T: Fn(Wave, F32) -> F32, S: Fn(Edge) -> Collider, H: Fn(Boulder) -> Option<(Collider, Vec<Vec2>)>>(
    scene: Scene,
    old_scene: Scene,
    level: &Level,
    trig: &T,
    segment: &S,
    hull: &H,
    at: Key,
    k: Key,
)
    requires
        level.terrain is None,
        scene.synced_from(&old_scene, level, trig, segment, hull, at),
        able(*hull),
        -100_000 <= at.0 <= 100_000,
        -0x1_0000 <= k.0 <= 0x1_0000,
    ensures
        level@.obstacle(wave_of(*trig), k.0 as int) is Some && at.1 - 1 <= k.1 <= at.1 + 1 && 3 * (at.0
            - 80) * one() <= level@.obstacle_x(k.0 as int).val() <= 3 * (at.0 + 81) * one() ==> has_key(
            scene.obstacles.slots@,
            k,
        ),
        has_key(scene.obstacles.slots@, k) ==> at.1 - 1 <= k.1 <= at.1 + 1 && (3 * (at.0 - 80) - 23)
            * one() <= 16 * k.0 * one() <= (3 * (at.0 + 81) + 23) * one(),
{
    lemma_huge();
    lemma2_to64();
    lemma_grain();
    let u = one();
    lemma_const(OBSTACLE_SPACING, 0x80_0000, 10, 0x2_0000_0000);
    lemma_const(BOULDER_MARGIN, 0xc0_0000, 7, 0x6000_0000);
    let s = fl(OBSTACLE_SPACING);
    lemma_range(at, fl(BOULDER_MARGIN), 3, s);
    let r = slot_range(at, fl(BOULDER_MARGIN), s);
    boulders_stand_at_their_slots(level@, k.0 as int);
    lemma_taken_in(k.0 as int, r.0 as int, s.val(), u);
    lemma_taken_in(k.0 as int, r.1 as int, s.val(), u);
    lemma_shares(k.0 as int, 16, at.0 as int, 3, 23, u);
    let maker = BoulderMaker { level, trig, hull };
    let t = scene.obstacles.slots@;
    if level@.obstacle(wave_of(*trig), k.0 as int) is Some {
        assert(!maker.makes(k, None));
    }
    assert(boulder_span(at)(k) <==> r.0 <= k.0 <= r.1 && at.1 - 1 <= k.1 <= at.1 + 1);
    if has_key(t, k) {
        let i = choose|i: int| 0 <= i < t.len() && #[trigger] t[i].key == k;
        assert(has_slot(t, t[i]));
    }
}

proof fn lemma_shares(k: int, n: int, at: int, m: int, e: int, u: int)
    by (nonlinear_arith)
    ensures
        k * (n * u) == n * k * u,
        (3 * (at - 80) - m) * u == 3 * (at - 80) * u - m * u,
        (3 * (at + 81) + m) * u == 3 * (at + 81) * u + m * u,
        (3 * (at - 80) - e) * u == 3 * (at - 80) * u - e * u,
        (3 * (at + 81) + e) * u == 3 * (at + 81) * u + e * u,
{
}

/// Every pad in the window is loaded, in the ship's layer and in the layers
/// above and below; and none whose slot is farther outside than 21 m and the
/// way to the next slot.
pub proof fn pads_around_are_loaded<T: Fn(Wave, F32) -> F32, S: Fn(Edge) -> Collider, H: Fn(Boulder) -> Option<(Collider, Vec<Vec2>)>>(
    scene: Scene,
    old_scene: Scene,
    level: &Level,
    trig: &T,
    segment: &S,
    hull: &H,
    at: Key,
    k: Key,
)
    requires
        level.terrain is None,
        scene.synced_from(&old_scene, level, trig, segment, hull, at),
        -100_000 <= at.0 <= 100_000,
        level.pad_spacing.finite(),
        40 * one() <= level.pad_spacing.val() <= 2000 * one(),
        -0x10_0000 < k.0 < 0x10_0000,
        size(k.0 * level.pad_spacing.val()) <= 0x20_0000 * one(),
    ensures
        level@.pad(wave_of(*trig), k.0 as int) is Some && at.1 - 1 <= k.1 <= at.1 + 1 && 3 * (at.0 - 80)
            * one() <= level@.pad_x(k.0 as int).val() <= 3 * (at.0 + 81) * one() ==> has_key(
            scene.pads.slots@,
            k,
        ),
        has_key(scene.pads.slots@, k) ==> at.1 - 1 <= k.1 <= at.1 + 1 && (3 * (at.0 - 80) - 21) * one()
            - level.pad_spacing.val() <= k.0 * level.pad_spacing.val() <= (3 * (at.0 + 81) + 21) * one()
            + level.pad_spacing.val(),
{
    lemma_huge();
    lemma2_to64();
    lemma_grain();
    let u = one();
    let s = level.pad_spacing;
    lemma_const(PAD_MARGIN, 0xa0_0000, 10, 0x2_8000_0000);
    lemma_range(at, fl(PAD_MARGIN), 20, s);
    let r = slot_range(at, fl(PAD_MARGIN), s);
    pads_stand_at_their_slots(level@, k.0 as int);
    lemma_taken_in(k.0 as int, r.0 as int, s.val(), u);
    lemma_taken_in(k.0 as int, r.1 as int, s.val(), u);
    lemma_shares(k.0 as int, 1, at.0 as int, 20, 21, u);
    let t = scene.pads.slots@;
    assert(pad_span(level@, at)(k) <==> r.0 <= k.0 <= r.1 && at.1 - 1 <= k.1 <= at.1 + 1);
    if has_key(t, k) {
        let i = choose|i: int| 0 <= i < t.len() && #[trigger] t[i].key == k;
        assert(has_slot(t, t[i]));
    }
}

/// A finish in the window is loaded, in the ship's layer and in the layers above
/// and below.
pub proof fn finishes_around_are_loaded<T: Fn(Wave, F32) -> F32, S: Fn(Edge) -> Collider, H: Fn(Boulder) -> Option<(Collider, Vec<Vec2>)>>(
    scene: Scene,
    old_scene: Scene,
    level: &Level,
    trig: &T,
    segment: &S,
    hull: &H,
    at: Key,
    layer: i64,
)
    requires
        level.terrain is None,
        scene.synced_from(&old_scene, level, trig, segment, hull, at),
        -100_000 <= at.0 <= 100_000,
        at.1 - 1 <= layer <= at.1 + 1,
    ensures
        match level@.goal_pad(wave_of(*trig), 1) {
            Some(spec) => spec.cx.finite() && 3 * (at.0 - 80) * one() <= spec.cx.val() <= 3 * (at.0 + 81)
                * one() ==> has_key(scene.pads.slots@, (0x7fff_ffff_ffff_ffff, layer)),
            None => true,
        },
        match level@.goal_pad(wave_of(*trig), -1) {
            Some(spec) => spec.cx.finite() && 3 * (at.0 - 80) * one() <= spec.cx.val() <= 3 * (at.0 + 81)
                * one() ==> has_key(scene.pads.slots@, (0x7fff_ffff_ffff_fffe, layer)),
            None => true,
        },
{
    lemma_huge();
    lemma2_to64();
    lemma_grain();
    let u = one();
    lemma_const(PAD_MARGIN, 0xa0_0000, 10, 0x2_8000_0000);
    lemma_ends(at);
    let (i, j) = (3 * (at.0 - 80), 3 * (at.0 + 81));
    lemma_int(i - 20);
    lemma_int(j + 20);
    let m = fl(PAD_MARGIN);
    assert(f_neg(m).val() == -m.val());
    assert((i - 20) * u == i * u - 20 * u && (j + 20) * u == j * u + 20 * u) by (nonlinear_arith);
    let (lo, hi) = (f_of_int(i - 20), f_of_int(j + 20));
    lemma_add_between(left_x(at), f_neg(m), lo, lo);
    lemma_add_between(right_x(at), m, hi, hi);
    let (a, b) = (f_sub(left_x(at), m), f_add(right_x(at), m));
    let w = wave_of(*trig);
    if level@.goal_pad(w, 1) is Some {
        let cx = level@.goal_pad(w, 1)->0.cx;
        if cx.finite() {
            order_is_by_value(cx, a);
            order_is_by_value(b, cx);
            assert(finish_span(at, GOAL_SLOT_POS)((GOAL_SLOT_POS, layer)));
        }
    }
    if level@.goal_pad(w, -1) is Some {
        let cx = level@.goal_pad(w, -1)->0.cx;
        if cx.finite() {
            order_is_by_value(cx, a);
            order_is_by_value(b, cx);
            assert(finish_span(at, GOAL_SLOT_NEG)((GOAL_SLOT_NEG, layer)));
        }
    }
}

} // verus!
