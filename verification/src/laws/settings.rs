//! Laws of the settings in a level file: what each of them sets, and to what.

use crate::binary32::arith::{f_abs, f_div, f_neg};
use crate::binary32::convert::{f_round, f_to_i64, f_to_u32};
use crate::binary32::decimal::parse_f32;
use crate::binary32::facts::{lemma_units_at, order_is_by_value};
use crate::binary32::order::f_clamp;
use crate::binary32::{fl, F32};
use crate::laws::caves::{lemma_const, lemma_grain};
use crate::laws::errors::{lemma_huge, lemma_quotient, one, size};
use crate::laws::levels::lemma_find;
use crate::laws::rewards::lemma_dt;
use crate::laws::rises::lemma_grid;
use crate::laws::roundings::roundings_are_nearest;
use crate::level::{LevelView, Scoring, Vec2};
use crate::parse::{
    parse_point, parse_points, set_level, DraftView, GOAL_MAX, GOAL_MIN, GRAVITY_MAX, GRAVITY_MIN,
    PAD_SPACING_MAX, PAD_SPACING_MIN, PHYSICS_DT, REFUEL_MAX, REFUEL_MIN, START_FUEL_MAX,
    START_FUEL_MIN, TANK_MAX, TANK_MIN, THRUST_MAX, THRUST_MIN, TIME_LIMIT_MAX, TIME_LIMIT_MIN,
};
use crate::text::{
    is_space, parse_u32, same_ignoring_case, split_once, trim, trim_end, trim_start, words,
};
use vstd::arithmetic::power2::{lemma2_to64, lemma_pow2_adds};
use vstd::prelude::*;

verus! {

/// `x` is `f`, or the bound that `f` is beyond.
pub open spec fn taken(x: F32, f: F32, lo: int, hi: int) -> bool {
    x.finite() && x.val() == if f.val() < lo * one() {
        lo * one()
    } else if f.val() > hi * one() {
        hi * one()
    } else {
        f.val()
    }
}

proof fn lemma_taken(f: F32, a: F32, b: F32, lo: int, hi: int)
    requires
        f.finite(),
        a.finite() && a.val() == lo * one(),
        b.finite() && b.val() == hi * one(),
    ensures
        taken(f_clamp(f, a, b), f, lo, hi),
{
    order_is_by_value(f, a);
    order_is_by_value(b, f);
}

/// The keys of a level file are all different.
proof fn lemma_keys()
    ensures
        "name"@.len() == 4 && "name"@[0] == 'n',
        "scoring"@.len() == 7 && "scoring"@[0] == 's',
        "shafts"@.len() == 6,
        "endless"@.len() == 7 && "endless"@[0] == 'e',
        "obstacles"@.len() == 9,
        "pad_spacing"@.len() == 11 && "pad_spacing"@[0] == 'p',
        "time_limit"@.len() == 10 && "time_limit"@[0] == 't',
        "goal_distance"@.len() == 13,
        "fuel"@.len() == 4 && "fuel"@[0] == 'f',
        "gravity"@.len() == 7 && "gravity"@[0] == 'g',
        "thrust"@.len() == 6 && "thrust"@[0] == 't' && "shafts"@[0] == 's',
        "hull"@.len() == 4 && "hull"@[0] == 'h',
        "refuel_rate"@.len() == 11 && "refuel_rate"@[0] == 'r',
        "start_fuel"@.len() == 10 && "start_fuel"@[0] == 's',
        "seed"@.len() == 4 && "seed"@[0] == 's',
{
    reveal_strlit("name");
    reveal_strlit("scoring");
    reveal_strlit("shafts");
    reveal_strlit("endless");
    reveal_strlit("obstacles");
    reveal_strlit("pad_spacing");
    reveal_strlit("time_limit");
    reveal_strlit("goal_distance");
    reveal_strlit("fuel");
    reveal_strlit("gravity");
    reveal_strlit("thrust");
    reveal_strlit("hull");
    reveal_strlit("refuel_rate");
    reveal_strlit("start_fuel");
    reveal_strlit("seed");
}

proof fn lemma_bounds()
    ensures
        fl(PAD_SPACING_MIN).finite() && fl(PAD_SPACING_MIN).val() == 40 * one(),
        fl(PAD_SPACING_MAX).finite() && fl(PAD_SPACING_MAX).val() == 2000 * one(),
        fl(GOAL_MIN).finite() && fl(GOAL_MIN).val() == 100 * one(),
        fl(TANK_MIN).finite() && fl(TANK_MIN).val() == 5 * one(),
        fl(TANK_MAX).finite() && fl(TANK_MAX).val() == 1000 * one(),
        fl(THRUST_MIN).finite() && fl(THRUST_MIN).val() == one(),
        fl(THRUST_MAX).finite() && fl(THRUST_MAX).val() == 50 * one(),
        fl(REFUEL_MIN).finite() && fl(REFUEL_MIN).val() == one(),
        fl(REFUEL_MAX).finite() && fl(REFUEL_MAX).val() == 500 * one(),
        fl(START_FUEL_MIN).finite() && fl(START_FUEL_MIN).val() == one(),
        fl(START_FUEL_MAX).finite() && fl(START_FUEL_MAX).val() == 1000 * one(),
        fl(GRAVITY_MAX).finite() && fl(GRAVITY_MAX).val() == 20 * one(),
        fl(GRAVITY_MIN).finite() && size(5 * fl(GRAVITY_MIN).val() - one()) * 0x10_0000 <= one(),
        fl(TIME_LIMIT_MIN).finite() && fl(TIME_LIMIT_MIN).val() == 5 * one(),
        fl(TIME_LIMIT_MAX).finite() && fl(TIME_LIMIT_MAX).val() == 1200 * one(),
{
    lemma2_to64();
    lemma_grain();
    lemma_const(PAD_SPACING_MIN, 0xa0_0000, 11, 0x5_0000_0000);
    lemma_const(PAD_SPACING_MAX, 0xfa_0000, 16, 0xfa_0000_0000);
    lemma_const(GOAL_MIN, 0xc8_0000, 12, 0xc_8000_0000);
    lemma_const(TANK_MIN, 0xa0_0000, 8, 0xa000_0000);
    lemma_const(TANK_MAX, 0xfa_0000, 15, 0x7d_0000_0000);
    lemma_const(THRUST_MIN, 0x80_0000, 6, 0x2000_0000);
    lemma_const(THRUST_MAX, 0xc8_0000, 11, 0x6_4000_0000);
    lemma_const(REFUEL_MAX, 0xfa_0000, 14, 0x3e_8000_0000);
    lemma_const(GRAVITY_MAX, 0xa0_0000, 10, 0x2_8000_0000);
    lemma_const(GRAVITY_MIN, 0xcc_cccd, 3, 0x666_6668);
    lemma_const(TIME_LIMIT_MAX, 0x96_0000, 16, 0x96_0000_0000);
}

/// A number sets what its key names, and nothing else: as it is, or to the
/// bound that it is beyond.
pub proof fn numbers_are_taken(l: LevelView, v: Seq<char>, f: F32)
    requires
        parse_f32(v) == Some(f),
        f.finite(),
    ensures
        ({
            let x = set_level(l, "pad_spacing"@, v).pad_spacing;
            taken(x, f, 40, 2000) && set_level(l, "pad_spacing"@, v) == (LevelView { pad_spacing: x, ..l })
        }),
        ({
            let x = set_level(l, "fuel"@, v).fuel_max;
            taken(x, f, 5, 1000) && set_level(l, "fuel"@, v) == (LevelView { fuel_max: x, ..l })
        }),
        ({
            let x = set_level(l, "thrust"@, v).thrust_force;
            taken(x, f, 1, 50) && set_level(l, "thrust"@, v) == (LevelView { thrust_force: x, ..l })
        }),
        ({
            let x = set_level(l, "hull"@, v).hull_max;
            taken(x, f, 5, 1000) && set_level(l, "hull"@, v) == (LevelView { hull_max: x, ..l })
        }),
        ({
            let x = set_level(l, "refuel_rate"@, v).refuel_per_s;
            taken(x, f, 1, 500) && set_level(l, "refuel_rate"@, v) == (LevelView { refuel_per_s: x, ..l })
        }),
        ({
            let x = set_level(l, "start_fuel"@, v).start_fuel;
            taken(x, f, 1, 1000) && set_level(l, "start_fuel"@, v) == (LevelView { start_fuel: x, ..l })
        }),
{
    lemma_keys();
    lemma_bounds();
    lemma_taken(f, fl(PAD_SPACING_MIN), fl(PAD_SPACING_MAX), 40, 2000);
    lemma_taken(f, fl(TANK_MIN), fl(TANK_MAX), 5, 1000);
    lemma_taken(f, fl(THRUST_MIN), fl(THRUST_MAX), 1, 50);
    lemma_taken(f, fl(REFUEL_MIN), fl(REFUEL_MAX), 1, 500);
    lemma_taken(f, fl(START_FUEL_MIN), fl(START_FUEL_MAX), 1, 1000);
}

/// A goal is set to its number, from 100 m to 20 km; gravity pulls down with its
/// number, whatever the sign, from 0.2 to 20; a time limit is its number of
/// seconds, at 120 ticks each, from 5 s to 20 minutes.
pub proof fn measures_are_taken(l: LevelView, v: Seq<char>, f: F32)
    requires
        parse_f32(v) == Some(f),
        f.finite(),
    ensures
        ({
            let x = set_level(l, "goal_distance"@, v).goal_distance;
            taken(x, f, 100, 20_000) && set_level(l, "goal_distance"@, v) == (LevelView {
                goal_distance: x,
                ..l
            })
        }),
        ({
            let x = set_level(l, "gravity"@, v).gravity_y;
            &&& x.finite()
            &&& size(f.val()) >= 20 * one() ==> x.val() == -20 * one()
            &&& one() <= size(f.val()) <= 20 * one() ==> x.val() == -size(f.val())
            &&& size(f.val()) <= one() ==> x.val() == -size(f.val()) || (5 * size(f.val()) <= 2 * one()
                && size(5 * x.val() + one()) * 0x10_0000 <= one())
            &&& set_level(l, "gravity"@, v) == (LevelView { gravity_y: x, ..l })
        }),
        ({
            let x = set_level(l, "time_limit"@, v).time_limit_ticks;
            &&& 20 * size(x * one() - 120 * held_in(f.val(), 5, 1200)) <= 11 * one()
            &&& set_level(l, "time_limit"@, v) == (LevelView { time_limit_ticks: x, ..l })
        }),
{
    lemma_keys();
    lemma_bounds();
    lemma_goal();
    lemma_taken(f, fl(GOAL_MIN), fl(GOAL_MAX), 100, 20_000);
    let g = f_abs(f);
    assert(g.finite() && g.val() == size(f.val()));
    order_is_by_value(g, fl(GRAVITY_MIN));
    order_is_by_value(fl(GRAVITY_MAX), g);
    let c = f_clamp(g, fl(GRAVITY_MIN), fl(GRAVITY_MAX));
    assert(f_neg(c).finite() && f_neg(c).val() == -c.val());
    lemma_taken(f, fl(TIME_LIMIT_MIN), fl(TIME_LIMIT_MAX), 5, 1200);
    lemma_ticks(f_clamp(f, fl(TIME_LIMIT_MIN), fl(TIME_LIMIT_MAX)));
}

/// `x`, or the bound that it is beyond.
pub open spec fn held_in(x: int, lo: int, hi: int) -> int {
    if x < lo * one() {
        lo * one()
    } else if x > hi * one() {
        hi * one()
    } else {
        x
    }
}

proof fn lemma_goal()
    ensures
        fl(GOAL_MAX).finite() && fl(GOAL_MAX).val() == 20_000 * one(),
{
    let c = lemma_grid(0x9c_4000, 140);
    lemma_units_at(140, 0x9c_4000);
    lemma2_to64();
    lemma_pow2_adds(140, 9);
}

proof fn lemma_ticks(x: F32)
    requires
        x.finite(),
        5 * one() <= x.val() <= 1200 * one(),
    ensures
        20 * size(f_to_u32(f_round(f_div(x, fl(PHYSICS_DT)))) * one() - 120 * x.val()) <= 11 * one(),
{
    lemma_huge();
    lemma_dt();
    let (u, d) = (one(), fl(PHYSICS_DT).val());
    assert(size(x.val()) <= 0x1000_0000_0000_0000 * d);
    lemma_quotient(x, fl(PHYSICS_DT));
    let q = f_div(x, fl(PHYSICS_DT)).val();
    lemma_rate(q, d, x.val(), u);
    roundings_are_nearest(f_div(x, fl(PHYSICS_DT)));
    let k = f_to_i64(f_round(f_div(x, fl(PHYSICS_DT)))) as int;
    assert(0 <= k <= 150_000) by (nonlinear_arith)
        requires
            -u <= 2 * (q - k * u) <= u,
            u <= q <= 144_001 * u,
            u > 0,
    ;
}

/// A 120th of a second goes 120 times into a second.
proof fn lemma_rate(q: int, d: int, x: int, u: int)
    requires
        u > 0x1000_0000_0000,
        d > 0,
        size(120 * d - u) * 0x100_0000 <= u,
        5 * u <= x <= 1200 * u,
        size(q * d - x * u) * 0x100_0000 <= size(x) * u + 0x80_0000 * d,
    ensures
        size(q - 120 * x) * 0x20 <= u,
        u <= q <= 144_001 * u,
{
    let w = u * u;
    assert(x * u <= 1200 * w && 5 * w <= x * u && w >= 0x1000_0000_0000 * u) by (nonlinear_arith)
        requires
            5 * u <= x <= 1200 * u,
            w == u * u,
            u > 0x1000_0000_0000,
    ;
    let e = 120 * d - u;
    let t = q - 120 * x;
    assert(120 * (q * d - x * u) == t * u + q * e) by (nonlinear_arith)
        requires
            e == 120 * d - u,
            t == q - 120 * x,
    ;
    assert(q * d <= 1201 * w);
    assert(0 <= q <= 146_000 * u) by (nonlinear_arith)
        requires
            0 <= q * d <= 1201 * (u * u),
            121 * d >= u,
            d > 0,
            u > 0,
    {
        if q > 146_000 * u {
            assert(q * d > (146_000 * u) * d);
            assert(121 * ((146_000 * u) * d) >= 146_000 * (u * u));
            assert(146_000 * (u * u) <= 121 * 1201 * (u * u));
        }
        if q < 0 {
            assert(q * d < 0);
        }
    }
    assert(-(146_000 * w) <= 0x100_0000 * (q * e) <= 146_000 * w) by (nonlinear_arith)
        requires
            0 <= q <= 146_000 * u,
            -u <= 0x100_0000 * e <= u,
            w == u * u,
            u > 0,
    {
        let f = 0x100_0000 * e;
        assert(-(146_000 * u * u) <= q * f <= 146_000 * u * u) by (nonlinear_arith)
            requires
                0 <= q <= 146_000 * u,
                -u <= f <= u,
                u > 0,
        ;
        assert(q * f == 0x100_0000 * (q * e)) by (nonlinear_arith)
            requires
                f == 0x100_0000 * e,
        ;
        assert(146_000 * u * u == 146_000 * w) by (nonlinear_arith)
            requires
                w == u * u,
        ;
    }
    assert(-w <= 0x20 * (t * u) <= w);
    assert(-u <= 0x20 * t <= u) by (nonlinear_arith)
        requires
            -w <= 0x20 * (t * u) <= w,
            w == u * u,
            u > 0,
    ;
}

// ---- Words ----

/// A setting that is no number leaves the level as it is, where its key asks for
/// one.
pub proof fn other_words_set_no_number(l: LevelView, v: Seq<char>)
    requires
        parse_f32(v) is None,
    ensures
        set_level(l, "pad_spacing"@, v) == l,
        set_level(l, "time_limit"@, v) == l,
        set_level(l, "goal_distance"@, v) == l,
        set_level(l, "fuel"@, v) == l,
        set_level(l, "gravity"@, v) == l,
        set_level(l, "thrust"@, v) == l,
        set_level(l, "hull"@, v) == l,
        set_level(l, "refuel_rate"@, v) == l,
        set_level(l, "start_fuel"@, v) == l,
{
    lemma_keys();
}

/// `v` is one of the four words that switch something on.
pub open spec fn says_yes(v: Seq<char>) -> bool {
    v == seq!['o', 'n'] || v == seq!['t', 'r', 'u', 'e'] || v == seq!['y', 'e', 's'] || v == seq!['1']
}

/// A name is taken as it is; a switch switches what it names on or off, and
/// nothing else.
pub proof fn words_are_taken(l: LevelView, v: Seq<char>)
    ensures
        set_level(l, "name"@, v) == (LevelView { name: v, ..l }),
        set_level(l, "shafts"@, v) == (LevelView { shafts: says_yes(v), ..l }),
        set_level(l, "endless"@, v) == (LevelView { endless: says_yes(v), ..l }),
        set_level(l, "obstacles"@, v) == (LevelView { obstacles: says_yes(v), ..l }),
{
    lemma_keys();
    reveal_strlit("on");
    reveal_strlit("true");
    reveal_strlit("yes");
    reveal_strlit("1");
    assert("on"@ =~= seq!['o', 'n']);
    assert("true"@ =~= seq!['t', 'r', 'u', 'e']);
    assert("yes"@ =~= seq!['y', 'e', 's']);
    assert("1"@ =~= seq!['1']);
}

/// A seed is a whole number, or drawn anew for each run.
pub proof fn seeds_are_taken(l: LevelView, v: Seq<char>)
    ensures
        ({
            let m = set_level(l, "seed"@, v);
            if same_ignoring_case(v, seq!['r', 'a', 'n', 'd', 'o', 'm']) {
                m == (LevelView { random_seed: true, ..l })
            } else {
                match parse_u32(v) {
                    Some(s) => m == (LevelView { seed: s, ..l }),
                    None => m == l,
                }
            }
        }),
{
    lemma_keys();
    reveal_strlit("random");
    assert("random"@ =~= seq!['r', 'a', 'n', 'd', 'o', 'm']);
}

/// Scoring goes by distance or by time where the word says so, in capitals or
/// not, and else by pads.
pub proof fn scorings_are_taken(l: LevelView, v: Seq<char>)
    ensures
        ({
            let m = set_level(l, "scoring"@, v);
            &&& same_ignoring_case(v, seq!['d', 'i', 's', 't', 'a', 'n', 'c', 'e']) <==> m.scoring
                == Scoring::Distance
            &&& same_ignoring_case(v, seq!['t', 'i', 'm', 'e']) <==> m.scoring == Scoring::Time
            &&& m == (LevelView { scoring: m.scoring, ..l })
        }),
{
    lemma_keys();
    reveal_strlit("distance");
    reveal_strlit("time");
    assert("distance"@ =~= seq!['d', 'i', 's', 't', 'a', 'n', 'c', 'e']);
    assert("time"@ =~= seq!['t', 'i', 'm', 'e']);
}

// ---- Points ----

proof fn lemma_parted(a: Seq<char>, b: Seq<char>, c: char)
    requires
        !a.contains(c),
    ensures
        split_once(a + seq![c] + b, c) == Some((a, b)),
{
    let rest = seq![c] + b;
    let s = a + seq![c] + b;
    assert(s =~= a + rest);
    lemma_find(a, rest, c);
    assert(rest[0] == c);
    assert(s.subrange(0, a.len() as int) =~= a);
    assert(s.subrange(a.len() as int + 1, s.len() as int) =~= b);
}

/// A point is read across, then up: the first number is its x, the second its y.
/// It is a point only with both.
pub proof fn points_are_read_across_then_up(a: Seq<char>, b: Seq<char>)
    requires
        !a.contains(','),
    ensures
        match parse_point(a + seq![','] + b) {
            Some(p) => parse_f32(trim(a)) == Some(p.x) && parse_f32(trim(b)) == Some(p.y),
            None => parse_f32(trim(a)) is None || parse_f32(trim(b)) is None,
        },
        parse_point(a) is None,
{
    lemma_parted(a, b, ',');
    lemma_find(a, Seq::<char>::empty(), ',');
}

/// The points of a polygon are those of its words, in order; what is no point is
/// left out.
pub proof fn points_keep_their_order(a: Seq<Seq<char>>, b: Seq<Seq<char>>, w: Seq<char>)
    ensures
        parse_points(a + b) == parse_points(a) + parse_points(b),
        parse_points(seq![w]) == match parse_point(w) {
            Some(p) => seq![p],
            None => seq![],
        },
    decreases b.len(),
{
    reveal_with_fuel(parse_points, 2);
    assert(seq![w].drop_last() =~= seq![]);
    if b.len() == 0 {
        assert(a + b =~= a);
        assert(parse_points(a) + parse_points(b) =~= parse_points(a));
    } else {
        points_keep_their_order(a, b.drop_last(), w);
        assert((a + b).drop_last() =~= a + b.drop_last());
        assert(parse_points(a + b) =~= parse_points(a) + parse_points(b));
    }
}

/// A line sets what stands before its first `=` to what stands behind, both
/// without the white space around them.
pub proof fn lines_set_at_the_first_equals(d: DraftView, k: Seq<char>, v: Seq<char>)
    requires
        k.len() > 0,
        !is_space(k[0]),
        k[0] != '#',
        !k.contains('='),
        v.len() > 0,
        !is_space(v.last()),
    ensures
        d.line(k + seq!['='] + v) == d.set(trim(k), trim(v)),
{
    let l = k + seq!['='] + v;
    lemma_parted(k, v, '=');
    assert(l[0] == k[0] && l.last() == v.last());
    assert(trim_start(l) == l && trim_end(l) == l);
}

/// Geometry adds to what is drawn: a polygon of three corners or more, a pad,
/// the start platform, the height of the start; and sets nothing of the level.
pub proof fn geometry_is_drawn(d: DraftView, v: Seq<char>)
    ensures
        ({
            let m = d.set("poly"@, v);
            let p = parse_points(words(v));
            &&& m == (DraftView { polys: m.polys, ..d })
            &&& p.len() < 3 ==> m.polys == d.polys
            &&& p.len() >= 3 ==> m.polys.len() == d.polys.len() + 1 && m.polys.drop_last() == d.polys
                && m.polys.last().to_multiset() == p.to_multiset()
        }),
        d.set("pad"@, v) == (DraftView {
            pads: match parse_point(v) {
                Some(p) => d.pads.push(p),
                None => d.pads,
            },
            ..d
        }),
        d.set("start"@, v) == (DraftView { start: parse_point(v), ..d }),
        d.set("spawn_y"@, v) == (DraftView {
            spawn_y: match parse_f32(v) {
                Some(f) => f,
                None => d.spawn_y,
            },
            ..d
        }),
{
    reveal_strlit("poly");
    reveal_strlit("pad");
    reveal_strlit("start");
    reveal_strlit("spawn_y");
    assert("spawn_y"@.len() == 7 && "start"@.len() == 5 && "pad"@.len() == 3 && "poly"@.len() == 4);
    let p = parse_points(words(v));
    if p.len() >= 3 {
        let m = d.set("poly"@, v);
        assert(m.polys.drop_last() =~= d.polys);
        lemma_reversed(p);
    }
}

/// A file that draws a polygon is a hand-drawn world of all that it draws; the
/// ground of its start is the start platform, where there is one, and else the
/// height that the file gives. A file that draws none is the level that it sets.
pub proof fn drawings_become_the_world(d: DraftView)
    ensures
        d.polys.len() == 0 ==> d.finish() == d.level,
        d.polys.len() > 0 ==> {
            let l = d.finish();
            &&& l.terrain is Some
            &&& l.terrain->0.polys == d.polys && l.terrain->0.pads == d.pads
            &&& l.terrain->0.start == d.start
            &&& match d.start {
                Some(p) => l.terrain->0.spawn_y == p.y,
                None => l.terrain->0.spawn_y == d.spawn_y,
            }
            &&& l.name == d.level.name && l.scoring == d.level.scoring && l.seed == d.level.seed
            &&& l.time_limit_ticks == d.level.time_limit_ticks && l.fuel_max == d.level.fuel_max
            &&& l.hull_max == d.level.hull_max && l.gravity_y == d.level.gravity_y
            &&& l.thrust_force == d.level.thrust_force && l.start_fuel == d.level.start_fuel
        },
{
}

/// Nothing but white space.
pub open spec fn blank_text(s: Seq<char>) -> bool {
    forall|i: int| 0 <= i < s.len() ==> is_space(#[trigger] s[i])
}

/// Trimming takes away white space at either end, all of it, and nothing else.
pub proof fn trimming_takes_white_space(s: Seq<char>)
    ensures
        exists|a: Seq<char>, b: Seq<char>| #[trigger]
            blank_text(a) && #[trigger] blank_text(b) && s == a + trim(s) + b,
        trim(s).len() > 0 ==> !is_space(trim(s)[0]) && !is_space(trim(s).last()),
{
    let a = lemma_trim_start(s);
    let t = trim_start(s);
    let b = lemma_trim_end(t);
    assert(s =~= a + trim(s) + b);
    if trim(s).len() > 0 {
        assert(trim(s)[0] == t[0]);
    }
}

proof fn lemma_trim_start(s: Seq<char>) -> (a: Seq<char>)
    ensures
        blank_text(a),
        s == a + trim_start(s),
        trim_start(s).len() > 0 ==> !is_space(trim_start(s)[0]),
    decreases s.len(),
{
    if s.len() > 0 && is_space(s[0]) {
        let rest = lemma_trim_start(s.drop_first());
        let a = seq![s[0]] + rest;
        assert(s =~= seq![s[0]] + s.drop_first());
        assert(seq![s[0]] + (rest + trim_start(s)) =~= a + trim_start(s));
        a
    } else {
        assert(s =~= Seq::<char>::empty() + s);
        Seq::empty()
    }
}

proof fn lemma_trim_end(s: Seq<char>) -> (b: Seq<char>)
    ensures
        blank_text(b),
        s == trim_end(s) + b,
        trim_end(s).len() > 0 ==> !is_space(trim_end(s).last()),
    decreases s.len(),
{
    if s.len() > 0 && is_space(s.last()) {
        let rest = lemma_trim_end(s.drop_last());
        let b = rest.push(s.last());
        assert(s =~= s.drop_last().push(s.last()));
        assert((trim_end(s) + rest).push(s.last()) =~= trim_end(s) + b);
        b
    } else {
        assert(s =~= s + Seq::<char>::empty());
        Seq::empty()
    }
}

proof fn lemma_reversed(p: Seq<Vec2>)
    ensures
        p.reverse().to_multiset() == p.to_multiset(),
    decreases p.len(),
{
    broadcast use vstd::seq_lib::group_to_multiset_ensures;

    if p.len() == 0 {
        assert(p.reverse() =~= p);
    } else {
        lemma_reversed(p.drop_first());
        assert(p.reverse() =~= p.drop_first().reverse().push(p[0]));
        assert(p =~= seq![p[0]] + p.drop_first());
        assert(p.drop_first() =~= p.remove(0));
        assert(p.to_multiset() =~= p.drop_first().to_multiset().insert(p[0]));
    }
}

} // verus!
