//! The `key = value` level file format.

use crate::binary32::arith::{f_abs, f_add, f_div, f_mul, f_neg, f_sub};
use crate::binary32::convert::{f_round, f_to_u32};
use crate::binary32::decimal::{number, parse_f32};
use crate::binary32::order::{f_clamp, f_le, f_lt};
use crate::binary32::{fl, F32};
use crate::level::{demo_level, outlines, Level, LevelView, Scoring, Terrain, TerrainView, Vec2};
use crate::text::{
    all_lines, all_words, is_word, is_word_any_case, lines, number_u32, parse_u32,
    same_ignoring_case, split_at, split_once, texts, to_chars, to_text, trim, trimmed, words,
};
use vstd::prelude::*;

verus! {

/// `1 / 120`: seconds per tick.
pub const PHYSICS_DT: u32 = 0x3c08_8889;

/// `40` and `2000`: the bounds of `pad_spacing`.
pub const PAD_SPACING_MIN: u32 = 0x4220_0000;

pub const PAD_SPACING_MAX: u32 = 0x44fa_0000;

/// `5` and `1200`: the bounds of `time_limit`, in seconds.
pub const TIME_LIMIT_MIN: u32 = 0x40a0_0000;

pub const TIME_LIMIT_MAX: u32 = 0x4496_0000;

/// `100` and `20000`: the bounds of `goal_distance`.
pub const GOAL_MIN: u32 = 0x42c8_0000;

pub const GOAL_MAX: u32 = 0x469c_4000;

/// `5` and `1000`: the bounds of `fuel` and of `hull`.
pub const TANK_MIN: u32 = 0x40a0_0000;

pub const TANK_MAX: u32 = 0x447a_0000;

/// `0.2` and `20`: the bounds of `gravity`.
pub const GRAVITY_MIN: u32 = 0x3e4c_cccd;

pub const GRAVITY_MAX: u32 = 0x41a0_0000;

/// `1` and `50`: the bounds of `thrust`.
pub const THRUST_MIN: u32 = 0x3f80_0000;

pub const THRUST_MAX: u32 = 0x4248_0000;

/// `1` and `500`: the bounds of `refuel_rate`.
pub const REFUEL_MIN: u32 = 0x3f80_0000;

pub const REFUEL_MAX: u32 = 0x43fa_0000;

/// `1` and `1000`: the bounds of `start_fuel`.
pub const START_FUEL_MIN: u32 = 0x3f80_0000;

pub const START_FUEL_MAX: u32 = 0x447a_0000;

/// What has been read so far: the level, and the hand-drawn geometry that
/// becomes its terrain if any polygon was among it.
pub struct DraftView {
    pub level: LevelView,
    pub polys: Seq<Seq<Vec2>>,
    pub pads: Seq<Vec2>,
    pub start: Option<Vec2>,
    pub spawn_y: F32,
}

/// `x,y`.
pub open spec fn parse_point(s: Seq<char>) -> Option<Vec2> {
    match split_once(s, ',') {
        Some((a, b)) => match (parse_f32(trim(a)), parse_f32(trim(b))) {
            (Some(x), Some(y)) => Some(Vec2 { x, y }),
            _ => None,
        },
        None => None,
    }
}

/// The points among the words of a polygon line.
pub open spec fn parse_points(ws: Seq<Seq<char>>) -> Seq<Vec2>
    decreases ws.len(),
{
    if ws.len() == 0 {
        seq![]
    } else {
        match parse_point(ws.last()) {
            Some(p) => parse_points(ws.drop_last()).push(p),
            None => parse_points(ws.drop_last()),
        }
    }
}

/// Twice the signed area of the first `n` edges of a polygon.
pub open spec fn area2(p: Seq<Vec2>, n: nat) -> F32
    decreases n,
{
    if n == 0 {
        fl(0)
    } else {
        let a = p[n - 1];
        let b = p[(n as int) % (p.len() as int)];
        f_add(area2(p, (n - 1) as nat), f_sub(f_mul(a.x, b.y), f_mul(b.x, a.y)))
    }
}

/// A polygon wound counter-clockwise.
pub open spec fn wound(p: Seq<Vec2>) -> Seq<Vec2> {
    if f_lt(area2(p, p.len()), fl(0)) {
        p.reverse()
    } else {
        p
    }
}

pub open spec fn is_on(v: Seq<char>) -> bool {
    v == "on"@ || v == "true"@ || v == "yes"@ || v == "1"@
}

pub open spec fn parse_scoring(v: Seq<char>) -> Scoring {
    if same_ignoring_case(v, "distance"@) {
        Scoring::Distance
    } else if same_ignoring_case(v, "time"@) {
        Scoring::Time
    } else {
        Scoring::Pads
    }
}

/// A number held between two bounds, or `old` where the text is no number.
pub open spec fn bounded(v: Seq<char>, old: F32, lo: u32, hi: u32) -> F32 {
    match parse_f32(v) {
        Some(f) => f_clamp(f, fl(lo), fl(hi)),
        None => old,
    }
}

/// Seconds as a whole number of ticks.
pub open spec fn limit_ticks(f: F32) -> u32 {
    f_to_u32(f_round(f_div(f_clamp(f, fl(TIME_LIMIT_MIN), fl(TIME_LIMIT_MAX)), fl(PHYSICS_DT))))
}

/// The level after the setting `k = v`; unknown keys and geometry leave it.
pub open spec fn set_level(l: LevelView, k: Seq<char>, v: Seq<char>) -> LevelView {
    if k == "name"@ {
        LevelView { name: v, ..l }
    } else if k == "scoring"@ {
        LevelView { scoring: parse_scoring(v), ..l }
    } else if k == "shafts"@ {
        LevelView { shafts: is_on(v), ..l }
    } else if k == "endless"@ {
        LevelView { endless: is_on(v), ..l }
    } else if k == "obstacles"@ {
        LevelView { obstacles: is_on(v), ..l }
    } else if k == "pad_spacing"@ {
        LevelView { pad_spacing: bounded(v, l.pad_spacing, PAD_SPACING_MIN, PAD_SPACING_MAX), ..l }
    } else if k == "time_limit"@ {
        LevelView {
            time_limit_ticks: match parse_f32(v) {
                Some(f) => limit_ticks(f),
                None => l.time_limit_ticks,
            },
            ..l
        }
    } else if k == "goal_distance"@ {
        LevelView { goal_distance: bounded(v, l.goal_distance, GOAL_MIN, GOAL_MAX), ..l }
    } else if k == "fuel"@ {
        LevelView { fuel_max: bounded(v, l.fuel_max, TANK_MIN, TANK_MAX), ..l }
    } else if k == "gravity"@ {
        LevelView {
            gravity_y: match parse_f32(v) {
                Some(f) => f_neg(f_clamp(f_abs(f), fl(GRAVITY_MIN), fl(GRAVITY_MAX))),
                None => l.gravity_y,
            },
            ..l
        }
    } else if k == "thrust"@ {
        LevelView { thrust_force: bounded(v, l.thrust_force, THRUST_MIN, THRUST_MAX), ..l }
    } else if k == "hull"@ {
        LevelView { hull_max: bounded(v, l.hull_max, TANK_MIN, TANK_MAX), ..l }
    } else if k == "refuel_rate"@ {
        LevelView { refuel_per_s: bounded(v, l.refuel_per_s, REFUEL_MIN, REFUEL_MAX), ..l }
    } else if k == "start_fuel"@ {
        LevelView { start_fuel: bounded(v, l.start_fuel, START_FUEL_MIN, START_FUEL_MAX), ..l }
    } else if k == "seed"@ {
        if same_ignoring_case(v, "random"@) {
            LevelView { random_seed: true, ..l }
        } else {
            match parse_u32(v) {
                Some(s) => LevelView { seed: s, ..l },
                None => l,
            }
        }
    } else {
        l
    }
}

/// Whether `k` names hand-drawn geometry.
pub open spec fn is_geometry(k: Seq<char>) -> bool {
    k == "poly"@ || k == "pad"@ || k == "start"@ || k == "spawn_y"@
}

impl DraftView {
    /// The geometry after the setting `k = v`.
    pub open spec fn draw(self, k: Seq<char>, v: Seq<char>) -> DraftView {
        if k == "poly"@ {
            let p = parse_points(words(v));
            if p.len() >= 3 {
                DraftView { polys: self.polys.push(wound(p)), ..self }
            } else {
                self
            }
        } else if k == "pad"@ {
            match parse_point(v) {
                Some(p) => DraftView { pads: self.pads.push(p), ..self },
                None => self,
            }
        } else if k == "start"@ {
            DraftView { start: parse_point(v), ..self }
        } else if k == "spawn_y"@ {
            match parse_f32(v) {
                Some(f) => DraftView { spawn_y: f, ..self },
                None => self,
            }
        } else {
            self
        }
    }

    /// The draft after the setting `k = v`.
    pub open spec fn set(self, k: Seq<char>, v: Seq<char>) -> DraftView {
        if is_geometry(k) {
            self.draw(k, v)
        } else {
            DraftView { level: set_level(self.level, k, v), ..self }
        }
    }

    /// The draft after one line: blank lines, comments and lines without `=`
    /// leave it as it is.
    pub open spec fn line(self, text: Seq<char>) -> DraftView {
        let l = trim(text);
        if l.len() == 0 || l[0] == '#' {
            self
        } else {
            match split_once(l, '=') {
                Some((k, v)) => self.set(trim(k), trim(v)),
                None => self,
            }
        }
    }

    /// The finished level. Any polygon switches it to hand-drawn terrain,
    /// which turns off what only the generator makes; the start platform,
    /// where there is one, is the spawn ground.
    pub open spec fn finish(self) -> LevelView {
        if self.polys.len() > 0 {
            LevelView {
                terrain: Some(
                    TerrainView {
                        polys: self.polys,
                        pads: self.pads,
                        start: self.start,
                        spawn_y: match self.start {
                            Some(p) => p.y,
                            None => self.spawn_y,
                        },
                    },
                ),
                shafts: false,
                obstacles: false,
                goal_distance: fl(0),
                ..self.level
            }
        } else {
            self.level
        }
    }
}

/// Nothing read yet.
pub open spec fn blank() -> DraftView {
    DraftView {
        level: demo_level(),
        polys: seq![],
        pads: seq![],
        start: None,
        spawn_y: fl(0),
    }
}

/// The draft after a number of lines.
pub open spec fn draft(ls: Seq<Seq<char>>) -> DraftView
    decreases ls.len(),
{
    if ls.len() == 0 {
        blank()
    } else {
        draft(ls.drop_last()).line(ls.last())
    }
}

/// The level that a level file describes.
pub open spec fn parse_level(text: Seq<char>) -> LevelView {
    draft(lines(text)).finish()
}

struct Draft {
    level: Level,
    polys: Vec<Vec<Vec2>>,
    pads: Vec<Vec2>,
    start: Option<Vec2>,
    spawn_y: F32,
}

impl Draft {
    spec fn view(&self) -> DraftView {
        DraftView {
            level: self.level@,
            polys: outlines(self.polys@),
            pads: self.pads@,
            start: self.start,
            spawn_y: self.spawn_y,
        }
    }
}

fn point(s: &Vec<char>) -> (r: Option<Vec2>)
    ensures
        r == parse_point(s@),
{
    match split_at(s, ',') {
        Some((a, b)) => {
            let x = number(&trimmed(&a));
            let y = number(&trimmed(&b));
            match (x, y) {
                (Some(x), Some(y)) => Some(Vec2 { x, y }),
                _ => None,
            }
        },
        None => None,
    }
}

fn points(ws: &Vec<Vec<char>>) -> (r: Vec<Vec2>)
    ensures
        r@ == parse_points(texts(ws@)),
{
    let mut r: Vec<Vec2> = Vec::new();
    let mut i: usize = 0;
    let ghost t = texts(ws@);
    assert(t.subrange(0, 0) =~= seq![]);
    while i < ws.len()
        invariant
            i <= ws.len(),
            t == texts(ws@),
            r@ == parse_points(t.subrange(0, i as int)),
        decreases ws.len() - i,
    {
        proof {
            let u = t.subrange(0, i + 1);
            assert(u.drop_last() =~= t.subrange(0, i as int));
            assert(u.last() == ws@[i as int]@);
        }
        match point(&ws[i]) {
            Some(p) => r.push(p),
            None => {},
        }
        i = i + 1;
    }
    assert(t.subrange(0, ws.len() as int) =~= t);
    r
}

fn wind(p: Vec<Vec2>) -> (r: Vec<Vec2>)
    requires
        p.len() > 0,
    ensures
        r@ == wound(p@),
{
    let n: usize = p.len();
    let mut area: F32 = fl(0);
    let mut i: usize = 0;
    while i < n
        invariant
            i <= n,
            n == p.len(),
            n > 0,
            area == area2(p@, i as nat),
        decreases n - i,
    {
        let a: Vec2 = p[i];
        let next: usize = if i + 1 == n {
            0
        } else {
            i + 1
        };
        proof {
            if i + 1 < n {
                vstd::arithmetic::div_mod::lemma_small_mod((i + 1) as nat, n as nat);
            } else {
                vstd::arithmetic::div_mod::lemma_mod_self_0(n as int);
            }
        }
        let b: Vec2 = p[next];
        area = area.plus(a.x.times(b.y).minus(b.x.times(a.y)));
        i = i + 1;
    }
    if area.lt(fl(0)) {
        let mut r: Vec<Vec2> = Vec::new();
        let mut j: usize = n;
        while j > 0
            invariant
                j <= n,
                n == p.len(),
                r.len() == n - j,
                forall|k: int| 0 <= k < r.len() ==> r@[k] == p@[n - 1 - k],
            decreases j,
        {
            j = j - 1;
            r.push(p[j]);
        }
        assert(r@ =~= p@.reverse());
        r
    } else {
        p
    }
}

/// A number held between two bounds, or `old`.
fn bound(v: &Vec<char>, old_value: F32, lo: u32, hi: u32) -> (r: F32)
    requires
        f_le(fl(lo), fl(hi)),
    ensures
        r == bounded(v@, old_value, lo, hi),
{
    match number(v) {
        Some(f) => f.clamp(fl(lo), fl(hi)),
        None => old_value,
    }
}

fn switch(v: &Vec<char>) -> (r: bool)
    ensures
        r == is_on(v@),
{
    is_word(v, "on") || is_word(v, "true") || is_word(v, "yes") || is_word(v, "1")
}

#[verifier::rlimit(40)]
fn apply_level(l: &mut Level, k: &Vec<char>, v: &Vec<char>)
    ensures
        final(l)@ == set_level(old(l)@, k@, v@),
{
    if is_word(k, "name") {
        l.name = to_text(v);
    } else if is_word(k, "scoring") {
        l.scoring = if is_word_any_case(v, "distance") {
            Scoring::Distance
        } else if is_word_any_case(v, "time") {
            Scoring::Time
        } else {
            Scoring::Pads
        };
    } else if is_word(k, "shafts") {
        l.shafts = switch(v);
    } else if is_word(k, "endless") {
        l.endless = switch(v);
    } else if is_word(k, "obstacles") {
        l.obstacles = switch(v);
    } else if is_word(k, "pad_spacing") {
        l.pad_spacing = bound(v, l.pad_spacing, PAD_SPACING_MIN, PAD_SPACING_MAX);
    } else if is_word(k, "time_limit") {
        match number(v) {
            Some(f) => {
                let t: F32 = f.clamp(fl(TIME_LIMIT_MIN), fl(TIME_LIMIT_MAX)).over(fl(PHYSICS_DT));
                l.time_limit_ticks = t.round().to_u32();
            },
            None => {},
        }
    } else if is_word(k, "goal_distance") {
        l.goal_distance = bound(v, l.goal_distance, GOAL_MIN, GOAL_MAX);
    } else if is_word(k, "fuel") {
        l.fuel_max = bound(v, l.fuel_max, TANK_MIN, TANK_MAX);
    } else if is_word(k, "gravity") {
        match number(v) {
            Some(f) => {
                l.gravity_y = f.abs().clamp(fl(GRAVITY_MIN), fl(GRAVITY_MAX)).negate();
            },
            None => {},
        }
    } else if is_word(k, "thrust") {
        l.thrust_force = bound(v, l.thrust_force, THRUST_MIN, THRUST_MAX);
    } else if is_word(k, "hull") {
        l.hull_max = bound(v, l.hull_max, TANK_MIN, TANK_MAX);
    } else if is_word(k, "refuel_rate") {
        l.refuel_per_s = bound(v, l.refuel_per_s, REFUEL_MIN, REFUEL_MAX);
    } else if is_word(k, "start_fuel") {
        l.start_fuel = bound(v, l.start_fuel, START_FUEL_MIN, START_FUEL_MAX);
    } else if is_word(k, "seed") {
        if is_word_any_case(v, "random") {
            l.random_seed = true;
        } else {
            match number_u32(v) {
                Some(s) => {
                    l.seed = s;
                },
                None => {},
            }
        }
    }
}

fn apply(d: &mut Draft, k: &Vec<char>, v: &Vec<char>)
    ensures
        final(d)@ == old(d)@.set(k@, v@),
{
    if is_word(k, "poly") {
        let p: Vec<Vec2> = points(&all_words(v));
        if p.len() >= 3 {
            let ghost before = d.polys@;
            let q: Vec<Vec2> = wind(p);
            d.polys.push(q);
            assert(outlines(d.polys@) =~= outlines(before).push(q@));
        }
    } else if is_word(k, "pad") {
        match point(v) {
            Some(p) => d.pads.push(p),
            None => {},
        }
    } else if is_word(k, "start") {
        d.start = point(v);
    } else if is_word(k, "spawn_y") {
        match number(v) {
            Some(f) => {
                d.spawn_y = f;
            },
            None => {},
        }
    } else {
        apply_level(&mut d.level, k, v);
    }
}

fn read_line(d: &mut Draft, text: &Vec<char>)
    ensures
        final(d)@ == old(d)@.line(text@),
{
    let l: Vec<char> = trimmed(text);
    if l.len() == 0 || l[0] == '#' {
        return;
    }
    match split_at(&l, '=') {
        Some((k, v)) => apply(d, &trimmed(&k), &trimmed(&v)),
        None => {},
    }
}

impl Level {
    /// Reads a level file. Unknown keys are ignored, missing ones keep the
    /// defaults.
    pub fn parse(text: &str) -> (r: Level)
        ensures
            r@ == parse_level(text@),
    {
        let ls: Vec<Vec<char>> = all_lines(&to_chars(text));
        let ghost t = texts(ls@);
        let mut d = Draft {
            level: Level::demo(),
            polys: Vec::new(),
            pads: Vec::new(),
            start: None,
            spawn_y: fl(0),
        };
        assert(t.subrange(0, 0) =~= seq![]);
        assert(outlines(d.polys@) =~= seq![]);
        assert(d.pads@ =~= seq![]);
        let mut i: usize = 0;
        while i < ls.len()
            invariant
                i <= ls.len(),
                t == texts(ls@),
                d@ == draft(t.subrange(0, i as int)),
            decreases ls.len() - i,
        {
            proof {
                let u = t.subrange(0, i + 1);
                assert(u.drop_last() =~= t.subrange(0, i as int));
                assert(u.last() == ls@[i as int]@);
            }
            read_line(&mut d, &ls[i]);
            i = i + 1;
        }
        assert(t.subrange(0, ls.len() as int) =~= t);
        let ghost done = d@;
        let mut level: Level = d.level;
        if d.polys.len() > 0 {
            let spawn_y: F32 = match d.start {
                Some(p) => p.y,
                None => d.spawn_y,
            };
            level.terrain = Some(
                Terrain { polys: d.polys, pads: d.pads, start: d.start, spawn_y },
            );
            level.shafts = false;
            level.obstacles = false;
            level.goal_distance = fl(0);
        }
        assert(level@ =~= done.finish());
        level
    }
}

} // verus!
