//! Levels: the parameters that shape a world, and the subset of them that a
//! recording carries.

use crate::binary32::order::f_eq;
use crate::binary32::{fl, F32};
use crate::text::{is_word, to_chars};
use vstd::prelude::*;

verus! {

/// `130`: metres between pad slots.
pub const PAD_SPACING: u32 = 0x4302_0000;

/// A point or vector in the plane.
#[derive(Clone, Copy, PartialEq, Eq, Debug, Structural)]
pub struct Vec2 {
    pub x: F32,
    pub y: F32,
}

/// What a run is scored by.
#[derive(Clone, Copy, PartialEq, Eq, Debug, Structural)]
pub enum Scoring {
    /// Points for the first landing on each pad.
    Pads,
    /// The farthest distance from the start.
    Distance,
    /// The time to the completing landing.
    Time,
}

/// Hand-drawn world geometry: closed polygons of solid rock, and where the
/// pads and the start platform stand.
#[derive(Debug)]
pub struct Terrain {
    pub polys: Vec<Vec<Vec2>>,
    pub pads: Vec<Vec2>,
    pub start: Option<Vec2>,
    pub spawn_y: F32,
}

/// The parameters of one level. A number that is 0 inherits the ruleset's.
#[derive(Debug)]
pub struct Level {
    pub name: String,
    pub scoring: Scoring,
    pub shafts: bool,
    pub obstacles: bool,
    pub pad_spacing: F32,
    pub seed: u32,
    pub endless: bool,
    pub terrain: Option<Terrain>,
    pub time_limit_ticks: u32,
    pub goal_distance: F32,
    pub fuel_max: F32,
    pub gravity_y: F32,
    pub thrust_force: F32,
    pub hull_max: F32,
    pub refuel_per_s: F32,
    pub start_fuel: F32,
    pub random_seed: bool,
}

/// The physics-relevant part of a level, as a recording's header holds it.
#[derive(Debug)]
pub struct LevelParams {
    pub scoring: u8,
    pub shafts: u8,
    pub obstacles: u8,
    pub pad_spacing: F32,
    pub seed: u32,
    pub endless: u8,
    pub terrain: Option<Terrain>,
    pub time_limit_ticks: u32,
    pub goal_distance: F32,
    pub fuel_max: F32,
    pub gravity_y: F32,
    pub thrust_force: F32,
    pub hull_max: F32,
    pub refuel_per_s: F32,
    pub start_fuel: F32,
}

/// What a `Terrain` holds.
#[verifier::ext_equal]
pub struct TerrainView {
    pub polys: Seq<Seq<Vec2>>,
    pub pads: Seq<Vec2>,
    pub start: Option<Vec2>,
    pub spawn_y: F32,
}

/// What a `Level` holds.
#[verifier::ext_equal]
pub struct LevelView {
    pub name: Seq<char>,
    pub scoring: Scoring,
    pub shafts: bool,
    pub obstacles: bool,
    pub pad_spacing: F32,
    pub seed: u32,
    pub endless: bool,
    pub terrain: Option<TerrainView>,
    pub time_limit_ticks: u32,
    pub goal_distance: F32,
    pub fuel_max: F32,
    pub gravity_y: F32,
    pub thrust_force: F32,
    pub hull_max: F32,
    pub refuel_per_s: F32,
    pub start_fuel: F32,
    pub random_seed: bool,
}

/// What a `LevelParams` holds.
#[verifier::ext_equal]
pub struct ParamsView {
    pub scoring: u8,
    pub shafts: u8,
    pub obstacles: u8,
    pub pad_spacing: F32,
    pub seed: u32,
    pub endless: u8,
    pub terrain: Option<TerrainView>,
    pub time_limit_ticks: u32,
    pub goal_distance: F32,
    pub fuel_max: F32,
    pub gravity_y: F32,
    pub thrust_force: F32,
    pub hull_max: F32,
    pub refuel_per_s: F32,
    pub start_fuel: F32,
}

/// The view of a vector of polygons.
pub open spec fn outlines(v: Seq<Vec<Vec2>>) -> Seq<Seq<Vec2>> {
    v.map_values(|p: Vec<Vec2>| p@)
}

impl View for Terrain {
    type V = TerrainView;

    open spec fn view(&self) -> TerrainView {
        TerrainView {
            polys: outlines(self.polys@),
            pads: self.pads@,
            start: self.start,
            spawn_y: self.spawn_y,
        }
    }
}

/// The view of an optional terrain.
pub open spec fn terrain_view(t: Option<Terrain>) -> Option<TerrainView> {
    match t {
        Some(t) => Some(t@),
        None => None,
    }
}

impl View for Level {
    type V = LevelView;

    open spec fn view(&self) -> LevelView {
        LevelView {
            name: self.name@,
            scoring: self.scoring,
            shafts: self.shafts,
            obstacles: self.obstacles,
            pad_spacing: self.pad_spacing,
            seed: self.seed,
            endless: self.endless,
            terrain: terrain_view(self.terrain),
            time_limit_ticks: self.time_limit_ticks,
            goal_distance: self.goal_distance,
            fuel_max: self.fuel_max,
            gravity_y: self.gravity_y,
            thrust_force: self.thrust_force,
            hull_max: self.hull_max,
            refuel_per_s: self.refuel_per_s,
            start_fuel: self.start_fuel,
            random_seed: self.random_seed,
        }
    }
}

impl View for LevelParams {
    type V = ParamsView;

    open spec fn view(&self) -> ParamsView {
        ParamsView {
            scoring: self.scoring,
            shafts: self.shafts,
            obstacles: self.obstacles,
            pad_spacing: self.pad_spacing,
            seed: self.seed,
            endless: self.endless,
            terrain: terrain_view(self.terrain),
            time_limit_ticks: self.time_limit_ticks,
            goal_distance: self.goal_distance,
            fuel_max: self.fuel_max,
            gravity_y: self.gravity_y,
            thrust_force: self.thrust_force,
            hull_max: self.hull_max,
            refuel_per_s: self.refuel_per_s,
            start_fuel: self.start_fuel,
        }
    }
}

/// Numerical equality of points.
pub open spec fn point_eq(a: Vec2, b: Vec2) -> bool {
    f_eq(a.x, b.x) && f_eq(a.y, b.y)
}

/// Numerical equality of sequences of points.
pub open spec fn points_eq(a: Seq<Vec2>, b: Seq<Vec2>) -> bool {
    a.len() == b.len() && forall|i: int| 0 <= i < a.len() ==> point_eq(#[trigger] a[i], b[i])
}

impl TerrainView {
    /// Field-by-field numerical equality.
    pub open spec fn same(self, o: TerrainView) -> bool {
        &&& self.polys.len() == o.polys.len()
        &&& forall|i: int| 0 <= i < self.polys.len() ==> points_eq(#[trigger] self.polys[i], o.polys[i])
        &&& points_eq(self.pads, o.pads)
        &&& match (self.start, o.start) {
            (Some(a), Some(b)) => point_eq(a, b),
            (None, None) => true,
            _ => false,
        }
        &&& f_eq(self.spawn_y, o.spawn_y)
    }

    /// Free of NaN.
    pub open spec fn ordered(self) -> bool {
        self.same(self)
    }
}

impl LevelView {
    /// Field-by-field equality, numerical where the field is a number.
    pub open spec fn same(self, o: LevelView) -> bool {
        self.seed == o.seed && self.same_but_seed(o)
    }

    pub open spec fn same_but_seed(self, o: LevelView) -> bool {
        &&& self.name == o.name
        &&& self.scoring == o.scoring
        &&& self.shafts == o.shafts
        &&& self.obstacles == o.obstacles
        &&& f_eq(self.pad_spacing, o.pad_spacing)
        &&& self.endless == o.endless
        &&& match (self.terrain, o.terrain) {
            (Some(a), Some(b)) => a.same(b),
            (None, None) => true,
            _ => false,
        }
        &&& self.time_limit_ticks == o.time_limit_ticks
        &&& f_eq(self.goal_distance, o.goal_distance)
        &&& f_eq(self.fuel_max, o.fuel_max)
        &&& f_eq(self.gravity_y, o.gravity_y)
        &&& f_eq(self.thrust_force, o.thrust_force)
        &&& f_eq(self.hull_max, o.hull_max)
        &&& f_eq(self.refuel_per_s, o.refuel_per_s)
        &&& f_eq(self.start_fuel, o.start_fuel)
        &&& self.random_seed == o.random_seed
    }

    /// Whether a freshly read level file is the one that `loaded` came from:
    /// equal, or equal but for the seed where both roll theirs.
    pub open spec fn same_file(self, loaded: LevelView) -> bool {
        self.same(loaded) || (self.random_seed && loaded.random_seed && self.same_but_seed(loaded))
    }

    /// The header of a recording on this level.
    pub open spec fn params(self) -> ParamsView {
        ParamsView {
            scoring: match self.scoring {
                Scoring::Pads => 0,
                Scoring::Distance => 1,
                Scoring::Time => 2,
            },
            shafts: if self.shafts { 1 } else { 0 },
            obstacles: if self.obstacles { 1 } else { 0 },
            pad_spacing: self.pad_spacing,
            seed: self.seed,
            endless: if self.endless { 1 } else { 0 },
            terrain: self.terrain,
            time_limit_ticks: self.time_limit_ticks,
            goal_distance: self.goal_distance,
            fuel_max: self.fuel_max,
            gravity_y: self.gravity_y,
            thrust_force: self.thrust_force,
            hull_max: self.hull_max,
            refuel_per_s: self.refuel_per_s,
            start_fuel: self.start_fuel,
        }
    }
}

impl ParamsView {
    /// The level that a header describes.
    pub open spec fn level(self) -> LevelView {
        LevelView {
            name: "(replay)"@,
            scoring: if self.scoring == 1 {
                Scoring::Distance
            } else if self.scoring == 2 {
                Scoring::Time
            } else {
                Scoring::Pads
            },
            shafts: self.shafts != 0 && self.terrain is None,
            obstacles: self.obstacles != 0 && self.terrain is None,
            pad_spacing: self.pad_spacing,
            seed: self.seed,
            endless: self.endless != 0,
            terrain: self.terrain,
            time_limit_ticks: self.time_limit_ticks,
            goal_distance: self.goal_distance,
            fuel_max: self.fuel_max,
            gravity_y: self.gravity_y,
            thrust_force: self.thrust_force,
            hull_max: self.hull_max,
            refuel_per_s: self.refuel_per_s,
            start_fuel: self.start_fuel,
            random_seed: false,
        }
    }
}

/// The demo world: pad scoring, shafts, boulders, seed 0.
pub open spec fn demo_level() -> LevelView {
    LevelView {
        name: "The Caves"@,
        scoring: Scoring::Pads,
        shafts: true,
        obstacles: true,
        pad_spacing: fl(PAD_SPACING),
        seed: 0,
        endless: false,
        terrain: None,
        time_limit_ticks: 0,
        goal_distance: fl(0),
        fuel_max: fl(0),
        gravity_y: fl(0),
        thrust_force: fl(0),
        hull_max: fl(0),
        refuel_per_s: fl(0),
        start_fuel: fl(0),
        random_seed: false,
    }
}

fn same_points(a: &Vec<Vec2>, b: &Vec<Vec2>) -> (r: bool)
    ensures
        r == points_eq(a@, b@),
{
    if a.len() != b.len() {
        return false;
    }
    let mut i: usize = 0;
    while i < a.len()
        invariant
            i <= a.len(),
            a.len() == b.len(),
            forall|j: int| 0 <= j < i ==> point_eq(#[trigger] a@[j], b@[j]),
        decreases a.len() - i,
    {
        if !a[i].x.same(b[i].x) || !a[i].y.same(b[i].y) {
            assert(!point_eq(a@[i as int], b@[i as int]));
            return false;
        }
        i = i + 1;
    }
    true
}

impl Clone for Terrain {
    fn clone(&self) -> (r: Terrain)
        ensures
            r@ == self@,
    {
        let mut polys: Vec<Vec<Vec2>> = Vec::new();
        let mut i: usize = 0;
        while i < self.polys.len()
            invariant
                i <= self.polys.len(),
                outlines(polys@) == outlines(self.polys@).subrange(0, i as int),
            decreases self.polys.len() - i,
        {
            let ghost before = polys@;
            polys.push(copy_points(&self.polys[i]));
            assert(outlines(polys@) =~= outlines(before).push(outlines(self.polys@)[i as int]));
            assert(outlines(polys@) =~= outlines(self.polys@).subrange(0, i + 1));
            i = i + 1;
        }
        let r = Terrain {
            polys,
            pads: copy_points(&self.pads),
            start: self.start,
            spawn_y: self.spawn_y,
        };
        assert(r@ =~= self@);
        r
    }
}

fn copy_points(v: &Vec<Vec2>) -> (r: Vec<Vec2>)
    ensures
        r@ == v@,
{
    let mut r: Vec<Vec2> = Vec::new();
    let mut i: usize = 0;
    while i < v.len()
        invariant
            i <= v.len(),
            r@ == v@.subrange(0, i as int),
        decreases v.len() - i,
    {
        r.push(v[i]);
        assert(r@ =~= v@.subrange(0, i + 1));
        i = i + 1;
    }
    assert(r@ =~= v@);
    r
}

fn copy_terrain(t: &Option<Terrain>) -> (r: Option<Terrain>)
    ensures
        terrain_view(r) == terrain_view(*t),
{
    match t {
        Some(t) => Some(t.clone()),
        None => None,
    }
}

fn same_terrain(a: &Terrain, b: &Terrain) -> (r: bool)
    ensures
        r == a@.same(b@),
{
    if a.polys.len() != b.polys.len() {
        return false;
    }
    let mut i: usize = 0;
    while i < a.polys.len()
        invariant
            i <= a.polys.len(),
            a.polys.len() == b.polys.len(),
            forall|j: int| 0 <= j < i ==> points_eq(#[trigger] a@.polys[j], b@.polys[j]),
        decreases a.polys.len() - i,
    {
        if !same_points(&a.polys[i], &b.polys[i]) {
            assert(!points_eq(a@.polys[i as int], b@.polys[i as int]));
            return false;
        }
        assert(points_eq(a@.polys[i as int], b@.polys[i as int]));
        i = i + 1;
    }
    let starts: bool = match (&a.start, &b.start) {
        (Some(p), Some(q)) => p.x.same(q.x) && p.y.same(q.y),
        (None, None) => true,
        _ => false,
    };
    same_points(&a.pads, &b.pads) && starts && a.spawn_y.same(b.spawn_y)
}

fn same_name(a: &String, b: &String) -> (r: bool)
    ensures
        r == (a@ == b@),
{
    let v: Vec<char> = to_chars(a.as_str());
    is_word(&v, b.as_str())
}

impl Clone for Level {
    fn clone(&self) -> (r: Level)
        ensures
            r@ == self@,
    {
        Level {
            name: self.name.clone(),
            scoring: self.scoring,
            shafts: self.shafts,
            obstacles: self.obstacles,
            pad_spacing: self.pad_spacing,
            seed: self.seed,
            endless: self.endless,
            terrain: copy_terrain(&self.terrain),
            time_limit_ticks: self.time_limit_ticks,
            goal_distance: self.goal_distance,
            fuel_max: self.fuel_max,
            gravity_y: self.gravity_y,
            thrust_force: self.thrust_force,
            hull_max: self.hull_max,
            refuel_per_s: self.refuel_per_s,
            start_fuel: self.start_fuel,
            random_seed: self.random_seed,
        }
    }
}

impl Level {
    pub fn demo() -> (r: Level)
        ensures
            r@ == demo_level(),
    {
        Level {
            name: "The Caves".to_string(),
            scoring: Scoring::Pads,
            shafts: true,
            obstacles: true,
            pad_spacing: fl(PAD_SPACING),
            seed: 0,
            endless: false,
            terrain: None,
            time_limit_ticks: 0,
            goal_distance: fl(0),
            fuel_max: fl(0),
            gravity_y: fl(0),
            thrust_force: fl(0),
            hull_max: fl(0),
            refuel_per_s: fl(0),
            start_fuel: fl(0),
            random_seed: false,
        }
    }

    fn same_but_seed(&self, o: &Level) -> (r: bool)
        ensures
            r == self@.same_but_seed(o@),
    {
        let terrains: bool = match (&self.terrain, &o.terrain) {
            (Some(a), Some(b)) => same_terrain(a, b),
            (None, None) => true,
            _ => false,
        };
        same_name(&self.name, &o.name) && self.scoring == o.scoring && self.shafts == o.shafts
            && self.obstacles == o.obstacles && self.pad_spacing.same(o.pad_spacing) && self.endless
            == o.endless && terrains && self.time_limit_ticks == o.time_limit_ticks
            && self.goal_distance.same(o.goal_distance) && self.fuel_max.same(o.fuel_max)
            && self.gravity_y.same(o.gravity_y) && self.thrust_force.same(o.thrust_force)
            && self.hull_max.same(o.hull_max) && self.refuel_per_s.same(o.refuel_per_s)
            && self.start_fuel.same(o.start_fuel) && self.random_seed == o.random_seed
    }

    /// Field-by-field equality.
    pub fn same_as(&self, o: &Level) -> (r: bool)
        ensures
            r == self@.same(o@),
    {
        self.seed == o.seed && self.same_but_seed(o)
    }

    pub fn same_file_as(&self, loaded: &Level) -> (r: bool)
        ensures
            r == self@.same_file(loaded@),
    {
        if self.same_as(loaded) {
            return true;
        }
        self.random_seed && loaded.random_seed && self.same_but_seed(loaded)
    }

    pub fn to_params(&self) -> (r: LevelParams)
        ensures
            r@ == self@.params(),
    {
        LevelParams {
            scoring: match self.scoring {
                Scoring::Pads => 0,
                Scoring::Distance => 1,
                Scoring::Time => 2,
            },
            shafts: if self.shafts { 1 } else { 0 },
            obstacles: if self.obstacles { 1 } else { 0 },
            pad_spacing: self.pad_spacing,
            seed: self.seed,
            endless: if self.endless { 1 } else { 0 },
            terrain: copy_terrain(&self.terrain),
            time_limit_ticks: self.time_limit_ticks,
            goal_distance: self.goal_distance,
            fuel_max: self.fuel_max,
            gravity_y: self.gravity_y,
            thrust_force: self.thrust_force,
            hull_max: self.hull_max,
            refuel_per_s: self.refuel_per_s,
            start_fuel: self.start_fuel,
        }
    }

    pub fn from_params(p: &LevelParams) -> (r: Level)
        ensures
            r@ == p@.level(),
    {
        Level {
            name: "(replay)".to_string(),
            scoring: match p.scoring {
                1 => Scoring::Distance,
                2 => Scoring::Time,
                _ => Scoring::Pads,
            },
            shafts: p.shafts != 0 && p.terrain.is_none(),
            obstacles: p.obstacles != 0 && p.terrain.is_none(),
            pad_spacing: p.pad_spacing,
            seed: p.seed,
            endless: p.endless != 0,
            terrain: copy_terrain(&p.terrain),
            time_limit_ticks: p.time_limit_ticks,
            goal_distance: p.goal_distance,
            fuel_max: p.fuel_max,
            gravity_y: p.gravity_y,
            thrust_force: p.thrust_force,
            hull_max: p.hull_max,
            refuel_per_s: p.refuel_per_s,
            start_fuel: p.start_fuel,
            random_seed: false,
        }
    }
}

} // verus!
