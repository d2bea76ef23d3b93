//! What stands in the loaded slots: cave walls, shafts, boulders and pads,
//! each with the edges that the ship collides with.

use crate::binary32::arith::{f_add, f_mul, f_sub};
use crate::binary32::convert::f_of_int;
use crate::binary32::{fl, F32};
use crate::cave::{steady, wave_of, Wave};
use crate::colliders::{
    bound_colliders, free_colliders, insert_collider, removal_count, Handle,
};
use crate::level::{Level, LevelView, Vec2};
use crate::obstacle::{obstacle_view, ObstacleSpec, ObstacleView};
use crate::pad::{PadSpec, PAD_HALF_W};
use crate::shaft::V_PERIOD;
use crate::slots::{stored, Key, Maker};
use rapier2d::geometry::{Collider, ColliderSet};
use vstd::prelude::*;

verus! {

/// `0.9`: how much a deck grips.
pub const DECK_FRICTION: u32 = 0x3f66_6666;

/// `0.6`: how much a boulder grips.
pub const BOULDER_FRICTION: u32 = 0x3f19_999a;

/// `0.2`: how much a boulder bounces.
pub const BOULDER_BOUNCE: u32 = 0x3e4c_cccd;

/// A straight edge to collide with.
#[derive(Clone, Copy, PartialEq, Eq, Debug, Structural)]
pub struct Edge {
    pub a: Vec2,
    pub b: Vec2,
    pub friction: F32,
}

/// A boulder to collide with: the convex hull of `pts`, turned by `rot` and
/// moved to `at`.
#[derive(Debug)]
pub struct Boulder {
    pub pts: Vec<Vec2>,
    pub at: Vec2,
    pub rot: F32,
    pub friction: F32,
    pub bounce: F32,
}

/// What a `Boulder` holds.
#[verifier::ext_equal]
pub struct BoulderView {
    pub pts: Seq<Vec2>,
    pub at: Vec2,
    pub rot: F32,
    pub friction: F32,
    pub bounce: F32,
}

impl View for Boulder {
    type V = BoulderView;

    open spec fn view(&self) -> BoulderView {
        BoulderView {
            pts: self.pts@,
            at: self.at,
            rot: self.rot,
            friction: self.friction,
            bounce: self.bounce,
        }
    }
}

/// A shaft's left and right wall, as polylines in world space.
#[derive(Debug)]
pub struct Shaft {
    pub walls: [Vec<Vec2>; 2],
}

/// A boulder in the world, with the vertices of its hull around its centre.
#[derive(Debug)]
pub struct Obstacle {
    pub cx: F32,
    pub cy: F32,
    pub rot: F32,
    pub verts: Vec<Vec2>,
}

/// A pad in the world: the centre and the top of its deck.
#[derive(Clone, Copy, PartialEq, Eq, Debug, Structural)]
pub struct Pad {
    pub cx: F32,
    pub y: F32,
}

impl View for Shaft {
    type V = (Seq<Vec2>, Seq<Vec2>);

    open spec fn view(&self) -> (Seq<Vec2>, Seq<Vec2>) {
        (self.walls@[0]@, self.walls@[1]@)
    }
}

impl View for Obstacle {
    type V = ObstacleView;

    open spec fn view(&self) -> ObstacleView {
        ObstacleView { cx: self.cx, cy: self.cy, rot: self.rot, pts: self.verts@ }
    }
}

impl View for Pad {
    type V = Pad;

    open spec fn view(&self) -> Pad {
        *self
    }
}

/// How far layer `layer` is lifted.
pub open spec fn lift(layer: int) -> F32 {
    f_mul(f_of_int(layer), fl(V_PERIOD))
}

pub open spec fn lifted(p: Vec2, by: F32) -> Vec2 {
    Vec2 { x: p.x, y: f_add(p.y, by) }
}

/// The edge along the top of a deck.
pub open spec fn deck_edge(cx: F32, y: F32) -> Edge {
    Edge {
        a: Vec2 { x: f_sub(cx, fl(PAD_HALF_W)), y },
        b: Vec2 { x: f_add(cx, fl(PAD_HALF_W)), y },
        friction: fl(DECK_FRICTION),
    }
}

/// The edges of a polyline, from each point to the next.
pub open spec fn polyline(pts: Seq<Vec2>) -> Seq<Edge> {
    Seq::new(
        if pts.len() == 0 {
            0
        } else {
            (pts.len() - 1) as nat
        },
        |i: int| Edge { a: pts[i], b: pts[i + 1], friction: fl(0) },
    )
}

impl LevelView {
    /// The edges of cave segment `idx` in layer `layer`: ceiling and floor, or
    /// none where a shaft opens.
    pub open spec fn seg_edges(self, w: spec_fn(Wave, F32) -> F32, idx: i64, layer: i64) -> Seq<Edge> {
        if self.in_opening(idx as int) {
            seq![]
        } else {
            let p = self.segment(w, idx);
            let by = lift(layer as int);
            seq![
                Edge { a: lifted(p.top_a, by), b: lifted(p.top_b, by), friction: fl(0) },
                Edge { a: lifted(p.bot_a, by), b: lifted(p.bot_b, by), friction: fl(0) },
            ]
        }
    }

    /// The edges of both walls of a shaft.
    pub open spec fn shaft_edges(self, w: spec_fn(Wave, F32) -> F32, s: i64, gap: i64) -> Seq<Edge> {
        polyline(self.wall(w, s as int, gap as int, 0)) + polyline(self.wall(w, s as int, gap as int, 1))
    }
}

/// A boulder, lifted to its layer.
pub open spec fn boulder(ob: ObstacleView, layer: int) -> BoulderView {
    BoulderView {
        pts: ob.pts,
        at: Vec2 { x: ob.cx, y: f_add(ob.cy, lift(layer)) },
        rot: ob.rot,
        friction: fl(BOULDER_FRICTION),
        bounce: fl(BOULDER_BOUNCE),
    }
}

/// A pad, lifted to its layer.
pub open spec fn pad_in(spec: PadSpec, layer: int) -> Pad {
    Pad { cx: spec.cx, y: f_add(spec.y, lift(layer)) }
}

/// `cs` are the colliders that `segment` builds for `edges`.
pub open spec fn built<S: Fn(Edge) -> Collider>(segment: S, edges: Seq<Edge>, cs: Seq<Collider>) -> bool {
    &&& cs.len() == edges.len()
    &&& forall|j: int|
        0 <= j < edges.len() ==> call_ensures(segment, (edges[j],), #[trigger] cs[j])
}

/// A builder that takes every edge.
pub open spec fn willing<S: Fn(Edge) -> Collider>(segment: S) -> bool {
    forall|e: Edge| #[trigger] call_requires(segment, (e,))
}

pub(crate) fn lift_of(layer: i64) -> (r: F32)
    ensures
        r == lift(layer as int),
{
    F32::of_i64(layer).times(fl(V_PERIOD))
}

fn raised_by(p: Vec2, by: F32) -> (r: Vec2)
    ensures
        r == lifted(p, by),
{
    Vec2 { x: p.x, y: p.y.plus(by) }
}

pub(crate) fn edge_of_deck(cx: F32, y: F32) -> (r: Edge)
    ensures
        r == deck_edge(cx, y),
{
    Edge {
        a: Vec2 { x: cx.minus(fl(PAD_HALF_W)), y },
        b: Vec2 { x: cx.plus(fl(PAD_HALF_W)), y },
        friction: fl(DECK_FRICTION),
    }
}

/// Builds a collider for each edge.
pub(crate) fn build_all<S: Fn(Edge) -> Collider>(segment: &S, edges: &Vec<Edge>) -> (r: Vec<Collider>)
    requires
        willing(*segment),
    ensures
        built(*segment, edges@, r@),
{
    let mut r: Vec<Collider> = Vec::new();
    let mut i: usize = 0;
    while i < edges.len()
        invariant
            i <= edges@.len(),
            r@.len() == i,
            willing(*segment),
            forall|j: int| 0 <= j < i ==> call_ensures(*segment, (edges@[j],), #[trigger] r@[j]),
        decreases edges.len() - i,
    {
        let e: Edge = edges[i];
        assert(call_requires(*segment, (e,)));
        r.push(segment(e));
        i = i + 1;
    }
    r
}

fn add_polyline(edges: &mut Vec<Edge>, pts: &Vec<Vec2>)
    ensures
        final(edges)@ == old(edges)@ + polyline(pts@),
{
    let ghost e0 = edges@;
    let mut i: usize = 1;
    assert(edges@ =~= e0 + polyline(pts@).subrange(0, 0));
    while i < pts.len()
        invariant
            1 <= i,
            i <= pts@.len() || i == 1,
            edges@ == e0 + polyline(pts@).subrange(0, i - 1),
        decreases pts.len() - i,
    {
        edges.push(Edge { a: pts[i - 1], b: pts[i], friction: fl(0) });
        assert(edges@ =~= e0 + polyline(pts@).subrange(0, i as int));
        i = i + 1;
    }
    assert(polyline(pts@).subrange(0, i - 1) =~= polyline(pts@));
}

impl Level {
    /// The edges of one cave segment in one layer.
    pub fn seg_edges<T: Fn(Wave, F32) -> F32>(&self, trig: &T, idx: i64, layer: i64) -> (r: Vec<Edge>)
        requires
            steady(*trig),
        ensures
            r@ == self@.seg_edges(wave_of(*trig), idx, layer),
    {
        let mut r: Vec<Edge> = Vec::new();
        if !self.seg_in_opening(idx) {
            let by: F32 = lift_of(layer);
            let p = self.seg_points(trig, idx);
            r.push(Edge { a: raised_by(p.top_a, by), b: raised_by(p.top_b, by), friction: fl(0) });
            r.push(Edge { a: raised_by(p.bot_a, by), b: raised_by(p.bot_b, by), friction: fl(0) });
        }
        r
    }

    /// Puts the walls of one cave segment into a collider set.
    pub fn insert_seg<T: Fn(Wave, F32) -> F32, S: Fn(Edge) -> Collider>(
        &self,
        trig: &T,
        segment: &S,
        idx: i64,
        layer: i64,
        set: &mut ColliderSet,
    ) -> (hs: Vec<Handle>)
        requires
            steady(*trig),
            willing(*segment),
        ensures
            exists|cs: Seq<Collider>| #[trigger]
                built(*segment, self@.seg_edges(wave_of(*trig), idx, layer), cs) && stored(
                    free_colliders(*final(set)),
                    hs@,
                    cs,
                ),
            forall|j: int|
                0 <= j < hs@.len() ==> !free_colliders(*old(set)).dom().contains(#[trigger] hs@[j]),
            forall|i: int, j: int| 0 <= i < j < hs@.len() ==> hs@[i] != hs@[j],
            free_colliders(*final(set)).remove_keys(hs@.to_set()) == free_colliders(*old(set)),
            bound_colliders(*final(set)) == bound_colliders(*old(set)),
            removal_count(*final(set)) == removal_count(*old(set)),
    {
        let edges: Vec<Edge> = self.seg_edges(trig, idx, layer);
        let cs: Vec<Collider> = build_all(segment, &edges);
        let ghost all = cs@;
        let ghost f0 = free_colliders(*set);
        let mut rest: Vec<Collider> = cs;
        let mut hs: Vec<Handle> = Vec::new();
        assert(rest@ =~= all.subrange(0, all.len() as int));
        assert(f0.remove_keys(hs@.to_set()) =~= f0);
        while rest.len() > 0
            invariant
                hs@.len() <= all.len(),
                rest@ == all.subrange(hs@.len() as int, all.len() as int),
                forall|j: int|
                    0 <= j < hs@.len() ==> !f0.dom().contains(#[trigger] hs@[j]) && free_colliders(
                        *set,
                    ).dom().contains(hs@[j]) && free_colliders(*set)[hs@[j]].contains(all[j]),
                forall|i: int, j: int| 0 <= i < j < hs@.len() ==> hs@[i] != hs@[j],
                free_colliders(*set).remove_keys(hs@.to_set()) == f0,
                bound_colliders(*set) == bound_colliders(*old(set)),
                removal_count(*set) == removal_count(*old(set)),
            decreases rest.len(),
        {
            let ghost hs0 = hs@;
            let ghost f1 = free_colliders(*set);
            let c: Collider = rest.remove(0);
            assert(c == all[hs0.len() as int]);
            assert(rest@ =~= all.subrange(hs0.len() as int + 1, all.len() as int));
            let h: Handle = insert_collider(set, c);
            hs.push(h);
            proof {
                assert(hs@[hs0.len() as int] == h);
                assert forall|j: int| 0 <= j < hs0.len() implies hs@[j] == hs0[j] && hs@[j] != h by {
                    assert(f1.dom().contains(hs0[j]));
                }
                if f0.dom().contains(h) {
                    assert(f1.remove_keys(hs0.to_set()).dom().contains(h));
                }
                assert(free_colliders(*set).remove_keys(hs@.to_set()) =~= f0) by {
                    assert forall|g: Handle| hs@.to_set().contains(g) <==> hs0.to_set().contains(g) || g == h by {
                        if hs@.contains(g) {
                            let i = choose|i: int| 0 <= i < hs@.len() && hs@[i] == g;
                            if i < hs0.len() {
                                assert(hs0[i] == g);
                            }
                        }
                        if hs0.contains(g) {
                            let i = choose|i: int| 0 <= i < hs0.len() && hs0[i] == g;
                            assert(hs@[i] == g);
                        }
                        assert(hs@[hs0.len() as int] == h);
                    }
                }
            }
        }
        assert(built(*segment, self@.seg_edges(wave_of(*trig), idx, layer), all));
        assert(stored(free_colliders(*set), hs@, all));
        hs
    }
}

/// Makes cave segments, under keys (layer, segment).
pub struct CaveMaker<'a, T, S> {
    pub level: &'a Level,
    pub trig: &'a T,
    pub segment: &'a S,
}

impl<'a, T: Fn(Wave, F32) -> F32, S: Fn(Edge) -> Collider> Maker<()> for CaveMaker<'a, T, S> {
    open spec fn ready(&self) -> bool {
        steady(*self.trig) && willing(*self.segment)
    }

    open spec fn makes(&self, key: Key, r: Option<(Seq<Collider>, ())>) -> bool {
        match r {
            Some(m) => built(
                *self.segment,
                self.level@.seg_edges(wave_of(*self.trig), key.1, key.0),
                m.0,
            ),
            None => false,
        }
    }

    fn make(&self, key: Key) -> (r: Option<(Vec<Collider>, ())>) {
        let edges: Vec<Edge> = self.level.seg_edges(self.trig, key.1, key.0);
        Some((build_all(self.segment, &edges), ()))
    }
}

/// Makes shafts, under keys (slot, gap).
pub struct ShaftMaker<'a, T, S> {
    pub level: &'a Level,
    pub trig: &'a T,
    pub segment: &'a S,
}

impl<'a, T: Fn(Wave, F32) -> F32, S: Fn(Edge) -> Collider> Maker<Shaft> for ShaftMaker<'a, T, S> {
    open spec fn ready(&self) -> bool {
        steady(*self.trig) && willing(*self.segment)
    }

    open spec fn makes(&self, key: Key, r: Option<(Seq<Collider>, Shaft)>) -> bool {
        match r {
            Some(m) => {
                &&& built(*self.segment, self.level@.shaft_edges(wave_of(*self.trig), key.0, key.1), m.0)
                &&& m.1.walls@[0]@ == self.level@.wall(wave_of(*self.trig), key.0 as int, key.1 as int, 0)
                &&& m.1.walls@[1]@ == self.level@.wall(wave_of(*self.trig), key.0 as int, key.1 as int, 1)
            },
            None => false,
        }
    }

    fn make(&self, key: Key) -> (r: Option<(Vec<Collider>, Shaft)>) {
        let left: Vec<Vec2> = self.level.shaft_wall_pts(self.trig, key.0, key.1, 0);
        let right: Vec<Vec2> = self.level.shaft_wall_pts(self.trig, key.0, key.1, 1);
        let mut edges: Vec<Edge> = Vec::new();
        add_polyline(&mut edges, &left);
        add_polyline(&mut edges, &right);
        proof {
            let w = wave_of(*self.trig);
            assert(edges@ =~= self.level@.shaft_edges(w, key.0, key.1));
        }
        Some((build_all(self.segment, &edges), Shaft { walls: [left, right] }))
    }
}

/// A hull builder that takes every boulder.
pub open spec fn tireless<H: Fn(Boulder) -> Option<(Collider, Vec<Vec2>)>>(hull: H) -> bool {
    forall|b: Boulder| #[trigger] call_requires(hull, (b,))
}

/// Makes boulders, under keys (slot, layer). A boulder whose points span no
/// hull is left out.
pub struct BoulderMaker<'a, T, H> {
    pub level: &'a Level,
    pub trig: &'a T,
    pub hull: &'a H,
}

/// `r` is what the hull builder gives for a boulder that looks like `v`.
pub open spec fn yields<H: Fn(Boulder) -> Option<(Collider, Vec<Vec2>)>>(
    hull: H,
    v: BoulderView,
    r: Option<(Collider, Vec<Vec2>)>,
) -> bool {
    exists|b: Boulder| b@ == v && #[trigger] call_ensures(hull, (b,), r)
}

/// `r` is what comes of the slot that holds `ob`, if anything.
pub open spec fn boulder_made<H: Fn(Boulder) -> Option<(Collider, Vec<Vec2>)>>(
    hull: H,
    ob: Option<ObstacleView>,
    layer: int,
    r: Option<(Seq<Collider>, Obstacle)>,
) -> bool {
    match (ob, r) {
        (None, None) => true,
        (None, Some(m)) => false,
        (Some(o), None) => yields(hull, boulder(o, layer), None),
        (Some(o), Some(m)) => {
            &&& m.0.len() == 1
            &&& yields(hull, boulder(o, layer), Some((m.0[0], m.1.verts)))
            &&& m.1.cx == o.cx
            &&& m.1.cy == f_add(o.cy, lift(layer))
            &&& m.1.rot == o.rot
        },
    }
}

impl<'a, T: Fn(Wave, F32) -> F32, H: Fn(Boulder) -> Option<(Collider, Vec<Vec2>)>> Maker<Obstacle> for BoulderMaker<'a, T, H> {
    open spec fn ready(&self) -> bool {
        steady(*self.trig) && tireless(*self.hull)
    }

    open spec fn makes(&self, key: Key, r: Option<(Seq<Collider>, Obstacle)>) -> bool {
        boulder_made(*self.hull, self.level@.obstacle(wave_of(*self.trig), key.0 as int), key.1 as int, r)
    }

    fn make(&self, key: Key) -> (r: Option<(Vec<Collider>, Obstacle)>) {
        make_boulder(self.hull, self.level.obstacle_spec(self.trig, key.0), key.1)
    }
}

fn make_boulder<H: Fn(Boulder) -> Option<(Collider, Vec<Vec2>)>>(hull: &H, ob: Option<ObstacleSpec>, layer: i64) -> (r: Option<(Vec<Collider>, Obstacle)>)
    requires
        tireless(*hull),
    ensures
        match r {
            Some(m) => boulder_made(*hull, obstacle_view(ob), layer as int, Some((m.0@, m.1))),
            None => boulder_made(*hull, obstacle_view(ob), layer as int, None),
        },
{
    let ob: ObstacleSpec = match ob {
        Some(ob) => ob,
        None => {
            return None;
        },
    };
    let ghost view = ob@;
    let cy: F32 = ob.cy.plus(lift_of(layer));
    let (cx, rot) = (ob.cx, ob.rot);
    let b: Boulder = Boulder {
        pts: ob.pts,
        at: Vec2 { x: cx, y: cy },
        rot,
        friction: fl(BOULDER_FRICTION),
        bounce: fl(BOULDER_BOUNCE),
    };
    let ghost shape = b;
    assert(call_requires(*hull, (b,)));
    let got: Option<(Collider, Vec<Vec2>)> = hull(b);
    assert(shape@ == boulder(view, layer as int));
    assert(yields(*hull, boulder(view, layer as int), got));
    match got {
        None => None,
        Some(made) => {
            let mut cs: Vec<Collider> = Vec::new();
            cs.push(made.0);
            Some((cs, Obstacle { cx, cy, rot, verts: made.1 }))
        },
    }
}

/// `m` is the pad `spec` in layer `layer`, with the collider of its deck.
pub open spec fn decked<S: Fn(Edge) -> Collider>(segment: S, spec: PadSpec, layer: int, m: (Seq<Collider>, Pad)) -> bool {
    &&& m.1 == pad_in(spec, layer)
    &&& built(segment, seq![deck_edge(m.1.cx, m.1.y)], m.0)
}

fn make_deck<S: Fn(Edge) -> Collider>(segment: &S, cx: F32, y: F32) -> (r: Vec<Collider>)
    requires
        willing(*segment),
    ensures
        built(*segment, seq![deck_edge(cx, y)], r@),
{
    let mut edges: Vec<Edge> = Vec::new();
    edges.push(edge_of_deck(cx, y));
    assert(edges@ =~= seq![deck_edge(cx, y)]);
    build_all(segment, &edges)
}

/// Makes pads, under keys (slot, layer).
pub struct PadMaker<'a, T, S> {
    pub level: &'a Level,
    pub trig: &'a T,
    pub segment: &'a S,
}

impl<'a, T: Fn(Wave, F32) -> F32, S: Fn(Edge) -> Collider> Maker<Pad> for PadMaker<'a, T, S> {
    open spec fn ready(&self) -> bool {
        steady(*self.trig) && willing(*self.segment)
    }

    open spec fn makes(&self, key: Key, r: Option<(Seq<Collider>, Pad)>) -> bool {
        match (self.level@.pad(wave_of(*self.trig), key.0 as int), r) {
            (Some(spec), Some(m)) => decked(*self.segment, spec, key.1 as int, m),
            (None, None) => true,
            _ => false,
        }
    }

    fn make(&self, key: Key) -> (r: Option<(Vec<Collider>, Pad)>) {
        match self.level.pad_spec(self.trig, key.0) {
            None => None,
            Some(spec) => {
                let y: F32 = spec.y.plus(lift_of(key.1));
                Some((make_deck(self.segment, spec.cx, y), Pad { cx: spec.cx, y }))
            },
        }
    }
}

/// Makes the copies of one finish pad, under keys (finish slot, layer).
pub struct FinishMaker<'a, S> {
    pub spec: PadSpec,
    pub segment: &'a S,
}

impl<'a, S: Fn(Edge) -> Collider> Maker<Pad> for FinishMaker<'a, S> {
    open spec fn ready(&self) -> bool {
        willing(*self.segment)
    }

    open spec fn makes(&self, key: Key, r: Option<(Seq<Collider>, Pad)>) -> bool {
        match r {
            Some(m) => decked(*self.segment, self.spec, key.1 as int, m),
            None => false,
        }
    }

    fn make(&self, key: Key) -> (r: Option<(Vec<Collider>, Pad)>) {
        let y: F32 = self.spec.y.plus(lift_of(key.1));
        Some((make_deck(self.segment, self.spec.cx, y), Pad { cx: self.spec.cx, y }))
    }
}

/// Makes the pads of a hand-drawn world, under keys (number, 0).
pub struct DrawnPadMaker<'a, S> {
    pub pads: &'a Vec<Vec2>,
    pub segment: &'a S,
}

impl<'a, S: Fn(Edge) -> Collider> Maker<Pad> for DrawnPadMaker<'a, S> {
    open spec fn ready(&self) -> bool {
        willing(*self.segment)
    }

    open spec fn makes(&self, key: Key, r: Option<(Seq<Collider>, Pad)>) -> bool {
        if 0 <= key.0 < self.pads@.len() {
            let p = self.pads@[key.0 as int];
            match r {
                Some(m) => m.1 == (Pad { cx: p.x, y: p.y }) && built(
                    *self.segment,
                    seq![deck_edge(p.x, p.y)],
                    m.0,
                ),
                None => false,
            }
        } else {
            r is None
        }
    }

    fn make(&self, key: Key) -> (r: Option<(Vec<Collider>, Pad)>) {
        if key.0 < 0 || key.0 as u64 >= self.pads.len() as u64 {
            return None;
        }
        let p: Vec2 = self.pads[key.0 as usize];
        Some((make_deck(self.segment, p.x, p.y), Pad { cx: p.x, y: p.y }))
    }
}

} // verus!
