//! Laws of what the ship can run into: every wall, deck and rock that the world
//! shows is solid from end to end.

use crate::binary32::arith::{f_add, f_neg};
use crate::binary32::{fl, F32};
use crate::cave::{wave_of, Wave};
use crate::colliders::Handle;
use crate::laws::caves::{lemma_const, lemma_grain};
use crate::laws::chains::segments_chain;
use crate::laws::errors::{lemma_huge, lemma_sum, one, size};
use crate::laws::landings::nearby;
use crate::laws::rises::lemma_lift;
use crate::level::{Level, LevelView, TerrainView, Vec2};
use crate::pad::{PadSpec, PAD_HALF_W};
use crate::scene::{drawn_edges, ring, rings, Scene};
use crate::scenery::{
    boulder, built, deck_edge, lift, polyline, yields, Boulder, BoulderMaker, BoulderView,
    CaveMaker, DrawnPadMaker, Edge, FinishMaker, Obstacle, Pad, PadMaker, Shaft, ShaftMaker,
    BOULDER_BOUNCE, BOULDER_FRICTION, DECK_FRICTION,
};
use crate::slots::{has_key, has_slot, is_made, stored, Key, Loaded, Maker};
use rapier2d::geometry::Collider;
use vstd::arithmetic::div_mod::{lemma_mod_self_0, lemma_small_mod};
use vstd::arithmetic::power2::lemma2_to64;
use vstd::prelude::*;

verus! {

/// Under the handle `h` stands a collider that `segment` built for an edge from
/// `a` to `b` without grip.
pub open spec fn solid<S: Fn(Edge) -> Collider>(free: Map<Handle, Set<Collider>>, h: Handle, segment: S, a: Vec2, b: Vec2) -> bool {
    free.dom().contains(h) && exists|c: Collider| #[trigger]
        free[h].contains(c) && call_ensures(segment, (Edge { a, b, friction: fl(0) },), c)
}

/// A wall is solid: from each of its points to the next there is a collider,
/// under the handles that follow `from`, and there is no gap between them.
pub open spec fn solid_wall<S: Fn(Edge) -> Collider>(free: Map<Handle, Set<Collider>>, hs: Seq<Handle>, from: int, segment: S, wall: Seq<Vec2>) -> bool {
    forall|j: int|
        0 <= j && j + 1 < wall.len() ==> solid(
            free,
            hs[from + j],
            segment,
            #[trigger] wall[j],
            wall[j + 1],
        )
}

/// A loaded shaft is solid: both walls that it shows, from their first point to
/// their last, and nothing else.
pub open spec fn solid_shaft<S: Fn(Edge) -> Collider>(free: Map<Handle, Set<Collider>>, e: Loaded<Shaft>, segment: S) -> bool {
    let (l, r) = (e.item.walls@[0]@, e.item.walls@[1]@);
    &&& l.len() >= 2 && r.len() >= 2
    &&& e.handles@.len() == (l.len() - 1) + (r.len() - 1)
    &&& solid_wall(free, e.handles@, 0, segment, l)
    &&& solid_wall(free, e.handles@, l.len() - 1, segment, r)
}

proof fn lemma_wall_built<S: Fn(Edge) -> Collider>(segment: S, free: Map<Handle, Set<Collider>>, hs: Seq<Handle>, cs: Seq<Collider>, edges: Seq<Edge>, from: int, wall: Seq<Vec2>)
    requires
        stored(free, hs, cs),
        built(segment, edges, cs),
        0 <= from,
        from + wall.len() - 1 <= edges.len(),
        forall|j: int|
            0 <= j && j + 1 < wall.len() ==> edges[from + j] == (Edge {
                a: #[trigger] wall[j],
                b: wall[j + 1],
                friction: fl(0),
            }),
    ensures
        solid_wall(free, hs, from, segment, wall),
{
    assert forall|j: int| 0 <= j && j + 1 < wall.len() implies solid(
        free,
        hs[from + j],
        segment,
        #[trigger] wall[j],
        wall[j + 1],
    ) by {
        let c = cs[from + j];
        assert(free[hs[from + j]].contains(c));
        assert(call_ensures(segment, (edges[from + j],), c));
    }
}

/// A shaft that is put into the world is solid.
pub proof fn made_shafts_are_solid<T: Fn(Wave, F32) -> F32, S: Fn(Edge) -> Collider>(
    e: Loaded<Shaft>,
    level: &Level,
    trig: &T,
    segment: &S,
    free: Map<Handle, Set<Collider>>,
)
    requires
        is_made(ShaftMaker { level, trig, segment }, free, e),
        level@.wall_steps(wave_of(*trig), e.key.0 as int, e.key.1 as int, 0) >= 1,
        level@.wall_steps(wave_of(*trig), e.key.0 as int, e.key.1 as int, 1) >= 1,
    ensures
        solid_shaft(free, e, *segment),
{
    let maker = ShaftMaker { level, trig, segment };
    let cs = choose|cs: Seq<Collider>| #[trigger]
        maker.makes(e.key, Some((cs, e.item))) && stored(free, e.handles@, cs);
    assert(maker.makes(e.key, Some((cs, e.item))));
    let (l, r) = (e.item.walls@[0]@, e.item.walls@[1]@);
    let edges = polyline(l) + polyline(r);
    assert(edges == level@.shaft_edges(wave_of(*trig), e.key.0, e.key.1));
    lemma_wall_built(*segment, free, e.handles@, cs, edges, 0, l);
    lemma_wall_built(*segment, free, e.handles@, cs, edges, l.len() - 1, r);
}

/// Every loaded shaft is solid.
pub open spec fn solid_shafts<S: Fn(Edge) -> Collider>(scene: Scene, segment: S) -> bool {
    forall|e: Loaded<Shaft>| #[trigger]
        has_slot(scene.shafts.slots@, e) ==> solid_shaft(scene.world.free(), e, segment)
}

/// However a generated world moves, its shafts stay solid, as long as the walls
/// have a step at least.
pub proof fn shafts_stay_solid<T: Fn(Wave, F32) -> F32, S: Fn(Edge) -> Collider, H: Fn(Boulder) -> Option<(Collider, Vec<Vec2>)>>(
    o: Scene,
    n: Scene,
    level: &Level,
    trig: &T,
    segment: &S,
    hull: &H,
    at: Key,
)
    requires
        level.terrain is None,
        n.synced_from(&o, level, trig, segment, hull, at),
        solid_shafts(o, *segment),
        level.shafts,
        forall|k: Key, side: u8|
            has_key(n.shafts.slots@, k) ==> #[trigger] level@.wall_steps(
                wave_of(*trig),
                k.0 as int,
                k.1 as int,
                side,
            ) >= 1,
    ensures
        solid_shafts(n, *segment),
{
    let (a, b) = (o.world.free(), n.world.free());
    assert forall|e: Loaded<Shaft>| #[trigger] has_slot(n.shafts.slots@, e) implies solid_shaft(
        b,
        e,
        *segment,
    ) by {
        let t = n.shafts.slots@;
        let i = choose|i: int| 0 <= i < t.len() && #[trigger] t[i] == e;
        assert(t[i].key == e.key);
        assert(has_key(t, e.key));
        if has_slot(o.shafts.slots@, e) {
            assert(solid_shaft(a, e, *segment));
            let (l, r) = (e.item.walls@[0]@, e.item.walls@[1]@);
            assert forall|j: int| 0 <= j < e.handles@.len() implies b.dom().contains(
                #[trigger] e.handles@[j],
            ) && b[e.handles@[j]] == a[e.handles@[j]] by {}
            lemma_wall_kept(a, b, e.handles@, 0, *segment, l);
            lemma_wall_kept(a, b, e.handles@, l.len() - 1, *segment, r);
        } else {
            made_shafts_are_solid(e, level, trig, segment, b);
        }
    }
}

proof fn lemma_wall_kept<S: Fn(Edge) -> Collider>(a: Map<Handle, Set<Collider>>, b: Map<Handle, Set<Collider>>, hs: Seq<Handle>, from: int, segment: S, wall: Seq<Vec2>)
    requires
        solid_wall(a, hs, from, segment, wall),
        0 <= from,
        from + wall.len() - 1 <= hs.len(),
        forall|j: int|
            0 <= j < hs.len() ==> b.dom().contains(#[trigger] hs[j]) && b[hs[j]] == a[hs[j]],
    ensures
        solid_wall(b, hs, from, segment, wall),
{
    assert forall|j: int| 0 <= j && j + 1 < wall.len() implies solid(
        b,
        hs[from + j],
        segment,
        #[trigger] wall[j],
        wall[j + 1],
    ) by {
        assert(solid(a, hs[from + j], segment, wall[j], wall[j + 1]));
        assert(b[hs[from + j]] == a[hs[from + j]]);
    }
}

// ---- The cave ----

/// How a point of the cave is lifted with its layer: 90 m for each, within a
/// centimetre.
pub open spec fn lifted_by(low: F32, high: F32, layers: int) -> bool {
    high.finite() && 100 * size(high.val() - low.val() - 90 * layers * one()) <= one()
}

proof fn lemma_lifted(y: F32, layer: int)
    requires
        nearby(y),
        -100 <= layer <= 100,
    ensures
        lifted_by(y, f_add(y, lift(layer)), layer),
{
    lemma_huge();
    lemma_lift(layer);
    let t = 90 * layer * one();
    assert(-9000 * one() <= t <= 9000 * one()) by (nonlinear_arith)
        requires
            t == 90 * layer * one(),
            -100 <= layer <= 100,
            one() > 0,
    ;
    lemma_sum(y, lift(layer));
}

/// The cave is solid: where no shaft opens, a segment has a ceiling and a
/// floor, one above the other, each 3 m long and without grip, as the curves
/// have them, lifted by 90 m with every layer; and the next segment goes on
/// where it ends. Where a shaft opens it has neither.
pub proof fn the_cave_is_solid(l: LevelView, w: spec_fn(Wave, F32) -> F32, idx: i64, layer: i64)
    requires
        -1_000_000 <= idx <= 1_000_000,
        -100 <= layer <= 100,
        nearby(l.segment(w, idx).top_a.y),
        nearby(l.segment(w, idx).top_b.y),
        nearby(l.segment(w, idx).bot_a.y),
        nearby(l.segment(w, idx).bot_b.y),
    ensures
        l.in_opening(idx as int) <==> l.seg_edges(w, idx, layer).len() == 0,
        !l.in_opening(idx as int) ==> {
            let e = l.seg_edges(w, idx, layer);
            let p = l.segment(w, idx);
            &&& e.len() == 2
            &&& forall|i: int| #![trigger e[i]]
                0 <= i < 2 ==> e[i].a.x.val() == 3 * idx * one() && e[i].b.x.val() == 3 * (idx + 1)
                    * one() && e[i].friction == fl(0)
            &&& lifted_by(p.top_a.y, e[0].a.y, layer as int)
            &&& lifted_by(p.top_b.y, e[0].b.y, layer as int)
            &&& lifted_by(p.bot_a.y, e[1].a.y, layer as int)
            &&& lifted_by(p.bot_b.y, e[1].b.y, layer as int)
            &&& !l.in_opening(idx + 1) ==> {
                let f = l.seg_edges(w, (idx + 1) as i64, layer);
                f.len() == 2 && f[0].a == e[0].b && f[1].a == e[1].b
            }
        },
{
    segments_chain(l, w, idx);
    let p = l.segment(w, idx);
    lemma_lifted(p.top_a.y, layer as int);
    lemma_lifted(p.top_b.y, layer as int);
    lemma_lifted(p.bot_a.y, layer as int);
    lemma_lifted(p.bot_b.y, layer as int);
}

/// A cave segment that is put into the world stands there with all its edges,
/// one collider for each.
pub proof fn made_segments_are_solid<T: Fn(Wave, F32) -> F32, S: Fn(Edge) -> Collider>(
    e: Loaded<()>,
    level: &Level,
    trig: &T,
    segment: &S,
    free: Map<Handle, Set<Collider>>,
)
    requires
        is_made(CaveMaker { level, trig, segment }, free, e),
    ensures
        ({
            let edges = level@.seg_edges(wave_of(*trig), e.key.1, e.key.0);
            &&& e.handles@.len() == edges.len()
            &&& forall|j: int|
                0 <= j < edges.len() ==> solid(
                    free,
                    #[trigger] e.handles@[j],
                    *segment,
                    edges[j].a,
                    edges[j].b,
                )
        }),
{
    let maker = CaveMaker { level, trig, segment };
    let cs = choose|cs: Seq<Collider>| #[trigger]
        maker.makes(e.key, Some((cs, e.item))) && stored(free, e.handles@, cs);
    assert(maker.makes(e.key, Some((cs, e.item))));
    let edges = level@.seg_edges(wave_of(*trig), e.key.1, e.key.0);
    assert forall|j: int| 0 <= j < edges.len() implies solid(
        free,
        #[trigger] e.handles@[j],
        *segment,
        edges[j].a,
        edges[j].b,
    ) by {
        let c = cs[j];
        assert(free[e.handles@[j]].contains(c));
        assert(call_ensures(*segment, (edges[j],), c));
        assert(edges[j] == (Edge { a: edges[j].a, b: edges[j].b, friction: fl(0) }));
    }
}

// ---- Decks ----

/// An edge is the deck of a pad: level at its height, 3 m to either side of its
/// centre within a centimetre, with a grip of nine tenths.
pub open spec fn is_deck_of(d: Edge, pad: Pad) -> bool {
    &&& d.a.y == pad.y && d.b.y == pad.y
    &&& d.a.x.finite() && 100 * size(d.a.x.val() - (pad.cx.val() - 3 * one())) <= one()
    &&& d.b.x.finite() && 100 * size(d.b.x.val() - (pad.cx.val() + 3 * one())) <= one()
    &&& d.friction.finite() && 1000 * size(10 * d.friction.val() - 9 * one()) <= one()
}

proof fn lemma_deck_edge(cx: F32, y: F32)
    requires
        nearby(cx),
    ensures
        is_deck_of(deck_edge(cx, y), (Pad { cx, y })),
{
    lemma_huge();
    lemma2_to64();
    lemma_grain();
    lemma_const(PAD_HALF_W, 0xc0_0000, 7, 0x6000_0000);
    lemma_const(DECK_FRICTION, 0xe6_6666, 5, 0x1ccc_ccc0);
    let h = fl(PAD_HALF_W);
    assert(f_neg(h).val() == -h.val());
    lemma_sum(cx, f_neg(h));
    lemma_sum(cx, h);
}

/// `h` is the handle of the deck of `pad`.
pub open spec fn solid_deck<S: Fn(Edge) -> Collider>(free: Map<Handle, Set<Collider>>, hs: Seq<Handle>, segment: S, pad: Pad) -> bool {
    &&& hs.len() == 1
    &&& free.dom().contains(hs[0])
    &&& exists|c: Collider, d: Edge| #[trigger]
        free[hs[0]].contains(c) && #[trigger] call_ensures(segment, (d,), c) && is_deck_of(d, pad)
}

proof fn lemma_deck_solid<S: Fn(Edge) -> Collider>(free: Map<Handle, Set<Collider>>, hs: Seq<Handle>, cs: Seq<Collider>, segment: S, pad: Pad)
    requires
        stored(free, hs, cs),
        built(segment, seq![deck_edge(pad.cx, pad.y)], cs),
        nearby(pad.cx),
    ensures
        solid_deck(free, hs, segment, pad),
{
    lemma_deck_edge(pad.cx, pad.y);
    let d = deck_edge(pad.cx, pad.y);
    let c = cs[0];
    assert(free[hs[0]].contains(c));
    assert(call_ensures(segment, (seq![d][0],), c));
}

/// The pads of a generated world are solid: under each stands its deck, and
/// nothing else, at the height of the slot's pad lifted with its layer.
pub proof fn made_pads_are_solid<T: Fn(Wave, F32) -> F32, S: Fn(Edge) -> Collider>(
    e: Loaded<Pad>,
    level: &Level,
    trig: &T,
    segment: &S,
    free: Map<Handle, Set<Collider>>,
)
    requires
        is_made(PadMaker { level, trig, segment }, free, e),
        nearby(e.item.cx),
    ensures
        solid_deck(free, e.handles@, *segment, e.item),
        level@.pad(wave_of(*trig), e.key.0 as int) is Some,
        ({
            let spec = level@.pad(wave_of(*trig), e.key.0 as int)->0;
            &&& e.item.cx == spec.cx
            &&& nearby(spec.y) && -100 <= e.key.1 <= 100 ==> lifted_by(spec.y, e.item.y, e.key.1 as int)
        }),
{
    let maker = PadMaker { level, trig, segment };
    let cs = choose|cs: Seq<Collider>| #[trigger]
        maker.makes(e.key, Some((cs, e.item))) && stored(free, e.handles@, cs);
    assert(maker.makes(e.key, Some((cs, e.item))));
    lemma_deck_solid(free, e.handles@, cs, *segment, e.item);
    let spec = level@.pad(wave_of(*trig), e.key.0 as int)->0;
    if nearby(spec.y) && -100 <= e.key.1 <= 100 {
        lemma_lifted(spec.y, e.key.1 as int);
    }
}

/// So are the pads of a hand-drawn world, where they were drawn.
pub proof fn drawn_pads_are_solid<S: Fn(Edge) -> Collider>(e: Loaded<Pad>, pads: &Vec<Vec2>, segment: &S, free: Map<Handle, Set<Collider>>)
    requires
        is_made(DrawnPadMaker { pads, segment }, free, e),
        nearby(e.item.cx),
    ensures
        0 <= e.key.0 < pads@.len(),
        e.item.cx == pads@[e.key.0 as int].x,
        e.item.y == pads@[e.key.0 as int].y,
        solid_deck(free, e.handles@, *segment, e.item),
{
    let maker = DrawnPadMaker { pads, segment };
    let cs = choose|cs: Seq<Collider>| #[trigger]
        maker.makes(e.key, Some((cs, e.item))) && stored(free, e.handles@, cs);
    assert(maker.makes(e.key, Some((cs, e.item))));
    lemma_deck_solid(free, e.handles@, cs, *segment, e.item);
}

/// And the finish pads, one in each layer.
pub proof fn finish_pads_are_solid<S: Fn(Edge) -> Collider>(e: Loaded<Pad>, spec: PadSpec, segment: &S, free: Map<Handle, Set<Collider>>)
    requires
        is_made(FinishMaker { spec, segment }, free, e),
        nearby(e.item.cx),
    ensures
        solid_deck(free, e.handles@, *segment, e.item),
        e.item.cx == spec.cx,
        nearby(spec.y) && -100 <= e.key.1 <= 100 ==> lifted_by(spec.y, e.item.y, e.key.1 as int),
{
    let maker = FinishMaker { spec, segment };
    let cs = choose|cs: Seq<Collider>| #[trigger]
        maker.makes(e.key, Some((cs, e.item))) && stored(free, e.handles@, cs);
    assert(maker.makes(e.key, Some((cs, e.item))));
    lemma_deck_solid(free, e.handles@, cs, *segment, e.item);
    if nearby(spec.y) && -100 <= e.key.1 <= 100 {
        lemma_lifted(spec.y, e.key.1 as int);
    }
}

// ---- Boulders ----

/// A boulder that is put into the world is one collider, which the hull builder
/// made of the boulder's own points, at the place and with the turn that the
/// world shows, with a grip of six tenths and a bounce of two; what the world
/// shows is the slot's boulder, lifted with its layer, with the corners that the
/// hull builder found.
pub proof fn made_boulders_are_solid<T: Fn(Wave, F32) -> F32, H: Fn(Boulder) -> Option<(Collider, Vec<Vec2>)>>(
    e: Loaded<Obstacle>,
    level: &Level,
    trig: &T,
    hull: &H,
    free: Map<Handle, Set<Collider>>,
)
    requires
        is_made(BoulderMaker { level, trig, hull }, free, e),
    ensures
        level@.obstacle(wave_of(*trig), e.key.0 as int) is Some,
        ({
            let ob = level@.obstacle(wave_of(*trig), e.key.0 as int)->0;
            &&& e.item.cx == ob.cx && e.item.rot == ob.rot
            &&& nearby(ob.cy) && -100 <= e.key.1 <= 100 ==> lifted_by(ob.cy, e.item.cy, e.key.1 as int)
            &&& e.handles@.len() == 1 && free.dom().contains(e.handles@[0])
            &&& exists|c: Collider, v: BoulderView| #[trigger]
                free[e.handles@[0]].contains(c) && #[trigger] yields(*hull, v, Some((c, e.item.verts)))
                    && v.pts == ob.pts && v.at == (Vec2 { x: e.item.cx, y: e.item.cy }) && v.rot
                    == e.item.rot && 1000 * size(10 * v.friction.val() - 6 * one()) <= one() && 1000
                    * size(10 * v.bounce.val() - 2 * one()) <= one()
        }),
{
    lemma2_to64();
    lemma_grain();
    lemma_const(BOULDER_FRICTION, 0x99_999a, 5, 0x1333_3340);
    lemma_const(BOULDER_BOUNCE, 0xcc_cccd, 3, 0x666_6668);
    let maker = BoulderMaker { level, trig, hull };
    let cs = choose|cs: Seq<Collider>| #[trigger]
        maker.makes(e.key, Some((cs, e.item))) && stored(free, e.handles@, cs);
    assert(maker.makes(e.key, Some((cs, e.item))));
    let ob = level@.obstacle(wave_of(*trig), e.key.0 as int)->0;
    assert(free[e.handles@[0]].contains(cs[0]));
    assert(yields(*hull, boulder(ob, e.key.1 as int), Some((cs[0], e.item.verts))));
    if nearby(ob.cy) && -100 <= e.key.1 <= 100 {
        lemma_lifted(ob.cy, e.key.1 as int);
    }
}

// ---- Hand-drawn rock ----

/// The corner after corner `i` of a closed polygon.
pub open spec fn next_corner(p: Seq<Vec2>, i: int) -> Vec2 {
    if i + 1 < p.len() {
        p[i + 1]
    } else {
        p[0]
    }
}

spec fn edges_before(polys: Seq<Seq<Vec2>>, k: int) -> int
    decreases k,
{
    if k <= 0 {
        0
    } else {
        edges_before(polys, k - 1) + polys[k - 1].len()
    }
}

proof fn lemma_rings(polys: Seq<Seq<Vec2>>, k: int, i: int)
    requires
        0 <= k < polys.len(),
        0 <= i < polys[k].len(),
    ensures
        rings(polys).len() == edges_before(polys, polys.len() as int),
        0 <= edges_before(polys, k) + i < rings(polys).len(),
        rings(polys)[edges_before(polys, k) + i] == (Edge {
            a: polys[k][i],
            b: next_corner(polys[k], i),
            friction: fl(0),
        }),
    decreases polys.len(),
{
    let (rest, last) = (polys.drop_last(), polys.last());
    lemma_edges_before(polys, rest, rest.len() as int);
    lemma_rings_len(polys);
    lemma_rings_len(rest);
    if k < rest.len() {
        lemma_rings(rest, k, i);
        lemma_edges_before(polys, rest, k);
    } else {
        let e = ring(last)[i];
        if i + 1 < last.len() {
            lemma_small_mod((i + 1) as nat, last.len());
        } else {
            lemma_mod_self_0(last.len() as int);
        }
    }
    lemma_before_grows(polys, k);
}

proof fn lemma_before_grows(polys: Seq<Seq<Vec2>>, k: int)
    ensures
        edges_before(polys, k) >= 0,
    decreases k,
{
    if k > 0 {
        lemma_before_grows(polys, k - 1);
    }
}

proof fn lemma_rings_len(polys: Seq<Seq<Vec2>>)
    ensures
        rings(polys).len() == edges_before(polys, polys.len() as int),
    decreases polys.len(),
{
    if polys.len() > 0 {
        lemma_rings_len(polys.drop_last());
        lemma_edges_before(polys, polys.drop_last(), polys.len() - 1);
    }
}

proof fn lemma_edges_before(a: Seq<Seq<Vec2>>, b: Seq<Seq<Vec2>>, k: int)
    requires
        k <= b.len() <= a.len(),
        forall|i: int| 0 <= i < b.len() ==> a[i] == b[i],
    ensures
        edges_before(a, k) == edges_before(b, k),
    decreases k,
{
    if k > 0 {
        lemma_edges_before(a, b, k - 1);
    }
}

/// Hand-drawn rock is solid all around: from every corner of every polygon there
/// is an edge to the next one, and from the last to the first, without grip.
pub proof fn drawn_rock_is_solid(t: TerrainView, k: int, i: int)
    requires
        0 <= k < t.polys.len(),
        0 <= i < t.polys[k].len(),
    ensures
        exists|j: int|
            0 <= j < drawn_edges(t).len() && #[trigger] drawn_edges(t)[j] == (Edge {
                a: t.polys[k][i],
                b: next_corner(t.polys[k], i),
                friction: fl(0),
            }),
{
    lemma_rings(t.polys, k, i);
    let j = edges_before(t.polys, k) + i;
    assert(drawn_edges(t)[j] == rings(t.polys)[j]);
}

/// A hand-drawn world has as many edges as its polygons have corners, and one
/// more for the platform at the start, which is a deck like any other.
pub proof fn drawn_worlds_have_no_other_edges(t: TerrainView)
    ensures
        ({
            let n = drawn_edges(t).len();
            match t.start {
                Some(p) => {
                    &&& n == rings(t.polys).len() + 1
                    &&& nearby(p.x) ==> is_deck_of(drawn_edges(t)[n - 1], Pad { cx: p.x, y: p.y })
                },
                None => n == rings(t.polys).len(),
            }
        }),
        t.polys.len() == 0 ==> rings(t.polys).len() == 0,
        t.polys.len() > 0 ==> rings(t.polys).len() == rings(t.polys.drop_last()).len()
            + t.polys.last().len(),
{
    match t.start {
        Some(p) => {
            if nearby(p.x) {
                lemma_deck_edge(p.x, p.y);
            }
        },
        None => {},
    }
}

} // verus!
