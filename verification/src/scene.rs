//! The part of the world that is loaded: four windows of slots that follow the
//! ship, or, in a hand-drawn world, everything at once.

use crate::binary32::arith::{f_add, f_div, f_mul, f_sub};
use crate::binary32::convert::{f_ceil, f_floor, f_of_int, f_round, f_to_i64};
use crate::binary32::order::{f_le, f_lt};
use crate::binary32::{fl, F32};
use crate::cave::{steady, wave_of, Wave, SEG_LEN};
use crate::colliders::{
    attach_collider, bodies_in, bound_colliders, empty_bodies, empty_colliders, empty_islands,
    free_colliders, insert_body, removal_count, Handle,
};
use crate::level::{Level, LevelView, Terrain, TerrainView, Vec2};
use crate::obstacle::OBSTACLE_SPACING;
use crate::pad::{PadSpec, GOAL_SLOT_NEG, GOAL_SLOT_POS};
use crate::scenery::{
    build_all, built, deck_edge, edge_of_deck, tireless, willing, Boulder, BoulderMaker, CaveMaker,
    DrawnPadMaker, Edge, FinishMaker, Obstacle, Pad, PadMaker, Shaft, ShaftMaker,
};
use crate::shaft::{floor_div, SHAFT_SPACING_SEGS, V_PERIOD};
use crate::slots::{
    absent, ascending, block, complete, entering, entries, evict, exits, fill, filled, has_key, has_slot,
    in_step, insert_all, is_made, keeps, kept, lemma_evicted, lemma_kept, lemma_nothing_new,
    lemma_other_kind, lemma_rows_same, lemma_same_but_then, lemma_slid_spared, lemma_spared,
    line_of, load, moves, rows, same_but, same_kind, slid, slide, spared, stored, undisturbed,
    unless, within, Key, Kind, Loaded, Maker, Op, Owner, Window, World,
};
use rapier2d::dynamics::{RigidBody, RigidBodySet};
use rapier2d::geometry::{Collider, ColliderSet};
use vstd::prelude::*;

verus! {

/// Segments kept loaded on each side of the ship.
pub const HALF_WINDOW: i64 = 80;

/// `3`: how far a boulder may stand from the middle of its slot.
pub const BOULDER_MARGIN: u32 = 0x4040_0000;

/// `20`: how far a pad may stand from the middle of its slot.
pub const PAD_MARGIN: u32 = 0x41a0_0000;

/// The window key of a place: its cave segment and its layer.
pub open spec fn key_at(x: F32, y: F32) -> Key {
    (
        f_to_i64(f_floor(f_div(x, fl(SEG_LEN)))),
        f_to_i64(f_round(f_div(y, fl(V_PERIOD)))),
    )
}

/// A window around `at` does not run off the key space.
pub open spec fn key_fits(at: Key) -> bool {
    &&& i64::MIN + HALF_WINDOW <= at.0 < i64::MAX - HALF_WINDOW
    &&& i64::MIN < at.1 < i64::MAX
}

/// The x of the window's left end.
pub open spec fn left_x(at: Key) -> F32 {
    f_mul(f_of_int(at.0 - HALF_WINDOW), fl(SEG_LEN))
}

/// The x of the window's right end.
pub open spec fn right_x(at: Key) -> F32 {
    f_mul(f_of_int(at.0 + HALF_WINDOW + 1), fl(SEG_LEN))
}

/// The slots, `spacing` apart, that reach into the window.
pub open spec fn slot_range(at: Key, margin: F32, spacing: F32) -> (i64, i64) {
    (
        f_to_i64(f_floor(f_div(f_sub(left_x(at), margin), spacing))),
        f_to_i64(f_ceil(f_div(f_add(right_x(at), margin), spacing))),
    )
}

/// The colliders that belong to no slot are those that did, and `hs`, which
/// are new.
pub open spec fn joined(o: Map<Handle, Owner>, p: Map<Handle, Owner>, hs: Seq<Handle>) -> bool {
    &&& forall|h: Handle|
        (p.dom().contains(h) && p[h].kind == Kind::Fixed) <==> (#[trigger] hs.contains(h) || (
        o.dom().contains(h) && o[h].kind == Kind::Fixed))
    &&& forall|h: Handle| #[trigger] hs.contains(h) ==> !o.dom().contains(h)
}

/// The cave segments of the window: three layers.
pub open spec fn cave_span(at: Key) -> spec_fn(Key) -> bool {
    block(at.1 - 1, at.1 + 1, at.0 - HALF_WINDOW, at.0 + HALF_WINDOW, false)
}

/// The shafts of the window: those below and above the ship's layer.
pub open spec fn shaft_span(at: Key) -> spec_fn(Key) -> bool {
    block(shaft_lines(at).0, shaft_lines(at).1, at.1 - 1, at.1 as int, false)
}

/// The first and the last shaft slot of the window.
pub open spec fn shaft_lines(at: Key) -> (int, int) {
    (
        (at.0 - HALF_WINDOW) / SHAFT_SPACING_SEGS as int - 1,
        (at.0 + HALF_WINDOW) / SHAFT_SPACING_SEGS as int + 1,
    )
}

/// The boulder slots of the window.
pub open spec fn boulder_span(at: Key) -> spec_fn(Key) -> bool {
    let r = slot_range(at, fl(BOULDER_MARGIN), fl(OBSTACLE_SPACING));
    block(at.1 - 1, at.1 + 1, r.0 as int, r.1 as int, true)
}

/// The pad slots of the window.
pub open spec fn pad_span(level: LevelView, at: Key) -> spec_fn(Key) -> bool {
    let r = slot_range(at, fl(PAD_MARGIN), level.pad_spacing);
    block(at.1 - 1, at.1 + 1, r.0 as int, r.1 as int, true)
}

/// Which pads stay in the window: finish pads by where they stand, others by
/// their slot.
pub open spec fn pad_stays(level: LevelView, at: Key) -> spec_fn(Key, Pad) -> bool {
    |k: Key, pad: Pad|
        {
            let r = slot_range(at, fl(PAD_MARGIN), level.pad_spacing);
            &&& at.1 - 1 <= k.1 <= at.1 + 1
            &&& if k.0 == GOAL_SLOT_POS || k.0 == GOAL_SLOT_NEG {
                f_le(f_sub(left_x(at), fl(PAD_MARGIN)), pad.cx) && f_le(
                    pad.cx,
                    f_add(right_x(at), fl(PAD_MARGIN)),
                )
            } else {
                r.0 <= k.0 <= r.1
            }
        }
}

/// The finish pad on one side, if the window reaches it.
pub open spec fn finish_due(level: LevelView, w: spec_fn(Wave, F32) -> F32, at: Key, side: int) -> Option<PadSpec> {
    match level.goal_pad(w, side) {
        Some(spec) => if f_lt(spec.cx, f_sub(left_x(at), fl(PAD_MARGIN))) || f_lt(
            f_add(right_x(at), fl(PAD_MARGIN)),
            spec.cx,
        ) {
            None
        } else {
            Some(spec)
        },
        None => None,
    }
}

/// The copies of the finish pad in slot `slot`: one in each layer.
pub open spec fn finish_span(at: Key, slot: i64) -> spec_fn(Key) -> bool {
    block(slot as int, slot as int, at.1 - 1, at.1 + 1, false)
}

/// `e` is the finish pad on one side, with its deck in the world.
pub open spec fn is_finish<T: Fn(Wave, F32) -> F32, S: Fn(Edge) -> Collider>(
    level: &Level,
    trig: &T,
    segment: &S,
    at: Key,
    slot: i64,
    side: int,
    free: Map<Handle, Set<Collider>>,
    e: Loaded<Pad>,
) -> bool {
    match finish_due(level@, wave_of(*trig), at, side) {
        Some(spec) => finish_span(at, slot)(e.key) && is_made(FinishMaker { spec, segment }, free, e),
        None => false,
    }
}

/// The pads after the window moved: those that may stay do; the others are new
/// slot pads or finish pads; no slot pad of the window is missing but those
/// whose place is taken, and no finish pad that the window reaches.
pub open spec fn slid_pads<T: Fn(Wave, F32) -> F32, S: Fn(Edge) -> Collider>(
    s: Seq<Loaded<Pad>>,
    t: Seq<Loaded<Pad>>,
    level: &Level,
    trig: &T,
    segment: &S,
    at: Key,
    free: Map<Handle, Set<Collider>>,
) -> bool {
    &&& forall|e: Loaded<Pad>| #[trigger]
        has_slot(s, e) && pad_stays(level@, at)(e.key, e.item) ==> has_slot(t, e)
    &&& forall|e: Loaded<Pad>| #[trigger]
        has_slot(t, e) ==> {
            ||| has_slot(s, e) && pad_stays(level@, at)(e.key, e.item)
            ||| pad_span(level@, at)(e.key) && is_made(PadMaker { level, trig, segment }, free, e)
            ||| is_finish(level, trig, segment, at, GOAL_SLOT_POS, 1, free, e)
            ||| is_finish(level, trig, segment, at, GOAL_SLOT_NEG, -1, free, e)
        }
    &&& forall|k: Key| #[trigger]
        pad_span(level@, at)(k) ==> has_key(t, k) || level@.pad(wave_of(*trig), k.0 as int) is None
    &&& finish_due(level@, wave_of(*trig), at, 1) is Some ==> forall|k: Key| #[trigger]
        finish_span(at, GOAL_SLOT_POS)(k) ==> has_key(t, k)
    &&& finish_due(level@, wave_of(*trig), at, -1) is Some ==> forall|k: Key| #[trigger]
        finish_span(at, GOAL_SLOT_NEG)(k) ==> has_key(t, k)
}

/// A key of the window whose slot holds a pad, and which `s` lacks.
pub open spec fn slot_due(s: Seq<Loaded<Pad>>, level: LevelView, w: spec_fn(Wave, F32) -> F32, at: Key) -> spec_fn(Key) -> bool {
    |k: Key| pad_span(level, at)(k) && level.pad(w, k.0 as int) is Some && !has_key(s, k)
}

/// Any other key that `s` lacks.
pub open spec fn other_due(s: Seq<Loaded<Pad>>, level: LevelView, w: spec_fn(Wave, F32) -> F32, at: Key) -> spec_fn(Key) -> bool {
    |k: Key| !slot_due(s, level, w, at)(k) && !has_key(s, k)
}

/// What the pads' move from `s` to `t` does to the collider set: what may not
/// stay leaves in key order; then the new slot pads enter layer by layer, and
/// after them the copies of either finish.
pub open spec fn pad_moves(s: Seq<Loaded<Pad>>, t: Seq<Loaded<Pad>>, level: LevelView, w: spec_fn(Wave, F32) -> F32, at: Key) -> Seq<Op> {
    let stay = kept(s, pad_stays(level, at));
    let slots = slot_due(stay, level, w, at);
    let other = other_due(stay, level, w, at);
    let (a, b) = (GOAL_SLOT_POS as int, GOAL_SLOT_NEG as int);
    exits(Kind::Pad, kept(s, unless(pad_stays(level, at)))) + entries(
        Kind::Pad,
        rows(t, at.1 - 1, at.1 + 1, true, slots),
    ) + entries(Kind::Pad, rows(t, a, a, false, other)) + entries(
        Kind::Pad,
        rows(t, b, b, false, other),
    )
}

/// The edges around a closed polygon.
pub open spec fn ring(poly: Seq<Vec2>) -> Seq<Edge> {
    Seq::new(
        poly.len(),
        |i: int| Edge { a: poly[i], b: poly[(i + 1) % poly.len() as int], friction: fl(0) },
    )
}

/// The edges of all polygons in order.
pub open spec fn rings(polys: Seq<Seq<Vec2>>) -> Seq<Edge>
    decreases polys.len(),
{
    if polys.len() == 0 {
        seq![]
    } else {
        rings(polys.drop_last()) + ring(polys.last())
    }
}

/// The edges of a hand-drawn world: its rock, and the start platform.
pub open spec fn drawn_edges(t: TerrainView) -> Seq<Edge> {
    match t.start {
        Some(p) => rings(t.polys).push(deck_edge(p.x, p.y)),
        None => rings(t.polys),
    }
}

/// The keys of a hand-drawn world's pads.
pub open spec fn drawn_span(t: TerrainView) -> spec_fn(Key) -> bool {
    block(0, t.pads.len() - 1, 0, 0, false)
}

/// The number of a hand-drawn world's last pad, as far as keys go.
pub open spec fn last_pad(t: TerrainView) -> int {
    if t.pads.len() > i64::MAX {
        i64::MAX as int
    } else {
        t.pads.len() - 1
    }
}

/// The window key of a place.
pub fn window_key(x: F32, y: F32) -> (r: Key)
    ensures
        r == key_at(x, y),
{
    (x.over(fl(SEG_LEN)).floor().to_i64(), y.over(fl(V_PERIOD)).round().to_i64())
}

/// Whether a window around `at` stays within the key space.
pub fn check_key(at: Key) -> (r: bool)
    ensures
        r == key_fits(at),
{
    i64::MIN + HALF_WINDOW <= at.0 && at.0 < i64::MAX - HALF_WINDOW && i64::MIN < at.1 && at.1
        < i64::MAX
}

fn add_ring(edges: &mut Vec<Edge>, poly: &Vec<Vec2>)
    ensures
        final(edges)@ == old(edges)@ + ring(poly@),
{
    let ghost e0 = edges@;
    let n: usize = poly.len();
    let mut i: usize = 0;
    assert(edges@ =~= e0 + ring(poly@).subrange(0, 0));
    while i < n
        invariant
            i <= n,
            n == poly@.len(),
            edges@ == e0 + ring(poly@).subrange(0, i as int),
        decreases n - i,
    {
        let next: usize = if i + 1 == n {
            0
        } else {
            i + 1
        };
        proof {
            if i + 1 < n {
                vstd::arithmetic::div_mod::lemma_small_mod((i + 1) as nat, n as nat);
            } else {
                vstd::arithmetic::div_mod::lemma_mod_self_0(n as int);
            }
            assert(next == (i + 1) % n as int);
        }
        edges.push(Edge { a: poly[i], b: poly[next], friction: fl(0) });
        assert(edges@ =~= e0 + ring(poly@).subrange(0, i + 1));
        i = i + 1;
    }
    assert(ring(poly@).subrange(0, n as int) =~= ring(poly@));
}

/// The edges of a hand-drawn world.
pub fn terrain_edges(t: &Terrain) -> (r: Vec<Edge>)
    ensures
        r@ == drawn_edges(t@),
{
    let mut r: Vec<Edge> = Vec::new();
    let mut i: usize = 0;
    assert(t@.polys.subrange(0, 0) =~= seq![]);
    while i < t.polys.len()
        invariant
            i <= t.polys@.len(),
            r@ == rings(t@.polys.subrange(0, i as int)),
        decreases t.polys.len() - i,
    {
        add_ring(&mut r, &t.polys[i]);
        proof {
            let next = t@.polys.subrange(0, i + 1);
            assert(next.drop_last() =~= t@.polys.subrange(0, i as int));
            assert(next.last() == t.polys@[i as int]@);
        }
        i = i + 1;
    }
    assert(t@.polys.subrange(0, t.polys@.len() as int) =~= t@.polys);
    match t.start {
        Some(p) => {
            r.push(edge_of_deck(p.x, p.y));
        },
        None => {},
    }
    r
}

/// Which pads may stay.
fn pads_staying(win: &Window<Pad>, level: &Level, at: Key, range: (i64, i64), lo: F32, hi: F32) -> (r: Vec<bool>)
    requires
        key_fits(at),
        range == slot_range(at, fl(PAD_MARGIN), level@.pad_spacing),
        lo == f_sub(left_x(at), fl(PAD_MARGIN)),
        hi == f_add(right_x(at), fl(PAD_MARGIN)),
    ensures
        r@.len() == win.slots@.len(),
        forall|i: int|
            0 <= i < r@.len() ==> #[trigger] r@[i] == pad_stays(level@, at)(
                win.slots@[i].key,
                win.slots@[i].item,
            ),
{
    let mut r: Vec<bool> = Vec::new();
    let mut i: usize = 0;
    while i < win.slots.len()
        invariant
            i <= win.slots@.len(),
            r@.len() == i,
            key_fits(at),
            range == slot_range(at, fl(PAD_MARGIN), level@.pad_spacing),
            lo == f_sub(left_x(at), fl(PAD_MARGIN)),
            hi == f_add(right_x(at), fl(PAD_MARGIN)),
            forall|j: int|
                0 <= j < i ==> #[trigger] r@[j] == pad_stays(level@, at)(
                    win.slots@[j].key,
                    win.slots@[j].item,
                ),
        decreases win.slots.len() - i,
    {
        let k: Key = win.slots[i].key;
        let cx: F32 = win.slots[i].item.cx;
        let in_x: bool = if k.0 == GOAL_SLOT_POS || k.0 == GOAL_SLOT_NEG {
            lo.le(cx) && cx.le(hi)
        } else {
            range.0 <= k.0 && k.0 <= range.1
        };
        r.push(in_x && at.1 - 1 <= k.1 && k.1 <= at.1 + 1);
        i = i + 1;
    }
    r
}

/// Loads the copies of a finish pad that the window reaches.
fn fill_finish<T: Fn(Wave, F32) -> F32, S: Fn(Edge) -> Collider>(
    win: &mut Window<Pad>,
    world: &mut World,
    level: &Level,
    trig: &T,
    segment: &S,
    at: Key,
    slot: i64,
    side: i8,
    lo: F32,
    hi: F32,
    owners: &mut Ghost<Map<Handle, Owner>>,
)
    requires
        steady(*trig),
        willing(*segment),
        key_fits(at),
        lo == f_sub(left_x(at), fl(PAD_MARGIN)),
        hi == f_add(right_x(at), fl(PAD_MARGIN)),
        in_step(old(win).slots@, Kind::Pad, old(owners)@),
        complete(old(world), old(owners)@),
    ensures
        match finish_due(level@, wave_of(*trig), at, side as int) {
            Some(spec) => filled(
                old(win).slots@,
                final(win).slots@,
                (FinishMaker { spec, segment }),
                final(world).free(),
                finish_span(at, slot),
            ),
            None => final(win).slots@ == old(win).slots@,
        },
        final(world).log@ == old(world).log@ + entries(
            Kind::Pad,
            rows(final(win).slots@, slot as int, slot as int, false, absent(old(win).slots@)),
        ),
        in_step(final(win).slots@, Kind::Pad, final(owners)@),
        same_but(old(owners)@, final(owners)@, Kind::Pad),
        complete(final(world), final(owners)@),
        keeps(old(world).free(), final(world).free()),
        final(world).removed == old(world).removed,
        final(world).same_bodies(old(world)),
{
    let ghost s0 = win.slots@;
    let ghost log0 = world.log@;
    proof {
        lemma_nothing_new(s0, slot as int, slot as int, false);
        assert(log0 =~= log0 + entries(
            Kind::Pad,
            rows(s0, slot as int, slot as int, false, absent(s0)),
        ));
    }
    match level.goal_pad_spec(trig, side) {
        None => {},
        Some(spec) => {
            if !(spec.cx.lt(lo) || hi.lt(spec.cx)) {
                let maker: FinishMaker<S> = FinishMaker { spec, segment };
                fill(
                    win,
                    world,
                    &maker,
                    (slot, slot),
                    (at.1 - 1, at.1 + 1),
                    false,
                    Ghost(Kind::Pad),
                    owners,
                );
            }
        },
    }
}

/// Moves the pad window.
fn slide_pads<T: Fn(Wave, F32) -> F32, S: Fn(Edge) -> Collider>(
    win: &mut Window<Pad>,
    world: &mut World,
    level: &Level,
    trig: &T,
    segment: &S,
    at: Key,
    owners: &mut Ghost<Map<Handle, Owner>>,
)
    requires
        steady(*trig),
        willing(*segment),
        key_fits(at),
        in_step(old(win).slots@, Kind::Pad, old(owners)@),
        complete(old(world), old(owners)@),
        old(world).removed + load(old(win).slots@) <= u32::MAX,
    ensures
        slid_pads(
            old(win).slots@,
            final(win).slots@,
            level,
            trig,
            segment,
            at,
            final(world).free(),
        ),
        in_step(final(win).slots@, Kind::Pad, final(owners)@),
        same_but(old(owners)@, final(owners)@, Kind::Pad),
        complete(final(world), final(owners)@),
        undisturbed(
            kept(old(win).slots@, pad_stays(level@, at)),
            final(win).slots@,
            old(world).free(),
            final(world).free(),
        ),
        spared(old(owners)@, Kind::Pad, old(world).free(), final(world).free()),
        final(world).removed <= old(world).removed + load(old(win).slots@),
        final(world).same_bodies(old(world)),
        final(world).log@ == old(world).log@ + pad_moves(
            old(win).slots@,
            final(win).slots@,
            level@,
            wave_of(*trig),
            at,
        ),
{
    let ghost log0 = world.log@;
    let left: F32 = F32::of_i64(at.0 - HALF_WINDOW).times(fl(SEG_LEN));
    let right: F32 = F32::of_i64(at.0 + HALF_WINDOW + 1).times(fl(SEG_LEN));
    let lo: F32 = left.minus(fl(PAD_MARGIN));
    let hi: F32 = right.plus(fl(PAD_MARGIN));
    let from: i64 = lo.over(level.pad_spacing).floor().to_i64();
    let to: i64 = hi.over(level.pad_spacing).ceil().to_i64();
    let ghost keep = pad_stays(level@, at);
    let ghost s0 = win.slots@;
    let ghost o0 = owners@;
    let ghost f0 = world.free();
    let flags: Vec<bool> = pads_staying(win, level, at, (from, to), lo, hi);
    evict(win, world, &flags, Ghost(keep), Ghost(Kind::Pad), owners);
    let ghost s1 = win.slots@;
    let ghost o1 = owners@;
    let ghost f1 = world.free();
    let maker: PadMaker<T, S> = PadMaker { level, trig, segment };
    fill(win, world, &maker, (at.1 - 1, at.1 + 1), (from, to), true, Ghost(Kind::Pad), owners);
    let ghost s2 = win.slots@;
    let ghost o2 = owners@;
    let ghost f2 = world.free();
    fill_finish(win, world, level, trig, segment, at, GOAL_SLOT_POS, 1, lo, hi, owners);
    let ghost s3 = win.slots@;
    let ghost o3 = owners@;
    let ghost f3 = world.free();
    fill_finish(win, world, level, trig, segment, at, GOAL_SLOT_NEG, -1, lo, hi, owners);
    proof {
        let s4 = win.slots@;
        let f4 = world.free();
        lemma_kept(s0, keep);
        lemma_evicted(s0, s1, Kind::Pad, o0, o1, f0, f1);
        lemma_same_but_then(o0, o1, o2, Kind::Pad);
        lemma_same_but_then(o0, o2, o3, Kind::Pad);
        lemma_same_but_then(o0, o3, owners@, Kind::Pad);
        lemma_pads(s0, s1, s2, s3, s4, level, trig, segment, at, f1, f2, f3, f4);
        lemma_pad_moves(s1, s2, s3, s4, level, trig, segment, at, f2, f3, f4);
        assert(world.log@ =~= log0 + pad_moves(s0, s4, level@, wave_of(*trig), at));
        assert(undisturbed(s1, s4, f0, f4)) by {
            lemma_evicted(s1, s1, Kind::Pad, o0, o1, f0, f1);
            assert forall|e: Loaded<Pad>, j: int|
                #![trigger has_slot(s4, e), e.handles@[j]]
                has_slot(s1, e) && has_slot(s4, e) && 0 <= j < e.handles@.len() implies f4.dom().contains(
                e.handles@[j],
            ) && f4[e.handles@[j]] == f0[e.handles@[j]] by {
                assert(f1.dom().contains(e.handles@[j]));
                assert(f2.dom().contains(e.handles@[j]));
                assert(f3.dom().contains(e.handles@[j]));
            }
        }
        assert(spared(o0, Kind::Pad, f0, f4)) by {
            assert forall|h: Handle| #[trigger] o0.dom().contains(h) && o0[h].kind != Kind::Pad implies f4.dom().contains(h)
                && f4[h] == f0[h] by {
                assert(f1.dom().contains(h));
                assert(f2.dom().contains(h));
                assert(f3.dom().contains(h));
            }
        }
    }
}

/// The pads that each step brings, seen from the end.
proof fn lemma_pad_moves<T: Fn(Wave, F32) -> F32, S: Fn(Edge) -> Collider>(
    s1: Seq<Loaded<Pad>>,
    s2: Seq<Loaded<Pad>>,
    s3: Seq<Loaded<Pad>>,
    s4: Seq<Loaded<Pad>>,
    level: &Level,
    trig: &T,
    segment: &S,
    at: Key,
    f2: Map<Handle, Set<Collider>>,
    f3: Map<Handle, Set<Collider>>,
    f4: Map<Handle, Set<Collider>>,
)
    requires
        ascending(s2),
        ascending(s3),
        ascending(s4),
        filled(s1, s2, (PadMaker { level, trig, segment }), f2, pad_span(level@, at)),
        match finish_due(level@, wave_of(*trig), at, 1) {
            Some(spec) => filled(
                s2,
                s3,
                (FinishMaker { spec, segment }),
                f3,
                finish_span(at, GOAL_SLOT_POS),
            ),
            None => s3 == s2,
        },
        match finish_due(level@, wave_of(*trig), at, -1) {
            Some(spec) => filled(
                s3,
                s4,
                (FinishMaker { spec, segment }),
                f4,
                finish_span(at, GOAL_SLOT_NEG),
            ),
            None => s4 == s3,
        },
    ensures
        ({
            let w = wave_of(*trig);
            let slots = slot_due(s1, level@, w, at);
            let other = other_due(s1, level@, w, at);
            let (a, b) = (GOAL_SLOT_POS as int, GOAL_SLOT_NEG as int);
            &&& rows(s2, at.1 - 1, at.1 + 1, true, absent(s1)) == rows(s4, at.1 - 1, at.1 + 1, true, slots)
            &&& rows(s3, a, a, false, absent(s2)) == rows(s4, a, a, false, other)
            &&& rows(s4, b, b, false, absent(s3)) == rows(s4, b, b, false, other)
        }),
{
    let w = wave_of(*trig);
    let maker = PadMaker { level, trig, segment };
    let slots = slot_due(s1, level@, w, at);
    let other = other_due(s1, level@, w, at);
    let (a, b) = (GOAL_SLOT_POS as int, GOAL_SLOT_NEG as int);
    assert forall|e: Loaded<Pad>| #[trigger] has_slot(s2, e) implies has_slot(s3, e) by {}
    assert forall|e: Loaded<Pad>| #[trigger] has_slot(s3, e) implies has_slot(s4, e) by {}
    lemma_has_key_later(s1, s2);
    lemma_has_key_later(s2, s3);
    lemma_has_key_later(s3, s4);
    assert forall|e: Loaded<Pad>| #[trigger] has_slot(s4, e) implies {
        ||| has_slot(s1, e)
        ||| has_slot(s2, e) && !has_key(s1, e.key) && slots(e.key)
        ||| has_slot(s3, e) && !has_key(s2, e.key) && e.key.0 == GOAL_SLOT_POS
        ||| !has_key(s3, e.key) && e.key.0 == GOAL_SLOT_NEG
    } by {
        if has_slot(s2, e) && !has_slot(s1, e) {
            let cs = choose|cs: Seq<Collider>| #[trigger]
                maker.makes(e.key, Some((cs, e.item))) && stored(f2, e.handles@, cs);
            assert(maker.makes(e.key, Some((cs, e.item))));
        }
    }
    assert forall|e: Loaded<Pad>| #[trigger] has_slot(s1, e) implies has_key(s1, e.key) by {
        let i = choose|i: int| 0 <= i < s1.len() && #[trigger] s1[i] == e;
        assert(s1[i].key == e.key);
    }
    assert forall|k: Key| slots(k) implies #[trigger] has_key(s2, k) by {
        if !has_key(s2, k) {
            assert(pad_span(level@, at)(k));
            assert(maker.makes(k, None));
        }
    }
    assert forall|e: Loaded<Pad>| #[trigger] has_slot(s2, e) implies has_key(s2, e.key) by {
        let i = choose|i: int| 0 <= i < s2.len() && #[trigger] s2[i] == e;
        assert(s2[i].key == e.key);
    }
    assert forall|e: Loaded<Pad>|
        #![trigger has_slot(s2, e)]
        #![trigger has_slot(s4, e)]
        at.1 - 1 <= line_of(e.key, true) <= at.1 + 1 implies (has_slot(s2, e) && absent(s1)(e.key)
        <==> has_slot(s4, e) && slots(e.key)) by {
        if has_slot(s2, e) && !has_key(s1, e.key) {
            assert(has_slot(s3, e));
            assert(has_slot(s4, e));
        }
        if has_slot(s4, e) && slots(e.key) {
            assert(has_key(s2, e.key));
            assert(has_key(s3, e.key));
        }
    }
    lemma_rows_same(s2, s4, at.1 - 1, at.1 + 1, true, absent(s1), slots);
    assert forall|e: Loaded<Pad>|
        #![trigger has_slot(s3, e)]
        #![trigger has_slot(s4, e)]
        a <= line_of(e.key, false) <= a implies (has_slot(s3, e) && absent(s2)(e.key) <==> has_slot(
        s4,
        e,
    ) && other(e.key)) by {
        if has_slot(s3, e) && !has_key(s2, e.key) {
            assert(has_slot(s4, e));
            if has_key(s1, e.key) {
                assert(has_key(s2, e.key));
            }
            if slots(e.key) {
                assert(has_key(s2, e.key));
            }
        }
    }
    lemma_rows_same(s3, s4, a, a, false, absent(s2), other);
    assert forall|e: Loaded<Pad>| #[trigger] has_slot(s4, e) && b <= line_of(e.key, false) <= b implies (absent(
        s3,
    )(e.key) <==> other(e.key)) by {
        if !has_key(s3, e.key) {
            if has_key(s1, e.key) {
                assert(has_key(s2, e.key));
                assert(has_key(s3, e.key));
            }
            if slots(e.key) {
                assert(has_key(s2, e.key));
                assert(has_key(s3, e.key));
            }
        }
    }
    lemma_rows_same(s4, s4, b, b, false, absent(s3), other);
}

proof fn lemma_still_made<V, M: Maker<V>>(maker: M, a: Map<Handle, Set<Collider>>, b: Map<Handle, Set<Collider>>, e: Loaded<V>)
    requires
        is_made(maker, a, e),
        keeps(a, b),
    ensures
        is_made(maker, b, e),
{
    let cs = choose|cs: Seq<Collider>| #[trigger]
        maker.makes(e.key, Some((cs, e.item))) && stored(a, e.handles@, cs);
    assert forall|j: int| 0 <= j < e.handles@.len() implies b.dom().contains(#[trigger] e.handles@[j]) && b[e.handles@[j]].contains(cs[j]) by {
        assert(a.dom().contains(e.handles@[j]));
    }
    assert(stored(b, e.handles@, cs));
}

proof fn lemma_has_key_later<V>(s: Seq<Loaded<V>>, t: Seq<Loaded<V>>)
    requires
        forall|e: Loaded<V>| #[trigger] has_slot(s, e) ==> has_slot(t, e),
    ensures
        forall|k: Key| #[trigger] has_key(s, k) ==> has_key(t, k),
{
    assert forall|k: Key| #[trigger] has_key(s, k) implies has_key(t, k) by {
        let i = choose|i: int| 0 <= i < s.len() && #[trigger] s[i].key == k;
        assert(has_slot(s, s[i]));
        let j = choose|j: int| 0 <= j < t.len() && #[trigger] t[j] == s[i];
        assert(t[j].key == k);
    }
}

/// What is true of the pads after an eviction, the slot pads, and both finish
/// pads.
proof fn lemma_pads<T: Fn(Wave, F32) -> F32, S: Fn(Edge) -> Collider>(
    s0: Seq<Loaded<Pad>>,
    s1: Seq<Loaded<Pad>>,
    s2: Seq<Loaded<Pad>>,
    s3: Seq<Loaded<Pad>>,
    s4: Seq<Loaded<Pad>>,
    level: &Level,
    trig: &T,
    segment: &S,
    at: Key,
    f1: Map<Handle, Set<Collider>>,
    f2: Map<Handle, Set<Collider>>,
    f3: Map<Handle, Set<Collider>>,
    f4: Map<Handle, Set<Collider>>,
)
    requires
        s1 == kept(s0, pad_stays(level@, at)),
        filled(s1, s2, (PadMaker { level, trig, segment }), f2, pad_span(level@, at)),
        match finish_due(level@, wave_of(*trig), at, 1) {
            Some(spec) => filled(
                s2,
                s3,
                (FinishMaker { spec, segment }),
                f3,
                finish_span(at, GOAL_SLOT_POS),
            ),
            None => s3 == s2,
        },
        match finish_due(level@, wave_of(*trig), at, -1) {
            Some(spec) => filled(
                s3,
                s4,
                (FinishMaker { spec, segment }),
                f4,
                finish_span(at, GOAL_SLOT_NEG),
            ),
            None => s4 == s3,
        },
        keeps(f1, f2),
        keeps(f2, f3),
        keeps(f3, f4),
    ensures
        slid_pads(s0, s4, level, trig, segment, at, f4),
{
    let keep = pad_stays(level@, at);
    let maker = PadMaker { level, trig, segment };
    lemma_kept(s0, keep);
    assert forall|e: Loaded<Pad>| #[trigger] has_slot(s1, e) implies has_slot(s2, e) by {}
    assert forall|e: Loaded<Pad>| #[trigger] has_slot(s2, e) implies has_slot(s3, e) by {}
    assert forall|e: Loaded<Pad>| #[trigger] has_slot(s3, e) implies has_slot(s4, e) by {}
    lemma_has_key_later(s2, s3);
    lemma_has_key_later(s3, s4);
    assert forall|h: Handle| #[trigger] f2.dom().contains(h) implies f4.dom().contains(h) && f4[h] == f2[h] by {
        assert(f3.dom().contains(h));
    }
    assert(keeps(f2, f4));
    assert forall|e: Loaded<Pad>| #[trigger] has_slot(s0, e) && keep(e.key, e.item) implies has_slot(s4, e) by {
        assert(has_slot(s1, e));
        assert(has_slot(s2, e));
        assert(has_slot(s3, e));
    }
    assert forall|e: Loaded<Pad>| #[trigger] has_slot(s4, e) implies {
        ||| has_slot(s0, e) && keep(e.key, e.item)
        ||| pad_span(level@, at)(e.key) && is_made(maker, f4, e)
        ||| is_finish(level, trig, segment, at, GOAL_SLOT_POS, 1, f4, e)
        ||| is_finish(level, trig, segment, at, GOAL_SLOT_NEG, -1, f4, e)
    } by {
        if has_slot(s1, e) {
        } else if has_slot(s2, e) {
            lemma_still_made(maker, f2, f4, e);
        } else if has_slot(s3, e) {
            let spec = finish_due(level@, wave_of(*trig), at, 1)->0;
            lemma_still_made(FinishMaker { spec, segment }, f3, f4, e);
        }
    }
    assert forall|k: Key| #[trigger] pad_span(level@, at)(k) implies has_key(s4, k) || level@.pad(
        wave_of(*trig),
        k.0 as int,
    ) is None by {
        if !has_key(s2, k) {
            assert(maker.makes(k, None));
        }
    }
    if finish_due(level@, wave_of(*trig), at, 1) is Some {
        let spec = finish_due(level@, wave_of(*trig), at, 1)->0;
        let fm = FinishMaker { spec, segment };
        assert forall|k: Key| #[trigger] finish_span(at, GOAL_SLOT_POS)(k) implies has_key(s4, k) by {
            assert(!fm.makes(k, None));
        }
    }
    if finish_due(level@, wave_of(*trig), at, -1) is Some {
        let spec = finish_due(level@, wave_of(*trig), at, -1)->0;
        let fm = FinishMaker { spec, segment };
        assert forall|k: Key| #[trigger] finish_span(at, GOAL_SLOT_NEG)(k) implies has_key(s4, k) by {
            assert(!fm.makes(k, None));
        }
    }
}

/// What is loaded, and where the window last stood.
pub struct Scene {
    pub world: World,
    /// Cave segments, under (layer, segment).
    pub cave: Window<()>,
    /// Shafts, under (slot, gap).
    pub shafts: Window<Shaft>,
    /// Boulders, under (slot, layer).
    pub obstacles: Window<Obstacle>,
    /// Pads, under (slot, layer).
    pub pads: Window<Pad>,
    pub synced_at: Option<Key>,
    pub terrain_loaded: bool,
    /// Whose each collider is.
    pub owners: Ghost<Map<Handle, Owner>>,
}

impl Scene {
    /// Every loaded slot's colliders are in the world, no two slots share one,
    /// and no collider without a body is left over.
    pub open spec fn wf(&self) -> bool {
        &&& in_step(self.cave.slots@, Kind::Cave, self.owners@)
        &&& in_step(self.shafts.slots@, Kind::Shaft, self.owners@)
        &&& in_step(self.obstacles.slots@, Kind::Obstacle, self.owners@)
        &&& in_step(self.pads.slots@, Kind::Pad, self.owners@)
        &&& complete(&self.world, self.owners@)
    }

    /// How many colliders the four windows hold.
    pub open spec fn loaded(&self) -> nat {
        load(self.cave.slots@) + load(self.shafts.slots@) + load(self.obstacles.slots@) + load(
            self.pads.slots@,
        )
    }

    /// The engine can still count the removal of everything that is loaded.
    pub open spec fn can_slide(&self) -> bool {
        self.world.removed + self.loaded() <= u32::MAX
    }

    /// The windows stand around `at`: `o` moved there.
    pub open spec fn slid_to<T: Fn(Wave, F32) -> F32, S: Fn(Edge) -> Collider, H: Fn(Boulder) -> Option<(Collider, Vec<Vec2>)>>(
        &self,
        o: &Scene,
        level: &Level,
        trig: &T,
        segment: &S,
        hull: &H,
        at: Key,
    ) -> bool {
        let free = self.world.free();
        &&& slid(o.cave.slots@, self.cave.slots@, CaveMaker { level, trig, segment }, free, cave_span(at))
        &&& if level.shafts {
            slid(o.shafts.slots@, self.shafts.slots@, ShaftMaker { level, trig, segment }, free, shaft_span(at))
        } else {
            self.shafts.slots@ == kept(o.shafts.slots@, |k: Key, v: Shaft| shaft_span(at)(k))
        }
        &&& slid(o.obstacles.slots@, self.obstacles.slots@, BoulderMaker { level, trig, hull }, free, boulder_span(at))
        &&& slid_pads(o.pads.slots@, self.pads.slots@, level, trig, segment, at, free)
    }

    /// What stayed loaded since `o` collides as before.
    pub open spec fn kept_from(&self, o: &Scene, level: LevelView, at: Key) -> bool {
        let (a, b) = (o.world.free(), self.world.free());
        &&& undisturbed(o.cave.slots@, self.cave.slots@, a, b)
        &&& undisturbed(o.shafts.slots@, self.shafts.slots@, a, b)
        &&& undisturbed(o.obstacles.slots@, self.obstacles.slots@, a, b)
        &&& undisturbed(kept(o.pads.slots@, pad_stays(level, at)), self.pads.slots@, a, b)
    }

    /// The four windows hold the same as in `o`.
    pub open spec fn same_windows(&self, o: &Scene) -> bool {
        &&& self.cave == o.cave
        &&& self.shafts == o.shafts
        &&& self.obstacles == o.obstacles
        &&& self.pads == o.pads
    }

    /// What moving to `at` did to the collider set since `o`: window after
    /// window, cave, shafts, boulders and pads.
    pub open spec fn operations(&self, o: &Scene, level: LevelView, w: spec_fn(Wave, F32) -> F32, at: Key) -> Seq<Op> {
        let shafts = if level.shafts {
            moves(
                Kind::Shaft,
                o.shafts.slots@,
                self.shafts.slots@,
                shaft_lines(at).0,
                shaft_lines(at).1,
                false,
                shaft_span(at),
            )
        } else {
            exits(Kind::Shaft, kept(o.shafts.slots@, unless(within(shaft_span(at)))))
        };
        moves(
            Kind::Cave,
            o.cave.slots@,
            self.cave.slots@,
            at.1 - 1,
            at.1 + 1,
            false,
            cave_span(at),
        ) + shafts + moves(
            Kind::Obstacle,
            o.obstacles.slots@,
            self.obstacles.slots@,
            at.1 - 1,
            at.1 + 1,
            true,
            boulder_span(at),
        ) + pad_moves(o.pads.slots@, self.pads.slots@, level, w, at)
    }

    /// What loading a hand-drawn world did to the collider set since `o`: its
    /// edges enter in order, then its pads.
    pub open spec fn drawing(&self, o: &Scene, t: TerrainView) -> Seq<Op> {
        entering(Kind::Fixed, (0, 0), drawn_edges(t).len()) + entries(
            Kind::Pad,
            rows(self.pads.slots@, 0, last_pad(t), false, absent(o.pads.slots@)),
        )
    }

    /// The colliders that belong to no slot are those of `o`.
    pub open spec fn same_fixed(&self, o: &Scene) -> bool {
        same_kind(o.owners@, self.owners@, Kind::Fixed) && same_kind(
            self.owners@,
            o.owners@,
            Kind::Fixed,
        )
    }

    /// A hand-drawn world has been loaded on top of `o`: besides its pads, one
    /// collider for each of its edges, and nothing else.
    pub open spec fn drawn_from<S: Fn(Edge) -> Collider>(&self, o: &Scene, t: &Terrain, segment: &S) -> bool {
        &&& self.cave == o.cave
        &&& self.shafts == o.shafts
        &&& self.obstacles == o.obstacles
        &&& filled(
            o.pads.slots@,
            self.pads.slots@,
            DrawnPadMaker { pads: &t.pads, segment },
            self.world.free(),
            drawn_span(t@),
        )
        &&& keeps(o.world.free(), self.world.free())
        &&& exists|hs: Seq<Handle>, cs: Seq<Collider>| #[trigger]
            built(*segment, drawn_edges(t@), cs) && #[trigger] stored(self.world.free(), hs, cs)
                && hs.no_duplicates() && joined(o.owners@, self.owners@, hs)
        &&& self.world.log@ == o.world.log@ + self.drawing(o, t@)
    }
}

impl Scene {
    /// What moving to `at` needs: nothing in a hand-drawn world.
    pub open spec fn may_sync(&self, level: &Level, at: Key) -> bool {
        level.terrain is None ==> self.can_slide() && key_fits(at)
    }

    /// What belongs around `at` is loaded: the windows of `o` moved there, or
    /// the hand-drawn world is loaded, once.
    pub open spec fn synced_from<T: Fn(Wave, F32) -> F32, S: Fn(Edge) -> Collider, H: Fn(Boulder) -> Option<(Collider, Vec<Vec2>)>>(
        &self,
        o: &Scene,
        level: &Level,
        trig: &T,
        segment: &S,
        hull: &H,
        at: Key,
    ) -> bool {
        &&& self.synced_at == Some(at)
        &&& self.world.same_bodies(&o.world)
        &&& match level.terrain {
            None => {
                &&& self.slid_to(o, level, trig, segment, hull, at)
                &&& self.kept_from(o, level@, at)
                &&& self.same_fixed(o)
                &&& self.terrain_loaded == o.terrain_loaded
                &&& self.world.removed <= o.world.removed + o.loaded()
                &&& self.world.log@ == o.world.log@ + self.operations(o, level@, wave_of(*trig), at)
            },
            Some(t) => {
                &&& self.terrain_loaded
                &&& if o.terrain_loaded {
                    self.same_windows(o) && self.world == o.world && self.owners == o.owners
                } else {
                    self.drawn_from(o, &t, segment) && self.world.removed == o.world.removed
                }
            },
        }
    }

    /// The ship is the only body, a copy of `body`, and copies of `parts` are
    /// its colliders.
    pub open spec fn manned(&self, body: RigidBody, parts: Seq<Collider>) -> bool {
        let w = self.world;
        &&& bodies_in(w.bodies).dom() == set![w.ship]
        &&& bodies_in(w.bodies)[w.ship].contains(body)
        &&& exists|hs: Seq<Handle>| #[trigger]
            made_of(bound_colliders(w.colliders), w.ship, hs, parts)
    }

    /// Nothing is loaded yet.
    pub open spec fn blank(&self) -> bool {
        &&& self.cave.slots@.len() == 0
        &&& self.shafts.slots@.len() == 0
        &&& self.obstacles.slots@.len() == 0
        &&& self.pads.slots@.len() == 0
        &&& self.world.free().dom() == Set::<Handle>::empty()
        &&& self.world.removed == 0
        &&& self.owners@.dom() == Set::<Handle>::empty()
        &&& self.synced_at is None
        &&& !self.terrain_loaded
    }
}

/// The `n` parts of the ship are attached in order.
pub open spec fn attaching(n: nat) -> Seq<Op> {
    Seq::new(n, |j: int| Op::Attach { place: j })
}

/// Before another kind's window moved, what stays later collided as it did
/// after the move.
proof fn lemma_undisturbed_before<V>(s: Seq<Loaded<V>>, t: Seq<Loaded<V>>, base: Seq<Loaded<V>>, kind: Kind, o: Map<Handle, Owner>, changed: Kind, a: Map<Handle, Set<Collider>>, b: Map<Handle, Set<Collider>>, c: Map<Handle, Set<Collider>>)
    requires
        in_step(base, kind, o),
        forall|e: Loaded<V>| #[trigger] has_slot(s, e) ==> has_slot(base, e),
        spared(o, changed, a, b),
        kind != changed,
        undisturbed(s, t, b, c),
    ensures
        undisturbed(s, t, a, c),
{
    assert forall|e: Loaded<V>, j: int|
        #![trigger has_slot(t, e), e.handles@[j]]
        has_slot(s, e) && has_slot(t, e) && 0 <= j < e.handles@.len() implies c.dom().contains(
        e.handles@[j],
    ) && c[e.handles@[j]] == a[e.handles@[j]] by {
        assert(has_slot(base, e));
        let i = choose|i: int| 0 <= i < base.len() && #[trigger] base[i] == e;
        assert(o.dom().contains(base[i].handles@[j]));
    }
}

/// What a window has left of `budget` once its colliders are counted.
fn count_down<V>(win: &Window<V>, budget: Option<u64>) -> (r: Option<u64>)
    ensures
        match (budget, r) {
            (None, r) => r is None,
            (Some(b), Some(left)) => b == left + load(win.slots@),
            (Some(b), None) => b < load(win.slots@),
        },
{
    let mut left: u64 = match budget {
        Some(b) => b,
        None => {
            return None;
        },
    };
    let ghost b = left;
    let mut i: usize = 0;
    assert(win.slots@.subrange(0, 0) =~= seq![]);
    while i < win.slots.len()
        invariant
            i <= win.slots@.len(),
            b == left + load(win.slots@.subrange(0, i as int)),
            budget == Some(b),
        decreases win.slots.len() - i,
    {
        let n: usize = win.slots[i].handles.len();
        proof {
            let next = win.slots@.subrange(0, i + 1);
            assert(next.drop_last() =~= win.slots@.subrange(0, i as int));
            assert(next.last() == win.slots@[i as int]);
            lemma_load_prefix(win.slots@, i + 1);
        }
        if n as u64 > left {
            return None;
        }
        left = left - n as u64;
        i = i + 1;
    }
    assert(win.slots@.subrange(0, i as int) =~= win.slots@);
    Some(left)
}

proof fn lemma_load_prefix<V>(s: Seq<Loaded<V>>, n: int)
    requires
        0 <= n <= s.len(),
    ensures
        load(s.subrange(0, n)) <= load(s),
    decreases s.len(),
{
    if n == s.len() {
        assert(s.subrange(0, n) =~= s);
    } else {
        lemma_load_prefix(s.drop_last(), n);
        assert(s.drop_last().subrange(0, n) =~= s.subrange(0, n));
    }
}

/// What belongs to no slot stays while a window moves.
proof fn lemma_same_fixed(o: Map<Handle, Owner>, p: Map<Handle, Owner>, changed: Kind, first: Map<Handle, Owner>)
    requires
        same_but(o, p, changed),
        changed != Kind::Fixed,
        same_kind(first, o, Kind::Fixed),
        same_kind(o, first, Kind::Fixed),
    ensures
        same_kind(first, p, Kind::Fixed),
        same_kind(p, first, Kind::Fixed),
{
    assert(same_kind(o, p, Kind::Fixed));
    assert(same_kind(p, o, Kind::Fixed));
    assert forall|h: Handle| (#[trigger] first.dom().contains(h) && first[h].kind == Kind::Fixed) implies p.dom().contains(
        h,
    ) && p[h] == first[h] by {
        assert(o.dom().contains(h));
    }
    assert forall|h: Handle| (#[trigger] p.dom().contains(h) && p[h].kind == Kind::Fixed) implies first.dom().contains(
        h,
    ) && first[h] == p[h] by {
        assert(o.dom().contains(h));
    }
}

/// Copies of `parts`, under the handles `hs`, are all the colliders that are
/// part of bodies, and `ship` is the body of each.
pub open spec fn made_of(bound: Map<Handle, (Handle, Set<Collider>)>, ship: Handle, hs: Seq<Handle>, parts: Seq<Collider>) -> bool {
    &&& hs.len() == parts.len()
    &&& hs.no_duplicates()
    &&& hs.to_set() == bound.dom()
    &&& forall|i: int|
        0 <= i < hs.len() ==> bound[#[trigger] hs[i]].0 == ship && bound[hs[i]].1.contains(parts[i])
}

proof fn lemma_one_more(
    before: Map<Handle, (Handle, Set<Collider>)>,
    after: Map<Handle, (Handle, Set<Collider>)>,
    ship: Handle,
    hs: Seq<Handle>,
    h: Handle,
    parts: Seq<Collider>,
    part: Collider,
)
    requires
        made_of(before, ship, hs, parts),
        !before.dom().contains(h),
        after.dom().contains(h),
        after[h].0 == ship,
        after[h].1.contains(part),
        after.remove(h) == before,
    ensures
        made_of(after, ship, hs.push(h), parts.push(part)),
{
    let more = hs.push(h);
    assert forall|i: int| 0 <= i < hs.len() implies before.dom().contains(#[trigger] hs[i]) by {
        assert(hs.to_set().contains(hs[i]));
    }
    assert(more.to_set() =~= after.dom()) by {
        assert forall|g: Handle| more.to_set().contains(g) <==> after.dom().contains(g) by {
            if after.dom().contains(g) && g != h {
                assert(before.dom().contains(g));
                assert(hs.contains(g));
                let i = choose|i: int| 0 <= i < hs.len() && hs[i] == g;
                assert(more[i] == g);
            }
            assert(more[hs.len() as int] == h);
            if more.contains(g) {
                let i = choose|i: int| 0 <= i < more.len() && more[i] == g;
                if i < hs.len() {
                    assert(hs[i] == g);
                }
            }
        }
    }
    assert forall|i: int| 0 <= i < more.len() implies after[#[trigger] more[i]].0 == ship
        && after[more[i]].1.contains(parts.push(part)[i]) by {
        if i < hs.len() {
            assert(more[i] == hs[i]);
            assert(before[hs[i]] == after[hs[i]]);
        }
    }
}

impl Scene {
    /// Whether moving to `at` is possible.
    pub fn check_sync(&self, level: &Level, at: Key) -> (r: bool)
        ensures
            r == self.may_sync(level, at),
    {
        match &level.terrain {
            Some(_) => true,
            None => self.has_room() && check_key(at),
        }
    }

    /// Whether the engine can still count the removal of everything loaded.
    fn has_room(&self) -> (r: bool)
        ensures
            r == self.can_slide(),
    {
        let budget: u64 = 0xffff_ffff - self.world.removed as u64;
        let a: Option<u64> = count_down(&self.cave, Some(budget));
        let b: Option<u64> = count_down(&self.shafts, a);
        let c: Option<u64> = count_down(&self.obstacles, b);
        count_down(&self.pads, c).is_some()
    }

    /// A world with a ship in it and nothing else: `parts` are the ship's
    /// colliders.
    pub fn new(body: RigidBody, parts: Vec<Collider>) -> (r: Scene)
        ensures
            r.wf(),
            r.blank(),
            r.manned(body, parts@),
            r.world.log@ == attaching(parts@.len()),
    {
        let ghost all = parts@;
        let ghost mut hs: Seq<Handle> = Seq::empty();
        let mut bodies: RigidBodySet = empty_bodies();
        let mut colliders: ColliderSet = empty_colliders();
        let ship: Handle = insert_body(&mut bodies, body);
        assert(bodies_in(bodies).dom() =~= set![ship]);
        let mut rest: Vec<Collider> = parts;
        let mut log: Ghost<Seq<Op>> = Ghost(Seq::empty());
        assert(log@ =~= attaching(0));
        assert(hs.to_set() =~= bound_colliders(colliders).dom());
        while rest.len() > 0
            invariant
                bodies_in(bodies).dom() == set![ship],
                bodies_in(bodies)[ship].contains(body),
                hs.len() <= all.len(),
                rest@ == all.skip(hs.len() as int),
                log@ == attaching(hs.len()),
                made_of(bound_colliders(colliders), ship, hs, all.take(hs.len() as int)),
                free_colliders(colliders).dom() == Set::<Handle>::empty(),
                removal_count(colliders) == 0,
            decreases rest.len(),
        {
            let ghost before = bound_colliders(colliders);
            let part: Collider = rest.remove(0);
            let h: Handle = attach_collider(&mut colliders, part, ship, &mut bodies);
            log = Ghost(log@.push(Op::Attach { place: hs.len() as int }));
            assert(log@ =~= attaching((hs.len() + 1) as nat));
            proof {
                lemma_one_more(before, bound_colliders(colliders), ship, hs, h, all.take(hs.len() as int), part);
                assert(all.take(hs.len() as int).push(part) =~= all.take(hs.len() as int + 1));
                hs = hs.push(h);
                assert(rest@ =~= all.skip(hs.len() as int));
            }
        }
        assert(all.take(hs.len() as int) =~= all);
        let r: Scene = Scene {
            world: World { colliders, bodies, islands: empty_islands(), ship, removed: 0, log },
            cave: Window { slots: Vec::new() },
            shafts: Window { slots: Vec::new() },
            obstacles: Window { slots: Vec::new() },
            pads: Window { slots: Vec::new() },
            synced_at: None,
            terrain_loaded: false,
            owners: Ghost(Map::empty()),
        };
        assert(r.owners@.dom() =~= r.world.free().dom());
        r
    }

    /// Moves the four windows to `at`.
    fn move_windows<T: Fn(Wave, F32) -> F32, S: Fn(Edge) -> Collider, H: Fn(Boulder) -> Option<(Collider, Vec<Vec2>)>>(
        &mut self,
        level: &Level,
        trig: &T,
        segment: &S,
        hull: &H,
        at: Key,
    )
        requires
            old(self).wf(),
            old(self).can_slide(),
            steady(*trig),
            willing(*segment),
            tireless(*hull),
            key_fits(at),
        ensures
            final(self).wf(),
            final(self).slid_to(old(self), level, trig, segment, hull, at),
            final(self).kept_from(old(self), level@, at),
            final(self).world.removed <= old(self).world.removed + old(self).loaded(),
            final(self).world.same_bodies(&old(self).world),
            final(self).same_fixed(old(self)),
            final(self).world.log@ == old(self).world.log@ + final(self).operations(
                old(self),
                level@,
                wave_of(*trig),
                at,
            ),
            final(self).synced_at == old(self).synced_at,
            final(self).terrain_loaded == old(self).terrain_loaded,
    {
        let ghost g0 = *self;
        let ghost o0 = self.owners@;
        let ghost f0 = self.world.free();
        let layers: (i64, i64) = (at.1 - 1, at.1 + 1);
        let caves: CaveMaker<T, S> = CaveMaker { level, trig, segment };
        slide(
            &mut self.cave,
            &mut self.world,
            &caves,
            layers,
            (at.0 - HALF_WINDOW, at.0 + HALF_WINDOW),
            false,
            true,
            Ghost(Kind::Cave),
            &mut self.owners,
        );
        let ghost o1 = self.owners@;
        let ghost f1 = self.world.free();
        proof {
            lemma_other_kind(g0.shafts.slots@, o0, o1, Kind::Cave, Kind::Shaft);
            lemma_other_kind(g0.obstacles.slots@, o0, o1, Kind::Cave, Kind::Obstacle);
            lemma_other_kind(g0.pads.slots@, o0, o1, Kind::Cave, Kind::Pad);
        }
        let s_lo: i64 = (floor_div((at.0 - HALF_WINDOW) as i128, 50) - 1) as i64;
        let s_hi: i64 = (floor_div((at.0 + HALF_WINDOW) as i128, 50) + 1) as i64;
        let shafts: ShaftMaker<T, S> = ShaftMaker { level, trig, segment };
        slide(
            &mut self.shafts,
            &mut self.world,
            &shafts,
            (s_lo, s_hi),
            (at.1 - 1, at.1),
            false,
            level.shafts,
            Ghost(Kind::Shaft),
            &mut self.owners,
        );
        let ghost o2 = self.owners@;
        let ghost f2 = self.world.free();
        proof {
            lemma_other_kind(self.cave.slots@, o1, o2, Kind::Shaft, Kind::Cave);
            lemma_other_kind(g0.obstacles.slots@, o1, o2, Kind::Shaft, Kind::Obstacle);
            lemma_other_kind(g0.pads.slots@, o1, o2, Kind::Shaft, Kind::Pad);
            lemma_slid_spared(g0.cave.slots@, self.cave.slots@, caves, cave_span(at), Kind::Cave, o1, Kind::Shaft, f1, f2);
            lemma_spared(g0.cave.slots@, self.cave.slots@, Kind::Cave, o1, Kind::Shaft, f0, f1, f2);
            lemma_undisturbed_before(g0.shafts.slots@, self.shafts.slots@, g0.shafts.slots@, Kind::Shaft, o0, Kind::Cave, f0, f1, f2);
        }
        let left: F32 = F32::of_i64(at.0 - HALF_WINDOW).times(fl(SEG_LEN));
        let right: F32 = F32::of_i64(at.0 + HALF_WINDOW + 1).times(fl(SEG_LEN));
        let from: i64 = left.minus(fl(BOULDER_MARGIN)).over(fl(OBSTACLE_SPACING)).floor().to_i64();
        let to: i64 = right.plus(fl(BOULDER_MARGIN)).over(fl(OBSTACLE_SPACING)).ceil().to_i64();
        let boulders: BoulderMaker<T, H> = BoulderMaker { level, trig, hull };
        slide(
            &mut self.obstacles,
            &mut self.world,
            &boulders,
            layers,
            (from, to),
            true,
            true,
            Ghost(Kind::Obstacle),
            &mut self.owners,
        );
        let ghost o3 = self.owners@;
        let ghost f3 = self.world.free();
        proof {
            lemma_other_kind(self.cave.slots@, o2, o3, Kind::Obstacle, Kind::Cave);
            lemma_other_kind(self.shafts.slots@, o2, o3, Kind::Obstacle, Kind::Shaft);
            lemma_other_kind(g0.pads.slots@, o2, o3, Kind::Obstacle, Kind::Pad);
            lemma_slid_spared(g0.cave.slots@, self.cave.slots@, caves, cave_span(at), Kind::Cave, o2, Kind::Obstacle, f2, f3);
            lemma_spared(g0.cave.slots@, self.cave.slots@, Kind::Cave, o2, Kind::Obstacle, f0, f2, f3);
            if level.shafts {
                lemma_slid_spared(g0.shafts.slots@, self.shafts.slots@, shafts, shaft_span(at), Kind::Shaft, o2, Kind::Obstacle, f2, f3);
            }
            lemma_spared(g0.shafts.slots@, self.shafts.slots@, Kind::Shaft, o2, Kind::Obstacle, f0, f2, f3);
            lemma_undisturbed_before(g0.obstacles.slots@, self.obstacles.slots@, g0.obstacles.slots@, Kind::Obstacle, o1, Kind::Shaft, f1, f2, f3);
            lemma_undisturbed_before(g0.obstacles.slots@, self.obstacles.slots@, g0.obstacles.slots@, Kind::Obstacle, o0, Kind::Cave, f0, f1, f3);
        }
        slide_pads(&mut self.pads, &mut self.world, level, trig, segment, at, &mut self.owners);
        proof {
            let o4 = self.owners@;
            let f4 = self.world.free();
            lemma_other_kind(self.cave.slots@, o3, o4, Kind::Pad, Kind::Cave);
            lemma_other_kind(self.shafts.slots@, o3, o4, Kind::Pad, Kind::Shaft);
            lemma_other_kind(self.obstacles.slots@, o3, o4, Kind::Pad, Kind::Obstacle);
            lemma_slid_spared(g0.cave.slots@, self.cave.slots@, caves, cave_span(at), Kind::Cave, o3, Kind::Pad, f3, f4);
            lemma_spared(g0.cave.slots@, self.cave.slots@, Kind::Cave, o3, Kind::Pad, f0, f3, f4);
            if level.shafts {
                lemma_slid_spared(g0.shafts.slots@, self.shafts.slots@, shafts, shaft_span(at), Kind::Shaft, o3, Kind::Pad, f3, f4);
            }
            lemma_spared(g0.shafts.slots@, self.shafts.slots@, Kind::Shaft, o3, Kind::Pad, f0, f3, f4);
            lemma_slid_spared(g0.obstacles.slots@, self.obstacles.slots@, boulders, boulder_span(at), Kind::Obstacle, o3, Kind::Pad, f3, f4);
            lemma_spared(g0.obstacles.slots@, self.obstacles.slots@, Kind::Obstacle, o3, Kind::Pad, f0, f3, f4);
            let stay = kept(g0.pads.slots@, pad_stays(level@, at));
            lemma_kept(g0.pads.slots@, pad_stays(level@, at));
            lemma_undisturbed_before(stay, self.pads.slots@, g0.pads.slots@, Kind::Pad, o2, Kind::Obstacle, f2, f3, f4);
            lemma_undisturbed_before(stay, self.pads.slots@, g0.pads.slots@, Kind::Pad, o1, Kind::Shaft, f1, f2, f4);
            lemma_undisturbed_before(stay, self.pads.slots@, g0.pads.slots@, Kind::Pad, o0, Kind::Cave, f0, f1, f4);
            lemma_same_fixed(o0, o1, Kind::Cave, o0);
            lemma_same_fixed(o1, o2, Kind::Shaft, o0);
            lemma_same_fixed(o2, o3, Kind::Obstacle, o0);
            lemma_same_fixed(o3, o4, Kind::Pad, o0);
            assert(self.world.log@ =~= g0.world.log@ + self.operations(&g0, level@, wave_of(*trig), at));
        }
    }

    /// Loads a hand-drawn world.
    fn draw<S: Fn(Edge) -> Collider>(&mut self, t: &Terrain, segment: &S)
        requires
            old(self).wf(),
            willing(*segment),
        ensures
            final(self).wf(),
            final(self).drawn_from(old(self), t, segment),
            final(self).world.same_bodies(&old(self).world),
            final(self).world.removed == old(self).world.removed,
            final(self).synced_at == old(self).synced_at,
            final(self).terrain_loaded == old(self).terrain_loaded,
    {
        let ghost g0 = *self;
        let ghost o0 = self.owners@;
        let ghost f0 = self.world.free();
        let edges: Vec<Edge> = terrain_edges(t);
        let cs: Vec<Collider> = build_all(segment, &edges);
        let ghost built_cs = cs@;
        let hs: Vec<Handle> = insert_all(
            &mut self.world,
            cs,
            Ghost(Kind::Fixed),
            Ghost((0, 0)),
            &mut self.owners,
        );
        let ghost o1 = self.owners@;
        let ghost f1 = self.world.free();
        proof {
            assert forall|k: Kind| k != Kind::Fixed implies #[trigger] same_kind(o0, o1, k) && same_kind(o1, o0, k) by {
                assert forall|h: Handle| (#[trigger] o1.dom().contains(h) && o1[h].kind == k) implies o0.dom().contains(h)
                    && o0[h] == o1[h] by {}
            }
            lemma_other_kind(g0.cave.slots@, o0, o1, Kind::Fixed, Kind::Cave);
            lemma_other_kind(g0.shafts.slots@, o0, o1, Kind::Fixed, Kind::Shaft);
            lemma_other_kind(g0.obstacles.slots@, o0, o1, Kind::Fixed, Kind::Obstacle);
            lemma_other_kind(g0.pads.slots@, o0, o1, Kind::Fixed, Kind::Pad);
        }
        let n: usize = t.pads.len();
        let last: i64 = if n as u64 > 0x7fff_ffff_ffff_ffff {
            0x7fff_ffff_ffff_ffff
        } else {
            n as i64 - 1
        };
        let maker: DrawnPadMaker<S> = DrawnPadMaker { pads: &t.pads, segment };
        fill(
            &mut self.pads,
            &mut self.world,
            &maker,
            (0, last),
            (0, 0),
            false,
            Ghost(Kind::Pad),
            &mut self.owners,
        );
        proof {
            let o2 = self.owners@;
            let f2 = self.world.free();
            lemma_other_kind(g0.cave.slots@, o1, o2, Kind::Pad, Kind::Cave);
            lemma_other_kind(g0.shafts.slots@, o1, o2, Kind::Pad, Kind::Shaft);
            lemma_other_kind(g0.obstacles.slots@, o1, o2, Kind::Pad, Kind::Obstacle);
            assert(block(0, last as int, 0, 0, false) =~= drawn_span(t@));
            assert forall|h: Handle| #[trigger] f0.dom().contains(h) implies f2.dom().contains(h) && f2[h] == f0[h] by {
                assert(f1.dom().contains(h));
            }
            assert forall|j: int| 0 <= j < hs@.len() implies f2.dom().contains(#[trigger] hs@[j]) && f2[hs@[j]].contains(built_cs[j]) by {
                assert(f1.dom().contains(hs@[j]));
            }
            assert(built(*segment, drawn_edges(t@), built_cs));
            assert(stored(f2, hs@, built_cs));
            assert(hs@.no_duplicates()) by {
                assert forall|i: int, j: int| 0 <= i < j < hs@.len() implies hs@[i] != hs@[j] by {
                    assert(o1[hs@[i]].place == i);
                    assert(o1[hs@[j]].place == j);
                }
            }
            assert(same_kind(o1, o2, Kind::Fixed));
            assert(same_kind(o2, o1, Kind::Fixed));
            assert(joined(o0, o2, hs@)) by {
                assert forall|h: Handle| (o2.dom().contains(h) && o2[h].kind == Kind::Fixed) <==> (#[trigger] hs@.contains(h)
                    || (o0.dom().contains(h) && o0[h].kind == Kind::Fixed)) by {
                    if o2.dom().contains(h) && o2[h].kind == Kind::Fixed {
                        assert(o1.dom().contains(h));
                        if !o0.dom().contains(h) {
                            assert(hs@[o1[h].place] == h);
                        }
                    }
                    if hs@.contains(h) {
                        let j = choose|j: int| 0 <= j < hs@.len() && hs@[j] == h;
                        assert(o1.dom().contains(hs@[j]));
                    }
                    if o0.dom().contains(h) {
                        assert(o1.dom().contains(h));
                    }
                }
                assert forall|h: Handle| #[trigger] hs@.contains(h) implies !o0.dom().contains(h) by {
                    let j = choose|j: int| 0 <= j < hs@.len() && hs@[j] == h;
                    assert(!o0.dom().contains(hs@[j]));
                }
            }
            assert(last == last_pad(t@));
            assert(self.world.log@ =~= g0.world.log@ + self.drawing(&g0, t@));
        }
    }

    /// Loads what belongs around `at`: the windows move there, or a hand-drawn
    /// world is loaded once and for all.
    pub fn sync_window<T: Fn(Wave, F32) -> F32, S: Fn(Edge) -> Collider, H: Fn(Boulder) -> Option<(Collider, Vec<Vec2>)>>(
        &mut self,
        level: &Level,
        trig: &T,
        segment: &S,
        hull: &H,
        at: Key,
    )
        requires
            old(self).wf(),
            steady(*trig),
            willing(*segment),
            tireless(*hull),
            old(self).may_sync(level, at),
        ensures
            final(self).wf(),
            final(self).synced_from(old(self), level, trig, segment, hull, at),
    {
        match &level.terrain {
            Some(t) => {
                if !self.terrain_loaded {
                    self.terrain_loaded = true;
                    self.draw(t, segment);
                }
            },
            None => {
                self.move_windows(level, trig, segment, hull, at);
            },
        }
        self.synced_at = Some(at);
    }
}

} // verus!
