//! Laws of the sliding windows: what is loaded around a place, and in which
//! order it comes and goes, is settled by the level and the place alone.

use crate::binary32::{fl, F32};
use crate::cave::{wave_of, Wave};
use crate::colliders::Handle;
use crate::level::{Level, LevelView, Vec2};
use crate::pad::{PadSpec, GOAL_SLOT_NEG, GOAL_SLOT_POS};
use crate::scene::{
    boulder_span, cave_span, drawn_span, finish_due, finish_span, is_finish, last_pad, other_due,
    pad_moves, pad_span, pad_stays, shaft_lines, shaft_span, slid_pads, slot_due, slot_range,
    Scene, PAD_MARGIN,
};
use crate::scenery::{
    pad_in, yields, Boulder, BoulderMaker, BoulderView, CaveMaker, DrawnPadMaker, Edge, FinishMaker,
    Obstacle, Pad, PadMaker, Shaft, ShaftMaker,
};
use crate::slots::{
    absent, ascending, entries, exits, filled, has_key, has_slot, in_line, is_made, kept,
    lemma_same_keys, moves, rows, slid, stored, unless, within, Key, Kind, Loaded, Maker,
};
use rapier2d::geometry::Collider;
use vstd::prelude::*;

verus! {

/// The same slot but for the engine's handles.
pub open spec fn twins<V: View>(a: Loaded<V>, b: Loaded<V>) -> bool {
    a.key == b.key && a.item@ == b.item@ && a.handles@.len() == b.handles@.len()
}

/// The same slots in the same order, but for the engine's handles.
pub open spec fn same_look<V: View>(s: Seq<Loaded<V>>, t: Seq<Loaded<V>>) -> bool {
    s.len() == t.len() && forall|i: int| 0 <= i < s.len() ==> twins(#[trigger] s[i], t[i])
}

/// Two makes of a slot hold the same.
pub open spec fn same_make<V: View>(a: Option<(Seq<Collider>, V)>, b: Option<(Seq<Collider>, V)>) -> bool {
    match (a, b) {
        (None, None) => true,
        (Some(m), Some(n)) => m.0.len() == n.0.len() && m.1@ == n.1@,
        _ => false,
    }
}

/// A maker that always makes the same of a slot.
pub open spec fn sure<V: View, M: Maker<V>>(maker: M) -> bool {
    forall|k: Key, a: Option<(Seq<Collider>, V)>, b: Option<(Seq<Collider>, V)>| #[trigger]
        maker.makes(k, a) && #[trigger] maker.makes(k, b) ==> same_make(a, b)
}

/// `e` holds what `maker` makes of its slot.
pub open spec fn as_made<V, M: Maker<V>>(maker: M, e: Loaded<V>) -> bool {
    exists|cs: Seq<Collider>| #[trigger]
        maker.makes(e.key, Some((cs, e.item))) && cs.len() == e.handles@.len()
}

pub open spec fn proper<V, M: Maker<V>>(maker: M, s: Seq<Loaded<V>>) -> bool {
    forall|e: Loaded<V>| #[trigger] has_slot(s, e) ==> as_made(maker, e)
}

/// A hull builder that always answers alike.
pub open spec fn decided<H: Fn(Boulder) -> Option<(Collider, Vec<Vec2>)>>(hull: H) -> bool {
    forall|v: BoulderView, a: Option<(Collider, Vec<Vec2>)>, b: Option<(Collider, Vec<Vec2>)>| #[trigger]
        yields(hull, v, a) && #[trigger] yields(hull, v, b) ==> match (a, b) {
            (None, None) => true,
            (Some(m), Some(n)) => m.1@ == n.1@,
            _ => false,
        }
}

/// A window holds what its maker makes, however it moves; and where it stands
/// settles what it holds.
pub proof fn the_place_settles_the_window<V: View, M: Maker<V>>(
    s: Seq<Loaded<V>>,
    t: Seq<Loaded<V>>,
    s2: Seq<Loaded<V>>,
    t2: Seq<Loaded<V>>,
    maker: M,
    free: Map<Handle, Set<Collider>>,
    free2: Map<Handle, Set<Collider>>,
    span: spec_fn(Key) -> bool,
)
    requires
        sure::<V, M>(maker),
        ascending(t),
        ascending(t2),
        slid(s, t, maker, free, span),
        slid(s2, t2, maker, free2, span),
        proper(maker, s),
        proper(maker, s2),
    ensures
        proper(maker, t),
        proper(maker, t2),
        same_look(t, t2),
{
    lemma_proper_slid(s, t, maker, free, span);
    lemma_proper_slid(s2, t2, maker, free2, span);
    assert forall|k: Key|
        #![trigger has_key(t, k)]
        #![trigger has_key(t2, k)]
        has_key(t, k) <==> has_key(t2, k) by {
        if has_key(t, k) {
            lemma_other_has(t, t2, maker, span, k);
        }
        if has_key(t2, k) {
            lemma_other_has(t2, t, maker, span, k);
        }
    }
    lemma_same_keys(t, t2);
    assert forall|i: int| 0 <= i < t.len() implies twins(#[trigger] t[i], t2[i]) by {
        assert(t[i].key == t2[i].key);
        assert(has_slot(t, t[i]));
        assert(has_slot(t2, t2[i]));
        let a = choose|cs: Seq<Collider>| #[trigger]
            maker.makes(t[i].key, Some((cs, t[i].item))) && cs.len() == t[i].handles@.len();
        let b = choose|cs: Seq<Collider>| #[trigger]
            maker.makes(t2[i].key, Some((cs, t2[i].item))) && cs.len() == t2[i].handles@.len();
        assert(same_make(Some((a, t[i].item)), Some((b, t2[i].item))));
    }
}

proof fn lemma_proper_slid<V, M: Maker<V>>(s: Seq<Loaded<V>>, t: Seq<Loaded<V>>, maker: M, free: Map<Handle, Set<Collider>>, span: spec_fn(Key) -> bool)
    requires
        slid(s, t, maker, free, span),
        proper(maker, s),
    ensures
        proper(maker, t),
{
    assert forall|e: Loaded<V>| #[trigger] has_slot(t, e) implies as_made(maker, e) by {
        if !has_slot(s, e) {
            assert(is_made(maker, free, e));
            let cs = choose|cs: Seq<Collider>| #[trigger]
                maker.makes(e.key, Some((cs, e.item))) && stored(free, e.handles@, cs);
            assert(maker.makes(e.key, Some((cs, e.item))));
        }
    }
}

proof fn lemma_other_has<V: View, M: Maker<V>>(t: Seq<Loaded<V>>, u: Seq<Loaded<V>>, maker: M, span: spec_fn(Key) -> bool, k: Key)
    requires
        sure::<V, M>(maker),
        proper(maker, t),
        has_key(t, k),
        forall|e: Loaded<V>| #[trigger] has_slot(t, e) ==> span(e.key),
        forall|j: Key| #[trigger] span(j) ==> has_key(u, j) || maker.makes(j, None),
    ensures
        has_key(u, k),
{
    let i = choose|i: int| 0 <= i < t.len() && #[trigger] t[i].key == k;
    assert(has_slot(t, t[i]));
    assert(span(k));
    if !has_key(u, k) {
        let a = choose|cs: Seq<Collider>| #[trigger]
            maker.makes(t[i].key, Some((cs, t[i].item))) && cs.len() == t[i].handles@.len();
        assert(same_make(Some((a, t[i].item)), None::<(Seq<Collider>, V)>));
    }
}

// ---- Pads ----

/// `e` is the pad that the level has under its key, with one collider.
pub open spec fn plain_pad(level: LevelView, w: spec_fn(Wave, F32) -> F32, e: Loaded<Pad>) -> bool {
    &&& e.handles@.len() == 1
    &&& under(level, w, e.key.0) is Some
    &&& e.item == pad_in(under(level, w, e.key.0)->0, e.key.1 as int)
}

/// What the level has under a slot number: a finish, or a slot's pad.
pub open spec fn under(level: LevelView, w: spec_fn(Wave, F32) -> F32, slot: i64) -> Option<PadSpec> {
    if slot == GOAL_SLOT_POS {
        level.goal_pad(w, 1)
    } else if slot == GOAL_SLOT_NEG {
        level.goal_pad(w, -1)
    } else {
        level.pad(w, slot as int)
    }
}

pub open spec fn plain_pads(level: LevelView, w: spec_fn(Wave, F32) -> F32, s: Seq<Loaded<Pad>>) -> bool {
    forall|e: Loaded<Pad>| #[trigger] has_slot(s, e) ==> plain_pad(level, w, e)
}

/// The slots of a window around `at` have numbers below those of the finish.
pub open spec fn short_of_finish(level: LevelView, at: Key) -> bool {
    slot_range(at, fl(PAD_MARGIN), level.pad_spacing).1 < GOAL_SLOT_NEG
}

/// Whether the window around `at` holds a pad under `k`.
pub open spec fn pad_there(level: LevelView, w: spec_fn(Wave, F32) -> F32, at: Key, k: Key) -> bool {
    if k.0 == GOAL_SLOT_POS {
        finish_due(level, w, at, 1) is Some && finish_span(at, GOAL_SLOT_POS)(k)
    } else if k.0 == GOAL_SLOT_NEG {
        finish_due(level, w, at, -1) is Some && finish_span(at, GOAL_SLOT_NEG)(k)
    } else {
        pad_span(level, at)(k) && level.pad(w, k.0 as int) is Some
    }
}

proof fn lemma_deck_made<S: Fn(Edge) -> Collider>(spec: PadSpec, segment: &S, free: Map<Handle, Set<Collider>>, e: Loaded<Pad>)
    requires
        is_made(FinishMaker { spec, segment }, free, e),
    ensures
        e.handles@.len() == 1,
        e.item == pad_in(spec, e.key.1 as int),
{
    let maker = FinishMaker { spec, segment };
    let cs = choose|cs: Seq<Collider>| #[trigger]
        maker.makes(e.key, Some((cs, e.item))) && stored(free, e.handles@, cs);
    assert(maker.makes(e.key, Some((cs, e.item))));
}

/// The loaded pads are the level's, and which they are is settled by the place
/// alone.
pub proof fn the_place_settles_the_pads<T: Fn(Wave, F32) -> F32, S: Fn(Edge) -> Collider>(
    s: Seq<Loaded<Pad>>,
    t: Seq<Loaded<Pad>>,
    level: &Level,
    trig: &T,
    segment: &S,
    at: Key,
    free: Map<Handle, Set<Collider>>,
    k: Key,
)
    requires
        slid_pads(s, t, level, trig, segment, at, free),
        plain_pads(level@, wave_of(*trig), s),
        short_of_finish(level@, at),
    ensures
        plain_pads(level@, wave_of(*trig), t),
        has_key(t, k) <==> pad_there(level@, wave_of(*trig), at, k),
{
    let w = wave_of(*trig);
    assert forall|e: Loaded<Pad>| #[trigger] has_slot(t, e) implies plain_pad(level@, w, e) && pad_there(
        level@,
        w,
        at,
        e.key,
    ) by {
        if has_slot(s, e) && pad_stays(level@, at)(e.key, e.item) {
            assert(plain_pad(level@, w, e));
        } else if is_finish(level, trig, segment, at, GOAL_SLOT_POS, 1, free, e) {
            lemma_deck_made(finish_due(level@, w, at, 1)->0, segment, free, e);
        } else if is_finish(level, trig, segment, at, GOAL_SLOT_NEG, -1, free, e) {
            lemma_deck_made(finish_due(level@, w, at, -1)->0, segment, free, e);
        } else {
            let maker = PadMaker { level, trig, segment };
            let cs = choose|cs: Seq<Collider>| #[trigger]
                maker.makes(e.key, Some((cs, e.item))) && stored(free, e.handles@, cs);
            assert(maker.makes(e.key, Some((cs, e.item))));
            assert(pad_span(level@, at)(e.key));
        }
    }
    if has_key(t, k) {
        let i = choose|i: int| 0 <= i < t.len() && #[trigger] t[i].key == k;
        assert(has_slot(t, t[i]));
    }
    if pad_there(level@, w, at, k) {
        if k.0 == GOAL_SLOT_POS {
            assert(finish_span(at, GOAL_SLOT_POS)(k));
        } else if k.0 == GOAL_SLOT_NEG {
            assert(finish_span(at, GOAL_SLOT_NEG)(k));
        } else {
            assert(pad_span(level@, at)(k));
        }
    }
}

proof fn lemma_pads_look(level: LevelView, w: spec_fn(Wave, F32) -> F32, t: Seq<Loaded<Pad>>, u: Seq<Loaded<Pad>>)
    requires
        ascending(t),
        ascending(u),
        plain_pads(level, w, t),
        plain_pads(level, w, u),
        forall|k: Key|
            #![trigger has_key(t, k)]
            #![trigger has_key(u, k)]
            has_key(t, k) <==> has_key(u, k),
    ensures
        same_look(t, u),
{
    lemma_same_keys(t, u);
    assert forall|i: int| 0 <= i < t.len() implies twins(#[trigger] t[i], u[i]) by {
        assert(t[i].key == u[i].key);
        assert(has_slot(t, t[i]));
        assert(has_slot(u, u[i]));
    }
}

// ---- The four windows together ----

/// Every loaded slot holds what the level has there.
pub open spec fn faithful<T: Fn(Wave, F32) -> F32, S: Fn(Edge) -> Collider, H: Fn(Boulder) -> Option<(Collider, Vec<Vec2>)>>(
    scene: Scene,
    level: &Level,
    trig: &T,
    segment: &S,
    hull: &H,
) -> bool {
    &&& proper(CaveMaker { level, trig, segment }, scene.cave.slots@)
    &&& proper(ShaftMaker { level, trig, segment }, scene.shafts.slots@)
    &&& !level.shafts ==> scene.shafts.slots@.len() == 0
    &&& proper(BoulderMaker { level, trig, hull }, scene.obstacles.slots@)
    &&& plain_pads(level@, wave_of(*trig), scene.pads.slots@)
}

/// Two scenes hold the same, but for the engine's handles.
pub open spec fn same_scene(a: Scene, b: Scene) -> bool {
    &&& same_look(a.cave.slots@, b.cave.slots@)
    &&& same_look(a.shafts.slots@, b.shafts.slots@)
    &&& same_look(a.obstacles.slots@, b.obstacles.slots@)
    &&& same_look(a.pads.slots@, b.pads.slots@)
}

proof fn lemma_sure<T: Fn(Wave, F32) -> F32, S: Fn(Edge) -> Collider, H: Fn(Boulder) -> Option<(Collider, Vec<Vec2>)>>(
    level: &Level,
    trig: &T,
    segment: &S,
    hull: &H,
)
    requires
        decided(*hull),
    ensures
        sure::<(), CaveMaker<T, S>>(CaveMaker { level, trig, segment }),
        sure::<Shaft, ShaftMaker<T, S>>(ShaftMaker { level, trig, segment }),
        sure::<Obstacle, BoulderMaker<T, H>>(BoulderMaker { level, trig, hull }),
{
}

/// A world in which nothing is loaded is faithful.
pub proof fn nothing_is_faithful<T: Fn(Wave, F32) -> F32, S: Fn(Edge) -> Collider, H: Fn(Boulder) -> Option<(Collider, Vec<Vec2>)>>(
    scene: Scene,
    level: &Level,
    trig: &T,
    segment: &S,
    hull: &H,
)
    requires
        scene.blank(),
    ensures
        faithful(scene, level, trig, segment, hull),
{
}

/// What is loaded is a function of level and place: two worlds of one level
/// that come to the same place, from wherever, hold the same slots there.
pub proof fn the_place_settles_the_scene<T: Fn(Wave, F32) -> F32, S: Fn(Edge) -> Collider, H: Fn(Boulder) -> Option<(Collider, Vec<Vec2>)>>(
    o: Scene,
    n: Scene,
    o2: Scene,
    n2: Scene,
    level: &Level,
    trig: &T,
    segment: &S,
    hull: &H,
    at: Key,
)
    requires
        level.terrain is None,
        decided(*hull),
        short_of_finish(level@, at),
        n.wf(),
        n2.wf(),
        n.synced_from(&o, level, trig, segment, hull, at),
        n2.synced_from(&o2, level, trig, segment, hull, at),
        faithful(o, level, trig, segment, hull),
        faithful(o2, level, trig, segment, hull),
    ensures
        faithful(n, level, trig, segment, hull),
        faithful(n2, level, trig, segment, hull),
        same_scene(n, n2),
{
    let w = wave_of(*trig);
    let (f, f2) = (n.world.free(), n2.world.free());
    lemma_sure(level, trig, segment, hull);
    the_place_settles_the_window(
        o.cave.slots@,
        n.cave.slots@,
        o2.cave.slots@,
        n2.cave.slots@,
        CaveMaker { level, trig, segment },
        f,
        f2,
        cave_span(at),
    );
    if level.shafts {
        the_place_settles_the_window(
            o.shafts.slots@,
            n.shafts.slots@,
            o2.shafts.slots@,
            n2.shafts.slots@,
            ShaftMaker { level, trig, segment },
            f,
            f2,
            shaft_span(at),
        );
    }
    the_place_settles_the_window(
        o.obstacles.slots@,
        n.obstacles.slots@,
        o2.obstacles.slots@,
        n2.obstacles.slots@,
        BoulderMaker { level, trig, hull },
        f,
        f2,
        boulder_span(at),
    );
    assert forall|k: Key|
        #![trigger has_key(n.pads.slots@, k)]
        #![trigger has_key(n2.pads.slots@, k)]
        has_key(n.pads.slots@, k) <==> has_key(n2.pads.slots@, k) by {
        the_place_settles_the_pads(o.pads.slots@, n.pads.slots@, level, trig, segment, at, f, k);
        the_place_settles_the_pads(o2.pads.slots@, n2.pads.slots@, level, trig, segment, at, f2, k);
    }
    the_place_settles_the_pads(o.pads.slots@, n.pads.slots@, level, trig, segment, at, f, at);
    the_place_settles_the_pads(o2.pads.slots@, n2.pads.slots@, level, trig, segment, at, f2, at);
    lemma_pads_look(level@, w, n.pads.slots@, n2.pads.slots@);
}

// ---- The order of operations ----

proof fn lemma_kept_look<V: View>(s: Seq<Loaded<V>>, t: Seq<Loaded<V>>, p: spec_fn(Key, V) -> bool, q: spec_fn(Key, V) -> bool)
    requires
        same_look(s, t),
        forall|i: int| 0 <= i < s.len() ==> p((#[trigger] s[i]).key, s[i].item) == q(t[i].key, t[i].item),
    ensures
        same_look(kept(s, p), kept(t, q)),
    decreases s.len(),
{
    if s.len() > 0 {
        let (a, b) = (s.drop_last(), t.drop_last());
        assert forall|i: int| 0 <= i < a.len() implies twins(#[trigger] a[i], b[i]) && p(a[i].key, a[i].item)
            == q(b[i].key, b[i].item) by {
            assert(a[i] == s[i] && b[i] == t[i]);
        }
        lemma_kept_look(a, b, p, q);
        let l = s.len() - 1;
        assert(twins(s[l], t[l]));
        assert(p(s[l].key, s[l].item) == q(t[l].key, t[l].item));
        let (x, y) = (kept(a, p), kept(b, q));
        if p(s[l].key, s[l].item) {
            let (x2, y2) = (x.push(s[l]), y.push(t[l]));
            assert forall|i: int| 0 <= i < x2.len() implies twins(#[trigger] x2[i], y2[i]) by {
                if i < x.len() {
                    assert(twins(x[i], y[i]));
                }
            }
        }
    }
}

proof fn lemma_ops_look<V: View>(kind: Kind, s: Seq<Loaded<V>>, t: Seq<Loaded<V>>)
    requires
        same_look(s, t),
    ensures
        entries(kind, s) == entries(kind, t),
        exits(kind, s) == exits(kind, t),
    decreases s.len(),
{
    if s.len() > 0 {
        let (a, b) = (s.drop_last(), t.drop_last());
        assert forall|i: int| 0 <= i < a.len() implies twins(#[trigger] a[i], b[i]) by {
            assert(a[i] == s[i] && b[i] == t[i]);
        }
        lemma_ops_look(kind, a, b);
        assert(twins(s[s.len() - 1], t[s.len() - 1]));
    }
}

proof fn lemma_rows_look<V: View>(s: Seq<Loaded<V>>, t: Seq<Loaded<V>>, lo: int, hi: int, swap: bool, p: spec_fn(Key) -> bool, q: spec_fn(Key) -> bool)
    requires
        same_look(s, t),
        forall|i: int| 0 <= i < s.len() ==> p((#[trigger] s[i]).key) == q(s[i].key),
    ensures
        same_look(rows(s, lo, hi, swap, p), rows(t, lo, hi, swap, q)),
    decreases hi - lo + 1,
{
    if lo <= hi {
        lemma_rows_look(s, t, lo, hi - 1, swap, p, q);
        assert forall|i: int| 0 <= i < s.len() implies in_line::<V>(hi, swap, p)((#[trigger] s[i]).key, s[i].item)
            == in_line::<V>(hi, swap, q)(t[i].key, t[i].item) by {
            assert(twins(s[i], t[i]));
        }
        lemma_kept_look(s, t, in_line::<V>(hi, swap, p), in_line::<V>(hi, swap, q));
        let (a, b) = (rows(s, lo, hi - 1, swap, p), rows(t, lo, hi - 1, swap, q));
        let (c, d) = (kept(s, in_line(hi, swap, p)), kept(t, in_line(hi, swap, q)));
        let (x, y) = (a + c, b + d);
        assert forall|i: int| 0 <= i < x.len() implies twins(#[trigger] x[i], y[i]) by {
            if i < a.len() {
                assert(twins(a[i], b[i]));
            } else {
                assert(twins(c[i - a.len()], d[i - a.len()]));
            }
        }
    }
}

proof fn lemma_keys_look<V: View>(s: Seq<Loaded<V>>, t: Seq<Loaded<V>>, k: Key)
    requires
        same_look(s, t),
    ensures
        has_key(s, k) == has_key(t, k),
{
    if has_key(s, k) {
        let i = choose|i: int| 0 <= i < s.len() && #[trigger] s[i].key == k;
        assert(twins(s[i], t[i]));
        assert(t[i].key == k);
    }
    if has_key(t, k) {
        let i = choose|i: int| 0 <= i < t.len() && #[trigger] t[i].key == k;
        assert(twins(s[i], t[i]));
        assert(s[i].key == k);
    }
}

proof fn lemma_moves_look<V: View>(kind: Kind, s: Seq<Loaded<V>>, t: Seq<Loaded<V>>, s2: Seq<Loaded<V>>, t2: Seq<Loaded<V>>, lo: int, hi: int, swap: bool, span: spec_fn(Key) -> bool)
    requires
        same_look(s, s2),
        same_look(t, t2),
    ensures
        moves(kind, s, t, lo, hi, swap, span) == moves(kind, s2, t2, lo, hi, swap, span),
        exits(kind, kept(s, unless(within(span)))) == exits(kind, kept(s2, unless(within(span)))),
{
    let out = unless(within::<V>(span));
    assert forall|i: int| 0 <= i < s.len() implies out((#[trigger] s[i]).key, s[i].item) == out(s2[i].key, s2[i].item) by {
        assert(twins(s[i], s2[i]));
    }
    lemma_kept_look(s, s2, out, out);
    lemma_ops_look(kind, kept(s, out), kept(s2, out));
    assert forall|i: int| 0 <= i < t.len() implies absent(s)((#[trigger] t[i]).key) == absent(s2)(t[i].key) by {
        lemma_keys_look(s, s2, t[i].key);
    }
    lemma_rows_look(t, t2, lo, hi, swap, absent(s), absent(s2));
    lemma_ops_look(kind, rows(t, lo, hi, swap, absent(s)), rows(t2, lo, hi, swap, absent(s2)));
}

proof fn lemma_pad_moves_look(s: Seq<Loaded<Pad>>, t: Seq<Loaded<Pad>>, s2: Seq<Loaded<Pad>>, t2: Seq<Loaded<Pad>>, level: LevelView, w: spec_fn(Wave, F32) -> F32, at: Key)
    requires
        same_look(s, s2),
        same_look(t, t2),
    ensures
        pad_moves(s, t, level, w, at) == pad_moves(s2, t2, level, w, at),
{
    let keep = pad_stays(level, at);
    let out = unless(keep);
    assert forall|i: int| 0 <= i < s.len() implies keep((#[trigger] s[i]).key, s[i].item) == keep(s2[i].key, s2[i].item)
        && out(s[i].key, s[i].item) == out(s2[i].key, s2[i].item) by {
        assert(twins(s[i], s2[i]));
    }
    lemma_kept_look(s, s2, keep, keep);
    lemma_kept_look(s, s2, out, out);
    lemma_ops_look(Kind::Pad, kept(s, out), kept(s2, out));
    let (stay, stay2) = (kept(s, keep), kept(s2, keep));
    let (p, q) = (slot_due(stay, level, w, at), slot_due(stay2, level, w, at));
    let (x, y) = (other_due(stay, level, w, at), other_due(stay2, level, w, at));
    assert forall|i: int| 0 <= i < t.len() implies p((#[trigger] t[i]).key) == q(t[i].key) && x(t[i].key) == y(t[i].key) by {
        lemma_keys_look(stay, stay2, t[i].key);
    }
    let (a, b) = (GOAL_SLOT_POS as int, GOAL_SLOT_NEG as int);
    lemma_rows_look(t, t2, at.1 - 1, at.1 + 1, true, p, q);
    lemma_rows_look(t, t2, a, a, false, x, y);
    lemma_rows_look(t, t2, b, b, false, x, y);
    lemma_ops_look(Kind::Pad, rows(t, at.1 - 1, at.1 + 1, true, p), rows(t2, at.1 - 1, at.1 + 1, true, q));
    lemma_ops_look(Kind::Pad, rows(t, a, a, false, x), rows(t2, a, a, false, y));
    lemma_ops_look(Kind::Pad, rows(t, b, b, false, x), rows(t2, b, b, false, y));
}

/// What is done to the engine is settled too: two worlds that hold the same
/// and have the same history, and move to the same place, hold the same
/// afterwards and have the same history. So the engine, which numbers its
/// handles by that history, numbers them alike.
pub proof fn histories_agree<T: Fn(Wave, F32) -> F32, S: Fn(Edge) -> Collider, H: Fn(Boulder) -> Option<(Collider, Vec<Vec2>)>>(
    o: Scene,
    n: Scene,
    o2: Scene,
    n2: Scene,
    level: &Level,
    trig: &T,
    segment: &S,
    hull: &H,
    at: Key,
)
    requires
        level.terrain is None,
        decided(*hull),
        short_of_finish(level@, at),
        n.wf(),
        n2.wf(),
        n.synced_from(&o, level, trig, segment, hull, at),
        n2.synced_from(&o2, level, trig, segment, hull, at),
        faithful(o, level, trig, segment, hull),
        faithful(o2, level, trig, segment, hull),
        same_scene(o, o2),
        o.world.log@ == o2.world.log@,
    ensures
        faithful(n, level, trig, segment, hull),
        faithful(n2, level, trig, segment, hull),
        same_scene(n, n2),
        n.world.log@ == n2.world.log@,
{
    the_place_settles_the_scene(o, n, o2, n2, level, trig, segment, hull, at);
    let w = wave_of(*trig);
    lemma_moves_look(
        Kind::Cave,
        o.cave.slots@,
        n.cave.slots@,
        o2.cave.slots@,
        n2.cave.slots@,
        at.1 - 1,
        at.1 + 1,
        false,
        cave_span(at),
    );
    lemma_moves_look(
        Kind::Shaft,
        o.shafts.slots@,
        n.shafts.slots@,
        o2.shafts.slots@,
        n2.shafts.slots@,
        shaft_lines(at).0,
        shaft_lines(at).1,
        false,
        shaft_span(at),
    );
    lemma_moves_look(
        Kind::Obstacle,
        o.obstacles.slots@,
        n.obstacles.slots@,
        o2.obstacles.slots@,
        n2.obstacles.slots@,
        at.1 - 1,
        at.1 + 1,
        true,
        boulder_span(at),
    );
    lemma_pad_moves_look(o.pads.slots@, n.pads.slots@, o2.pads.slots@, n2.pads.slots@, level@, w, at);
    assert(n.operations(&o, level@, w, at) == n2.operations(&o2, level@, w, at));
}

/// Worlds in which nothing is loaded hold the same.
pub proof fn new_worlds_agree(a: Scene, b: Scene)
    requires
        a.blank(),
        b.blank(),
    ensures
        same_scene(a, b),
{
}

/// A hand-drawn world is loaded alike every time, in the same order.
pub proof fn drawings_agree<T: Fn(Wave, F32) -> F32, S: Fn(Edge) -> Collider, H: Fn(Boulder) -> Option<(Collider, Vec<Vec2>)>>(
    o: Scene,
    n: Scene,
    o2: Scene,
    n2: Scene,
    level: &Level,
    trig: &T,
    segment: &S,
    hull: &H,
    at: Key,
    at2: Key,
)
    requires
        level.terrain is Some,
        o.blank(),
        o2.blank(),
        o.world.log@ == o2.world.log@,
        n.wf(),
        n2.wf(),
        n.synced_from(&o, level, trig, segment, hull, at),
        n2.synced_from(&o2, level, trig, segment, hull, at2),
    ensures
        same_scene(n, n2),
        n.world.log@ == n2.world.log@,
{
    let t = level.terrain->0;
    let maker = DrawnPadMaker { pads: &t.pads, segment };
    let (s, u) = (n.pads.slots@, n2.pads.slots@);
    let (f, f2) = (n.world.free(), n2.world.free());
    assert(sure::<Pad, DrawnPadMaker<S>>(maker));
    lemma_drawn(o.pads.slots@, s, maker, f, drawn_span(t@));
    lemma_drawn(o2.pads.slots@, u, maker, f2, drawn_span(t@));
    the_place_settles_the_window(
        o.pads.slots@,
        s,
        o2.pads.slots@,
        u,
        maker,
        f,
        f2,
        drawn_span(t@),
    );
    assert forall|i: int| 0 <= i < s.len() implies absent(o.pads.slots@)((#[trigger] s[i]).key) == absent(
        o2.pads.slots@,
    )(s[i].key) by {
        assert(o.pads.slots@ =~= o2.pads.slots@);
    }
    lemma_rows_look(s, u, 0, last_pad(t@), false, absent(o.pads.slots@), absent(o2.pads.slots@));
    lemma_ops_look(
        Kind::Pad,
        rows(s, 0, last_pad(t@), false, absent(o.pads.slots@)),
        rows(u, 0, last_pad(t@), false, absent(o2.pads.slots@)),
    );
    assert(n.drawing(&o, t@) == n2.drawing(&o2, t@));
}

proof fn lemma_drawn<V, M: Maker<V>>(s: Seq<Loaded<V>>, t: Seq<Loaded<V>>, maker: M, free: Map<Handle, Set<Collider>>, span: spec_fn(Key) -> bool)
    requires
        s.len() == 0,
        filled(s, t, maker, free, span),
    ensures
        slid(s, t, maker, free, span),
        proper(maker, s),
{
}

} // verus!
