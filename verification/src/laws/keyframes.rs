//! Laws of keyframes: what a restore brings back, and what a run from a
//! keyframe does not depend on.

use crate::binary32::order::f_lt;
use crate::binary32::{fl, F32};
use crate::cave::Wave;
use crate::laws::windows::{same_look, twins};
use crate::level::LevelView;
use crate::pad::{GOAL_SLOT_NEG, GOAL_SLOT_POS};
use crate::replay::{InputState, Keyframe};
use crate::rules::SimParams;
use crate::run::{
    begun, bit, command, completes, ended, finished, first_under, flown, live, mark_finish, mask_len,
    masked_pads, pad_mask, pad_under, park, report, restored, restored_visits, snapshot, stands_on,
    visit_mask, Motion, RunView, TickReport,
};
use crate::scenery::Pad;
use crate::sim::placed;
use crate::slots::{Key, Loaded};
use vstd::prelude::*;

verus! {

proof fn lemma_set_bit(m: u64, j: u64, i: u64)
    requires
        i < 64,
        j < 64,
    ensures
        ((m | (1u64 << j)) & (1u64 << i) != 0) == (m & (1u64 << i) != 0 || i == j),
{
    assert(((m | (1u64 << j)) & (1u64 << i) != 0) == (m & (1u64 << i) != 0 || i == j)) by (bit_vector)
        requires
            i < 64,
            j < 64,
    ;
}

/// Bit `i` of a visit mask says whether pad `i` is visited.
pub proof fn mask_bits_are_visits(visited: Set<Key>, n: nat, i: int)
    requires
        n <= 64,
        0 <= i < 64,
    ensures
        bit(pad_mask(visited, n), i) == (i < n && visited.contains((i as i64, 0))),
    decreases n,
{
    if n == 0 {
        let j = i as u64;
        assert(0u64 & (1u64 << j) == 0) by (bit_vector);
    } else {
        mask_bits_are_visits(visited, (n - 1) as nat, i);
        lemma_set_bit(pad_mask(visited, (n - 1) as nat), (n - 1) as u64, i as u64);
    }
}

/// Pads to mask and back: the visits of the first `n` pads survive.
pub proof fn visits_survive_the_mask(visited: Set<Key>, n: nat)
    requires
        n <= 64,
    ensures
        masked_pads(pad_mask(visited, n), n) == visited.filter(|k: Key| 0 <= k.0 < n && k.1 == 0),
{
    let back = masked_pads(pad_mask(visited, n), n);
    assert forall|k: Key| #[trigger] back.contains(k) <==> visited.contains(k) && 0 <= k.0 < n && k.1 == 0 by {
        if 0 <= k.0 < n && k.1 == 0 {
            mask_bits_are_visits(visited, n, k.0 as int);
            assert(k == (k.0, 0i64));
        }
    }
    assert(back =~= visited.filter(|k: Key| 0 <= k.0 < n && k.1 == 0));
}

proof fn lemma_mask_agrees(a: Set<Key>, b: Set<Key>, n: nat)
    requires
        n <= 64,
        forall|i: int| 0 <= i < n ==> a.contains((i as i64, 0)) == #[trigger] b.contains((i as i64, 0)),
    ensures
        pad_mask(a, n) == pad_mask(b, n),
    decreases n,
{
    if n > 0 {
        lemma_mask_agrees(a, b, (n - 1) as nat);
        assert(a.contains(((n - 1) as i64, 0)) == b.contains(((n - 1) as i64, 0)));
    }
}

proof fn lemma_two_bits(a: bool, b: bool)
    ensures
        ({
            let x: u64 = if a { 1 } else { 0 };
            let y: u64 = if b { 2 } else { 0 };
            bit(x | y, 0) == a && bit(x | y, 1) == b
        }),
{
    assert((0u64 | 0u64) & (1u64 << 0u64) == 0 && (0u64 | 0u64) & (1u64 << 1u64) == 0) by (bit_vector);
    assert((1u64 | 0u64) & (1u64 << 0u64) != 0 && (1u64 | 0u64) & (1u64 << 1u64) == 0) by (bit_vector);
    assert((0u64 | 2u64) & (1u64 << 0u64) == 0 && (0u64 | 2u64) & (1u64 << 1u64) != 0) by (bit_vector);
    assert((1u64 | 2u64) & (1u64 << 0u64) != 0 && (1u64 | 2u64) & (1u64 << 1u64) != 0) by (bit_vector);
}

proof fn lemma_marked(visited: Set<Key>, slot: i64, on: bool)
    ensures
        finished(mark_finish(visited, slot, on), slot) == on,
        forall|other: i64| other != slot ==> #[trigger] finished(mark_finish(visited, slot, on), other)
            == finished(visited, other),
{
    let m = mark_finish(visited, slot, on);
    if on {
        assert(m.contains((slot, 0)));
    }
    assert forall|other: i64| other != slot implies #[trigger] finished(m, other) == finished(visited, other) by {
        if finished(visited, other) {
            let k = choose|k: Key| #[trigger] visited.contains(k) && k.0 == other;
            assert(m.contains(k));
        }
        if finished(m, other) {
            let k = choose|k: Key| #[trigger] m.contains(k) && k.0 == other;
            assert(visited.contains(k));
        }
    }
}

/// A restored mask is the mask that is taken again.
proof fn lemma_mask_again(level: LevelView, before: Set<Key>, visited: Set<Key>)
    ensures
        visit_mask(level, restored_visits(level, before, visit_mask(level, visited))) == visit_mask(
            level,
            visited,
        ),
{
    let mask = visit_mask(level, visited);
    let back = restored_visits(level, before, mask);
    match level.terrain {
        Some(t) => {
            let n = mask_len(t.pads.len());
            visits_survive_the_mask(visited, n);
            lemma_mask_agrees(back, visited, n);
        },
        None => {
            if f_lt(fl(0), level.goal_distance) {
                let a = finished(visited, GOAL_SLOT_POS);
                let b = finished(visited, GOAL_SLOT_NEG);
                lemma_two_bits(a, b);
                let mid = mark_finish(before, GOAL_SLOT_POS, a);
                lemma_marked(before, GOAL_SLOT_POS, a);
                lemma_marked(mid, GOAL_SLOT_NEG, b);
                assert(finished(back, GOAL_SLOT_POS) == a);
                assert(finished(back, GOAL_SLOT_NEG) == b);
            }
        },
    }
}

/// A restore brings back what a keyframe took: fuel, hull, clock, settling
/// time and motion; and a keyframe taken right after it is the same keyframe.
pub proof fn restore_brings_back(q: RunView, r: RunView, level: LevelView, m: Motion, tick: u32, glow: F32)
    requires
        0 <= r.run_ticks <= u32::MAX,
    ensures
        ({
            let kf = snapshot(r, level, m, tick, glow);
            let s = restored(q, level, kf);
            &&& s.fuel == r.fuel
            &&& s.hull == r.hull
            &&& s.run_ticks == r.run_ticks
            &&& s.land_timer == r.land_timer
            &&& s.prev_vx == m.vx
            &&& s.prev_vy == m.vy
            &&& s.score == q.score
            &&& !s.crashed
            &&& snapshot(s, level, m, tick, glow) == kf
        }),
{
    lemma_mask_again(level, q.visited, r.visited);
}

/// In a hand-drawn world a restore brings back the visits of every pad that a
/// mask has room for.
pub proof fn drawn_visits_come_back(q: RunView, r: RunView, level: LevelView, m: Motion, tick: u32, glow: F32)
    requires
        level.terrain is Some,
    ensures
        restored(q, level, snapshot(r, level, m, tick, glow)).visited == r.visited.filter(
            |k: Key| 0 <= k.0 < mask_len(level.terrain->0.pads.len()) && k.1 == 0,
        ),
{
    visits_survive_the_mask(r.visited, mask_len(level.terrain->0.pads.len()));
}

/// On a goal level a restore brings back which finish pads were reached.
pub proof fn finishes_come_back(q: RunView, r: RunView, level: LevelView, m: Motion, tick: u32, glow: F32)
    requires
        level.terrain is None,
        f_lt(fl(0), level.goal_distance),
    ensures
        ({
            let s = restored(q, level, snapshot(r, level, m, tick, glow));
            &&& finished(s.visited, GOAL_SLOT_POS) == finished(r.visited, GOAL_SLOT_POS)
            &&& finished(s.visited, GOAL_SLOT_NEG) == finished(r.visited, GOAL_SLOT_NEG)
        }),
{
    let a = finished(r.visited, GOAL_SLOT_POS);
    let b = finished(r.visited, GOAL_SLOT_NEG);
    lemma_two_bits(a, b);
    let mid = mark_finish(q.visited, GOAL_SLOT_POS, a);
    lemma_marked(q.visited, GOAL_SLOT_POS, a);
    lemma_marked(mid, GOAL_SLOT_NEG, b);
}

/// A keyframe at or past the time limit restores the finish: the run is
/// complete, and the ship does not fall.
pub proof fn late_restore_is_finished(q: RunView, level: LevelView, kf: Keyframe)
    requires
        level.time_limit_ticks > 0,
        kf.run_ticks >= level.time_limit_ticks,
    ensures
        restored(q, level, kf).completed,
        !placed(level, kf).falls,
{
}

/// On a goal level scored by time, a keyframe taken after a finish pad was
/// reached restores a complete run.
pub proof fn finish_restore_is_complete(q: RunView, r: RunView, level: LevelView, m: Motion, tick: u32, glow: F32)
    requires
        level.terrain is None,
        level.scoring is Time,
        f_lt(fl(0), level.goal_distance),
        finished(r.visited, GOAL_SLOT_POS) || finished(r.visited, GOAL_SLOT_NEG),
    ensures
        restored(q, level, snapshot(r, level, m, tick, glow)).completed,
{
    lemma_two_bits(finished(r.visited, GOAL_SLOT_POS), finished(r.visited, GOAL_SLOT_NEG));
}

/// The keys of the first `n` pads of a hand-drawn world.
pub open spec fn first_pads(n: nat) -> Set<Key> {
    Set::new(|k: Key| 0 <= k.0 < n && k.1 == 0)
}

proof fn lemma_first_pads_len(n: nat)
    requires
        n <= 64,
    ensures
        first_pads(n).finite(),
        first_pads(n).len() == n,
    decreases n,
{
    if n == 0 {
        assert(first_pads(0) =~= Set::<Key>::empty());
    } else {
        let rest = first_pads((n - 1) as nat);
        lemma_first_pads_len((n - 1) as nat);
        let k: Key = ((n - 1) as i64, 0);
        assert(first_pads(n) =~= rest.insert(k));
        assert(!rest.contains(k));
    }
}

/// In a hand-drawn world scored by time, a keyframe taken with every pad
/// visited restores a complete run, as long as a mask has room for the pads.
pub proof fn full_restore_is_complete(q: RunView, r: RunView, level: LevelView, m: Motion, tick: u32, glow: F32)
    requires
        level.terrain is Some,
        level.scoring is Time,
        0 < level.terrain->0.pads.len() <= 64,
        first_pads(level.terrain->0.pads.len()).subset_of(r.visited),
    ensures
        restored(q, level, snapshot(r, level, m, tick, glow)).completed,
{
    let n = level.terrain->0.pads.len();
    assert(mask_len(n) == n);
    visits_survive_the_mask(r.visited, n);
    lemma_first_pads_len(n);
    assert(masked_pads(pad_mask(r.visited, n), n) =~= first_pads(n));
}

// ---- What a run depends on ----

/// `k` is a pad whose visit can complete a run of this level.
pub open spec fn matters(level: LevelView, k: Key) -> bool {
    ||| level.terrain is Some
    ||| f_lt(fl(0), level.goal_distance) && (k.0 == GOAL_SLOT_POS || k.0 == GOAL_SLOT_NEG)
}

/// The same visits, as far as they matter.
pub open spec fn same_visits(level: LevelView, a: Set<Key>, b: Set<Key>) -> bool {
    forall|k: Key| matters(level, k) ==> (#[trigger] a.contains(k) == b.contains(k))
}

/// The same run but for its score, and for visits that only the score knows.
pub open spec fn alike(level: LevelView, a: RunView, b: RunView) -> bool {
    &&& a == (RunView { score: a.score, visited: a.visited, ..b })
    &&& same_visits(level, a.visited, b.visited)
}

/// Everything that comes into one tick from outside.
pub struct TickIn {
    pub input: InputState,
    pub bearing: F32,
    /// The ship's motion before the tick.
    pub before: Motion,
    /// Its motion after it.
    pub after: Motion,
    /// The pads that are loaded.
    pub pads: Seq<Loaded<Pad>>,
}

/// A run after one tick.
pub open spec fn ticked(r: RunView, level: LevelView, rules: SimParams, t: TickIn) -> RunView {
    ended(begun(r, rules, t.input, t.before, t.bearing), level, rules, t.pads, t.after)
}

/// A run after the ticks `ts`.
pub open spec fn course(r: RunView, level: LevelView, rules: SimParams, ts: Seq<TickIn>) -> RunView
    decreases ts.len(),
{
    if ts.len() == 0 {
        r
    } else {
        ticked(course(r, level, rules, ts.drop_last()), level, rules, ts.last())
    }
}

pub(crate) proof fn lemma_same_mask(level: LevelView, a: Set<Key>, b: Set<Key>)
    requires
        same_visits(level, a, b),
    ensures
        visit_mask(level, a) == visit_mask(level, b),
{
    match level.terrain {
        Some(t) => {
            lemma_mask_agrees(a, b, mask_len(t.pads.len()));
        },
        None => {
            if f_lt(fl(0), level.goal_distance) {
                lemma_same_finish(level, a, b, GOAL_SLOT_POS);
                lemma_same_finish(level, a, b, GOAL_SLOT_NEG);
            }
        },
    }
}

proof fn lemma_same_finish(level: LevelView, a: Set<Key>, b: Set<Key>, slot: i64)
    requires
        same_visits(level, a, b),
        f_lt(fl(0), level.goal_distance),
        slot == GOAL_SLOT_POS || slot == GOAL_SLOT_NEG,
    ensures
        finished(a, slot) == finished(b, slot),
{
    if finished(a, slot) {
        let k = choose|k: Key| #[trigger] a.contains(k) && k.0 == slot;
        assert(b.contains(k));
    }
    if finished(b, slot) {
        let k = choose|k: Key| #[trigger] b.contains(k) && k.0 == slot;
        assert(a.contains(k));
    }
}

proof fn lemma_same_completes(level: LevelView, a: Set<Key>, b: Set<Key>, key: Key)
    requires
        same_visits(level, a, b),
    ensures
        completes(level, a, key) == completes(level, b, key),
        same_visits(level, a.insert(key), b.insert(key)),
{
    if level.terrain is Some {
        assert(a =~= b);
    } else if matters(level, key) {
        assert(a.contains(key) == b.contains(key));
    }
}

/// Two restores of one keyframe give runs that are alike, if the visits that
/// matter were the same before.
pub proof fn restores_alike(level: LevelView, a: RunView, b: RunView, kf: Keyframe)
    requires
        same_visits(level, a.visited, b.visited),
    ensures
        alike(level, restored(a, level, kf), restored(b, level, kf)),
{
    let (u, v) = (restored(a, level, kf), restored(b, level, kf));
    assert forall|k: Key| matters(level, k) implies (#[trigger] u.visited.contains(k) == v.visited.contains(k)) by {
        assert(a.visited.contains(k) == b.visited.contains(k));
    }
}

/// Of two runs that are alike, one tick makes two runs that are alike; the
/// ship is told the same, parked alike, and all that is reported is the same
/// but whether a visit was the first. A keyframe of either is a keyframe of
/// the other.
pub proof fn ticks_alike(level: LevelView, rules: SimParams, w: spec_fn(Wave, F32) -> F32, a: RunView, b: RunView, t: TickIn, torque: F32, tick: u32, glow: F32)
    requires
        alike(level, a, b),
    ensures
        alike(level, ticked(a, level, rules, t), ticked(b, level, rules, t)),
        live(a) == live(b),
        command(a, level, rules, w, t.input, t.before, t.bearing) == command(
            b,
            level,
            rules,
            w,
            t.input,
            t.before,
            t.bearing,
        ),
        ({
            let x = begun(a, rules, t.input, t.before, t.bearing);
            let y = begun(b, rules, t.input, t.before, t.bearing);
            &&& park(x, level, rules, t.pads, t.after) == park(y, level, rules, t.pads, t.after)
            &&& report(x, level, rules, t.pads, t.after, torque) == (TickReport {
                scored: report(x, level, rules, t.pads, t.after, torque).scored,
                ..report(y, level, rules, t.pads, t.after, torque)
            })
        }),
        snapshot(a, level, t.before, tick, glow) == snapshot(b, level, t.before, tick, glow),
{
    lemma_same_mask(level, a.visited, b.visited);
    match pad_under(t.pads, rules, t.after) {
        Some(key) => {
            lemma_same_completes(level, a.visited, b.visited, key);
        },
        None => {},
    }
}

/// The same tick, but for the handles of the pads' colliders.
pub open spec fn same_tick(a: TickIn, b: TickIn) -> bool {
    a == (TickIn { pads: a.pads, ..b }) && same_look(a.pads, b.pads)
}

pub open spec fn same_ticks(a: Seq<TickIn>, b: Seq<TickIn>) -> bool {
    a.len() == b.len() && forall|i: int| 0 <= i < a.len() ==> same_tick(#[trigger] a[i], b[i])
}

pub(crate) proof fn lemma_same_pad(p: Seq<Loaded<Pad>>, q: Seq<Loaded<Pad>>, rules: SimParams, m: Motion)
    requires
        same_look(p, q),
    ensures
        pad_under(p, rules, m) == pad_under(q, rules, m),
{
    assert forall|i: int| first_under(p, rules, m, i) == first_under(q, rules, m, i) by {
        assert forall|j: int| 0 <= j < p.len() implies #[trigger] p[j].item == q[j].item by {
            assert(twins(p[j], q[j]));
        }
        if first_under(p, rules, m, i) {
            assert(p[i].item == q[i].item);
            assert forall|j: int| 0 <= j < i implies !stands_on(rules, m, #[trigger] q[j].item) by {
                assert(p[j].item == q[j].item);
            }
        }
        if first_under(q, rules, m, i) {
            assert(p[i].item == q[i].item);
            assert forall|j: int| 0 <= j < i implies !stands_on(rules, m, #[trigger] p[j].item) by {
                assert(p[j].item == q[j].item);
            }
        }
    }
    if exists|i: int| first_under(p, rules, m, i) {
        let a = choose|i: int| first_under(p, rules, m, i);
        assert(first_under(q, rules, m, a));
        let b = choose|i: int| first_under(q, rules, m, i);
        if a < b {
            assert(!stands_on(rules, m, q[a].item));
        } else if b < a {
            assert(!stands_on(rules, m, q[b].item));
        }
        assert(twins(p[a], q[a]));
    } else if exists|i: int| first_under(q, rules, m, i) {
        let b = choose|i: int| first_under(q, rules, m, i);
        assert(first_under(p, rules, m, b));
    }
}

/// How the engine numbers the colliders of the pads does not matter to a run.
pub proof fn handles_do_not_matter(r: RunView, level: LevelView, rules: SimParams, ts: Seq<TickIn>, us: Seq<TickIn>)
    requires
        same_ticks(ts, us),
    ensures
        course(r, level, rules, ts) == course(r, level, rules, us),
    decreases ts.len(),
{
    if ts.len() > 0 {
        let (a, b) = (ts.drop_last(), us.drop_last());
        assert forall|i: int| 0 <= i < a.len() implies same_tick(#[trigger] a[i], b[i]) by {
            assert(same_tick(ts[i], us[i]));
        }
        handles_do_not_matter(r, level, rules, a, b);
        assert(same_tick(ts[ts.len() - 1], us[ts.len() - 1]));
        lemma_same_pad(ts.last().pads, us.last().pads, rules, ts.last().after);
    }
}

/// A recording runs again as it was flown: from one keyframe, in one level and
/// under one ruleset, with the same controls, the same pads around, and an
/// engine that moves the ship alike, every tick leaves the same run and every
/// keyframe is the same, however many pads the pilot had visited in this
/// session before.
pub proof fn recordings_replay(level: LevelView, rules: SimParams, a: RunView, b: RunView, kf: Keyframe, ts: Seq<TickIn>, us: Seq<TickIn>, m: Motion, tick: u32, glow: F32)
    requires
        same_visits(level, a.visited, b.visited),
        same_ticks(ts, us),
    ensures
        ({
            let x = course(restored(a, level, kf), level, rules, ts);
            let y = course(restored(b, level, kf), level, rules, us);
            &&& alike(level, x, y)
            &&& snapshot(x, level, m, tick, glow) == snapshot(y, level, m, tick, glow)
        }),
{
    handles_do_not_matter(restored(b, level, kf), level, rules, ts, us);
    lemma_replay(level, rules, a, b, kf, ts);
    lemma_same_mask(
        level,
        course(restored(a, level, kf), level, rules, ts).visited,
        course(restored(b, level, kf), level, rules, us).visited,
    );
}

proof fn lemma_replay(level: LevelView, rules: SimParams, a: RunView, b: RunView, kf: Keyframe, ts: Seq<TickIn>)
    requires
        same_visits(level, a.visited, b.visited),
    ensures
        alike(
            level,
            course(restored(a, level, kf), level, rules, ts),
            course(restored(b, level, kf), level, rules, ts),
        ),
    decreases ts.len(),
{
    if ts.len() == 0 {
        restores_alike(level, a, b, kf);
    } else {
        let rest = ts.drop_last();
        let t = ts.last();
        lemma_replay(level, rules, a, b, kf, rest);
        let w = |v: Wave, f: F32| f;
        ticks_alike(
            level,
            rules,
            w,
            course(restored(a, level, kf), level, rules, rest),
            course(restored(b, level, kf), level, rules, rest),
            t,
            t.bearing,
            0,
            t.bearing,
        );
    }
}

// ---- A keyframe right after a restore ----

/// The first `n` bits.
pub open spec fn low_bits(n: nat) -> u64
    decreases n,
{
    if n == 0 {
        0
    } else {
        low_bits((n - 1) as nat) | (1u64 << ((n - 1) as u64))
    }
}

/// A mask that has no bits but those that a level uses.
pub open spec fn mask_fits(level: LevelView, mask: u64) -> bool {
    match level.terrain {
        Some(t) => mask & low_bits(mask_len(t.pads.len())) == mask,
        None => if f_lt(fl(0), level.goal_distance) {
            mask <= 3
        } else {
            mask == 0
        },
    }
}

proof fn lemma_low_mask(mask: u64, n: nat, all: nat)
    requires
        n <= all <= 64,
    ensures
        pad_mask(masked_pads(mask, all), n) == mask & low_bits(n),
    decreases n,
{
    if n == 0 {
        assert(mask & 0u64 == 0) by (bit_vector);
    } else {
        lemma_low_mask(mask, (n - 1) as nat, all);
        let j = (n - 1) as u64;
        let l = low_bits((n - 1) as nat);
        assert(masked_pads(mask, all).contains(((n - 1) as i64, 0)) == bit(mask, n - 1));
        if bit(mask, n - 1) {
            assert((mask & l) | (1u64 << j) == mask & (l | (1u64 << j))) by (bit_vector)
                requires
                    mask & (1u64 << j) != 0,
                    j < 64,
            ;
        } else {
            assert(mask & l == mask & (l | (1u64 << j))) by (bit_vector)
                requires
                    mask & (1u64 << j) == 0,
            ;
        }
    }
}

/// A keyframe taken right after a restore is the keyframe that was restored,
/// bit for bit, if its mask is one of the level's.
pub proof fn restored_keyframe_is_the_same(q: RunView, level: LevelView, kf: Keyframe, m: Motion)
    requires
        mask_fits(level, kf.visited),
        ({
            let p = placed(level, kf);
            m == (Motion {
                x: p.x,
                y: p.y,
                rot_re: p.rot_re,
                rot_im: p.rot_im,
                vx: p.vx,
                vy: p.vy,
                angvel: p.angvel,
                ..m
            })
        }),
    ensures
        snapshot(restored(q, level, kf), level, m, kf.tick, kf.glow) == kf,
{
    let mask = kf.visited;
    let v = restored_visits(level, q.visited, mask);
    match level.terrain {
        Some(t) => {
            let n = mask_len(t.pads.len());
            lemma_low_mask(mask, n, n);
        },
        None => {
            if f_lt(fl(0), level.goal_distance) {
                let first = mark_finish(q.visited, GOAL_SLOT_POS, bit(mask, 0));
                lemma_marked(q.visited, GOAL_SLOT_POS, bit(mask, 0));
                lemma_marked(first, GOAL_SLOT_NEG, bit(mask, 1));
                assert(v == mark_finish(first, GOAL_SLOT_NEG, bit(mask, 1)));
                assert(finished(v, GOAL_SLOT_POS) == finished(first, GOAL_SLOT_POS));
                let a: u64 = if bit(mask, 0) { 1 } else { 0 };
                let b: u64 = if bit(mask, 1) { 2 } else { 0 };
                assert(a | b == mask) by {
                    lemma_small_mask(mask);
                }
            }
        },
    }
}

proof fn lemma_small_mask(mask: u64)
    requires
        mask <= 3,
    ensures
        ({
            let a: u64 = if bit(mask, 0) { 1 } else { 0 };
            let b: u64 = if bit(mask, 1) { 2 } else { 0 };
            a | b == mask
        }),
{
    let x = mask & (1u64 << 0u64) != 0;
    let y = mask & (1u64 << 1u64) != 0;
    assert((if x { 1u64 } else { 0u64 }) | (if y { 2u64 } else { 0u64 }) == mask) by (bit_vector)
        requires
            mask <= 3,
            x == (mask & (1u64 << 0u64) != 0),
            y == (mask & (1u64 << 1u64) != 0),
    ;
}

} // verus!
