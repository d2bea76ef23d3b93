//! The law of recordings as a whole: what was recorded in flight comes out when
//! the recording is flown again.

use crate::binary32::F32;
use crate::cave::Wave;
use crate::laws::gauges::given;
use crate::laws::keyframes::{
    alike, lemma_same_pad, low_bits, restored_keyframe_is_the_same, restores_alike, ticked,
    ticks_alike, TickIn,
};
use crate::laws::replays::{
    frames, repetitions_give_the_same_frames, same_but_glow, unbroken, Step,
};
use crate::laws::windows::same_look;
use crate::level::LevelView;
use crate::replay::{idle, InputEvent, InputState, Keyframe};
use crate::resim::{destroyed, due, left_by};
use crate::rules::SimParams;
use crate::run::{
    begun, bit, mask_len, park, report, restored, snapshot, Command, Motion, Park, RunView,
};
use crate::scenery::Pad;
use crate::sim::{torque_in, unplaced};
use crate::slots::{Key, Loaded};
use vstd::prelude::*;

verus! {

/// What a flight has around it. The engine is taken to be one that makes the
/// same of the same: the ship's motion is settled by what the engine has been
/// given, tick by tick, and by where it was told to hold the ship. The pads are
/// those that are loaded where the ship is.
pub struct Outside {
    pub wave: spec_fn(Wave, F32) -> F32,
    pub bearing: spec_fn(InputState) -> F32,
    pub engine: spec_fn(Seq<Option<Command>>, Seq<Park>) -> Motion,
    pub pads: spec_fn(Motion) -> Seq<Loaded<Pad>>,
}

/// A flight so far.
pub struct Voyage {
    pub run: RunView,
    /// What the engine was given on each tick.
    pub commands: Seq<Option<Command>>,
    /// How it was told to hold the ship after each.
    pub parks: Seq<Park>,
    pub steps: Seq<Step>,
}

/// One more tick of a flight, with the controls `input`.
pub open spec fn onward(v: Voyage, level: LevelView, rules: SimParams, o: Outside, input: InputState, glow: F32) -> Voyage {
    let before = (o.engine)(v.commands, v.parks);
    let bearing = (o.bearing)(input);
    let c = given(v.run, level, rules, o.wave, input, before, bearing);
    let commands = v.commands.push(c);
    let after = (o.engine)(commands, v.parks);
    let begun_run = begun(v.run, rules, input, before, bearing);
    let pads = (o.pads)(before);
    let run = ticked(v.run, level, rules, TickIn { input, bearing, before, after, pads });
    Voyage {
        run,
        commands,
        parks: v.parks.push(park(begun_run, level, rules, pads, after)),
        steps: v.steps.push(
            Step {
                run,
                report: report(begun_run, level, rules, pads, after, torque_in(c)),
                after,
                glow,
            },
        ),
    }
}

/// The flight of `n` ticks from the run `r`, under the controls `inputs`.
pub open spec fn voyage(level: LevelView, rules: SimParams, o: Outside, r: RunView, inputs: Seq<InputState>, glows: Seq<F32>, n: int) -> Voyage
    decreases n,
{
    if n <= 0 {
        Voyage { run: r, commands: seq![], parks: seq![], steps: seq![] }
    } else {
        onward(
            voyage(level, rules, o, r, inputs, glows, n - 1),
            level,
            rules,
            o,
            inputs[n - 1],
            glows[n - 1],
        )
    }
}

/// The same surroundings but for the handles of the pads' colliders.
pub open spec fn same_outside(o: Outside, p: Outside) -> bool {
    &&& o.wave == p.wave
    &&& o.bearing == p.bearing
    &&& o.engine == p.engine
    &&& forall|m: Motion| same_look(#[trigger] (o.pads)(m), (p.pads)(m))
}

proof fn lemma_onward(v: Voyage, u: Voyage, level: LevelView, rules: SimParams, o: Outside, p: Outside, input: InputState, g: F32, h: F32)
    requires
        alike(level, v.run, u.run),
        v.commands == u.commands,
        v.parks == u.parks,
        same_outside(o, p),
    ensures
        ({
            let (a, b) = (onward(v, level, rules, o, input, g), onward(u, level, rules, p, input, h));
            &&& alike(level, a.run, b.run)
            &&& a.commands == b.commands
            &&& a.parks == b.parks
            &&& a.steps.last().report.impact == b.steps.last().report.impact
            &&& a.steps.last().after == b.steps.last().after
        }),
{
    let before = (o.engine)(v.commands, v.parks);
    let bearing = (o.bearing)(input);
    let c = given(v.run, level, rules, o.wave, input, before, bearing);
    let after = (o.engine)(v.commands.push(c), v.parks);
    let pads = (o.pads)(before);
    let t = TickIn { input, bearing, before, after, pads };
    assert(same_look(pads, (p.pads)(before)));
    lemma_same_pad(pads, (p.pads)(before), rules, after);
    ticks_alike(level, rules, o.wave, v.run, u.run, t, torque_in(c), 0, g);
}

proof fn lemma_voyages(level: LevelView, rules: SimParams, o: Outside, p: Outside, a: RunView, b: RunView, inputs: Seq<InputState>, g: Seq<F32>, h: Seq<F32>, n: int)
    requires
        alike(level, a, b),
        same_outside(o, p),
        0 <= n,
    ensures
        ({
            let v = voyage(level, rules, o, a, inputs, g, n);
            let u = voyage(level, rules, p, b, inputs, h, n);
            &&& alike(level, v.run, u.run)
            &&& v.commands == u.commands
            &&& v.parks == u.parks
            &&& v.steps.len() == n && u.steps.len() == n
            &&& forall|i: int|
                0 <= i < n ==> alike(level, (#[trigger] v.steps[i]).run, u.steps[i].run)
                    && v.steps[i].report.impact == u.steps[i].report.impact && v.steps[i].after
                    == u.steps[i].after
        }),
    decreases n,
{
    if n > 0 {
        lemma_voyages(level, rules, o, p, a, b, inputs, g, h, n - 1);
        lemma_onward(
            voyage(level, rules, o, a, inputs, g, n - 1),
            voyage(level, rules, p, b, inputs, h, n - 1),
            level,
            rules,
            o,
            p,
            inputs[n - 1],
            g[n - 1],
            h[n - 1],
        );
    }
}

// ---- The level that a recording carries ----

/// A flight is the same on the level that the recording's header carries.
proof fn lemma_header(level: LevelView, rules: SimParams, o: Outside, r: RunView, inputs: Seq<InputState>, glows: Seq<F32>, n: int)
    ensures
        voyage(level.params().level(), rules, o, r, inputs, glows, n) == voyage(
            level,
            rules,
            o,
            r,
            inputs,
            glows,
            n,
        ),
    decreases n,
{
    if n > 0 {
        lemma_header(level, rules, o, r, inputs, glows, n - 1);
        let v = voyage(level, rules, o, r, inputs, glows, n - 1);
        lemma_header_onward(v, level, rules, o, inputs[n - 1], glows[n - 1]);
    }
}

proof fn lemma_header_onward(v: Voyage, level: LevelView, rules: SimParams, o: Outside, input: InputState, glow: F32)
    ensures
        onward(v, level.params().level(), rules, o, input, glow) == onward(v, level, rules, o, input, glow),
{
}

proof fn lemma_header_frames(level: LevelView, start: u32, steps: Seq<Step>, n: int)
    ensures
        frames(level.params().level(), start, steps, n) == frames(level, start, steps, n),
    decreases n,
{
    if n > 0 {
        lemma_header_frames(level, start, steps, n - 1);
    }
}

// ---- The controls that a recording tells ----

/// The first `n` events are due on the tick that comes `i` ticks after `start`.
pub open spec fn due_at(events: Seq<InputEvent>, start: u32, i: int, n: int) -> bool {
    due(events, (start + i) as u32, n)
}

/// The events of a recording that notes the controls whenever they change, of
/// the first `n` ticks.
pub open spec fn noted(start: u32, inputs: Seq<InputState>, n: int) -> Seq<InputEvent>
    decreases n,
{
    if n <= 0 {
        seq![]
    } else {
        let last = if n == 1 {
            idle()
        } else {
            inputs[n - 2]
        };
        let rest = noted(start, inputs, n - 1);
        if inputs[n - 1] == last {
            rest
        } else {
            rest.push(InputEvent { tick: (start + n - 1) as u32, input: inputs[n - 1] })
        }
    }
}

/// The controls that are played, tick by tick, are what the due events leave.
pub open spec fn fed(events: Seq<InputEvent>, start: u32, played: Seq<InputState>) -> bool {
    forall|i: int|
        0 <= i < played.len() ==> exists|n: int| #[trigger]
            due_at(events, start, i, n) && left_by(events, n, #[trigger] played[i])
}

proof fn lemma_noted(start: u32, inputs: Seq<InputState>, n: int)
    requires
        0 <= n <= inputs.len(),
        start + n <= u32::MAX,
    ensures
        forall|k: int|
            0 <= k < noted(start, inputs, n).len() ==> (#[trigger] noted(start, inputs, n)[k]).tick < start + n,
        left_by(
            noted(start, inputs, n),
            noted(start, inputs, n).len() as int,
            if n == 0 {
                idle()
            } else {
                inputs[n - 1]
            },
        ),
        forall|i: int, k: int|
            0 <= i < n && #[trigger] due_at(noted(start, inputs, n), start, i, k) ==> left_by(
                noted(start, inputs, n),
                k,
                inputs[i],
            ),
    decreases n,
{
    if n > 0 {
        lemma_noted(start, inputs, n - 1);
        let (e, f) = (noted(start, inputs, n - 1), noted(start, inputs, n));
        assert forall|i: int, k: int| 0 <= i < n && #[trigger] due_at(f, start, i, k) implies left_by(f, k, inputs[i]) by {
            if i < n - 1 {
                if k == f.len() && f.len() > e.len() {
                    assert(f[k - 1].tick <= start + i);
                }
                assert forall|j: int| 0 <= j < k implies (#[trigger] e[j]).tick <= start + i by {
                    assert(f[j] == e[j]);
                }
                assert(due_at(e, start, i, k));
            } else if k < f.len() {
                if k < e.len() {
                    assert(e[k].tick < start + n - 1);
                }
            }
        }
    }
}

/// A recording that notes the controls whenever they change plays the controls
/// that were flown.
pub proof fn recordings_tell_the_controls(start: u32, inputs: Seq<InputState>, played: Seq<InputState>)
    requires
        start + inputs.len() <= u32::MAX,
        played.len() == inputs.len(),
        fed(noted(start, inputs, inputs.len() as int), start, played),
    ensures
        played == inputs,
{
    let n = inputs.len() as int;
    lemma_noted(start, inputs, n);
    let events = noted(start, inputs, n);
    assert forall|i: int| 0 <= i < n implies played[i] == inputs[i] by {
        let k = choose|k: int| #[trigger] due_at(events, start, i, k) && left_by(events, k, played[i]);
        assert(left_by(events, k, inputs[i]));
    }
    assert(played =~= inputs);
}

// ---- The recording as a whole ----

/// The ship stands where a keyframe puts it.
pub open spec fn stands_at(m: Motion, kf: Keyframe) -> bool {
    m == (Motion {
        x: kf.x,
        y: kf.y,
        rot_re: kf.rot_re,
        rot_im: kf.rot_im,
        vx: kf.vx,
        vy: kf.vy,
        angvel: kf.angvel,
        ..m
    })
}

/// The keyframes of a flight: the one it starts from, and what comes after.
pub open spec fn reel(first: Keyframe, level: LevelView, v: Voyage) -> Seq<Keyframe> {
    seq![first] + frames(level, first.tick, v.steps, v.steps.len() as int)
}

/// The throttle of each tick, which is the glow of a flight that nobody sees.
pub open spec fn throttles(inputs: Seq<InputState>) -> Seq<F32> {
    inputs.map_values(|i: InputState| i.throttle)
}

/// A new run that is put back to its first keyframe is the new run.
proof fn lemma_first_frame(level: LevelView, spawn: Keyframe, other: Keyframe, m: Motion, glow: F32)
    requires
        spawn.visited == 0,
        other.visited == 0,
        stands_at(m, spawn),
    ensures
        ({
            let r = restored(unplaced(), level, spawn);
            let q = restored(unplaced(), level, other);
            alike(level, r, restored(q, level, snapshot(r, level, m, spawn.tick, glow)))
        }),
{
    let r = restored(unplaced(), level, spawn);
    let q = restored(unplaced(), level, other);
    let k0 = snapshot(r, level, m, spawn.tick, glow);
    let z = 0u64;
    match level.terrain {
        Some(t) => {
            let b = low_bits(mask_len(t.pads.len()));
            assert(z & b == z) by (bit_vector)
                requires
                    z == 0u64,
            ;
        },
        None => {},
    }
    restored_keyframe_is_the_same(unplaced(), level, spawn, m);
    assert(k0 == (Keyframe { glow, ..spawn }));
    lemma_no_visits(level, other);
    restores_alike(level, unplaced(), q, k0);
    assert(restored(unplaced(), level, k0) =~= r);
}

/// Where nothing is visited, a mask without bits leaves nothing visited.
proof fn lemma_no_visits(level: LevelView, kf: Keyframe)
    requires
        kf.visited == 0,
    ensures
        restored(unplaced(), level, kf).visited =~= unplaced().visited,
{
    assert forall|i: int| 0 <= i < 64 implies !(#[trigger] bit(0, i)) by {
        let j = i as u64;
        assert(0u64 & (1u64 << j) == 0) by (bit_vector);
    }
    let v = restored(unplaced(), level, kf).visited;
    assert forall|k: Key| !v.contains(k) by {
        assert(!unplaced().visited.contains(k));
    }
}

/// A recording flown again gives its keyframes. A new run is flown and
/// recorded: the level in the header, the first keyframe, the controls whenever
/// they change, and the keyframes as they fall due. The recording is then flown
/// on a new run of the level in the header, which is put to the first keyframe
/// and gets the controls that the recording tells. As long as the engine makes
/// the same of the same, and the same pads are loaded at the same places, the
/// keyframes are the recorded ones, as many and in the same order, bit for bit
/// but for the glow.
pub proof fn recordings_come_out_again(level: LevelView, rules: SimParams, o: Outside, p: Outside, spawn: Keyframe, other: Keyframe, m: Motion, glow: F32, inputs: Seq<InputState>, glows: Seq<F32>, played: Seq<InputState>)
    requires
        same_outside(o, p),
        spawn.visited == 0,
        other.visited == 0,
        stands_at(m, spawn),
        spawn.tick + inputs.len() <= u32::MAX,
        played.len() == inputs.len(),
        fed(noted(spawn.tick, inputs, inputs.len() as int), spawn.tick, played),
    ensures
        ({
            let r = restored(unplaced(), level, spawn);
            let first = snapshot(r, level, m, spawn.tick, glow);
            let flown = voyage(level, rules, o, r, inputs, glows, inputs.len() as int);
            let header = level.params().level();
            let q = restored(restored(unplaced(), header, other), header, first);
            let again = voyage(header, rules, p, q, played, throttles(played), played.len() as int);
            &&& same_but_glow(reel(first, level, flown), reel(first, header, again))
            &&& unbroken(first.tick, flown.steps) ==> unbroken(first.tick, again.steps)
        }),
{
    let r = restored(unplaced(), level, spawn);
    let first = snapshot(r, level, m, spawn.tick, glow);
    let header = level.params().level();
    let n = inputs.len() as int;
    recordings_tell_the_controls(spawn.tick, inputs, played);
    assert(restored(unplaced(), header, other) == restored(unplaced(), level, other));
    let q = restored(restored(unplaced(), level, other), level, first);
    assert(restored(restored(unplaced(), header, other), header, first) == q);
    lemma_first_frame(level, spawn, other, m, glow);
    let g = throttles(played);
    lemma_header(level, rules, p, q, played, g, n);
    lemma_voyages(level, rules, o, p, r, q, inputs, glows, g, n);
    let a = voyage(level, rules, o, r, inputs, glows, n).steps;
    let b = voyage(level, rules, p, q, inputs, g, n).steps;
    lemma_header_frames(level, first.tick, b, n);
    repetitions_give_the_same_frames(level, first.tick, a, b, n);
    let (x, y) = (frames(level, first.tick, a, n), frames(level, first.tick, b, n));
    assert forall|i: int| 0 <= i < x.len() + 1 implies #[trigger] (seq![first] + x)[i] == (Keyframe {
        glow: (seq![first] + x)[i].glow,
        ..(seq![first] + y)[i]
    }) by {
        if i > 0 {
            assert((seq![first] + x)[i] == x[i - 1]);
            assert((seq![first] + y)[i] == y[i - 1]);
        }
    }
    if unbroken(first.tick, a) {
        assert forall|i: int| 0 <= i < b.len() - 1 implies !destroyed((#[trigger] b[i]).report) by {
            assert(alike(level, a[i].run, b[i].run));
            assert(!destroyed(a[i].report));
        }
    }
}

} // verus!
