//! Laws of recordings that are flown again: which keyframes come out.

use crate::binary32::{fl, F32};
use crate::laws::keyframes::{alike, lemma_same_mask};
use crate::level::LevelView;
use crate::replay::{Keyframe, KEYFRAME_EVERY};
use crate::resim::{destroyed, emitted};
use crate::run::{Motion, RunView, TickReport};
use vstd::prelude::*;

verus! {

/// What one tick of a flight leaves.
pub struct Step {
    pub run: RunView,
    pub report: TickReport,
    pub after: Motion,
    /// The throttle of the tick.
    pub glow: F32,
}

/// The keyframe of the tick that comes `n` ticks after `start`, if any.
pub open spec fn frame_of(level: LevelView, start: u32, steps: Seq<Step>, n: int) -> Option<Keyframe> {
    let s = steps[n - 1];
    emitted(s.run, level, s.report, s.after, (start + n) as u32, s.glow)
}

/// The keyframes of a flight after the one it starts from: what the ticks give
/// one after the other.
pub open spec fn frames(level: LevelView, start: u32, steps: Seq<Step>, n: int) -> Seq<Keyframe>
    decreases n,
{
    if n <= 0 {
        seq![]
    } else {
        match frame_of(level, start, steps, n) {
            Some(kf) => frames(level, start, steps, n - 1).push(kf),
            None => frames(level, start, steps, n - 1),
        }
    }
}

/// A keyframe falls due on tick `n` after `start`.
pub open spec fn frame_due(start: u32, steps: Seq<Step>, n: int) -> bool {
    (start + n) % KEYFRAME_EVERY as int == 0 || destroyed(steps[n - 1].report)
}

/// A flight that goes on until its last tick at most.
pub open spec fn unbroken(start: u32, steps: Seq<Step>) -> bool {
    &&& start + steps.len() <= u32::MAX
    &&& forall|i: int| 0 <= i < steps.len() - 1 ==> !destroyed((#[trigger] steps[i]).report)
}

/// The keyframes of a flight come in the order of their ticks. There is one on
/// every multiple of the keyframe interval and on a tick that destroys the
/// ship, and none on any other.
pub proof fn frames_fall_due(level: LevelView, start: u32, steps: Seq<Step>, n: int)
    requires
        unbroken(start, steps),
        0 <= n <= steps.len(),
    ensures
        ({
            let f = frames(level, start, steps, n);
            &&& forall|i: int, j: int|
                0 <= i < j < f.len() ==> (#[trigger] f[i]).tick < (#[trigger] f[j]).tick
            &&& forall|i: int| 0 <= i < f.len() ==> start < (#[trigger] f[i]).tick <= start + n
            &&& forall|i: int|
                0 <= i < f.len() ==> frame_due(start, steps, (#[trigger] f[i]).tick - start)
                    && frame_of(level, start, steps, f[i].tick - start) == Some(f[i])
            &&& forall|k: int|
                1 <= k <= n && #[trigger] frame_due(start, steps, k) ==> exists|i: int|
                    0 <= i < f.len() && (#[trigger] f[i]).tick == start + k
        }),
    decreases n,
{
    if n > 0 {
        frames_fall_due(level, start, steps, n - 1);
        let g = frames(level, start, steps, n - 1);
        let f = frames(level, start, steps, n);
        match frame_of(level, start, steps, n) {
            Some(kf) => {
                assert(kf.tick == start + n);
                assert(f[g.len() as int] == kf);
                assert forall|i: int| 0 <= i < f.len() implies frame_due(start, steps, (#[trigger] f[i]).tick - start)
                    && frame_of(level, start, steps, f[i].tick - start) == Some(f[i]) by {
                    if i < g.len() {
                        assert(f[i] == g[i]);
                    }
                }
                assert forall|k: int| 1 <= k <= n && #[trigger] frame_due(start, steps, k) implies exists|i: int|
                    0 <= i < f.len() && (#[trigger] f[i]).tick == start + k by {
                    if k < n {
                        let i = choose|i: int| 0 <= i < g.len() && (#[trigger] g[i]).tick == start + k;
                        assert(f[i] == g[i]);
                    }
                }
            },
            None => {
                assert(!frame_due(start, steps, n));
            },
        }
    }
}

/// The keyframe of a destroying tick shows no settling time; every other
/// shows the run as it is.
pub proof fn the_last_frame_is_of_a_wreck(level: LevelView, start: u32, steps: Seq<Step>, n: int)
    requires
        0 < n <= steps.len(),
        start + steps.len() <= u32::MAX,
        destroyed(steps[n - 1].report),
    ensures
        frame_of(level, start, steps, n) matches Some(kf) && kf.tick == start + n && kf.land_timer == fl(0)
            && kf.hull == steps[n - 1].run.hull,
{
}

/// The same keyframes but for the glow, which is the pilot's to see and not the
/// run's.
pub open spec fn same_but_glow(a: Seq<Keyframe>, b: Seq<Keyframe>) -> bool {
    a.len() == b.len() && forall|i: int|
        0 <= i < a.len() ==> (#[trigger] a[i]) == (Keyframe { glow: a[i].glow, ..b[i] })
}

/// Where two flights go alike tick by tick, as a recorded one and its
/// repetition do, they give the same keyframes, as many and in the same order,
/// but for the glow; and that too, where it is the same.
pub proof fn repetitions_give_the_same_frames(level: LevelView, start: u32, a: Seq<Step>, b: Seq<Step>, n: int)
    requires
        a.len() == b.len(),
        0 <= n <= a.len(),
        forall|i: int|
            0 <= i < a.len() ==> alike(level, (#[trigger] a[i]).run, b[i].run) && a[i].report.impact
                == b[i].report.impact && a[i].after == b[i].after,
    ensures
        same_but_glow(frames(level, start, a, n), frames(level, start, b, n)),
        (forall|i: int| 0 <= i < a.len() ==> (#[trigger] a[i]).glow == b[i].glow) ==> frames(
            level,
            start,
            a,
            n,
        ) == frames(level, start, b, n),
    decreases n,
{
    if n > 0 {
        repetitions_give_the_same_frames(level, start, a, b, n - 1);
        assert(alike(level, a[n - 1].run, b[n - 1].run));
        lemma_same_mask(level, a[n - 1].run.visited, b[n - 1].run.visited);
        match (frame_of(level, start, a, n), frame_of(level, start, b, n)) {
            (Some(x), Some(y)) => {
                assert(x == (Keyframe { glow: x.glow, ..y }));
            },
            _ => {},
        }
    }
}

} // verus!
