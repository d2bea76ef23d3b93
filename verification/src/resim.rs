//! Running a recording again: which controls each tick gets, and which
//! keyframes come out.

use crate::binary32::{fl, F32};
use crate::level::LevelView;
use crate::replay::{idle, InputEvent, InputState, Keyframe, KEYFRAME_EVERY};
use crate::run::{snapshot, visit_mask, Impact, Motion, RunView, TickReport};
use crate::sim::Sim;
use vstd::prelude::*;

verus! {

/// `input` is what the first `n` events, taken in order, leave.
pub open spec fn left_by(events: Seq<InputEvent>, n: int, input: InputState) -> bool {
    &&& 0 <= n <= events.len()
    &&& input == if n == 0 {
        idle()
    } else {
        events[n - 1].input
    }
}

/// The first `n` events, and no more, are due at `tick`: they are taken in
/// order, and the first that lies in the future holds up the rest.
pub open spec fn due(events: Seq<InputEvent>, tick: u32, n: int) -> bool {
    &&& 0 <= n <= events.len()
    &&& forall|i: int| 0 <= i < n ==> (#[trigger] events[i]).tick <= tick
    &&& n < events.len() ==> events[n].tick > tick
}

/// The keyframe of the tick on which the ship was destroyed.
pub open spec fn last_frame(r: RunView, level: LevelView, hit: Impact, tick: u32, glow: F32) -> Keyframe {
    Keyframe {
        tick,
        x: hit.x,
        y: hit.y,
        rot_re: hit.rot_re,
        rot_im: hit.rot_im,
        vx: hit.vx,
        vy: hit.vy,
        angvel: hit.angvel,
        fuel: r.fuel,
        hull: r.hull,
        glow,
        land_timer: fl(0),
        visited: visit_mask(level, r.visited),
        run_ticks: r.run_ticks as u32,
    }
}

/// The tick destroyed the ship.
pub open spec fn destroyed(report: TickReport) -> bool {
    match report.impact {
        Some(hit) => hit.destroyed,
        None => false,
    }
}

/// The keyframe that comes of a tick, if any.
pub open spec fn emitted(
    r: RunView,
    level: LevelView,
    report: TickReport,
    m: Motion,
    done: u32,
    glow: F32,
) -> Option<Keyframe> {
    if destroyed(report) {
        Some(last_frame(r, level, report.impact->0, done, glow))
    } else if done % KEYFRAME_EVERY == 0 {
        Some(snapshot(r, level, m, done, glow))
    } else {
        None
    }
}

/// Where a recording stands while it runs again.
#[derive(Clone, Copy, PartialEq, Eq, Debug, Structural)]
pub struct Playback {
    /// The tick that comes next.
    pub tick: u32,
    /// How many events have been taken.
    pub next: usize,
    pub input: InputState,
    /// The ship was destroyed.
    pub over: bool,
}

impl Playback {
    /// The events taken so far were due, and left the controls as they are.
    pub open spec fn wf(&self, events: Seq<InputEvent>) -> bool {
        &&& left_by(events, self.next as int, self.input)
        &&& forall|i: int| 0 <= i < self.next ==> (#[trigger] events[i]).tick <= self.tick
    }

    /// Before the first tick of a recording that starts at `tick`.
    pub fn start(tick: u32) -> (r: Playback)
        ensures
            r == (Playback { tick, next: 0, input: idle(), over: false }),
            forall|events: Seq<InputEvent>| #[trigger] r.wf(events),
    {
        Playback { tick, next: 0, input: InputState::default(), over: false }
    }

    /// Whether there is another tick.
    pub fn more(&self, ticks: u32) -> (r: bool)
        ensures
            r == (!self.over && self.tick < ticks),
    {
        !self.over && self.tick < ticks
    }

    /// The controls of the next tick.
    pub fn feed(&mut self, events: &Vec<InputEvent>) -> (r: InputState)
        requires
            old(self).wf(events@),
        ensures
            final(self).wf(events@),
            due(events@, final(self).tick, final(self).next as int),
            r == final(self).input,
            final(self).tick == old(self).tick,
            final(self).over == old(self).over,
    {
        while self.next < events.len() && events[self.next].tick <= self.tick
            invariant
                self.wf(events@),
                self.tick == old(self).tick,
                self.over == old(self).over,
            decreases events.len() - self.next,
        {
            self.input = events[self.next].input;
            self.next = self.next + 1;
        }
        self.input
    }

    /// Takes in what a tick did, with the motion after it; gives the keyframe
    /// that is due.
    pub fn take(&mut self, sim: &Sim, report: &TickReport, m: &Motion) -> (r: Option<Keyframe>)
        requires
            old(self).tick < u32::MAX,
        ensures
            r == emitted(
                sim.run(),
                sim.level@,
                *report,
                *m,
                (old(self).tick + 1) as u32,
                old(self).input.throttle,
            ),
            *final(self) == (Playback {
                tick: (old(self).tick + 1) as u32,
                over: old(self).over || destroyed(*report),
                ..*old(self)
            }),
            forall|events: Seq<InputEvent>| old(self).wf(events) ==> #[trigger] final(self).wf(events),
    {
        self.tick = self.tick + 1;
        match report.impact {
            Some(hit) => {
                if hit.destroyed {
                    self.over = true;
                    return Some(
                        Keyframe {
                            tick: self.tick,
                            x: hit.x,
                            y: hit.y,
                            rot_re: hit.rot_re,
                            rot_im: hit.rot_im,
                            vx: hit.vx,
                            vy: hit.vy,
                            angvel: hit.angvel,
                            fuel: sim.fuel,
                            hull: sim.hull,
                            glow: self.input.throttle,
                            land_timer: fl(0),
                            visited: sim.visited_mask(),
                            run_ticks: sim.run_ticks,
                        },
                    );
                }
            },
            None => {},
        }
        if self.tick % KEYFRAME_EVERY == 0 {
            Some(sim.keyframe(m, self.tick, self.input.throttle))
        } else {
            None
        }
    }
}

/// The controls of a tick are settled by the recording alone: there is one
/// number of events that are due.
pub proof fn one_input(events: Seq<InputEvent>, tick: u32, a: int, b: int)
    requires
        due(events, tick, a),
        due(events, tick, b),
    ensures
        a == b,
{
    if a < b {
        assert(events[a].tick <= tick);
    } else if b < a {
        assert(events[b].tick <= tick);
    }
}

} // verus!
