//! Laws of a run.

use crate::binary32::order::{f_eq, f_le, f_lt};
use crate::binary32::{fl, F32};
use crate::cave::Wave;
use crate::level::LevelView;
use crate::pad::PAD_POINTS;
use crate::replay::InputState;
use crate::rules::SimParams;
use crate::run::{
    begun, burnt, command, ended, flown, fuel_cap, hull_cap, impact, landed, live, pad_under, park,
    report, rested, spawn_fuel, steering, Command, Motion, Park, RunView,
};
use crate::scenery::Pad;
use crate::slots::{Key, Loaded};
use vstd::prelude::*;

verus! {

/// A run that is over stays over. Its controls do nothing, and its clock and
/// its distance stand still, wherever the ship goes.
pub proof fn over_is_over(
    r: RunView,
    level: LevelView,
    rules: SimParams,
    pads: Seq<Loaded<Pad>>,
    input: InputState,
    m: Motion,
    bearing: F32,
    after: Motion,
)
    requires
        !live(r),
    ensures
        begun(r, rules, input, m, bearing) == r,
        ended(r, level, rules, pads, after).run_ticks == r.run_ticks,
        ended(r, level, rules, pads, after).max_dist == r.max_dist,
        !live(ended(r, level, rules, pads, after)),
        r.crashed ==> ended(r, level, rules, pads, after).crashed,
        r.completed ==> ended(r, level, rules, pads, after).completed,
{
}

/// A wreck keeps its fuel, its hull, its score and its visits.
pub proof fn wreck_is_inert(r: RunView, level: LevelView, rules: SimParams, pads: Seq<Loaded<Pad>>, after: Motion)
    requires
        r.crashed,
    ensures
        ended(r, level, rules, pads, after).fuel == r.fuel,
        ended(r, level, rules, pads, after).hull == r.hull,
        ended(r, level, rules, pads, after).score == r.score,
        ended(r, level, rules, pads, after).visited == r.visited,
        ended(r, level, rules, pads, after).completed == r.completed,
        park(r, level, rules, pads, after) == Park::No,
{
}

/// Every tick of a live run counts, and counts once.
pub proof fn clock_counts_ticks(
    r: RunView,
    level: LevelView,
    rules: SimParams,
    pads: Seq<Loaded<Pad>>,
    input: InputState,
    m: Motion,
    bearing: F32,
    after: Motion,
)
    ensures
        ended(begun(r, rules, input, m, bearing), level, rules, pads, after).run_ticks
            == r.run_ticks + if live(r) {
            1int
        } else {
            0
        },
{
}

/// On a level with a time limit, a live run that nothing else ends is ended on
/// the very tick on which its clock reaches the limit, and on no earlier one.
pub proof fn time_limit_is_exact(
    r: RunView,
    level: LevelView,
    rules: SimParams,
    pads: Seq<Loaded<Pad>>,
    input: InputState,
    m: Motion,
    bearing: F32,
    after: Motion,
)
    requires
        live(r),
        level.time_limit_ticks > 0,
    ensures
        ({
            let b = begun(r, rules, input, m, bearing);
            let e = ended(b, level, rules, pads, after);
            let d = rested(flown(b, level, rules, after), level, rules, pad_under(pads, rules, after));
            &&& (park(b, level, rules, pads, after) == Park::Finish) == (live(d) && r.run_ticks + 1
                >= level.time_limit_ticks)
            &&& live(d) && r.run_ticks + 1 >= level.time_limit_ticks ==> e.completed && report(
                b,
                level,
                rules,
                pads,
                after,
                fl(0),
            ).completed
            &&& r.run_ticks + 1 < level.time_limit_ticks ==> e.completed == d.completed
        }),
{
}

/// A finished run parks at rest: the motion of the last tick is not taken for
/// an impact on the next.
pub proof fn finish_forgets_motion(r: RunView, level: LevelView, rules: SimParams, pads: Seq<Loaded<Pad>>, after: Motion)
    requires
        park(r, level, rules, pads, after) == Park::Finish,
    ensures
        ended(r, level, rules, pads, after).completed,
        ended(r, level, rules, pads, after).prev_vx == fl(0),
        ended(r, level, rules, pads, after).prev_vy == fl(0),
{
}

/// Once a run is complete, no tick reports completion again unless it brings a
/// first visit.
pub proof fn completion_fires_once(
    r: RunView,
    level: LevelView,
    rules: SimParams,
    pads: Seq<Loaded<Pad>>,
    after: Motion,
    torque: F32,
)
    requires
        r.completed,
        match pad_under(pads, rules, after) {
            Some(key) => r.visited.contains(key),
            None => true,
        },
    ensures
        !report(r, level, rules, pads, after, torque).completed,
        park(r, level, rules, pads, after) != Park::Finish,
{
}

/// What a report says of completion is what became of the run.
pub proof fn completion_is_reported(
    r: RunView,
    level: LevelView,
    rules: SimParams,
    pads: Seq<Loaded<Pad>>,
    after: Motion,
    torque: F32,
)
    ensures
        report(r, level, rules, pads, after, torque).completed ==> ended(
            r,
            level,
            rules,
            pads,
            after,
        ).completed,
        !r.completed && ended(r, level, rules, pads, after).completed ==> report(
            r,
            level,
            rules,
            pads,
            after,
            torque,
        ).completed,
{
}

/// An impact that destroys the ship comes before everything else on its tick:
/// no landing, no finish. The hull is gone and the settling time with it.
pub proof fn destruction_wins(
    r: RunView,
    level: LevelView,
    rules: SimParams,
    pads: Seq<Loaded<Pad>>,
    after: Motion,
    torque: F32,
)
    requires
        impact(r, level, rules, after) is Some,
        impact(r, level, rules, after)->0.destroyed,
    ensures
        ended(r, level, rules, pads, after).crashed,
        ended(r, level, rules, pads, after).hull == fl(0),
        ended(r, level, rules, pads, after).land_timer == fl(0),
        ended(r, level, rules, pads, after).completed == r.completed,
        ended(r, level, rules, pads, after).visited == r.visited,
        park(r, level, rules, pads, after) == Park::Wreck,
        !report(r, level, rules, pads, after, torque).landed,
        !report(r, level, rules, pads, after, torque).completed,
        !report(r, level, rules, pads, after, torque).fuel_out,
{
}

/// A whole ship is wrecked by an impact and by nothing else, and that impact
/// is reported.
pub proof fn only_impacts_wreck(
    r: RunView,
    level: LevelView,
    rules: SimParams,
    pads: Seq<Loaded<Pad>>,
    after: Motion,
    torque: F32,
)
    requires
        !r.crashed,
        ended(r, level, rules, pads, after).crashed,
    ensures
        report(r, level, rules, pads, after, torque).impact is Some,
        report(r, level, rules, pads, after, torque).impact->0.destroyed,
{
}

/// With an empty tank neither engine nor booster nor steering does anything,
/// and what is in the tank stays what it is: nothing.
pub proof fn empty_tank_is_dead(
    r: RunView,
    level: LevelView,
    rules: SimParams,
    w: spec_fn(Wave, F32) -> F32,
    input: InputState,
    m: Motion,
    bearing: F32,
)
    requires
        live(r),
        f_eq(r.fuel, fl(0)),
    ensures
        command(r, level, rules, w, input, m, bearing) == (Command {
            thrust: None,
            booster: None,
            torque: None,
        }),
        f_eq(begun(r, rules, input, m, bearing).fuel, fl(0)),
{
}

/// After the controls of a live tick the tank holds nothing or more, whatever
/// was burnt.
pub proof fn fuel_never_negative(r: RunView, rules: SimParams, input: InputState, m: Motion, bearing: F32)
    requires
        live(r),
    ensures
        f_le(fl(0), begun(r, rules, input, m, bearing).fuel),
{
}

/// A landing never fills tank or hull beyond what they take.
pub proof fn landing_respects_caps(r: RunView, level: LevelView, rules: SimParams, key: Key)
    requires
        !fuel_cap(level, rules).nan(),
        !hull_cap(level, rules).nan(),
    ensures
        f_le(landed(r, level, rules, key).fuel, fuel_cap(level, rules)),
        f_le(landed(r, level, rules, key).hull, hull_cap(level, rules)),
{
}

/// No level spawns a ship with more fuel than its tank takes.
pub proof fn spawn_respects_tank(level: LevelView, rules: SimParams)
    requires
        !fuel_cap(level, rules).nan(),
    ensures
        f_le(spawn_fuel(level, rules), fuel_cap(level, rules)),
{
}

/// The score goes up by one pad's points on a first visit of a level that is
/// scored by pads, and never moves otherwise; a visit is never forgotten.
pub proof fn score_is_first_visits(r: RunView, level: LevelView, rules: SimParams, pads: Seq<Loaded<Pad>>, after: Motion)
    ensures
        ({
            let e = ended(r, level, rules, pads, after);
            &&& r.visited.subset_of(e.visited)
            &&& e.score == r.score || e.score == r.score + PAD_POINTS
            &&& e.score == r.score + PAD_POINTS <==> level.scoring is Pads && e.visited != r.visited
        }),
{
    let f = flown(r, level, rules, after);
    let e = ended(r, level, rules, pads, after);
    match pad_under(pads, rules, after) {
        Some(key) => {
            if r.visited.contains(key) {
                assert(r.visited.insert(key) =~= r.visited);
            } else {
                assert(r.visited.insert(key).contains(key));
            }
        },
        None => {},
    }
}

/// A tank that is not empty at the end of a tick clears the clock that ends a
/// dry run.
pub proof fn fuel_cancels_the_end(
    r: RunView,
    level: LevelView,
    rules: SimParams,
    pads: Seq<Loaded<Pad>>,
    after: Motion,
    torque: F32,
)
    requires
        !ended(r, level, rules, pads, after).crashed,
        f_lt(fl(0), ended(r, level, rules, pads, after).fuel),
        f_lt(fl(0), rules.fuel_out_end_secs),
    ensures
        ended(r, level, rules, pads, after).fuel_out_timer == fl(0),
        !report(r, level, rules, pads, after, torque).fuel_out,
{
}

} // verus!
