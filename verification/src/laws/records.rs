//! Laws of what a keyframe and a recording's header say.

use crate::binary32::facts::lemma_units_zero;
use crate::binary32::F32;
use crate::cave::Wave;
use crate::laws::caves::{lemma_const, lemma_grain, lemma_one};
use crate::laws::errors::one;
use crate::level::{LevelView, ParamsView, Scoring};
use crate::replay::{standing, Keyframe};
use crate::resim::{destroyed, emitted};
use crate::rules::FUEL_MAX;
use crate::run::{restored, Motion, RunView, TickReport};
use vstd::arithmetic::power2::lemma2_to64;
use vstd::prelude::*;

verus! {

/// A keyframe tells where the ship was, which way it faced and how it moved.
pub open spec fn tells_motion(kf: Keyframe, x: F32, y: F32, rot_re: F32, rot_im: F32, vx: F32, vy: F32, angvel: F32) -> bool {
    &&& kf.x == x && kf.y == y
    &&& kf.rot_re == rot_re && kf.rot_im == rot_im
    &&& kf.vx == vx && kf.vy == vy && kf.angvel == angvel
}

/// Every 120th tick gives a keyframe that tells the ship's motion after it, what
/// is left of tank and hull, and how long it has stood; the tick that destroys
/// the ship gives one that tells its motion on impact, and no time of standing.
/// No other tick gives one.
pub proof fn keyframes_tell_the_flight(r: RunView, level: LevelView, report: TickReport, m: Motion, done: u32, glow: F32)
    ensures
        ({
            let kf = emitted(r, level, report, m, done, glow);
            &&& kf is Some <==> destroyed(report) || done as int % 120 == 0
            &&& match kf {
                Some(kf) => {
                    &&& kf.tick == done && kf.glow == glow
                    &&& kf.fuel == r.fuel && kf.hull == r.hull
                    &&& 0 <= r.run_ticks <= u32::MAX ==> kf.run_ticks == r.run_ticks
                    &&& match report.impact {
                        Some(hit) if hit.destroyed => tells_motion(
                            kf,
                            hit.x,
                            hit.y,
                            hit.rot_re,
                            hit.rot_im,
                            hit.vx,
                            hit.vy,
                            hit.angvel,
                        ) && kf.land_timer.bits == 0,
                        _ => tells_motion(kf, m.x, m.y, m.rot_re, m.rot_im, m.vx, m.vy, m.angvel)
                            && kf.land_timer == r.land_timer,
                    }
                },
                None => true,
            }
        }),
{
}

/// A run that is taken up at a keyframe has the keyframe's tank, hull, clock,
/// time of standing and velocity, has come as far as the keyframe is from the
/// start, and is no wreck. The score stays.
pub proof fn keyframes_are_taken_up(r: RunView, level: LevelView, kf: Keyframe)
    requires
        kf.x.finite(),
    ensures
        ({
            let n = restored(r, level, kf);
            &&& n.fuel == kf.fuel && n.hull == kf.hull
            &&& n.run_ticks == kf.run_ticks && n.land_timer == kf.land_timer
            &&& n.prev_vx == kf.vx && n.prev_vy == kf.vy
            &&& n.max_dist.finite() && n.max_dist.val() == if kf.x.val() < 0 {
                -kf.x.val()
            } else {
                kf.x.val()
            }
            &&& !n.crashed && n.score == r.score && n.fuel_out_timer.bits == 0
        }),
{
}

/// A ship starts upright and still, where it stands, with 100 in the tank and a
/// hull of 100, and no pad visited.
pub proof fn starts_are_still(level: LevelView, w: spec_fn(Wave, F32) -> F32, x: F32)
    ensures
        ({
            let kf = standing(level, w, x);
            &&& kf.x == x && kf.y == level.stand(w, x)
            &&& kf.rot_re.finite() && kf.rot_re.val() == one()
            &&& kf.rot_im.finite() && kf.rot_im.val() == 0
            &&& kf.vx.val() == 0 && kf.vy.val() == 0 && kf.angvel.val() == 0
            &&& kf.fuel.finite() && kf.fuel.val() == 100 * one()
            &&& kf.hull.finite() && kf.hull.val() == 100 * one()
            &&& kf.tick == 0 && kf.run_ticks == 0 && kf.visited == 0 && kf.land_timer.val() == 0
        }),
{
    lemma_units_zero();
    lemma_one();
    lemma_grain();
    lemma2_to64();
    lemma_const(FUEL_MAX, 0xc8_0000, 12, 0xc_8000_0000);
}

/// A header numbers the scoring 0 for pads, 1 for distance and 2 for time, and a
/// switch 1 for on and 0 for off; its other fields are the level's.
pub proof fn headers_tell_the_level(l: LevelView)
    ensures
        ({
            let h = l.params();
            &&& h.scoring == 0 <==> l.scoring == Scoring::Pads
            &&& h.scoring == 1 <==> l.scoring == Scoring::Distance
            &&& h.scoring == 2 <==> l.scoring == Scoring::Time
            &&& h.shafts == 1 <==> l.shafts
            &&& h.shafts == 0 <==> !l.shafts
            &&& h.obstacles == 1 <==> l.obstacles
            &&& h.obstacles == 0 <==> !l.obstacles
            &&& h.endless == 1 <==> l.endless
            &&& h.endless == 0 <==> !l.endless
            &&& h.pad_spacing == l.pad_spacing && h.seed == l.seed && h.terrain == l.terrain
            &&& h.time_limit_ticks == l.time_limit_ticks && h.goal_distance == l.goal_distance
            &&& h.fuel_max == l.fuel_max && h.start_fuel == l.start_fuel && h.hull_max == l.hull_max
            &&& h.gravity_y == l.gravity_y && h.thrust_force == l.thrust_force && h.refuel_per_s
                == l.refuel_per_s
        }),
{
}

/// A header is read by the same numbers; shafts and boulders are only where no
/// terrain is drawn, and a number that no scoring has stands for pads.
pub proof fn headers_are_read(h: ParamsView)
    ensures
        ({
            let l = h.level();
            &&& l.scoring == Scoring::Distance <==> h.scoring == 1
            &&& l.scoring == Scoring::Time <==> h.scoring == 2
            &&& l.shafts <==> h.shafts != 0 && h.terrain is None
            &&& l.obstacles <==> h.obstacles != 0 && h.terrain is None
            &&& l.endless <==> h.endless != 0
            &&& l.pad_spacing == h.pad_spacing && l.seed == h.seed && l.terrain == h.terrain
            &&& l.time_limit_ticks == h.time_limit_ticks && l.goal_distance == h.goal_distance
            &&& l.fuel_max == h.fuel_max && l.start_fuel == h.start_fuel && l.hull_max == h.hull_max
            &&& l.gravity_y == h.gravity_y && l.thrust_force == h.thrust_force && l.refuel_per_s
                == h.refuel_per_s
            &&& !l.random_seed
        }),
{
}

} // verus!
