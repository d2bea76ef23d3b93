//! Rulesets: every number that a run is flown under, and the registry of the
//! rulesets that were ever in play.

use crate::binary32::order::f_eq;
use crate::binary32::{fl, F32};
use crate::cave::ONE;
use crate::parse::PHYSICS_DT;
use vstd::prelude::*;

verus! {

/// `-1.62`: gravity.
pub const GRAVITY_Y: u32 = 0xbfcf_5c29;

/// `8`: the main engine at full throttle.
pub const THRUST_FORCE: u32 = 0x4100_0000;

/// `0.2`: drag on the ship.
pub const LINEAR_DAMPING: u32 = 0x3e4c_cccd;

/// `3`: drag on its turning.
pub const ANGULAR_DAMPING: u32 = 0x4040_0000;

/// `3.3`: a side booster.
pub const RCS_FORCE: u32 = 0x4053_3333;

/// `14`: torque per radian off the commanded heading.
pub const HEADING_KP: u32 = 0x4160_0000;

/// `2.2`: torque against each radian per second.
pub const HEADING_KD: u32 = 0x400c_cccd;

/// `6`: the most torque that steering applies.
pub const HEADING_TORQUE_MAX: u32 = 0x40c0_0000;

/// `100`: a full tank.
pub const FUEL_MAX: u32 = 0x42c8_0000;

/// `3.5`: fuel per second at full throttle.
pub const FUEL_BURN_MAIN: u32 = 0x4060_0000;

/// `1.2`: fuel per second of a side booster.
pub const FUEL_BURN_RCS: u32 = 0x3f99_999a;

/// `2.5`: the velocity jump from which the hull suffers.
pub const CRASH_DV_SOFT: u32 = 0x4020_0000;

/// `6`: the velocity jump that destroys the ship.
pub const CRASH_DV_HARD: u32 = 0x40c0_0000;

/// `100`: an intact hull.
pub const HULL_MAX: u32 = 0x42c8_0000;

/// `0.8`: seconds to settle on a pad.
pub const PAD_LAND_TIME: u32 = 0x3f4c_cccd;

/// `25`: fuel per second on a pad.
pub const PAD_REFUEL_PER_S: u32 = 0x41c8_0000;

/// `20`: hull per second on a pad.
pub const HULL_REPAIR_PER_S: u32 = 0x41a0_0000;

/// `2.5`: seconds from an empty tank to the end of the run.
pub const FUEL_OUT_END_SECS: u32 = 0x4020_0000;

/// `0.4`: seconds to settle under the second ruleset.
pub const QUICK_LAND_TIME: u32 = 0x3ecc_cccd;

/// The numbers of one ruleset, as a recording's header holds them.
#[derive(Clone, Copy, PartialEq, Eq, Debug, Structural)]
pub struct SimParams {
    pub dt: F32,
    pub gravity_y: F32,
    pub thrust_force: F32,
    pub linear_damping: F32,
    pub angular_damping: F32,
    pub rcs_force: F32,
    pub heading_kp: F32,
    pub heading_kd: F32,
    pub heading_torque_max: F32,
    pub fuel_max: F32,
    pub fuel_burn_main: F32,
    pub fuel_burn_rcs: F32,
    pub crash_dv_soft: F32,
    pub crash_dv_hard: F32,
    pub hull_max: F32,
    pub pad_land_time: F32,
    pub pad_refuel_per_s: F32,
    pub hull_repair_per_s: F32,
    pub fuel_out_end_secs: F32,
    pub land_rule: F32,
    pub ship_sleep: F32,
    pub min_logic: u16,
}

/// Equal as numbers, field by field.
pub open spec fn same_rules(a: SimParams, b: SimParams) -> bool {
    &&& f_eq(a.dt, b.dt)
    &&& f_eq(a.gravity_y, b.gravity_y)
    &&& f_eq(a.thrust_force, b.thrust_force)
    &&& f_eq(a.linear_damping, b.linear_damping)
    &&& f_eq(a.angular_damping, b.angular_damping)
    &&& f_eq(a.rcs_force, b.rcs_force)
    &&& f_eq(a.heading_kp, b.heading_kp)
    &&& f_eq(a.heading_kd, b.heading_kd)
    &&& f_eq(a.heading_torque_max, b.heading_torque_max)
    &&& f_eq(a.fuel_max, b.fuel_max)
    &&& f_eq(a.fuel_burn_main, b.fuel_burn_main)
    &&& f_eq(a.fuel_burn_rcs, b.fuel_burn_rcs)
    &&& f_eq(a.crash_dv_soft, b.crash_dv_soft)
    &&& f_eq(a.crash_dv_hard, b.crash_dv_hard)
    &&& f_eq(a.hull_max, b.hull_max)
    &&& f_eq(a.pad_land_time, b.pad_land_time)
    &&& f_eq(a.pad_refuel_per_s, b.pad_refuel_per_s)
    &&& f_eq(a.hull_repair_per_s, b.hull_repair_per_s)
    &&& f_eq(a.fuel_out_end_secs, b.fuel_out_end_secs)
    &&& f_eq(a.land_rule, b.land_rule)
    &&& f_eq(a.ship_sleep, b.ship_sleep)
    &&& a.min_logic == b.min_logic
}

/// The first ruleset.
pub open spec fn first_rules() -> SimParams {
    SimParams {
        dt: fl(PHYSICS_DT),
        gravity_y: fl(GRAVITY_Y),
        thrust_force: fl(THRUST_FORCE),
        linear_damping: fl(LINEAR_DAMPING),
        angular_damping: fl(ANGULAR_DAMPING),
        rcs_force: fl(RCS_FORCE),
        heading_kp: fl(HEADING_KP),
        heading_kd: fl(HEADING_KD),
        heading_torque_max: fl(HEADING_TORQUE_MAX),
        fuel_max: fl(FUEL_MAX),
        fuel_burn_main: fl(FUEL_BURN_MAIN),
        fuel_burn_rcs: fl(FUEL_BURN_RCS),
        crash_dv_soft: fl(CRASH_DV_SOFT),
        crash_dv_hard: fl(CRASH_DV_HARD),
        hull_max: fl(HULL_MAX),
        pad_land_time: fl(PAD_LAND_TIME),
        pad_refuel_per_s: fl(PAD_REFUEL_PER_S),
        hull_repair_per_s: fl(HULL_REPAIR_PER_S),
        fuel_out_end_secs: fl(FUEL_OUT_END_SECS),
        land_rule: fl(0),
        ship_sleep: fl(ONE),
        min_logic: 1,
    }
}

/// The second ruleset: the first, with a settling time of half, both feet
/// needed on the deck, and a ship that never sleeps.
pub open spec fn second_rules() -> SimParams {
    SimParams {
        pad_land_time: fl(QUICK_LAND_TIME),
        land_rule: fl(ONE),
        ship_sleep: fl(0),
        min_logic: 2,
        ..first_rules()
    }
}

/// Every ruleset in order; the number of one is its place plus 1.
pub open spec fn registry() -> Seq<SimParams> {
    seq![first_rules(), second_rules()]
}

/// `p` is the first ruleset of the registry that equals `params`.
pub open spec fn is_ruleset(params: SimParams, p: int) -> bool {
    &&& 0 <= p < registry().len()
    &&& same_rules(registry()[p], params)
    &&& forall|q: int| 0 <= q < p ==> !same_rules(#[trigger] registry()[q], params)
}

fn same_params(a: &SimParams, b: &SimParams) -> (r: bool)
    ensures
        r == same_rules(*a, *b),
{
    a.dt.same(b.dt)
        && a.gravity_y.same(b.gravity_y)
        && a.thrust_force.same(b.thrust_force)
        && a.linear_damping.same(b.linear_damping)
        && a.angular_damping.same(b.angular_damping)
        && a.rcs_force.same(b.rcs_force)
        && a.heading_kp.same(b.heading_kp)
        && a.heading_kd.same(b.heading_kd)
        && a.heading_torque_max.same(b.heading_torque_max)
        && a.fuel_max.same(b.fuel_max)
        && a.fuel_burn_main.same(b.fuel_burn_main)
        && a.fuel_burn_rcs.same(b.fuel_burn_rcs)
        && a.crash_dv_soft.same(b.crash_dv_soft)
        && a.crash_dv_hard.same(b.crash_dv_hard)
        && a.hull_max.same(b.hull_max)
        && a.pad_land_time.same(b.pad_land_time)
        && a.pad_refuel_per_s.same(b.pad_refuel_per_s)
        && a.hull_repair_per_s.same(b.hull_repair_per_s)
        && a.fuel_out_end_secs.same(b.fuel_out_end_secs)
        && a.land_rule.same(b.land_rule)
        && a.ship_sleep.same(b.ship_sleep)
        && a.min_logic == b.min_logic
}

pub fn ruleset_v1() -> (r: SimParams)
    ensures
        r == first_rules(),
{
    SimParams {
        dt: fl(PHYSICS_DT),
        gravity_y: fl(GRAVITY_Y),
        thrust_force: fl(THRUST_FORCE),
        linear_damping: fl(LINEAR_DAMPING),
        angular_damping: fl(ANGULAR_DAMPING),
        rcs_force: fl(RCS_FORCE),
        heading_kp: fl(HEADING_KP),
        heading_kd: fl(HEADING_KD),
        heading_torque_max: fl(HEADING_TORQUE_MAX),
        fuel_max: fl(FUEL_MAX),
        fuel_burn_main: fl(FUEL_BURN_MAIN),
        fuel_burn_rcs: fl(FUEL_BURN_RCS),
        crash_dv_soft: fl(CRASH_DV_SOFT),
        crash_dv_hard: fl(CRASH_DV_HARD),
        hull_max: fl(HULL_MAX),
        pad_land_time: fl(PAD_LAND_TIME),
        pad_refuel_per_s: fl(PAD_REFUEL_PER_S),
        hull_repair_per_s: fl(HULL_REPAIR_PER_S),
        fuel_out_end_secs: fl(FUEL_OUT_END_SECS),
        land_rule: fl(0),
        ship_sleep: fl(ONE),
        min_logic: 1,
    }
}

pub fn ruleset_v2() -> (r: SimParams)
    ensures
        r == second_rules(),
{
    let first: SimParams = ruleset_v1();
    SimParams {
        pad_land_time: fl(QUICK_LAND_TIME),
        land_rule: fl(ONE),
        ship_sleep: fl(0),
        min_logic: 2,
        ..first
    }
}

/// The ruleset of live play.
pub fn sim_params() -> (r: SimParams)
    ensures
        r == registry().last(),
{
    ruleset_v2()
}

/// The registry.
pub fn rulesets() -> (r: Vec<SimParams>)
    ensures
        r@ == registry(),
{
    let mut r: Vec<SimParams> = Vec::new();
    r.push(ruleset_v1());
    r.push(ruleset_v2());
    assert(r@ =~= registry());
    r
}

/// The number of a ruleset in the registry, counted from 1.
pub fn ruleset_number(params: &SimParams) -> (r: Option<u16>)
    ensures
        match r {
            Some(n) => is_ruleset(*params, n - 1),
            None => forall|q: int| 0 <= q < registry().len() ==> !same_rules(#[trigger] registry()[q], *params),
        },
{
    let all: Vec<SimParams> = rulesets();
    let mut i: usize = 0;
    while i < all.len()
        invariant
            i <= all@.len(),
            all@ == registry(),
            forall|q: int| 0 <= q < i ==> !same_rules(#[trigger] registry()[q], *params),
        decreases all.len() - i,
    {
        if same_params(&all[i], params) {
            return Some(i as u16 + 1);
        }
        i = i + 1;
    }
    None
}

/// The registry knows its own: the ruleset at place `i` has number `i + 1`.
pub proof fn registered_ruleset(i: int)
    requires
        0 <= i < registry().len(),
    ensures
        is_ruleset(registry()[i], i),
{
}

/// A ruleset has one number at most.
pub proof fn one_number(params: SimParams, a: int, b: int)
    requires
        is_ruleset(params, a),
        is_ruleset(params, b),
    ensures
        a == b,
{
}

} // verus!
