//! Recordings: the inputs of a run, and snapshots of it along the way.

use crate::binary32::{fl, F32};
use crate::cave::{steady, wave_of, Wave, ONE};
use crate::level::{Level, LevelParams, LevelView};
use crate::rules::{SimParams, FUEL_MAX, HULL_MAX};
use vstd::prelude::*;

verus! {

/// Ticks between two keyframes of a recording.
pub const KEYFRAME_EVERY: u32 = 120;

/// The controls of one tick: the main engine's throttle, the side boosters
/// (negative, none or positive), and a stick to steer by.
#[derive(Clone, Copy, PartialEq, Eq, Debug, Structural)]
pub struct InputState {
    pub throttle: F32,
    pub rot: i8,
    pub steer_x: F32,
    pub steer_y: F32,
}

/// Hands off.
pub open spec fn idle() -> InputState {
    InputState { throttle: fl(0), rot: 0, steer_x: fl(0), steer_y: fl(0) }
}

impl Default for InputState {
    fn default() -> (r: InputState)
        ensures
            r == idle(),
    {
        InputState { throttle: fl(0), rot: 0, steer_x: fl(0), steer_y: fl(0) }
    }
}

/// From tick `tick` on, the controls are `input`.
#[derive(Clone, Copy, PartialEq, Eq, Debug, Structural)]
pub struct InputEvent {
    pub tick: u32,
    pub input: InputState,
}

/// A snapshot of a run. The heading is a unit complex number.
#[derive(Clone, Copy, PartialEq, Eq, Debug, Structural)]
pub struct Keyframe {
    pub tick: u32,
    pub x: F32,
    pub y: F32,
    pub rot_re: F32,
    pub rot_im: F32,
    pub vx: F32,
    pub vy: F32,
    pub angvel: F32,
    pub fuel: F32,
    pub hull: F32,
    pub glow: F32,
    pub land_timer: F32,
    pub visited: u64,
    pub run_ticks: u32,
}

/// A recorded run.
#[derive(Debug)]
pub struct Recording {
    pub params: SimParams,
    pub level: LevelParams,
    pub keyframes: Vec<Keyframe>,
    pub events: Vec<InputEvent>,
    pub ticks: u32,
}

/// A ship that stands at `x`: upright, still, tank and hull full.
pub open spec fn standing(level: LevelView, w: spec_fn(Wave, F32) -> F32, x: F32) -> Keyframe {
    Keyframe {
        tick: 0,
        x,
        y: level.stand(w, x),
        rot_re: fl(ONE),
        rot_im: fl(0),
        vx: fl(0),
        vy: fl(0),
        angvel: fl(0),
        fuel: fl(FUEL_MAX),
        hull: fl(HULL_MAX),
        glow: fl(0),
        land_timer: fl(0),
        visited: 0,
        run_ticks: 0,
    }
}

/// The keyframe of a spawn at `x`.
pub fn spawn_keyframe<T: Fn(Wave, F32) -> F32>(level: &Level, trig: &T, x: F32) -> (r: Keyframe)
    requires
        steady(*trig),
    ensures
        r == standing(level@, wave_of(*trig), x),
{
    Keyframe {
        tick: 0,
        x,
        y: level.stand_y(trig, x),
        rot_re: fl(ONE),
        rot_im: fl(0),
        vx: fl(0),
        vy: fl(0),
        angvel: fl(0),
        fuel: fl(FUEL_MAX),
        hull: fl(HULL_MAX),
        glow: fl(0),
        land_timer: fl(0),
        visited: 0,
        run_ticks: 0,
    }
}

} // verus!
