//! Deterministic lander simulation core.

pub mod big;
pub mod binary32;
pub mod cave;
pub mod colliders;
pub mod laws;
pub mod level;
pub mod obstacle;
pub mod pad;
pub mod parse;
pub mod replay;
pub mod resim;
pub mod rng;
pub mod rules;
pub mod run;
pub mod scene;
pub mod scenery;
pub mod shaft;
pub mod sim;
pub mod slots;
pub mod terrain;
pub mod text;
pub mod visits;
