//! Board simulation and replay engine of a falling-block puzzle game.
use vstd::prelude::*;

pub mod kinds;
pub mod tables;
pub mod matrix;
pub mod queue;
pub mod controller;
pub mod update;
pub mod record;
pub mod replay;

verus! {

} // verus!
