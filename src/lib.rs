//! Deterministic flocking agents with an SIR epidemic, steered by small
//! per-state neural policies that a cross-entropy trainer refines.
//!
//! All quantities are fixed-point integers (see `fixed`), so every step of a
//! run is exact and reproducible.
use vstd::prelude::*;

pub mod cem;
pub mod fixed;
pub mod grid;
pub mod history;
pub mod models;
pub mod policy;
pub mod rng;
pub mod sim;

verus! {

} // verus!
