//! A deterministic, turn-based production simulation: named resources with
//! stable integer handles, recipes that convert resource quantities over a
//! fixed number of ticks, and an inventory that each successful step rewrites
//! atomically.
//!
//! Quantities are exact non-negative rationals, so sufficiency comparisons
//! and fractional per-tick accumulation carry no rounding error.

pub mod errors;
pub mod game;
pub mod parse;
pub mod qty;
pub mod recipe;
pub mod resources;
pub mod state;
