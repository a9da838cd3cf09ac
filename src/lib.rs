//! Simulation core of a side-scrolling reflex game: a falling body that
//! jumps through a stream of gap obstacles, scoring once per obstacle cleared.
//!
//! All quantities are exact integers:
//! - lengths and positions are in micro-units (a millionth of a world unit),
//! - vertical velocity is in milli-units per second,
//! - time is in milliseconds,
//! so that a velocity times a duration is a length with no rounding.

pub mod geometry;
pub mod state;
pub mod physics;
pub mod timer;
pub mod random;
pub mod obstacles;
pub mod world;
