//! The tick of a sphere-body simulation: a run state that gates each tick,
//! and the gravity, integration and collision passes over the registry of
//! bodies, with the order in which they visit bodies and pairs of bodies.
pub mod schedule;
pub mod state;
pub mod systems;
