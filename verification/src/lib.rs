//! A bank of lifts serving one building.
//!
//! Each lift is a small state machine: it keeps a strictly ascending queue of
//! floors to stop at, sweeps through that queue in its current direction before
//! reversing, and boards and drops passengers as it arrives. The building hands
//! every new passenger to the lift that is estimated to reach them soonest.
//!
//! Nothing here sleeps or spawns: [`lift::Lift::step`] performs one piece of a
//! lift's cycle and says how long the caller should pause before the next one.

pub mod types;
pub mod order;
pub mod chance;
pub mod targets;
pub mod label;
pub mod lift;
pub mod building;
