//! What the planners and the executor guarantee, proved from their
//! definitions.

pub mod discipline;
pub mod idempotence;
pub mod links;
pub mod order;
pub mod ownership;
pub mod round_trip;
pub mod unfolding;
