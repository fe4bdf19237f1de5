//! Authoritative multiplayer-position server core.
//!
//! The library holds everything the coordinator decides: world-boundary
//! clamping, per-command validation, the player-state machine driven by a
//! totally ordered command queue, id allocation, and the textual wire codec
//! for the client-facing messages. Transport, clocks and channels live in the
//! surrounding application, which feeds events and timestamps in as plain
//! values.

pub mod codec;
pub mod game;
pub mod messages;
pub mod registry;
pub mod rules;
