//! Authoritative server core for a grid-based multiplayer snake arena.
//!
//! The world model (players, snakes, food, leaderboard), the per-tick update
//! rules (movement, collision, growth, death, respawn), the wire codec for
//! client/server messages, and the message bus between the network side and
//! the simulation side all live here, each with a verified contract.

use vstd::prelude::*;

pub mod bus;
pub mod client;
pub mod codec;
pub mod engine;
pub mod food;
pub mod growth;
pub mod movement;
mod rng;
pub mod sync;
pub mod types;

verus! {

/// Width of the play grid, in cells.
pub const ARENA_WIDTH: u32 = 40;

/// Height of the play grid, in cells.
pub const ARENA_HEIGHT: u32 = 40;

} // verus!
