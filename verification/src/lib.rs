use vstd::prelude::*;

pub mod attack;
pub mod codec;
pub mod config;
pub mod grid;
pub mod init;
pub mod neighbors;
pub mod player;
pub mod rng;
pub mod state;
pub mod territory;
pub mod update;
pub mod world;

verus! {

/// Largest player id that the one-byte wire encoding of the grid can carry.
pub const MAX_PLAYER_ID: u32 = 250;

} // verus!
