//! A leaderboard service core: the ranked store of player attempts, its
//! snapshot text format, the fixed-size wire frames and the per-connection
//! dispatch step, each with a machine-checked contract.

use vstd::prelude::*;

pub mod bytes;
pub mod database;
pub mod number;
pub mod ranking;
pub mod server;
pub mod snapshot;
pub mod text;
pub mod wire;

verus! {

/// The size of the name field of a record on the wire.
pub const STRING_BUFFER_SIZE: usize = 128;

} // verus!
