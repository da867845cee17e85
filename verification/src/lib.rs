//! Exact analysis of the two-player seed-sowing game Kalaha: the rules of the
//! game, a key for every position, a bounded search for the result of best
//! play, and a store of results that grows by learning from games played at
//! random.

pub mod board;
pub mod sowing;
pub mod moves;
pub mod rank;
pub mod expand;
pub mod codec;
pub mod value;
pub mod search;
pub mod knowledge;
pub mod learn;
pub mod stats;
