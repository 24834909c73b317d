//! Scoring and best-finish search for a 64-team single-elimination pool.
//!
//! An outcome is a decisions bitmask plus a mask of the games that are
//! settled; [`codec`] decodes it into the team projected to win each game,
//! [`scoring`] scores a bracket against such a table, and [`finishes`]
//! enumerates every way the pending games can go to find the best rank each
//! bracket of a pool can still reach.
pub mod tables;
pub mod codec;
pub mod scoring;
pub mod finishes;

pub use codec::{Bracket, Tournament, COMPLETE_MASK};
pub use finishes::BestFinishes;
