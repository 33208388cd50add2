//! A move-selection engine for the 4x4 sliding-tile game 2048.
//!
//! A board holds sixteen ranks (a rank `n` stands for the tile `2^n`, `0`
//! for an empty cell). The engine shifts and merges lines, scores boards
//! with a positional gradient heuristic, and chooses a direction by a
//! bounded-depth expectimax search that samples random tile placements.

pub mod board;
pub mod heuristic;
pub mod line;
pub mod options;
pub mod policy;
pub mod protocol;
pub mod sampling;
pub mod search;

use vstd::prelude::*;

verus! {

/// Scores are signed and 64 bits wide: enough headroom for merge bonuses,
/// heuristic values and averaged child scores at any realistic depth.
pub type Score = i64;

} // verus!
