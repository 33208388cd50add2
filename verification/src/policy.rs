//! The depth policy: before each search the maximum recursion depth is
//! recomputed from the board's total tile value and its count of
//! occupied cells, by a fixed decision table.

use vstd::prelude::*;

use crate::Score;

verus! {

/// The shallowest search depth the policy selects, for nearly empty
/// boards.
pub const MIN_MAX_DEPTH: usize = 2;

/// The default search depth for mid-game boards.
pub const DEFAULT_MAX_DEPTH: usize = 5;

/// The deepest search the policy selects, for very full boards.
pub const MAX_MAX_DEPTH: usize = 7;

/// The decision table: a board is high value when its total tile value
/// reaches 128. Very full boards of either value class search at the
/// maximum depth; heavily filled boards search between the default and
/// the maximum; sparse low-value boards search shallower; everything
/// else searches at the default depth.
pub open spec fn depth_for(value: int, nonzeros: int) -> int {
    if value >= 128 {
        if nonzeros >= 12 {
            MAX_MAX_DEPTH as int
        } else if nonzeros >= 10 {
            (DEFAULT_MAX_DEPTH + MAX_MAX_DEPTH) as int / 2
        } else {
            DEFAULT_MAX_DEPTH as int
        }
    } else {
        if nonzeros >= 14 {
            MAX_MAX_DEPTH as int
        } else if nonzeros >= 10 {
            (DEFAULT_MAX_DEPTH + MAX_MAX_DEPTH) as int / 2
        } else if nonzeros < 4 {
            MIN_MAX_DEPTH as int
        } else if nonzeros < 6 {
            (MIN_MAX_DEPTH + MIN_MAX_DEPTH + DEFAULT_MAX_DEPTH) as int / 3
        } else {
            DEFAULT_MAX_DEPTH as int
        }
    }
}

/// Select the maximum search depth for a request from the board's total
/// tile value (`value`, the sum of 2 to the rank over all cells) and its
/// number of occupied cells.
pub fn select_max_depth(value: Score, nonzeros: usize) -> (d: usize)
    ensures
        d == depth_for(value as int, nonzeros as int),
        MIN_MAX_DEPTH <= d <= MAX_MAX_DEPTH,
{
    let high_value = value >= 128;
    if high_value {
        if nonzeros >= 12 {
            MAX_MAX_DEPTH
        } else if nonzeros >= 10 {
            (DEFAULT_MAX_DEPTH + MAX_MAX_DEPTH) / 2
        } else {
            DEFAULT_MAX_DEPTH
        }
    } else {
        if nonzeros >= 14 {
            MAX_MAX_DEPTH
        } else if nonzeros >= 10 {
            (DEFAULT_MAX_DEPTH + MAX_MAX_DEPTH) / 2
        } else if nonzeros < 4 {
            MIN_MAX_DEPTH
        } else if nonzeros < 6 {
            (MIN_MAX_DEPTH + MIN_MAX_DEPTH + DEFAULT_MAX_DEPTH) / 3
        } else {
            DEFAULT_MAX_DEPTH
        }
    }
}

} // verus!
