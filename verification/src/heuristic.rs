//! The positional heuristic: a pure gradient score that rewards boards
//! whose ranks decrease monotonically toward an edge, in either
//! horizontal and either vertical orientation.

use vstd::prelude::*;

use crate::Score;
use crate::board::Board;

verus! {

/// Contribution of one cell to a horizontal accumulator, from the
/// difference between the reference edge cell and the cell itself: a
/// small reward (+1) when the edge is larger or equal, a large penalty
/// (-12) when the edge is smaller.
pub open spec fn hcontrib(diff: int) -> int {
    if diff < 0 {
        -12
    } else {
        1
    }
}

/// Horizontal accumulator referenced at column 0, over the first `k`
/// cells in column-outer order.
pub open spec fn horiz_a_upto(b: Board, k: int) -> int
    decreases k,
{
    if k <= 0 {
        0
    } else {
        horiz_a_upto(b, k - 1) + hcontrib(
            b.cell(0, (k - 1) % 4) - b.cell((k - 1) / 4, (k - 1) % 4),
        )
    }
}

/// Horizontal accumulator referenced at column 3, over the first `k`
/// cells in column-outer order.
pub open spec fn horiz_b_upto(b: Board, k: int) -> int
    decreases k,
{
    if k <= 0 {
        0
    } else {
        horiz_b_upto(b, k - 1) + hcontrib(
            b.cell(3, (k - 1) % 4) - b.cell((k - 1) / 4, (k - 1) % 4),
        )
    }
}

/// Downward vertical accumulator, counted in halves: one half point for
/// every cell below a strictly larger neighbour, over the first `k`
/// cells in column-outer order.
pub open spec fn vert_down_upto(b: Board, k: int) -> int
    decreases k,
{
    if k <= 0 {
        0
    } else {
        vert_down_upto(b, k - 1) + (if (k - 1) % 4 > 0 && b.cell((k - 1) / 4, (k - 1) % 4 - 1)
            > b.cell((k - 1) / 4, (k - 1) % 4) {
            1int
        } else {
            0int
        })
    }
}

/// Upward vertical accumulator, counted in halves: one half point for
/// every cell below a strictly smaller neighbour, over the first `k`
/// cells in column-outer order.
pub open spec fn vert_up_upto(b: Board, k: int) -> int
    decreases k,
{
    if k <= 0 {
        0
    } else {
        vert_up_upto(b, k - 1) + (if (k - 1) % 4 > 0 && b.cell((k - 1) / 4, (k - 1) % 4 - 1)
            < b.cell((k - 1) / 4, (k - 1) % 4) {
            1int
        } else {
            0int
        })
    }
}

/// The larger of two integers.
pub open spec fn max_int(a: int, b: int) -> int {
    if a >= b {
        a
    } else {
        b
    }
}

/// The nearest integer to `t` halves, halves rounding away from zero.
pub open spec fn round_half(t: int) -> int {
    if t % 2 == 0 {
        t / 2
    } else if t > 0 {
        (t + 1) / 2
    } else {
        (t - 1) / 2
    }
}

/// The gradient score of a board: the larger horizontal accumulator plus
/// the larger vertical accumulator (the latter counted in halves),
/// rounded to the nearest integer.
pub open spec fn gradient(b: Board) -> int {
    round_half(
        2 * max_int(horiz_a_upto(b, 16), horiz_b_upto(b, 16)) + max_int(
            vert_down_upto(b, 16),
            vert_up_upto(b, 16),
        ),
    )
}

impl Board {
    /// Calculate the heuristic score for the given constellation: the
    /// gradient of the game board, rewarding consistent gradients.
    pub fn gradient_score(&self) -> (s: Score)
        ensures
            s == gradient(*self),
    {
        let mut ha: i64 = 0;
        let mut hb: i64 = 0;
        let mut vd: i64 = 0;
        let mut vu: i64 = 0;
        let mut k: usize = 0;
        while k < 16
            invariant
                k <= 16,
                ha == horiz_a_upto(*self, k as int),
                hb == horiz_b_upto(*self, k as int),
                vd == vert_down_upto(*self, k as int),
                vu == vert_up_upto(*self, k as int),
                -12 * k <= ha <= k,
                -12 * k <= hb <= k,
                0 <= vd <= k,
                0 <= vu <= k,
            decreases 16 - k,
        {
            let x = k / 4;
            let y = k % 4;
            let e0 = self.cols[0][y] as i64;
            let e3 = self.cols[3][y] as i64;
            let c = self.cols[x][y] as i64;
            if e0 - c < 0 {
                ha = ha - 12;
            } else {
                ha = ha + 1;
            }
            if e3 - c < 0 {
                hb = hb - 12;
            } else {
                hb = hb + 1;
            }
            if y > 0 {
                let up = self.cols[x][y - 1] as i64;
                if up > c {
                    vd = vd + 1;
                } else if up < c {
                    vu = vu + 1;
                }
            }
            k = k + 1;
        }
        let h = if ha >= hb {
            ha
        } else {
            hb
        };
        let v = if vd >= vu {
            vd
        } else {
            vu
        };
        let t = 2 * h + v;
        if t >= 0 {
            if t % 2 == 0 {
                t / 2
            } else {
                (t + 1) / 2
            }
        } else {
            let u = -t;
            if u % 2 == 0 {
                -(u / 2)
            } else {
                -((u + 1) / 2)
            }
        }
    }
}

/// Each accumulator moves by a bounded step per cell.
proof fn lemma_accum_bounds(b: Board, k: int)
    requires
        0 <= k,
    ensures
        -12 * k <= horiz_a_upto(b, k) <= k,
        -12 * k <= horiz_b_upto(b, k) <= k,
        0 <= vert_down_upto(b, k) <= k,
        0 <= vert_up_upto(b, k) <= k,
    decreases k,
{
    if k > 0 {
        lemma_accum_bounds(b, k - 1);
    }
}

/// The gradient score of any board is small: the accumulators move by
/// at most 12 points per cell over 16 cells.
pub proof fn lemma_gradient_bounds(b: Board)
    ensures
        -200 <= gradient(b) <= 200,
{
    lemma_accum_bounds(b, 16);
}

/// `b` is `a` mirrored left to right: column `x` of `b` is column
/// `3 - x` of `a`.
pub open spec fn is_mirror(a: Board, b: Board) -> bool {
    forall|x: int, y: int| 0 <= x < 4 && 0 <= y < 4 ==> b.cell(x, y) == a.cell(3 - x, y)
}

/// Mirroring a board left to right swaps which edge column serves as the
/// reference of each horizontal accumulator but leaves the gradient
/// score unchanged: the score takes the larger accumulator of each axis,
/// so it is invariant under the mirroring.
#[verifier::rlimit(100)]
proof fn lemma_mirror_horiz(a: Board, b: Board)
    requires
        is_mirror(a, b),
    ensures
        horiz_a_upto(b, 16) == horiz_b_upto(a, 16),
        horiz_b_upto(b, 16) == horiz_a_upto(a, 16),
{
    reveal_with_fuel(horiz_a_upto, 17);
    reveal_with_fuel(horiz_b_upto, 17);
}

#[verifier::rlimit(100)]
proof fn lemma_mirror_vert(a: Board, b: Board)
    requires
        is_mirror(a, b),
    ensures
        vert_down_upto(b, 16) == vert_down_upto(a, 16),
        vert_up_upto(b, 16) == vert_up_upto(a, 16),
{
    reveal_with_fuel(vert_down_upto, 17);
    reveal_with_fuel(vert_up_upto, 17);
}

pub proof fn lemma_gradient_mirror(a: Board, b: Board)
    requires
        is_mirror(a, b),
    ensures
        gradient(b) == gradient(a),
{
    lemma_mirror_horiz(a, b);
    lemma_mirror_vert(a, b);
}

} // verus!
