//! The board model: a 4x4 grid of tile ranks addressed by (column, row),
//! its constructors, line extraction, the four directional shifts and the
//! aggregate metrics the depth policy reads.

use vstd::prelude::*;

use crate::Score;
use crate::line::{
    Line, clone_line, line_score, lemma_line_score_bound, lemma_shifted_line_le, nonzeros,
    merged_ranks, reversed_line, shift_line, shifted_line,
};

verus! {

broadcast use vstd::array::group_array_axioms;

use vstd::arithmetic::power2::{pow2, lemma_pow2_unfold, lemma_pow2_strictly_increases};

/// A shift direction; its numeric code (`Direction::code`) is the wire
/// representation of a chosen move.
#[derive(Clone, Copy, PartialEq, Eq, Structural, Debug)]
pub enum Direction {
    Up,
    Down,
    Left,
    Right,
}

/// The fixed numeric code of each direction.
pub open spec fn dir_code(d: Direction) -> u8 {
    match d {
        Direction::Up => 0,
        Direction::Down => 1,
        Direction::Left => 2,
        Direction::Right => 3,
    }
}

impl Direction {
    /// The numeric code of this direction, as sent on the wire.
    pub fn code(self) -> (c: u8)
        ensures
            c == dir_code(self),
    {
        match self {
            Direction::Up => 0,
            Direction::Down => 1,
            Direction::Left => 2,
            Direction::Right => 3,
        }
    }
}

/// A 2048 game board of 4 times 4 cells, stored as four columns. Each
/// cell holds the log2 of the actual value of its tile, 0 for an empty
/// cell.
#[derive(Clone, Copy, Debug)]
pub struct Board {
    pub cols: [[u8; 4]; 4],
}

/// The rank in column `x`, row `y` of a raw grid.
pub open spec fn grid_cell(cols: [[u8; 4]; 4], x: int, y: int) -> u8 {
    cols[x][y]
}

impl Board {
    /// The rank in column `x`, row `y`.
    pub open spec fn cell(self, x: int, y: int) -> u8 {
        grid_cell(self.cols, x, y)
    }
}

/// Two boards agree on every cell.
pub open spec fn same_cells(a: Board, b: Board) -> bool {
    forall|x: int, y: int| 0 <= x < 4 && 0 <= y < 4 ==> a.cell(x, y) == b.cell(x, y)
}

/// Boards are value types: two boards that agree on every cell are the
/// same board.
pub proof fn lemma_same_cells_equal(a: Board, b: Board)
    requires
        same_cells(a, b),
    ensures
        a == b,
{
    assert forall|x: int| 0 <= x < 4 implies a.cols[x] == b.cols[x] by {
        assert forall|y: int| 0 <= y < 4 implies a.cols[x][y] == b.cols[x][y] by {
            assert(a.cell(x, y) == b.cell(x, y));
        }
        assert(a.cols[x] =~= b.cols[x]);
    }
    assert(a.cols =~= b.cols);
}

/// Every rank of the board is at most `bound`.
pub open spec fn cells_le(b: Board, bound: int) -> bool {
    forall|x: int, y: int| 0 <= x < 4 && 0 <= y < 4 ==> b.cell(x, y) <= bound
}

impl PartialEq for Board {
    /// Structural, cell-by-cell comparison.
    fn eq(&self, other: &Board) -> (r: bool) {
        let mut x: usize = 0;
        while x < 4
            invariant
                x <= 4,
                forall|i: int, j: int|
                    0 <= i < x && 0 <= j < 4 ==> self.cell(i, j) == other.cell(i, j),
            decreases 4 - x,
        {
            let mut y: usize = 0;
            while y < 4
                invariant
                    x < 4,
                    y <= 4,
                    forall|i: int, j: int|
                        0 <= i < x && 0 <= j < 4 ==> self.cell(i, j) == other.cell(i, j),
                    forall|j: int| 0 <= j < y ==> self.cell(x as int, j) == other.cell(x as int, j),
                decreases 4 - y,
            {
                if self.cols[x][y] != other.cols[x][y] {
                    proof {
                        assert(self.cell(x as int, y as int) != other.cell(x as int, y as int));
                    }
                    return false;
                }
                y = y + 1;
            }
            x = x + 1;
        }
        true
    }
}

impl vstd::std_specs::cmp::PartialEqSpecImpl for Board {
    open spec fn obeys_eq_spec() -> bool {
        true
    }

    open spec fn eq_spec(&self, other: &Board) -> bool {
        same_cells(*self, *other)
    }
}

impl Eq for Board {

}

/// Row `y` of the board, low column first.
pub open spec fn row_seq(b: Board, y: int) -> Seq<u8> {
    Seq::new(4, |x: int| b.cell(x, y))
}

/// Column `x` of the board, low row first.
pub open spec fn col_seq(b: Board, x: int) -> Seq<u8> {
    Seq::new(4, |y: int| b.cell(x, y))
}

/// The `i`-th line a shift in direction `dir` operates on, oriented so
/// that compaction toward index 0 realizes the shift: columns for
/// vertical shifts, rows for horizontal ones, reversed for Down and
/// Right.
pub open spec fn line_of(b: Board, dir: Direction, i: int) -> Seq<u8> {
    match dir {
        Direction::Up => col_seq(b, i),
        Direction::Down => col_seq(b, i).reverse(),
        Direction::Left => row_seq(b, i),
        Direction::Right => row_seq(b, i).reverse(),
    }
}

/// The rank in column `x`, row `y` after shifting the whole board in
/// direction `dir`.
pub open spec fn shifted_cell(b: Board, dir: Direction, x: int, y: int) -> u8 {
    match dir {
        Direction::Up => shifted_line(line_of(b, dir, x))[y],
        Direction::Down => shifted_line(line_of(b, dir, x)).reverse()[y],
        Direction::Left => shifted_line(line_of(b, dir, y))[x],
        Direction::Right => shifted_line(line_of(b, dir, y)).reverse()[x],
    }
}

/// The total merge score a shift in direction `dir` earns: the sum of the
/// four per-line merge scores, each already scaled by the merge factor.
pub open spec fn shift_score(b: Board, dir: Direction) -> int {
    line_score(line_of(b, dir, 0)) + line_score(line_of(b, dir, 1)) + line_score(
        line_of(b, dir, 2),
    ) + line_score(line_of(b, dir, 3))
}

/// Shifting in direction `dir` changes no cell; such a shift is not a
/// legal move.
pub open spec fn no_move(b: Board, dir: Direction) -> bool {
    forall|x: int, y: int|
        0 <= x < 4 && 0 <= y < 4 ==> shifted_cell(b, dir, x, y) == b.cell(x, y)
}

/// Shifting in direction `dir` changes the board, making `dir` a legal
/// move.
pub open spec fn can_move(b: Board, dir: Direction) -> bool {
    !no_move(b, dir)
}

/// No direction is a legal move: the game is over on this board.
pub open spec fn board_stuck(b: Board) -> bool {
    no_move(b, Direction::Up) && no_move(b, Direction::Down) && no_move(b, Direction::Left)
        && no_move(b, Direction::Right)
}

/// The sum of the ranks of the first `k` cells in column-outer order.
pub open spec fn rank_sum_upto(b: Board, k: int) -> int
    decreases k,
{
    if k <= 0 {
        0
    } else {
        rank_sum_upto(b, k - 1) + b.cell((k - 1) / 4, (k - 1) % 4)
    }
}

/// The sum of all sixteen ranks.
pub open spec fn rank_sum(b: Board) -> int {
    rank_sum_upto(b, 16)
}

/// The sum of the actual tile values (2 to the rank) of the first `k`
/// cells in column-outer order; an empty cell counts 2^0 = 1.
pub open spec fn value_sum_upto(b: Board, k: int) -> int
    decreases k,
{
    if k <= 0 {
        0
    } else {
        value_sum_upto(b, k - 1) + pow2(b.cell((k - 1) / 4, (k - 1) % 4) as nat)
    }
}

/// The sum of the actual tile values over the whole board.
pub open spec fn value_sum(b: Board) -> int {
    value_sum_upto(b, 16)
}

/// How many of the first `k` cells in column-outer order are occupied.
pub open spec fn nonzero_count_upto(b: Board, k: int) -> int
    decreases k,
{
    if k <= 0 {
        0
    } else {
        nonzero_count_upto(b, k - 1) + (if b.cell((k - 1) / 4, (k - 1) % 4) != 0 {
            1int
        } else {
            0int
        })
    }
}

/// How many cells of the board are occupied.
pub open spec fn nonzero_count(b: Board) -> int {
    nonzero_count_upto(b, 16)
}

impl Board {
    /// Create a board from a vector of 16 bytes, each taken as the
    /// literal rank, in columns-first order (x increments before y).
    pub fn from_raw(src: &Vec<u8>) -> (b: Board)
        requires
            src@.len() == 16,
        ensures
            forall|x: int, y: int|
                0 <= x < 4 && 0 <= y < 4 ==> b.cell(x, y) == src@[4 * y + x],
    {
        let mut cols: [[u8; 4]; 4] = [[0, 0, 0, 0], [0, 0, 0, 0], [0, 0, 0, 0], [0, 0, 0, 0]];
        let mut i: usize = 0;
        while i < 16
            invariant
                i <= 16,
                src@.len() == 16,
                forall|x: int, y: int|
                    0 <= x < 4 && 0 <= y < 4 && 4 * y + x < i ==> #[trigger] grid_cell(cols, x, y)
                        == src@[4 * y + x],
            decreases 16 - i,
        {
            let x = i % 4;
            let y = i / 4;
            let ghost cols0 = cols;
            let mut col = cols[x];
            col[y] = src[i];
            cols[x] = col;
            proof {
                vstd::arithmetic::div_mod::lemma_fundamental_div_mod(i as int, 4);
                assert forall|xx: int, yy: int|
                    0 <= xx < 4 && 0 <= yy < 4 && 4 * yy + xx < i + 1 implies #[trigger] grid_cell(
                    cols,
                    xx,
                    yy,
                ) == src@[4 * yy + xx] by {
                    if 4 * yy + xx == i as int {
                        vstd::arithmetic::div_mod::lemma_fundamental_div_mod_converse(
                            i as int,
                            4,
                            yy,
                            xx,
                        );
                        assert(xx == x as int && yy == y as int);
                        assert(grid_cell(cols, xx, yy) == src@[i as int]);
                    } else {
                        if xx == x as int && yy == y as int {
                            assert(4 * yy + xx == i as int);
                        }
                        assert(grid_cell(cols, xx, yy) == grid_cell(cols0, xx, yy));
                    }
                }
            }
            i = i + 1;
        }
        Board { cols }
    }

    /// Construct a board from a vector of four lines, taken as one
    /// column each.
    pub fn from_cols(lines: Vec<Line>) -> (b: Board)
        requires
            lines@.len() == 4,
        ensures
            forall|x: int, y: int|
                0 <= x < 4 && 0 <= y < 4 ==> b.cell(x, y) == lines@[x]@[y],
    {
        let mut cols: [[u8; 4]; 4] = [[0, 0, 0, 0], [0, 0, 0, 0], [0, 0, 0, 0], [0, 0, 0, 0]];
        let mut x: usize = 0;
        while x < 4
            invariant
                x <= 4,
                lines@.len() == 4,
                forall|i: int, j: int|
                    0 <= i < x && 0 <= j < 4 ==> #[trigger] grid_cell(cols, i, j) == lines@[i]@[j],
            decreases 4 - x,
        {
            let ghost cols0 = cols;
            cols[x] = lines[x];
            proof {
                assert forall|i: int, j: int|
                    0 <= i < x + 1 && 0 <= j < 4 implies #[trigger] grid_cell(cols, i, j)
                    == lines@[i]@[j] by {
                    if i == x as int {
                        assert(grid_cell(cols, i, j) == lines@[x as int]@[j]);
                    } else {
                        assert(grid_cell(cols, i, j) == grid_cell(cols0, i, j));
                    }
                }
            }
            x = x + 1;
        }
        Board { cols }
    }

    /// Construct a board from a vector of four lines, taken as one row
    /// each.
    pub fn from_rows(lines: Vec<Line>) -> (b: Board)
        requires
            lines@.len() == 4,
        ensures
            forall|x: int, y: int|
                0 <= x < 4 && 0 <= y < 4 ==> b.cell(x, y) == lines@[y]@[x],
    {
        let mut cols: [[u8; 4]; 4] = [[0, 0, 0, 0], [0, 0, 0, 0], [0, 0, 0, 0], [0, 0, 0, 0]];
        let mut x: usize = 0;
        while x < 4
            invariant
                x <= 4,
                lines@.len() == 4,
                forall|i: int, j: int|
                    0 <= i < x && 0 <= j < 4 ==> #[trigger] grid_cell(cols, i, j) == lines@[j]@[i],
            decreases 4 - x,
        {
            let mut col: [u8; 4] = [0, 0, 0, 0];
            let mut y: usize = 0;
            while y < 4
                invariant
                    x < 4,
                    y <= 4,
                    lines@.len() == 4,
                    forall|j: int| 0 <= j < y ==> col@[j] == lines@[j]@[x as int],
                decreases 4 - y,
            {
                col[y] = lines[y][x];
                y = y + 1;
            }
            let ghost cols0 = cols;
            cols[x] = col;
            proof {
                assert forall|i: int, j: int|
                    0 <= i < x + 1 && 0 <= j < 4 implies #[trigger] grid_cell(cols, i, j)
                    == lines@[j]@[i] by {
                    if i == x as int {
                        assert(grid_cell(cols, i, j) == col@[j]);
                    } else {
                        assert(grid_cell(cols, i, j) == grid_cell(cols0, i, j));
                    }
                }
            }
            x = x + 1;
        }
        Board { cols }
    }

    /// Return a line with the contents of the row with the given index.
    pub fn get_row(&self, idx: usize) -> (r: Line)
        requires
            idx < 4,
        ensures
            r@ == row_seq(*self, idx as int),
    {
        let r: Line = [self.cols[0][idx], self.cols[1][idx], self.cols[2][idx], self.cols[3][idx]];
        proof {
            assert(r@ =~= row_seq(*self, idx as int));
        }
        r
    }

    /// Return a line with the contents of the column with the given
    /// index.
    pub fn get_col(&self, idx: usize) -> (r: Line)
        requires
            idx < 4,
        ensures
            r@ == col_seq(*self, idx as int),
    {
        let r: Line = [self.cols[idx][0], self.cols[idx][1], self.cols[idx][2], self.cols[idx][3]];
        proof {
            assert(r@ =~= col_seq(*self, idx as int));
        }
        r
    }

    /// Set the cell at position `(x, y)` to the rank `tile`.
    pub fn set_tile(&mut self, x: usize, y: usize, tile: u8)
        requires
            x < 4,
            y < 4,
        ensures
            forall|i: int, j: int|
                0 <= i < 4 && 0 <= j < 4 ==> final(self).cell(i, j) == (if i == x as int && j
                    == y as int {
                    tile
                } else {
                    old(self).cell(i, j)
                }),
    {
        let mut col = self.cols[x];
        col[y] = tile;
        let mut cols = self.cols;
        cols[x] = col;
        self.cols = cols;
    }

    /// Return a copy of the board in which the cell at position
    /// `(x, y)` is replaced with the rank `tile`.
    pub fn place_tile(&self, x: usize, y: usize, tile: u8) -> (b: Board)
        requires
            x < 4,
            y < 4,
        ensures
            forall|i: int, j: int|
                0 <= i < 4 && 0 <= j < 4 ==> b.cell(i, j) == (if i == x as int && j == y as int {
                    tile
                } else {
                    self.cell(i, j)
                }),
    {
        let mut copy = *self;
        copy.set_tile(x, y, tile);
        copy
    }

    /// Shift the board in the given direction and return the new board,
    /// along with the merge score obtained from this move.
    pub fn shifted_board(&self, dir: Direction) -> (r: (Board, Score))
        requires
            cells_le(*self, 254),
        ensures
            forall|x: int, y: int|
                0 <= x < 4 && 0 <= y < 4 ==> r.0.cell(x, y) == shifted_cell(*self, dir, x, y),
            r.1 == shift_score(*self, dir),
            0 <= r.1 <= 2464,
    {
        let vertical = match dir {
            Direction::Up | Direction::Down => true,
            Direction::Left | Direction::Right => false,
        };
        let reversed = match dir {
            Direction::Down | Direction::Right => true,
            Direction::Up | Direction::Left => false,
        };
        let mut l0: Line = if vertical {
            self.get_col(0)
        } else {
            self.get_row(0)
        };
        let mut l1: Line = if vertical {
            self.get_col(1)
        } else {
            self.get_row(1)
        };
        let mut l2: Line = if vertical {
            self.get_col(2)
        } else {
            self.get_row(2)
        };
        let mut l3: Line = if vertical {
            self.get_col(3)
        } else {
            self.get_row(3)
        };
        if reversed {
            l0 = reversed_line(&l0);
            l1 = reversed_line(&l1);
            l2 = reversed_line(&l2);
            l3 = reversed_line(&l3);
        }
        proof {
            assert(l0@ == line_of(*self, dir, 0));
            assert(l1@ == line_of(*self, dir, 1));
            assert(l2@ == line_of(*self, dir, 2));
            assert(l3@ == line_of(*self, dir, 3));
            lemma_line_score_bound(l0@);
            lemma_line_score_bound(l1@);
            lemma_line_score_bound(l2@);
            lemma_line_score_bound(l3@);
        }
        let s0 = shift_line(&mut l0);
        let s1 = shift_line(&mut l1);
        let s2 = shift_line(&mut l2);
        let s3 = shift_line(&mut l3);
        let score = s0 + s1 + s2 + s3;
        let ghost m0 = l0@;
        let ghost m1 = l1@;
        let ghost m2 = l2@;
        let ghost m3 = l3@;
        if reversed {
            l0 = reversed_line(&l0);
            l1 = reversed_line(&l1);
            l2 = reversed_line(&l2);
            l3 = reversed_line(&l3);
        }
        let mut lines: Vec<Line> = Vec::new();
        lines.push(l0);
        lines.push(l1);
        lines.push(l2);
        lines.push(l3);
        let board = if vertical {
            Board::from_cols(lines)
        } else {
            Board::from_rows(lines)
        };
        proof {
            if vertical {
                assert forall|x: int, y: int| 0 <= x < 4 && 0 <= y < 4 implies board.cell(x, y)
                    == shifted_cell(*self, dir, x, y) by {
                    if x == 0 {
                    } else if x == 1 {
                    } else if x == 2 {
                    }
                }
            } else {
                assert forall|x: int, y: int| 0 <= x < 4 && 0 <= y < 4 implies board.cell(x, y)
                    == shifted_cell(*self, dir, x, y) by {
                    if y == 0 {
                    } else if y == 1 {
                    } else if y == 2 {
                    }
                }
            }
        }
        (board, score)
    }

    /// The sum of the ranks of all cells.
    pub fn total_value(&self) -> (t: Score)
        ensures
            t == rank_sum(*self),
    {
        let mut acc: i64 = 0;
        let mut k: usize = 0;
        while k < 16
            invariant
                k <= 16,
                acc == rank_sum_upto(*self, k as int),
                0 <= acc <= 255 * k,
            decreases 16 - k,
        {
            let x = k / 4;
            let y = k % 4;
            acc = acc + (self.cols[x][y] as i64);
            k = k + 1;
        }
        acc
    }

    /// The sum of the actual tile values (2 to the rank) of all cells.
    ///
    /// Each rank must be at most 58 so that the 64-bit sum cannot
    /// overflow.
    pub fn total_value_exp(&self) -> (t: Score)
        requires
            cells_le(*self, 58),
        ensures
            t == value_sum(*self),
    {
        let mut acc: i64 = 0;
        let mut k: usize = 0;
        while k < 16
            invariant
                k <= 16,
                cells_le(*self, 58),
                acc == value_sum_upto(*self, k as int),
                0 <= acc <= 0x0400_0000_0000_0000 * k,
            decreases 16 - k,
        {
            let x = k / 4;
            let y = k % 4;
            proof {
                assert(self.cols[x as int][y as int] == self.cell(x as int, y as int));
                assert(self.cell(x as int, y as int) <= 58);
            }
            let v = pow2_val(self.cols[x][y]);
            proof {
                if (self.cell(k as int / 4, k as int % 4) as nat) < 58 {
                    lemma_pow2_strictly_increases(self.cell(k as int / 4, k as int % 4) as nat, 58);
                }
                lemma_pow2_58();
            }
            acc = acc + v;
            k = k + 1;
        }
        acc
    }

    /// How many cells hold a tile.
    pub fn total_nonzeros(&self) -> (n: usize)
        ensures
            n == nonzero_count(*self),
    {
        let mut acc: usize = 0;
        let mut k: usize = 0;
        while k < 16
            invariant
                k <= 16,
                acc == nonzero_count_upto(*self, k as int),
                0 <= acc <= k,
            decreases 16 - k,
        {
            let x = k / 4;
            let y = k % 4;
            if self.cols[x][y] != 0 {
                acc = acc + 1;
            }
            k = k + 1;
        }
        acc
    }
}

/// The concrete value of 2^58, used to bound the tile-value sum.
pub proof fn lemma_pow2_58()
    ensures
        pow2(58) == 0x0400_0000_0000_0000,
{
    vstd::arithmetic::power2::lemma2_to64();
    vstd::arithmetic::power2::lemma2_to64_rest();
}

/// Raise 2 to the rank `e`.
fn pow2_val(e: u8) -> (r: i64)
    requires
        e <= 58,
    ensures
        r == pow2(e as nat),
{
    let mut r: i64 = 1;
    let mut i: u8 = 0;
    proof {
        vstd::arithmetic::power2::lemma2_to64();
    }
    while i < e
        invariant
            i <= e,
            e <= 58,
            r == pow2(i as nat),
        decreases e - i,
    {
        proof {
            lemma_pow2_unfold(i as nat + 1);
            if (i as nat) < 58 {
                lemma_pow2_strictly_increases(i as nat, 58);
            }
            lemma_pow2_58();
        }
        r = r * 2;
        i = i + 1;
    }
    r
}

/// After a shift every rank is at most one above the largest input rank:
/// only a single merge can touch a given cell in one shift.
pub proof fn lemma_shift_cells_le(b: Board, dir: Direction, k: int)
    requires
        cells_le(b, k),
        0 <= k <= 254,
    ensures
        forall|x: int, y: int|
            0 <= x < 4 && 0 <= y < 4 ==> shifted_cell(b, dir, x, y) <= k + 1,
{
    assert forall|x: int, y: int| 0 <= x < 4 && 0 <= y < 4 implies shifted_cell(b, dir, x, y) <= k
        + 1 by {
        let i = match dir {
            Direction::Up | Direction::Down => x,
            Direction::Left | Direction::Right => y,
        };
        let l = line_of(b, dir, i);
        assert(forall|t: int| 0 <= t < l.len() ==> l[t] <= k);
        lemma_shifted_line_le(l, k);
    }
}

} // verus!
