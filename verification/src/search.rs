//! The expectimax search engine: a recursive evaluation that alternates
//! deterministic move layers, which try all four shift directions, with
//! chance layers, which average the values of randomly sampled tile
//! placements.

use vstd::prelude::*;

use crate::Score;
use crate::board::{
    Board, Direction, board_stuck, can_move, cells_le, no_move, same_cells, shift_score,
    shifted_cell, lemma_same_cells_equal, lemma_shift_cells_le,
};
use crate::heuristic::{gradient, lemma_gradient_bounds};
use crate::options::{
    collect_options, empties, flat, lemma_coord_flat, lemma_empties_no_duplicates,
    lemma_empties_upto_props, cell_at,
};
use crate::sampling::shuffle;

verus! {

broadcast use
    vstd::multiset::group_multiset_axioms,
    vstd::seq_lib::group_to_multiset_ensures,
;

/// The fixed negative score a game-over branch contributes to a chance
/// layer's average, standing in for "no future moves from here".
pub const GAME_OVER_SCORE: Score = -2048;

/// Immutable per-request search configuration. The fill fraction and
/// its per-level decay are stored in thousandths.
#[derive(Clone, Copy, Debug)]
pub struct EvalContext {
    /// The depth budget: plies beyond it are cut off as DepthExceeded.
    pub max_depth: usize,
    /// The chance-branch fill fraction at the top ply, in thousandths.
    pub min_fill_permille: u32,
    /// The per-level decay of the fill fraction, in thousandths.
    pub min_fill_decay_permille: u32,
    /// The number of chance branches sampled regardless of the
    /// fraction, when enough empty cells exist.
    pub min_new_nodes: usize,
}

impl EvalContext {
    /// The configuration is usable: at least one ply is searched, the
    /// depth budget leaves the 8-bit cell width headroom for one merge
    /// per ply, and the fill fraction and its decay are genuine
    /// fractions.
    pub open spec fn wf(self) -> bool {
        &&& 1 <= self.max_depth <= 253
        &&& self.min_fill_permille <= 1000
        &&& self.min_fill_decay_permille <= 1000
    }

    /// A configuration with the given depth budget, fill fraction,
    /// fill decay and sampling floor.
    pub fn new(max_depth: usize, min_fill_permille: u32, min_fill_decay_permille: u32, min_new_nodes: usize) -> (ctx: EvalContext)
        requires
            1 <= max_depth <= 253,
            min_fill_permille <= 1000,
            min_fill_decay_permille <= 1000,
        ensures
            ctx == (EvalContext { max_depth, min_fill_permille, min_fill_decay_permille, min_new_nodes }),
            ctx.wf(),
    {
        EvalContext { max_depth, min_fill_permille, min_fill_decay_permille, min_new_nodes }
    }
}

/// The chance-branch fill fraction at `depth`, in thousandths: the
/// initial fraction, decayed once per ply below the first.
pub open spec fn fill_permille(ctx: EvalContext, depth: int) -> int
    decreases depth,
{
    if depth <= 1 {
        ctx.min_fill_permille as int
    } else {
        fill_permille(ctx, depth - 1) * ctx.min_fill_decay_permille / 1000
    }
}

/// The number of chance cells to sample at `depth` when `avail` empty
/// cells exist: the fill fraction of the 16 cells, rounded to the
/// nearest integer, clamped below by the sampling floor and above by
/// the cells available.
pub open spec fn spec_to_fill(ctx: EvalContext, depth: int, avail: int) -> int {
    let target = (fill_permille(ctx, depth) * 32 + 1000) / 2000;
    let lower = if target >= ctx.min_new_nodes as int {
        target
    } else {
        ctx.min_new_nodes as int
    };
    if lower <= avail {
        lower
    } else {
        avail
    }
}

/// The outcome of evaluating one candidate direction at a move layer:
/// the chance-layer score of the shifted board, or the report that the
/// shift changed no cell.
#[derive(Clone, Copy, PartialEq, Eq, Structural, Debug)]
pub enum MoveEvalResult {
    Valid(Score),
    InvalidMove,
}

/// The verdict of a whole search: the best direction with its score, or
/// the report that no direction is a legal move.
#[derive(Clone, Copy, PartialEq, Eq, Structural, Debug)]
pub enum BestMove {
    Move(Score, Direction),
    NoMove,
}

/// The outcome of a subtree evaluation: the best move found with its
/// score, the depth budget ran out, or no direction was legal.
#[derive(Clone, Copy, PartialEq, Eq, Structural, Debug)]
pub enum IntermediateBestMove {
    Found(Score, Direction),
    DepthExceeded,
    GameOver,
}

/// What one evaluated chance branch adds to the branch total: its score
/// when the subtree found a move, the fixed game-over penalty when it
/// found none, nothing when the depth budget cut it off.
pub open spec fn child_contribution(r: IntermediateBestMove) -> int {
    match r {
        IntermediateBestMove::Found(s, _) => s as int,
        IntermediateBestMove::GameOver => GAME_OVER_SCORE as int,
        IntermediateBestMove::DepthExceeded => 0,
    }
}

/// The sum of the contributions of a sequence of branch results.
pub open spec fn children_total(rs: Seq<IntermediateBestMove>) -> int
    decreases rs.len(),
{
    if rs.len() == 0 {
        0
    } else {
        child_contribution(rs[0]) + children_total(rs.skip(1))
    }
}

/// The nearest integer to `num / den`, halves rounding away from zero;
/// `den` must be positive.
pub open spec fn round_div(num: int, den: int) -> int {
    if num >= 0 {
        (2 * num + den) / (2 * den)
    } else {
        -((2 * (-num) + den) / (2 * den))
    }
}

/// The unweighted arithmetic mean of the branch contributions, rounded
/// to the nearest integer; an empty sample averages to zero.
pub open spec fn children_mean(rs: Seq<IntermediateBestMove>) -> int {
    if rs.len() == 0 {
        0
    } else {
        round_div(children_total(rs), rs.len() as int)
    }
}

/// The score a chance layer assigns to a move: the merge score earned
/// by the shift, plus the gradient of the shifted board, plus the
/// rounded mean of the sampled branches.
pub open spec fn chance_score(move_score: int, grad: int, rs: Seq<IntermediateBestMove>) -> int {
    move_score + grad + children_mean(rs)
}

/// A bound on the magnitude of any score a subtree evaluation can
/// return, growing with the remaining depth budget.
pub open spec fn score_cap(levels: int) -> int {
    5000 * (levels + 1)
}

/// The largest magnitude the averaged branch contribution of a chance
/// layer at `depth` can reach: zero at the deepest ply, where every
/// branch is cut off and contributes nothing.
pub open spec fn mean_cap(ctx: EvalContext, depth: int) -> int {
    if depth < ctx.max_depth {
        score_cap(ctx.max_depth - depth - 1)
    } else {
        0
    }
}

/// `nb` is `b` shifted in direction `dir`, cell for cell.
pub open spec fn is_shift_of(nb: Board, b: Board, dir: Direction) -> bool {
    forall|x: int, y: int| 0 <= x < 4 && 0 <= y < 4 ==> nb.cell(x, y) == shifted_cell(b, dir, x, y)
}

/// A rounded quotient never exceeds a bound on the dividend's mean.
pub proof fn lemma_round_div_bound(num: int, den: int, c: int)
    requires
        den >= 1,
        c >= 0,
        -c * den <= num <= c * den,
    ensures
        -c <= round_div(num, den) <= c,
{
    if num >= 0 {
        let x = 2 * num + den;
        let d = 2 * den;
        vstd::arithmetic::div_mod::lemma_fundamental_div_mod(x, d);
        assert(0 <= x < (c + 1) * d) by (nonlinear_arith)
            requires
                den >= 1,
                c >= 0,
                0 <= num <= c * den,
                x == 2 * num + den,
                d == 2 * den,
        ;
        assert(x / d <= c) by (nonlinear_arith)
            requires
                d >= 1,
                x < (c + 1) * d,
                d * (x / d) + x % d == x,
                0 <= x % d,
        ;
        assert(x / d >= 0) by (nonlinear_arith)
            requires
                d >= 1,
                x >= 0,
                d * (x / d) + x % d == x,
                x % d < d,
        ;
    } else {
        let x = 2 * (-num) + den;
        let d = 2 * den;
        vstd::arithmetic::div_mod::lemma_fundamental_div_mod(x, d);
        assert(0 <= x < (c + 1) * d) by (nonlinear_arith)
            requires
                den >= 1,
                c >= 0,
                -c * den <= num <= 0,
                x == 2 * (-num) + den,
                d == 2 * den,
        ;
        assert(x / d <= c) by (nonlinear_arith)
            requires
                d >= 1,
                x < (c + 1) * d,
                d * (x / d) + x % d == x,
                0 <= x % d,
        ;
        assert(x / d >= 0) by (nonlinear_arith)
            requires
                d >= 1,
                x >= 0,
                d * (x / d) + x % d == x,
                x % d < d,
        ;
    }
}

/// A total of bounded contributions is bounded by the count times the
/// bound.
pub proof fn lemma_children_total_bound(rs: Seq<IntermediateBestMove>, c: int)
    requires
        c >= 0,
        forall|i: int| 0 <= i < rs.len() ==> -c <= child_contribution(#[trigger] rs[i]) <= c,
    ensures
        -c * rs.len() <= children_total(rs) <= c * rs.len(),
    decreases rs.len(),
{
    if rs.len() > 0 {
        assert(forall|i: int| 0 <= i < rs.skip(1).len() ==> rs.skip(1)[i] == rs[i + 1]);
        lemma_children_total_bound(rs.skip(1), c);
        assert(-c * rs.len() <= children_total(rs) <= c * rs.len()) by (nonlinear_arith)
            requires
                c >= 0,
                rs.len() >= 1,
                -c <= child_contribution(rs[0]) <= c,
                -c * (rs.len() - 1) <= children_total(rs.skip(1)) <= c * (rs.len() - 1),
                children_total(rs) == child_contribution(rs[0]) + children_total(rs.skip(1)),
        ;
    }
}

/// The rounded mean of bounded contributions is itself bounded.
pub proof fn lemma_children_mean_bound(rs: Seq<IntermediateBestMove>, c: int)
    requires
        c >= 0,
        forall|i: int| 0 <= i < rs.len() ==> -c <= child_contribution(#[trigger] rs[i]) <= c,
    ensures
        -c <= children_mean(rs) <= c,
{
    if rs.len() > 0 {
        lemma_children_total_bound(rs, c);
        lemma_round_div_bound(children_total(rs), rs.len() as int, c);
    }
}

/// Branch totals add over concatenation: branches evaluated in separate
/// groups and then combined give the same total as one sequential pass
/// over all of them.
pub proof fn lemma_children_total_concat(a: Seq<IntermediateBestMove>, b: Seq<IntermediateBestMove>)
    ensures
        children_total(a + b) == children_total(a) + children_total(b),
    decreases a.len(),
{
    if a.len() == 0 {
        assert(a + b =~= b);
    } else {
        assert((a + b)[0] == a[0]);
        assert((a + b).skip(1) =~= a.skip(1) + b);
        lemma_children_total_concat(a.skip(1), b);
    }
}

/// Removing one branch removes exactly its contribution from the total.
proof fn lemma_children_total_remove(rs: Seq<IntermediateBestMove>, j: int)
    requires
        0 <= j < rs.len(),
    ensures
        children_total(rs) == child_contribution(rs[j]) + children_total(rs.remove(j)),
    decreases rs.len(),
{
    if j == 0 {
        assert(rs.remove(0) =~= rs.skip(1));
    } else {
        assert(rs.remove(j).skip(1) =~= rs.skip(1).remove(j - 1));
        assert(rs.skip(1)[j - 1] == rs[j]);
        assert(rs.remove(j)[0] == rs[0]);
        lemma_children_total_remove(rs.skip(1), j - 1);
    }
}

/// The branch total depends only on which results were gathered, not on
/// the order in which they arrived.
pub proof fn lemma_children_total_permutation(
    r1: Seq<IntermediateBestMove>,
    r2: Seq<IntermediateBestMove>,
)
    requires
        r1.to_multiset() == r2.to_multiset(),
    ensures
        children_total(r1) == children_total(r2),
    decreases r1.len(),
{
    if r1.len() == 0 {
        vstd::seq_lib::to_multiset_len(r1);
        vstd::seq_lib::to_multiset_len(r2);
        assert(r2.len() == 0);
    } else {
        let x = r1[0];
        assert(r1.contains(x));
        assert(r2.to_multiset().count(x) > 0);
        assert(r2.contains(x));
        let j = choose|j: int| 0 <= j < r2.len() && r2[j] == x;
        assert(r1.remove(0).to_multiset() =~= r1.to_multiset().remove(x));
        assert(r2.remove(j).to_multiset() =~= r2.to_multiset().remove(x));
        assert(r1.remove(0) =~= r1.skip(1));
        lemma_children_total_permutation(r1.skip(1), r2.remove(j));
        lemma_children_total_remove(r2, j);
    }
}

/// `child` is `base` with one new tile of rank 1 or 2 (tile value 2 or
/// 4, the two tiles the game can spawn) placed on an empty cell.
pub open spec fn placed_tile(child: Board, base: Board, x: int, y: int, t: u8) -> bool {
    forall|i: int, j: int|
        0 <= i < 4 && 0 <= j < 4 ==> child.cell(i, j) == (if i == x && j == y {
            t
        } else {
            base.cell(i, j)
        })
}

/// Some empty cell of `base` holds a new rank-1 or rank-2 tile in
/// `child`, and nothing else differs.
pub open spec fn is_spawn_child(child: Board, base: Board) -> bool {
    exists|x: int, y: int, t: u8|
        0 <= x < 4 && 0 <= y < 4 && base.cell(x, y) == 0 && (t == 1 || t == 2)
            && #[trigger] placed_tile(child, base, x, y, t)
}

/// The branch boards realize a sampling of the listed cells: two
/// boards per cell, in the cells' order, placing the two possible new
/// tiles, ranks 1 and 2, on that cell, which is empty in `base`.
pub open spec fn spawn_list(children: Seq<Board>, base: Board, cells: Seq<(usize, usize)>) -> bool {
    &&& children.len() == 2 * cells.len()
    &&& forall|t: int|
        0 <= t < cells.len() ==> {
            let p = #[trigger] cells[t];
            &&& p.0 < 4 && p.1 < 4
            &&& base.cell(p.0 as int, p.1 as int) == 0
            &&& placed_tile(children[2 * t], base, p.0 as int, p.1 as int, 1u8)
            &&& placed_tile(children[2 * t + 1], base, p.0 as int, p.1 as int, 2u8)
        }
}

/// The branch boards realize a sampling of some duplicate-free list of
/// cells: no cell is sampled twice.
pub open spec fn spawned_from_distinct_cells(children: Seq<Board>, base: Board) -> bool {
    exists|cells: Seq<(usize, usize)>|
        cells.no_duplicates() && #[trigger] spawn_list(children, base, cells)
}

impl EvalContext {
    /// The fill fraction at `depth`, in thousandths.
    fn fill_at(&self, depth: usize) -> (f: u32)
        requires
            self.wf(),
            1 <= depth,
        ensures
            f == fill_permille(*self, depth as int),
            f <= 1000,
    {
        let mut f: u32 = self.min_fill_permille;
        let mut d: usize = 1;
        while d < depth
            invariant
                self.wf(),
                1 <= d <= depth,
                f == fill_permille(*self, d as int),
                f <= 1000,
            decreases depth - d,
        {
            proof {
                assert(f * self.min_fill_decay_permille <= 1000000) by (nonlinear_arith)
                    requires
                        f <= 1000,
                        self.min_fill_decay_permille <= 1000,
                ;
            }
            f = f * self.min_fill_decay_permille / 1000;
            d = d + 1;
        }
        f
    }

    /// The number of chance cells to sample at `depth` when `avail`
    /// empty cells exist. It never exceeds the cells available, and
    /// never falls below the sampling floor unless fewer cells exist.
    pub fn to_fill(&self, depth: usize, avail: usize) -> (n: usize)
        requires
            self.wf(),
            1 <= depth,
        ensures
            n == spec_to_fill(*self, depth as int, avail as int),
            n <= avail,
            avail >= self.min_new_nodes ==> n >= self.min_new_nodes,
    {
        let f = self.fill_at(depth);
        let target = ((f * 32 + 1000) / 2000) as usize;
        let lower = if target >= self.min_new_nodes {
            target
        } else {
            self.min_new_nodes
        };
        if lower <= avail {
            lower
        } else {
            avail
        }
    }

    /// Shift the board for one candidate direction and sample its
    /// chance branches: the merge score of the shift, the shifted
    /// board, and one child board per (sampled empty cell, new tile
    /// rank) pair, two per cell. `None` reports that the shift changes
    /// no cell, the sole test of a move's validity. Which cells are
    /// sampled is random.
    pub fn prepare_move(&self, curr_board: &Board, dir: Direction, depth: usize) -> (r: Option<
        (Score, Board, Vec<Board>),
    >)
        requires
            self.wf(),
            1 <= depth <= self.max_depth,
            cells_le(*curr_board, 254 - (self.max_depth - depth)),
        ensures
            (r is None) <==> no_move(*curr_board, dir),
            r matches Some(p) ==> {
                &&& p.0 == shift_score(*curr_board, dir)
                &&& 0 <= p.0 <= 2464
                &&& forall|x: int, y: int|
                    0 <= x < 4 && 0 <= y < 4 ==> p.1.cell(x, y) == shifted_cell(
                        *curr_board,
                        dir,
                        x,
                        y,
                    )
                &&& cells_le(p.1, 255 - (self.max_depth - depth))
                &&& p.2@.len() == 2 * spec_to_fill(*self, depth as int, empties(p.1).len() as int)
                &&& p.2@.len() <= 32
                &&& forall|i: int|
                    0 <= i < p.2@.len() ==> cells_le(
                        #[trigger] p.2@[i],
                        255 - (self.max_depth - depth),
                    ) && is_spawn_child(p.2@[i], p.1)
                &&& spawned_from_distinct_cells(p.2@, p.1)
            },
    {
        let ghost bound: int = 254 - (self.max_depth - depth);
        let (new_board, move_score) = curr_board.shifted_board(dir);
        if new_board == *curr_board {
            proof {
                assert forall|x: int, y: int| 0 <= x < 4 && 0 <= y < 4 implies shifted_cell(
                    *curr_board,
                    dir,
                    x,
                    y,
                ) == curr_board.cell(x, y) by {
                    assert(new_board.cell(x, y) == curr_board.cell(x, y));
                }
            }
            return Option::None;
        }
        proof {
            if no_move(*curr_board, dir) {
                assert forall|x: int, y: int| 0 <= x < 4 && 0 <= y < 4 implies new_board.cell(x, y)
                    == curr_board.cell(x, y) by {
                    assert(shifted_cell(*curr_board, dir, x, y) == curr_board.cell(x, y));
                }
                assert(false);
            }
            lemma_shift_cells_le(*curr_board, dir, bound);
            assert(cells_le(new_board, bound + 1));
        }
        let mut options = collect_options(&new_board);
        proof {
            lemma_empties_upto_props(new_board, 16);
        }
        shuffle(&mut options);
        proof {
            lemma_empties_no_duplicates(new_board);
            empties(new_board).lemma_multiset_has_no_duplicates();
            options@.lemma_multiset_has_no_duplicates_conv();
            assert(options@.take(0) =~= Seq::<(usize, usize)>::empty());
        }
        let tf = self.to_fill(depth, options.len());
        let mut children: Vec<Board> = Vec::new();
        let mut i: usize = 0;
        while i < tf
            invariant
                self.wf(),
                tf <= options@.len(),
                options@.to_multiset() == empties(new_board).to_multiset(),
                options@.no_duplicates(),
                cells_le(new_board, bound + 1),
                bound + 1 >= 3,
                i <= tf,
                children@.len() == 2 * i,
                forall|t: int|
                    0 <= t < children@.len() ==> cells_le(#[trigger] children@[t], bound + 1)
                        && is_spawn_child(children@[t], new_board),
                spawn_list(children@, new_board, options@.take(i as int)),
            decreases tf - i,
        {
            let (x, y) = options[i];
            proof {
                let p = options@[i as int];
                assert(options@.contains(p));
                assert(options@.to_multiset().count(p) > 0);
                assert(empties(new_board).to_multiset().count(p) > 0);
                assert(empties(new_board).contains(p));
                lemma_empties_upto_props(new_board, 16);
                let j = choose|j: int|
                    0 <= j < empties(new_board).len() && empties(new_board)[j] == p;
                assert(p.0 < 4 && p.1 < 4 && cell_at(new_board, flat(p)) == 0);
                lemma_coord_flat(p);
                assert(new_board.cell(p.0 as int, p.1 as int) == 0);
            }
            let c1 = new_board.place_tile(x, y, 1);
            let c2 = new_board.place_tile(x, y, 2);
            proof {
                assert(placed_tile(c1, new_board, x as int, y as int, 1u8));
                assert(placed_tile(c2, new_board, x as int, y as int, 2u8));
                assert(is_spawn_child(c1, new_board));
                assert(is_spawn_child(c2, new_board));
                assert(cells_le(c1, bound + 1));
                assert(cells_le(c2, bound + 1));
            }
            let ghost before = children@;
            children.push(c1);
            children.push(c2);
            proof {
                let cells0 = options@.take(i as int);
                let cells1 = options@.take(i as int + 1);
                assert forall|t: int|
                    0 <= t < cells1.len() implies {
                    let p = #[trigger] cells1[t];
                    &&& p.0 < 4 && p.1 < 4
                    &&& new_board.cell(p.0 as int, p.1 as int) == 0
                    &&& placed_tile(children@[2 * t], new_board, p.0 as int, p.1 as int, 1u8)
                    &&& placed_tile(children@[2 * t + 1], new_board, p.0 as int, p.1 as int, 2u8)
                } by {
                    assert(cells1[t] == options@[t]);
                    if t < i {
                        assert(cells0[t] == options@[t]);
                        assert(children@[2 * t] == before[2 * t]);
                        assert(children@[2 * t + 1] == before[2 * t + 1]);
                    } else {
                        assert(t == i);
                        assert(children@[2 * t] == c1);
                        assert(children@[2 * t + 1] == c2);
                    }
                }
                assert(spawn_list(children@, new_board, cells1));
            }
            i = i + 1;
        }
        proof {
            vstd::seq_lib::to_multiset_len(options@);
            vstd::seq_lib::to_multiset_len(empties(new_board));
            assert(options@.len() == empties(new_board).len());
            let cells = options@.take(tf as int);
            assert forall|a: int, b: int|
                0 <= a < cells.len() && 0 <= b < cells.len() && a != b implies cells[a]
                != cells[b] by {
                assert(cells[a] == options@[a] && cells[b] == options@[b]);
            }
            assert(cells.no_duplicates());
            assert(spawn_list(children@, new_board, cells));
            assert(spawned_from_distinct_cells(children@, new_board));
        }
        Option::Some((move_score, new_board, children))
    }
}

/// The rounded quotient, computed on machine integers.
fn round_div_i64(num: i64, den: i64) -> (r: i64)
    requires
        1 <= den <= 64,
        -64_000_000_000 <= num <= 64_000_000_000,
    ensures
        r == round_div(num as int, den as int),
{
    if num >= 0 {
        (2 * num + den) / (2 * den)
    } else {
        -((2 * (-num) + den) / (2 * den))
    }
}

/// The move layer's selection rule: a valid candidate replaces the
/// incumbent only when its score is strictly greater, so ties keep the
/// direction found first.
pub open spec fn spec_consider(
    acc: IntermediateBestMove,
    ev: MoveEvalResult,
    dir: Direction,
) -> IntermediateBestMove {
    match ev {
        MoveEvalResult::Valid(score) => match acc {
            IntermediateBestMove::Found(found_score, found_dir) => if found_score >= score {
                acc
            } else {
                IntermediateBestMove::Found(score, dir)
            },
            _ => IntermediateBestMove::Found(score, dir),
        },
        MoveEvalResult::InvalidMove => acc,
    }
}

/// Fold one candidate direction's outcome into the incumbent verdict.
fn consider(acc: IntermediateBestMove, ev: MoveEvalResult, dir: Direction) -> (r:
    IntermediateBestMove)
    ensures
        r == spec_consider(acc, ev, dir),
{
    match ev {
        MoveEvalResult::Valid(score) => match acc {
            IntermediateBestMove::Found(found_score, _) => if found_score >= score {
                acc
            } else {
                IntermediateBestMove::Found(score, dir)
            },
            _ => IntermediateBestMove::Found(score, dir),
        },
        MoveEvalResult::InvalidMove => acc,
    }
}

impl EvalContext {
    /// Combine the branch results of one prepared move into the move's
    /// chance-layer score: the merge score of the shift, plus the
    /// gradient of the shifted board, plus the rounded mean of the
    /// branch contributions. A caller that evaluated the branches
    /// itself, for instance concurrently, combines them here and gets
    /// the same score the sequential evaluation computes.
    pub fn finish_move(
        &self,
        move_score: Score,
        board: &Board,
        results: &Vec<IntermediateBestMove>,
    ) -> (s: Score)
        requires
            0 <= move_score <= 2464,
            results@.len() <= 32,
            forall|i: int|
                0 <= i < results@.len() ==> -1_000_000_000 <= child_contribution(
                    #[trigger] results@[i],
                ) <= 1_000_000_000,
        ensures
            s == chance_score(move_score as int, gradient(*board), results@),
    {
        let ghost all = results@;
        let mut total: i64 = 0;
        let mut t: usize = 0;
        proof {
            assert(all.skip(0) =~= all);
        }
        while t < results.len()
            invariant
                results@ == all,
                all.len() <= 32,
                forall|i: int|
                    0 <= i < all.len() ==> -1_000_000_000 <= child_contribution(#[trigger] all[i])
                        <= 1_000_000_000,
                t <= all.len(),
                total + children_total(all.skip(t as int)) == children_total(all),
                -1_000_000_000 * t <= total <= 1_000_000_000 * t,
            decreases all.len() - t,
        {
            let c: i64 = match results[t] {
                IntermediateBestMove::Found(sc, _) => sc,
                IntermediateBestMove::GameOver => GAME_OVER_SCORE,
                IntermediateBestMove::DepthExceeded => 0,
            };
            proof {
                assert(all.skip(t as int)[0] == all[t as int]);
                assert(all.skip(t as int).skip(1) =~= all.skip(t as int + 1));
                assert(c as int == child_contribution(all[t as int]));
            }
            total = total + c;
            t = t + 1;
        }
        proof {
            assert(all.skip(all.len() as int) =~= Seq::<IntermediateBestMove>::empty());
            assert(total == children_total(all));
        }
        let g = board.gradient_score();
        proof {
            lemma_gradient_bounds(*board);
        }
        let mean: i64 = if results.len() == 0 {
            0
        } else {
            proof {
                lemma_children_total_bound(all, 1_000_000_000);
                lemma_round_div_bound(children_total(all), all.len() as int, 1_000_000_000);
            }
            round_div_i64(total, results.len() as i64)
        };
        move_score + g + mean
    }

    /// Evaluate one candidate direction at `depth`: shift the board,
    /// report InvalidMove when the shift changes no cell, and otherwise
    /// score the shifted board as a chance layer over randomly sampled
    /// tile placements, each evaluated recursively as a move layer one
    /// ply deeper.
    pub fn eval_move(&self, curr_board: &Board, dir: Direction, depth: usize) -> (r: MoveEvalResult)
        requires
            self.wf(),
            1 <= depth <= self.max_depth,
            cells_le(*curr_board, 254 - (self.max_depth - depth)),
        ensures
            (r is InvalidMove) <==> no_move(*curr_board, dir),
            r matches MoveEvalResult::Valid(s) ==> -score_cap(self.max_depth - depth) <= s <= score_cap(
                self.max_depth - depth,
            ),
            r matches MoveEvalResult::Valid(s) ==> (forall|nb: Board|
                #[trigger] is_shift_of(nb, *curr_board, dir) ==> -mean_cap(*self, depth as int) <= s
                    - shift_score(*curr_board, dir) - gradient(nb) <= mean_cap(
                    *self,
                    depth as int,
                )),
        decreases self.max_depth + 1 - depth, 0int,
    {
        match self.prepare_move(curr_board, dir, depth) {
            Option::None => MoveEvalResult::InvalidMove,
            Option::Some((move_score, new_board, children)) => {
                let ghost cbound: int = mean_cap(*self, depth as int);
                let mut results: Vec<IntermediateBestMove> = Vec::new();
                let mut i: usize = 0;
                while i < children.len()
                    invariant
                        self.wf(),
                        1 <= depth <= self.max_depth,
                        cbound == mean_cap(*self, depth as int),
                        forall|t: int|
                            0 <= t < children@.len() ==> cells_le(
                                #[trigger] children@[t],
                                255 - (self.max_depth - depth),
                            ),
                        i <= children@.len(),
                        children@.len() <= 32,
                        results@.len() == i,
                        forall|t: int|
                            0 <= t < results@.len() ==> -cbound <= child_contribution(
                                #[trigger] results@[t],
                            ) <= cbound,
                    decreases children@.len() - i,
                {
                    let r = self.eval_moves(&children[i], depth + 1);
                    proof {
                        if depth < self.max_depth {
                            match r {
                                IntermediateBestMove::Found(s, _) => {
                                    assert(-cbound <= s <= cbound);
                                },
                                IntermediateBestMove::GameOver => {
                                    assert(cbound >= 5000);
                                },
                                IntermediateBestMove::DepthExceeded => {
                                    assert(false);
                                },
                            }
                        } else {
                            assert(r is DepthExceeded);
                        }
                        assert(-cbound <= child_contribution(r) <= cbound);
                    }
                    results.push(r);
                    i = i + 1;
                }
                proof {
                    assert(cbound <= 1_000_000_000);
                    lemma_children_mean_bound(results@, cbound);
                    lemma_gradient_bounds(new_board);
                }
                let s = self.finish_move(move_score, &new_board, &results);
                proof {
                    assert forall|nb: Board| #[trigger] is_shift_of(nb, *curr_board, dir) implies
                        -mean_cap(*self, depth as int) <= s - shift_score(*curr_board, dir)
                            - gradient(nb) <= mean_cap(*self, depth as int) by {
                        assert(same_cells(nb, new_board));
                        lemma_same_cells_equal(nb, new_board);
                    }
                }
                MoveEvalResult::Valid(s)
            },
        }
    }

    /// Evaluate a move layer at `depth`: cut the subtree off once the
    /// depth budget is exhausted, and otherwise try all four directions
    /// in order and keep the one with the strictly greatest score. When
    /// no direction changes the board the subtree is game over.
    pub fn eval_moves(&self, board: &Board, depth: usize) -> (r: IntermediateBestMove)
        requires
            self.wf(),
            1 <= depth <= self.max_depth + 1,
            depth <= self.max_depth ==> cells_le(*board, 254 - (self.max_depth - depth)),
        ensures
            (r is DepthExceeded) <==> depth > self.max_depth,
            depth <= self.max_depth ==> ((r is GameOver) <==> board_stuck(*board)),
            r matches IntermediateBestMove::Found(s, d) ==> can_move(*board, d) && -score_cap(self.max_depth - depth)
                <= s <= score_cap(self.max_depth - depth),
            r matches IntermediateBestMove::Found(s, d) ==> (forall|nb: Board|
                #[trigger] is_shift_of(nb, *board, d) ==> -mean_cap(*self, depth as int) <= s
                    - shift_score(*board, d) - gradient(nb) <= mean_cap(*self, depth as int)),
        decreases self.max_depth + 1 - depth, 1int,
    {
        if depth > self.max_depth {
            return IntermediateBestMove::DepthExceeded;
        }
        let e_up = self.eval_move(board, Direction::Up, depth);
        let r1 = consider(IntermediateBestMove::GameOver, e_up, Direction::Up);
        let e_down = self.eval_move(board, Direction::Down, depth);
        let r2 = consider(r1, e_down, Direction::Down);
        let e_left = self.eval_move(board, Direction::Left, depth);
        let r3 = consider(r2, e_left, Direction::Left);
        let e_right = self.eval_move(board, Direction::Right, depth);
        let r4 = consider(r3, e_right, Direction::Right);
        r4
    }

    /// Evaluate the request's board: the best direction with its score,
    /// or NoMove exactly when no direction is a legal move. A depth
    /// budget of at least one ply never surfaces a depth cut here; that
    /// case is proved unreachable.
    pub fn eval(&self, board: &Board) -> (r: BestMove)
        requires
            self.wf(),
            cells_le(*board, 255 - self.max_depth),
        ensures
            (r is NoMove) <==> board_stuck(*board),
            r matches BestMove::Move(s, d) ==> can_move(*board, d) && -score_cap(self.max_depth - 1) <= s
                <= score_cap(self.max_depth - 1),
            r matches BestMove::Move(s, d) ==> (forall|nb: Board|
                #[trigger] is_shift_of(nb, *board, d) ==> -mean_cap(*self, 1) <= s - shift_score(
                    *board,
                    d,
                ) - gradient(nb) <= mean_cap(*self, 1)),
    {
        match self.eval_moves(board, 1) {
            IntermediateBestMove::Found(s, d) => BestMove::Move(s, d),
            IntermediateBestMove::GameOver => BestMove::NoMove,
            IntermediateBestMove::DepthExceeded => vstd::pervasive::unreached(),
        }
    }
}

/// The verdict that the move layer's selection rule reaches over a list
/// of per-direction outcomes, folded in order from an empty incumbent.
pub open spec fn spec_best(evals: Seq<(Direction, MoveEvalResult)>) -> BestMove
    decreases evals.len(),
{
    if evals.len() == 0 {
        BestMove::NoMove
    } else {
        let prev = spec_best(evals.drop_last());
        let dir = evals.last().0;
        match evals.last().1 {
            MoveEvalResult::Valid(score) => match prev {
                BestMove::Move(prev_score, prev_dir) => if prev_score >= score {
                    prev
                } else {
                    BestMove::Move(score, dir)
                },
                BestMove::NoMove => BestMove::Move(score, dir),
            },
            MoveEvalResult::InvalidMove => prev,
        }
    }
}

/// Choose among per-direction outcomes, listed in the order they were
/// evaluated, exactly as the move layer does: keep the strictly
/// greatest score, ties keep the earlier direction, and no valid entry
/// means no move. A caller that evaluated the four directions itself
/// reaches the same verdict the sequential evaluation reaches from the
/// same outcomes.
pub fn pick_best(evals: &Vec<(Direction, MoveEvalResult)>) -> (r: BestMove)
    ensures
        r == spec_best(evals@),
{
    let mut acc = BestMove::NoMove;
    let mut i: usize = 0;
    proof {
        assert(evals@.take(0) =~= Seq::<(Direction, MoveEvalResult)>::empty());
    }
    while i < evals.len()
        invariant
            i <= evals@.len(),
            acc == spec_best(evals@.take(i as int)),
        decreases evals@.len() - i,
    {
        let (dir, ev) = evals[i];
        let next = match ev {
            MoveEvalResult::Valid(score) => match acc {
                BestMove::Move(prev_score, _) => if prev_score >= score {
                    acc
                } else {
                    BestMove::Move(score, dir)
                },
                BestMove::NoMove => BestMove::Move(score, dir),
            },
            MoveEvalResult::InvalidMove => acc,
        };
        proof {
            assert(evals@.take(i as int + 1).drop_last() =~= evals@.take(i as int));
            assert(evals@.take(i as int + 1).last() == evals@[i as int]);
        }
        acc = next;
        i = i + 1;
    }
    proof {
        assert(evals@.take(evals@.len() as int) =~= evals@);
    }
    acc
}

/// The combined chance-layer score of one move depends only on which
/// branch results were gathered: delivering the same results in any
/// order, for instance from concurrently evaluated branches, yields the
/// same score as one sequential pass.
pub proof fn lemma_chance_score_permutation(
    move_score: int,
    grad: int,
    r1: Seq<IntermediateBestMove>,
    r2: Seq<IntermediateBestMove>,
)
    requires
        r1.to_multiset() == r2.to_multiset(),
    ensures
        chance_score(move_score, grad, r1) == chance_score(move_score, grad, r2),
{
    lemma_children_total_permutation(r1, r2);
    vstd::seq_lib::to_multiset_len(r1);
    vstd::seq_lib::to_multiset_len(r2);
}

} // verus!
