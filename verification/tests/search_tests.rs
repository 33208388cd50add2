use ai2048::board::{Board, Direction};
use ai2048::protocol::read_request;
use ai2048::sampling::shuffle;
use ai2048::search::{
    BestMove, EvalContext, IntermediateBestMove, MoveEvalResult, pick_best,
};

fn search_board(rows: [[u8; 4]; 4]) -> Board {
    Board::from_rows(vec![rows[0], rows[1], rows[2], rows[3]])
}

fn stuck_board() -> Board {
    // A full checkerboard: no empty cell and no equal neighbours in any
    // row or column, so no direction changes anything.
    search_board([[1, 2, 1, 2], [2, 1, 2, 1], [1, 2, 1, 2], [2, 1, 2, 1]])
}

#[test]
fn full_stuck_board_is_game_over_at_any_depth() {
    for depth in [1usize, 2, 3, 4, 5, 6, 7] {
        let ctx = EvalContext::new(depth, 1000, 600, 2);
        assert_eq!(ctx.eval(&stuck_board()), BestMove::NoMove);
    }
}

#[test]
fn move_layer_classifies_game_over_and_depth_cut() {
    let ctx = EvalContext::new(7, 1000, 600, 2);
    assert_eq!(ctx.eval_moves(&stuck_board(), 1), IntermediateBestMove::GameOver);
    assert_eq!(ctx.eval_moves(&stuck_board(), 8), IntermediateBestMove::DepthExceeded);
}

#[test]
fn corner_tile_validity_split() {
    // A 16-byte all-zero payload except rank 1 at byte 0, which is the
    // cell (0, 0): the tile sits in the top-left corner, so Up and Left
    // change nothing while Down and Right move it.
    let mut raw: Vec<u8> = vec![0; 17];
    raw[0] = 1;
    let (b, _) = read_request(&raw).unwrap();
    let ctx = EvalContext::new(2, 1000, 600, 2);
    assert!(matches!(ctx.eval_move(&b, Direction::Up, 1), MoveEvalResult::InvalidMove));
    assert!(matches!(ctx.eval_move(&b, Direction::Left, 1), MoveEvalResult::InvalidMove));
    assert!(matches!(ctx.eval_move(&b, Direction::Down, 1), MoveEvalResult::Valid(_)));
    assert!(matches!(ctx.eval_move(&b, Direction::Right, 1), MoveEvalResult::Valid(_)));
}

#[test]
fn no_change_is_the_sole_validity_test() {
    // The top row is packed to the left without equal neighbours and
    // the rest is empty: horizontal shifts change nothing, vertical
    // shifts toward the bottom do.
    let b = search_board([[1, 2, 3, 4], [0, 0, 0, 0], [0, 0, 0, 0], [0, 0, 0, 0]]);
    let ctx = EvalContext::new(2, 1000, 600, 2);
    assert!(matches!(ctx.eval_move(&b, Direction::Left, 1), MoveEvalResult::InvalidMove));
    assert!(matches!(ctx.eval_move(&b, Direction::Right, 1), MoveEvalResult::InvalidMove));
    assert!(matches!(ctx.eval_move(&b, Direction::Up, 1), MoveEvalResult::InvalidMove));
    assert!(matches!(ctx.eval_move(&b, Direction::Down, 1), MoveEvalResult::Valid(_)));
}

#[test]
fn eval_returns_a_direction_that_changes_the_board() {
    let b = search_board([[1, 1, 0, 0], [0, 2, 0, 0], [0, 0, 0, 0], [0, 0, 0, 2]]);
    let ctx = EvalContext::new(3, 1000, 600, 2);
    match ctx.eval(&b) {
        BestMove::Move(_, dir) => {
            let (shifted, _) = b.shifted_board(dir);
            assert!(shifted != b);
        },
        BestMove::NoMove => panic!("a movable board reported no move"),
    }
}

#[test]
fn to_fill_follows_fill_decay_floor_and_ceiling() {
    let ctx = EvalContext::new(5, 1000, 600, 2);
    // fill 1.0 at depth 1: round(16) = 16, capped by the cells available
    assert_eq!(ctx.to_fill(1, 16), 16);
    assert_eq!(ctx.to_fill(1, 5), 5);
    // decayed: 0.6 -> 10, 0.36 -> 6, 0.216 -> 3, 0.129 -> 2
    assert_eq!(ctx.to_fill(2, 16), 10);
    assert_eq!(ctx.to_fill(3, 16), 6);
    assert_eq!(ctx.to_fill(4, 16), 3);
    assert_eq!(ctx.to_fill(5, 16), 2);
    // never above the cells available, never below the floor unless
    // fewer cells exist
    assert_eq!(ctx.to_fill(5, 1), 1);
    assert_eq!(ctx.to_fill(4, 2), 2);
    let sparse = EvalContext::new(5, 0, 1000, 2);
    assert_eq!(sparse.to_fill(1, 16), 2);
    assert_eq!(sparse.to_fill(1, 1), 1);
}

#[test]
fn finish_move_combines_branch_results_exactly() {
    // total = 100 - 2048 + 0 = -1948 over three branches; the rounded
    // mean is -649; the empty board's gradient is 16.
    let ctx = EvalContext::new(2, 1000, 600, 2);
    let empty = search_board([[0, 0, 0, 0], [0, 0, 0, 0], [0, 0, 0, 0], [0, 0, 0, 0]]);
    let results = vec![
        IntermediateBestMove::Found(100, Direction::Up),
        IntermediateBestMove::GameOver,
        IntermediateBestMove::DepthExceeded,
    ];
    assert_eq!(ctx.finish_move(10, &empty, &results), 10 + 16 - 649);
}

#[test]
fn pick_best_keeps_first_of_equal_scores() {
    let evals = vec![
        (Direction::Up, MoveEvalResult::InvalidMove),
        (Direction::Down, MoveEvalResult::Valid(7)),
        (Direction::Left, MoveEvalResult::Valid(7)),
        (Direction::Right, MoveEvalResult::Valid(3)),
    ];
    assert_eq!(pick_best(&evals), BestMove::Move(7, Direction::Down));
    let none: Vec<(Direction, MoveEvalResult)> = vec![
        (Direction::Up, MoveEvalResult::InvalidMove),
        (Direction::Down, MoveEvalResult::InvalidMove),
    ];
    assert_eq!(pick_best(&none), BestMove::NoMove);
    let better_later = vec![
        (Direction::Up, MoveEvalResult::Valid(1)),
        (Direction::Down, MoveEvalResult::Valid(2)),
    ];
    assert_eq!(pick_best(&better_later), BestMove::Move(2, Direction::Down));
}

#[test]
fn fanout_combination_matches_sequential_search() {
    // Evaluate the depth-1 fan-out the way a concurrent caller would:
    // prepare each move, evaluate every sampled branch independently,
    // combine with finish_move and choose with pick_best. With every
    // empty cell sampled and a two-ply budget the whole computation is
    // deterministic up to branch order, and the combination is
    // order-independent, so the verdict equals the sequential one.
    let b = search_board([[1, 1, 0, 0], [0, 0, 2, 0], [0, 0, 0, 0], [0, 0, 0, 2]]);
    let ctx = EvalContext::new(2, 1000, 1000, 16);
    let sequential = ctx.eval(&b);
    let mut evals: Vec<(Direction, MoveEvalResult)> = Vec::new();
    for dir in [Direction::Up, Direction::Down, Direction::Left, Direction::Right] {
        let ev = match ctx.prepare_move(&b, dir, 1) {
            None => MoveEvalResult::InvalidMove,
            Some((move_score, shifted, children)) => {
                let mut results: Vec<IntermediateBestMove> = Vec::new();
                let mut i: usize = 0;
                while i < children.len() {
                    results.push(ctx.eval_moves(&children[i], 2));
                    i += 1;
                }
                MoveEvalResult::Valid(ctx.finish_move(move_score, &shifted, &results))
            },
        };
        evals.push((dir, ev));
    }
    assert_eq!(pick_best(&evals), sequential);
}

#[test]
fn deepest_layer_scores_shift_plus_gradient() {
    // With a one-ply budget every sampled branch is cut off and
    // contributes nothing: a valid move scores exactly its merge score
    // plus the shifted board's gradient.
    let b = search_board([[1, 1, 0, 0], [0, 2, 0, 0], [3, 0, 0, 0], [0, 0, 0, 2]]);
    let ctx = EvalContext::new(1, 1000, 600, 2);
    match ctx.eval_move(&b, Direction::Left, 1) {
        MoveEvalResult::Valid(s) => {
            let (shifted, move_score) = b.shifted_board(Direction::Left);
            assert_eq!(s, move_score + shifted.gradient_score());
        },
        MoveEvalResult::InvalidMove => panic!("a merging shift reported no change"),
    }
}

#[test]
fn shuffle_preserves_contents() {
    let original: Vec<(usize, usize)> = vec![
        (0, 0),
        (1, 0),
        (2, 0),
        (3, 0),
        (0, 1),
        (1, 1),
        (2, 1),
        (3, 1),
    ];
    let mut v = original.clone();
    shuffle(&mut v);
    let mut sorted = v.clone();
    sorted.sort();
    let mut expect = original.clone();
    expect.sort();
    assert_eq!(sorted, expect);
}

#[test]
fn shuffle_actually_permutes() {
    // Over many runs a shuffle that always returned the identity
    // permutation would betray a random source stuck at its lower
    // bound.
    let original: Vec<(usize, usize)> = (0..10).map(|i| (i, 0)).collect();
    let mut saw_change = false;
    for _ in 0..100 {
        let mut v = original.clone();
        shuffle(&mut v);
        if v != original {
            saw_change = true;
            break;
        }
    }
    assert!(saw_change);
}
