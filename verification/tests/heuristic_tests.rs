use ai2048::board::Board;

fn heur_board(rows: [[u8; 4]; 4]) -> Board {
    Board::from_rows(vec![rows[0], rows[1], rows[2], rows[3]])
}

#[test]
fn gradient_of_empty_board() {
    // Every horizontal difference is zero: +1 per cell on both edges;
    // no vertical contribution. max(16, 16) + max(0, 0) = 16.
    let b = heur_board([[0, 0, 0, 0], [0, 0, 0, 0], [0, 0, 0, 0], [0, 0, 0, 0]]);
    assert_eq!(b.gradient_score(), 16);
}

#[test]
fn gradient_of_single_corner_tile() {
    // One rank-2 tile at (0, 0). Column-0 edge: 16 points. Column-3
    // edge: 3 + 1 + 1 + 1 - 12 = -9 on the top row, +12 elsewhere.
    // One downward vertical half point. round(16 + 0.5) = 17.
    let b = heur_board([[2, 0, 0, 0], [0, 0, 0, 0], [0, 0, 0, 0], [0, 0, 0, 0]]);
    assert_eq!(b.gradient_score(), 17);
}

#[test]
fn gradient_mirror_invariance() {
    // Left-right mirroring swaps which edge is the reference; the score
    // takes the larger of the two, so a monotonic board and its mirror
    // score the same.
    let b = heur_board([[6, 5, 4, 3], [5, 4, 3, 2], [4, 3, 2, 1], [3, 2, 1, 0]]);
    let m = heur_board([[3, 4, 5, 6], [2, 3, 4, 5], [1, 2, 3, 4], [0, 1, 2, 3]]);
    assert_eq!(b.gradient_score(), m.gradient_score());
}

#[test]
fn gradient_mirror_invariance_irregular() {
    let b = heur_board([[9, 1, 4, 4], [0, 2, 0, 7], [3, 3, 3, 3], [1, 0, 5, 2]]);
    let m = heur_board([[4, 4, 1, 9], [7, 0, 2, 0], [3, 3, 3, 3], [2, 5, 0, 1]]);
    assert_eq!(b.gradient_score(), m.gradient_score());
}

#[test]
fn gradient_penalizes_walled_in_edge() {
    // A large tile inside the row with smaller tiles at both edges
    // drags both horizontal accumulators down.
    let ordered = heur_board([[5, 4, 3, 2], [0, 0, 0, 0], [0, 0, 0, 0], [0, 0, 0, 0]]);
    let walled = heur_board([[2, 5, 4, 3], [0, 0, 0, 0], [0, 0, 0, 0], [0, 0, 0, 0]]);
    assert!(walled.gradient_score() < ordered.gradient_score());
}
