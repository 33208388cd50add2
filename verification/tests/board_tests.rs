use ai2048::board::{Board, Direction};

fn board_from_rows(rows: [[u8; 4]; 4]) -> Board {
    Board::from_rows(vec![rows[0], rows[1], rows[2], rows[3]])
}

#[test]
fn from_raw_reads_columns_first() {
    // Byte i lands in column i % 4 of row i / 4: x increments before y.
    let mut raw: Vec<u8> = vec![0; 16];
    raw[0] = 1;  // (0, 0)
    raw[3] = 2;  // (3, 0)
    raw[4] = 3;  // (0, 1)
    raw[15] = 4;  // (3, 3)
    let b = Board::from_raw(&raw);
    assert_eq!(b.get_row(0), [1, 0, 0, 2]);
    assert_eq!(b.get_row(1), [3, 0, 0, 0]);
    assert_eq!(b.get_row(2), [0, 0, 0, 0]);
    assert_eq!(b.get_row(3), [0, 0, 0, 4]);
    assert_eq!(b.get_col(0), [1, 3, 0, 0]);
    assert_eq!(b.get_col(3), [2, 0, 0, 4]);
}

#[test]
fn rows_and_cols_round_trip() {
    let b = board_from_rows([[1, 2, 3, 4], [5, 6, 7, 8], [9, 10, 11, 12], [13, 14, 15, 16]]);
    assert_eq!(b.get_row(2), [9, 10, 11, 12]);
    assert_eq!(b.get_col(1), [2, 6, 10, 14]);
    let c = Board::from_cols(vec![b.get_col(0), b.get_col(1), b.get_col(2), b.get_col(3)]);
    assert!(c == b);
}

#[test]
fn board_equality_is_cell_by_cell() {
    let a = board_from_rows([[1, 0, 0, 0], [0, 0, 0, 0], [0, 0, 0, 0], [0, 0, 0, 0]]);
    let b = board_from_rows([[1, 0, 0, 0], [0, 0, 0, 0], [0, 0, 0, 0], [0, 0, 0, 0]]);
    let c = board_from_rows([[0, 1, 0, 0], [0, 0, 0, 0], [0, 0, 0, 0], [0, 0, 0, 0]]);
    assert!(a == b);
    assert!(a != c);
}

#[test]
fn place_tile_copies_and_set_tile_mutates() {
    let b = board_from_rows([[0, 0, 0, 0], [0, 0, 0, 0], [0, 0, 0, 0], [0, 0, 0, 0]]);
    let placed = b.place_tile(2, 1, 5);
    assert_eq!(b.get_row(1), [0, 0, 0, 0]);
    assert_eq!(placed.get_row(1), [0, 0, 5, 0]);
    let mut m = b;
    m.set_tile(2, 1, 5);
    assert!(m == placed);
    m.set_tile(2, 1, 0);
    assert!(m == b);
}

#[test]
fn shift_left_merges_adjacent_pair() {
    // Ranks [1, 1, 0, 0] shifted Left become [2, 0, 0, 0] with merge
    // score round(2 * 1.2) = 2.
    let b = board_from_rows([[1, 1, 0, 0], [0, 0, 0, 0], [0, 0, 0, 0], [0, 0, 0, 0]]);
    let (shifted, score) = b.shifted_board(Direction::Left);
    let expect = board_from_rows([[2, 0, 0, 0], [0, 0, 0, 0], [0, 0, 0, 0], [0, 0, 0, 0]]);
    assert!(shifted == expect);
    assert_eq!(score, 2);
}

#[test]
fn shift_right_reverses_rows() {
    let b = board_from_rows([[1, 1, 0, 3], [0, 0, 0, 0], [0, 0, 0, 0], [0, 0, 0, 0]]);
    let (shifted, score) = b.shifted_board(Direction::Right);
    let expect = board_from_rows([[0, 0, 2, 3], [0, 0, 0, 0], [0, 0, 0, 0], [0, 0, 0, 0]]);
    assert!(shifted == expect);
    assert_eq!(score, 2);
}

#[test]
fn shift_up_and_down_work_on_columns() {
    let b = board_from_rows([[0, 0, 0, 0], [2, 0, 0, 0], [2, 0, 0, 0], [1, 0, 0, 0]]);
    let (up, up_score) = b.shifted_board(Direction::Up);
    let expect_up = board_from_rows([[3, 0, 0, 0], [1, 0, 0, 0], [0, 0, 0, 0], [0, 0, 0, 0]]);
    assert!(up == expect_up);
    // merge produced rank 3: round(3 * 1.2) = 4
    assert_eq!(up_score, 4);
    let (down, down_score) = b.shifted_board(Direction::Down);
    let expect_down = board_from_rows([[0, 0, 0, 0], [0, 0, 0, 0], [3, 0, 0, 0], [1, 0, 0, 0]]);
    assert!(down == expect_down);
    assert_eq!(down_score, 4);
}

#[test]
fn shift_scores_are_nonnegative_in_all_directions() {
    let b = board_from_rows([[1, 1, 2, 2], [3, 0, 3, 0], [0, 4, 0, 4], [5, 5, 5, 5]]);
    for dir in [Direction::Up, Direction::Down, Direction::Left, Direction::Right] {
        let (_, score) = b.shifted_board(dir);
        assert!(score >= 0);
    }
}

#[test]
fn no_op_shift_returns_identical_board() {
    // No gaps toward the left, no equal neighbours in any row:
    // Left changes nothing, cell for cell.
    let b = board_from_rows([[1, 2, 3, 4], [2, 3, 4, 5], [3, 4, 5, 6], [4, 5, 6, 7]]);
    let (shifted, score) = b.shifted_board(Direction::Left);
    assert!(shifted == b);
    assert_eq!(score, 0);
    let (shifted_r, score_r) = b.shifted_board(Direction::Right);
    assert!(shifted_r == b);
    assert_eq!(score_r, 0);
}

#[test]
fn aggregate_metrics() {
    let b = board_from_rows([[1, 2, 0, 0], [0, 0, 0, 0], [0, 0, 0, 0], [0, 0, 0, 0]]);
    assert_eq!(b.total_value(), 3);
    // 2^1 + 2^2 + fourteen empty cells counting 2^0 each
    assert_eq!(b.total_value_exp(), 2 + 4 + 14);
    assert_eq!(b.total_nonzeros(), 2);
}

#[test]
fn direction_codes_are_the_wire_format() {
    assert_eq!(Direction::Up.code(), 0);
    assert_eq!(Direction::Down.code(), 1);
    assert_eq!(Direction::Left.code(), 2);
    assert_eq!(Direction::Right.code(), 3);
}
