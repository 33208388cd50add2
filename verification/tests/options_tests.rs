use ai2048::board::Board;
use ai2048::options::{OptionsIterator, collect_options};

fn opts_board(rows: [[u8; 4]; 4]) -> Board {
    Board::from_rows(vec![rows[0], rows[1], rows[2], rows[3]])
}

#[test]
fn enumerates_empty_cells_in_row_major_order() {
    // Occupied: (1, 0) and (2, 1). Every other coordinate appears,
    // x varying fastest, and no occupied one does.
    let b = opts_board([[0, 7, 0, 0], [0, 0, 7, 0], [0, 0, 0, 0], [0, 0, 0, 0]]);
    let v = collect_options(&b);
    let expect: Vec<(usize, usize)> = vec![
        (0, 0),
        (2, 0),
        (3, 0),
        (0, 1),
        (1, 1),
        (3, 1),
        (0, 2),
        (1, 2),
        (2, 2),
        (3, 2),
        (0, 3),
        (1, 3),
        (2, 3),
        (3, 3),
    ];
    assert_eq!(v, expect);
}

#[test]
fn enumerates_whole_empty_board() {
    let b = opts_board([[0, 0, 0, 0], [0, 0, 0, 0], [0, 0, 0, 0], [0, 0, 0, 0]]);
    let v = collect_options(&b);
    assert_eq!(v.len(), 16);
    assert_eq!(v[0], (0, 0));
    assert_eq!(v[1], (1, 0));
    assert_eq!(v[4], (0, 1));
    assert_eq!(v[15], (3, 3));
}

#[test]
fn enumerates_nothing_on_full_board() {
    let b = opts_board([[1, 2, 1, 2], [2, 1, 2, 1], [1, 2, 1, 2], [2, 1, 2, 1]]);
    let v = collect_options(&b);
    assert!(v.is_empty());
}

#[test]
fn iterator_steps_through_empty_cells() {
    let b = opts_board([[7, 0, 7, 0], [7, 7, 7, 7], [7, 7, 7, 7], [7, 7, 7, 0]]);
    let mut it = OptionsIterator::new(&b);
    assert_eq!(it.next(), Some((1, 0)));
    assert_eq!(it.next(), Some((3, 0)));
    assert_eq!(it.next(), Some((3, 3)));
    assert_eq!(it.next(), None);
    assert_eq!(it.next(), None);
}
