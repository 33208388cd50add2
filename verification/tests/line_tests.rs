use ai2048::line::{clone_line, reversed_line, shift_line};

#[test]
fn shift_merges_adjacent_equal_pair() {
    // Ranks [1, 1, 0, 0] merge to [2, 0, 0, 0]; the merge score is the
    // post-merge rank 2 scaled by 1.2 and rounded: 2.
    let mut line: [u8; 4] = [1, 1, 0, 0];
    let score = shift_line(&mut line);
    assert_eq!(line, [2, 0, 0, 0]);
    assert_eq!(score, 2);
}

#[test]
fn shift_compacts_across_gap() {
    let mut line: [u8; 4] = [0, 1, 0, 1];
    let score = shift_line(&mut line);
    assert_eq!(line, [2, 0, 0, 0]);
    assert_eq!(score, 2);
}

#[test]
fn shift_merges_each_pair_once() {
    // Four equal ranks merge pairwise in one shift; the merged ranks do
    // not merge again until the next shift.
    let mut line: [u8; 4] = [2, 2, 2, 2];
    let score = shift_line(&mut line);
    assert_eq!(line, [3, 3, 0, 0]);
    // two merges of post-merge rank 3, each round(3 * 1.2) = 4
    assert_eq!(score, 8);
    let score2 = shift_line(&mut line);
    assert_eq!(line, [4, 0, 0, 0]);
    // one merge of post-merge rank 4: round(4 * 1.2) = 5
    assert_eq!(score2, 5);
}

#[test]
fn shift_rounds_each_merge_separately() {
    // Each merge is scaled and rounded on its own: two merges of
    // post-merge rank 2 score round(2.4) + round(2.4) = 4, not the
    // rounding of the summed ranks, round(4.8) = 5.
    let mut line: [u8; 4] = [1, 1, 1, 1];
    let score = shift_line(&mut line);
    assert_eq!(line, [2, 2, 0, 0]);
    assert_eq!(score, 4);
}

#[test]
fn shift_of_settled_line_is_identity() {
    // A compacted line without equal neighbours is a fixed point.
    let mut line: [u8; 4] = [3, 2, 1, 0];
    let score = shift_line(&mut line);
    assert_eq!(line, [3, 2, 1, 0]);
    assert_eq!(score, 0);
    // Shifting twice equals shifting once on lines the first shift
    // settles.
    let mut once: [u8; 4] = [0, 3, 0, 2];
    shift_line(&mut once);
    let mut twice = once;
    let score2 = shift_line(&mut twice);
    assert_eq!(twice, once);
    assert_eq!(score2, 0);
}

#[test]
fn shift_of_empty_line_is_identity() {
    let mut line: [u8; 4] = [0, 0, 0, 0];
    let score = shift_line(&mut line);
    assert_eq!(line, [0, 0, 0, 0]);
    assert_eq!(score, 0);
}

#[test]
fn shift_scores_are_nonnegative() {
    let samples: Vec<[u8; 4]> = vec![
        [0, 0, 0, 0],
        [1, 1, 1, 1],
        [5, 5, 2, 2],
        [9, 0, 9, 3],
        [1, 2, 3, 4],
        [7, 7, 7, 0],
    ];
    for sample in samples {
        let mut line = sample;
        let score = shift_line(&mut line);
        assert!(score >= 0);
    }
}

#[test]
fn reversed_line_reverses() {
    let line: [u8; 4] = [1, 2, 3, 4];
    assert_eq!(reversed_line(&line), [4, 3, 2, 1]);
}

#[test]
fn clone_line_copies() {
    let line: [u8; 4] = [5, 0, 7, 1];
    assert_eq!(clone_line(&line), [5, 0, 7, 1]);
}
