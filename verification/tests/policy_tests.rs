use ai2048::policy::select_max_depth;

#[test]
fn high_value_boards_search_deep() {
    // Total tile value of at least 128 marks a board high value.
    assert_eq!(select_max_depth(128, 12), 7);
    assert_eq!(select_max_depth(500, 16), 7);
    assert_eq!(select_max_depth(128, 10), 6);
    assert_eq!(select_max_depth(128, 11), 6);
    assert_eq!(select_max_depth(128, 9), 5);
    assert_eq!(select_max_depth(1000, 0), 5);
}

#[test]
fn low_value_boards_follow_fill_level() {
    assert_eq!(select_max_depth(127, 14), 7);
    assert_eq!(select_max_depth(0, 16), 7);
    assert_eq!(select_max_depth(127, 10), 6);
    assert_eq!(select_max_depth(127, 13), 6);
    assert_eq!(select_max_depth(127, 3), 2);
    assert_eq!(select_max_depth(127, 0), 2);
    assert_eq!(select_max_depth(127, 4), 3);
    assert_eq!(select_max_depth(127, 5), 3);
    assert_eq!(select_max_depth(127, 6), 5);
    assert_eq!(select_max_depth(127, 9), 5);
}
