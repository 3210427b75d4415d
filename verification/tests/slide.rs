use expectimax_2048::algorithm::{same_cells, slide_left, slide_right, slide_to_end, slide_to_start};

#[test]
fn slide_right_merges_a_pair_across_gaps() {
    let (line, score, moved) = slide_right(&[1, 0, 1, 0]);
    assert_eq!(line, vec![0, 0, 0, 2]);
    assert_eq!(score, 4);
    assert!(moved);
}

#[test]
fn slide_left_mirrors_slide_right() {
    let (line, score, moved) = slide_left(&[1, 0, 1, 0]);
    assert_eq!(line, vec![2, 0, 0, 0]);
    assert_eq!(score, 4);
    assert!(moved);
}

#[test]
fn slide_right_merges_a_run_of_three_once() {
    let (line, score, moved) = slide_right(&[1, 0, 1, 1]);
    assert_eq!(line, vec![0, 0, 1, 2]);
    assert_eq!(score, 4);
    assert!(moved);
}

#[test]
fn slide_right_leaves_alternating_tiles() {
    let (line, score, moved) = slide_right(&[1, 2, 1, 2]);
    assert_eq!(line, vec![1, 2, 1, 2]);
    assert_eq!(score, 0);
    assert!(!moved);
}

#[test]
fn three_equal_tiles_merge_on_the_side_they_slide_to() {
    assert_eq!(slide_right(&[3, 3, 3]), (vec![0, 3, 4], 16, true));
    assert_eq!(slide_left(&[3, 3, 3]), (vec![4, 3, 0], 16, true));
}

#[test]
fn four_equal_tiles_merge_in_two_pairs() {
    assert_eq!(slide_right(&[2, 2, 2, 2]), (vec![0, 0, 3, 3], 16, true));
    assert_eq!(slide_left(&[2, 2, 2, 2]), (vec![3, 3, 0, 0], 16, true));
}

#[test]
fn a_merged_tile_does_not_merge_again() {
    assert_eq!(slide_right(&[2, 1, 1, 0]), (vec![0, 0, 2, 2], 4, true));
    assert_eq!(slide_left(&[1, 1, 2, 0]), (vec![2, 2, 0, 0], 4, true));
}

#[test]
fn empty_and_single_lines_never_move() {
    assert_eq!(slide_right(&[]), (vec![], 0, false));
    assert_eq!(slide_left(&[]), (vec![], 0, false));
    assert_eq!(slide_right(&[0]), (vec![0], 0, false));
    assert_eq!(slide_right(&[5]), (vec![5], 0, false));
    assert_eq!(slide_left(&[5]), (vec![5], 0, false));
}

#[test]
fn a_line_that_is_already_packed_does_not_move() {
    assert_eq!(slide_right(&[0, 0, 1, 2]), (vec![0, 0, 1, 2], 0, false));
    assert_eq!(slide_left(&[1, 2, 0, 0]), (vec![1, 2, 0, 0], 0, false));
    assert_eq!(slide_right(&[0, 0, 0, 0]), (vec![0, 0, 0, 0], 0, false));
}

#[test]
fn a_line_without_equal_neighbours_is_only_compacted() {
    assert_eq!(slide_right(&[1, 0, 2, 0, 3, 0]), (vec![0, 0, 0, 1, 2, 3], 0, true));
    assert_eq!(slide_left(&[1, 0, 2, 0, 3, 0]), (vec![1, 2, 3, 0, 0, 0], 0, true));
    assert_eq!(slide_right(&[4, 0, 0, 1]), (vec![0, 0, 4, 1], 0, true));
    assert_eq!(slide_left(&[0, 7, 0, 0]), (vec![7, 0, 0, 0], 0, true));
}

#[test]
fn the_gain_is_the_value_of_every_tile_formed() {
    assert_eq!(slide_right(&[10, 10, 1, 1]), (vec![0, 0, 11, 2], 2048 + 4, true));
    assert_eq!(slide_right(&[9, 9, 9, 9]), (vec![0, 0, 10, 10], 2048, true));
    assert_eq!(slide_left(&[0, 5, 5, 0, 6]), (vec![6, 6, 0, 0, 0], 64, true));
}

#[test]
fn gains_and_exponents_saturate() {
    assert_eq!(slide_right(&[29, 29]), (vec![0, 30], 1 << 30, true));
    assert_eq!(slide_right(&[30, 30]), (vec![0, 31], i32::MAX, true));
    assert_eq!(slide_right(&[29, 29, 29, 29]), (vec![0, 0, 30, 30], i32::MAX, true));
    assert_eq!(slide_right(&[i32::MAX, i32::MAX]), (vec![0, i32::MAX], i32::MAX, true));
    assert_eq!(slide_left(&[i32::MAX, i32::MAX]), (vec![i32::MAX, 0], i32::MAX, true));
}

#[test]
fn a_slide_tells_whether_it_formed_the_tile_asked_about() {
    let hit = slide_to_end(&[10, 10, 1, 1], 11);
    assert_eq!(hit.line, vec![0, 0, 11, 2]);
    assert_eq!(hit.gain, 2052);
    assert!(hit.moved);
    assert!(hit.formed);
    assert!(!slide_to_end(&[9, 9, 9, 9], 11).formed);
    assert!(slide_to_end(&[9, 9, 9, 9], 10).formed);
    assert!(!slide_to_end(&[11, 0, 0, 0], 11).formed);
    let left = slide_to_start(&[1, 1, 10, 10], 11);
    assert_eq!(left.line, vec![2, 11, 0, 0]);
    assert!(left.formed);
    assert!(slide_to_start(&[0, 1, 1], 2).formed);
    assert!(!slide_to_start(&[0, 1, 1], 3).formed);
}

#[test]
fn same_cells_compares_cell_by_cell() {
    assert!(same_cells(&[], &[]));
    assert!(same_cells(&[1, 2, 3], &[1, 2, 3]));
    assert!(!same_cells(&[1, 2, 3], &[1, 2, 4]));
    assert!(!same_cells(&[1, 2], &[1, 2, 0]));
}
