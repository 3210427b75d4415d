use expectimax_2048::game::GameStatus;
use expectimax_2048::three_d_game::{ThreeDDirection, ThreeDGame};

fn cube2(cells: [i32; 8]) -> ThreeDGame<2> {
    ThreeDGame::<2>::from_cells(cells.to_vec()).unwrap()
}

#[test]
fn a_cube_takes_a_grid_of_the_right_size() {
    assert!(ThreeDGame::<2>::from_cells(vec![0; 8]).is_some());
    assert!(ThreeDGame::<2>::from_cells(vec![0; 4]).is_none());
    assert!(ThreeDGame::<3>::from_cells(vec![0; 27]).is_some());
    assert!(ThreeDGame::<3>::from_cells(vec![0; 9]).is_none());
    assert!(ThreeDGame::<2>::from_cells(vec![0, 0, 0, -1, 0, 0, 0, 0]).is_none());
    let game = cube2([1, 0, 0, 0, 0, 0, 0, 2]);
    assert_eq!(game.data(), &vec![1, 0, 0, 0, 0, 0, 0, 2]);
    assert_eq!(game.score(), 0);
    assert_eq!(*game.status(), GameStatus::Ongoing);
}

#[test]
fn left_and_right_slide_the_lines() {
    let mut game = cube2([1, 1, 0, 2, 3, 0, 0, 0]);
    assert!(game.right());
    assert_eq!(game.data(), &vec![0, 2, 0, 2, 0, 3, 0, 0]);
    assert_eq!(game.score(), 4);
    assert!(game.left());
    assert_eq!(game.data(), &vec![2, 0, 2, 0, 3, 0, 0, 0]);
    assert!(!game.left());
}

#[test]
fn up_and_down_slide_along_the_second_axis() {
    let mut game = cube2([1, 0, 1, 0, 0, 0, 0, 0]);
    assert!(game.down());
    assert_eq!(game.data(), &vec![0, 0, 2, 0, 0, 0, 0, 0]);
    assert_eq!(game.score(), 4);
    assert!(game.up());
    assert_eq!(game.data(), &vec![2, 0, 0, 0, 0, 0, 0, 0]);
    assert!(!game.up());
    let mut layers = cube2([0, 0, 0, 3, 0, 4, 0, 0]);
    assert!(layers.up());
    assert_eq!(layers.data(), &vec![0, 3, 0, 0, 0, 4, 0, 0]);
    assert!(layers.down());
    assert_eq!(layers.data(), &vec![0, 0, 0, 3, 0, 0, 0, 4]);
}

#[test]
fn inward_and_outward_slide_the_pillars() {
    let mut game = cube2([1, 0, 0, 5, 1, 0, 6, 0]);
    assert!(game.outward());
    assert_eq!(game.data(), &vec![0, 0, 0, 0, 2, 0, 6, 5]);
    assert_eq!(game.score(), 4);
    assert!(!game.outward());
    assert!(game.inward());
    assert_eq!(game.data(), &vec![2, 0, 6, 5, 0, 0, 0, 0]);
    assert!(!game.inward());
    assert_eq!(game.score(), 4);
}

#[test]
fn a_pillar_merges_once_per_tile() {
    let mut game = ThreeDGame::<3>::from_cells(vec![0; 27]).unwrap();
    game.new_tile(4, 2);
    game.new_tile(13, 2);
    game.new_tile(22, 2);
    assert!(game.outward());
    assert_eq!(game.data()[4], 0);
    assert_eq!(game.data()[13], 2);
    assert_eq!(game.data()[22], 3);
    assert_eq!(game.score(), 8);
    assert!(game.inward());
    assert_eq!((game.data()[4], game.data()[13], game.data()[22]), (2, 3, 0));
}

#[test]
fn a_cube_makes_the_move_that_is_named() {
    for (direction, cells) in [
        (ThreeDDirection::Right, vec![0, 1, 0, 1, 0, 2, 0, 0]),
        (ThreeDDirection::Left, vec![1, 0, 1, 0, 2, 0, 0, 0]),
        (ThreeDDirection::Up, vec![2, 0, 0, 0, 2, 0, 0, 0]),
        (ThreeDDirection::Down, vec![0, 0, 2, 0, 0, 0, 2, 0]),
        (ThreeDDirection::Inward, vec![1, 0, 1, 0, 2, 0, 0, 0]),
        (ThreeDDirection::Outward, vec![1, 0, 0, 0, 2, 0, 1, 0]),
    ] {
        let mut game = cube2([1, 0, 1, 0, 2, 0, 0, 0]);
        let before = game.data().clone();
        let moved = game.movement(&direction);
        assert_eq!(game.data(), &cells);
        assert_eq!(moved, before != cells);
    }
}

#[test]
fn a_cube_is_lost_by_its_first_four_moves() {
    let stuck = cube2([1, 2, 2, 1, 1, 2, 2, 1]);
    assert!(stuck.check_if_lost());
    let mut copy = stuck.clone();
    assert!(copy.outward());
    assert!(!cube2([1, 1, 2, 3, 0, 0, 0, 0]).check_if_lost());
    assert!(!cube2([1, 2, 2, 1, 1, 2, 2, 0]).check_if_lost());
}

#[test]
fn a_cube_wins_once() {
    let mut game = cube2([10, 0, 0, 0, 10, 0, 0, 0]);
    assert!(game.inward());
    assert_eq!(game.data()[0], 11);
    assert_eq!(game.score(), 2048);
    assert_eq!(*game.status(), GameStatus::Won);
    game.go_on();
    game.new_tile(1, 10);
    game.new_tile(3, 10);
    assert!(game.up());
    assert_eq!(*game.status(), GameStatus::Ongoing);
    assert_eq!(game.score(), 4096);
    game.interrupt();
    assert_eq!(*game.status(), GameStatus::Interrupted);
}

#[test]
fn the_queries_of_a_cube() {
    let game = cube2([1, 0, 5, 0, 0, 3, 0, 5]);
    assert_eq!(game.get_empty_tiles(), vec![1, 3, 4, 6]);
    assert_eq!(game.get_max_tile(), 32);
    assert_eq!(game.get_tiles_sum(), 14);
    assert_eq!(cube2([0; 8]).get_max_tile(), 1);
    assert_eq!(cube2([0, 0, 31, 0, 0, 0, 0, 0]).get_max_tile(), i32::MAX);
}

#[test]
fn tiles_are_put_by_index_and_by_coordinates() {
    let mut game = ThreeDGame::<3>::from_cells(vec![0; 27]).unwrap();
    game.new_tile(26, 1);
    game.new_tile_xy(1, 2, 0, 4);
    game.new_tile_xy(0, 0, 2, 5);
    assert_eq!(game.data()[26], 1);
    assert_eq!(game.data()[9 + 6], 4);
    assert_eq!(game.data()[2], 5);
    assert_eq!(game.get_tiles_sum(), 10);
}
