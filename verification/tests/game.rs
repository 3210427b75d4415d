use expectimax_2048::game::{directions, Direction, Game, GameStatus};

fn board4(cells: [i32; 16]) -> Game<4> {
    Game::<4>::from_cells(cells.to_vec()).unwrap()
}

fn sample() -> Game<4> {
    board4([1, 1, 0, 0, 2, 0, 2, 0, 0, 0, 0, 0, 3, 3, 3, 3])
}

fn packed() -> Game<4> {
    board4([1, 2, 1, 2, 2, 1, 2, 1, 1, 2, 1, 2, 2, 1, 2, 1])
}

#[test]
fn from_cells_takes_a_grid_of_the_right_size() {
    let game = sample();
    assert_eq!(game.data(), &vec![1, 1, 0, 0, 2, 0, 2, 0, 0, 0, 0, 0, 3, 3, 3, 3]);
    assert_eq!(game.score(), 0);
    assert_eq!(*game.status(), GameStatus::Ongoing);
}

#[test]
fn from_cells_refuses_other_grids() {
    assert!(Game::<4>::from_cells(vec![0; 15]).is_none());
    assert!(Game::<4>::from_cells(vec![0; 17]).is_none());
    assert!(Game::<2>::from_cells(vec![0, 1, -1, 0]).is_none());
    assert!(Game::<2>::from_cells(vec![0, 1, 2, 0]).is_some());
    assert!(Game::<0>::from_cells(vec![]).is_some());
}

#[test]
fn the_directions_come_in_the_order_of_the_search() {
    assert_eq!(directions(), [Direction::Up, Direction::Down, Direction::Left, Direction::Right]);
}

#[test]
fn right_slides_every_row_to_its_end() {
    let mut game = sample();
    assert!(game.right());
    assert_eq!(game.data(), &vec![0, 0, 0, 2, 0, 0, 0, 3, 0, 0, 0, 0, 0, 0, 4, 4]);
    assert_eq!(game.score(), 4 + 8 + 32);
}

#[test]
fn left_slides_every_row_to_its_start() {
    let mut game = sample();
    assert!(game.left());
    assert_eq!(game.data(), &vec![2, 0, 0, 0, 3, 0, 0, 0, 0, 0, 0, 0, 4, 4, 0, 0]);
    assert_eq!(game.score(), 44);
}

#[test]
fn up_slides_every_column_to_its_start() {
    let mut game = sample();
    assert!(game.up());
    assert_eq!(game.data(), &vec![1, 1, 2, 3, 2, 3, 3, 0, 3, 0, 0, 0, 0, 0, 0, 0]);
    assert_eq!(game.score(), 0);
}

#[test]
fn down_slides_every_column_to_its_end() {
    let mut game = sample();
    assert!(game.down());
    assert_eq!(game.data(), &vec![0, 0, 0, 0, 1, 0, 0, 0, 2, 1, 2, 0, 3, 3, 3, 3]);
    assert_eq!(game.score(), 0);
}

#[test]
fn columns_merge_like_rows() {
    let mut game = board4([1, 0, 0, 0, 1, 0, 0, 0, 2, 0, 0, 0, 2, 0, 0, 0]);
    assert!(game.down());
    assert_eq!(game.data(), &vec![0, 0, 0, 0, 0, 0, 0, 0, 2, 0, 0, 0, 3, 0, 0, 0]);
    assert_eq!(game.score(), 4 + 8);
    let mut game = board4([1, 0, 0, 0, 1, 0, 0, 0, 1, 0, 0, 0, 0, 0, 0, 0]);
    assert!(game.up());
    assert_eq!(game.data(), &vec![2, 0, 0, 0, 1, 0, 0, 0, 0, 0, 0, 0, 0, 0, 0, 0]);
    assert_eq!(game.score(), 4);
}

#[test]
fn movement_makes_the_move_that_is_named() {
    for (direction, cells) in [
        (Direction::Right, vec![0, 0, 0, 2, 0, 0, 0, 3, 0, 0, 0, 0, 0, 0, 4, 4]),
        (Direction::Left, vec![2, 0, 0, 0, 3, 0, 0, 0, 0, 0, 0, 0, 4, 4, 0, 0]),
        (Direction::Up, vec![1, 1, 2, 3, 2, 3, 3, 0, 3, 0, 0, 0, 0, 0, 0, 0]),
        (Direction::Down, vec![0, 0, 0, 0, 1, 0, 0, 0, 2, 1, 2, 0, 3, 3, 3, 3]),
    ] {
        let mut game = sample();
        assert!(game.movement(&direction));
        assert_eq!(game.data(), &cells);
    }
}

#[test]
fn a_move_that_changes_nothing_reports_so() {
    let mut game = board4([0, 0, 0, 1, 0, 0, 0, 2, 0, 0, 0, 0, 0, 0, 0, 0]);
    assert!(!game.right());
    assert!(!game.up());
    assert_eq!(game.data(), &vec![0, 0, 0, 1, 0, 0, 0, 2, 0, 0, 0, 0, 0, 0, 0, 0]);
    assert_eq!(game.score(), 0);
    assert!(game.left());
}

#[test]
fn a_packed_board_without_equal_neighbours_is_lost() {
    let game = packed();
    for direction in directions() {
        let mut copy = game.clone();
        assert!(!copy.movement(&direction));
        assert_eq!(copy.data(), game.data());
    }
    assert!(game.check_if_lost());
    assert_eq!(game.data(), &vec![1, 2, 1, 2, 2, 1, 2, 1, 1, 2, 1, 2, 2, 1, 2, 1]);
}

#[test]
fn a_board_with_a_move_is_not_lost() {
    assert!(!sample().check_if_lost());
    assert!(!board4([0; 16]).right());
    assert!(board4([0; 16]).check_if_lost());
    let mut one_pair = packed();
    assert!(one_pair.check_if_lost());
    one_pair = board4([1, 2, 1, 2, 2, 1, 2, 1, 1, 2, 1, 2, 2, 1, 2, 2]);
    assert!(!one_pair.check_if_lost());
    let only_down = board4([1, 2, 1, 2, 2, 1, 2, 1, 1, 2, 1, 2, 2, 1, 2, 0]);
    assert!(!only_down.check_if_lost());
}

#[test]
fn check_if_lost_agrees_with_the_four_moves() {
    let boards = [
        [1, 2, 1, 2, 2, 1, 2, 1, 1, 2, 1, 2, 2, 1, 2, 1],
        [1, 2, 1, 2, 2, 1, 2, 1, 1, 2, 1, 2, 2, 1, 1, 2],
        [0, 0, 0, 1, 0, 0, 0, 2, 0, 0, 0, 3, 0, 0, 0, 4],
        [5, 4, 3, 2, 4, 3, 2, 1, 3, 2, 1, 5, 2, 1, 5, 4],
        [1, 1, 0, 0, 2, 0, 2, 0, 0, 0, 0, 0, 3, 3, 3, 3],
    ];
    for cells in boards {
        let game = board4(cells);
        let mut any = false;
        for direction in directions() {
            let mut copy = game.clone();
            any = copy.movement(&direction) || any;
        }
        assert_eq!(game.check_if_lost(), !any);
    }
}

#[test]
fn the_score_never_goes_down() {
    let mut game = board4([1, 1, 2, 2, 3, 3, 4, 4, 1, 0, 1, 0, 0, 2, 0, 2]);
    let moves = [
        Direction::Left,
        Direction::Up,
        Direction::Right,
        Direction::Down,
        Direction::Left,
        Direction::Left,
        Direction::Down,
        Direction::Right,
        Direction::Up,
        Direction::Up,
    ];
    let mut before = game.score();
    let mut gained = false;
    for direction in moves {
        game.movement(&direction);
        assert!(game.score() >= before);
        gained = gained || game.score() > before;
        before = game.score();
    }
    assert!(gained);
}

#[test]
fn the_score_is_capped() {
    let mut game = board4([30, 30, 0, 0, 30, 30, 0, 0, 0, 0, 0, 0, 0, 0, 0, 0]);
    assert!(game.right());
    assert_eq!(game.score(), i32::MAX);
    let mut next = board4([29, 29, 0, 0, 1, 1, 0, 0, 0, 0, 0, 0, 0, 0, 0, 0]);
    assert!(next.left());
    assert_eq!(next.score(), (1 << 30) + 4);
    assert!(next.right());
    let mut more = Game::<4>::from_cells(next.data().clone()).unwrap();
    more.new_tile(0, 1);
    more.new_tile(1, 1);
    assert!(more.left());
}

#[test]
fn forming_the_winning_tile_wins_once() {
    let mut game = board4([10, 10, 0, 0, 0, 0, 0, 0, 0, 0, 0, 0, 0, 0, 0, 0]);
    assert!(game.right());
    assert_eq!(game.data()[3], 11);
    assert_eq!(game.score(), 2048);
    assert_eq!(*game.status(), GameStatus::Won);
    game.go_on();
    assert_eq!(*game.status(), GameStatus::Ongoing);
    game.new_tile(0, 10);
    game.new_tile(1, 10);
    assert!(game.right());
    assert_eq!(game.data(), &vec![0, 0, 11, 11, 0, 0, 0, 0, 0, 0, 0, 0, 0, 0, 0, 0]);
    assert_eq!(game.score(), 4096);
    assert_eq!(*game.status(), GameStatus::Ongoing);
}

#[test]
fn the_winning_tile_counts_beside_another_merge() {
    let mut game = board4([10, 10, 1, 1, 0, 0, 0, 0, 0, 0, 0, 0, 0, 0, 0, 0]);
    assert!(game.left());
    assert_eq!(game.score(), 2052);
    assert_eq!(*game.status(), GameStatus::Won);
    let mut column = board4([10, 0, 0, 0, 10, 0, 0, 0, 0, 0, 0, 0, 0, 0, 0, 0]);
    assert!(column.down());
    assert_eq!(*column.status(), GameStatus::Won);
}

#[test]
fn other_merges_do_not_win() {
    let mut game = board4([9, 9, 9, 9, 0, 0, 0, 0, 0, 0, 0, 0, 0, 0, 0, 0]);
    assert!(game.right());
    assert_eq!(game.score(), 2048);
    assert_eq!(*game.status(), GameStatus::Ongoing);
    let mut higher = board4([11, 11, 0, 0, 0, 0, 0, 0, 0, 0, 0, 0, 0, 0, 0, 0]);
    assert!(higher.right());
    assert_eq!(*higher.status(), GameStatus::Ongoing);
}

#[test]
fn interrupt_and_go_on_set_the_status() {
    let mut game = sample();
    game.interrupt();
    assert_eq!(*game.status(), GameStatus::Interrupted);
    assert!(game.right());
    assert_eq!(*game.status(), GameStatus::Interrupted);
    game.go_on();
    assert_eq!(*game.status(), GameStatus::Ongoing);
    assert_eq!(game.score(), 44);
}

#[test]
fn transpose_gives_a_game_on_the_transposed_grid() {
    let mut game = sample();
    game.right();
    game.interrupt();
    let turned = game.transpose();
    assert_eq!(turned.data(), &vec![0, 0, 0, 0, 0, 0, 0, 0, 0, 0, 0, 4, 2, 3, 0, 4]);
    assert_eq!(turned.score(), 44);
    assert_eq!(*turned.status(), GameStatus::Ongoing);
    assert_eq!(turned.transpose().data(), game.data());
}

#[test]
fn new_tile_puts_a_tile_on_a_cell() {
    let mut game = board4([0; 16]);
    game.new_tile(5, 3);
    game.new_tile(15, 1);
    assert_eq!(game.data(), &vec![0, 0, 0, 0, 0, 3, 0, 0, 0, 0, 0, 0, 0, 0, 0, 1]);
    assert_eq!(game.score(), 0);
}

#[test]
fn new_tile_xy_puts_the_tile_four_by_row_and_column() {
    let mut game = board4([0; 16]);
    game.new_tile_xy(1, 2);
    game.new_tile_xy(3, 0);
    assert_eq!(game.data(), &vec![0, 0, 0, 0, 0, 0, 2, 0, 0, 0, 0, 0, 2, 0, 0, 0]);
    let mut small = Game::<2>::from_cells(vec![0; 4]).unwrap();
    small.new_tile_xy(1, 1);
    assert_eq!(small.data(), &vec![0, 0, 0, 2]);
}

#[test]
fn moves_work_on_other_sizes() {
    let mut two = Game::<2>::from_cells(vec![1, 1, 2, 0]).unwrap();
    assert!(two.left());
    assert_eq!(two.data(), &vec![2, 0, 2, 0]);
    assert!(two.down());
    assert_eq!(two.data(), &vec![0, 0, 3, 0]);
    assert_eq!(two.score(), 4 + 8);
    let mut five = Game::<5>::from_cells(vec![0; 25]).unwrap();
    five.new_tile(0, 1);
    five.new_tile(20, 1);
    assert!(five.up());
    assert_eq!(five.data()[0], 2);
    assert_eq!(five.data()[20], 0);
    let mut none = Game::<0>::from_cells(vec![]).unwrap();
    assert!(!none.right());
    assert!(!none.up());
    assert!(none.check_if_lost());
    let mut one = Game::<1>::from_cells(vec![3]).unwrap();
    assert!(!one.left());
    assert!(!one.down());
}

#[test]
fn clone_gives_an_equal_game_of_its_own() {
    let mut game = sample();
    game.right();
    let copy = game.clone();
    game.left();
    assert_eq!(copy.data(), &vec![0, 0, 0, 2, 0, 0, 0, 3, 0, 0, 0, 0, 0, 0, 4, 4]);
    assert_eq!(copy.score(), 44);
    assert_ne!(copy.data(), game.data());
}

#[test]
fn a_lost_game_is_booked_as_lost_once_it_is_going_on() {
    let mut game = packed();
    assert!(game.mark_lost());
    assert_eq!(*game.status(), GameStatus::Lost);
    assert!(game.mark_lost());
    assert_eq!(*game.status(), GameStatus::Lost);
    let mut open = sample();
    assert!(!open.mark_lost());
    assert_eq!(*open.status(), GameStatus::Ongoing);
    let mut stopped = packed();
    stopped.interrupt();
    assert!(stopped.mark_lost());
    assert_eq!(*stopped.status(), GameStatus::Interrupted);
    let mut won = board4([10, 10, 1, 2, 1, 2, 1, 2, 2, 1, 2, 1, 1, 2, 1, 2]);
    assert!(won.left());
    assert_eq!(*won.status(), GameStatus::Won);
    won.new_tile(3, 3);
    assert!(won.mark_lost());
    assert_eq!(*won.status(), GameStatus::Won);
}
