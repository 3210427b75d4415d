use expectimax_2048::game::Game;
use expectimax_2048::strategies::expectimax::ExpectimaxStrategy;

fn board4(cells: [i32; 16]) -> Game<4> {
    Game::<4>::from_cells(cells.to_vec()).unwrap()
}

fn player() -> ExpectimaxStrategy<4> {
    ExpectimaxStrategy::<4>::new(1, 0, 0, 0, 0, 0)
}

#[test]
fn utility_max_tile_is_the_highest_exponent() {
    assert_eq!(player().utility_max_tile(&board4([0; 16])), 0);
    let game = board4([1, 0, 5, 2, 0, 3, 0, 5, 4, 0, 11, 0, 0, 0, 0, 1]);
    assert_eq!(player().utility_max_tile(&game), 11);
}

#[test]
fn the_empty_cells_are_counted() {
    let game = board4([1, 0, 5, 2, 0, 3, 0, 5, 4, 0, 11, 0, 0, 0, 0, 1]);
    assert_eq!(player().utility_empty_tiles(&game), 8);
    assert_eq!(player().utility_num_empty_tiles(&game), 8);
    assert_eq!(player().utility_empty_tiles(&board4([0; 16])), 16);
    assert_eq!(player().utility_num_empty_tiles(&board4([2; 16])), 0);
}

#[test]
fn utility_sum_tiles_is_the_sum_of_the_exponents() {
    let game = board4([1, 0, 5, 2, 0, 3, 0, 5, 4, 0, 11, 0, 0, 0, 0, 1]);
    assert_eq!(player().utility_sum_tiles(&game), 32);
}

#[test]
fn center_utility_leaves_the_middle_out() {
    let game = board4([1, 2, 3, 4, 5, 60, 70, 8, 9, 100, 110, 12, 13, 14, 15, 16]);
    let rim = 1 + 2 + 3 + 4 + 5 + 8 + 9 + 12 + 13 + 14 + 15 + 16;
    assert_eq!(player().center_utility(&game), rim);
    assert_eq!(player().utility(&game), rim);
    let middle = board4([0, 0, 0, 0, 0, 7, 7, 0, 0, 7, 7, 0, 0, 0, 0, 0]);
    assert_eq!(player().center_utility(&middle), 0);
}

#[test]
fn corner_utility_weighs_by_row_plus_column() {
    let game = board4([9, 1, 0, 0, 2, 0, 0, 0, 0, 0, 3, 0, 0, 0, 0, 4]);
    assert_eq!(player().corner_utility(&game), 0 * 9 + 1 * 1 + 1 * 2 + 4 * 3 + 6 * 4);
    assert_eq!(player().corner_utility(&board4([0; 16])), 0);
}

#[test]
fn monotone_utility_counts_the_rows_that_fall() {
    let game = board4([4, 3, 2, 1, 4, 3, 3, 1, 9, 5, 1, 0, 1, 2, 3, 4]);
    assert_eq!(player().monotone_utility(&game), 2);
    assert_eq!(player().monotone_utility(&board4([0; 16])), 0);
    let five = Game::<5>::from_cells(vec![
        5, 4, 3, 2, 9, 5, 4, 3, 3, 0, 0, 0, 0, 0, 0, 4, 3, 2, 1, 1, 1, 2, 3, 4, 5,
    ])
    .unwrap();
    assert_eq!(ExpectimaxStrategy::<5>::new(1, 0, 0, 0, 0, 0).monotone_utility(&five), 2);
}

#[test]
fn snake_utility_follows_the_snake_path() {
    // the path: 0 1 2 3, 7 6 5 4, 8 9 10 11, 15 14 13 12
    let game = board4([1, 2, 3, 4, 8, 7, 6, 5, 9, 10, 11, 12, 16, 15, 14, 13]);
    assert_eq!(player().snake_utility(&game), (1..16).sum::<i128>());
    let game = board4([1, 2, 0, 4, 0, 0, 0, 5, 0, 0, 0, 0, 0, 0, 0, 0]);
    assert_eq!(player().snake_utility(&game), 1 + 4);
    let zeros = board4([0, 1, 0, 1, 0, 0, 0, 0, 0, 0, 0, 0, 0, 0, 0, 0]);
    assert_eq!(player().snake_utility(&zeros), 0);
    let top = Game::<2>::from_cells(vec![i32::MAX, 0, 0, 0]).unwrap();
    assert_eq!(ExpectimaxStrategy::<2>::new(1, 0, 0, 0, 0, 0).snake_utility(&top), 0);
}

#[test]
fn snake_utility2_weighs_by_the_place_in_the_flat_order() {
    let game = board4([1, 0, 0, 2, 0, 0, 0, 0, 0, 0, 0, 0, 0, 0, 0, 3]);
    assert_eq!(player().snake_utility2(&game), 1 * 1 + 2 * 4 + 3 * 16);
}

#[test]
fn gamma_utility_blends_in_tenths() {
    let game = board4([1, 2, 0, 0, 0, 0, 0, 0, 0, 0, 0, 0, 0, 0, 0, 4]);
    let top = 4;
    let empty = 13;
    let rim = 7;
    let chain = 1;
    let corner = 0 * 1 + 1 * 2 + 6 * 4;
    for (a, b, c, d, l) in [(1, 0, 0, 0, 0), (0, 1, 0, 0, 0), (0, 0, 1, 0, 0), (0, 0, 0, 1, 0), (0, 0, 0, 0, 1), (2, -3, 5, 7, -11)] {
        let blend = ExpectimaxStrategy::<4>::new(1, a, b, c, d, l);
        let (a, b, c, d, l) = (a as i128, b as i128, c as i128, d as i128, l as i128);
        assert_eq!(
            blend.gamma_utility(&game),
            10 * a * top + 10 * b * empty + c * rim + 10 * d * chain + l * corner
        );
    }
    assert_eq!(player().gamma_utility(&game), 0);
}

#[test]
fn is_next_to_each_other_compares_two_places() {
    let game = board4([1, 2, 3, 4, 1, 0, 0, 0, 0, 0, 0, 0, 0, 0, 0, 4]);
    assert_eq!(ExpectimaxStrategy::<4>::is_next_to_each_other((0, 0), (1, 0), &game), 1);
    assert_eq!(ExpectimaxStrategy::<4>::is_next_to_each_other((0, 0), (0, 1), &game), 0);
    assert_eq!(ExpectimaxStrategy::<4>::is_next_to_each_other((0, 3), (3, 3), &game), 1);
    assert_eq!(ExpectimaxStrategy::<4>::is_next_to_each_other((1, 1), (2, 2), &game), 1);
    assert_eq!(ExpectimaxStrategy::<4>::is_next_to_each_other((-1, 0), (0, 0), &game), 0);
    assert_eq!(ExpectimaxStrategy::<4>::is_next_to_each_other((0, 0), (0, 4), &game), 0);
    assert_eq!(ExpectimaxStrategy::<4>::is_next_to_each_other((4, 0), (0, 0), &game), 0);
    assert_eq!(ExpectimaxStrategy::<4>::is_next_to_each_other((0, 0), (0, -2), &game), 0);
}
