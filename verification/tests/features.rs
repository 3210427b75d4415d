use expectimax_2048::features::{SNAKE_MAX, SNAKE_UNIT};
use expectimax_2048::game::Game;

#[test]
fn snake_sums_are_counted_in_fortieths() {
    assert_eq!(SNAKE_UNIT, 40);
    let game = Game::<4>::from_cells(vec![1, 0, 0, 0, 0, 0, 0, 0, 0, 0, 0, 0, 0, 0, 0, 0]).unwrap();
    assert_eq!(game.get_tiles_snake_sum(), SNAKE_UNIT * 65536 * 2);
}

#[test]
fn the_snake_sum_of_a_two_by_two_board() {
    let game = Game::<2>::from_cells(vec![1, 2, 3, 4]).unwrap();
    let expected = 40 * (2 * 512 + 4 * 128 + 8 * 8 + 16 * 32);
    assert_eq!(game.get_tiles_snake_sum_2x2(), expected);
    assert_eq!(game.get_tiles_snake_sum(), expected);
    assert_eq!(Game::<2>::from_cells(vec![0; 4]).unwrap().get_tiles_snake_sum(), 0);
}

#[test]
fn the_snake_sum_of_a_three_by_three_board() {
    let game = Game::<3>::from_cells(vec![1, 1, 1, 1, 1, 1, 1, 1, 1]).unwrap();
    let weights = 512 + 1024 + 2048 + 256 + 128 + 64 + 8 + 16 + 32;
    assert_eq!(game.get_tiles_snake_sum_3x3(), 40 * 2 * weights);
    assert_eq!(game.get_tiles_snake_sum(), 40 * 2 * weights);
    let one = Game::<3>::from_cells(vec![0, 0, 3, 0, 0, 0, 0, 0, 0]).unwrap();
    assert_eq!(one.get_tiles_snake_sum(), 40 * 8 * 2048);
    let last = Game::<3>::from_cells(vec![0, 0, 0, 0, 0, 0, 2, 0, 0]).unwrap();
    assert_eq!(last.get_tiles_snake_sum(), 40 * 4 * 8);
}

#[test]
fn the_snake_sum_of_a_four_by_four_board() {
    let weights: [i128; 16] =
        [65536, 32768, 16384, 8192, 512, 1024, 2048, 4096, 256, 128, 64, 32, 2, 4, 8, 16];
    for (index, weight) in weights.iter().enumerate() {
        let mut cells = vec![0; 16];
        cells[index] = 3;
        let game = Game::<4>::from_cells(cells).unwrap();
        assert_eq!(game.get_tiles_snake_sum_4x4(), 40 * 8 * weight);
        assert_eq!(game.get_tiles_snake_sum(), 40 * 8 * weight);
    }
    let game =
        Game::<4>::from_cells(vec![4, 3, 2, 1, 0, 0, 0, 1, 0, 0, 0, 0, 1, 0, 0, 0]).unwrap();
    let expected = 16 * 65536 + 8 * 32768 + 4 * 16384 + 2 * 8192 + 2 * 4096 + 2 * 2;
    assert_eq!(game.get_tiles_snake_sum(), 40 * expected);
}

#[test]
fn the_snake_sum_of_a_five_by_five_board() {
    let weights: [i128; 25] = [
        41943040, 20971520, 10485760, 5242880, 2621440, 81920, 163840, 327680, 655360, 1310720,
        40960, 20480, 10240, 5120, 2560, 80, 160, 320, 640, 1280, 40, 20, 10, 5, 1,
    ];
    assert_eq!(weights[0], 40 * 1048576);
    assert_eq!(weights[9], 40 * 32768);
    assert_eq!(weights[20], 40);
    for (index, weight) in weights.iter().enumerate() {
        let mut cells = vec![0; 25];
        cells[index] = 1;
        let game = Game::<5>::from_cells(cells).unwrap();
        assert_eq!(game.get_tiles_snake_sum_5x5(), 2 * weight);
        assert_eq!(game.get_tiles_snake_sum(), 2 * weight);
    }
    let mut cells = vec![0; 25];
    cells[21] = 1;
    cells[22] = 2;
    cells[23] = 3;
    cells[24] = 4;
    let game = Game::<5>::from_cells(cells).unwrap();
    assert_eq!(game.get_tiles_snake_sum(), 2 * 20 + 4 * 10 + 8 * 5 + 16);
}

#[test]
fn a_table_is_used_over_the_corner_of_a_larger_board() {
    let game = Game::<3>::from_cells(vec![1, 2, 9, 3, 4, 9, 9, 9, 9]).unwrap();
    assert_eq!(game.get_tiles_snake_sum_2x2(), 40 * (2 * 512 + 4 * 128 + 8 * 8 + 16 * 32));
}

#[test]
fn a_side_without_a_table_has_no_snake_sum() {
    assert_eq!(Game::<6>::from_cells(vec![3; 36]).unwrap().get_tiles_snake_sum(), 0);
    assert_eq!(Game::<1>::from_cells(vec![3]).unwrap().get_tiles_snake_sum(), 0);
    assert_eq!(Game::<0>::from_cells(vec![]).unwrap().get_tiles_snake_sum(), 0);
}

#[test]
fn the_snake_sum_stays_below_its_bound() {
    let game = Game::<5>::from_cells(vec![i32::MAX; 25]).unwrap();
    let sum = game.get_tiles_snake_sum();
    assert_eq!(sum, (i32::MAX as i128) * 83886076);
    assert!(sum <= SNAKE_MAX);
}

#[test]
fn smoothness_sums_the_distances_between_neighbouring_tiles() {
    let game = Game::<2>::from_cells(vec![1, 2, 0, 3]).unwrap();
    assert_eq!(game.get_smoothness(), -6);
    let flat = Game::<2>::from_cells(vec![2, 2, 2, 2]).unwrap();
    assert_eq!(flat.get_smoothness(), 0);
    let game = Game::<3>::from_cells(vec![1, 0, 1, 2, 3, 0, 0, 1, 4]).unwrap();
    // along the rows 1+1, 1+3, 1+3; along the columns 1+2, 3+2, 1+4
    assert_eq!(game.get_smoothness(), -23);
    let pair = Game::<2>::from_cells(vec![1, 2, 0, 0]).unwrap();
    assert_eq!(pair.get_smoothness(), -4);
    let high = Game::<2>::from_cells(vec![i32::MAX, 0, 0, i32::MAX]).unwrap();
    assert_eq!(high.get_smoothness(), -4 * (i32::MAX as i128));
    assert_eq!(Game::<1>::from_cells(vec![7]).unwrap().get_smoothness(), 0);
    assert_eq!(Game::<3>::from_cells(vec![0; 9]).unwrap().get_smoothness(), 0);
}

#[test]
fn merging_potential_sums_the_tiles_with_an_equal_neighbour() {
    let game = Game::<2>::from_cells(vec![1, 1, 1, 0]).unwrap();
    assert_eq!(game.get_merging_potential(), 4);
    let full = Game::<2>::from_cells(vec![3, 3, 3, 3]).unwrap();
    assert_eq!(full.get_merging_potential(), 4 * 8);
    let none = Game::<2>::from_cells(vec![1, 2, 2, 1]).unwrap();
    assert_eq!(none.get_merging_potential(), 0);
    let empty = Game::<2>::from_cells(vec![0; 4]).unwrap();
    assert_eq!(empty.get_merging_potential(), 0);
    let high = Game::<2>::from_cells(vec![31, 32, 0, 0]).unwrap();
    assert_eq!(high.get_merging_potential(), 0);
}

#[test]
fn monotonicity_sums_the_steps_of_the_flat_order() {
    let game = Game::<2>::from_cells(vec![1, 3, 0, 2]).unwrap();
    assert_eq!(game.get_monotonicaly(), -7);
    let rising = Game::<3>::from_cells(vec![1, 2, 3, 4, 5, 6, 7, 8, 9]).unwrap();
    assert_eq!(rising.get_monotonicaly(), -8);
    assert_eq!(Game::<1>::from_cells(vec![5]).unwrap().get_monotonicaly(), 0);
    assert_eq!(Game::<0>::from_cells(vec![]).unwrap().get_monotonicaly(), 0);
}
