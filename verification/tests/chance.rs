use expectimax_2048::game::{Game, GameStatus};
use expectimax_2048::spawn::{exponent_drawn, tile_weights};
use expectimax_2048::three_d_game::ThreeDGame;

#[test]
fn a_new_game_has_two_low_tiles() {
    for _ in 0..50 {
        let game = Game::<4>::new();
        assert_eq!(game.data().len(), 16);
        assert_eq!(game.data().iter().filter(|&&cell| cell == 1).count(), 2);
        assert_eq!(game.data().iter().filter(|&&cell| cell == 0).count(), 14);
        assert_eq!(game.score(), 0);
        assert_eq!(*game.status(), GameStatus::Ongoing);
    }
    assert_eq!(Game::<2>::new().get_tiles_sum(), 2);
}

#[test]
fn new_games_differ() {
    let first = Game::<4>::new();
    let mut differ = false;
    let mut away_from_the_start = false;
    for _ in 0..200 {
        let next = Game::<4>::new();
        differ = differ || next.data() != first.data();
        away_from_the_start = away_from_the_start || next.data()[0] != 1 || next.data()[1] != 1;
    }
    assert!(differ);
    assert!(away_from_the_start);
}

#[test]
fn a_new_cube_has_two_low_tiles() {
    let mut away_from_the_start = false;
    for _ in 0..100 {
        let game = ThreeDGame::<2>::new();
        assert_eq!(game.data().len(), 8);
        assert_eq!(game.get_tiles_sum(), 2);
        assert_eq!(game.get_empty_tiles().len(), 6);
        away_from_the_start = away_from_the_start || game.data()[0] != 1 || game.data()[1] != 1;
    }
    assert!(away_from_the_start);
}

#[test]
fn the_weights_of_a_new_tile() {
    assert_eq!(tile_weights(), vec![90, 10]);
    assert_eq!(exponent_drawn(0), 1);
    assert_eq!(exponent_drawn(1), 2);
}

#[test]
fn a_random_tile_lands_on_an_empty_cell() {
    let mut low = 0;
    let mut high = 0;
    let mut cells_hit = [false; 16];
    for _ in 0..400 {
        let start = vec![3, 0, 0, 4, 0, 5, 0, 0, 0, 0, 6, 0, 7, 0, 0, 0];
        let mut game = Game::<4>::from_cells(start.clone()).unwrap();
        game.new_random_tile();
        let changed: Vec<usize> = (0..16).filter(|&i| game.data()[i] != start[i]).collect();
        assert_eq!(changed.len(), 1);
        let cell = changed[0];
        assert_eq!(start[cell], 0);
        cells_hit[cell] = true;
        match game.data()[cell] {
            1 => low += 1,
            2 => high += 1,
            other => panic!("a tile of exponent {}", other),
        }
        assert_eq!(game.score(), 0);
    }
    assert!(low > high);
    assert!(high > 0);
    assert!(cells_hit.iter().filter(|&&hit| hit).count() > 5);
}

#[test]
fn a_random_tile_fills_the_last_empty_cell() {
    let mut game = Game::<2>::from_cells(vec![1, 2, 0, 3]).unwrap();
    game.new_random_tile();
    assert!(game.data()[2] == 1 || game.data()[2] == 2);
    assert_eq!(game.get_empty_tiles().len(), 0);
    assert_eq!((game.data()[0], game.data()[1], game.data()[3]), (1, 2, 3));
}

#[test]
fn a_random_tile_in_a_cube() {
    let mut low = 0;
    let mut high = 0;
    for _ in 0..200 {
        let mut game = ThreeDGame::<2>::from_cells(vec![3, 0, 0, 4, 0, 5, 0, 0]).unwrap();
        game.new_random_tile();
        assert_eq!(game.get_empty_tiles().len(), 4);
        match game.get_tiles_sum() - 12 {
            1 => low += 1,
            2 => high += 1,
            other => panic!("a tile of exponent {}", other),
        }
        assert_eq!((game.data()[0], game.data()[3], game.data()[5]), (3, 4, 5));
    }
    assert!(low > 0);
    assert!(high > 0);
}
