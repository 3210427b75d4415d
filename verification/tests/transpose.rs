use expectimax_2048::algorithm::{transpose, transpose_3d};

#[test]
fn transpose_exchanges_rows_and_columns() {
    let mut grid = vec![1, 2, 3, 4, 5, 6, 7, 8, 9];
    transpose::<3>(&mut grid);
    assert_eq!(grid, vec![1, 4, 7, 2, 5, 8, 3, 6, 9]);
}

#[test]
fn transpose_twice_gives_the_grid_back() {
    let start: Vec<i32> = (0..16).collect();
    let mut grid = start.clone();
    transpose::<4>(&mut grid);
    assert_ne!(grid, start);
    assert_eq!(grid[1], 4);
    assert_eq!(grid[4], 1);
    assert_eq!(grid[7], 13);
    transpose::<4>(&mut grid);
    assert_eq!(grid, start);
}

#[test]
fn transpose_keeps_the_cells_beyond_the_grid() {
    let mut grid = vec![1, 2, 3, 4, 5, 6];
    transpose::<2>(&mut grid);
    assert_eq!(grid, vec![1, 3, 2, 4, 5, 6]);
}

#[test]
fn transpose_of_the_smallest_grids() {
    let mut none: Vec<i32> = vec![];
    transpose::<0>(&mut none);
    assert_eq!(none, vec![]);
    let mut one = vec![7];
    transpose::<1>(&mut one);
    assert_eq!(one, vec![7]);
}

#[test]
fn transpose_3d_exchanges_the_first_two_axes_in_every_layer() {
    let mut grid = vec![1, 2, 3, 4, 5, 6, 7, 8];
    transpose_3d::<2>(&mut grid);
    assert_eq!(grid, vec![1, 3, 2, 4, 5, 7, 6, 8]);
}

#[test]
fn transpose_3d_twice_gives_the_grid_back() {
    let start: Vec<i32> = (0..27).collect();
    let mut grid = start.clone();
    transpose_3d::<3>(&mut grid);
    assert_ne!(grid, start);
    assert_eq!(grid[1], 3);
    assert_eq!(grid[3], 1);
    assert_eq!(grid[9 + 5], 9 + 7);
    transpose_3d::<3>(&mut grid);
    assert_eq!(grid, start);
}
