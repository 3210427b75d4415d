//! A sliding-tile merge puzzle on an N×N board, and an expectimax player for it.
//!
//! Cells hold exponents: `0` is an empty cell, `e` is the tile `2^e`. The modules,
//! leaves first: `tile` (values and saturation), `algorithm` (sliding one line,
//! transposing a grid), `lines` (sliding all the lines of a grid), `game` (the board
//! and its moves), `queries` and `features` (what a board can be asked), `random` and
//! `spawn` (the tile that appears), `strategies` (the players and the search) and
//! `three_d_game` (the board in three dimensions).

pub mod algorithm;
pub mod features;
pub mod game;
pub mod lines;
pub mod queries;
pub mod random;
pub mod spawn;
pub mod strategies;
pub mod three_d_game;
pub mod tile;
