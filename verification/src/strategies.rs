//! Players. `strategy` holds what every player offers, `model` says what a position is
//! worth, `cache` remembers positions that were valued, `expectimax` is the player
//! that searches, and `utilities` holds other ways to value a board.

pub mod cache;
pub mod expectimax;
pub mod model;
pub mod strategy;
pub mod utilities;
