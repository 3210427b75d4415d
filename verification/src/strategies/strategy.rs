//! What every player offers.

use crate::game::{shifted, Direction, Game};
use vstd::prelude::*;

verus! {

/// A player: asked for a move on a board of side `N`, it names one or none.
pub trait Strategy<const N: usize> {
    /// What holds of a player between two questions.
    spec fn ready(&self) -> bool;

    /// The next move for `game`, or none. A player never names a move that leaves the
    /// grid as it is.
    fn calculate_next_move(&mut self, game: &Game<N>) -> (next: Option<Direction>)
        requires
            old(self).ready(),
            game.wf(),
        ensures
            final(self).ready(),
            next matches Some(d) ==> shifted(game@.cells, N as nat, d) != game@.cells,
    ;
}

} // verus!
