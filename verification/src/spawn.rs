//! The tile that appears after a move: on an empty cell drawn at random, with exponent 1
//! nine times out of ten and exponent 2 once out of ten.

use crate::game::{Game, GameView};
use crate::queries::{empty_cells, lemma_empty_cells};
use crate::random::{pick, pick_weighted, total_weight};
use vstd::prelude::*;

verus! {

/// The exponent of the new tile that was drawn: the first weight stands for exponent 1,
/// every other for exponent 2.
pub open spec fn drawn_exponent(index: usize) -> i32 {
    if index == 0 {
        1
    } else {
        2
    }
}

/// The exponent of the new tile that was drawn.
pub fn exponent_drawn(index: usize) -> (exponent: i32)
    ensures
        exponent == drawn_exponent(index),
{
    if index == 0 {
        1
    } else {
        2
    }
}

/// The weights of the two exponents of a new tile, out of a hundred.
pub fn tile_weights() -> (weights: Vec<u32>)
    ensures
        weights@ == seq![90u32, 10u32],
        total_weight(weights@) == 100,
{
    let weights = vec![90u32, 10u32];
    proof {
        assert(weights@ =~= seq![90u32, 10u32]);
        reveal_with_fuel(total_weight, 3);
        assert(weights@.drop_last() =~= seq![90u32]);
        assert(weights@.drop_last().drop_last() =~= Seq::<u32>::empty());
    }
    weights
}

/// `after` is `before` with a new tile on a cell that was empty: `cell` is that cell and
/// `exponent`, which is 1 or 2, the exponent of the tile.
pub open spec fn tile_added(after: GameView, before: GameView, cell: int, exponent: i32) -> bool {
    &&& 0 <= cell < before.cells.len()
    &&& before.cells[cell] == 0
    &&& (exponent == 1 || exponent == 2)
    &&& after == (GameView { cells: before.cells.update(cell, exponent), ..before })
}

impl<const N: usize> Game<N> {
    /// Puts a new tile on the board: on one of the empty cells, with exponent 1 or 2.
    /// Which cell and which of the two is drawn at random.
    pub fn new_random_tile(&mut self)
        requires
            old(self).wf(),
            empty_cells(old(self)@.cells).len() > 0,
        ensures
            final(self).wf(),
            exists|cell: int, exponent: i32| tile_added(final(self)@, old(self)@, cell, exponent),
    {
        let empty_tiles = self.get_empty_tiles();
        let weights = tile_weights();
        let cell = pick(&empty_tiles);
        let drawn = pick_weighted(&weights);
        match (cell, drawn) {
            (Some(position), Some(index)) => {
                let exponent = exponent_drawn(index);
                proof {
                    let at = choose|i: int| 0 <= i < empty_tiles@.len() && empty_tiles@[i] == position;
                    assert(empty_tiles@[at] < N * N);
                }
                self.new_tile(position as usize, exponent);
                assert(tile_added(self@, old(self)@, position as int, exponent));
            },
            _ => {
                assert(false);
            },
        }
    }
}


} // verus!
