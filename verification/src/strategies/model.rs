//! What a position is worth: the definition that the search computes.
//!
//! The player moves, then a tile appears on an empty cell: with exponent 1 nine times
//! out of ten, with exponent 2 once out of ten, on each empty cell alike. A lost
//! position is worth less than any other (`Worst`). With no moves left to look ahead,
//! a position is worth its snake sum. Otherwise it is worth what the best move is
//! worth, and a move is worth the weighted average over the tiles that may appear,
//! rounded down to a whole number of fortieths; the average over a lost position is
//! `Worst`.

use crate::features::{lemma_snake_sum_bound, snake_sum, SNAKE_MAX};
use crate::game::{
    direction_at, lemma_move_leaves_gap, lemma_shifted_valid, shifted, stuck, valid_grid, Direction,
};
use crate::queries::{empty_cells, lemma_empty_cells};
use vstd::prelude::*;

verus! {

/// What a position is worth, as a mathematical value.
pub enum Worth {
    /// Less than every number: the game is lost.
    Worst,
    Finite(int),
}

impl Worth {
    /// Whether `self` is worth more than `other`.
    pub open spec fn beats(self, other: Worth) -> bool {
        match (self, other) {
            (Worth::Finite(a), Worth::Finite(b)) => a > b,
            (Worth::Finite(_), Worth::Worst) => true,
            _ => false,
        }
    }
}

/// What a position is worth, as the search reports it.
#[derive(Clone, Copy, Debug, PartialEq, Eq, Structural)]
pub enum Estimate {
    /// Less than every number: the game is lost.
    Worst,
    /// A number of fortieths.
    Finite(i128),
}

impl View for Estimate {
    type V = Worth;

    open spec fn view(&self) -> Worth {
        match *self {
            Estimate::Worst => Worth::Worst,
            Estimate::Finite(v) => Worth::Finite(v as int),
        }
    }
}

impl Estimate {
    /// Whether `self` is worth more than `other`.
    pub fn beats(&self, other: &Estimate) -> (more: bool)
        ensures
            more == self@.beats(other@),
    {
        match (self, other) {
            (Estimate::Finite(a), Estimate::Finite(b)) => *a > *b,
            (Estimate::Finite(_), Estimate::Worst) => true,
            _ => false,
        }
    }
}

/// The tiles that may appear on a board with the empty cells `empty`: on each empty
/// cell first the tile of exponent 1, then the tile of exponent 2.
pub open spec fn outcomes(empty: Seq<int>) -> Seq<(int, i32)> {
    Seq::new(
        2 * empty.len(),
        |p: int|
            (
                empty[p / 2],
                if p % 2 == 0 {
                    1i32
                } else {
                    2i32
                },
            ),
    )
}

/// How many times out of ten a new tile has the exponent `exponent`.
pub open spec fn weight_of(exponent: i32) -> int {
    if exponent == 1 {
        9
    } else {
        1
    }
}

/// What the position `cells` on a board of side `n` is worth when the search may look
/// `depth` moves ahead.
pub open spec fn position_value(cells: Seq<i32>, n: nat, depth: nat) -> Worth
    decreases depth, 3nat, 0nat,
{
    if stuck(cells, n) {
        Worth::Worst
    } else if depth == 0 {
        Worth::Finite(snake_sum(cells, n))
    } else {
        best_of(cells, n, depth, 4).0
    }
}

/// The best of the first `count` moves, in the order of `direction_at`, and what it is
/// worth: a move that leaves the grid as it is does not count, and of two moves that
/// are worth the same the earlier one is the best. Without a move that counts: `Worst`
/// and no move.
pub open spec fn best_of(cells: Seq<i32>, n: nat, depth: nat, count: nat) -> (Worth, Option<Direction>)
    decreases depth, 2nat, count,
{
    if count == 0 || depth == 0 {
        (Worth::Worst, None)
    } else {
        let before = best_of(cells, n, depth, (count - 1) as nat);
        let d = direction_at(count - 1);
        let next = shifted(cells, n, d);
        if next == cells {
            before
        } else {
            let worth = chance_value(next, n, (depth - 1) as nat);
            if before.1 is None || worth.beats(before.0) {
                (worth, Some(d))
            } else {
                before
            }
        }
    }
}

/// What the grid `cells`, as a move left it, is worth before the new tile appears: the
/// weighted average of what the positions with the new tile are worth at `depth`,
/// rounded down; `Worst` if one of them is lost; `0` if no cell is empty.
pub open spec fn chance_value(cells: Seq<i32>, n: nat, depth: nat) -> Worth
    decreases depth, 5nat, 0nat,
{
    let empty = empty_cells(cells);
    if empty.len() == 0 {
        Worth::Finite(0)
    } else {
        match outcome_total(cells, n, depth, outcomes(empty), 2 * empty.len()) {
            None => Worth::Worst,
            Some(total) => Worth::Finite(total / (10 * empty.len()) as int),
        }
    }
}

/// The sum over the first `upto` of the tiles `outs` that may appear: what the position
/// with the tile is worth, times the weight of the tile; `None` if one of these
/// positions is lost.
pub open spec fn outcome_total(
    cells: Seq<i32>,
    n: nat,
    depth: nat,
    outs: Seq<(int, i32)>,
    upto: nat,
) -> Option<int>
    decreases depth, 4nat, upto,
{
    if upto == 0 {
        Some(0)
    } else {
        let tile = outs[upto - 1];
        match (
            outcome_total(cells, n, depth, outs, (upto - 1) as nat),
            position_value(cells.update(tile.0, tile.1), n, depth),
        ) {
            (Some(total), Worth::Finite(worth)) => Some(total + weight_of(tile.1) * worth),
            _ => None,
        }
    }
}

/// The move that the search chooses: the best one where the game is not lost and the
/// search may look ahead, and none otherwise.
pub open spec fn best_move(cells: Seq<i32>, n: nat, depth: nat) -> Option<Direction> {
    if stuck(cells, n) || depth == 0 {
        None
    } else {
        best_of(cells, n, depth, 4).1
    }
}

/// The position that the `p`-th of the tiles that may appear on the grid `after` gives.
pub open spec fn with_tile(after: Seq<i32>, p: int) -> Seq<i32> {
    let tile = outcomes(empty_cells(after))[p];
    after.update(tile.0, tile.1)
}

/// Whether a search from the position `cells` that may look `depth` moves ahead comes to
/// value the position `key.0` at the depth `key.1`: the position is reached from `cells`
/// by a move that changes the grid and a tile that may appear, once or several times,
/// and the depth is what is left of `depth` there. Only such positions are put into the
/// cache; the position that is searched is not among them.
pub open spec fn search_visits(cells: Seq<i32>, n: nat, depth: nat, key: (Seq<i32>, usize)) -> bool
    decreases depth, 8nat, 0nat,
{
    depth > 0 && moves_visit(cells, n, depth, 4, key)
}

/// `search_visits` by one of the first `count` moves, in the order of `direction_at`:
/// the move changes the grid, and `key` is visited from the grid that it leaves.
pub open spec fn moves_visit(
    cells: Seq<i32>,
    n: nat,
    depth: nat,
    count: nat,
    key: (Seq<i32>, usize),
) -> bool
    decreases depth, 7nat, count,
{
    if count == 0 || depth == 0 {
        false
    } else {
        let next = shifted(cells, n, direction_at(count - 1));
        moves_visit(cells, n, depth, (count - 1) as nat, key) || (next != cells && chance_visits(
            next,
            n,
            (depth - 1) as nat,
            key,
        ))
    }
}

/// `search_visits`, from the grid `after` as a move left it: `key` is one of the
/// positions with a new tile, at `depth`, or is visited by the search from one of them.
pub open spec fn chance_visits(after: Seq<i32>, n: nat, depth: nat, key: (Seq<i32>, usize)) -> bool
    decreases depth, 11nat, 0nat,
{
    tiles_visit(after, n, depth, 2 * empty_cells(after).len(), key)
}

/// `chance_visits` by one of the first `upto` tiles that may appear on `after`: `key` is
/// the position with the tile, at `depth`, or is visited by the search from it.
pub open spec fn tiles_visit(
    after: Seq<i32>,
    n: nat,
    depth: nat,
    upto: nat,
    key: (Seq<i32>, usize),
) -> bool
    decreases depth, 10nat, upto,
{
    if upto == 0 {
        false
    } else {
        let child = with_tile(after, upto - 1);
        tiles_visit(after, n, depth, (upto - 1) as nat, key) || (key.0 == child && key.1 as nat
            == depth) || search_visits(child, n, depth, key)
    }
}

/// What a search from a valid grid visits is a valid grid, at a smaller depth.
pub proof fn lemma_search_visits_valid(cells: Seq<i32>, n: nat, depth: nat, key: (Seq<i32>, usize))
    requires
        valid_grid(cells, n),
        search_visits(cells, n, depth, key),
    ensures
        valid_grid(key.0, n),
        key.1 < depth,
    decreases depth, 8nat, 0nat,
{
    lemma_moves_visit_valid(cells, n, depth, 4, key);
}

/// `lemma_search_visits_valid`, for the first `count` moves.
pub proof fn lemma_moves_visit_valid(
    cells: Seq<i32>,
    n: nat,
    depth: nat,
    count: nat,
    key: (Seq<i32>, usize),
)
    requires
        valid_grid(cells, n),
        moves_visit(cells, n, depth, count, key),
    ensures
        valid_grid(key.0, n),
        key.1 < depth,
    decreases depth, 7nat, count,
{
    if moves_visit(cells, n, depth, (count - 1) as nat, key) {
        lemma_moves_visit_valid(cells, n, depth, (count - 1) as nat, key);
    } else {
        let d = direction_at(count - 1);
        lemma_shifted_valid(cells, n, d);
        lemma_chance_visits_valid(shifted(cells, n, d), n, (depth - 1) as nat, key);
    }
}

/// What is visited from a valid grid as a move left it is a valid grid, at no greater
/// depth.
pub proof fn lemma_chance_visits_valid(after: Seq<i32>, n: nat, depth: nat, key: (Seq<i32>, usize))
    requires
        valid_grid(after, n),
        chance_visits(after, n, depth, key),
    ensures
        valid_grid(key.0, n),
        key.1 <= depth,
    decreases depth, 11nat, 0nat,
{
    lemma_tiles_visit_valid(after, n, depth, 2 * empty_cells(after).len(), key);
}

/// `lemma_chance_visits_valid`, for the first `upto` tiles that may appear.
pub proof fn lemma_tiles_visit_valid(
    after: Seq<i32>,
    n: nat,
    depth: nat,
    upto: nat,
    key: (Seq<i32>, usize),
)
    requires
        valid_grid(after, n),
        upto <= 2 * empty_cells(after).len(),
        tiles_visit(after, n, depth, upto, key),
    ensures
        valid_grid(key.0, n),
        key.1 <= depth,
    decreases depth, 10nat, upto,
{
    if tiles_visit(after, n, depth, (upto - 1) as nat, key) {
        lemma_tiles_visit_valid(after, n, depth, (upto - 1) as nat, key);
    } else {
        lemma_outcome_valid(after, n, upto - 1);
        let child = with_tile(after, upto - 1);
        if !(key.0 == child && key.1 as nat == depth) {
            lemma_search_visits_valid(child, n, depth, key);
        }
    }
}

/// A finite worth is a number between `0` and `SNAKE_MAX`.
pub open spec fn in_range(worth: Worth) -> bool {
    worth matches Worth::Finite(v) ==> 0 <= v <= SNAKE_MAX
}

/// Putting a tile of exponent 1 or 2 on a cell of a valid grid gives a valid grid.
pub proof fn lemma_outcome_valid(cells: Seq<i32>, n: nat, p: int)
    requires
        valid_grid(cells, n),
        0 <= p < 2 * empty_cells(cells).len(),
    ensures
        0 <= outcomes(empty_cells(cells))[p].0 < cells.len(),
        cells[outcomes(empty_cells(cells))[p].0] == 0,
        outcomes(empty_cells(cells))[p].1 == 1 || outcomes(empty_cells(cells))[p].1 == 2,
        valid_grid(
            cells.update(outcomes(empty_cells(cells))[p].0, outcomes(empty_cells(cells))[p].1),
            n,
        ),
{
    lemma_empty_cells(cells);
    let e = empty_cells(cells);
    assert(0 <= e[p / 2] < cells.len());
}

/// Every position is `Worst` or worth between `0` and `SNAKE_MAX`.
pub proof fn lemma_position_value_range(cells: Seq<i32>, n: nat, depth: nat)
    requires
        valid_grid(cells, n),
    ensures
        in_range(position_value(cells, n, depth)),
    decreases depth, 3nat, 0nat,
{
    if stuck(cells, n) {
    } else if depth == 0 {
        lemma_snake_sum_bound(cells, n);
    } else {
        lemma_best_of_range(cells, n, depth, 4);
    }
}

/// The best move is worth `Worst` or between `0` and `SNAKE_MAX`; it changes the grid;
/// and there is one as soon as one of the moves changes the grid.
pub proof fn lemma_best_of_range(cells: Seq<i32>, n: nat, depth: nat, count: nat)
    requires
        valid_grid(cells, n),
        count <= 4,
    ensures
        in_range(best_of(cells, n, depth, count).0),
        best_of(cells, n, depth, count).1 matches Some(d) ==> shifted(cells, n, d) != cells,
        depth > 0 ==> (best_of(cells, n, depth, count).1 is None <==> forall|i: int|
            0 <= i < count ==> shifted(cells, n, #[trigger] direction_at(i)) == cells),
    decreases depth, 2nat, count,
{
    if count == 0 || depth == 0 {
    } else {
        lemma_best_of_range(cells, n, depth, (count - 1) as nat);
        let d = direction_at(count - 1);
        let next = shifted(cells, n, d);
        if next != cells {
            lemma_shifted_valid(cells, n, d);
            lemma_chance_value_range(next, n, (depth - 1) as nat);
        }
    }
}

/// A grid before the new tile appears is worth `Worst` or between `0` and `SNAKE_MAX`.
pub proof fn lemma_chance_value_range(cells: Seq<i32>, n: nat, depth: nat)
    requires
        valid_grid(cells, n),
    ensures
        in_range(chance_value(cells, n, depth)),
    decreases depth, 5nat, 0nat,
{
    let empty = empty_cells(cells);
    if empty.len() > 0 {
        let upto = 2 * empty.len();
        lemma_outcome_total_range(cells, n, depth, upto);
        match outcome_total(cells, n, depth, outcomes(empty), upto) {
            None => {},
            Some(total) => {
                let d = (10 * empty.len()) as int;
                assert(upto % 2 == 0);
                assert(0 <= total / d <= SNAKE_MAX) by (nonlinear_arith)
                    requires
                        0 <= total <= d * SNAKE_MAX,
                        d > 0,
                ;
            },
        }
    }
}

/// The sum over the first `upto` tiles that may appear is not negative and at most
/// `SNAKE_MAX` times the sum of their weights.
pub proof fn lemma_outcome_total_range(cells: Seq<i32>, n: nat, depth: nat, upto: nat)
    requires
        valid_grid(cells, n),
        upto <= 2 * empty_cells(cells).len(),
    ensures
        outcome_total(cells, n, depth, outcomes(empty_cells(cells)), upto) matches Some(total)
            ==> 0 <= total <= (5 * upto + 4 * (upto % 2)) * SNAKE_MAX,
    decreases depth, 4nat, upto,
{
    if upto > 0 {
        let outs = outcomes(empty_cells(cells));
        let tile = outs[upto - 1];
        lemma_outcome_total_range(cells, n, depth, (upto - 1) as nat);
        lemma_outcome_valid(cells, n, upto - 1);
        lemma_position_value_range(cells.update(tile.0, tile.1), n, depth);
    }
}

/// After a move that changes the grid there is an empty cell for the new tile, so the
/// average of `chance_value` is taken over at least two positions.
pub proof fn lemma_move_leaves_room(cells: Seq<i32>, n: nat, d: Direction)
    requires
        valid_grid(cells, n),
        shifted(cells, n, d) != cells,
    ensures
        empty_cells(shifted(cells, n, d)).len() > 0,
        outcomes(empty_cells(shifted(cells, n, d))).len() >= 2,
{
    let next = shifted(cells, n, d);
    lemma_shifted_valid(cells, n, d);
    lemma_move_leaves_gap(cells, n, d);
    lemma_empty_cells(next);
    let k = choose|k: int| 0 <= k < cells.len() && next[k] == 0;
    assert(empty_cells(next).contains(k));
}

/// The search never chooses a move that leaves the grid as it is, and it chooses a
/// move whenever the game is not lost and it may look ahead.
pub proof fn lemma_best_move_is_legal(cells: Seq<i32>, n: nat, depth: nat)
    requires
        valid_grid(cells, n),
    ensures
        best_move(cells, n, depth) matches Some(d) ==> shifted(cells, n, d) != cells,
        best_move(cells, n, depth) is None <==> stuck(cells, n) || depth == 0,
{
    lemma_best_of_range(cells, n, depth, 4);
    if !stuck(cells, n) && depth > 0 {
        if best_of(cells, n, depth, 4).1 is None {
            assert(shifted(cells, n, direction_at(0)) == cells);
            assert(shifted(cells, n, direction_at(1)) == cells);
            assert(shifted(cells, n, direction_at(2)) == cells);
            assert(shifted(cells, n, direction_at(3)) == cells);
        }
    }
}

} // verus!
