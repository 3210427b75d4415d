//! The player that searches: it looks a number of moves ahead, takes the average over
//! the tiles that may appear, and remembers what positions were worth.

use crate::features::SNAKE_MAX;
use crate::game::{direction_at, directions, shifted, stuck, valid_grid, Direction, Game};
use crate::queries::{empty_cells, lemma_empty_cells};
use crate::strategies::cache::TranspositionCache;
use crate::strategies::model::{
    best_move, best_of, chance_value, chance_visits, lemma_best_move_is_legal,
    lemma_chance_value_range, lemma_chance_visits_valid, lemma_outcome_total_range,
    lemma_outcome_valid, lemma_position_value_range, lemma_search_visits_valid, moves_visit,
    outcome_total, outcomes, position_value, search_visits, tiles_visit, with_tile, Estimate,
};
use crate::strategies::strategy::Strategy;
use vstd::prelude::*;

verus! {

/// Every entry of the cache is what its position is worth at its depth, on a board of
/// side `n`.
pub open spec fn cache_sound(cache: Map<(Seq<i32>, usize), Estimate>, n: nat) -> bool {
    forall|key: (Seq<i32>, usize)| #[trigger]
        cache.contains_key(key) ==> cache[key]@ == position_value(key.0, n, key.1 as nat)
}

/// The tiles that may appear on the empty cells `empty`: on each of them first the
/// tile of exponent 1, then the tile of exponent 2.
pub fn outcomes_of(empty: &Vec<u32>) -> (outs: Vec<(u32, i32)>)
    ensures
        outs@.len() == 2 * empty@.len(),
        forall|p: int|
            0 <= p < outs@.len() ==> (#[trigger] outs@[p]).0 == empty@[p / 2] && outs@[p].1 == (if p
                % 2 == 0 {
                1i32
            } else {
                2i32
            }),
{
    let mut outs: Vec<(u32, i32)> = Vec::new();
    let mut i: usize = 0;
    while i < empty.len()
        invariant
            i <= empty.len(),
            outs@.len() == 2 * i,
            forall|p: int|
                0 <= p < outs@.len() ==> (#[trigger] outs@[p]).0 == empty@[p / 2] && outs@[p].1
                    == (if p % 2 == 0 {
                    1i32
                } else {
                    2i32
                }),
        decreases empty.len() - i,
    {
        outs.push((empty[i], 1));
        outs.push((empty[i], 2));
        i = i + 1;
    }
    outs
}

/// The expectimax player for boards of side `N`.
pub struct ExpectimaxStrategy<const N: usize> {
    /// What positions were found to be worth.
    pub cache: TranspositionCache,
    /// How many moves the player looks ahead.
    pub depth: usize,
    /// The weight of the highest exponent in `gamma_utility`.
    pub alpha: i32,
    /// The weight of the number of empty cells in `gamma_utility`.
    pub beta: i32,
    /// The weight of the rim in `gamma_utility`.
    pub gamma: i32,
    /// The weight of the snake chain in `gamma_utility`.
    pub delta: i32,
    /// The weight of the far corner in `gamma_utility`.
    pub lambda: i32,
}

impl<const N: usize> ExpectimaxStrategy<N> {
    /// The cache holds nothing but what positions are worth.
    pub open spec fn wf(&self) -> bool {
        cache_sound(self.cache@, N as nat)
    }

    /// A player with an empty cache that looks `depth` moves ahead.
    pub fn new(depth: usize, alpha: i32, beta: i32, gamma: i32, delta: i32, lambda: i32) -> (made:
        Self)
        ensures
            made.wf(),
            made.cache@ == Map::<(Seq<i32>, usize), Estimate>::empty(),
            made.depth == depth,
            made.alpha == alpha,
            made.beta == beta,
            made.gamma == gamma,
            made.delta == delta,
            made.lambda == lambda,
    {
        ExpectimaxStrategy { cache: TranspositionCache::new(), depth, alpha, beta, gamma, delta, lambda }
    }

    /// What `state` is worth when the search may look `depth` moves ahead, and the move
    /// to make: the lost position is worth `Worst`; with no depth left, the position is
    /// worth its snake sum; either way there is no move. Otherwise the move is the
    /// first of the best moves among those that change the grid, in the order up, down,
    /// left, right. The result does not depend on what the cache holds; the cache keeps
    /// what it held and takes in nothing but positions that the search came to value,
    /// each at the depth that was left there; `state` itself is not among them.
    pub fn expectimax(&mut self, state: &Game<N>, depth: usize) -> (found: (Estimate, Option<Direction>))
        requires
            old(self).wf(),
            state.wf(),
        ensures
            final(self).wf(),
            found.0@ == position_value(state@.cells, N as nat, depth as nat),
            found.1 == best_move(state@.cells, N as nat, depth as nat),
            found.1 matches Some(d) ==> shifted(state@.cells, N as nat, d) != state@.cells,
            found.1 is None <==> stuck(state@.cells, N as nat) || depth == 0,
            old(self).cache@.submap_of(final(self).cache@),
            forall|key: (Seq<i32>, usize)|
                #![trigger final(self).cache@.contains_key(key)]
                final(self).cache@.contains_key(key) && !old(self).cache@.contains_key(key)
                    ==> search_visits(state@.cells, N as nat, depth as nat, key) && valid_grid(
                    key.0,
                    N as nat,
                ) && key.1 < depth,
            final(self).depth == old(self).depth,
            final(self).alpha == old(self).alpha,
            final(self).beta == old(self).beta,
            final(self).gamma == old(self).gamma,
            final(self).delta == old(self).delta,
            final(self).lambda == old(self).lambda,
        decreases depth, 0nat,
    {
        let ghost cells = state@.cells;
        let ghost n = N as nat;
        proof {
            lemma_best_move_is_legal(cells, n, depth as nat);
        }
        if state.check_if_lost() {
            return (Estimate::Worst, None);
        }
        if depth == 0 {
            return (Estimate::Finite(self.utility_snake_shape(state)), None);
        }
        let mut best_score = Estimate::Worst;
        let mut best_move: Option<Direction> = None;
        let steps = directions();
        let mut i: usize = 0;
        while i < 4
            invariant
                i <= 4,
                depth > 0,
                state.wf(),
                cells == state@.cells,
                n == N,
                self.wf(),
                forall|k: int| 0 <= k < 4 ==> steps[k] == direction_at(k),
                (best_score@, best_move) == best_of(cells, n, depth as nat, i as nat),
                old(self).cache@.submap_of(self.cache@),
                forall|key: (Seq<i32>, usize)|
                    #![trigger self.cache@.contains_key(key)]
                    self.cache@.contains_key(key) && !old(self).cache@.contains_key(key)
                        ==> moves_visit(cells, n, depth as nat, i as nat, key),
                self.depth == old(self).depth,
                self.alpha == old(self).alpha,
                self.beta == old(self).beta,
                self.gamma == old(self).gamma,
                self.delta == old(self).delta,
                self.lambda == old(self).lambda,
            decreases 4 - i,
        {
            let step = steps[i];
            let ghost at_start = self.cache@;
            let mut state_after_my_turn = state.clone();
            if state_after_my_turn.movement(&step) {
                let ghost held = self.cache@;
                let expected_value = self.chance(&state_after_my_turn, depth - 1);
                proof {
                    vstd::map_lib::lemma_submap_of_trans(old(self).cache@, held, self.cache@);
                }
                if best_move.is_none() || expected_value.beats(&best_score) {
                    best_score = expected_value;
                    best_move = Some(step);
                }
            }
            proof {
                assert(step == direction_at(i as int));
                assert forall|key: (Seq<i32>, usize)|
                    #![trigger self.cache@.contains_key(key)]
                    self.cache@.contains_key(key) && !old(self).cache@.contains_key(
                        key,
                    ) implies moves_visit(cells, n, depth as nat, (i + 1) as nat, key) by {
                    if at_start.contains_key(key) {
                        assert(moves_visit(cells, n, depth as nat, i as nat, key));
                    }
                }
            }
            i = i + 1;
        }
        proof {
            assert forall|key: (Seq<i32>, usize)|
                #![trigger self.cache@.contains_key(key)]
                self.cache@.contains_key(key) && !old(self).cache@.contains_key(
                    key,
                ) implies search_visits(cells, n, depth as nat, key) && valid_grid(key.0, n)
                && key.1 < depth by {
                assert(moves_visit(cells, n, depth as nat, 4, key));
                lemma_search_visits_valid(cells, n, depth as nat, key);
            }
        }
        (best_score, best_move)
    }

    /// What the grid of `after`, as a move left it, is worth before the new tile
    /// appears: the weighted average over the tiles that may appear of what the
    /// position with the tile is worth at `depth`. What the cache holds for such a
    /// position is taken from it; what it does not hold is computed and put into it.
    pub fn chance(&mut self, after: &Game<N>, depth: usize) -> (worth: Estimate)
        requires
            old(self).wf(),
            after.wf(),
        ensures
            final(self).wf(),
            worth@ == chance_value(after@.cells, N as nat, depth as nat),
            old(self).cache@.submap_of(final(self).cache@),
            forall|key: (Seq<i32>, usize)|
                #![trigger final(self).cache@.contains_key(key)]
                final(self).cache@.contains_key(key) && !old(self).cache@.contains_key(key)
                    ==> chance_visits(after@.cells, N as nat, depth as nat, key) && valid_grid(
                    key.0,
                    N as nat,
                ) && key.1 <= depth,
            final(self).depth == old(self).depth,
            final(self).alpha == old(self).alpha,
            final(self).beta == old(self).beta,
            final(self).gamma == old(self).gamma,
            final(self).delta == old(self).delta,
            final(self).lambda == old(self).lambda,
        decreases depth, 1nat,
    {
        let ghost cells = after@.cells;
        let ghost n = N as nat;
        let empty_tiles_list = after.get_empty_tiles();
        let empty_list_len = empty_tiles_list.len();
        if empty_list_len == 0 {
            return Estimate::Finite(0);
        }
        let all_tiles_and_possibilities = outcomes_of(&empty_tiles_list);
        let ghost outs = outcomes(empty_cells(cells));
        proof {
            lemma_empty_cells(cells);
            assert(outs.len() == all_tiles_and_possibilities@.len());
        }
        let mut total: i128 = 0;
        let mut lost = false;
        let mut p: usize = 0;
        while p < all_tiles_and_possibilities.len()
            invariant
                after.wf(),
                cells == after@.cells,
                n == N,
                self.wf(),
                outs == outcomes(empty_cells(cells)),
                empty_list_len == empty_cells(cells).len(),
                empty_list_len <= u32::MAX,
                all_tiles_and_possibilities@.len() == 2 * empty_list_len,
                p <= all_tiles_and_possibilities@.len(),
                forall|q: int|
                    0 <= q < outs.len() ==> (#[trigger] all_tiles_and_possibilities@[q]).0 as int
                        == outs[q].0 && all_tiles_and_possibilities@[q].1 == outs[q].1,
                lost ==> outcome_total(cells, n, depth as nat, outs, p as nat) is None,
                !lost ==> outcome_total(cells, n, depth as nat, outs, p as nat) == Some(
                    total as int,
                ),
                0 <= total <= (5 * p + 4 * (p % 2)) * SNAKE_MAX,
                old(self).cache@.submap_of(self.cache@),
                forall|key: (Seq<i32>, usize)|
                    #![trigger self.cache@.contains_key(key)]
                    self.cache@.contains_key(key) && !old(self).cache@.contains_key(key)
                        ==> tiles_visit(cells, n, depth as nat, p as nat, key),
                self.depth == old(self).depth,
                self.alpha == old(self).alpha,
                self.beta == old(self).beta,
                self.gamma == old(self).gamma,
                self.delta == old(self).delta,
                self.lambda == old(self).lambda,
            decreases all_tiles_and_possibilities@.len() - p,
        {
            let (empty_index, tile_value) = all_tiles_and_possibilities[p];
            proof {
                lemma_outcome_valid(cells, n, p as int);
                assert(all_tiles_and_possibilities@[p as int].0 as int == outs[p as int].0);
                lemma_outcome_total_range(cells, n, depth as nat, (p + 1) as nat);
            }
            let mut state_after_new_tile = after.clone();
            state_after_new_tile.new_tile(empty_index as usize, tile_value);
            let ghost child = state_after_new_tile@.cells;
            proof {
                assert(child == cells.update(outs[p as int].0, outs[p as int].1));
                lemma_position_value_range(child, n, depth as nat);
            }
            let ghost at_first = self.cache@;
            let score = match self.cache.get(state_after_new_tile.data().as_slice(), depth) {
                Some(cache_score) => cache_score,
                None => {
                    let (score, _) = self.expectimax(&state_after_new_tile, depth);
                    let ghost held = self.cache@;
                    let key = state_after_new_tile.data().clone();
                    assert(key@ =~= child);
                    self.cache.insert(key, depth, score);
                    proof {
                        assert(held.submap_of(self.cache@));
                        vstd::map_lib::lemma_submap_of_trans(at_first, held, self.cache@);
                        vstd::map_lib::lemma_submap_of_trans(old(self).cache@, at_first, self.cache@);
                    }
                    score
                },
            };
            assert(score@ == position_value(child, n, depth as nat));
            proof {
                assert(child == with_tile(cells, p as int));
                assert forall|key: (Seq<i32>, usize)|
                    #![trigger self.cache@.contains_key(key)]
                    self.cache@.contains_key(key) && !old(self).cache@.contains_key(
                        key,
                    ) implies tiles_visit(cells, n, depth as nat, (p + 1) as nat, key) by {
                    if at_first.contains_key(key) {
                        assert(tiles_visit(cells, n, depth as nat, p as nat, key));
                    } else {
                        assert(key == (child, depth) || search_visits(
                            child,
                            n,
                            depth as nat,
                            key,
                        ));
                    }
                }
            }
            match score {
                Estimate::Worst => {
                    lost = true;
                },
                Estimate::Finite(value) => {
                    if !lost {
                        if tile_value == 1 {
                            total = total + 9 * value;
                        } else {
                            total = total + value;
                        }
                    }
                },
            }
            p = p + 1;
        }
        proof {
            assert forall|key: (Seq<i32>, usize)|
                #![trigger self.cache@.contains_key(key)]
                self.cache@.contains_key(key) && !old(self).cache@.contains_key(
                    key,
                ) implies chance_visits(cells, n, depth as nat, key) && valid_grid(key.0, n)
                && key.1 <= depth by {
                assert(tiles_visit(cells, n, depth as nat, (2 * empty_list_len) as nat, key));
                lemma_chance_visits_valid(cells, n, depth as nat, key);
            }
        }
        if lost {
            Estimate::Worst
        } else {
            proof {
                lemma_chance_value_range(cells, n, depth as nat);
            }
            Estimate::Finite(total / (10 * empty_list_len as i128))
        }
    }

    /// The leaf evaluation of the search: the snake sum of the board, in fortieths.
    pub fn utility_snake_shape(&self, state: &Game<N>) -> (sum: i128)
        requires
            state.wf(),
        ensures
            sum == crate::features::snake_sum(state@.cells, N as nat),
            0 <= sum <= SNAKE_MAX,
    {
        state.get_tiles_snake_sum()
    }
}

impl<const N: usize> Strategy<N> for ExpectimaxStrategy<N> {
    open spec fn ready(&self) -> bool {
        self.wf()
    }

    /// The move that the search chooses when it looks `self.depth` moves ahead.
    fn calculate_next_move(&mut self, game: &Game<N>) -> (next: Option<Direction>)
        ensures
            next == best_move(game@.cells, N as nat, old(self).depth as nat),
            final(self).depth == old(self).depth,
    {
        let depth = self.depth;
        let (_best_score, best_move) = self.expectimax(game, depth);
        best_move
    }
}

} // verus!
