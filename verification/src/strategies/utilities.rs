//! Other ways to value a board than the snake sum. The search does not use them; they
//! are there to be tried in its place. All of them are exact whole numbers.
//!
//! Two of them are a tenth of a sum of exponents; they are counted in tenths, so that
//! the sum itself is what they return. `gamma_utility`, which blends them with the
//! others, is counted in tenths as well.

use crate::algorithm::{lemma_at_bound, lemma_split};
use crate::game::Game;
use crate::queries::{empty_cells, exponent_sum, lemma_exponent_sum, lemma_max_exponent, max_exponent};
use crate::strategies::expectimax::ExpectimaxStrategy;
use vstd::prelude::*;

verus! {

/// How far a cell is from the first corner: its row plus its column, on a board of side `n`.
pub open spec fn corner_distance(n: nat, k: int) -> int {
    k / n as int + k % n as int
}

/// The sum over the first `upto` cells of the exponent times the distance from the first
/// corner.
pub open spec fn corner_sum(cells: Seq<i32>, n: nat, upto: nat) -> int
    decreases upto,
{
    if upto == 0 {
        0
    } else {
        corner_sum(cells, n, (upto - 1) as nat) + corner_distance(n, upto - 1) * cells[upto - 1]
    }
}

/// Whether the flat index is one of the four in the middle of a 4×4 board.
pub open spec fn in_center(k: int) -> bool {
    k == 5 || k == 6 || k == 9 || k == 10
}

/// The sum of the exponents of the first `upto` cells, those in the middle left out.
pub open spec fn rim_sum(cells: Seq<i32>, upto: nat) -> int
    decreases upto,
{
    if upto == 0 {
        0
    } else {
        rim_sum(cells, (upto - 1) as nat) + (if in_center(upto - 1) {
            0
        } else {
            cells[upto - 1] as int
        })
    }
}

/// Whether the first four exponents of row `r` fall strictly from left to right.
pub open spec fn row_falls(cells: Seq<i32>, n: nat, r: int) -> bool {
    cells[n * r] > cells[n * r + 1] && cells[n * r + 1] > cells[n * r + 2] && cells[n * r + 2]
        > cells[n * r + 3]
}

/// How many of the first `upto` rows fall.
pub open spec fn falling_rows(cells: Seq<i32>, n: nat, upto: nat) -> int
    decreases upto,
{
    if upto == 0 {
        0
    } else {
        falling_rows(cells, n, (upto - 1) as nat) + (if row_falls(cells, n, upto - 1) {
            1int
        } else {
            0int
        })
    }
}

/// The flat index of the `i`-th cell on the snake path: the even rows run from left to
/// right, the odd rows from right to left.
pub open spec fn snake_index(n: nat, i: int) -> int {
    let row = i / n as int;
    let step = i % n as int;
    if row % 2 == 0 {
        n * row + step
    } else {
        n * row + (n - 1 - step)
    }
}

/// The sum over the first `upto` steps of the snake path of the exponent that the step
/// leaves, where the exponent that it reaches is greater by one.
pub open spec fn snake_chain(cells: Seq<i32>, n: nat, upto: nat) -> int
    decreases upto,
{
    if upto == 0 {
        0
    } else {
        let from = cells[snake_index(n, upto - 1)];
        let to = cells[snake_index(n, upto as int)];
        snake_chain(cells, n, (upto - 1) as nat) + (if from + 1 == to {
            from as int
        } else {
            0int
        })
    }
}

/// The sum over the first `upto` cells of the exponent times the place in the flat order,
/// counted from one.
pub open spec fn ramp_sum(cells: Seq<i32>, upto: nat) -> int
    decreases upto,
{
    if upto == 0 {
        0
    } else {
        ramp_sum(cells, (upto - 1) as nat) + cells[upto - 1] * upto
    }
}

/// The blend of `gamma_utility`, in tenths.
pub open spec fn blend(
    alpha: int,
    beta: int,
    gamma: int,
    delta: int,
    lambda: int,
    cells: Seq<i32>,
    n: nat,
) -> int {
    10 * (alpha * max_exponent(cells)) + 10 * (beta * empty_cells(cells).len()) + gamma * rim_sum(
        cells,
        cells.len(),
    ) + 10 * (delta * snake_chain(cells, n, (cells.len() - 1) as nat)) + lambda * corner_sum(
        cells,
        n,
        cells.len(),
    )
}

/// A product of a weight that fits an `i32` and a number between `0` and `bound` is
/// between minus and plus `2^31` times `bound`.
pub proof fn lemma_weighted(weight: int, value: int, bound: int)
    requires
        -0x8000_0000 <= weight <= 0x8000_0000,
        0 <= value <= bound,
    ensures
        -0x8000_0000 * bound <= weight * value <= 0x8000_0000 * bound,
{
    assert(-0x8000_0000 * bound <= weight * value <= 0x8000_0000 * bound) by (nonlinear_arith)
        requires
            -0x8000_0000 <= weight <= 0x8000_0000,
            0 <= value <= bound,
    ;
}

/// The snake path stays on the board.
pub proof fn lemma_snake_index(n: nat, i: int)
    requires
        0 <= i < n * n,
    ensures
        0 <= snake_index(n, i) < n * n,
{
    assert(n > 0) by (nonlinear_arith)
        requires
            0 <= i < n * n,
    ;
    lemma_split(n as int, i, n as int);
    let row = i / n as int;
    let step = i % n as int;
    lemma_at_bound(n as int, step, row, n as int);
    lemma_at_bound(n as int, n - 1 - step, row, n as int);
}

impl<const N: usize> ExpectimaxStrategy<N> {
    /// The highest exponent on the board.
    pub fn utility_max_tile(&self, state: &Game<N>) -> (value: i128)
        requires
            state.wf(),
        ensures
            value == max_exponent(state@.cells),
            0 <= value <= i32::MAX,
    {
        let data = state.data();
        proof {
            lemma_max_exponent(data@);
        }
        let mut max: i32 = 0;
        let mut i: usize = 0;
        while i < data.len()
            invariant
                i <= data.len(),
                max == max_exponent(data@.take(i as int)),
                max >= 0,
            decreases data.len() - i,
        {
            proof {
                assert(data@.take(i + 1).drop_last() == data@.take(i as int));
            }
            if data[i] > max {
                max = data[i];
            }
            i = i + 1;
        }
        proof {
            assert(data@.take(data.len() as int) == data@);
        }
        max as i128
    }

    /// The number of empty cells.
    pub fn utility_empty_tiles(&self, state: &Game<N>) -> (value: i128)
        requires
            state.wf(),
        ensures
            value == empty_cells(state@.cells).len(),
            0 <= value <= u32::MAX,
    {
        let empty_tiles = state.get_empty_tiles().len();
        proof {
            crate::queries::lemma_empty_cells(state@.cells);
        }
        empty_tiles as i128
    }

    /// The number of empty cells.
    pub fn utility_num_empty_tiles(&self, state: &Game<N>) -> (value: i128)
        requires
            state.wf(),
        ensures
            value == empty_cells(state@.cells).len(),
            0 <= value <= u32::MAX,
    {
        self.utility_empty_tiles(state)
    }

    /// The sum of the exponents on the board.
    pub fn utility_sum_tiles(&self, state: &Game<N>) -> (value: i128)
        requires
            state.wf(),
        ensures
            value == exponent_sum(state@.cells),
    {
        state.get_tiles_sum() as i128
    }

    /// The sum of the exponents on the rim of a 4×4 board, in tenths: the sum of all
    /// exponents but those at the flat indices 5, 6, 9 and 10.
    pub fn center_utility(&self, state: &Game<N>) -> (value: i128)
        requires
            state.wf(),
        ensures
            value == rim_sum(state@.cells, state@.cells.len()),
            0 <= value <= state@.cells.len() * i32::MAX,
    {
        let data = state.data();
        let mut center_score: i128 = 0;
        let mut index: usize = 0;
        while index < data.len()
            invariant
                index <= data.len(),
                data@.len() <= u32::MAX,
                forall|k: int| 0 <= k < data@.len() ==> data@[k] >= 0,
                center_score == rim_sum(data@, index as nat),
                0 <= center_score <= index * i32::MAX,
            decreases data.len() - index,
        {
            if !(index == 5 || index == 6 || index == 9 || index == 10) {
                center_score = center_score + data[index] as i128;
            }
            index = index + 1;
        }
        center_score
    }

    /// The evaluation that was tried last: `center_utility`.
    pub fn utility(&self, state: &Game<N>) -> (value: i128)
        requires
            state.wf(),
        ensures
            value == rim_sum(state@.cells, state@.cells.len()),
    {
        self.center_utility(state)
    }

    /// How far the tiles are from the first corner, in tenths: the sum over all cells
    /// of the exponent times the row plus the column.
    pub fn corner_utility(&self, state: &Game<N>) -> (value: i128)
        requires
            state.wf(),
        ensures
            value == corner_sum(state@.cells, N as nat, state@.cells.len()),
            0 <= value <= state@.cells.len() * 0x2_0000_0000_0000,
    {
        let data = state.data();
        let ghost ni = N as int;
        let mut corner_score: i128 = 0;
        let mut index: usize = 0;
        while index < data.len()
            invariant
                index <= data.len(),
                ni == N,
                data@.len() == N * N,
                N * N <= u32::MAX,
                forall|k: int| 0 <= k < data@.len() ==> data@[k] >= 0,
                corner_score == corner_sum(data@, N as nat, index as nat),
                0 <= corner_score <= index * 0x2_0000_0000_0000,
            decreases data.len() - index,
        {
            proof {
                assert(ni > 0) by (nonlinear_arith)
                    requires
                        0 <= ni,
                        0 <= index < ni * ni,
                ;
                lemma_split(ni, index as int, ni);
                assert(ni <= 0xffff) by (nonlinear_arith)
                    requires
                        0 <= ni,
                        ni * ni <= 0xffff_ffff,
                ;
            }
            let distance = index / N + index % N;
            let value = data[index];
            proof {
                assert(0 <= distance * value <= 0x2_0000 * 0x8000_0000) by (nonlinear_arith)
                    requires
                        0 <= distance <= 0x2_0000,
                        0 <= value <= 0x8000_0000,
                ;
            }
            corner_score = corner_score + distance as i128 * value as i128;
            index = index + 1;
        }
        corner_score
    }

    /// How many rows fall strictly over their first four cells, from left to right.
    pub fn monotone_utility(&self, state: &Game<N>) -> (value: i128)
        requires
            state.wf(),
            N == 0 || N >= 4,
        ensures
            value == falling_rows(state@.cells, N as nat, N as nat),
            0 <= value <= N,
    {
        let data = state.data();
        let ghost ni = N as int;
        let mut score: i128 = 0;
        let mut i: usize = 0;
        while i < N
            invariant
                i <= N,
                ni == N,
                N == 0 || N >= 4,
                data@.len() == N * N,
                N * N <= u32::MAX,
                score == falling_rows(data@, N as nat, i as nat),
                0 <= score <= i,
            decreases N - i,
        {
            proof {
                lemma_at_bound(ni, 3, i as int, ni);
            }
            let start = N * i;
            if data[start] > data[start + 1] && data[start + 1] > data[start + 2] && data[start
                + 2] > data[start + 3] {
                score = score + 1;
            }
            i = i + 1;
        }
        score
    }

    /// The flat index of the `i`-th cell on the snake path.
    fn snake_cell(i: usize) -> (index: usize)
        requires
            i < N * N,
            N * N <= u32::MAX,
        ensures
            index == snake_index(N as nat, i as int),
            index < N * N,
    {
        let ghost ni = N as int;
        proof {
            lemma_snake_index(N as nat, i as int);
            assert(ni > 0) by (nonlinear_arith)
                requires
                    0 <= ni,
                    0 <= i < ni * ni,
            ;
            lemma_split(ni, i as int, ni);
            lemma_at_bound(ni, (i % N) as int, (i / N) as int, ni);
        }
        let row = i / N;
        let step = i % N;
        if row % 2 == 0 {
            N * row + step
        } else {
            N * row + (N - 1 - step)
        }
    }

    /// How well the tiles rise along the snake path: the sum over its steps of the
    /// exponent that the step leaves, where the exponent that it reaches is greater by
    /// one.
    pub fn snake_utility(&self, state: &Game<N>) -> (value: i128)
        requires
            state.wf(),
            N >= 1,
        ensures
            value == snake_chain(state@.cells, N as nat, (N * N - 1) as nat),
            0 <= value <= state@.cells.len() * i32::MAX,
    {
        let data = state.data();
        let count = data.len();
        proof {
            assert(N * N >= 1) by (nonlinear_arith)
                requires
                    N >= 1,
            ;
        }
        let mut score: i128 = 0;
        let mut i: usize = 0;
        while i < count - 1
            invariant
                count == N * N,
                count >= 1,
                i <= count - 1,
                data@.len() == count,
                N * N <= u32::MAX,
                forall|k: int| 0 <= k < data@.len() ==> data@[k] >= 0,
                score == snake_chain(data@, N as nat, i as nat),
                0 <= score <= i * i32::MAX,
            decreases count - i,
        {
            let index1 = Self::snake_cell(i);
            let index2 = Self::snake_cell(i + 1);
            if data[index1] as i64 + 1 == data[index2] as i64 {
                score = score + data[index1] as i128;
            }
            i = i + 1;
        }
        score
    }

    /// The sum over all cells of the exponent times the place in the flat order,
    /// counted from one.
    pub fn snake_utility2(&self, state: &Game<N>) -> (value: i128)
        requires
            state.wf(),
        ensures
            value == ramp_sum(state@.cells, state@.cells.len()),
            0 <= value,
    {
        let data = state.data();
        let mut score: i128 = 0;
        let mut i: usize = 0;
        while i < data.len()
            invariant
                i <= data.len(),
                data@.len() <= u32::MAX,
                forall|k: int| 0 <= k < data@.len() ==> data@[k] >= 0,
                score == ramp_sum(data@, i as nat),
                0 <= score <= i * 0x8000_0000_0000_0000,
            decreases data.len() - i,
        {
            let value = data[i];
            proof {
                assert(0 <= value * (i + 1) <= 0x8000_0000 * 0x1_0000_0000) by (nonlinear_arith)
                    requires
                        0 <= value <= 0x8000_0000,
                        0 <= i + 1 <= 0x1_0000_0000,
                ;
            }
            score = score + value as i128 * (i as i128 + 1);
            i = i + 1;
        }
        score
    }

    /// The blend of five evaluations with the weights of the player, in tenths:
    /// `alpha` times the highest exponent, `beta` times the number of empty cells,
    /// `gamma` times a tenth of the rim sum, `delta` times the snake chain and `lambda`
    /// times a tenth of the corner sum.
    pub fn gamma_utility(&self, state: &Game<N>) -> (value: i128)
        requires
            state.wf(),
            N >= 1,
        ensures
            value == blend(
                self.alpha as int,
                self.beta as int,
                self.gamma as int,
                self.delta as int,
                self.lambda as int,
                state@.cells,
                N as nat,
            ),
    {
        let top = self.utility_max_tile(state);
        let empty = self.utility_empty_tiles(state);
        let rim = self.center_utility(state);
        let chain = self.snake_utility(state);
        let corner = self.corner_utility(state);
        proof {
            let len = state@.cells.len() as int;
            assert(len * i32::MAX <= 0x1_0000_0000 * 0x8000_0000) by (nonlinear_arith)
                requires
                    0 <= len <= 0x1_0000_0000,
            ;
            assert(len * 0x2_0000_0000_0000 <= 0x1_0000_0000 * 0x2_0000_0000_0000) by (nonlinear_arith)
                requires
                    0 <= len <= 0x1_0000_0000,
            ;
            lemma_weighted(self.alpha as int, top as int, 0x8000_0000);
            lemma_weighted(self.beta as int, empty as int, 0x1_0000_0000);
            lemma_weighted(self.gamma as int, rim as int, 0x8000_0000_0000_0000);
            lemma_weighted(self.delta as int, chain as int, 0x8000_0000_0000_0000);
            lemma_weighted(self.lambda as int, corner as int, 0x2_0000_0000_0000_0000_0000);
        }
        10 * (self.alpha as i128 * top) + 10 * (self.beta as i128 * empty) + self.gamma as i128 * rim
            + 10 * (self.delta as i128 * chain) + self.lambda as i128 * corner
    }

    /// `1` if both places are on the board and hold the same exponent, else `0`. A
    /// place is a row and a column.
    pub fn is_next_to_each_other(first: (i32, i32), second: (i32, i32), state: &Game<N>) -> (same:
        i32)
        requires
            state.wf(),
        ensures
            same == (if 0 <= first.0 < N && 0 <= first.1 < N && 0 <= second.0 < N && 0 <= second.1
                < N && state@.cells[first.0 * N + first.1] == state@.cells[second.0 * N + second.1] {
                1i32
            } else {
                0i32
            }),
    {
        let (x1, y1) = first;
        let (x2, y2) = second;
        if x1 < 0 || y1 < 0 || x2 < 0 || y2 < 0 {
            return 0;
        }
        let (r1, c1, r2, c2) = (x1 as usize, y1 as usize, x2 as usize, y2 as usize);
        if r1 >= N || c1 >= N || r2 >= N || c2 >= N {
            return 0;
        }
        proof {
            lemma_at_bound(N as int, c1 as int, r1 as int, N as int);
            lemma_at_bound(N as int, c2 as int, r2 as int, N as int);
            assert(x1 * N == N * r1) by (nonlinear_arith)
                requires
                    x1 == r1,
            ;
            assert(x2 * N == N * r2) by (nonlinear_arith)
                requires
                    x2 == r2,
            ;
        }
        let data = state.data();
        if data[N * r1 + c1] == data[N * r2 + c2] {
            1
        } else {
            0
        }
    }
}

} // verus!
