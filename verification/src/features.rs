//! The features of a board that a leaf evaluation is made of. All of them are exact
//! whole numbers.
//!
//! The snake sums weigh what each cell shows by a fixed table per board size. One of
//! the tables has a weight as small as a fortieth, so every snake sum is counted in
//! fortieths: a weight `w` of a table stands here as `40 * w`.

use crate::algorithm::{lemma_at_bound, lemma_split};
use crate::game::Game;
use crate::tile::{lemma_face_bounds, shown};
use vstd::prelude::*;

verus! {

/// How many units of a snake sum make one: the sums are counted in fortieths.
pub const SNAKE_UNIT: i128 = 40;

/// The snake weights for a board of side `side`, row by row, each multiplied by
/// `SNAKE_UNIT`; no weights for other sides than 2, 3, 4 and 5.
pub open spec fn snake_weights(side: nat) -> Seq<i128> {
    if side == 2 {
        seq![20480i128, 5120, 320, 1280]
    } else if side == 3 {
        seq![20480i128, 40960, 81920, 10240, 5120, 2560, 320, 640, 1280]
    } else if side == 4 {
        seq![
            2621440i128,
            1310720,
            655360,
            327680,
            20480,
            40960,
            81920,
            163840,
            10240,
            5120,
            2560,
            1280,
            80,
            160,
            320,
            640,
        ]
    } else if side == 5 {
        seq![
            41943040i128,
            20971520,
            10485760,
            5242880,
            2621440,
            81920,
            163840,
            327680,
            655360,
            1310720,
            40960,
            20480,
            10240,
            5120,
            2560,
            80,
            160,
            320,
            640,
            1280,
            40,
            20,
            10,
            5,
            1,
        ]
    } else {
        Seq::empty()
    }
}

/// The weighted sum over the first `upto` cells, row by row, of the `side`×`side`
/// block in the top left corner of a board of side `n`: what each cell shows times its
/// weight.
pub open spec fn block_sum(cells: Seq<i32>, n: nat, side: nat, weights: Seq<i128>, upto: nat) -> int
    decreases upto,
{
    if upto == 0 {
        0
    } else {
        let t = (upto - 1) as int;
        block_sum(cells, n, side, weights, (upto - 1) as nat) + shown(
            cells[n * (t / side as int) + t % side as int],
        ) * weights[t]
    }
}

/// The snake sum of a board of side `n`, in fortieths; `0` for a side without a table.
pub open spec fn snake_sum(cells: Seq<i32>, n: nat) -> int {
    block_sum(cells, n, n, snake_weights(n), snake_weights(n).len())
}

/// No snake sum is above this.
pub const SNAKE_MAX: i128 = 0x4000_0000_0000_0000;

/// The distance between two numbers.
pub open spec fn gap(a: int, b: int) -> int {
    if a >= b {
        a - b
    } else {
        b - a
    }
}

/// What two neighbouring cells add to the roughness of a board: the distance between
/// their exponents, an empty cell counting with the exponent `0`.
pub open spec fn rough_pair(cells: Seq<i32>, a: int, b: int) -> int {
    gap(cells[a] as int, cells[b] as int)
}

/// What two neighbouring cells add to the merging potential of a board: what the
/// first shows, where both hold the same tile.
pub open spec fn merge_pair(cells: Seq<i32>, a: int, b: int) -> int {
    if cells[a] != 0 && cells[a] == cells[b] {
        shown(cells[a])
    } else {
        0
    }
}

/// The roughness between the first `upto` cells of a board of side `n` and their right
/// and lower neighbours.
pub open spec fn roughness(cells: Seq<i32>, n: nat, upto: nat) -> int
    decreases upto,
{
    if upto == 0 {
        0
    } else {
        let k = (upto - 1) as int;
        roughness(cells, n, (upto - 1) as nat) + (if k % n as int + 1 < n {
            rough_pair(cells, k, k + 1)
        } else {
            0
        }) + (if k / n as int + 1 < n {
            rough_pair(cells, k, k + n)
        } else {
            0
        })
    }
}

/// The merging potential between the first `upto` cells of a board of side `n` and
/// their right and lower neighbours.
pub open spec fn merge_potential(cells: Seq<i32>, n: nat, upto: nat) -> int
    decreases upto,
{
    if upto == 0 {
        0
    } else {
        let k = (upto - 1) as int;
        merge_potential(cells, n, (upto - 1) as nat) + (if k % n as int + 1 < n {
            merge_pair(cells, k, k + 1)
        } else {
            0
        }) + (if k / n as int + 1 < n {
            merge_pair(cells, k, k + n)
        } else {
            0
        })
    }
}

/// The sum of the distances between the exponents of the first `upto` pairs of cells
/// that follow each other in the flat order.
pub open spec fn unevenness(cells: Seq<i32>, upto: nat) -> int
    decreases upto,
{
    if upto == 0 {
        0
    } else {
        unevenness(cells, (upto - 1) as nat) + gap(cells[upto - 1] as int, cells[upto as int] as int)
    }
}

/// What a valid cell shows is between `0` and `i32::MAX`, and `0` only for an empty cell.
pub proof fn lemma_shown(e: i32)
    requires
        e >= 0,
    ensures
        0 <= shown(e) <= i32::MAX,
        shown(e) == 0 <==> e == 0,
{
    lemma_face_bounds(e);
}

/// A weighted sum with weights between `0` and `bound` is between `0` and `upto` times
/// `i32::MAX * bound`.
pub proof fn lemma_block_sum_bound(
    cells: Seq<i32>,
    n: nat,
    side: nat,
    weights: Seq<i128>,
    upto: nat,
    bound: int,
)
    requires
        0 < side <= n,
        cells.len() == n * n,
        forall|k: int| 0 <= k < cells.len() ==> cells[k] >= 0,
        upto <= side * side,
        weights.len() == side * side,
        forall|t: int| 0 <= t < weights.len() ==> 0 <= #[trigger] weights[t] <= bound,
    ensures
        0 <= block_sum(cells, n, side, weights, upto) <= upto * (i32::MAX * bound),
    decreases upto,
{
    if upto > 0 {
        lemma_block_sum_bound(cells, n, side, weights, (upto - 1) as nat, bound);
        let t = (upto - 1) as int;
        lemma_split(side as int, t, side as int);
        lemma_at_bound(n as int, t % side as int, t / side as int, n as int);
        let e = cells[n * (t / side as int) + t % side as int];
        lemma_shown(e);
        let w = weights[t];
        assert(0 <= shown(e) * w <= i32::MAX * bound) by (nonlinear_arith)
            requires
                0 <= shown(e) <= i32::MAX,
                0 <= w <= bound,
        ;
        let unit = i32::MAX * bound;
        assert((upto - 1) * unit + unit == upto * unit) by (nonlinear_arith);
    }
}

/// A snake sum is between `0` and `SNAKE_MAX`.
pub proof fn lemma_snake_sum_bound(cells: Seq<i32>, n: nat)
    requires
        cells.len() == n * n,
        forall|k: int| 0 <= k < cells.len() ==> cells[k] >= 0,
    ensures
        0 <= snake_sum(cells, n) <= SNAKE_MAX,
{
    let w = snake_weights(n);
    if 2 <= n <= 5 {
        assert(w.len() == n * n) by {
            if n == 2 {
                assert(w.len() == 4);
            } else if n == 3 {
                assert(w.len() == 9);
            } else if n == 4 {
                assert(w.len() == 16);
            } else {
                assert(w.len() == 25);
            }
        }
        lemma_block_sum_bound(cells, n, n, w, w.len(), 41943040);
        assert(w.len() <= 25);
        assert(w.len() * (i32::MAX * 41943040) <= 25 * (i32::MAX * 41943040)) by (nonlinear_arith)
            requires
                w.len() <= 25,
        ;
    }
}

impl<const N: usize> Game<N> {
    /// The weighted sum over the `side`×`side` block in the top left corner.
    fn block_weighted(&self, side: usize, weights: &[i128]) -> (sum: i128)
        requires
            self.wf(),
            0 < side <= N,
            side <= 5,
            weights@.len() == side * side,
            forall|t: int| 0 <= t < weights@.len() ==> 0 <= #[trigger] weights@[t] <= 41943040,
        ensures
            sum == block_sum(self@.cells, N as nat, side as nat, weights@, (side * side) as nat),
    {
        let ghost cells = self@.cells;
        let ghost n = N as nat;
        let ghost s = side as nat;
        proof {
            assert(side * side <= 25) by (nonlinear_arith)
                requires
                    side <= 5,
            ;
        }
        let count = side * side;
        let mut sum: i128 = 0;
        let mut t: usize = 0;
        while t < count
            invariant
                self.wf(),
                cells == self@.cells,
                n == N,
                s == side,
                0 < side <= N,
                count == side * side,
                count <= 25,
                t <= count,
                weights@.len() == count,
                forall|t: int| 0 <= t < weights@.len() ==> 0 <= #[trigger] weights@[t] <= 41943040,
                sum == block_sum(cells, n, s, weights@, t as nat),
                0 <= sum <= t * (i32::MAX * 41943040),
            decreases count - t,
        {
            proof {
                lemma_split(side as int, t as int, side as int);
                lemma_at_bound(N as int, (t % side) as int, (t / side) as int, N as int);
                lemma_block_sum_bound(cells, n, s, weights@, (t + 1) as nat, 41943040);
            }
            let value = self.get_tile(t / side, t % side);
            proof {
                assert(0 <= value * weights@[t as int] <= i32::MAX * 41943040) by (nonlinear_arith)
                    requires
                        0 <= value <= i32::MAX,
                        0 <= weights@[t as int] <= 41943040,
                ;
            }
            sum = sum + value as i128 * weights[t];
            t = t + 1;
        }
        sum
    }

    /// The snake sum with the table for 2×2 boards, over the 2×2 block in the top left
    /// corner, in fortieths.
    pub fn get_tiles_snake_sum_2x2(&self) -> (sum: i128)
        requires
            self.wf(),
            N >= 2,
        ensures
            sum == block_sum(self@.cells, N as nat, 2, snake_weights(2), 4),
    {
        let weights: [i128; 4] = [20480, 5120, 320, 1280];
        assert(weights@ =~= snake_weights(2));
        self.block_weighted(2, weights.as_slice())
    }

    /// The snake sum with the table for 3×3 boards, over the 3×3 block in the top left
    /// corner, in fortieths.
    pub fn get_tiles_snake_sum_3x3(&self) -> (sum: i128)
        requires
            self.wf(),
            N >= 3,
        ensures
            sum == block_sum(self@.cells, N as nat, 3, snake_weights(3), 9),
    {
        let weights: [i128; 9] = [20480, 40960, 81920, 10240, 5120, 2560, 320, 640, 1280];
        assert(weights@ =~= snake_weights(3));
        self.block_weighted(3, weights.as_slice())
    }

    /// The snake sum with the table for 4×4 boards, over the 4×4 block in the top left
    /// corner, in fortieths.
    pub fn get_tiles_snake_sum_4x4(&self) -> (sum: i128)
        requires
            self.wf(),
            N >= 4,
        ensures
            sum == block_sum(self@.cells, N as nat, 4, snake_weights(4), 16),
    {
        let weights: [i128; 16] = [
            2621440,
            1310720,
            655360,
            327680,
            20480,
            40960,
            81920,
            163840,
            10240,
            5120,
            2560,
            1280,
            80,
            160,
            320,
            640,
        ];
        assert(weights@ =~= snake_weights(4));
        self.block_weighted(4, weights.as_slice())
    }

    /// The snake sum with the table for 5×5 boards, over the 5×5 block in the top left
    /// corner, in fortieths.
    pub fn get_tiles_snake_sum_5x5(&self) -> (sum: i128)
        requires
            self.wf(),
            N >= 5,
        ensures
            sum == block_sum(self@.cells, N as nat, 5, snake_weights(5), 25),
    {
        let weights: [i128; 25] = [
            41943040,
            20971520,
            10485760,
            5242880,
            2621440,
            81920,
            163840,
            327680,
            655360,
            1310720,
            40960,
            20480,
            10240,
            5120,
            2560,
            80,
            160,
            320,
            640,
            1280,
            40,
            20,
            10,
            5,
            1,
        ];
        assert(weights@ =~= snake_weights(5));
        self.block_weighted(5, weights.as_slice())
    }

    /// The snake sum of the board, in fortieths: the sum with the table for its side,
    /// and `0` where the side has no table.
    pub fn get_tiles_snake_sum(&self) -> (sum: i128)
        requires
            self.wf(),
        ensures
            sum == snake_sum(self@.cells, N as nat),
            0 <= sum <= SNAKE_MAX,
    {
        proof {
            lemma_snake_sum_bound(self@.cells, N as nat);
        }
        let mut sum: i128 = 0;
        if N == 4 {
            sum = self.get_tiles_snake_sum_4x4();
        }
        if N == 2 {
            sum = self.get_tiles_snake_sum_2x2();
        }
        if N == 3 {
            sum = self.get_tiles_snake_sum_3x3();
        }
        if N == 5 {
            sum = self.get_tiles_snake_sum_5x5();
        }
        sum
    }

    /// The smoothness of the board: minus the sum, over all pairs of a cell and its
    /// right or lower neighbour, of the distance between the exponents of the two.
    pub fn get_smoothness(&self) -> (value: i128)
        requires
            self.wf(),
        ensures
            value == -roughness(self@.cells, N as nat, (N * N) as nat),
            value <= 0,
    {
        let ghost cells = self@.cells;
        let ghost n = N as nat;
        let ghost ni = N as int;
        let data = self.data();
        let count = data.len();
        let mut rough: i128 = 0;
        let mut k: usize = 0;
        while k < count
            invariant
                self.wf(),
                cells == self@.cells,
                data@ == cells,
                n == N,
                ni == N,
                count == N * N,
                k <= count,
                rough == roughness(cells, n, k as nat),
                0 <= rough <= k * (2 * i32::MAX),
            decreases count - k,
        {
            proof {
                assert(ni > 0) by (nonlinear_arith)
                    requires
                        0 <= ni,
                        0 <= k < ni * ni,
                ;
                lemma_split(ni, k as int, ni);
            }
            let row = k / N;
            let col = k % N;
            let exponent = data[k];
            if col + 1 < N {
                proof {
                    lemma_at_bound(ni, col + 1, row as int, ni);
                }
                let right = data[k + 1];
                rough = rough + (if exponent >= right {
                    exponent as i128 - right as i128
                } else {
                    right as i128 - exponent as i128
                });
            }
            if row + 1 < N {
                proof {
                    lemma_at_bound(ni, col as int, row + 1, ni);
                    assert(ni * (row + 1) == ni * row + ni) by (nonlinear_arith);
                }
                let below = data[k + N];
                rough = rough + (if exponent >= below {
                    exponent as i128 - below as i128
                } else {
                    below as i128 - exponent as i128
                });
            }
            k = k + 1;
        }
        -rough
    }

    /// The merging potential of the board: the sum, over all pairs of a cell and its
    /// right or lower neighbour that hold the same tile, of what the cell shows.
    pub fn get_merging_potential(&self) -> (value: i128)
        requires
            self.wf(),
        ensures
            value == merge_potential(self@.cells, N as nat, (N * N) as nat),
            value >= 0,
    {
        let ghost cells = self@.cells;
        let ghost n = N as nat;
        let ghost ni = N as int;
        let data = self.data();
        let count = data.len();
        let mut merges: i128 = 0;
        let mut k: usize = 0;
        while k < count
            invariant
                self.wf(),
                cells == self@.cells,
                data@ == cells,
                n == N,
                ni == N,
                count == N * N,
                k <= count,
                merges == merge_potential(cells, n, k as nat),
                0 <= merges <= k * (2 * i32::MAX),
            decreases count - k,
        {
            proof {
                assert(ni > 0) by (nonlinear_arith)
                    requires
                        0 <= ni,
                        0 <= k < ni * ni,
                ;
                lemma_split(ni, k as int, ni);
                lemma_shown(cells[k as int]);
            }
            let row = k / N;
            let col = k % N;
            let tile = data[k];
            if tile != 0 {
                let value = self.get_tile(row, col);
                if col + 1 < N {
                    proof {
                        lemma_at_bound(ni, col + 1, row as int, ni);
                    }
                    if tile == data[k + 1] {
                        merges = merges + value as i128;
                    }
                }
                if row + 1 < N {
                    proof {
                        lemma_at_bound(ni, col as int, row + 1, ni);
                        assert(ni * (row + 1) == ni * row + ni) by (nonlinear_arith);
                    }
                    if tile == data[k + N] {
                        merges = merges + value as i128;
                    }
                }
            }
            k = k + 1;
        }
        merges
    }

    /// How monotone the flat order of the board is: minus the sum of the distances
    /// between the exponents of every two cells that follow each other in it.
    pub fn get_monotonicaly(&self) -> (value: i128)
        requires
            self.wf(),
        ensures
            N == 0 ==> value == 0,
            N > 0 ==> value == -unevenness(self@.cells, (N * N - 1) as nat),
            value <= 0,
    {
        let data = self.data();
        let count = data.len();
        if count == 0 {
            proof {
                assert(N == 0) by (nonlinear_arith)
                    requires
                        N * N == 0,
                ;
            }
            return 0;
        }
        proof {
            assert(N > 0) by (nonlinear_arith)
                requires
                    N * N > 0,
            ;
        }
        let mut uneven: i128 = 0;
        let mut i: usize = 0;
        while i < count - 1
            invariant
                count == data@.len(),
                count > 0,
                i <= count - 1,
                forall|k: int| 0 <= k < data@.len() ==> data@[k] >= 0,
                uneven == unevenness(data@, i as nat),
                0 <= uneven <= i * i32::MAX,
            decreases count - i,
        {
            let a = data[i];
            let b = data[i + 1];
            uneven = uneven + (if a >= b {
                a as i128 - b as i128
            } else {
                b as i128 - a as i128
            });
            i = i + 1;
        }
        -uneven
    }
}

} // verus!
