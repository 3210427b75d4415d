//! What a board can be asked: its empty cells, its highest tile, the value that a cell
//! shows, the sum of its exponents.

use crate::game::Game;
use crate::tile::{capped, face, lemma_face_bounds, pow2_capped, shown};
use vstd::prelude::*;

verus! {

/// The flat indices of the empty cells, in rising order.
pub open spec fn empty_cells(cells: Seq<i32>) -> Seq<int>
    decreases cells.len(),
{
    if cells.len() == 0 {
        Seq::empty()
    } else if cells.last() == 0 {
        empty_cells(cells.drop_last()).push(cells.len() - 1)
    } else {
        empty_cells(cells.drop_last())
    }
}

/// The highest exponent on the board; `0` on a board without tiles.
pub open spec fn max_exponent(cells: Seq<i32>) -> int
    decreases cells.len(),
{
    if cells.len() == 0 {
        0
    } else {
        let before = max_exponent(cells.drop_last());
        if cells.last() > before {
            cells.last() as int
        } else {
            before
        }
    }
}

/// The sum of the exponents on the board.
pub open spec fn exponent_sum(cells: Seq<i32>) -> int
    decreases cells.len(),
{
    if cells.len() == 0 {
        0
    } else {
        exponent_sum(cells.drop_last()) + cells.last()
    }
}

/// `empty_cells` lists exactly the indices of the empty cells, each once, in rising order.
pub proof fn lemma_empty_cells(cells: Seq<i32>)
    ensures
        empty_cells(cells).len() <= cells.len(),
        forall|i: int|
            0 <= i < empty_cells(cells).len() ==> 0 <= #[trigger] empty_cells(cells)[i]
                < cells.len() && cells[empty_cells(cells)[i]] == 0,
        forall|i: int, j: int|
            0 <= i < j < empty_cells(cells).len() ==> empty_cells(cells)[i] < empty_cells(
                cells,
            )[j],
        forall|k: int|
            0 <= k < cells.len() && cells[k] == 0 ==> empty_cells(cells).contains(k),
    decreases cells.len(),
{
    if cells.len() > 0 {
        let init = cells.drop_last();
        lemma_empty_cells(init);
        let e = empty_cells(cells);
        assert forall|k: int| 0 <= k < cells.len() && cells[k] == 0 implies e.contains(k) by {
            if k < init.len() {
                assert(init[k] == 0);
                let i = choose|i: int| 0 <= i < empty_cells(init).len() && empty_cells(init)[i] == k;
                assert(e[i] == k);
            } else {
                assert(e[e.len() - 1] == k);
            }
        }
    }
}

/// No exponent is above `max_exponent`, and on a board with a tile one cell holds it.
pub proof fn lemma_max_exponent(cells: Seq<i32>)
    requires
        forall|k: int| 0 <= k < cells.len() ==> cells[k] >= 0,
    ensures
        0 <= max_exponent(cells) <= i32::MAX,
        forall|k: int| 0 <= k < cells.len() ==> cells[k] <= max_exponent(cells),
        max_exponent(cells) > 0 ==> exists|k: int|
            0 <= k < cells.len() && cells[k] == max_exponent(cells),
    decreases cells.len(),
{
    if cells.len() > 0 {
        let init = cells.drop_last();
        lemma_max_exponent(init);
        assert forall|k: int| 0 <= k < cells.len() implies cells[k] <= max_exponent(cells) by {
            if k < init.len() {
                assert(init[k] <= max_exponent(init));
            }
        }
        if max_exponent(cells) > 0 {
            if cells.last() > max_exponent(init) {
                assert(cells[cells.len() - 1] == max_exponent(cells));
            } else {
                let k = choose|k: int| 0 <= k < init.len() && init[k] == max_exponent(init);
                assert(cells[k] == max_exponent(cells));
            }
        }
    }
}

/// The sum of `cells`' exponents is between zero and as many times `i32::MAX` as there
/// are cells.
pub proof fn lemma_exponent_sum(cells: Seq<i32>)
    requires
        forall|k: int| 0 <= k < cells.len() ==> cells[k] >= 0,
    ensures
        0 <= exponent_sum(cells) <= cells.len() * i32::MAX,
    decreases cells.len(),
{
    if cells.len() > 0 {
        lemma_exponent_sum(cells.drop_last());
    }
}

/// The flat indices of the empty cells, in rising order.
pub fn empty_indices(cells: &Vec<i32>) -> (empty: Vec<u32>)
    requires
        cells@.len() <= u32::MAX,
    ensures
        empty@.len() == empty_cells(cells@).len(),
        forall|i: int| 0 <= i < empty@.len() ==> empty@[i] as int == empty_cells(cells@)[i],
        forall|i: int|
            0 <= i < empty@.len() ==> (#[trigger] empty@[i]) < cells@.len() && cells@[empty@[i] as int]
                == 0,
{
    let mut empty: Vec<u32> = Vec::new();
    let mut i: usize = 0;
    while i < cells.len()
        invariant
            i <= cells.len(),
            cells.len() <= u32::MAX,
            empty@.len() == empty_cells(cells@.take(i as int)).len(),
            forall|k: int|
                0 <= k < empty@.len() ==> empty@[k] as int == empty_cells(cells@.take(i as int))[k],
        decreases cells.len() - i,
    {
        proof {
            assert(cells@.take(i + 1).drop_last() == cells@.take(i as int));
        }
        if cells[i] == 0 {
            empty.push(i as u32);
        }
        i = i + 1;
    }
    proof {
        assert(cells@.take(cells.len() as int) == cells@);
        lemma_empty_cells(cells@);
    }
    empty
}

/// Where the highest tile stands and what it shows: the first cell that holds the
/// highest exponent `m`, and `2^m` capped at `i32::MAX`. Without a tile this is cell 0
/// and the value 1.
pub fn highest_tile(cells: &Vec<i32>) -> (found: (usize, i32))
    requires
        forall|k: int| 0 <= k < cells@.len() ==> cells@[k] >= 0,
    ensures
        found.1 == capped(face(max_exponent(cells@) as i32)),
        forall|k: int| 0 <= k < cells@.len() ==> cells@[k] <= max_exponent(cells@),
        max_exponent(cells@) == 0 ==> found.0 == 0,
        max_exponent(cells@) > 0 ==> found.0 < cells@.len() && cells@[found.0 as int]
            == max_exponent(cells@),
        forall|k: int| 0 <= k < found.0 ==> cells@[k] < max_exponent(cells@),
{
    let mut max: i32 = 0;
    let mut index: usize = 0;
    let mut i: usize = 0;
    while i < cells.len()
        invariant
            i <= cells.len(),
            forall|k: int| 0 <= k < cells.len() ==> cells[k] >= 0,
            max == max_exponent(cells@.take(i as int)),
            max >= 0,
            forall|k: int| 0 <= k < i ==> cells[k] <= max,
            max == 0 ==> index == 0,
            max > 0 ==> index < i && cells[index as int] == max,
            forall|k: int| 0 <= k < index ==> cells[k] < max,
        decreases cells.len() - i,
    {
        proof {
            assert(cells@.take(i + 1).drop_last() == cells@.take(i as int));
        }
        if cells[i] > max {
            max = cells[i];
            index = i;
        }
        i = i + 1;
    }
    proof {
        assert(cells@.take(cells.len() as int) == cells@);
    }
    (index, pow2_capped(max))
}

/// The sum of the exponents.
pub fn sum_of_exponents(cells: &Vec<i32>) -> (sum: i64)
    requires
        cells@.len() <= u32::MAX,
        forall|k: int| 0 <= k < cells@.len() ==> cells@[k] >= 0,
    ensures
        sum == exponent_sum(cells@),
{
    let mut sum: i64 = 0;
    let mut i: usize = 0;
    while i < cells.len()
        invariant
            i <= cells.len(),
            cells.len() <= u32::MAX,
            forall|k: int| 0 <= k < cells.len() ==> cells[k] >= 0,
            sum == exponent_sum(cells@.take(i as int)),
            0 <= sum <= i * i32::MAX,
        decreases cells.len() - i,
    {
        proof {
            assert(cells@.take(i + 1).drop_last() == cells@.take(i as int));
        }
        sum = sum + cells[i] as i64;
        i = i + 1;
    }
    proof {
        assert(cells@.take(cells.len() as int) == cells@);
    }
    sum
}

impl<const N: usize> Game<N> {
    /// The flat indices of the empty cells, in rising order.
    pub fn get_empty_tiles(&self) -> (empty: Vec<u32>)
        requires
            self.wf(),
        ensures
            empty@.len() == empty_cells(self@.cells).len(),
            forall|i: int| 0 <= i < empty@.len() ==> empty@[i] as int == empty_cells(self@.cells)[i],
            forall|i: int|
                0 <= i < empty@.len() ==> (#[trigger] empty@[i]) < N * N && self@.cells[empty@[i] as int]
                    == 0,
    {
        empty_indices(self.data())
    }

    /// Where the highest tile stands and what it shows: the first cell that holds the
    /// highest exponent `m`, and `2^m` capped at `i32::MAX`. On a board without tiles
    /// this is cell 0 and the value 1.
    pub fn get_max_tile(&self) -> (found: (usize, i32))
        requires
            self.wf(),
        ensures
            found.1 == capped(face(max_exponent(self@.cells) as i32)),
            forall|k: int| 0 <= k < self@.cells.len() ==> self@.cells[k] <= max_exponent(self@.cells),
            max_exponent(self@.cells) == 0 ==> found.0 == 0,
            max_exponent(self@.cells) > 0 ==> found.0 < self@.cells.len() && self@.cells[found.0 as int]
                == max_exponent(self@.cells),
            forall|k: int| 0 <= k < found.0 ==> self@.cells[k] < max_exponent(self@.cells),
    {
        highest_tile(self.data())
    }

    /// The sum of the exponents on the board.
    pub fn get_tiles_sum(&self) -> (sum: i64)
        requires
            self.wf(),
        ensures
            sum == exponent_sum(self@.cells),
    {
        sum_of_exponents(self.data())
    }

    /// What the cell in row `row`, column `col` shows: `0` for an empty cell, else
    /// `2^e` capped at `i32::MAX`.
    pub fn get_tile(&self, row: usize, col: usize) -> (value: i32)
        requires
            self.wf(),
            N * row + col < N * N,
        ensures
            value == shown(self@.cells[N * row + col]),
            0 <= value,
    {
        proof {
            assert(N * row >= 0) by (nonlinear_arith)
                requires
                    N >= 0,
                    row >= 0,
            ;
        }
        let e = self.data()[N * row + col];
        if e == 0 {
            return 0;
        }
        proof {
            lemma_face_bounds(e);
        }
        pow2_capped(e)
    }

    /// The first 24 cells laid out in rows of four, the rest of the 6×4 table left at 0.
    pub fn get_state(&mut self) -> (state: [[i32; 4]; 6])
        requires
            old(self).wf(),
            N * N <= 24,
        ensures
            final(self)@ == old(self)@,
            forall|a: int, b: int|
                0 <= a < 6 && 0 <= b < 4 ==> #[trigger] state[a][b] == (if 4 * a + b < N * N {
                    old(self)@.cells[4 * a + b]
                } else {
                    0
                }),
    {
        let cells = self.data();
        let mut state: [[i32; 4]; 6] = [[0; 4]; 6];
        let mut i: usize = 0;
        while i < cells.len()
            invariant
                i <= cells.len() <= 24,
                forall|a: int, b: int|
                    0 <= a < 6 && 0 <= b < 4 ==> #[trigger] state[a][b] == (if 4 * a + b < i {
                        cells[4 * a + b]
                    } else {
                        0
                    }),
            decreases cells.len() - i,
        {
            state[i / 4][i % 4] = cells[i];
            i = i + 1;
        }
        state
    }
}

} // verus!
