//! Sliding all the lines of a grid at once. A grid of `rows` lines of `n` cells is
//! stored line by line: the cell at offset `c` of line `r` has flat index `n * r + c`.

use crate::algorithm::{
    lemma_at, lemma_at_bound, lemma_moved_leaves_gap, lemma_slide_shape, lemma_split,
    lemma_unmoved_gains_nothing, line_forms, line_gain,
    slide_left_line, slide_right_line, slide_to_end, slide_to_start, valid_line,
};
use crate::tile::{add_capped, capped};
use vstd::prelude::*;
use vstd::slice::slice_subrange;

verus! {

/// Line `r` of a grid of lines of `n` cells.
pub open spec fn grid_row(cells: Seq<i32>, n: nat, r: int) -> Seq<i32> {
    cells.subrange(n * r, n * r + n)
}

/// One line after a slide toward its end (`to_end`) or toward its start.
pub open spec fn slid(line: Seq<i32>, to_end: bool) -> Seq<i32> {
    if to_end {
        slide_right_line(line)
    } else {
        slide_left_line(line)
    }
}

/// The exact gain of the slide of one line.
pub open spec fn slide_gain(line: Seq<i32>, to_end: bool) -> int {
    if to_end {
        line_gain(line)
    } else {
        line_gain(line.reverse())
    }
}

/// Whether the slide of one line forms a tile of exponent `target`.
pub open spec fn slide_forms(line: Seq<i32>, to_end: bool, target: i32) -> bool {
    if to_end {
        line_forms(line, target)
    } else {
        line_forms(line.reverse(), target)
    }
}

/// The grid with every line slid.
pub open spec fn rows_slid(cells: Seq<i32>, n: nat, to_end: bool) -> Seq<i32> {
    Seq::new(cells.len(), |k: int| slid(grid_row(cells, n, k / n as int), to_end)[k % n as int])
}

/// The exact gain of sliding the first `upto` lines.
pub open spec fn rows_gain(cells: Seq<i32>, n: nat, to_end: bool, upto: nat) -> int
    decreases upto,
{
    if upto == 0 {
        0
    } else {
        rows_gain(cells, n, to_end, (upto - 1) as nat) + slide_gain(
            grid_row(cells, n, upto - 1),
            to_end,
        )
    }
}

/// Whether the slide of one of the first `upto` lines forms a tile of exponent `target`.
pub open spec fn rows_form(cells: Seq<i32>, n: nat, to_end: bool, target: i32, upto: nat) -> bool {
    exists|r: int| 0 <= r < upto && #[trigger] slide_forms(grid_row(cells, n, r), to_end, target)
}

/// Whether the slide changes one of the first `upto` lines.
pub open spec fn rows_move(cells: Seq<i32>, n: nat, to_end: bool, upto: nat) -> bool {
    exists|r: int|
        0 <= r < upto && #[trigger] slid(grid_row(cells, n, r), to_end) != grid_row(cells, n, r)
}

/// The cells of one line are the cells of the grid at that line's flat indices.
pub proof fn lemma_grid_row(cells: Seq<i32>, n: nat, rows: nat, r: int)
    requires
        cells.len() == n * rows,
        0 <= r < rows,
    ensures
        0 <= n * r,
        n * r + n <= cells.len(),
        grid_row(cells, n, r).len() == n,
        forall|c: int| 0 <= c < n ==> #[trigger] grid_row(cells, n, r)[c] == cells[n * r + c],
        valid_line(cells) ==> valid_line(grid_row(cells, n, r)),
{
    if n > 0 {
        lemma_at_bound(n as int, 0, r, rows as int);
    } else {
        assert(n * r == 0 && n * rows == 0) by (nonlinear_arith)
            requires
                n == 0,
        ;
    }
}

/// A flat index of a grid splits into a line and an offset within it.
pub proof fn lemma_grid_cell(n: nat, rows: nat, k: int)
    requires
        0 <= k < n * rows,
    ensures
        n > 0,
        0 <= k / (n as int) < rows,
        0 <= k % (n as int) < n,
        k == n * (k / (n as int)) + k % (n as int),
{
    assert(n > 0) by (nonlinear_arith)
        requires
            0 <= k < n * rows,
    ;
    lemma_split(n as int, k, rows as int);
}

/// A slide of the lines keeps the size of a grid and keeps valid cells valid.
pub proof fn lemma_rows_slid_valid(cells: Seq<i32>, n: nat, rows: nat, to_end: bool)
    requires
        cells.len() == n * rows,
        valid_line(cells),
    ensures
        rows_slid(cells, n, to_end).len() == cells.len(),
        valid_line(rows_slid(cells, n, to_end)),
{
    let out = rows_slid(cells, n, to_end);
    assert forall|k: int| 0 <= k < out.len() implies out[k] >= 0 by {
        lemma_grid_cell(n, rows, k);
        lemma_grid_row(cells, n, rows, k / n as int);
        lemma_slide_shape(grid_row(cells, n, k / n as int));
    }
}

/// The slide of the lines changes the grid exactly if it changes one of the lines.
pub proof fn lemma_rows_move(cells: Seq<i32>, n: nat, rows: nat, to_end: bool)
    requires
        cells.len() == n * rows,
        valid_line(cells),
    ensures
        rows_move(cells, n, to_end, rows) == (rows_slid(cells, n, to_end) != cells),
{
    let out = rows_slid(cells, n, to_end);
    if rows_move(cells, n, to_end, rows) {
        let r = choose|r: int|
            0 <= r < rows && #[trigger] slid(grid_row(cells, n, r), to_end) != grid_row(
                cells,
                n,
                r,
            );
        let old_row = grid_row(cells, n, r);
        let new_row = slid(old_row, to_end);
        lemma_grid_row(cells, n, rows, r);
        lemma_slide_shape(old_row);
        assert(new_row.len() == old_row.len());
        if out == cells {
            assert forall|c: int| 0 <= c < n implies new_row[c] == old_row[c] by {
                lemma_at(n as int, c, r);
                assert(out[n * r + c] == new_row[c]);
            }
            assert(new_row =~= old_row);
        }
    } else {
        assert forall|k: int| 0 <= k < cells.len() implies out[k] == cells[k] by {
            lemma_grid_cell(n, rows, k);
            let r = k / n as int;
            lemma_grid_row(cells, n, rows, r);
            assert(slid(grid_row(cells, n, r), to_end) == grid_row(cells, n, r));
        }
        assert(out =~= cells);
    }
}

/// The lines that form a tile among the first `upto + 1` are those among the first
/// `upto` and line `upto`; likewise for the lines that move.
pub proof fn lemma_rows_step(cells: Seq<i32>, n: nat, to_end: bool, target: i32, upto: nat)
    ensures
        rows_form(cells, n, to_end, target, upto + 1) == (rows_form(cells, n, to_end, target, upto)
            || slide_forms(grid_row(cells, n, upto as int), to_end, target)),
        rows_move(cells, n, to_end, upto + 1) == (rows_move(cells, n, to_end, upto) || slid(
            grid_row(cells, n, upto as int),
            to_end,
        ) != grid_row(cells, n, upto as int)),
{
    if rows_form(cells, n, to_end, target, upto + 1) {
        let r = choose|r: int|
            0 <= r < upto + 1 && #[trigger] slide_forms(grid_row(cells, n, r), to_end, target);
        if r < upto {
            assert(rows_form(cells, n, to_end, target, upto));
        }
    }
    if rows_move(cells, n, to_end, upto + 1) {
        let r = choose|r: int|
            0 <= r < upto + 1 && #[trigger] slid(grid_row(cells, n, r), to_end) != grid_row(
                cells,
                n,
                r,
            );
        if r < upto {
            assert(rows_move(cells, n, to_end, upto));
        }
    }
}

/// The exact gain of sliding lines is not negative.
pub proof fn lemma_rows_gain(cells: Seq<i32>, n: nat, rows: nat, to_end: bool, upto: nat)
    requires
        cells.len() == n * rows,
        valid_line(cells),
        upto <= rows,
    ensures
        rows_gain(cells, n, to_end, upto) >= 0,
    decreases upto,
{
    if upto > 0 {
        lemma_rows_gain(cells, n, rows, to_end, (upto - 1) as nat);
        lemma_grid_row(cells, n, rows, upto - 1);
        lemma_slide_shape(grid_row(cells, n, upto - 1));
    }
}

/// A line that a slide leaves as it is had nothing to merge: the slide gains nothing
/// and forms no tile.
pub proof fn lemma_line_unmoved(line: Seq<i32>, to_end: bool)
    requires
        valid_line(line),
        slid(line, to_end) == line,
    ensures
        slide_gain(line, to_end) == 0,
        forall|x: i32| !slide_forms(line, to_end, x),
{
    if to_end {
        lemma_unmoved_gains_nothing(line);
    } else {
        lemma_slide_shape(line);
        let turned = line.reverse();
        assert(slide_right_line(turned).reverse().reverse() == slide_right_line(turned));
        lemma_unmoved_gains_nothing(turned);
    }
}

/// A slide that changes a valid line leaves one of its cells empty.
pub proof fn lemma_line_moved(line: Seq<i32>, to_end: bool)
    requires
        valid_line(line),
        slid(line, to_end) != line,
    ensures
        exists|c: int| 0 <= c < line.len() && slid(line, to_end)[c] == 0,
{
    lemma_slide_shape(line);
    if to_end {
        lemma_moved_leaves_gap(line);
        assert(slid(line, to_end)[0] == 0);
    } else {
        let turned = line.reverse();
        if slide_right_line(turned) == turned {
            assert(turned.reverse() == line);
        }
        lemma_moved_leaves_gap(turned);
        assert(slid(line, to_end)[line.len() - 1] == 0);
    }
}

/// Lines that a slide leaves as they are gain nothing and form no tile.
pub proof fn lemma_rows_unmoved(cells: Seq<i32>, n: nat, rows: nat, to_end: bool, upto: nat)
    requires
        cells.len() == n * rows,
        valid_line(cells),
        rows_slid(cells, n, to_end) == cells,
        upto <= rows,
    ensures
        rows_gain(cells, n, to_end, upto) == 0,
        forall|x: i32| !rows_form(cells, n, to_end, x, upto),
    decreases upto,
{
    lemma_rows_move(cells, n, rows, to_end);
    if upto > 0 {
        lemma_rows_unmoved(cells, n, rows, to_end, (upto - 1) as nat);
    }
    assert forall|r: int| 0 <= r < upto implies slide_gain(grid_row(cells, n, r), to_end) == 0
        && forall|x: i32| !slide_forms(grid_row(cells, n, r), to_end, x) by {
        lemma_grid_row(cells, n, rows, r);
        assert(slid(grid_row(cells, n, r), to_end) == grid_row(cells, n, r));
        lemma_line_unmoved(grid_row(cells, n, r), to_end);
    }
}

/// A slide of the lines that changes a valid grid leaves one of its cells empty.
pub proof fn lemma_rows_moved(cells: Seq<i32>, n: nat, rows: nat, to_end: bool)
    requires
        cells.len() == n * rows,
        valid_line(cells),
        rows_slid(cells, n, to_end) != cells,
    ensures
        exists|k: int| 0 <= k < cells.len() && rows_slid(cells, n, to_end)[k] == 0,
{
    lemma_rows_move(cells, n, rows, to_end);
    let r = choose|r: int|
        0 <= r < rows && #[trigger] slid(grid_row(cells, n, r), to_end) != grid_row(cells, n, r);
    let line = grid_row(cells, n, r);
    lemma_grid_row(cells, n, rows, r);
    lemma_line_moved(line, to_end);
    let c = choose|c: int| 0 <= c < line.len() && slid(line, to_end)[c] == 0;
    lemma_at(n as int, c, r);
    assert(rows_slid(cells, n, to_end)[n * r + c] == 0);
}

/// What sliding all the lines of a grid gives, besides the new grid.
pub struct GridMove {
    /// Whether the grid changed.
    pub moved: bool,
    /// The gain of all the slides, capped at `i32::MAX`.
    pub gain: i32,
    /// Whether a merge formed a tile of the exponent that was asked about.
    pub formed: bool,
}

/// Slides each of the `rows` lines of `n` cells in `data` toward its end or its start,
/// in place.
pub fn slide_lines(data: &mut Vec<i32>, n: usize, rows: usize, to_end: bool, target: i32) -> (m:
    GridMove)
    requires
        old(data)@.len() == n * rows,
        valid_line(old(data)@),
    ensures
        final(data)@ == rows_slid(old(data)@, n as nat, to_end),
        valid_line(final(data)@),
        final(data)@.len() == old(data)@.len(),
        m.moved == (final(data)@ != old(data)@),
        m.gain == capped(rows_gain(old(data)@, n as nat, to_end, rows as nat)),
        m.gain >= 0,
        rows_gain(old(data)@, n as nat, to_end, rows as nat) >= 0,
        m.formed == rows_form(old(data)@, n as nat, to_end, target, rows as nat),
{
    let ghost before = data@;
    let ghost wide = n as nat;
    let ghost ni = n as int;
    let ghost high = rows as nat;
    let ghost after = rows_slid(before, wide, to_end);
    let total = data.len();
    let mut mutated = false;
    let mut gain: i32 = 0;
    let mut won = false;
    let mut r: usize = 0;
    while r < rows
        invariant
            wide == n,
            ni == n,
            high == rows,
            r <= rows,
            before.len() == n * rows,
            before.len() == total,
            valid_line(before),
            after == rows_slid(before, wide, to_end),
            data@.len() == before.len(),
            forall|k: int|
                0 <= k < before.len() ==> data@[k] == (if k / ni < r {
                    after[k]
                } else {
                    before[k]
                }),
            rows_gain(before, wide, to_end, r as nat) >= 0,
            gain == capped(rows_gain(before, wide, to_end, r as nat)),
            won == rows_form(before, wide, to_end, target, r as nat),
            mutated == rows_move(before, wide, to_end, r as nat),
        decreases rows - r,
    {
        let ghost line_before = grid_row(before, wide, r as int);
        proof {
            lemma_grid_row(before, wide, high, r as int);
            lemma_slide_shape(line_before);
            lemma_rows_step(before, wide, to_end, target, r as nat);
            assert(n * r + n <= n * rows);
        }
        let start = n * r;
        let m = {
            let line = slice_subrange(data.as_slice(), start, start + n);
            proof {
                assert forall|c: int| 0 <= c < n implies line@[c] == line_before[c] by {
                    lemma_at(ni, c, r as int);
                }
                assert(line@ =~= line_before);
            }
            if to_end {
                slide_to_end(line, target)
            } else {
                slide_to_start(line, target)
            }
        };
        gain = add_capped(gain, m.gain);
        if m.formed {
            won = true;
        }
        if m.moved {
            mutated = true;
        }
        let mut c: usize = 0;
        while c < n
            invariant
                wide == n,
                ni == n,
                high == rows,
                r < rows,
                c <= n,
                start == n * r,
                n * r + n <= n * rows,
                before.len() == n * rows,
                before.len() == total,
                after == rows_slid(before, wide, to_end),
                data@.len() == before.len(),
                m.line@ == slid(grid_row(before, wide, r as int), to_end),
                m.line@.len() == n,
                forall|k: int|
                    0 <= k < before.len() ==> data@[k] == (if k / ni < r || (k / ni == r && k % ni
                        < c) {
                        after[k]
                    } else {
                        before[k]
                    }),
            decreases n - c,
        {
            data.set(start + c, m.line[c]);
            proof {
                lemma_at(ni, c as int, r as int);
                assert forall|k: int| 0 <= k < before.len() implies data@[k] == (if k / ni < r
                    || (k / ni == r && k % ni < c + 1) {
                    after[k]
                } else {
                    before[k]
                }) by {
                    lemma_grid_cell(wide, high, k);
                }
            }
            c = c + 1;
        }
        proof {
            assert forall|k: int| 0 <= k < before.len() implies data@[k] == (if k / ni < r + 1 {
                after[k]
            } else {
                before[k]
            }) by {
                lemma_grid_cell(wide, high, k);
            }
        }
        r = r + 1;
    }
    proof {
        assert forall|k: int| 0 <= k < before.len() implies data@[k] == after[k] by {
            lemma_grid_cell(wide, high, k);
        }
        assert(data@ =~= after);
        lemma_rows_move(before, wide, high, to_end);
        lemma_rows_slid_valid(before, wide, high, to_end);
    }
    GridMove { moved: mutated, gain, formed: won }
}

} // verus!
