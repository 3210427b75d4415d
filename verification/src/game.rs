//! The board: an `N`×`N` grid of cells with a score and a status, the four moves, and
//! the queries that the player and the search need.
//!
//! The grid is stored row by row: the cell in row `r`, column `c` has flat index
//! `N * r + c`. `Left` and `Right` slide every row; `Up` and `Down` slide every column,
//! which is done by transposing, sliding the rows and transposing back.

use crate::algorithm::{
    lemma_at, lemma_at_bound, lemma_split, lemma_transpose_twice, mirror_index, transpose,
    transposed, valid_line,
};
use crate::lines::{
    lemma_rows_gain, lemma_rows_moved, lemma_rows_slid_valid, lemma_rows_unmoved, rows_form,
    rows_gain, rows_slid, slide_lines,
};
use crate::random::shuffle_cells;
use crate::tile::{add_capped, capped, WIN_EXPONENT};
use vstd::prelude::*;

verus! {

/// A move of the player.
#[derive(Clone, Copy, Debug, PartialEq, Eq, Structural)]
pub enum Direction {
    Up,
    Down,
    Left,
    Right,
}

/// Where a game stands.
#[derive(Clone, Copy, Debug, PartialEq, Eq, Hash, Structural)]
pub enum GameStatus {
    Ongoing,
    Won,
    Lost,
    Interrupted,
}

/// The four moves, in the order in which the search tries them.
pub open spec fn direction_at(i: int) -> Direction {
    if i == 0 {
        Direction::Up
    } else if i == 1 {
        Direction::Down
    } else if i == 2 {
        Direction::Left
    } else {
        Direction::Right
    }
}

/// The four moves, in the order in which the search tries them.
pub fn directions() -> (all: [Direction; 4])
    ensures
        forall|i: int| 0 <= i < 4 ==> all[i] == direction_at(i),
{
    [Direction::Up, Direction::Down, Direction::Left, Direction::Right]
}

/// The grid after a move.
pub open spec fn shifted(cells: Seq<i32>, n: nat, d: Direction) -> Seq<i32> {
    match d {
        Direction::Right => rows_slid(cells, n, true),
        Direction::Left => rows_slid(cells, n, false),
        Direction::Down => transposed(rows_slid(transposed(cells, n), n, true), n),
        Direction::Up => transposed(rows_slid(transposed(cells, n), n, false), n),
    }
}

/// The exact gain of a move: the value of every tile that a merge forms.
pub open spec fn shift_gain(cells: Seq<i32>, n: nat, d: Direction) -> int {
    match d {
        Direction::Right => rows_gain(cells, n, true, n),
        Direction::Left => rows_gain(cells, n, false, n),
        Direction::Down => rows_gain(transposed(cells, n), n, true, n),
        Direction::Up => rows_gain(transposed(cells, n), n, false, n),
    }
}

/// Whether a merge of the move forms the winning tile.
pub open spec fn shift_wins(cells: Seq<i32>, n: nat, d: Direction) -> bool {
    match d {
        Direction::Right => rows_form(cells, n, true, WIN_EXPONENT, n),
        Direction::Left => rows_form(cells, n, false, WIN_EXPONENT, n),
        Direction::Down => rows_form(transposed(cells, n), n, true, WIN_EXPONENT, n),
        Direction::Up => rows_form(transposed(cells, n), n, false, WIN_EXPONENT, n),
    }
}

/// No move changes the grid.
pub open spec fn stuck(cells: Seq<i32>, n: nat) -> bool {
    &&& shifted(cells, n, Direction::Right) == cells
    &&& shifted(cells, n, Direction::Left) == cells
    &&& shifted(cells, n, Direction::Up) == cells
    &&& shifted(cells, n, Direction::Down) == cells
}

/// A grid of `n`×`n` valid cells.
pub open spec fn valid_grid(cells: Seq<i32>, n: nat) -> bool {
    &&& cells.len() == n * n
    &&& valid_line(cells)
}

/// The cells that a new game starts from, before they are shuffled: two tiles of
/// exponent 1 and empty cells.
pub open spec fn start_cells(count: nat) -> Seq<i32> {
    Seq::new(
        count,
        |i: int|
            if i < 2 {
                1i32
            } else {
                0i32
            },
    )
}

/// Cells that are some arrangement of valid cells are valid, and as many.
pub proof fn lemma_rearranged_valid(cells: Seq<i32>, from: Seq<i32>)
    requires
        cells.to_multiset() == from.to_multiset(),
        valid_line(from),
    ensures
        cells.len() == from.len(),
        valid_line(cells),
{
    cells.to_multiset_ensures();
    from.to_multiset_ensures();
    assert forall|k: int| 0 <= k < cells.len() implies cells[k] >= 0 by {
        assert(cells.contains(cells[k]));
        assert(from.to_multiset().count(cells[k]) > 0);
        assert(from.contains(cells[k]));
    }
}

/// What a game is, as plain values.
pub struct GameView {
    /// The cells, row by row.
    pub cells: Seq<i32>,
    /// The gains of all moves so far, capped at `i32::MAX`.
    pub score: int,
    pub status: GameStatus,
    /// Whether the winning tile has been formed once.
    pub already_won: bool,
}

impl GameView {
    /// The game after the move `d` on a board of side `n`: the grid is shifted, the gain
    /// is added to the score, and the first merge that forms the winning tile sets the
    /// status to `Won`.
    pub open spec fn moved(self, n: nat, d: Direction) -> GameView {
        let wins = shift_wins(self.cells, n, d);
        GameView {
            cells: shifted(self.cells, n, d),
            score: capped(self.score + shift_gain(self.cells, n, d)),
            status: if wins && !self.already_won {
                GameStatus::Won
            } else {
                self.status
            },
            already_won: self.already_won || wins,
        }
    }
}

/// Transposing keeps a valid grid valid.
pub proof fn lemma_transposed_valid(cells: Seq<i32>, n: nat)
    requires
        valid_grid(cells, n),
    ensures
        valid_grid(transposed(cells, n), n),
{
    let out = transposed(cells, n);
    assert forall|k: int| 0 <= k < out.len() implies out[k] >= 0 by {
        assert(n > 0) by (nonlinear_arith)
            requires
                0 <= k < n * n,
        ;
        lemma_split(n as int, k, n as int);
        lemma_at_bound(n as int, k / n as int, k % n as int, n as int);
    }
}

/// A move keeps a valid grid valid.
pub proof fn lemma_shifted_valid(cells: Seq<i32>, n: nat, d: Direction)
    requires
        valid_grid(cells, n),
    ensures
        valid_grid(shifted(cells, n, d), n),
{
    match d {
        Direction::Right => lemma_rows_slid_valid(cells, n, n, true),
        Direction::Left => lemma_rows_slid_valid(cells, n, n, false),
        Direction::Down => {
            lemma_transposed_valid(cells, n);
            lemma_rows_slid_valid(transposed(cells, n), n, n, true);
            lemma_transposed_valid(rows_slid(transposed(cells, n), n, true), n);
        },
        Direction::Up => {
            lemma_transposed_valid(cells, n);
            lemma_rows_slid_valid(transposed(cells, n), n, n, false);
            lemma_transposed_valid(rows_slid(transposed(cells, n), n, false), n);
        },
    }
}

/// The board of side `N` with its score and status.
pub struct Game<const N: usize> {
    status: GameStatus,
    already_won: bool,
    score: i32,
    data: Vec<i32>,
}

impl<const N: usize> View for Game<N> {
    type V = GameView;

    closed spec fn view(&self) -> GameView {
        GameView {
            cells: self.data@,
            score: self.score as int,
            status: self.status,
            already_won: self.already_won,
        }
    }
}

impl<const N: usize> Clone for Game<N> {
    fn clone(&self) -> (copy: Self)
        ensures
            copy@ == self@,
    {
        let data = self.data.clone();
        assert(data@ =~= self.data@);
        Game { status: self.status, already_won: self.already_won, score: self.score, data }
    }
}

impl<const N: usize> Game<N> {
    /// The cells form an `N`×`N` grid of valid cells whose flat indices fit a `u32`, and
    /// the score is a capped sum of gains.
    pub open spec fn wf(&self) -> bool {
        &&& valid_grid(self@.cells, N as nat)
        &&& N * N <= u32::MAX
        &&& 0 <= self@.score <= i32::MAX
    }

    /// A new game: two tiles of exponent 1 on cells drawn at random, no score.
    pub fn new() -> (game: Self)
        requires
            2 <= N * N <= u32::MAX,
        ensures
            game.wf(),
            game@.cells.to_multiset() == start_cells((N * N) as nat).to_multiset(),
            game@.score == 0,
            game@.status == GameStatus::Ongoing,
            !game@.already_won,
    {
        let mut data = vec![0i32; N * N];
        data.set(0, 1);
        data.set(1, 1);
        assert(data@ =~= start_cells((N * N) as nat));
        shuffle_cells(&mut data);
        proof {
            lemma_rearranged_valid(data@, start_cells((N * N) as nat));
        }
        Game { status: GameStatus::Ongoing, already_won: false, score: 0, data }
    }

    /// A new game on the given cells, row by row, with no score; `None` unless the
    /// cells form an `N`×`N` grid of valid cells.
    pub fn from_cells(cells: Vec<i32>) -> (made: Option<Self>)
        ensures
            made is Some <==> valid_grid(cells@, N as nat) && N * N <= u32::MAX,
            made matches Some(game) ==> game.wf() && game@ == (GameView {
                cells: cells@,
                score: 0,
                status: GameStatus::Ongoing,
                already_won: false,
            }),
    {
        if N > 0xffff {
            proof {
                assert(N * N > u32::MAX) by (nonlinear_arith)
                    requires
                        N >= 0x10000,
                ;
            }
            return None;
        }
        proof {
            assert(N * N <= u32::MAX) by (nonlinear_arith)
                requires
                    N <= 0xffff,
            ;
        }
        if cells.len() != N * N {
            return None;
        }
        let mut i: usize = 0;
        while i < cells.len()
            invariant
                i <= cells.len(),
                forall|k: int| 0 <= k < i ==> cells[k] >= 0,
            decreases cells.len() - i,
        {
            if cells[i] < 0 {
                return None;
            }
            i = i + 1;
        }
        Some(Game { status: GameStatus::Ongoing, already_won: false, score: 0, data: cells })
    }

    /// The cells, row by row.
    pub fn data(&self) -> (cells: &Vec<i32>)
        ensures
            cells@ == self@.cells,
    {
        &self.data
    }

    /// The gains of all moves so far, capped at `i32::MAX`.
    pub fn score(&self) -> (score: i32)
        ensures
            score == self@.score,
    {
        self.score
    }

    pub fn status(&self) -> (status: &GameStatus)
        ensures
            *status == self@.status,
    {
        &self.status
    }

    /// Marks the game as interrupted from outside.
    pub fn interrupt(&mut self)
        ensures
            final(self)@ == (GameView { status: GameStatus::Interrupted, ..old(self)@ }),
    {
        self.status = GameStatus::Interrupted;
    }

    /// Marks the game as going on.
    pub fn go_on(&mut self)
        ensures
            final(self)@ == (GameView { status: GameStatus::Ongoing, ..old(self)@ }),
    {
        self.status = GameStatus::Ongoing;
    }

    /// Slides every row toward its end or its start, and books the gain and a win.
    fn slide_rows(&mut self, to_end: bool) -> (mutated: bool)
        requires
            old(self).wf(),
        ensures
            final(self).wf(),
            final(self)@.cells == rows_slid(old(self)@.cells, N as nat, to_end),
            final(self)@.score == capped(
                old(self)@.score + rows_gain(old(self)@.cells, N as nat, to_end, N as nat),
            ),
            final(self)@.already_won == (old(self)@.already_won || rows_form(
                old(self)@.cells,
                N as nat,
                to_end,
                WIN_EXPONENT,
                N as nat,
            )),
            final(self)@.status == (if rows_form(
                old(self)@.cells,
                N as nat,
                to_end,
                WIN_EXPONENT,
                N as nat,
            ) && !old(self)@.already_won {
                GameStatus::Won
            } else {
                old(self)@.status
            }),
            mutated == (final(self)@.cells != old(self)@.cells),
    {
        let m = slide_lines(&mut self.data, N, N, to_end, WIN_EXPONENT);
        self.score = add_capped(self.score, m.gain);
        if m.formed && !self.already_won {
            self.status = GameStatus::Won;
            self.already_won = true;
        }
        m.moved
    }

    /// Slides every column toward its end (down) or its start (up): transpose, slide
    /// the rows, transpose back.
    fn slide_columns(&mut self, to_end: bool) -> (mutated: bool)
        requires
            old(self).wf(),
        ensures
            final(self).wf(),
            final(self)@ == old(self)@.moved(
                N as nat,
                if to_end {
                    Direction::Down
                } else {
                    Direction::Up
                },
            ),
            mutated == (final(self)@.cells != old(self)@.cells),
    {
        let ghost before = self.data@;
        let ghost n = N as nat;
        proof {
            lemma_transposed_valid(before, n);
        }
        transpose::<N>(self.data.as_mut_slice());
        let ghost turned = self.data@;
        let mutated = self.slide_rows(to_end);
        let ghost turned_slid = self.data@;
        proof {
            lemma_rows_slid_valid(turned, n, n, to_end);
            lemma_transposed_valid(turned_slid, n);
        }
        transpose::<N>(self.data.as_mut_slice());
        proof {
            lemma_transpose_twice(before, n);
            lemma_transpose_twice(turned_slid, n);
        }
        mutated
    }

    /// Slides every row toward its end. Returns whether the grid changed.
    pub fn right(&mut self) -> (moved: bool)
        requires
            old(self).wf(),
        ensures
            final(self).wf(),
            final(self)@ == old(self)@.moved(N as nat, Direction::Right),
            moved == (final(self)@.cells != old(self)@.cells),
    {
        self.slide_rows(true)
    }

    /// Slides every row toward its start. Returns whether the grid changed.
    pub fn left(&mut self) -> (moved: bool)
        requires
            old(self).wf(),
        ensures
            final(self).wf(),
            final(self)@ == old(self)@.moved(N as nat, Direction::Left),
            moved == (final(self)@.cells != old(self)@.cells),
    {
        self.slide_rows(false)
    }

    /// Slides every column toward its start. Returns whether the grid changed.
    pub fn up(&mut self) -> (moved: bool)
        requires
            old(self).wf(),
        ensures
            final(self).wf(),
            final(self)@ == old(self)@.moved(N as nat, Direction::Up),
            moved == (final(self)@.cells != old(self)@.cells),
    {
        self.slide_columns(false)
    }

    /// Slides every column toward its end. Returns whether the grid changed.
    pub fn down(&mut self) -> (moved: bool)
        requires
            old(self).wf(),
        ensures
            final(self).wf(),
            final(self)@ == old(self)@.moved(N as nat, Direction::Down),
            moved == (final(self)@.cells != old(self)@.cells),
    {
        self.slide_columns(true)
    }

    /// Makes the move: shifts the grid, adds the gain to the score, and sets the status
    /// to `Won` at the first merge that forms the winning tile. Returns whether the grid
    /// changed; the score never goes down.
    pub fn movement(&mut self, direction: &Direction) -> (moved: bool)
        requires
            old(self).wf(),
        ensures
            final(self).wf(),
            final(self)@ == old(self)@.moved(N as nat, *direction),
            moved == (final(self)@.cells != old(self)@.cells),
            final(self)@.score >= old(self)@.score,
    {
        proof {
            lemma_score_grows(self@, N as nat, *direction);
        }
        match direction {
            Direction::Up => self.up(),
            Direction::Left => self.left(),
            Direction::Right => self.right(),
            Direction::Down => self.down(),
        }
    }

    /// Whether the game is lost: no move changes the grid. The game itself is left as
    /// it is; the four moves are tried on a copy.
    pub fn check_if_lost(&self) -> (lost: bool)
        requires
            self.wf(),
        ensures
            lost == stuck(self@.cells, N as nat),
    {
        let mut copy = self.clone();
        if copy.right() {
            return false;
        }
        if copy.left() {
            return false;
        }
        if copy.up() {
            return false;
        }
        if copy.down() {
            return false;
        }
        true
    }

    /// Books a lost game: where the game is going on and no move changes the grid, the
    /// status becomes `Lost`. A game that was won, lost or interrupted keeps its status.
    /// Returns whether no move changes the grid.
    pub fn mark_lost(&mut self) -> (lost: bool)
        requires
            old(self).wf(),
        ensures
            final(self).wf(),
            lost == stuck(old(self)@.cells, N as nat),
            final(self)@ == (GameView {
                status: if lost && old(self)@.status == GameStatus::Ongoing {
                    GameStatus::Lost
                } else {
                    old(self)@.status
                },
                ..old(self)@
            }),
    {
        let lost = self.check_if_lost();
        if lost && self.status == GameStatus::Ongoing {
            self.status = GameStatus::Lost;
        }
        lost
    }

    /// A game on the transposed grid, with the same score; its status is `Ongoing`.
    pub fn transpose(&self) -> (turned: Self)
        requires
            self.wf(),
        ensures
            turned.wf(),
            turned@ == (GameView {
                cells: transposed(self@.cells, N as nat),
                status: GameStatus::Ongoing,
                ..self@
            }),
    {
        let mut data = self.data.clone();
        assert(data@ =~= self.data@);
        proof {
            lemma_transposed_valid(self.data@, N as nat);
        }
        transpose::<N>(data.as_mut_slice());
        Game { status: GameStatus::Ongoing, already_won: self.already_won, score: self.score, data }
    }

    /// Puts a tile of exponent `value` on the empty cell at flat index `position`.
    pub fn new_tile(&mut self, position: usize, value: i32)
        requires
            old(self).wf(),
            position < N * N,
            old(self)@.cells[position as int] == 0,
            value >= 0,
        ensures
            final(self).wf(),
            final(self)@ == (GameView {
                cells: old(self)@.cells.update(position as int, value),
                ..old(self)@
            }),
    {
        self.data.set(position, value);
    }

    /// Puts the tile of exponent 2 on the empty cell in row `x`, column `y`.
    pub fn new_tile_xy(&mut self, x: i32, y: i32)
        requires
            old(self).wf(),
            0 <= x,
            0 <= y,
            x * N + y < N * N,
            old(self)@.cells[x * N + y] == 0,
        ensures
            final(self).wf(),
            final(self)@ == (GameView {
                cells: old(self)@.cells.update(x * N + y, 2i32),
                ..old(self)@
            }),
    {
        proof {
            assert(x * N >= 0) by (nonlinear_arith)
                requires
                    x >= 0,
                    N >= 0,
            ;
        }
        let row = x as usize;
        let col = y as usize;
        self.data.set(row * N + col, 2);
    }
}

/// A move never lowers the score.
pub proof fn lemma_score_grows(g: GameView, n: nat, d: Direction)
    requires
        valid_grid(g.cells, n),
        0 <= g.score <= i32::MAX,
    ensures
        g.moved(n, d).score >= g.score,
        0 <= g.moved(n, d).score <= i32::MAX,
        valid_grid(g.moved(n, d).cells, n),
{
    lemma_shifted_valid(g.cells, n, d);
    lemma_transposed_valid(g.cells, n);
    lemma_rows_gain(g.cells, n, n, true, n);
    lemma_rows_gain(g.cells, n, n, false, n);
    lemma_rows_gain(transposed(g.cells, n), n, n, true, n);
    lemma_rows_gain(transposed(g.cells, n), n, n, false, n);
}

/// The game is lost exactly if none of the four moves changes its grid.
pub proof fn lemma_lost_means_no_move(g: GameView, n: nat)
    ensures
        stuck(g.cells, n) <==> forall|d: Direction| (#[trigger] g.moved(n, d)).cells == g.cells,
{
    if stuck(g.cells, n) {
        assert forall|d: Direction| (#[trigger] g.moved(n, d)).cells == g.cells by {
            match d {
                Direction::Right => {},
                Direction::Left => {},
                Direction::Up => {},
                Direction::Down => {},
            }
        }
    }
    if forall|d: Direction| (#[trigger] g.moved(n, d)).cells == g.cells {
        assert(g.moved(n, Direction::Right).cells == g.cells);
        assert(g.moved(n, Direction::Left).cells == g.cells);
        assert(g.moved(n, Direction::Up).cells == g.cells);
        assert(g.moved(n, Direction::Down).cells == g.cells);
    }
}

/// A move that leaves the grid as it is leaves the whole game as it is: nothing is
/// gained and nothing is won.
pub proof fn lemma_still_move(g: GameView, n: nat, d: Direction)
    requires
        valid_grid(g.cells, n),
        0 <= g.score <= i32::MAX,
        shifted(g.cells, n, d) == g.cells,
    ensures
        g.moved(n, d) == g,
{
    let turned = transposed(g.cells, n);
    lemma_transposed_valid(g.cells, n);
    match d {
        Direction::Right => lemma_rows_unmoved(g.cells, n, n, true, n),
        Direction::Left => lemma_rows_unmoved(g.cells, n, n, false, n),
        Direction::Down => {
            lemma_rows_slid_valid(turned, n, n, true);
            lemma_transpose_twice(rows_slid(turned, n, true), n);
            lemma_rows_unmoved(turned, n, n, true, n);
        },
        Direction::Up => {
            lemma_rows_slid_valid(turned, n, n, false);
            lemma_transpose_twice(rows_slid(turned, n, false), n);
            lemma_rows_unmoved(turned, n, n, false, n);
        },
    }
}

/// A move that changes the grid leaves one of its cells empty.
pub proof fn lemma_move_leaves_gap(cells: Seq<i32>, n: nat, d: Direction)
    requires
        valid_grid(cells, n),
        shifted(cells, n, d) != cells,
    ensures
        exists|k: int| 0 <= k < cells.len() && shifted(cells, n, d)[k] == 0,
{
    match d {
        Direction::Right => lemma_rows_moved(cells, n, n, true),
        Direction::Left => lemma_rows_moved(cells, n, n, false),
        Direction::Down => lemma_columns_moved(cells, n, true),
        Direction::Up => lemma_columns_moved(cells, n, false),
    }
}

/// `lemma_move_leaves_gap` for the moves along the columns.
proof fn lemma_columns_moved(cells: Seq<i32>, n: nat, to_end: bool)
    requires
        valid_grid(cells, n),
        transposed(rows_slid(transposed(cells, n), n, to_end), n) != cells,
    ensures
        exists|k: int|
            0 <= k < cells.len() && transposed(rows_slid(transposed(cells, n), n, to_end), n)[k]
                == 0,
{
    let turned = transposed(cells, n);
    let slid_rows = rows_slid(turned, n, to_end);
    let out = transposed(slid_rows, n);
    lemma_transposed_valid(cells, n);
    lemma_transpose_twice(cells, n);
    lemma_rows_slid_valid(turned, n, n, to_end);
    lemma_rows_moved(turned, n, n, to_end);
    let k = choose|k: int| 0 <= k < turned.len() && slid_rows[k] == 0;
    assert(n > 0) by (nonlinear_arith)
        requires
            0 <= k < n * n,
    ;
    lemma_split(n as int, k, n as int);
    let back = mirror_index(n as int, k);
    lemma_at_bound(n as int, k / n as int, k % n as int, n as int);
    lemma_at(n as int, k / n as int, k % n as int);
    assert(mirror_index(n as int, back) == k);
    assert(out[back] == 0);
}

/// The game after the moves `moves`, made in their order.
pub open spec fn played(g: GameView, n: nat, moves: Seq<Direction>) -> GameView
    decreases moves.len(),
{
    if moves.len() == 0 {
        g
    } else {
        played(g, n, moves.drop_last()).moved(n, moves.last())
    }
}

/// Over any sequence of moves the score never goes down.
pub proof fn lemma_score_monotone(g: GameView, n: nat, moves: Seq<Direction>)
    requires
        valid_grid(g.cells, n),
        0 <= g.score <= i32::MAX,
    ensures
        played(g, n, moves).score >= g.score,
        0 <= played(g, n, moves).score <= i32::MAX,
        valid_grid(played(g, n, moves).cells, n),
    decreases moves.len(),
{
    if moves.len() > 0 {
        lemma_score_monotone(g, n, moves.drop_last());
        lemma_score_grows(played(g, n, moves.drop_last()), n, moves.last());
    }
}

} // verus!
