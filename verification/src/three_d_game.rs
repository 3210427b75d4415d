//! The board in three dimensions: an `N`×`N`×`N` grid with two more moves, inward and
//! outward along the third axis.
//!
//! The cell at `(i, j, k)` has flat index `i + N * (j + N * k)`. `Left` and `Right`
//! slide every line of `N` cells that follow each other in the flat order; `Up` and
//! `Down` do so after the first two axes have changed places; `Inward` and `Outward`
//! slide every pillar, the cells that differ in `k` only.

use crate::algorithm::{
    lemma_at, lemma_at_3d, lemma_at_bound, lemma_slide_shape, lemma_split, lemma_split_3d,
    lemma_transpose_3d_twice, mirror_index_3d, same_cells, slide_to_end, slide_to_start,
    transpose_3d, transposed_3d, valid_line,
};
use crate::game::{lemma_rearranged_valid, start_cells, GameStatus, GameView};
use crate::lines::{
    lemma_rows_gain, lemma_rows_slid_valid, rows_form, rows_gain, rows_slid, slid, slide_forms,
    slide_gain, slide_lines,
};
use crate::queries::{
    empty_cells, empty_indices, exponent_sum, highest_tile, lemma_empty_cells, max_exponent,
    sum_of_exponents,
};
use crate::random::{pick, shuffle_cells};
use crate::spawn::tile_added;
use crate::tile::{add_capped, capped, face, WIN_EXPONENT};
use vstd::prelude::*;

verus! {

/// A move of the player on the board in three dimensions.
#[derive(Clone, Copy, Debug, PartialEq, Eq, Structural)]
pub enum ThreeDDirection {
    Up,
    Down,
    Left,
    Right,
    Inward,
    Outward,
}

/// A grid of `n`×`n`×`n` valid cells.
pub open spec fn valid_cube(cells: Seq<i32>, n: nat) -> bool {
    &&& cells.len() == n * n * n
    &&& valid_line(cells)
}

/// The pillar that starts at flat index `p` of the first layer: the cells at
/// `p + n * n * k`, in the order of `k`.
pub open spec fn pillar(cells: Seq<i32>, n: nat, p: int) -> Seq<i32> {
    Seq::new(n, |k: int| cells[p + (n * n) * k])
}

/// The grid with every pillar slid.
pub open spec fn pillars_slid(cells: Seq<i32>, n: nat, to_end: bool) -> Seq<i32> {
    Seq::new(
        cells.len(),
        |f: int| slid(pillar(cells, n, f % (n * n) as int), to_end)[f / (n * n) as int],
    )
}

/// The exact gain of sliding the first `upto` pillars.
pub open spec fn pillars_gain(cells: Seq<i32>, n: nat, to_end: bool, upto: nat) -> int
    decreases upto,
{
    if upto == 0 {
        0
    } else {
        pillars_gain(cells, n, to_end, (upto - 1) as nat) + slide_gain(
            pillar(cells, n, upto - 1),
            to_end,
        )
    }
}

/// Whether the slide of one of the first `upto` pillars forms a tile of exponent `target`.
pub open spec fn pillars_form(cells: Seq<i32>, n: nat, to_end: bool, target: i32, upto: nat) -> bool {
    exists|p: int| 0 <= p < upto && #[trigger] slide_forms(pillar(cells, n, p), to_end, target)
}

/// The grid after a move.
pub open spec fn shifted_3d(cells: Seq<i32>, n: nat, d: ThreeDDirection) -> Seq<i32> {
    match d {
        ThreeDDirection::Right => rows_slid(cells, n, true),
        ThreeDDirection::Left => rows_slid(cells, n, false),
        ThreeDDirection::Down => transposed_3d(rows_slid(transposed_3d(cells, n), n, true), n),
        ThreeDDirection::Up => transposed_3d(rows_slid(transposed_3d(cells, n), n, false), n),
        ThreeDDirection::Outward => pillars_slid(cells, n, true),
        ThreeDDirection::Inward => pillars_slid(cells, n, false),
    }
}

/// The exact gain of a move.
pub open spec fn shift_gain_3d(cells: Seq<i32>, n: nat, d: ThreeDDirection) -> int {
    match d {
        ThreeDDirection::Right => rows_gain(cells, n, true, n * n),
        ThreeDDirection::Left => rows_gain(cells, n, false, n * n),
        ThreeDDirection::Down => rows_gain(transposed_3d(cells, n), n, true, n * n),
        ThreeDDirection::Up => rows_gain(transposed_3d(cells, n), n, false, n * n),
        ThreeDDirection::Outward => pillars_gain(cells, n, true, n * n),
        ThreeDDirection::Inward => pillars_gain(cells, n, false, n * n),
    }
}

/// Whether a merge of the move forms the winning tile.
pub open spec fn shift_wins_3d(cells: Seq<i32>, n: nat, d: ThreeDDirection) -> bool {
    match d {
        ThreeDDirection::Right => rows_form(cells, n, true, WIN_EXPONENT, n * n),
        ThreeDDirection::Left => rows_form(cells, n, false, WIN_EXPONENT, n * n),
        ThreeDDirection::Down => rows_form(transposed_3d(cells, n), n, true, WIN_EXPONENT, n * n),
        ThreeDDirection::Up => rows_form(transposed_3d(cells, n), n, false, WIN_EXPONENT, n * n),
        ThreeDDirection::Outward => pillars_form(cells, n, true, WIN_EXPONENT, n * n),
        ThreeDDirection::Inward => pillars_form(cells, n, false, WIN_EXPONENT, n * n),
    }
}

/// The game after the move `d` on a board of side `n`.
pub open spec fn moved_3d(g: GameView, n: nat, d: ThreeDDirection) -> GameView {
    let wins = shift_wins_3d(g.cells, n, d);
    GameView {
        cells: shifted_3d(g.cells, n, d),
        score: capped(g.score + shift_gain_3d(g.cells, n, d)),
        status: if wins && !g.already_won {
            GameStatus::Won
        } else {
            g.status
        },
        already_won: g.already_won || wins,
    }
}

/// None of the moves left, right, up and down changes the grid.
pub open spec fn stuck_3d(cells: Seq<i32>, n: nat) -> bool {
    &&& shifted_3d(cells, n, ThreeDDirection::Right) == cells
    &&& shifted_3d(cells, n, ThreeDDirection::Left) == cells
    &&& shifted_3d(cells, n, ThreeDDirection::Up) == cells
    &&& shifted_3d(cells, n, ThreeDDirection::Down) == cells
}

/// Exchanging the first two axes keeps a valid grid valid.
pub proof fn lemma_transposed_3d_valid(cells: Seq<i32>, n: nat)
    requires
        valid_cube(cells, n),
    ensures
        valid_cube(transposed_3d(cells, n), n),
{
    let out = transposed_3d(cells, n);
    let m = n as int;
    assert forall|f: int| 0 <= f < out.len() implies out[f] >= 0 by {
        assert(m > 0) by (nonlinear_arith)
            requires
                0 <= m,
                0 <= f < m * m * m,
        ;
        lemma_split_3d(m, f);
        lemma_at_3d(m, (f / m) % m, f % m, (f / m) / m);
    }
}

/// The cells of a pillar are valid cells of the grid, and a flat index of the grid
/// splits into a pillar and a place in it.
pub proof fn lemma_pillar(cells: Seq<i32>, n: nat, p: int)
    requires
        valid_cube(cells, n),
        0 <= p < n * n,
    ensures
        n > 0,
        pillar(cells, n, p).len() == n,
        valid_line(pillar(cells, n, p)),
        forall|k: int| 0 <= k < n ==> 0 <= #[trigger] (p + (n * n) * k) < cells.len(),
        slide_gain(pillar(cells, n, p), true) >= 0,
        slide_gain(pillar(cells, n, p), false) >= 0,
{
    let nn = (n * n) as int;
    assert(n > 0) by (nonlinear_arith)
        requires
            0 <= p < n * n,
    ;
    assert forall|k: int| 0 <= k < n implies 0 <= #[trigger] (p + (n * n) * k) < cells.len() by {
        lemma_at_bound(nn, p, k, n as int);
        assert(nn * n == n * n * n) by (nonlinear_arith)
            requires
                nn == n * n,
        ;
    }
    let line = pillar(cells, n, p);
    assert forall|k: int| 0 <= k < line.len() implies line[k] >= 0 by {
        assert(0 <= p + (n * n) * k < cells.len());
    }
    lemma_slide_shape(line);
}

/// The exact gain of sliding pillars is not negative.
pub proof fn lemma_pillars_gain(cells: Seq<i32>, n: nat, to_end: bool, upto: nat)
    requires
        valid_cube(cells, n),
        upto <= n * n,
    ensures
        pillars_gain(cells, n, to_end, upto) >= 0,
    decreases upto,
{
    if upto > 0 {
        lemma_pillars_gain(cells, n, to_end, (upto - 1) as nat);
        lemma_pillar(cells, n, upto - 1);
    }
}

/// The pillars that form a tile among the first `upto + 1` are those among the first
/// `upto` and pillar `upto`.
pub proof fn lemma_pillars_step(cells: Seq<i32>, n: nat, to_end: bool, target: i32, upto: nat)
    ensures
        pillars_form(cells, n, to_end, target, upto + 1) == (pillars_form(
            cells,
            n,
            to_end,
            target,
            upto,
        ) || slide_forms(pillar(cells, n, upto as int), to_end, target)),
{
    if pillars_form(cells, n, to_end, target, upto + 1) {
        let p = choose|p: int|
            0 <= p < upto + 1 && #[trigger] slide_forms(pillar(cells, n, p), to_end, target);
        if p < upto {
            assert(pillars_form(cells, n, to_end, target, upto));
        }
    }
}

/// A slide of the pillars keeps a valid grid valid.
pub proof fn lemma_pillars_slid_valid(cells: Seq<i32>, n: nat, to_end: bool)
    requires
        valid_cube(cells, n),
    ensures
        valid_cube(pillars_slid(cells, n, to_end), n),
{
    let out = pillars_slid(cells, n, to_end);
    let nn = (n * n) as int;
    assert forall|f: int| 0 <= f < out.len() implies out[f] >= 0 by {
        assert(nn > 0 && nn * n == n * n * n) by (nonlinear_arith)
            requires
                nn == n * n,
                0 <= f < n * n * n,
        ;
        lemma_split(nn, f, n as int);
        lemma_pillar(cells, n, f % nn);
        lemma_slide_shape(pillar(cells, n, f % nn));
    }
}

/// A move keeps a valid grid valid, and its exact gain is not negative.
pub proof fn lemma_shifted_3d_valid(cells: Seq<i32>, n: nat, d: ThreeDDirection)
    requires
        valid_cube(cells, n),
    ensures
        valid_cube(shifted_3d(cells, n, d), n),
        shift_gain_3d(cells, n, d) >= 0,
{
    let turned = transposed_3d(cells, n);
    lemma_transposed_3d_valid(cells, n);
    assert(n * (n * n) == n * n * n) by (nonlinear_arith);
    match d {
        ThreeDDirection::Right => {
            lemma_rows_slid_valid(cells, n, n * n, true);
            lemma_rows_gain(cells, n, n * n, true, n * n);
        },
        ThreeDDirection::Left => {
            lemma_rows_slid_valid(cells, n, n * n, false);
            lemma_rows_gain(cells, n, n * n, false, n * n);
        },
        ThreeDDirection::Down => {
            lemma_rows_slid_valid(turned, n, n * n, true);
            lemma_rows_gain(turned, n, n * n, true, n * n);
            lemma_transposed_3d_valid(rows_slid(turned, n, true), n);
        },
        ThreeDDirection::Up => {
            lemma_rows_slid_valid(turned, n, n * n, false);
            lemma_rows_gain(turned, n, n * n, false, n * n);
            lemma_transposed_3d_valid(rows_slid(turned, n, false), n);
        },
        ThreeDDirection::Outward => {
            lemma_pillars_slid_valid(cells, n, true);
            lemma_pillars_gain(cells, n, true, n * n);
        },
        ThreeDDirection::Inward => {
            lemma_pillars_slid_valid(cells, n, false);
            lemma_pillars_gain(cells, n, false, n * n);
        },
    }
}

/// The board of side `N` in three dimensions, with its score and status.
pub struct ThreeDGame<const N: usize> {
    status: GameStatus,
    already_won: bool,
    score: i32,
    data: Vec<i32>,
}

impl<const N: usize> View for ThreeDGame<N> {
    type V = GameView;

    closed spec fn view(&self) -> GameView {
        GameView {
            cells: self.data@,
            score: self.score as int,
            status: self.status,
            already_won: self.already_won,
        }
    }
}

impl<const N: usize> Clone for ThreeDGame<N> {
    fn clone(&self) -> (copy: Self)
        ensures
            copy@ == self@,
    {
        let data = self.data.clone();
        assert(data@ =~= self.data@);
        ThreeDGame { status: self.status, already_won: self.already_won, score: self.score, data }
    }
}

impl<const N: usize> ThreeDGame<N> {
    /// The cells form an `N`×`N`×`N` grid of valid cells whose flat indices fit a `u32`,
    /// and the score is a capped sum of gains.
    pub open spec fn wf(&self) -> bool {
        &&& valid_cube(self@.cells, N as nat)
        &&& N * N * N <= u32::MAX
        &&& 0 <= self@.score <= i32::MAX
    }

    /// A new game: two tiles of exponent 1 on cells drawn at random, no score.
    pub fn new() -> (game: Self)
        requires
            2 <= N * N * N <= u32::MAX,
        ensures
            game.wf(),
            game@.cells.to_multiset() == start_cells((N * N * N) as nat).to_multiset(),
            game@.score == 0,
            game@.status == GameStatus::Ongoing,
            !game@.already_won,
    {
        proof {
            assert(N * N <= N * N * N) by (nonlinear_arith)
                requires
                    N * N * N >= 2,
            ;
        }
        let mut data = vec![0i32; N * N * N];
        data.set(0, 1);
        data.set(1, 1);
        assert(data@ =~= start_cells((N * N * N) as nat));
        shuffle_cells(&mut data);
        proof {
            lemma_rearranged_valid(data@, start_cells((N * N * N) as nat));
        }
        ThreeDGame { status: GameStatus::Ongoing, already_won: false, score: 0, data }
    }

    /// A new game on the given cells, in their flat order, with no score; `None` unless
    /// the cells form an `N`×`N`×`N` grid of valid cells.
    pub fn from_cells(cells: Vec<i32>) -> (made: Option<Self>)
        ensures
            made is Some <==> valid_cube(cells@, N as nat) && N * N * N <= u32::MAX,
            made matches Some(game) ==> game.wf() && game@ == (GameView {
                cells: cells@,
                score: 0,
                status: GameStatus::Ongoing,
                already_won: false,
            }),
    {
        if N > 1625 {
            proof {
                assert(N * N * N > u32::MAX) by (nonlinear_arith)
                    requires
                        N >= 1626,
                ;
            }
            return None;
        }
        proof {
            assert(N * N * N <= u32::MAX && N * N <= 1625 * 1625) by (nonlinear_arith)
                requires
                    N <= 1625,
            ;
        }
        if cells.len() != N * N * N {
            return None;
        }
        let mut i: usize = 0;
        while i < cells.len()
            invariant
                i <= cells.len(),
                forall|k: int| 0 <= k < i ==> cells[k] >= 0,
            decreases cells.len() - i,
        {
            if cells[i] < 0 {
                return None;
            }
            i = i + 1;
        }
        Some(ThreeDGame { status: GameStatus::Ongoing, already_won: false, score: 0, data: cells })
    }

    /// The cells, in their flat order.
    pub fn data(&self) -> (cells: &Vec<i32>)
        ensures
            cells@ == self@.cells,
    {
        &self.data
    }

    /// The gains of all moves so far, capped at `i32::MAX`.
    pub fn score(&self) -> (score: i32)
        ensures
            score == self@.score,
    {
        self.score
    }

    pub fn status(&self) -> (status: &GameStatus)
        ensures
            *status == self@.status,
    {
        &self.status
    }

    /// Marks the game as interrupted from outside.
    pub fn interrupt(&mut self)
        ensures
            final(self)@ == (GameView { status: GameStatus::Interrupted, ..old(self)@ }),
    {
        self.status = GameStatus::Interrupted;
    }

    /// Marks the game as going on.
    pub fn go_on(&mut self)
        ensures
            final(self)@ == (GameView { status: GameStatus::Ongoing, ..old(self)@ }),
    {
        self.status = GameStatus::Ongoing;
    }

    /// Books the gain of a move and a win.
    fn book(&mut self, gain: i32, formed: bool)
        requires
            0 <= old(self)@.score <= i32::MAX,
            gain >= 0,
        ensures
            final(self)@.cells == old(self)@.cells,
            final(self)@.score == capped(old(self)@.score + gain),
            final(self)@.already_won == (old(self)@.already_won || formed),
            final(self)@.status == (if formed && !old(self)@.already_won {
                GameStatus::Won
            } else {
                old(self)@.status
            }),
    {
        self.score = add_capped(self.score, gain);
        if formed && !self.already_won {
            self.status = GameStatus::Won;
            self.already_won = true;
        }
    }

    /// Slides every line toward its end or its start.
    fn horizontal(&mut self, to_end: bool) -> (mutated: bool)
        requires
            old(self).wf(),
        ensures
            final(self).wf(),
            final(self)@ == moved_3d(
                old(self)@,
                N as nat,
                if to_end {
                    ThreeDDirection::Right
                } else {
                    ThreeDDirection::Left
                },
            ),
            mutated == (final(self)@.cells != old(self)@.cells),
    {
        proof {
            assert(N * (N * N) == N * N * N) by (nonlinear_arith);
            assert(N * N <= N * N * N || N == 0) by (nonlinear_arith);
        }
        let m = slide_lines(&mut self.data, N, N * N, to_end, WIN_EXPONENT);
        self.book(m.gain, m.formed);
        m.moved
    }

    /// Slides every line along the second axis: exchange the first two axes, slide the
    /// lines, exchange the axes back.
    fn vertical(&mut self, to_end: bool) -> (mutated: bool)
        requires
            old(self).wf(),
        ensures
            final(self).wf(),
            final(self)@ == moved_3d(
                old(self)@,
                N as nat,
                if to_end {
                    ThreeDDirection::Down
                } else {
                    ThreeDDirection::Up
                },
            ),
            mutated == (final(self)@.cells != old(self)@.cells),
    {
        let ghost before = self.data@;
        let ghost n = N as nat;
        proof {
            lemma_transposed_3d_valid(before, n);
        }
        transpose_3d::<N>(self.data.as_mut_slice());
        let mutated = self.horizontal(to_end);
        let ghost turned_slid = self.data@;
        proof {
            lemma_transposed_3d_valid(turned_slid, n);
        }
        transpose_3d::<N>(self.data.as_mut_slice());
        proof {
            lemma_transpose_3d_twice(before, n);
            lemma_transpose_3d_twice(turned_slid, n);
        }
        mutated
    }

    /// Slides every pillar toward its end (outward) or its start (inward).
    fn inward_outward(&mut self, to_end: bool) -> (mutated: bool)
        requires
            old(self).wf(),
        ensures
            final(self).wf(),
            final(self)@ == moved_3d(
                old(self)@,
                N as nat,
                if to_end {
                    ThreeDDirection::Outward
                } else {
                    ThreeDDirection::Inward
                },
            ),
            mutated == (final(self)@.cells != old(self)@.cells),
    {
        let ghost before = self.data@;
        let ghost n = N as nat;
        let ghost nn = (N * N) as int;
        let ghost after = pillars_slid(before, n, to_end);
        let kept = self.data.clone();
        assert(kept@ =~= before);
        if N == 0 {
            proof {
                assert(n * n * n == 0) by (nonlinear_arith)
                    requires
                        n == 0,
                ;
                assert(self.data@ =~= after);
                assert(!pillars_form(before, n, to_end, WIN_EXPONENT, n * n)) by {
                    assert(n * n == 0) by (nonlinear_arith)
                        requires
                            n == 0,
                    ;
                }
                assert(n * n == 0) by (nonlinear_arith)
                    requires
                        n == 0,
                ;
            }
            self.book(0, false);
            return false;
        }
        proof {
            assert(N * N <= N * N * N && nn * n == n * n * n && nn > 0) by (nonlinear_arith)
                requires
                    N >= 1,
                    nn == N * N,
                    n == N,
            ;
        }
        let layer = N * N;
        let mut gain: i32 = 0;
        let mut won = false;
        let mut p: usize = 0;
        while p < layer
            invariant
                n == N,
                nn == N * N,
                layer == N * N,
                nn > 0,
                nn * n == n * n * n,
                p <= layer,
                valid_cube(before, n),
                N * N * N <= u32::MAX,
                after == pillars_slid(before, n, to_end),
                self.data@.len() == before.len(),
                forall|f: int|
                    0 <= f < before.len() ==> self.data@[f] == (if f % nn < p {
                        after[f]
                    } else {
                        before[f]
                    }),
                pillars_gain(before, n, to_end, p as nat) >= 0,
                gain == capped(pillars_gain(before, n, to_end, p as nat)),
                won == pillars_form(before, n, to_end, WIN_EXPONENT, p as nat),
                self.status == old(self).status,
                self.already_won == old(self).already_won,
                self.score == old(self).score,
            decreases layer - p,
        {
            let ghost line_before = pillar(before, n, p as int);
            proof {
                lemma_pillar(before, n, p as int);
                lemma_pillars_step(before, n, to_end, WIN_EXPONENT, p as nat);
            }
            let mut depth: Vec<i32> = Vec::new();
            let mut k: usize = 0;
            while k < N
                invariant
                    n == N,
                    nn == N * N,
                    layer == N * N,
                    nn > 0,
                    nn * n == n * n * n,
                    p < layer,
                    k <= N,
                    valid_cube(before, n),
                    N * N * N <= u32::MAX,
                    self.data@.len() == before.len(),
                    forall|f: int|
                        0 <= f < before.len() ==> self.data@[f] == (if f % nn < p {
                            after[f]
                        } else {
                            before[f]
                        }),
                    depth@.len() == k,
                    forall|j: int| 0 <= j < k ==> depth@[j] == before[p + nn * j],
                decreases N - k,
            {
                proof {
                    lemma_at_bound(nn, p as int, k as int, n as int);
                    lemma_at(nn, p as int, k as int);
                }
                depth.push(self.data[p + layer * k]);
                k = k + 1;
            }
            proof {
                assert(depth@ =~= line_before);
            }
            let m = if to_end {
                slide_to_end(depth.as_slice(), WIN_EXPONENT)
            } else {
                slide_to_start(depth.as_slice(), WIN_EXPONENT)
            };
            gain = add_capped(gain, m.gain);
            if m.formed {
                won = true;
            }
            let mut k: usize = 0;
            while k < N
                invariant
                    n == N,
                    nn == N * N,
                    layer == N * N,
                    nn > 0,
                    nn * n == n * n * n,
                    p < layer,
                    k <= N,
                    valid_cube(before, n),
                    N * N * N <= u32::MAX,
                    after == pillars_slid(before, n, to_end),
                    self.data@.len() == before.len(),
                    m.line@ == slid(pillar(before, n, p as int), to_end),
                    m.line@.len() == N,
                    forall|f: int|
                        0 <= f < before.len() ==> self.data@[f] == (if f % nn < p || (f % nn == p
                            && f / nn < k) {
                            after[f]
                        } else {
                            before[f]
                        }),
                    self.status == old(self).status,
                    self.already_won == old(self).already_won,
                    self.score == old(self).score,
                decreases N - k,
            {
                proof {
                    lemma_at_bound(nn, p as int, k as int, n as int);
                    lemma_at(nn, p as int, k as int);
                }
                self.data.set(p + layer * k, m.line[k]);
                proof {
                    assert forall|f: int| 0 <= f < before.len() implies self.data@[f] == (if f % nn
                        < p || (f % nn == p && f / nn < k + 1) {
                        after[f]
                    } else {
                        before[f]
                    }) by {
                        lemma_split(nn, f, n as int);
                    }
                }
                k = k + 1;
            }
            proof {
                assert forall|f: int| 0 <= f < before.len() implies self.data@[f] == (if f % nn < p
                    + 1 {
                    after[f]
                } else {
                    before[f]
                }) by {
                    lemma_split(nn, f, n as int);
                }
            }
            p = p + 1;
        }
        proof {
            assert forall|f: int| 0 <= f < before.len() implies self.data@[f] == after[f] by {
                lemma_split(nn, f, n as int);
            }
            assert(self.data@ =~= after);
            lemma_pillars_slid_valid(before, n, to_end);
        }
        let mutated = !same_cells(self.data.as_slice(), kept.as_slice());
        self.book(gain, won);
        mutated
    }

    /// Slides every line toward its end. Returns whether the grid changed.
    pub fn right(&mut self) -> (moved: bool)
        requires
            old(self).wf(),
        ensures
            final(self).wf(),
            final(self)@ == moved_3d(old(self)@, N as nat, ThreeDDirection::Right),
            moved == (final(self)@.cells != old(self)@.cells),
    {
        self.horizontal(true)
    }

    /// Slides every line toward its start. Returns whether the grid changed.
    pub fn left(&mut self) -> (moved: bool)
        requires
            old(self).wf(),
        ensures
            final(self).wf(),
            final(self)@ == moved_3d(old(self)@, N as nat, ThreeDDirection::Left),
            moved == (final(self)@.cells != old(self)@.cells),
    {
        self.horizontal(false)
    }

    /// Slides along the second axis toward its start. Returns whether the grid changed.
    pub fn up(&mut self) -> (moved: bool)
        requires
            old(self).wf(),
        ensures
            final(self).wf(),
            final(self)@ == moved_3d(old(self)@, N as nat, ThreeDDirection::Up),
            moved == (final(self)@.cells != old(self)@.cells),
    {
        self.vertical(false)
    }

    /// Slides along the second axis toward its end. Returns whether the grid changed.
    pub fn down(&mut self) -> (moved: bool)
        requires
            old(self).wf(),
        ensures
            final(self).wf(),
            final(self)@ == moved_3d(old(self)@, N as nat, ThreeDDirection::Down),
            moved == (final(self)@.cells != old(self)@.cells),
    {
        self.vertical(true)
    }

    /// Slides every pillar toward its start. Returns whether the grid changed.
    pub fn inward(&mut self) -> (moved: bool)
        requires
            old(self).wf(),
        ensures
            final(self).wf(),
            final(self)@ == moved_3d(old(self)@, N as nat, ThreeDDirection::Inward),
            moved == (final(self)@.cells != old(self)@.cells),
    {
        self.inward_outward(false)
    }

    /// Slides every pillar toward its end. Returns whether the grid changed.
    pub fn outward(&mut self) -> (moved: bool)
        requires
            old(self).wf(),
        ensures
            final(self).wf(),
            final(self)@ == moved_3d(old(self)@, N as nat, ThreeDDirection::Outward),
            moved == (final(self)@.cells != old(self)@.cells),
    {
        self.inward_outward(true)
    }

    /// Makes the move. Returns whether the grid changed; the score never goes down.
    pub fn movement(&mut self, direction: &ThreeDDirection) -> (moved: bool)
        requires
            old(self).wf(),
        ensures
            final(self).wf(),
            final(self)@ == moved_3d(old(self)@, N as nat, *direction),
            moved == (final(self)@.cells != old(self)@.cells),
            final(self)@.score >= old(self)@.score,
    {
        proof {
            lemma_shifted_3d_valid(self@.cells, N as nat, *direction);
        }
        match direction {
            ThreeDDirection::Up => self.up(),
            ThreeDDirection::Left => self.left(),
            ThreeDDirection::Right => self.right(),
            ThreeDDirection::Down => self.down(),
            ThreeDDirection::Inward => self.inward(),
            ThreeDDirection::Outward => self.outward(),
        }
    }

    /// Whether none of the moves left, right, up and down changes the grid; the moves
    /// inward and outward are not tried. The game itself is left as it is.
    pub fn check_if_lost(&self) -> (lost: bool)
        requires
            self.wf(),
        ensures
            lost == stuck_3d(self@.cells, N as nat),
    {
        let mut copy = self.clone();
        if copy.right() {
            return false;
        }
        if copy.left() {
            return false;
        }
        if copy.up() {
            return false;
        }
        if copy.down() {
            return false;
        }
        true
    }

    /// Puts a tile of exponent `value` on the empty cell at flat index `position`.
    pub fn new_tile(&mut self, position: usize, value: i32)
        requires
            old(self).wf(),
            position < N * N * N,
            old(self)@.cells[position as int] == 0,
            value >= 0,
        ensures
            final(self).wf(),
            final(self)@ == (GameView {
                cells: old(self)@.cells.update(position as int, value),
                ..old(self)@
            }),
    {
        self.data.set(position, value);
    }

    /// Puts a tile of exponent `value` on the empty cell at flat index
    /// `x * N * N + y * N + z`.
    pub fn new_tile_xy(&mut self, x: i32, y: i32, z: i32, value: i32)
        requires
            old(self).wf(),
            0 <= x,
            0 <= y,
            0 <= z,
            x * N * N + y * N + z < N * N * N,
            old(self)@.cells[x * N * N + y * N + z] == 0,
            value >= 0,
        ensures
            final(self).wf(),
            final(self)@ == (GameView {
                cells: old(self)@.cells.update(x * N * N + y * N + z, value),
                ..old(self)@
            }),
    {
        proof {
            assert(x * N >= 0 && x * N * N >= 0 && y * N >= 0) by (nonlinear_arith)
                requires
                    x >= 0,
                    y >= 0,
                    N >= 0,
            ;
            assert(N >= 1) by (nonlinear_arith)
                requires
                    N >= 0,
                    N * N * N > 0,
            ;
            assert(x * N <= x * N * N) by (nonlinear_arith)
                requires
                    x >= 0,
                    N >= 1,
            ;
        }
        let (a, b, c) = (x as usize, y as usize, z as usize);
        self.data.set(a * N * N + b * N + c, value);
    }

    /// The sum of the exponents on the board.
    pub fn get_tiles_sum(&self) -> (sum: i64)
        requires
            self.wf(),
        ensures
            sum == exponent_sum(self@.cells),
    {
        sum_of_exponents(&self.data)
    }

    /// What the highest tile shows: `2^m` capped at `i32::MAX` for the highest exponent
    /// `m`; the value 1 on a board without tiles.
    pub fn get_max_tile(&self) -> (value: i32)
        requires
            self.wf(),
        ensures
            value == capped(face(max_exponent(self@.cells) as i32)),
            forall|k: int| 0 <= k < self@.cells.len() ==> self@.cells[k] <= max_exponent(self@.cells),
    {
        highest_tile(&self.data).1
    }

    /// The flat indices of the empty cells, in rising order.
    pub fn get_empty_tiles(&self) -> (empty: Vec<u32>)
        requires
            self.wf(),
        ensures
            empty@.len() == empty_cells(self@.cells).len(),
            forall|i: int| 0 <= i < empty@.len() ==> empty@[i] as int == empty_cells(self@.cells)[i],
            forall|i: int|
                0 <= i < empty@.len() ==> (#[trigger] empty@[i]) < N * N * N && self@.cells[empty@[i] as int]
                    == 0,
    {
        empty_indices(&self.data)
    }

    /// Puts a new tile on the board: on one of the empty cells, with exponent 1 or 2.
    /// Which cell and which of the two is drawn at random.
    pub fn new_random_tile(&mut self)
        requires
            old(self).wf(),
            empty_cells(old(self)@.cells).len() > 0,
        ensures
            final(self).wf(),
            exists|cell: int, exponent: i32| tile_added(final(self)@, old(self)@, cell, exponent),
    {
        let empty_tiles = self.get_empty_tiles();
        let exponents: Vec<i32> = vec![1, 2];
        assert(exponents@ =~= seq![1i32, 2i32]);
        let cell = pick(&empty_tiles);
        let drawn = pick(&exponents);
        match (cell, drawn) {
            (Some(position), Some(exponent)) => {
                proof {
                    let at = choose|i: int| 0 <= i < empty_tiles@.len() && empty_tiles@[i] == position;
                    assert(empty_tiles@[at] < N * N * N);
                    let which = choose|i: int| 0 <= i < exponents@.len() && exponents@[i] == exponent;
                    assert(exponent == 1 || exponent == 2);
                }
                self.new_tile(position as usize, exponent);
                assert(tile_added(self@, old(self)@, position as int, exponent));
            },
            _ => {
                assert(false);
            },
        }
    }
}

} // verus!
