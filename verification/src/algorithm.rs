//! Sliding one line of tiles, and transposing a grid.
//!
//! A line slides toward its end (`slide_right`) or toward its start (`slide_left`).
//! The model of a slide is stated over sequences: `compact` drops the empty cells,
//! `merged` merges equal neighbours from the far end, each tile at most once, and the
//! result is padded with empty cells on the side the tiles came from.

use crate::tile::{add_capped, capped, face, pow2_capped, raise, raised, lemma_face_bounds, WIN_EXPONENT};
use vstd::arithmetic::div_mod::{lemma_fundamental_div_mod, lemma_fundamental_div_mod_converse};
use vstd::arithmetic::mul::lemma_mul_is_commutative;
use vstd::prelude::*;

verus! {

/// Every cell of the line is empty (`0`) or holds a positive exponent.
pub open spec fn valid_line(s: Seq<i32>) -> bool {
    forall|i: int| 0 <= i < s.len() ==> s[i] >= 0
}

/// `n` empty cells.
pub open spec fn zeros(n: nat) -> Seq<i32> {
    Seq::new(n, |i: int| 0i32)
}

/// The tiles of a line in their order, the empty cells left out.
pub open spec fn compact(s: Seq<i32>) -> Seq<i32>
    decreases s.len(),
{
    if s.len() == 0 {
        Seq::empty()
    } else if s.last() == 0 {
        compact(s.drop_last())
    } else {
        compact(s.drop_last()).push(s.last())
    }
}

/// No two neighbours of `t` are equal.
pub open spec fn no_equal_neighbours(t: Seq<i32>) -> bool {
    forall|i: int, j: int| 0 <= i && j == i + 1 && j < t.len() ==> t[i] != t[j]
}

/// The merging pass over the tiles `t`, from the end toward the start: where the last
/// two tiles are equal they become one tile of the next exponent, which takes no part in
/// a further merge; then the pass goes on with the tiles before them.
pub open spec fn merged(t: Seq<i32>) -> Seq<i32>
    decreases t.len(),
{
    if t.len() < 2 {
        t
    } else if t[t.len() - 1] == t[t.len() - 2] {
        merged(t.take(t.len() - 2)).push(raised(t.last()))
    } else {
        merged(t.drop_last()).push(t.last())
    }
}

/// The exact gain of the merging pass over `t`: the value of each tile it forms.
pub open spec fn merge_gain(t: Seq<i32>) -> int
    decreases t.len(),
{
    if t.len() < 2 {
        0
    } else if t[t.len() - 1] == t[t.len() - 2] {
        merge_gain(t.take(t.len() - 2)) + face(raised(t.last()))
    } else {
        merge_gain(t.drop_last())
    }
}

/// Whether the merging pass over `t` forms a tile of exponent `target`.
pub open spec fn merge_forms(t: Seq<i32>, target: i32) -> bool
    decreases t.len(),
{
    if t.len() < 2 {
        false
    } else if t[t.len() - 1] == t[t.len() - 2] {
        raised(t.last()) == target || merge_forms(t.take(t.len() - 2), target)
    } else {
        merge_forms(t.drop_last(), target)
    }
}

/// The line after sliding toward its end.
pub open spec fn slide_right_line(s: Seq<i32>) -> Seq<i32> {
    let m = merged(compact(s));
    zeros((s.len() - m.len()) as nat) + m
}

/// The line after sliding toward its start: the mirror image of `slide_right_line`.
pub open spec fn slide_left_line(s: Seq<i32>) -> Seq<i32> {
    slide_right_line(s.reverse()).reverse()
}

/// The exact gain of sliding `s` toward its end.
pub open spec fn line_gain(s: Seq<i32>) -> int {
    merge_gain(compact(s))
}

/// Whether sliding `s` toward its end forms a tile of exponent `target`.
pub open spec fn line_forms(s: Seq<i32>, target: i32) -> bool {
    merge_forms(compact(s), target)
}

/// `compact` goes through a concatenation.
pub proof fn lemma_compact_concat(a: Seq<i32>, b: Seq<i32>)
    ensures
        compact(a + b) == compact(a) + compact(b),
    decreases b.len(),
{
    if b.len() == 0 {
        assert(a + b == a);
        assert(compact(a) + compact(b) == compact(a));
    } else {
        lemma_compact_concat(a, b.drop_last());
        assert((a + b).drop_last() == a + b.drop_last());
        assert((a + b).last() == b.last());
        if b.last() != 0 {
            assert(compact(a + b) == (compact(a) + compact(b.drop_last())).push(b.last()));
            assert(compact(a) + compact(b.drop_last()).push(b.last()) == (compact(a) + compact(
                b.drop_last(),
            )).push(b.last()));
        }
    }
}

/// What `compact` keeps: tiles only, no more cells than the line had, and a valid line
/// stays valid.
pub proof fn lemma_compact_tiles(s: Seq<i32>)
    ensures
        compact(s).len() <= s.len(),
        forall|i: int| 0 <= i < compact(s).len() ==> compact(s)[i] != 0,
        valid_line(s) ==> valid_line(compact(s)),
    decreases s.len(),
{
    if s.len() > 0 {
        lemma_compact_tiles(s.drop_last());
    }
}

/// A line without empty cells is its own compaction.
pub proof fn lemma_compact_full(s: Seq<i32>)
    requires
        forall|i: int| 0 <= i < s.len() ==> s[i] != 0,
    ensures
        compact(s) == s,
    decreases s.len(),
{
    if s.len() > 0 {
        lemma_compact_full(s.drop_last());
        assert(s.drop_last().push(s.last()) == s);
    }
}

/// A line of empty cells has no tiles.
pub proof fn lemma_compact_zeros(n: nat)
    ensures
        compact(zeros(n)) == Seq::<i32>::empty(),
    decreases n,
{
    if n > 0 {
        lemma_compact_zeros((n - 1) as nat);
        assert(zeros(n).drop_last() == zeros((n - 1) as nat));
    }
}

/// What the merging pass keeps: positive exponents only, and no more tiles than it got.
pub proof fn lemma_merged_tiles(t: Seq<i32>)
    requires
        forall|i: int| 0 <= i < t.len() ==> t[i] > 0,
    ensures
        merged(t).len() <= t.len(),
        forall|i: int| 0 <= i < merged(t).len() ==> merged(t)[i] > 0,
        merge_gain(t) >= 0,
        merged(t).len() == t.len() ==> merged(t) == t && merge_gain(t) == 0,
        merged(t).len() == t.len() ==> forall|x: i32| !merge_forms(t, x),
    decreases t.len(),
{
    if t.len() >= 2 {
        if t[t.len() - 1] == t[t.len() - 2] {
            lemma_merged_tiles(t.take(t.len() - 2));
            lemma_face_bounds(raised(t.last()));
        } else {
            lemma_merged_tiles(t.drop_last());
            if merged(t).len() == t.len() {
                assert(t.drop_last().push(t.last()) == t);
                assert forall|x: i32| !merge_forms(t, x) by {
                    assert(!merge_forms(t.drop_last(), x));
                }
            }
        }
    }
}

/// The merging pass leaves a line without equal neighbours as it is, and gains nothing.
pub proof fn lemma_merged_unchanged(t: Seq<i32>)
    requires
        no_equal_neighbours(t),
    ensures
        merged(t) == t,
        merge_gain(t) == 0,
        forall|x: i32| !merge_forms(t, x),
    decreases t.len(),
{
    if t.len() >= 2 {
        let init = t.drop_last();
        assert(t[t.len() - 2] != t[t.len() - 1]);
        assert(no_equal_neighbours(init)) by {
            assert forall|i: int, j: int| 0 <= i && j == i + 1 && j < init.len() implies init[i]
                != init[j] by {
                assert(t[i] != t[j]);
            }
        }
        lemma_merged_unchanged(init);
        assert(init.push(t.last()) == t);
        assert forall|x: i32| !merge_forms(t, x) by {
            assert(!merge_forms(init, x));
        }
    }
}

/// The tiles of the mirrored line are the mirrored tiles of the line.
pub proof fn lemma_compact_reverse(s: Seq<i32>)
    ensures
        compact(s.reverse()) == compact(s).reverse(),
    decreases s.len(),
{
    if s.len() > 0 {
        let init = s.drop_last();
        lemma_compact_reverse(init);
        assert(s.reverse() == seq![s.last()] + init.reverse());
        lemma_compact_concat(seq![s.last()], init.reverse());
        reveal_with_fuel(compact, 2);
        assert(seq![s.last()].drop_last() == Seq::<i32>::empty());
        if s.last() != 0 {
            assert(compact(seq![s.last()]) == seq![s.last()]);
            assert(compact(init).push(s.last()).reverse() == seq![s.last()] + compact(
                init,
            ).reverse());
        } else {
            assert(compact(seq![s.last()]) == Seq::<i32>::empty());
            assert(Seq::<i32>::empty() + compact(init).reverse() == compact(init).reverse());
        }
    } else {
        assert(s.reverse() == s);
        assert(compact(s).reverse() == compact(s));
    }
}

/// A slide keeps the length of the line and its validity, and its gain is not negative.
pub proof fn lemma_slide_shape(s: Seq<i32>)
    requires
        valid_line(s),
    ensures
        slide_right_line(s).len() == s.len(),
        slide_left_line(s).len() == s.len(),
        valid_line(slide_right_line(s)),
        valid_line(slide_left_line(s)),
        valid_line(s.reverse()),
        line_gain(s) >= 0,
        line_gain(s.reverse()) >= 0,
{
    lemma_slide_shape_to_end(s);
    lemma_slide_shape_to_end(s.reverse());
}

/// `lemma_slide_shape`, for the slide toward the end alone.
pub proof fn lemma_slide_shape_to_end(s: Seq<i32>)
    requires
        valid_line(s),
    ensures
        slide_right_line(s).len() == s.len(),
        valid_line(slide_right_line(s)),
        line_gain(s) >= 0,
        merged(compact(s)).len() <= s.len(),
{
    lemma_compact_tiles(s);
    let t = compact(s);
    assert forall|k: int| 0 <= k < t.len() implies t[k] > 0 by {}
    lemma_merged_tiles(t);
}

/// A line that a slide toward its end leaves as it is had nothing to merge: the slide
/// gains nothing and forms no tile.
pub proof fn lemma_unmoved_gains_nothing(s: Seq<i32>)
    requires
        valid_line(s),
        slide_right_line(s) == s,
    ensures
        line_gain(s) == 0,
        forall|x: i32| !line_forms(s, x),
{
    lemma_compact_tiles(s);
    let t = compact(s);
    assert forall|k: int| 0 <= k < t.len() implies t[k] > 0 by {}
    lemma_merged_tiles(t);
    let m = merged(t);
    let pad = (s.len() - m.len()) as nat;
    lemma_compact_concat(zeros(pad), m);
    lemma_compact_zeros(pad);
    lemma_compact_full(m);
    assert(Seq::<i32>::empty() + m == m);
    assert(compact(s) == m);
}

/// A line as long as its compaction has no empty cell.
pub proof fn lemma_compact_same_length(s: Seq<i32>)
    requires
        compact(s).len() == s.len(),
    ensures
        compact(s) == s,
    decreases s.len(),
{
    if s.len() > 0 {
        lemma_compact_tiles(s.drop_last());
        lemma_compact_same_length(s.drop_last());
        assert(s.drop_last().push(s.last()) == s);
    }
}

/// A slide toward the end that changes a valid line leaves its first cell empty.
pub proof fn lemma_moved_leaves_gap(s: Seq<i32>)
    requires
        valid_line(s),
        slide_right_line(s) != s,
    ensures
        s.len() > 0,
        slide_right_line(s)[0] == 0,
{
    lemma_compact_tiles(s);
    let t = compact(s);
    assert forall|k: int| 0 <= k < t.len() implies t[k] > 0 by {}
    lemma_merged_tiles(t);
    let m = merged(t);
    if m.len() == s.len() {
        lemma_compact_same_length(s);
        assert(zeros(0) + s == s);
    }
}

/// A line whose tiles have no two equal neighbours slides without a merge: its tiles
/// close up on the side it slides to, in their order, the empty cells gather on the
/// other side, and nothing is gained.
pub proof fn lemma_slide_without_merge(s: Seq<i32>)
    requires
        no_equal_neighbours(compact(s)),
    ensures
        slide_right_line(s) == zeros((s.len() - compact(s).len()) as nat) + compact(s),
        slide_left_line(s) == compact(s) + zeros((s.len() - compact(s).len()) as nat),
        line_gain(s) == 0,
        line_gain(s.reverse()) == 0,
{
    let c = compact(s);
    let pad = (s.len() - c.len()) as nat;
    lemma_merged_unchanged(c);
    lemma_compact_reverse(s);
    let r = c.reverse();
    assert(no_equal_neighbours(r)) by {
        assert forall|i: int, j: int| 0 <= i && j == i + 1 && j < r.len() implies r[i] != r[j] by {
            assert(c[c.len() - 1 - j] != c[c.len() - 1 - i]);
        }
    }
    lemma_merged_unchanged(r);
    assert((zeros(pad) + r).reverse() == c + zeros(pad));
}

/// The tiles of `data`, in their order.
fn tiles_of(data: &[i32]) -> (row: Vec<i32>)
    ensures
        row@ == compact(data@),
{
    let mut row: Vec<i32> = Vec::new();
    let mut i: usize = 0;
    while i < data.len()
        invariant
            i <= data.len(),
            row@ == compact(data@.take(i as int)),
        decreases data.len() - i,
    {
        proof {
            assert(data@.take(i + 1).drop_last() == data@.take(i as int));
        }
        if data[i] != 0 {
            row.push(data[i]);
        }
        i = i + 1;
    }
    proof {
        assert(data@.take(data.len() as int) == data@);
    }
    row
}

/// The cells of `data` in the opposite order.
fn mirrored(data: &[i32]) -> (out: Vec<i32>)
    ensures
        out@ == data@.reverse(),
{
    let mut out: Vec<i32> = Vec::new();
    let n = data.len();
    let mut i: usize = 0;
    while i < n
        invariant
            n == data.len(),
            i <= n,
            out.len() == i,
            forall|k: int| 0 <= k < i ==> out[k] == data[n - 1 - k],
        decreases n - i,
    {
        out.push(data[n - 1 - i]);
        i = i + 1;
    }
    out
}

/// What one slide of a line gives.
pub struct LineMove {
    /// The line after the slide.
    pub line: Vec<i32>,
    /// The gain of the slide, capped at `i32::MAX`.
    pub gain: i32,
    /// Whether the line after the slide differs from the line before it.
    pub moved: bool,
    /// Whether a merge of the slide formed a tile of the exponent that was asked about.
    pub formed: bool,
}

/// Slides `data` toward its end and reports, besides the new line, its gain and whether
/// the line changed, whether a merge formed a tile of exponent `target`.
pub fn slide_to_end(data: &[i32], target: i32) -> (m: LineMove)
    requires
        valid_line(data@),
    ensures
        m.line@ == slide_right_line(data@),
        m.gain == capped(line_gain(data@)),
        m.moved == (m.line@ != data@),
        m.formed == line_forms(data@, target),
        m.line@.len() == data@.len(),
        valid_line(m.line@),
        m.gain >= 0,
{
    proof {
        lemma_slide_shape_to_end(data@);
    }
    let mut row = tiles_of(data);
    let ghost t = row@;
    proof {
        lemma_compact_tiles(data@);
        assert forall|k: int| 0 <= k < t.len() implies t[k] > 0 by {}
    }
    let mut gain: i32 = 0;
    let mut formed = false;
    let ghost mut exact: int = 0;
    let n = row.len();
    let mut i: usize = n;
    proof {
        assert(row@.subrange(n as int, n as int) == Seq::<i32>::empty());
        assert(t.take(n as int) == t);
        assert(merged(t) + Seq::<i32>::empty() == merged(t));
    }
    while i > 1
        invariant
            n == t.len(),
            row.len() == n,
            i <= n,
            forall|k: int| 0 <= k < t.len() ==> t[k] > 0,
            row@.take(i as int) == t.take(i as int),
            merged(t) == merged(t.take(i as int)) + compact(row@.subrange(i as int, n as int)),
            merge_gain(t) == merge_gain(t.take(i as int)) + exact,
            merge_forms(t, target) == (merge_forms(t.take(i as int), target) || formed),
            exact >= 0,
            gain == capped(exact),
        decreases i,
    {
        let ghost head = t.take(i as int);
        let ghost tail = row@.subrange(i as int, n as int);
        proof {
            assert(row@.take(i as int)[i - 1] == head[i - 1]);
            assert(row@.take(i as int)[i - 2] == head[i - 2]);
        }
        if row[i - 1] == row[i - 2] {
            let up = raise(row[i - 1]);
            let won = pow2_capped(up);
            proof {
                lemma_face_bounds(up);
                assert(head.take(i - 2) == t.take(i - 2));
            }
            row[i - 1] = up;
            row[i - 2] = 0;
            gain = add_capped(gain, won);
            if up == target {
                formed = true;
            }
            proof {
                exact = exact + face(up);
                assert(row@.subrange(i - 2, n as int) == seq![0i32, up] + tail);
                lemma_compact_concat(seq![0i32, up], tail);
                reveal_with_fuel(compact, 3);
                assert(seq![0i32, up].drop_last() == seq![0i32]);
                assert(compact(seq![0i32, up]) == seq![up]);
                assert(merged(t.take(i - 2)).push(up) + compact(tail) == merged(t.take(i - 2)) + (
                seq![up] + compact(tail)));
                assert(row@.take(i - 2) == t.take(i - 2));
            }
            i = i - 2;
        } else {
            proof {
                assert(head.drop_last() == t.take(i - 1));
                assert(row@.subrange(i - 1, n as int) == seq![row@[i - 1]] + tail);
                lemma_compact_concat(seq![row@[i - 1]], tail);
                reveal_with_fuel(compact, 2);
                assert(seq![row@[i - 1]].drop_last() == Seq::<i32>::empty());
                assert(compact(seq![row@[i - 1]]) == seq![row@[i - 1]]);
                assert(merged(t.take(i - 1)).push(head.last()) + compact(tail) == merged(
                    t.take(i - 1),
                ) + (seq![row@[i - 1]] + compact(tail)));
                assert(row@.take(i - 1) == t.take(i - 1));
            }
            i = i - 1;
        }
    }
    let packed = tiles_of(row.as_slice());
    proof {
        let head = row@.take(i as int);
        let tail = row@.subrange(i as int, n as int);
        assert(row@ == head + tail);
        lemma_compact_concat(head, tail);
        lemma_compact_full(head);
        lemma_merged_tiles(t);
        assert(packed@ == merged(t));
    }
    let len = data.len();
    let pad = len - packed.len();
    let mut line: Vec<i32> = Vec::new();
    let mut k: usize = 0;
    while k < len
        invariant
            len == data.len(),
            pad + packed.len() == len,
            k <= len,
            line.len() == k,
            forall|j: int| 0 <= j < k ==> line[j] == (zeros(pad as nat) + packed@)[j],
        decreases len - k,
    {
        if k < pad {
            line.push(0);
        } else {
            line.push(packed[k - pad]);
        }
        k = k + 1;
    }
    proof {
        assert(line@ == zeros(pad as nat) + packed@);
    }
    let moved = !same_cells(line.as_slice(), data);
    LineMove { line, gain, moved, formed }
}

/// Whether two lines hold the same cells.
pub fn same_cells(a: &[i32], b: &[i32]) -> (same: bool)
    ensures
        same == (a@ == b@),
{
    if a.len() != b.len() {
        return false;
    }
    let mut i: usize = 0;
    while i < a.len()
        invariant
            a.len() == b.len(),
            i <= a.len(),
            forall|k: int| 0 <= k < i ==> a[k] == b[k],
        decreases a.len() - i,
    {
        if a[i] != b[i] {
            return false;
        }
        i = i + 1;
    }
    proof {
        assert(a@ == b@);
    }
    true
}

/// Slides `data` toward its start; the mirror image of `slide_to_end`.
pub fn slide_to_start(data: &[i32], target: i32) -> (m: LineMove)
    requires
        valid_line(data@),
    ensures
        m.line@ == slide_left_line(data@),
        m.gain == capped(line_gain(data@.reverse())),
        m.moved == (m.line@ != data@),
        m.formed == line_forms(data@.reverse(), target),
        m.line@.len() == data@.len(),
        valid_line(m.line@),
        m.gain >= 0,
{
    let turned = mirrored(data);
    let inner = slide_to_end(turned.as_slice(), target);
    let line = mirrored(inner.line.as_slice());
    proof {
        assert(data@.reverse().reverse() == data@);
        assert(inner.line@.reverse().reverse() == inner.line@);
    }
    LineMove { line, gain: inner.gain, moved: inner.moved, formed: inner.formed }
}

/// Slides a line toward its end (the highest index): the tiles close up at the end,
/// equal neighbours merge from the end, each tile at most once, and the start is
/// filled with empty cells. Returns the new line, the gain (the value of every tile a
/// merge formed, capped at `i32::MAX`) and whether the line changed.
pub fn slide_right(data: &[i32]) -> (r: (Vec<i32>, i32, bool))
    requires
        valid_line(data@),
    ensures
        r.0@ == slide_right_line(data@),
        r.1 == capped(line_gain(data@)),
        r.2 == (r.0@ != data@),
{
    let m = slide_to_end(data, WIN_EXPONENT);
    (m.line, m.gain, m.moved)
}

/// Slides a line toward its start (index 0): `slide_right` on the mirrored line,
/// mirrored back.
pub fn slide_left(data: &[i32]) -> (r: (Vec<i32>, i32, bool))
    requires
        valid_line(data@),
    ensures
        r.0@ == slide_left_line(data@),
        r.1 == capped(line_gain(data@.reverse())),
        r.2 == (r.0@ != data@),
{
    let m = slide_to_start(data, WIN_EXPONENT);
    (m.line, m.gain, m.moved)
}

/// The flat index of offset `a` within block `m`, where a block has `n` cells.
pub open spec fn at(n: int, a: int, m: int) -> int {
    a + n * m
}

/// The flat index that the cell at flat index `k` of an `n`×`n` grid comes from when
/// the grid is transposed: the cell at `(k % n, k / n)` comes from `(k / n, k % n)`.
pub open spec fn mirror_index(n: int, k: int) -> int {
    at(n, k / n, k % n)
}

/// The grid with the two axes of its first `n`×`n` cells exchanged; cells beyond them
/// are kept.
pub open spec fn transposed(s: Seq<i32>, n: nat) -> Seq<i32> {
    Seq::new(
        s.len(),
        |k: int|
            if k < n * n {
                s[mirror_index(n as int, k)]
            } else {
                s[k]
            },
    )
}

/// The grid with the first two axes of its first `n`×`n`×`n` cells exchanged, layer by
/// layer along the third axis; cells beyond them are kept.
pub open spec fn transposed_3d(s: Seq<i32>, n: nat) -> Seq<i32> {
    Seq::new(
        s.len(),
        |f: int|
            if f < n * n * n {
                s[mirror_index_3d(n as int, f)]
            } else {
                s[f]
            },
    )
}

/// An offset and a block number are recovered from the flat index by `%` and `/`.
pub proof fn lemma_at(n: int, a: int, m: int)
    requires
        0 <= a < n,
        0 <= m,
    ensures
        at(n, a, m) >= 0,
        at(n, a, m) / n == m,
        at(n, a, m) % n == a,
{
    lemma_mul_is_commutative(n, m);
    lemma_fundamental_div_mod_converse(a + n * m, n, m, a);
    assert(n * m >= 0) by (nonlinear_arith)
        requires
            n > 0,
            m >= 0,
    ;
}

/// A flat index within `rows` blocks of `n` cells is below `n * rows`.
pub proof fn lemma_at_bound(n: int, a: int, m: int, rows: int)
    requires
        0 <= a < n,
        0 <= m < rows,
    ensures
        0 <= at(n, a, m) < n * rows,
        n * m + n <= n * rows,
{
    assert(n * m + n <= n * rows && n * m >= 0) by (nonlinear_arith)
        requires
            0 < n,
            0 <= m < rows,
    ;
}

/// A flat index below `n * rows` splits into an offset below `n` and a block below `rows`.
pub proof fn lemma_split(n: int, k: int, rows: int)
    requires
        0 < n,
        0 <= k < n * rows,
    ensures
        0 <= k % n < n,
        0 <= k / n < rows,
        k == at(n, k % n, k / n),
{
    lemma_fundamental_div_mod(k, n);
    let q = k / n;
    assert(0 <= q < rows) by (nonlinear_arith)
        requires
            0 < n,
            0 <= k < n * rows,
            k == n * q + k % n,
            0 <= k % n < n,
    ;
}

/// Whether the cell at flat index `k` has been exchanged with its mirror cell when the
/// pairs `(i', j')` with `i' <= j'` are handled in the order of `i'`, then `j'`, and
/// `(i, j)` is the next pair.
pub open spec fn exchanged(n: int, k: int, i: int, j: int) -> bool {
    let a = k % n;
    let b = k / n;
    let lo = if a <= b { a } else { b };
    let hi = if a <= b { b } else { a };
    lo < i || (lo == i && hi < j)
}

/// Transposes the first `N`×`N` cells of `data` in place: the cells at `(i, j)` and
/// `(j, i)` change places, where `(i, j)` is the cell at flat index `i + N * j`.
pub fn transpose<const N: usize>(data: &mut [i32])
    requires
        N * N <= old(data)@.len(),
    ensures
        final(data)@ == transposed(old(data)@, N as nat),
{
    let ghost before = data@;
    let ghost n = N as int;
    let total = data.len();
    let mut i: usize = 0;
    while i < N
        invariant
            n == N,
            i <= N,
            before.len() == total,
            N * N <= before.len(),
            data@.len() == before.len(),
            forall|k: int|
                0 <= k < before.len() ==> data@[k] == (if k < n * n && exchanged(n, k, i as int, i as int) {
                    before[mirror_index(n, k)]
                } else {
                    before[k]
                }),
        decreases N - i,
    {
        let mut j: usize = i;
        while j < N
            invariant
                n == N,
                i < N,
                i <= j <= N,
                before.len() == total,
                N * N <= before.len(),
                data@.len() == before.len(),
                forall|k: int|
                    0 <= k < before.len() ==> data@[k] == (if k < n * n && exchanged(
                        n,
                        k,
                        i as int,
                        j as int,
                    ) {
                        before[mirror_index(n, k)]
                    } else {
                        before[k]
                    }),
            decreases N - j,
        {
            proof {
                lemma_at_bound(n, i as int, j as int, n);
                lemma_at_bound(n, j as int, i as int, n);
                lemma_at(n, i as int, j as int);
                lemma_at(n, j as int, i as int);
                assert(n * j + n <= n * n);
                assert(N * j + N <= N * N);
            }
            let p = i + N * j;
            let q = j + N * i;
            let held = data[p];
            data[p] = data[q];
            data[q] = held;
            proof {
                assert forall|k: int| 0 <= k < before.len() implies data@[k] == (if k < n * n
                    && exchanged(n, k, i as int, j + 1) {
                    before[mirror_index(n, k)]
                } else {
                    before[k]
                }) by {
                    if k < n * n {
                        lemma_split(n, k, n);
                    }
                }
            }
            j = j + 1;
        }
        proof {
            assert forall|k: int| 0 <= k < before.len() implies data@[k] == (if k < n * n
                && exchanged(n, k, i + 1, i + 1) {
                before[mirror_index(n, k)]
            } else {
                before[k]
            }) by {
                if k < n * n {
                    lemma_split(n, k, n);
                }
            }
        }
        i = i + 1;
    }
    proof {
        assert forall|k: int| 0 <= k < before.len() implies data@[k] == transposed(before, N as nat)[k] by {
            if k < n * n {
                lemma_split(n, k, n);
            }
        }
        assert(data@ == transposed(before, N as nat));
    }
}

/// Transposing twice gives the grid back.
pub proof fn lemma_transpose_twice(s: Seq<i32>, n: nat)
    requires
        n * n <= s.len(),
    ensures
        transposed(transposed(s, n), n) == s,
{
    let t = transposed(s, n);
    assert forall|k: int| 0 <= k < s.len() implies transposed(t, n)[k] == s[k] by {
        if k < n * n {
            assert(n > 0) by (nonlinear_arith)
                requires
                    0 <= k < n * n,
            ;
            lemma_split(n as int, k, n as int);
            let m = mirror_index(n as int, k);
            lemma_at(n as int, k / n as int, k % n as int);
            lemma_at_bound(n as int, k / n as int, k % n as int, n as int);
            assert(mirror_index(n as int, m) == k);
        }
    }
    assert(transposed(t, n) == s);
}

/// The flat index that the cell at flat index `f` of an `n`×`n`×`n` grid comes from
/// when its first two axes are exchanged.
pub open spec fn mirror_index_3d(n: int, f: int) -> int {
    at(n, (f / n) % n, at(n, f % n, (f / n) / n))
}

/// A flat index below `n * n * n` splits into three coordinates below `n`.
pub proof fn lemma_split_3d(n: int, f: int)
    requires
        0 < n,
        0 <= f < n * n * n,
    ensures
        0 <= f % n < n,
        0 <= (f / n) % n < n,
        0 <= (f / n) / n < n,
        0 <= f / n < n * n,
        f == at(n, f % n, at(n, (f / n) % n, (f / n) / n)),
{
    assert(n * n * n == n * (n * n)) by (nonlinear_arith);
    lemma_split(n, f, n * n);
    lemma_split(n, f / n, n);
}

/// Three coordinates below `n` give a flat index below `n * n * n`, from which `%` and
/// `/` recover them.
pub proof fn lemma_at_3d(n: int, a: int, b: int, c: int)
    requires
        0 <= a < n,
        0 <= b < n,
        0 <= c < n,
    ensures
        0 <= at(n, b, c) < n * n,
        0 <= at(n, a, at(n, b, c)) < n * n * n,
        n * c + n <= n * n,
        n * at(n, b, c) + n <= n * n * n,
        at(n, a, at(n, b, c)) % n == a,
        (at(n, a, at(n, b, c)) / n) % n == b,
        (at(n, a, at(n, b, c)) / n) / n == c,
{
    assert(n * n * n == n * (n * n)) by (nonlinear_arith);
    lemma_at_bound(n, b, c, n);
    lemma_at(n, b, c);
    lemma_at_bound(n, a, at(n, b, c), n * n);
    lemma_at(n, a, at(n, b, c));
}

/// Whether the cell at flat index `f` has been exchanged with its mirror cell when the
/// triples `(i', j', k')` with `i' <= j'` are handled in the order of `i'`, then `j'`,
/// then `k'`, and `(i, j, k)` is the next triple.
pub open spec fn exchanged_3d(n: int, f: int, i: int, j: int, k: int) -> bool {
    let a = f % n;
    let b = (f / n) % n;
    let c = (f / n) / n;
    let lo = if a <= b { a } else { b };
    let hi = if a <= b { b } else { a };
    lo < i || (lo == i && (hi < j || (hi == j && c < k)))
}

/// Exchanges the first two axes of the first `N`×`N`×`N` cells of `data` in place: the
/// cells at `(i, j, k)` and `(j, i, k)` change places, where `(i, j, k)` is the cell at
/// flat index `i + N * (j + N * k)`.
pub fn transpose_3d<const N: usize>(data: &mut [i32])
    requires
        N * N * N <= old(data)@.len(),
    ensures
        final(data)@ == transposed_3d(old(data)@, N as nat),
{
    let ghost before = data@;
    let ghost n = N as int;
    let total = data.len();
    let mut i: usize = 0;
    while i < N
        invariant
            n == N,
            i <= N,
            before.len() == total,
            N * N * N <= before.len(),
            data@.len() == before.len(),
            forall|f: int|
                0 <= f < before.len() ==> data@[f] == (if f < n * n * n && exchanged_3d(
                    n,
                    f,
                    i as int,
                    i as int,
                    0,
                ) {
                    before[mirror_index_3d(n, f)]
                } else {
                    before[f]
                }),
        decreases N - i,
    {
        let mut j: usize = i;
        while j < N
            invariant
                n == N,
                i < N,
                i <= j <= N,
                before.len() == total,
                N * N * N <= before.len(),
                data@.len() == before.len(),
                forall|f: int|
                    0 <= f < before.len() ==> data@[f] == (if f < n * n * n && exchanged_3d(
                        n,
                        f,
                        i as int,
                        j as int,
                        0,
                    ) {
                        before[mirror_index_3d(n, f)]
                    } else {
                        before[f]
                    }),
            decreases N - j,
        {
            let mut k: usize = 0;
            while k < N
                invariant
                    n == N,
                    i < N,
                    i <= j < N,
                    k <= N,
                    before.len() == total,
                    N * N * N <= before.len(),
                    data@.len() == before.len(),
                    forall|f: int|
                        0 <= f < before.len() ==> data@[f] == (if f < n * n * n && exchanged_3d(
                            n,
                            f,
                            i as int,
                            j as int,
                            k as int,
                        ) {
                            before[mirror_index_3d(n, f)]
                        } else {
                            before[f]
                        }),
                decreases N - k,
            {
                proof {
                    lemma_at_3d(n, i as int, j as int, k as int);
                    lemma_at_3d(n, j as int, i as int, k as int);
                    assert(n * n <= n * n * n) by (nonlinear_arith)
                        requires
                            n >= 1,
                    ;
                    assert(N * k + N <= N * N);
                    assert(N * (j + N * k) + N <= N * N * N);
                    assert(N * (i + N * k) + N <= N * N * N);
                }
                let p = i + N * (j + N * k);
                let q = j + N * (i + N * k);
                let held = data[p];
                data[p] = data[q];
                data[q] = held;
                proof {
                    assert forall|f: int| 0 <= f < before.len() implies data@[f] == (if f < n * n
                        * n && exchanged_3d(n, f, i as int, j as int, k + 1) {
                        before[mirror_index_3d(n, f)]
                    } else {
                        before[f]
                    }) by {
                        if f < n * n * n {
                            lemma_split_3d(n, f);
                        }
                    }
                }
                k = k + 1;
            }
            proof {
                assert forall|f: int| 0 <= f < before.len() implies data@[f] == (if f < n * n * n
                    && exchanged_3d(n, f, i as int, j + 1, 0) {
                    before[mirror_index_3d(n, f)]
                } else {
                    before[f]
                }) by {
                    if f < n * n * n {
                        lemma_split_3d(n, f);
                    }
                }
            }
            j = j + 1;
        }
        proof {
            assert forall|f: int| 0 <= f < before.len() implies data@[f] == (if f < n * n * n
                && exchanged_3d(n, f, i + 1, i + 1, 0) {
                before[mirror_index_3d(n, f)]
            } else {
                before[f]
            }) by {
                if f < n * n * n {
                    lemma_split_3d(n, f);
                }
            }
        }
        i = i + 1;
    }
    proof {
        assert forall|f: int| 0 <= f < before.len() implies data@[f] == transposed_3d(
            before,
            N as nat,
        )[f] by {
            if f < n * n * n {
                lemma_split_3d(n, f);
            }
        }
        assert(data@ == transposed_3d(before, N as nat));
    }
}

/// Exchanging the first two axes twice gives the grid back.
pub proof fn lemma_transpose_3d_twice(s: Seq<i32>, n: nat)
    requires
        n * n * n <= s.len(),
    ensures
        transposed_3d(transposed_3d(s, n), n) == s,
{
    let t = transposed_3d(s, n);
    let m = n as int;
    assert forall|f: int| 0 <= f < s.len() implies transposed_3d(t, n)[f] == s[f] by {
        if f < n * n * n {
            assert(m > 0) by (nonlinear_arith)
                requires
                    0 <= f < m * m * m,
            ;
            lemma_split_3d(m, f);
            lemma_at_3d(m, (f / m) % m, f % m, (f / m) / m);
            assert(mirror_index_3d(m, mirror_index_3d(m, f)) == f);
        }
    }
    assert(transposed_3d(t, n) == s);
}

} // verus!
