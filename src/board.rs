use crate::line::{
    below_max, cells_score, lemma_slide_full, lemma_slide_score, slide, slide_line, tile_value,
};
use vstd::arithmetic::power2::{pow2, lemma2_to64, lemma_pow2_strictly_increases};
use vstd::bits::lemma_u32_shl_is_mul;
use crate::random::{chance, choose_one};
use rand::rngs::StdRng;
use vstd::prelude::*;

verus! {

/// Largest board score that the engine handles. A real game stays far below it;
/// it keeps every tile exponent at most 30 and every score inside an `i32`.
pub const MAX_SCORE: u32 = 1073741824;

/// A 4x4 board, row-major (index = 4 * row + col); each cell holds an exponent.
#[derive(Debug, Clone, Copy, PartialEq, Eq)]
pub struct State {
    pub tiles: [u8; 16],
}

/// Sum of `2^v` over the non-empty cells.
pub open spec fn board_score(t: Seq<u8>) -> nat {
    cells_score(t)
}

/// A board whose score fits the engine's bound.
pub open spec fn board_ok(t: Seq<u8>) -> bool {
    t.len() == 16 && board_score(t) <= MAX_SCORE
}

/// The four cells of a line that starts at `start` and steps by `delta`.
pub open spec fn line_at(t: Seq<u8>, start: int, delta: int) -> Seq<u8> {
    seq![t[start], t[start + delta], t[start + 2 * delta], t[start + 3 * delta]]
}

/// The line from `start` by `delta` lies on the board and has four distinct cells.
pub open spec fn line_fits(start: int, delta: int) -> bool {
    delta != 0 && 0 <= start < 16 && 0 <= start + 3 * delta < 16
}

/// The board after sliding the one line from `start` by `delta` toward `start`.
pub open spec fn shifted(t: Seq<u8>, start: int, delta: int) -> Seq<u8> {
    let s = slide(line_at(t, start, delta));
    t.update(start, s[0]).update(start + delta, s[1]).update(start + 2 * delta, s[2]).update(
        start + 3 * delta,
        s[3],
    )
}

/// Four parallel lines, the first at `start`, each next one `stride` further on.
pub open spec fn lines_fit(start: int, delta: int, stride: int) -> bool {
    line_fits(start, delta) && line_fits(start + stride, delta) && line_fits(
        start + 2 * stride,
        delta,
    ) && line_fits(start + 3 * stride, delta)
}

/// The board after sliding each of the four parallel lines in turn.
pub open spec fn shifted_all(t: Seq<u8>, start: int, delta: int, stride: int) -> Seq<u8> {
    shifted(
        shifted(shifted(shifted(t, start, delta), start + stride, delta), start + 2 * stride, delta),
        start + 3 * stride,
        delta,
    )
}

proof fn lemma_score_update(t: Seq<u8>, i: int, x: u8)
    requires
        0 <= i < t.len(),
    ensures
        cells_score(t.update(i, x)) + tile_value(t[i]) == cells_score(t) + tile_value(x),
    decreases t.len(),
{
    let u = t.update(i, x);
    if i == t.len() - 1 {
        assert(u.drop_last() =~= t.drop_last());
    } else {
        assert(u.drop_last() =~= t.drop_last().update(i, x));
        lemma_score_update(t.drop_last(), i, x);
    }
}

proof fn lemma_score_prefix(s: Seq<u8>, i: int)
    requires
        0 <= i <= s.len(),
    ensures
        cells_score(s.take(i)) <= cells_score(s),
    decreases s.len(),
{
    if i < s.len() {
        assert(s.drop_last().take(i) =~= s.take(i));
        lemma_score_prefix(s.drop_last(), i);
    } else {
        assert(s.take(i) =~= s);
    }
}

proof fn lemma_tile_le_score(s: Seq<u8>, i: int)
    requires
        0 <= i < s.len(),
    ensures
        tile_value(s[i]) <= cells_score(s),
    decreases s.len(),
{
    if i < s.len() - 1 {
        lemma_tile_le_score(s.drop_last(), i);
    }
}

/// On a board within the bound every exponent is at most 30.
pub proof fn lemma_tiles_small(t: Seq<u8>)
    requires
        board_ok(t),
    ensures
        forall|i: int| 0 <= i < 16 ==> #[trigger] t[i] <= 30,
{
    assert forall|i: int| 0 <= i < 16 implies #[trigger] t[i] <= 30 by {
        lemma_tile_le_score(t, i);
        lemma2_to64();
        if t[i] > 30 {
            lemma_pow2_strictly_increases(30, t[i] as nat);
        }
    }
}

proof fn lemma_line_score(a: u8, b: u8, c: u8, d: u8)
    ensures
        cells_score(seq![a, b, c, d]) == tile_value(a) + tile_value(b) + tile_value(c)
            + tile_value(d),
{
    let s = seq![a, b, c, d];
    assert(s.drop_last() =~= seq![a, b, c]);
    assert(seq![a, b, c].drop_last() =~= seq![a, b]);
    assert(seq![a, b].drop_last() =~= seq![a]);
    assert(seq![a].drop_last() =~= Seq::<u8>::empty());
    assert(cells_score(Seq::<u8>::empty()) == 0);
    assert(seq![a].len() == 1 && seq![a].last() == a);
    assert(cells_score(seq![a]) == tile_value(a));
    assert(cells_score(seq![a, b]) == tile_value(a) + tile_value(b));
    assert(cells_score(seq![a, b, c]) == tile_value(a) + tile_value(b) + tile_value(c));
}

/// Sliding one line keeps the board's score.
pub proof fn lemma_shifted_score(t: Seq<u8>, start: int, delta: int)
    requires
        t.len() == 16,
        line_fits(start, delta),
        below_max(line_at(t, start, delta)),
    ensures
        shifted(t, start, delta).len() == 16,
        board_score(shifted(t, start, delta)) == board_score(t),
{
    let l = line_at(t, start, delta);
    let s = slide(l);
    lemma_slide_score(l);
    lemma_line_score(l[0], l[1], l[2], l[3]);
    assert(s =~= seq![s[0], s[1], s[2], s[3]]);
    lemma_line_score(s[0], s[1], s[2], s[3]);
    let t1 = t.update(start, s[0]);
    let t2 = t1.update(start + delta, s[1]);
    let t3 = t2.update(start + 2 * delta, s[2]);
    lemma_score_update(t, start, s[0]);
    lemma_score_update(t1, start + delta, s[1]);
    lemma_score_update(t2, start + 2 * delta, s[2]);
    lemma_score_update(t3, start + 3 * delta, s[3]);
}

/// The line that a shift slides holds the slid tiles afterwards.
pub proof fn lemma_shifted_line(t: Seq<u8>, start: int, delta: int)
    requires
        t.len() == 16,
        line_fits(start, delta),
        below_max(line_at(t, start, delta)),
    ensures
        line_at(shifted(t, start, delta), start, delta) == slide(line_at(t, start, delta)),
{
    let l = line_at(t, start, delta);
    lemma_slide_score(l);
    assert(line_at(shifted(t, start, delta), start, delta) =~= slide(l));
}

/// On a board within the bound no cell of a line can overflow on a merge.
pub proof fn lemma_line_below_max(t: Seq<u8>, start: int, delta: int)
    requires
        board_ok(t),
        line_fits(start, delta),
    ensures
        below_max(line_at(t, start, delta)),
{
    lemma_tiles_small(t);
    assert(0 <= start + delta < 16 && 0 <= start + 2 * delta < 16);
    assert(t[start] <= 30 && t[start + delta] <= 30 && t[start + 2 * delta] <= 30 && t[start + 3
        * delta] <= 30);
}

/// Each of the four stages of a move (after 0, 1, 2 and 3 slid lines) is a
/// board within the bound, with the line slid next free of overflow.
pub proof fn lemma_move_stages(t: Seq<u8>, start: int, delta: int, stride: int)
    requires
        board_ok(t),
        lines_fit(start, delta, stride),
    ensures
        below_max(line_at(t, start, delta)),
        board_ok(shifted(t, start, delta)),
        below_max(line_at(shifted(t, start, delta), start + stride, delta)),
        board_ok(shifted(shifted(t, start, delta), start + stride, delta)),
        below_max(
            line_at(
                shifted(shifted(t, start, delta), start + stride, delta),
                start + 2 * stride,
                delta,
            ),
        ),
        board_ok(
            shifted(shifted(shifted(t, start, delta), start + stride, delta), start + 2 * stride, delta),
        ),
        below_max(
            line_at(
                shifted(
                    shifted(shifted(t, start, delta), start + stride, delta),
                    start + 2 * stride,
                    delta,
                ),
                start + 3 * stride,
                delta,
            ),
        ),
        board_ok(shifted_all(t, start, delta, stride)),
        board_score(shifted_all(t, start, delta, stride)) == board_score(t),
{
    let t1 = shifted(t, start, delta);
    let t2 = shifted(t1, start + stride, delta);
    let t3 = shifted(t2, start + 2 * stride, delta);
    lemma_line_below_max(t, start, delta);
    lemma_shifted_score(t, start, delta);
    lemma_line_below_max(t1, start + stride, delta);
    lemma_shifted_score(t1, start + stride, delta);
    lemma_line_below_max(t2, start + 2 * stride, delta);
    lemma_shifted_score(t2, start + 2 * stride, delta);
    lemma_line_below_max(t3, start + 3 * stride, delta);
    lemma_shifted_score(t3, start + 3 * stride, delta);
}

/// Sliding the four lines of a move keeps the board's score.
pub proof fn lemma_shifted_all_score(t: Seq<u8>, start: int, delta: int, stride: int)
    requires
        board_ok(t),
        lines_fit(start, delta, stride),
    ensures
        board_ok(shifted_all(t, start, delta, stride)),
        board_score(shifted_all(t, start, delta, stride)) == board_score(t),
{
    lemma_move_stages(t, start, delta, stride);
}

/// Indices, in increasing order, of the empty cells among the first `n`.
pub open spec fn blank_cells(t: Seq<u8>, n: int) -> Seq<usize>
    decreases n,
{
    if n <= 0 {
        Seq::empty()
    } else if t[n - 1] == 0 {
        blank_cells(t, n - 1).push((n - 1) as usize)
    } else {
        blank_cells(t, n - 1)
    }
}

/// Number of non-empty cells among the first `n`.
pub open spec fn filled_count(t: Seq<u8>, n: int) -> nat
    decreases n,
{
    if n <= 0 {
        0
    } else if t[n - 1] == 0 {
        filled_count(t, n - 1)
    } else {
        filled_count(t, n - 1) + 1
    }
}

/// The empty cells of a board.
pub open spec fn blanks_of(t: Seq<u8>) -> Seq<usize> {
    blank_cells(t, 16)
}

/// `blank_cells` lists exactly the empty cells among the first `n`, and with
/// the filled ones they count `n`.
pub proof fn lemma_blank_cells(t: Seq<u8>, n: int)
    requires
        0 <= n <= t.len(),
        n <= 16,
    ensures
        forall|k: int|
            0 <= k < blank_cells(t, n).len() ==> {
                let i = #[trigger] blank_cells(t, n)[k];
                0 <= i < n && t[i as int] == 0
            },
        forall|i: int| 0 <= i < n && t[i] == 0 ==> blank_cells(t, n).contains(i as usize),
        blank_cells(t, n).len() + filled_count(t, n) == n,
    decreases n,
{
    if n > 0 {
        lemma_blank_cells(t, n - 1);
        let p = blank_cells(t, n - 1);
        if t[n - 1] == 0 {
            assert(blank_cells(t, n) == p.push((n - 1) as usize));
            assert forall|k: int| 0 <= k < blank_cells(t, n).len() implies {
                let i = #[trigger] blank_cells(t, n)[k];
                0 <= i < n && t[i as int] == 0
            } by {
                if k < p.len() {
                    assert(blank_cells(t, n)[k] == p[k]);
                }
            }
            assert forall|i: int| 0 <= i < n && t[i] == 0 implies blank_cells(t, n).contains(
                i as usize,
            ) by {
                if i < n - 1 {
                    let k = choose|k: int| 0 <= k < p.len() && p[k] == i as usize;
                    assert(blank_cells(t, n)[k] == i as usize);
                } else {
                    assert(blank_cells(t, n)[p.len() as int] == i as usize);
                }
            }
        }
    }
}

/// Every listed index is an empty cell of `t`.
pub open spec fn all_blank(t: Seq<u8>, blanks: Seq<usize>) -> bool {
    forall|k: int| 0 <= k < blanks.len() ==> #[trigger] blanks[k] < 16 && t[blanks[k] as int] == 0
}

/// Board `t` after a tile of exponent 1 (`low`) or 2 is placed at `index`.
pub open spec fn placed(t: Seq<u8>, index: int, low: bool) -> Seq<u8> {
    t.update(index, if low { 1u8 } else { 2u8 })
}

/// `u` is `t` with one new tile, of exponent 1 or 2, on a cell that was empty.
pub open spec fn spawned_from(t: Seq<u8>, u: Seq<u8>) -> bool {
    exists|i: int, low: bool| 0 <= i < 16 && t[i] == 0 && u == #[trigger] placed(t, i, low)
}

/// The board after a move down (each column slides toward the bottom row).
pub open spec fn moved_down(t: Seq<u8>) -> Seq<u8> {
    shifted_all(t, 12, -4, 1)
}

/// The board after a move up.
pub open spec fn moved_up(t: Seq<u8>) -> Seq<u8> {
    shifted_all(t, 0, 4, 1)
}

/// The board after a move right.
pub open spec fn moved_right(t: Seq<u8>) -> Seq<u8> {
    shifted_all(t, 3, -1, 4)
}

/// The board after a move left.
pub open spec fn moved_left(t: Seq<u8>) -> Seq<u8> {
    shifted_all(t, 0, 1, 4)
}

/// `acc` with `m` appended when `m` differs from `t`.
pub open spec fn keep_changed(acc: Seq<Seq<u8>>, t: Seq<u8>, m: Seq<u8>) -> Seq<Seq<u8>> {
    if m != t {
        acc.push(m)
    } else {
        acc
    }
}

/// The boards that one move reaches, down, up, right and left in that order,
/// leaving out every move that changes nothing.
pub open spec fn successors(t: Seq<u8>) -> Seq<Seq<u8>> {
    keep_changed(
        keep_changed(
            keep_changed(keep_changed(Seq::empty(), t, moved_down(t)), t, moved_up(t)),
            t,
            moved_right(t),
        ),
        t,
        moved_left(t),
    )
}

/// The boards of a sequence of states.
pub open spec fn tiles_of(v: Seq<State>) -> Seq<Seq<u8>> {
    v.map_values(|s: State| s.tiles@)
}

/// The board has no empty cell.
pub open spec fn no_blank(t: Seq<u8>) -> bool {
    forall|i: int| 0 <= i < 16 ==> t[i] != 0
}

proof fn lemma_shifted_full(t: Seq<u8>, start: int, delta: int)
    requires
        board_ok(t),
        line_fits(start, delta),
        shifted(t, start, delta)[start] != 0,
        shifted(t, start, delta)[start + delta] != 0,
        shifted(t, start, delta)[start + 2 * delta] != 0,
        shifted(t, start, delta)[start + 3 * delta] != 0,
    ensures
        shifted(t, start, delta) == t,
{
    let l = line_at(t, start, delta);
    lemma_line_below_max(t, start, delta);
    lemma_slide_score(l);
    let s = slide(l);
    assert(s[0] != 0 && s[1] != 0 && s[2] != 0 && s[3] != 0);
    lemma_slide_full(l);
    assert(shifted(t, start, delta) =~= t);
}

/// A move that leaves no empty cell changed nothing: each of its lines was full
/// and held no merge.
pub proof fn lemma_full_move_unchanged(t: Seq<u8>, start: int, delta: int, stride: int)
    requires
        board_ok(t),
        (start == 12 && delta == -4 && stride == 1) || (start == 0 && delta == 4 && stride == 1)
            || (start == 3 && delta == -1 && stride == 4) || (start == 0 && delta == 1 && stride
            == 4),
        no_blank(shifted_all(t, start, delta, stride)),
    ensures
        shifted_all(t, start, delta, stride) == t,
{
    let t1 = shifted(t, start, delta);
    let t2 = shifted(t1, start + stride, delta);
    let t3 = shifted(t2, start + 2 * stride, delta);
    let t4 = shifted(t3, start + 3 * stride, delta);
    lemma_move_stages(t, start, delta, stride);
    assert(t4[start] != 0 && t4[start + delta] != 0 && t4[start + 2 * delta] != 0 && t4[start + 3
        * delta] != 0);
    lemma_shifted_full(t, start, delta);
    let s1 = start + stride;
    let s2 = start + 2 * stride;
    assert(t4[s1] != 0 && t4[s1 + delta] != 0 && t4[s1 + 2 * delta] != 0 && t4[s1 + 3 * delta]
        != 0);
    assert(t2[s1] != 0 && t2[s1 + delta] != 0 && t2[s1 + 2 * delta] != 0 && t2[s1 + 3 * delta]
        != 0);
    lemma_shifted_full(t1, s1, delta);
    assert(t4[s2] != 0 && t4[s2 + delta] != 0 && t4[s2 + 2 * delta] != 0 && t4[s2 + 3 * delta]
        != 0);
    assert(t3[s2] != 0 && t3[s2 + delta] != 0 && t3[s2 + 2 * delta] != 0 && t3[s2 + 3 * delta]
        != 0);
    lemma_shifted_full(t2, s2, delta);
    lemma_shifted_full(t3, start + 3 * stride, delta);
}

/// Every board that a move reaches has an empty cell: a move either merges two
/// tiles or slides a tile into a cell that was empty.
pub proof fn lemma_successor_has_blank(t: Seq<u8>, k: int)
    requires
        board_ok(t),
        0 <= k < successors(t).len(),
    ensures
        !no_blank(successors(t)[k]),
        blanks_of(successors(t)[k]).len() > 0,
{
    let u = successors(t)[k];
    lemma_shifted_all_score(t, 12, -4, 1);
    lemma_shifted_all_score(t, 0, 4, 1);
    lemma_shifted_all_score(t, 3, -1, 4);
    lemma_shifted_all_score(t, 0, 1, 4);
    assert(u == moved_down(t) || u == moved_up(t) || u == moved_right(t) || u == moved_left(t));
    assert(u != t);
    if no_blank(u) {
        if u == moved_down(t) {
            lemma_full_move_unchanged(t, 12, -4, 1);
        } else if u == moved_up(t) {
            lemma_full_move_unchanged(t, 0, 4, 1);
        } else if u == moved_right(t) {
            lemma_full_move_unchanged(t, 3, -1, 4);
        } else {
            lemma_full_move_unchanged(t, 0, 1, 4);
        }
    }
    let i = choose|i: int| 0 <= i < 16 && u[i] == 0;
    lemma_blank_cells(u, 16);
    assert(blanks_of(u).contains(i as usize));
}

impl State {
    /// The board's score is within `MAX_SCORE`.
    pub open spec fn wf(&self) -> bool {
        board_ok(self.tiles@)
    }

    /// Slides the line that starts at `start` and steps by `delta` toward `start`,
    /// merging equal neighbours once per pair.
    pub fn shift(&mut self, start: i32, delta: i32)
        requires
            old(self).wf(),
            line_fits(start as int, delta as int),
        ensures
            final(self).tiles@ == shifted(old(self).tiles@, start as int, delta as int),
            final(self).wf(),
            board_score(final(self).tiles@) == board_score(old(self).tiles@),
    {
        proof {
            lemma_line_below_max(self.tiles@, start as int, delta as int);
            lemma_shifted_score(self.tiles@, start as int, delta as int);
        }
        let p0 = start as usize;
        let p1 = (start + delta) as usize;
        let p2 = (start + 2 * delta) as usize;
        let p3 = (start + 3 * delta) as usize;
        let line: [u8; 4] = [self.tiles[p0], self.tiles[p1], self.tiles[p2], self.tiles[p3]];
        assert(line@ =~= line_at(self.tiles@, start as int, delta as int));
        let out = slide_line(line);
        let ghost before = self.tiles@;
        self.tiles[p0] = out[0];
        self.tiles[p1] = out[1];
        self.tiles[p2] = out[2];
        self.tiles[p3] = out[3];
        assert(self.tiles@ =~= shifted(before, start as int, delta as int));
    }

    /// Slides the four parallel lines that start at `start`, `start + start_delta`,
    /// `start + 2 * start_delta` and `start + 3 * start_delta`.
    pub fn shift_all(&mut self, start: i32, delta: i32, start_delta: i32)
        requires
            old(self).wf(),
            lines_fit(start as int, delta as int, start_delta as int),
        ensures
            final(self).tiles@ == shifted_all(
                old(self).tiles@,
                start as int,
                delta as int,
                start_delta as int,
            ),
            final(self).wf(),
            board_score(final(self).tiles@) == board_score(old(self).tiles@),
    {
        self.shift(start, delta);
        self.shift(start + start_delta, delta);
        self.shift(start + 2 * start_delta, delta);
        self.shift(start + 3 * start_delta, delta);
    }


    /// The board with every cell empty.
    pub fn empty() -> (r: State)
        ensures
            r.tiles@ == Seq::new(16, |_i: int| 0u8),
            r.wf(),
    {
        let r = State { tiles: [0u8; 16] };
        proof {
            assert(r.tiles@ =~= Seq::new(16, |_i: int| 0u8));
            crate::laws::lemma_empty_score(16);
            lemma2_to64();
        }
        r
    }

    /// Whether both boards hold the same value in every cell.
    pub fn equals(&self, other: &State) -> (r: bool)
        ensures
            r == (self.tiles@ == other.tiles@),
    {
        let mut i: usize = 0;
        while i < 16
            invariant
                i <= 16,
                forall|k: int| 0 <= k < i ==> self.tiles@[k] == other.tiles@[k],
            decreases 16 - i,
        {
            if self.tiles[i] != other.tiles[i] {
                return false;
            }
            i = i + 1;
        }
        assert(self.tiles@ =~= other.tiles@);
        true
    }

    /// Indices of the empty cells, in increasing order.
    pub fn blanks(&self) -> (r: Vec<usize>)
        ensures
            r@ == blanks_of(self.tiles@),
            all_blank(self.tiles@, r@),
    {
        proof {
            lemma_blank_cells(self.tiles@, 16);
        }
        let mut result: Vec<usize> = Vec::with_capacity(16);
        let mut index: usize = 0;
        while index < 16
            invariant
                index <= 16,
                result@ == blank_cells(self.tiles@, index as int),
            decreases 16 - index,
        {
            if self.tiles[index] == 0u8 {
                result.push(index);
            }
            index = index + 1;
        }
        result
    }

    /// Places a tile of exponent 1 (`low`) or 2 on cell `index`.
    pub fn place_tile(&mut self, index: usize, low: bool)
        requires
            index < 16,
        ensures
            final(self).tiles@ == placed(old(self).tiles@, index as int, low),
    {
        if low {
            self.tiles[index] = 1u8;
        } else {
            self.tiles[index] = 2u8;
        }
    }

    /// Places a random tile on one of `blanks`, chosen uniformly: exponent 1 with
    /// chance 9/10, else exponent 2. `blanks` must be this board's empty cells.
    pub fn add_random_value(&mut self, blanks: Vec<usize>, rng: &mut StdRng)
        requires
            all_blank(old(self).tiles@, blanks@),
            blanks@.len() > 0,
            old(self).wf(),
            board_score(old(self).tiles@) + 4 <= MAX_SCORE,
        ensures
            spawned_from(old(self).tiles@, final(self).tiles@),
            exists|k: int, low: bool|
                0 <= k < blanks@.len() && final(self).tiles@ == #[trigger] placed(
                    old(self).tiles@,
                    blanks@[k] as int,
                    low,
                ),
            final(self).wf(),
            board_score(old(self).tiles@) + 2 <= board_score(final(self).tiles@) <= board_score(
                old(self).tiles@,
            ) + 4,
    {
        let index = choose_one(&blanks, rng);
        let low = chance(rng, 9, 10);
        let ghost before = self.tiles@;
        proof {
            let k = choose|k: int| 0 <= k < blanks@.len() && blanks@[k] == index;
            assert(blanks@[k] == index);
            lemma_score_update(before, index as int, if low { 1u8 } else { 2u8 });
            lemma2_to64();
        }
        self.place_tile(index, low);
        assert(spawned_from(before, self.tiles@)) by {
            assert(0 <= index < 16 && before[index as int] == 0 && self.tiles@ == placed(
                before,
                index as int,
                low,
            ));
        }
        proof {
            let k = choose|k: int| 0 <= k < blanks@.len() && blanks@[k] == index;
            assert(self.tiles@ == placed(before, blanks@[k] as int, low));
        }
    }

    fn push_if_moved(&self, moved: State, result: &mut Vec<State>)
        requires
            moved.wf(),
            board_score(moved.tiles@) == board_score(self.tiles@),
        ensures
            tiles_of(final(result)@) == keep_changed(tiles_of(old(result)@), self.tiles@, moved.tiles@),
            forall|i: int|
                0 <= i < old(result)@.len() ==> #[trigger] final(result)@[i] == old(result)@[i],
            final(result)@.len() > old(result)@.len() ==> final(result)@.last() == moved,
            final(result)@.len() <= old(result)@.len() + 1,
    {
        if !moved.equals(self) {
            result.push(moved);
            assert(tiles_of(result@) =~= tiles_of(old(result)@).push(moved.tiles@));
        }
    }

    /// The boards that one move reaches (down, up, right, left), without those
    /// that a move leaves unchanged.
    pub fn next_states(&self) -> (r: Vec<State>)
        requires
            self.wf(),
        ensures
            tiles_of(r@) == successors(self.tiles@),
            forall|i: int|
                0 <= i < r@.len() ==> (#[trigger] r@[i]).wf() && board_score(r@[i].tiles@)
                    == board_score(self.tiles@) && blanks_of(r@[i].tiles@).len() > 0,
            forall|i: int| 0 <= i < r@.len() ==> (#[trigger] r@[i]).tiles@ != self.tiles@,
            r@.len() == 0 && (exists|i: int| 0 <= i < 16 && self.tiles@[i] != 0) ==> no_blank(
                self.tiles@,
            ) && crate::laws::no_neighbour_pair(self.tiles@),
            no_blank(self.tiles@) && crate::laws::no_neighbour_pair(self.tiles@) ==> r@.len() == 0,
    {
        let mut result: Vec<State> = Vec::with_capacity(4);
        let mut shift_down = *self;
        let mut shift_up = *self;
        let mut shift_right = *self;
        let mut shift_left = *self;
        shift_down.shift_all(12, -4, 1);
        self.push_if_moved(shift_down, &mut result);
        shift_up.shift_all(0, 4, 1);
        self.push_if_moved(shift_up, &mut result);
        shift_right.shift_all(3, -1, 4);
        self.push_if_moved(shift_right, &mut result);
        shift_left.shift_all(0, 1, 4);
        self.push_if_moved(shift_left, &mut result);
        assert(tiles_of(Seq::<State>::empty()) =~= Seq::<Seq<u8>>::empty());
        assert forall|i: int| 0 <= i < result@.len() implies blanks_of(
            (#[trigger] result@[i]).tiles@,
        ).len() > 0 by {
            assert(tiles_of(result@)[i] == result@[i].tiles@);
            lemma_successor_has_blank(self.tiles@, i);
        }
        assert forall|i: int| 0 <= i < result@.len() implies (#[trigger] result@[i]).tiles@
            != self.tiles@ by {
            assert(tiles_of(result@)[i] == result@[i].tiles@);
        }
        proof {
            assert(tiles_of(result@).len() == result@.len());
            if result@.len() == 0 && (exists|i: int| 0 <= i < 16 && self.tiles@[i] != 0) {
                crate::laws::lemma_terminal_board(self.tiles@);
            }
            if no_blank(self.tiles@) && crate::laws::no_neighbour_pair(self.tiles@) {
                crate::laws::lemma_stuck_board(self.tiles@);
            }
        }
        result
    }

    /// Sum of `2^v` over the non-empty cells.
    pub fn score(&self) -> (r: i32)
        requires
            self.wf(),
        ensures
            r as int == board_score(self.tiles@),
    {
        proof {
            lemma_tiles_small(self.tiles@);
            lemma2_to64();
        }
        let mut result: i32 = 0;
        let mut i: usize = 0;
        while i < 16
            invariant
                i <= 16,
                self.wf(),
                forall|k: int| 0 <= k < 16 ==> #[trigger] self.tiles@[k] <= 30,
                pow2(30) == 1073741824,
                result as int == cells_score(self.tiles@.take(i as int)),
            decreases 16 - i,
        {
            let val = self.tiles[i];
            proof {
                assert(self.tiles@.take(i + 1).drop_last() =~= self.tiles@.take(i as int));
                lemma_score_prefix(self.tiles@, i + 1);
            }
            if val != 0 {
                proof {
                    if val < 30 {
                        lemma_pow2_strictly_increases(val as nat, 30);
                    }
                    lemma_u32_shl_is_mul(1u32, val as u32);
                }
                let w: u32 = 1u32 << (val as u32);
                result = result + w as i32;
            }
            i = i + 1;
        }
        assert(self.tiles@.take(16) =~= self.tiles@);
        result
    }
}

} // verus!
