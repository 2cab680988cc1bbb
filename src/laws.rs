use crate::board::{
    blanks_of, board_ok, filled_count, lemma_blank_cells, lemma_line_below_max,
    lemma_move_stages, lemma_shifted_all_score, lemma_shifted_line, line_at, no_blank, shifted, shifted_all,
    successors, moved_down, moved_left, moved_right, moved_up,
};
use crate::line::{
    cells_score, compact, lemma_slide_compact, lemma_slide_fixed, lemma_slide_settled, no_pair,
    slide,
};
use vstd::arithmetic::power2::lemma_pow2_pos;
use vstd::prelude::*;

verus! {

/// One of the four moves: down, up, right or left, as (first line's start,
/// step along a line, step from line to line).
pub open spec fn is_move(start: int, delta: int, stride: int) -> bool {
    (start == 12 && delta == -4 && stride == 1) || (start == 0 && delta == 4 && stride == 1) || (
    start == 3 && delta == -1 && stride == 4) || (start == 0 && delta == 1 && stride == 4)
}

/// No line of the move holds two equal tiles side by side.
pub open spec fn lines_settled(t: Seq<u8>, start: int, delta: int, stride: int) -> bool {
    no_pair(line_at(t, start, delta)) && no_pair(line_at(t, start + stride, delta)) && no_pair(
        line_at(t, start + 2 * stride, delta),
    ) && no_pair(line_at(t, start + 3 * stride, delta))
}

/// After a move every line of that move has its tiles first.
proof fn lemma_moved_lines_compact(t: Seq<u8>, start: int, delta: int, stride: int)
    requires
        board_ok(t),
        is_move(start, delta, stride),
    ensures
        compact(line_at(shifted_all(t, start, delta, stride), start, delta)),
        compact(line_at(shifted_all(t, start, delta, stride), start + stride, delta)),
        compact(line_at(shifted_all(t, start, delta, stride), start + 2 * stride, delta)),
        compact(line_at(shifted_all(t, start, delta, stride), start + 3 * stride, delta)),
{
    let s1 = start + stride;
    let s2 = start + 2 * stride;
    let s3 = start + 3 * stride;
    let t1 = shifted(t, start, delta);
    let t2 = shifted(t1, s1, delta);
    let t3 = shifted(t2, s2, delta);
    let u = shifted(t3, s3, delta);
    lemma_move_stages(t, start, delta, stride);
    lemma_slide_compact(line_at(t, start, delta));
    lemma_slide_compact(line_at(t1, s1, delta));
    lemma_slide_compact(line_at(t2, s2, delta));
    lemma_slide_compact(line_at(t3, s3, delta));
    lemma_shifted_line(t, start, delta);
    lemma_shifted_line(t1, s1, delta);
    lemma_shifted_line(t2, s2, delta);
    lemma_shifted_line(t3, s3, delta);
    assert(line_at(t2, start, delta) =~= line_at(t1, start, delta));
    assert(line_at(t3, start, delta) =~= line_at(t2, start, delta));
    assert(line_at(u, start, delta) =~= line_at(t3, start, delta));
    assert(line_at(t3, s1, delta) =~= line_at(t2, s1, delta));
    assert(line_at(u, s1, delta) =~= line_at(t3, s1, delta));
    assert(line_at(u, s2, delta) =~= line_at(t3, s2, delta));
    assert(line_at(u, s2, delta) =~= slide(line_at(t2, s2, delta)));
    assert(line_at(u, s3, delta) =~= slide(line_at(t3, s3, delta)));
}

proof fn lemma_shifted_same(t: Seq<u8>, start: int, delta: int)
    requires
        board_ok(t),
        0 <= start < 16,
        0 <= start + 3 * delta < 16,
        delta != 0,
        slide(line_at(t, start, delta)) == line_at(t, start, delta),
    ensures
        shifted(t, start, delta) == t,
{
    assert(shifted(t, start, delta) =~= t);
}

/// Making a move a second time right away changes nothing, provided the first
/// time left no two equal tiles side by side along the move (those would merge
/// on the second pass).
pub proof fn lemma_move_twice(t: Seq<u8>, start: int, delta: int, stride: int)
    requires
        board_ok(t),
        is_move(start, delta, stride),
        lines_settled(shifted_all(t, start, delta, stride), start, delta, stride),
    ensures
        shifted_all(shifted_all(t, start, delta, stride), start, delta, stride) == shifted_all(
            t,
            start,
            delta,
            stride,
        ),
{
    let u = shifted_all(t, start, delta, stride);
    lemma_shifted_all_score(t, start, delta, stride);
    lemma_moved_lines_compact(t, start, delta, stride);
    let s1 = start + stride;
    let s2 = start + 2 * stride;
    let s3 = start + 3 * stride;
    lemma_line_below_max(u, start, delta);
    lemma_line_below_max(u, s1, delta);
    lemma_line_below_max(u, s2, delta);
    lemma_line_below_max(u, s3, delta);
    lemma_slide_settled(line_at(u, start, delta));
    lemma_slide_settled(line_at(u, s1, delta));
    lemma_slide_settled(line_at(u, s2, delta));
    lemma_slide_settled(line_at(u, s3, delta));
    lemma_shifted_same(u, start, delta);
    lemma_shifted_same(u, s1, delta);
    lemma_shifted_same(u, s2, delta);
    lemma_shifted_same(u, s3, delta);
}


/// A move that leaves the board as it is leaves each of its lines as it is.
proof fn lemma_still_move_lines(t: Seq<u8>, start: int, delta: int, stride: int)
    requires
        board_ok(t),
        is_move(start, delta, stride),
        shifted_all(t, start, delta, stride) == t,
    ensures
        slide(line_at(t, start, delta)) == line_at(t, start, delta),
        slide(line_at(t, start + stride, delta)) == line_at(t, start + stride, delta),
        slide(line_at(t, start + 2 * stride, delta)) == line_at(t, start + 2 * stride, delta),
        slide(line_at(t, start + 3 * stride, delta)) == line_at(t, start + 3 * stride, delta),
{
    let s1 = start + stride;
    let s2 = start + 2 * stride;
    let s3 = start + 3 * stride;
    let t1 = shifted(t, start, delta);
    let t2 = shifted(t1, s1, delta);
    let t3 = shifted(t2, s2, delta);
    let u = shifted(t3, s3, delta);
    lemma_move_stages(t, start, delta, stride);
    lemma_shifted_line(t, start, delta);
    lemma_shifted_line(t1, s1, delta);
    lemma_shifted_line(t2, s2, delta);
    lemma_shifted_line(t3, s3, delta);
    assert(line_at(t2, start, delta) =~= line_at(t1, start, delta));
    assert(line_at(t3, start, delta) =~= line_at(t2, start, delta));
    assert(line_at(u, start, delta) =~= line_at(t3, start, delta));
    lemma_shifted_same(t, start, delta);
    assert(line_at(t3, s1, delta) =~= line_at(t2, s1, delta));
    assert(line_at(u, s1, delta) =~= line_at(t3, s1, delta));
    lemma_shifted_same(t1, s1, delta);
    assert(line_at(u, s2, delta) =~= line_at(t3, s2, delta));
    lemma_shifted_same(t2, s2, delta);
}

/// Row `r` of a board, left to right.
pub open spec fn row(t: Seq<u8>, r: int) -> Seq<u8> {
    line_at(t, 4 * r, 1)
}

/// Column `c` of a board, top to bottom.
pub open spec fn column(t: Seq<u8>, c: int) -> Seq<u8> {
    line_at(t, c, 4)
}

/// No two equal tiles sit side by side in any row or column.
pub open spec fn no_neighbour_pair(t: Seq<u8>) -> bool {
    forall|k: int| 0 <= k < 4 ==> no_pair(#[trigger] row(t, k)) && no_pair(column(t, k))
}

/// Four cells that are all empty or all filled.
pub open spec fn uniform(a: u8, b: u8, c: u8, d: u8) -> bool {
    (a == 0 && b == 0 && c == 0 && d == 0) || (a != 0 && b != 0 && c != 0 && d != 0)
}

proof fn lemma_both_ways_compact(t: Seq<u8>, start: int, delta: int)
    requires
        board_ok(t),
        0 <= start < 16,
        0 <= start + 3 * delta < 16,
        delta != 0,
        slide(line_at(t, start, delta)) == line_at(t, start, delta),
        slide(line_at(t, start + 3 * delta, -delta)) == line_at(t, start + 3 * delta, -delta),
    ensures
        uniform(t[start], t[start + delta], t[start + 2 * delta], t[start + 3 * delta]),
        t[start] != 0 ==> no_pair(line_at(t, start, delta)),
{
    let l = line_at(t, start, delta);
    let m = line_at(t, start + 3 * delta, -delta);
    lemma_line_below_max(t, start, delta);
    lemma_line_below_max(t, start + 3 * delta, -delta);
    lemma_slide_fixed(l);
    lemma_slide_fixed(m);
    assert(l[0] == 0 ==> l[1] == 0 && l[2] == 0 && l[3] == 0);
    assert(l[1] == 0 ==> l[2] == 0 && l[3] == 0);
    assert(l[2] == 0 ==> l[3] == 0);
    assert(m[0] == 0 ==> m[1] == 0 && m[2] == 0 && m[3] == 0);
    assert(m[1] == 0 ==> m[2] == 0 && m[3] == 0);
    assert(m[2] == 0 ==> m[3] == 0);
}

/// A board where no move changes anything, and that holds a tile, is full and
/// has no two equal tiles side by side in any row or column. (The empty board
/// also admits no move, but it is not full.)
pub proof fn lemma_terminal_board(t: Seq<u8>)
    requires
        board_ok(t),
        successors(t).len() == 0,
        exists|i: int| 0 <= i < 16 && t[i] != 0,
    ensures
        no_blank(t),
        no_neighbour_pair(t),
{
    assert(moved_down(t) == t && moved_up(t) == t && moved_right(t) == t && moved_left(t) == t);
    lemma_still_move_lines(t, 12, -4, 1);
    lemma_still_move_lines(t, 0, 4, 1);
    lemma_still_move_lines(t, 3, -1, 4);
    lemma_still_move_lines(t, 0, 1, 4);
    lemma_both_ways_compact(t, 0, 4);
    lemma_both_ways_compact(t, 1, 4);
    lemma_both_ways_compact(t, 2, 4);
    lemma_both_ways_compact(t, 3, 4);
    lemma_both_ways_compact(t, 0, 1);
    lemma_both_ways_compact(t, 4, 1);
    lemma_both_ways_compact(t, 8, 1);
    lemma_both_ways_compact(t, 12, 1);
    let j = choose|j: int| 0 <= j < 16 && t[j] != 0;
    assert forall|i: int| 0 <= i < 16 implies t[i] != 0 by {
        assert(t[j] != 0);
    }
    assert forall|k: int| 0 <= k < 4 implies no_pair(#[trigger] row(t, k)) && no_pair(
        column(t, k),
    ) by {
        assert(t[4 * k] != 0 && t[k] != 0);
    }
}


/// Every cell is either empty, and then listed by `blanks`, or filled: the two
/// counts add up to 16.
pub proof fn lemma_blanks_and_filled(t: Seq<u8>)
    requires
        t.len() == 16,
    ensures
        blanks_of(t).len() + filled_count(t, 16) == 16,
{
    lemma_blank_cells(t, 16);
}

/// The all-empty board scores 0.
pub proof fn lemma_empty_score(n: nat)
    ensures
        cells_score(Seq::new(n, |_i: int| 0u8)) == 0,
    decreases n,
{
    if n > 0 {
        assert(Seq::new(n, |_i: int| 0u8).drop_last() =~= Seq::new((n - 1) as nat, |_i: int| 0u8));
        lemma_empty_score((n - 1) as nat);
    }
}

/// Filling empty cells, with every tile already there kept, never lowers the
/// score, and filling at least one raises it.
pub proof fn lemma_score_grows(t: Seq<u8>, u: Seq<u8>)
    requires
        t.len() == u.len(),
        forall|i: int| 0 <= i < t.len() && t[i] != 0 ==> u[i] == t[i],
    ensures
        cells_score(t) <= cells_score(u),
        (exists|i: int| 0 <= i < t.len() && t[i] == 0 && u[i] != 0) ==> cells_score(t)
            < cells_score(u),
    decreases t.len(),
{
    if t.len() > 0 {
        let n = t.len() - 1;
        lemma_score_grows(t.drop_last(), u.drop_last());
        if u[n] != 0 {
            lemma_pow2_pos(u[n] as nat);
        }
        if exists|i: int| 0 <= i < t.len() && t[i] == 0 && u[i] != 0 {
            let i = choose|i: int| 0 <= i < t.len() && t[i] == 0 && u[i] != 0;
            if i < n {
                assert(t.drop_last()[i] == 0 && u.drop_last()[i] != 0);
            }
        }
    }
}


proof fn lemma_full_line_settled(t: Seq<u8>, start: int, delta: int)
    requires
        board_ok(t),
        no_blank(t),
        0 <= start < 16,
        0 <= start + 3 * delta < 16,
        delta != 0,
        no_pair(line_at(t, start, delta)),
    ensures
        slide(line_at(t, start, delta)) == line_at(t, start, delta),
        slide(line_at(t, start + 3 * delta, -delta)) == line_at(t, start + 3 * delta, -delta),
{
    let l = line_at(t, start, delta);
    let m = line_at(t, start + 3 * delta, -delta);
    lemma_line_below_max(t, start, delta);
    lemma_line_below_max(t, start + 3 * delta, -delta);
    assert(t[start] != 0 && t[start + delta] != 0 && t[start + 2 * delta] != 0 && t[start + 3
        * delta] != 0);
    assert(l[0] != l[1] && l[1] != l[2] && l[2] != l[3]) by {
        assert(l[0] != 0 && l[1] != 0 && l[2] != 0);
    }
    assert(no_pair(m)) by {
        assert forall|i: int| 0 <= i < m.len() - 1 && #[trigger] m[i] != 0 implies m[i] != m[i + 1] by {
            if i == 0 {
                assert(m[0] == l[3] && m[1] == l[2]);
            } else if i == 1 {
                assert(m[1] == l[2] && m[2] == l[1]);
            } else {
                assert(m[2] == l[1] && m[3] == l[0]);
            }
        }
    }
    lemma_slide_settled(l);
    lemma_slide_settled(m);
}

proof fn lemma_settled_move_still(t: Seq<u8>, start: int, delta: int, stride: int)
    requires
        board_ok(t),
        is_move(start, delta, stride),
        slide(line_at(t, start, delta)) == line_at(t, start, delta),
        slide(line_at(t, start + stride, delta)) == line_at(t, start + stride, delta),
        slide(line_at(t, start + 2 * stride, delta)) == line_at(t, start + 2 * stride, delta),
        slide(line_at(t, start + 3 * stride, delta)) == line_at(t, start + 3 * stride, delta),
    ensures
        shifted_all(t, start, delta, stride) == t,
{
    lemma_shifted_same(t, start, delta);
    lemma_shifted_same(t, start + stride, delta);
    lemma_shifted_same(t, start + 2 * stride, delta);
    lemma_shifted_same(t, start + 3 * stride, delta);
}

/// A full board with no two equal tiles side by side in any row or column
/// admits no move.
pub proof fn lemma_stuck_board(t: Seq<u8>)
    requires
        board_ok(t),
        no_blank(t),
        no_neighbour_pair(t),
    ensures
        successors(t).len() == 0,
{
    assert(no_pair(row(t, 0)) && no_pair(row(t, 1)) && no_pair(row(t, 2)) && no_pair(row(t, 3)));
    assert(no_pair(column(t, 0)) && no_pair(column(t, 1)) && no_pair(column(t, 2)) && no_pair(
        column(t, 3),
    ));
    lemma_full_line_settled(t, 0, 1);
    lemma_full_line_settled(t, 4, 1);
    lemma_full_line_settled(t, 8, 1);
    lemma_full_line_settled(t, 12, 1);
    lemma_full_line_settled(t, 0, 4);
    lemma_full_line_settled(t, 1, 4);
    lemma_full_line_settled(t, 2, 4);
    lemma_full_line_settled(t, 3, 4);
    lemma_settled_move_still(t, 12, -4, 1);
    lemma_settled_move_still(t, 0, 4, 1);
    lemma_settled_move_still(t, 3, -1, 4);
    lemma_settled_move_still(t, 0, 1, 4);
}

} // verus!
