use vstd::arithmetic::power2::{pow2, lemma_pow2_adds};
use vstd::prelude::*;

verus! {

/// The value that a cell of exponent `v` contributes to a score.
pub open spec fn tile_value(v: u8) -> nat {
    if v == 0 {
        0
    } else {
        pow2(v as nat)
    }
}

/// Sum of the tile values of a sequence of cells.
pub open spec fn cells_score(s: Seq<u8>) -> nat
    decreases s.len(),
{
    if s.len() == 0 {
        0
    } else {
        cells_score(s.drop_last()) + tile_value(s.last())
    }
}

/// Walks a line from its near edge, compacting tiles and merging each tile into
/// the previous output tile when both are equal and the previous one is still
/// "open". Returns the written tiles and the open marker (0 when none is open).
/// A merge closes the marker, so three equal tiles merge only the first two.
pub open spec fn slide_scan(s: Seq<u8>) -> (Seq<u8>, u8)
    decreases s.len(),
{
    if s.len() == 0 {
        (Seq::empty(), 0u8)
    } else {
        let (out, mark) = slide_scan(s.drop_last());
        let v = s.last();
        if v == 0 {
            (out, mark)
        } else if mark == v {
            (out.update(out.len() - 1, (v + 1) as u8), 0u8)
        } else {
            (out.push(v), v)
        }
    }
}

/// A line after a move toward its near edge: the scanned tiles, then empty cells.
pub open spec fn slide(s: Seq<u8>) -> Seq<u8> {
    let out = slide_scan(s).0;
    out + Seq::new((s.len() - out.len()) as nat, |_i: int| 0u8)
}

/// No cell holds the largest exponent, so a merge cannot overflow.
pub open spec fn below_max(s: Seq<u8>) -> bool {
    forall|i: int| 0 <= i < s.len() ==> s[i] < 255
}

/// The scan writes at most one tile per cell read, writes no empty cell, and
/// its open marker is the last written tile.
pub proof fn lemma_slide_scan_shape(s: Seq<u8>)
    requires
        below_max(s),
    ensures
        slide_scan(s).0.len() <= s.len(),
        slide_scan(s).1 != 0 ==> slide_scan(s).0.len() > 0 && slide_scan(s).0.last()
            == slide_scan(s).1,
        slide_scan(s).1 < 255,
        forall|i: int| 0 <= i < slide_scan(s).0.len() ==> slide_scan(s).0[i] != 0,
    decreases s.len(),
{
    if s.len() > 0 {
        lemma_slide_scan_shape(s.drop_last());
    }
}


proof fn lemma_cells_score_push(s: Seq<u8>, v: u8)
    ensures
        cells_score(s.push(v)) == cells_score(s) + tile_value(v),
{
    assert(s.push(v).drop_last() =~= s);
}

proof fn lemma_cells_score_zeros(s: Seq<u8>, n: nat)
    ensures
        cells_score(s + Seq::new(n, |_i: int| 0u8)) == cells_score(s),
    decreases n,
{
    if n > 0 {
        let z = Seq::new(n, |_i: int| 0u8);
        let z1 = Seq::new((n - 1) as nat, |_i: int| 0u8);
        assert((s + z).drop_last() =~= s + z1);
        lemma_cells_score_zeros(s, (n - 1) as nat);
    }
}

/// Sliding a line keeps the sum of its tile values: a merge turns `2^v + 2^v`
/// into `2^(v+1)`.
pub proof fn lemma_slide_scan_score(s: Seq<u8>)
    requires
        below_max(s),
    ensures
        cells_score(slide_scan(s).0) == cells_score(s),
    decreases s.len(),
{
    if s.len() > 0 {
        let p = s.drop_last();
        lemma_slide_scan_score(p);
        lemma_slide_scan_shape(p);
        let (out, mark) = slide_scan(p);
        let v = s.last();
        if v == 0 {
        } else if mark == v {
            let n = out.len() - 1;
            let o2 = out.update(n, (v + 1) as u8);
            assert(o2.drop_last() =~= out.drop_last());
            assert(pow2((v + 1) as nat) == pow2(v as nat) + pow2(v as nat)) by {
                lemma_pow2_adds(v as nat, 1);
                vstd::arithmetic::power2::lemma2_to64();
            }
        } else {
            lemma_cells_score_push(out, v);
        }
    }
}

/// A slid line keeps its length and the sum of its tile values.
pub proof fn lemma_slide_score(s: Seq<u8>)
    requires
        below_max(s),
    ensures
        cells_score(slide(s)) == cells_score(s),
        slide(s).len() == s.len(),
{
    lemma_slide_scan_shape(s);
    lemma_slide_scan_score(s);
    let out = slide_scan(s).0;
    lemma_cells_score_zeros(out, (s.len() - out.len()) as nat);
}

/// A line whose slide keeps as many tiles as it has cells held no empty cell
/// and no merge: the slide left it as it was.
pub proof fn lemma_slide_scan_full(s: Seq<u8>)
    requires
        below_max(s),
        slide_scan(s).0.len() == s.len(),
    ensures
        slide_scan(s).0 == s,
        s.len() > 0 ==> slide_scan(s).1 == s.last(),
        no_pair(s),
    decreases s.len(),
{
    if s.len() > 0 {
        let p = s.drop_last();
        lemma_slide_scan_shape(p);
        let (out, mark) = slide_scan(p);
        let v = s.last();
        if v == 0 || mark == v {
            assert(false);
        }
        lemma_slide_scan_full(p);
        assert(out.push(v) =~= s);
        assert forall|i: int| 0 <= i < s.len() - 1 && #[trigger] s[i] != 0 implies s[i] != s[i + 1] by {
            if i < s.len() - 2 {
                assert(p[i] == s[i] && p[i + 1] == s[i + 1]);
            }
        }
    }
}

/// Empty cells come only after every tile.
pub open spec fn compact(s: Seq<u8>) -> bool {
    forall|i: int, j: int| 0 <= i < j < s.len() && s[i] == 0 ==> s[j] == 0
}

/// No tile has an equal tile right after it.
pub open spec fn no_pair(s: Seq<u8>) -> bool {
    forall|i: int| 0 <= i < s.len() - 1 && #[trigger] s[i] != 0 ==> s[i] != s[i + 1]
}

/// A slid line holds its tiles first, then its empty cells.
pub proof fn lemma_slide_compact(s: Seq<u8>)
    requires
        below_max(s),
    ensures
        compact(slide(s)),
{
    lemma_slide_scan_shape(s);
}

/// A line with its tiles first and no two equal neighbours is left as it is.
pub proof fn lemma_slide_settled(s: Seq<u8>)
    requires
        below_max(s),
        compact(s),
        no_pair(s),
    ensures
        slide(s) == s,
{
    lemma_scan_settled(s);
    lemma_slide_scan_shape(s);
    assert(slide(s) =~= s);
}

proof fn lemma_scan_settled(s: Seq<u8>)
    requires
        below_max(s),
        compact(s),
        no_pair(s),
    ensures
        slide_scan(s).0 == s.take(slide_scan(s).0.len() as int),
        forall|i: int| slide_scan(s).0.len() <= i < s.len() ==> s[i] == 0,
        slide_scan(s).1 == (if slide_scan(s).0.len() > 0 {
            slide_scan(s).0.last()
        } else {
            0u8
        }),
    decreases s.len(),
{
    if s.len() > 0 {
        let p = s.drop_last();
        assert(compact(p) && no_pair(p)) by {
            assert forall|i: int| 0 <= i < p.len() - 1 && #[trigger] p[i] != 0 implies p[i] != p[i + 1] by {
                assert(s[i] == p[i] && s[i + 1] == p[i + 1]);
            }
        }
        lemma_scan_settled(p);
        lemma_slide_scan_shape(p);
        let (out, mark) = slide_scan(p);
        let v = s.last();
        let n = s.len() - 1;
        if v != 0 {
            assert(out.len() == n) by {
                if out.len() < n {
                    assert(p[out.len() as int] == 0);
                    assert(s[out.len() as int] == 0);
                }
            }
            if n > 0 {
                assert(s[n - 1] != 0);
                assert(mark == s[n - 1]);
            }
            assert(slide_scan(s).0 =~= s.take(slide_scan(s).0.len() as int));
        } else {
            assert(out =~= s.take(out.len() as int));
        }
    }
}

pub proof fn lemma_slide_full(s: Seq<u8>)
    requires
        below_max(s),
        forall|i: int| 0 <= i < s.len() ==> slide(s)[i] != 0,
    ensures
        slide(s) == s,
{
    lemma_slide_scan_shape(s);
    let out = slide_scan(s).0;
    if out.len() < s.len() {
        assert(slide(s)[out.len() as int] == 0);
    }
    lemma_slide_scan_full(s);
    assert(slide(s) =~= s);
}

/// A line that a slide leaves as it is has its tiles first; when it is full,
/// no two neighbours are equal.
pub proof fn lemma_slide_fixed(s: Seq<u8>)
    requires
        below_max(s),
        slide(s) == s,
    ensures
        compact(s),
        (forall|i: int| 0 <= i < s.len() ==> s[i] != 0) ==> no_pair(s),
{
    lemma_slide_compact(s);
    lemma_slide_scan_shape(s);
    if forall|i: int| 0 <= i < s.len() ==> s[i] != 0 {
        let out = slide_scan(s).0;
        if out.len() < s.len() {
            assert(slide(s)[out.len() as int] == 0);
        }
        lemma_slide_scan_full(s);
    }
}

/// Slides one line of four cells toward index 0.
pub fn slide_line(line: [u8; 4]) -> (r: [u8; 4])
    requires
        below_max(line@),
    ensures
        r@ == slide(line@),
{
    let mut out: [u8; 4] = [0u8; 4];
    let mut target: usize = 0;
    let mut mark: u8 = 0;
    let mut j: usize = 0;
    while j < 4
        invariant
            j <= 4,
            below_max(line@),
            target <= j,
            target == slide_scan(line@.take(j as int)).0.len(),
            out@.take(target as int) == slide_scan(line@.take(j as int)).0,
            mark == slide_scan(line@.take(j as int)).1,
            forall|k: int| target <= k < 4 ==> out@[k] == 0,
        decreases 4 - j,
    {
        let ghost pre = line@.take(j as int);
        proof {
            lemma_slide_scan_shape(pre);
            assert(line@.take(j + 1).drop_last() =~= pre);
        }
        let v = line[j];
        if v == 0 {
        } else if mark == v {
            out[target - 1] = v + 1;
            mark = 0;
            proof {
                assert(out@.take(target as int) =~= slide_scan(line@.take(j + 1)).0);
            }
        } else {
            out[target] = v;
            target = target + 1;
            mark = v;
            proof {
                assert(out@.take(target as int) =~= slide_scan(line@.take(j + 1)).0);
            }
        }
        j = j + 1;
    }
    proof {
        assert(line@.take(4) =~= line@);
        lemma_slide_scan_shape(line@);
        assert(out@ =~= slide(line@));
    }
    out
}

} // verus!
