use vstd::prelude::*;
use crate::deduce::number_of;
use crate::grid::{is_number_pos, is_point_pos, lemma_offset_kind, lemma_potential_same};
use crate::random::{chance_quarter_halved, random_below};
use rand::rngs::ThreadRng;
use crate::rotation::P_ALL;
use crate::stage::{lemma_area_bounds, lemma_wf_keep, SolvingStage, MAX_CELLS, MAX_SIDE};

verus! {

/// `b` has `rows` rows of `cols` flags.
pub open spec fn blocks_shaped(b: Seq<Vec<bool>>, rows: int, cols: int) -> bool {
    &&& b.len() == rows
    &&& forall|i: int| 0 <= i < rows ==> #[trigger] b[i]@.len() == cols
}

/// Whether cell `(r, c)` belongs to the region `b`; cells off the board do not.
pub open spec fn block_in(b: Seq<Vec<bool>>, rows: int, cols: int, r: int, c: int) -> bool {
    if r < 0 || r >= rows || c < 0 || c >= cols {
        false
    } else {
        b[r]@[c]
    }
}

/// Row offset of the `i`-th of the eight cells around a cell, clockwise from the
/// upper-left one.
pub open spec fn around_dr(i: int) -> int {
    if i == 0 || i == 1 || i == 2 {
        -1
    } else if i == 3 || i == 7 {
        0
    } else {
        1
    }
}

/// Column offset of the `i`-th of the eight cells around a cell.
pub open spec fn around_dc(i: int) -> int {
    if i == 0 || i == 6 || i == 7 {
        -1
    } else if i == 1 || i == 5 {
        0
    } else {
        1
    }
}

/// Whether the `i`-th cell around `(r, c)` belongs to the region.
pub open spec fn around_in(b: Seq<Vec<bool>>, rows: int, cols: int, r: int, c: int, i: int) -> bool {
    block_in(b, rows, cols, r + around_dr(i), c + around_dc(i))
}

/// Going round `(r, c)`, the first `n` steps that leave the region.
pub open spec fn switches(b: Seq<Vec<bool>>, rows: int, cols: int, r: int, c: int, n: int) -> int
    decreases n,
{
    if n <= 0 {
        0
    } else {
        switches(b, rows, cols, r, c, n - 1) + if around_in(b, rows, cols, r, c, n - 1)
            && !around_in(b, rows, cols, r, c, (n - 1 + 1) % 8) {
            1int
        } else {
            0
        }
    }
}

/// Among the first `n` cells around `(r, c)`, those sharing a side with it that belong
/// to the region.
pub open spec fn sharing(b: Seq<Vec<bool>>, rows: int, cols: int, r: int, c: int, n: int) -> int
    decreases n,
{
    if n <= 0 {
        0
    } else {
        sharing(b, rows, cols, r, c, n - 1) + if around_in(b, rows, cols, r, c, n - 1) && (n - 1)
            % 2 == 1 {
            1int
        } else {
            0
        }
    }
}

/// How many times cell `(r, c)` is put forward to join the region: never when it
/// belongs already, or when the region around it is not one run; three times when it
/// touches the region by one side, once when by two, never when by more.
pub open spec fn pick_weight(b: Seq<Vec<bool>>, rows: int, cols: int, r: int, c: int) -> nat {
    if block_in(b, rows, cols, r, c) || switches(b, rows, cols, r, c, 8) != 1 {
        0
    } else if sharing(b, rows, cols, r, c, 8) == 1 {
        3
    } else if sharing(b, rows, cols, r, c, 8) == 2 {
        1
    } else {
        0
    }
}

/// The candidates of the first `n` cells of row `r`, each repeated by its weight.
pub open spec fn cand_row(b: Seq<Vec<bool>>, rows: int, cols: int, r: isize, n: int) -> Seq<
    (isize, isize),
>
    decreases n,
{
    if n <= 0 {
        Seq::empty()
    } else {
        cand_row(b, rows, cols, r, n - 1) + Seq::new(
            pick_weight(b, rows, cols, r as int, n - 1),
            |k: int| (r, (n - 1) as isize),
        )
    }
}

/// The candidates of the first `m` rows.
pub open spec fn cand_rows(b: Seq<Vec<bool>>, rows: int, cols: int, m: int) -> Seq<(isize, isize)>
    decreases m,
{
    if m <= 0 {
        Seq::empty()
    } else {
        cand_rows(b, rows, cols, m - 1) + cand_row(b, rows, cols, (m - 1) as isize, cols)
    }
}

/// The cells put forward to join the region, in row-major order, after `(-1, -1)`,
/// which stands for stopping, when `stop` is set.
pub open spec fn candidates(b: Seq<Vec<bool>>, rows: int, cols: int, stop: bool) -> Seq<
    (isize, isize),
> {
    (if stop {
        seq![(-1isize, -1isize)]
    } else {
        Seq::empty()
    }) + cand_rows(b, rows, cols, rows)
}

/// One if cell `(r, c)` and its neighbour at `(dr, dc)` lie on opposite sides of the
/// region's border.
pub open spec fn differs(b: Seq<Vec<bool>>, rows: int, cols: int, r: int, c: int, dr: int, dc: int) -> int {
    if block_in(b, rows, cols, r, c) != block_in(b, rows, cols, r + dr, c + dc) {
        1
    } else {
        0
    }
}

/// How many sides of cell `(r, c)` lie on the border of the region.
pub open spec fn border_count(b: Seq<Vec<bool>>, rows: int, cols: int, r: int, c: int) -> int {
    differs(b, rows, cols, r, c, -1, 0) + differs(b, rows, cols, r, c, 1, 0) + differs(
        b,
        rows,
        cols,
        r,
        c,
        0,
        -1,
    ) + differs(b, rows, cols, r, c, 0, 1)
}

/// Every clue of `s` counts the sides of its cell on the border of the region `b`.
pub open spec fn clues_match(s: SolvingStage, b: Seq<Vec<bool>>) -> bool {
    forall|r: int, c: int|
        0 <= r < s.size_r && 0 <= c < s.size_c ==> #[trigger] number_of(s, r, c) == -1
            || number_of(s, r, c) == border_count(b, s.size_r as int, s.size_c as int, r, c)
}

/// How many of the first `n` cells of row `r` hold a clue.
pub open spec fn row_clues(s: SolvingStage, r: int, n: int) -> int
    decreases n,
{
    if n <= 0 {
        0
    } else {
        row_clues(s, r, n - 1) + if number_of(s, r, n - 1) != -1 {
            1int
        } else {
            0
        }
    }
}

/// How many cells of the first `m` rows hold a clue.
pub open spec fn rows_clues(s: SolvingStage, m: int) -> int
    decreases m,
{
    if m <= 0 {
        0
    } else {
        rows_clues(s, m - 1) + row_clues(s, m - 1, s.size_c as int)
    }
}

/// How many cells of the board hold a clue.
pub open spec fn clue_count(s: SolvingStage) -> int {
    rows_clues(s, s.size_r as int)
}

proof fn lemma_row_clues_le(d: SolvingStage, s: SolvingStage, r: int, n: int, wc: int)
    requires
        0 <= n,
        forall|c: int| 0 <= c < n && #[trigger] number_of(d, r, c) != -1 ==> number_of(s, r, c) != -1,
    ensures
        row_clues(d, r, n) <= row_clues(s, r, n),
        0 <= wc < n && number_of(d, r, wc) == -1 && number_of(s, r, wc) != -1 ==> row_clues(d, r, n)
            < row_clues(s, r, n),
    decreases n,
{
    if n > 0 {
        lemma_row_clues_le(d, s, r, n - 1, wc);
        if number_of(d, r, n - 1) != -1 {
            assert(number_of(s, r, n - 1) != -1);
        }
    }
}

proof fn lemma_rows_clues_le(d: SolvingStage, s: SolvingStage, m: int, wr: int, wc: int)
    requires
        0 <= m,
        d.size_c == s.size_c,
        s.size_c >= 0,
        forall|r: int, c: int|
            0 <= r < m && 0 <= c < s.size_c && #[trigger] number_of(d, r, c) != -1 ==> number_of(s, r, c) != -1,
    ensures
        rows_clues(d, m) <= rows_clues(s, m),
        0 <= wr < m && 0 <= wc < s.size_c && number_of(d, wr, wc) == -1 && number_of(s, wr, wc) != -1
            ==> rows_clues(d, m) < rows_clues(s, m),
    decreases m,
{
    if m > 0 {
        lemma_rows_clues_le(d, s, m - 1, wr, wc);
        assert forall|c: int| 0 <= c < s.size_c && #[trigger] number_of(d, m - 1, c) != -1 implies number_of(s, m - 1, c) != -1 by {
        }
        lemma_row_clues_le(d, s, m - 1, s.size_c as int, if wr == m - 1 { wc } else { -1 });
    }
}

/// Dropping clues, at least one of them, leaves fewer clues.
pub proof fn lemma_fewer_clues(d: SolvingStage, s: SolvingStage, wr: int, wc: int)
    requires
        d.size_r == s.size_r,
        d.size_c == s.size_c,
        s.size_c >= 0,
        forall|r: int, c: int|
            0 <= r < s.size_r && 0 <= c < s.size_c ==> #[trigger] number_of(d, r, c) == -1
                || number_of(d, r, c) == number_of(s, r, c),
        0 <= wr < s.size_r,
        0 <= wc < s.size_c,
        number_of(d, wr, wc) == -1,
        number_of(s, wr, wc) != -1,
    ensures
        clue_count(d) < clue_count(s),
{
    assert forall|r: int, c: int|
        0 <= r < s.size_r && 0 <= c < s.size_c && #[trigger] number_of(d, r, c) != -1 implies number_of(s, r, c) != -1 by {
    }
    lemma_rows_clues_le(d, s, s.size_r as int, wr, wc);
}

/// A board has no fewer than zero clues.
pub proof fn lemma_clues_nonneg(s: SolvingStage, m: int)
    requires
        0 <= m,
    ensures
        rows_clues(s, m) >= 0,
    decreases m,
{
    if m > 0 {
        lemma_clues_nonneg(s, m - 1);
        lemma_row_clues_nonneg(s, m - 1, s.size_c as int);
    }
}

proof fn lemma_row_clues_nonneg(s: SolvingStage, r: int, n: int)
    ensures
        row_clues(s, r, n) >= 0,
    decreases n,
{
    if n > 0 {
        lemma_row_clues_nonneg(s, r, n - 1);
    }
}

/// Whether the cell `(r + dr, c + dc)` belongs to the region.
fn block_at(blocks: &Vec<Vec<bool>>, size_r: isize, size_c: isize, r: isize, c: isize, dr: isize, dc: isize) -> (res: bool)
    requires
        blocks_shaped(blocks@, size_r as int, size_c as int),
        0 <= size_r <= MAX_SIDE,
        0 <= size_c <= MAX_SIDE,
        -1 <= r <= MAX_SIDE + 1,
        -1 <= c <= MAX_SIDE + 1,
        -1 <= dr <= 1,
        -1 <= dc <= 1,
    ensures
        res == block_in(blocks@, size_r as int, size_c as int, r + dr, c + dc),
{
    if r + dr < 0 || r + dr >= size_r || c + dc < 0 || c + dc >= size_c {
        false
    } else {
        blocks[(r + dr) as usize][(c + dc) as usize]
    }
}

/// The offsets of the `i`-th cell around a cell.
fn around_offset(i: usize) -> (res: (isize, isize))
    requires
        i < 8,
    ensures
        res.0 == around_dr(i as int),
        res.1 == around_dc(i as int),
{
    if i == 0 {
        (-1, -1)
    } else if i == 1 {
        (-1, 0)
    } else if i == 2 {
        (-1, 1)
    } else if i == 3 {
        (0, 1)
    } else if i == 4 {
        (1, 1)
    } else if i == 5 {
        (1, 0)
    } else if i == 6 {
        (1, -1)
    } else {
        (0, -1)
    }
}

/// Whether the `i`-th cell around `(r, c)` belongs to the region.
fn block_around_at(blocks: &Vec<Vec<bool>>, size_r: isize, size_c: isize, r: isize, c: isize, i: usize) -> (res: bool)
    requires
        blocks_shaped(blocks@, size_r as int, size_c as int),
        0 <= size_r <= MAX_SIDE,
        0 <= size_c <= MAX_SIDE,
        0 <= r < size_r,
        0 <= c < size_c,
        i < 8,
    ensures
        res == around_in(blocks@, size_r as int, size_c as int, r as int, c as int, i as int),
{
    let (dr, dc) = around_offset(i);
    block_at(blocks, size_r, size_c, r, c, dr, dc)
}

/// How many times cell `(r, c)` is put forward to join the region.
fn weight_of(blocks: &Vec<Vec<bool>>, size_r: isize, size_c: isize, r: isize, c: isize) -> (w: usize)
    requires
        blocks_shaped(blocks@, size_r as int, size_c as int),
        0 <= size_r <= MAX_SIDE,
        0 <= size_c <= MAX_SIDE,
        0 <= r < size_r,
        0 <= c < size_c,
    ensures
        w == pick_weight(blocks@, size_r as int, size_c as int, r as int, c as int),
{
    let ghost b = blocks@;
    if blocks[r as usize][c as usize] {
        return 0;
    }
    let mut switch_count: usize = 0;
    let mut sharing_count: usize = 0;
    let mut i1: usize = 0;
    while i1 < 8
        invariant
            blocks_shaped(b, size_r as int, size_c as int),
            blocks@ == b,
            0 <= size_r <= MAX_SIDE,
            0 <= size_c <= MAX_SIDE,
            0 <= r < size_r,
            0 <= c < size_c,
            0 <= i1 <= 8,
            switch_count == switches(b, size_r as int, size_c as int, r as int, c as int, i1 as int),
            sharing_count == sharing(b, size_r as int, size_c as int, r as int, c as int, i1 as int),
            switch_count <= i1,
            sharing_count <= i1,
        decreases 8 - i1,
    {
        let i2: usize = (i1 + 1) % 8;
        if block_around_at(blocks, size_r, size_c, r, c, i1) {
            if i1 % 2 == 1 {
                sharing_count += 1;
            }
            if !block_around_at(blocks, size_r, size_c, r, c, i2) {
                switch_count += 1;
            }
        }
        i1 = i1 + 1;
    }
    if switch_count == 1 {
        if sharing_count == 1 {
            3
        } else if sharing_count == 2 {
            1
        } else {
            0
        }
    } else {
        0
    }
}

/// Every candidate of row `r` is a cell of that row among the first `n`.
#[verifier::spinoff_prover]
proof fn lemma_cand_row_cells(b: Seq<Vec<bool>>, rows: int, cols: int, r: isize, n: int)
    requires
        0 <= n <= MAX_SIDE,
    ensures
        forall|k: int|
            #![trigger cand_row(b, rows, cols, r, n)[k]]
            0 <= k < cand_row(b, rows, cols, r, n).len() ==> cand_row(b, rows, cols, r, n)[k].0 == r
                && 0 <= cand_row(b, rows, cols, r, n)[k].1 < n && pick_weight(
                b,
                rows,
                cols,
                r as int,
                cand_row(b, rows, cols, r, n)[k].1 as int,
            ) > 0,
    decreases n,
{
    if n <= 0 {
        assert(cand_row(b, rows, cols, r, n).len() == 0);
    } else {
        lemma_cand_row_cells(b, rows, cols, r, n - 1);
        let prev = cand_row(b, rows, cols, r, n - 1);
        let all = cand_row(b, rows, cols, r, n);
        assert forall|k: int| 0 <= k < all.len() implies #[trigger] all[k].0 == r && 0 <= all[k].1
            < n && pick_weight(b, rows, cols, r as int, all[k].1 as int) > 0 by {
            if k < prev.len() {
                assert(all[k] == prev[k]);
            } else {
                let w = pick_weight(b, rows, cols, r as int, n - 1);
                let tail = Seq::new(w, |j: int| (r, (n - 1) as isize));
                assert(all == prev + tail);
                assert(0 <= k - prev.len() < w);
                assert(all[k] == tail[k - prev.len()]);
                assert(all[k] == (r, (n - 1) as isize));
                assert((n - 1) as isize == n - 1);
                assert(w > 0);
            }
        }

    }
}

/// Every candidate of the first `m` rows is a cell of the board.
proof fn lemma_cand_rows_cells(b: Seq<Vec<bool>>, rows: int, cols: int, m: int)
    requires
        0 <= m <= MAX_SIDE,
        0 <= cols <= MAX_SIDE,
    ensures
        forall|k: int|
            0 <= k < cand_rows(b, rows, cols, m).len() ==> 0 <= #[trigger] cand_rows(
                b,
                rows,
                cols,
                m,
            )[k].0 < m && 0 <= cand_rows(b, rows, cols, m)[k].1 < cols && pick_weight(
                b,
                rows,
                cols,
                cand_rows(b, rows, cols, m)[k].0 as int,
                cand_rows(b, rows, cols, m)[k].1 as int,
            ) > 0,
    decreases m,
{
    if m > 0 {
        lemma_cand_rows_cells(b, rows, cols, m - 1);
        lemma_cand_row_cells(b, rows, cols, (m - 1) as isize, cols);
        let prev = cand_rows(b, rows, cols, m - 1);
        let row = cand_row(b, rows, cols, (m - 1) as isize, cols);
        let all = cand_rows(b, rows, cols, m);
        assert forall|k: int| 0 <= k < all.len() implies 0 <= #[trigger] all[k].0 < m && 0 <= all[k].1
            < cols && pick_weight(b, rows, cols, all[k].0 as int, all[k].1 as int) > 0 by {
            if k < prev.len() {
                assert(all[k] == prev[k]);
            } else {
                assert(all[k] == row[k - prev.len()]);
            }
        }
    }
}

/// The cells put forward to join the region `blocks`, each as many times as its weight,
/// in row-major order, after the stopping mark `(-1, -1)` when `stop` is set.
fn block_candidates(blocks: &Vec<Vec<bool>>, size_r: isize, size_c: isize, stop: bool) -> (res: Vec<
    (isize, isize),
>)
    requires
        blocks_shaped(blocks@, size_r as int, size_c as int),
        0 <= size_r <= MAX_SIDE,
        0 <= size_c <= MAX_SIDE,
    ensures
        res@ == candidates(blocks@, size_r as int, size_c as int, stop),
{
    let ghost b = blocks@;
    let ghost rows = size_r as int;
    let ghost cols = size_c as int;
    let mut candidacy: Vec<(isize, isize)> = Vec::new();
    if stop {
        candidacy.push((-1, -1));
    }
    let ghost head = candidacy@;
    proof {
        assert(head =~= (if stop {
            seq![(-1isize, -1isize)]
        } else {
            Seq::empty()
        }));
    }
    let mut r: isize = 0;
    while r < size_r
        invariant
            blocks_shaped(b, rows, cols),
            blocks@ == b,
            rows == size_r,
            cols == size_c,
            0 <= size_r <= MAX_SIDE,
            0 <= size_c <= MAX_SIDE,
            0 <= r <= size_r,
            candidacy@ == head + cand_rows(b, rows, cols, r as int),
            head == (if stop {
                seq![(-1isize, -1isize)]
            } else {
                Seq::empty()
            }),
        decreases size_r - r,
    {
        let mut c: isize = 0;
        while c < size_c
            invariant
                blocks_shaped(b, rows, cols),
                blocks@ == b,
                rows == size_r,
                cols == size_c,
                0 <= size_r <= MAX_SIDE,
                0 <= size_c <= MAX_SIDE,
                0 <= r < size_r,
                0 <= c <= size_c,
                candidacy@ == head + cand_rows(b, rows, cols, r as int) + cand_row(
                    b,
                    rows,
                    cols,
                    r,
                    c as int,
                ),
            decreases size_c - c,
        {
            let w = weight_of(blocks, size_r, size_c, r, c);
            let ghost start = candidacy@;
            let mut k: usize = 0;
            while k < w
                invariant
                    0 <= k <= w,
                    w <= 3,
                    candidacy@ == start + Seq::new(k as nat, |i: int| (r, c)),
                decreases w - k,
            {
                candidacy.push((r, c));
                k = k + 1;
                proof {
                    assert(candidacy@ =~= start + Seq::new(k as nat, |i: int| (r, c)));
                }
            }
            proof {
                assert(cand_row(b, rows, cols, r, c + 1) =~= cand_row(b, rows, cols, r, c as int)
                    + Seq::new(w as nat, |i: int| (r, c)));
                assert(candidacy@ =~= head + cand_rows(b, rows, cols, r as int) + cand_row(
                    b,
                    rows,
                    cols,
                    r,
                    c + 1,
                ));
            }
            c = c + 1;
        }
        proof {
            assert(candidacy@ =~= head + cand_rows(b, rows, cols, r + 1));
        }
        r = r + 1;
    }
    candidacy
}

/// Adds the drawn candidate `pick` to the region, or reports the stopping mark
/// `(-1, -1)`: the result is whether the region grew.
fn take_pick(blocks: &mut Vec<Vec<bool>>, size_r: isize, size_c: isize, pick: (isize, isize)) -> (grown: bool)
    requires
        blocks_shaped(old(blocks)@, size_r as int, size_c as int),
        pick == (-1isize, -1isize) || (0 <= pick.0 < size_r && 0 <= pick.1 < size_c),
    ensures
        blocks_shaped(final(blocks)@, size_r as int, size_c as int),
        grown == (pick.0 != -1),
        !grown ==> final(blocks)@ == old(blocks)@,
        grown ==> final(blocks)@[pick.0 as int]@[pick.1 as int],
        forall|r: int, c: int|
            #![trigger final(blocks)@[r]@[c]]
            0 <= r < size_r && 0 <= c < size_c && !(r == pick.0 && c == pick.1) ==> final(blocks)@[r]@[c]
                == old(blocks)@[r]@[c],
{
    let (tr, tc) = pick;
    if tr == -1 {
        return false;
    }
    let ghost before = blocks@;
    blocks[tr as usize][tc as usize] = true;
    proof {
        assert forall|i: int| 0 <= i < size_r implies #[trigger] blocks@[i]@.len() == size_c by {
            if i != tr {
                assert(blocks@[i] == before[i]);
            }
        }
        assert forall|r: int, c: int|
            0 <= r < size_r && 0 <= c < size_c && !(r == tr && c == tc) implies #[trigger] blocks@[r]@[c]
            == before[r]@[c] by {
            if r != tr {
                assert(blocks@[r] == before[r]);
            }
        }
    }
    true
}

/// Grows the region `blocks` one cell at a time: at each of `size_r * size_c * 2 / 3`
/// rounds a cell is drawn among the candidates (after `size_r * size_c / 2` rounds the
/// stopping mark is among them too); growth stops when the mark is drawn or no cell is
/// put forward.
pub(crate) fn grow_blocks(blocks: &mut Vec<Vec<bool>>, size_r: isize, size_c: isize, rng: &mut ThreadRng)
    requires
        blocks_shaped(old(blocks)@, size_r as int, size_c as int),
        0 <= size_r <= MAX_SIDE,
        0 <= size_c <= MAX_SIDE,
        (2 * size_r + 1) * (2 * size_c + 1) <= MAX_CELLS,
    ensures
        blocks_shaped(final(blocks)@, size_r as int, size_c as int),
        forall|r: int, c: int|
            #![trigger final(blocks)@[r]@[c]]
            0 <= r < size_r && 0 <= c < size_c && old(blocks)@[r]@[c] ==> final(blocks)@[r]@[c],
        size_r * size_c * 2 / 3 > 0 && candidates(old(blocks)@, size_r as int, size_c as int, false).len()
            > 0 ==> exists|r: int, c: int|
            0 <= r < size_r && 0 <= c < size_c && pick_weight(old(blocks)@, size_r as int, size_c as int, r, c)
                > 0 && #[trigger] final(blocks)@[r]@[c],
{
    proof {
        lemma_area_bounds(size_r as int, size_c as int);
        assert(size_r * size_c >= 0) by (nonlinear_arith)
            requires
                0 <= size_r,
                0 <= size_c,
        ;
    }
    let min_blocks = size_r * size_c / 2;
    let max_blocks = size_r * size_c * 2 / 3;
    let ghost b0 = old(blocks)@;
    let ghost goal = max_blocks > 0 && candidates(b0, size_r as int, size_c as int, false).len() > 0;
    let ghost mut found = false;
    let ghost mut witness: (int, int) = (0, 0);
    let mut iter: isize = 0;
    while iter < max_blocks
        invariant
            blocks_shaped(blocks@, size_r as int, size_c as int),
            0 <= size_r <= MAX_SIDE,
            0 <= size_c <= MAX_SIDE,
            0 <= iter,
            0 <= min_blocks,
            b0 == old(blocks)@,
            goal == (max_blocks > 0 && candidates(b0, size_r as int, size_c as int, false).len() > 0),
            forall|r: int, c: int|
                #![trigger blocks@[r]@[c]]
                0 <= r < size_r && 0 <= c < size_c && old(blocks)@[r]@[c] ==> blocks@[r]@[c],
            !found ==> iter == 0 && blocks@ == b0,
            found ==> 0 <= witness.0 < size_r && 0 <= witness.1 < size_c && pick_weight(b0, size_r as int, size_c as int, witness.0, witness.1) > 0
                && blocks@[witness.0]@[witness.1],
        ensures
            blocks_shaped(blocks@, size_r as int, size_c as int),
            forall|r: int, c: int|
                #![trigger blocks@[r]@[c]]
                0 <= r < size_r && 0 <= c < size_c && old(blocks)@[r]@[c] ==> blocks@[r]@[c],
            goal ==> found,
            found ==> 0 <= witness.0 < size_r && 0 <= witness.1 < size_c && pick_weight(b0, size_r as int, size_c as int, witness.0, witness.1) > 0
                && blocks@[witness.0]@[witness.1],
        decreases max_blocks - iter,
    {
        let candidacy = block_candidates(blocks, size_r, size_c, iter > min_blocks);
        if candidacy.len() == 0 {
            proof {
                if !found {
                    assert(candidacy@ =~= candidates(b0, size_r as int, size_c as int, false));
                }
            }
            break;
        }
        let rand_index = random_below(rng, candidacy.len());
        let pick = candidacy[rand_index];
        let (tr, tc) = pick;
        proof {
            if !found {
                lemma_cand_rows_cells(b0, size_r as int, size_c as int, size_r as int);
                assert(candidacy@ =~= cand_rows(b0, size_r as int, size_c as int, size_r as int));
                assert(tr >= 0);
            }
        }
        proof {
            lemma_cand_rows_cells(blocks@, size_r as int, size_c as int, size_r as int);
            let head: Seq<(isize, isize)> = if iter > min_blocks {
                seq![(-1isize, -1isize)]
            } else {
                Seq::empty()
            };
            if rand_index >= head.len() {
                assert(candidacy@[rand_index as int] == cand_rows(
                    blocks@,
                    size_r as int,
                    size_c as int,
                    size_r as int,
                )[rand_index - head.len()]);
            } else {
                assert(candidacy@[rand_index as int] == head[rand_index as int]);
            }
        }
        let ghost before = blocks@;
        let grown = take_pick(blocks, size_r, size_c, pick);
        if !grown {
            break;
        }
        proof {
            assert forall|r: int, c: int|
                0 <= r < size_r && 0 <= c < size_c && old(blocks)@[r]@[c] implies #[trigger] blocks@[r]@[c] by {
                assert(before[r]@[c]);
            }
            if !found {
                lemma_cand_rows_cells(b0, size_r as int, size_c as int, size_r as int);
                assert(candidacy@ =~= cand_rows(b0, size_r as int, size_c as int, size_r as int));
                found = true;
                witness = (tr as int, tc as int);
            } else {
                let (wr, wc) = witness;
                assert(before[wr]@[wc]);
                assert(blocks@[wr]@[wc]);
            }
        }
        iter = iter + 1;
    }
    proof {
        if goal {
            let (wr, wc) = witness;
            assert(blocks@[wr]@[wc]);
        }
    }
}

impl SolvingStage {
    /// Writes into every cell the number of its sides on the border of the region
    /// `blocks`.
    pub(crate) fn number_blocks(&mut self, blocks: &Vec<Vec<bool>>)
        requires
            old(self).wf(),
            blocks_shaped(blocks@, old(self).size_r as int, old(self).size_c as int),
        ensures
            final(self).wf(),
            final(self).size_r == old(self).size_r,
            final(self).size_c == old(self).size_c,
            final(self).score == old(self).score,
            final(self).result == old(self).result,
            final(self).pot() == old(self).pot(),
            forall|i: int, j: int|
                #![trigger final(self).at(i, j)]
                old(self).in_grid(i, j) ==> final(self).at(i, j) == if is_number_pos(i, j) {
                    border_count(
                        blocks@,
                        old(self).size_r as int,
                        old(self).size_c as int,
                        (i - 1) / 2,
                        (j - 1) / 2,
                    ) as i8
                } else {
                    old(self).at(i, j)
                },
    {
        let ghost o = *self;
        let ghost b = blocks@;
        let size_r = self.size_r;
        let size_c = self.size_c;
        let mut r: isize = 0;
        while r < size_r
            invariant
                o.wf(),
                self.wf(),
                blocks@ == b,
                blocks_shaped(b, o.size_r as int, o.size_c as int),
                size_r == o.size_r,
                size_c == o.size_c,
                self.size_r == o.size_r,
                self.size_c == o.size_c,
                self.score == o.score,
                self.result == o.result,
                self.pot() == o.pot(),
                0 <= r <= size_r,
                forall|i: int, j: int|
                    #![trigger self.at(i, j)]
                    o.in_grid(i, j) ==> self.at(i, j) == if is_number_pos(i, j) && (i - 1) / 2
                        < r {
                        border_count(b, o.size_r as int, o.size_c as int, (i - 1) / 2, (j - 1) / 2) as i8
                    } else {
                        o.at(i, j)
                    },
            decreases size_r - r,
        {
            let mut c: isize = 0;
            while c < size_c
                invariant
                    o.wf(),
                    self.wf(),
                    blocks@ == b,
                    blocks_shaped(b, o.size_r as int, o.size_c as int),
                    size_r == o.size_r,
                    size_c == o.size_c,
                    self.size_r == o.size_r,
                    self.size_c == o.size_c,
                    self.score == o.score,
                    self.result == o.result,
                    self.pot() == o.pot(),
                    0 <= r < size_r,
                    0 <= c <= size_c,
                    forall|i: int, j: int|
                        #![trigger self.at(i, j)]
                        o.in_grid(i, j) ==> self.at(i, j) == if is_number_pos(i, j) && ((i - 1)
                            / 2 < r || ((i - 1) / 2 == r && (j - 1) / 2 < c)) {
                            border_count(b, o.size_r as int, o.size_c as int, (i - 1) / 2, (j - 1) / 2) as i8
                        } else {
                            o.at(i, j)
                        },
                decreases size_c - c,
            {
                let center = block_at(blocks, size_r, size_c, r, c, 0, 0);
                let mut count: i8 = 0;
                if center != block_at(blocks, size_r, size_c, r, c, -1, 0) {
                    count += 1;
                }
                if center != block_at(blocks, size_r, size_c, r, c, 1, 0) {
                    count += 1;
                }
                if center != block_at(blocks, size_r, size_c, r, c, 0, -1) {
                    count += 1;
                }
                if center != block_at(blocks, size_r, size_c, r, c, 0, 1) {
                    count += 1;
                }
                assert(count == border_count(b, o.size_r as int, o.size_c as int, r as int, c as int));
                let ghost before = *self;
                let rr = (r * 2 + 1) as usize;
                let cc = (c * 2 + 1) as usize;
                self.stage[rr][cc] = count;
                proof {
                    lemma_offset_kind(r as int, c as int, 0, 0);
                    crate::grid::lemma_potential_update(before.stage@, self.stage@, rr as int, cc as int, count);
                    assert forall|i: int| 0 <= i < self.stage@.len() implies #[trigger] self.stage@[i]@.len()
                        == before.stage@[i]@.len() by {
                        if i != rr {
                            assert(self.stage@[i] == before.stage@[i]);
                        }
                    }
                    lemma_wf_keep(before, *self);
                    assert forall|i: int, j: int| #![trigger self.at(i, j)] o.in_grid(i, j) implies self.at(
                        i,
                        j,
                    ) == if is_number_pos(i, j) && ((i - 1) / 2 < r || ((i - 1) / 2 == r && (j - 1)
                        / 2 < c + 1)) {
                        border_count(b, o.size_r as int, o.size_c as int, (i - 1) / 2, (j - 1) / 2) as i8
                    } else {
                        o.at(i, j)
                    } by {
                        if i != rr {
                            assert(self.stage@[i] == before.stage@[i]);
                        }
                        if i == rr && j == cc {
                            assert((i - 1) / 2 == r && (j - 1) / 2 == c);
                        } else {
                            assert(self.at(i, j) == before.at(i, j));
                        }
                    }
                }
                c = c + 1;
            }
            r = r + 1;
        }
    }
}

/// The clue a cell keeps on the copy after its draw: an empty cell stays empty, and a
/// clue is dropped (made `-1`) exactly when the draw says so.
fn clue_after_draw(n: i8, drop: bool) -> (v: i8)
    ensures
        v == if n != -1 && drop {
            -1i8
        } else {
            n
        },
{
    if n != -1 && drop {
        -1
    } else {
        n
    }
}

/// A copy of the clues of `stage` on a fresh board, each clue dropped with probability
/// `2^-(k + 2)`; `None` when no clue was dropped.
#[verifier::spinoff_prover]
pub(crate) fn get_dropped_stage(stage: &SolvingStage, k: u32, rng: &mut ThreadRng) -> (res: Option<SolvingStage>)
    requires
        stage.wf(),
    ensures
        res matches Some(d) ==> {
            &&& d.wf()
            &&& d.size_r == stage.size_r
            &&& d.size_c == stage.size_c
            &&& d.score == 0
            &&& forall|r: int, c: int|
                0 <= r < stage.size_r && 0 <= c < stage.size_c ==> #[trigger] number_of(d, r, c)
                    == -1 || number_of(d, r, c) == number_of(*stage, r, c)
            &&& exists|r: int, c: int|
                0 <= r < stage.size_r && 0 <= c < stage.size_c && #[trigger] number_of(d, r, c)
                    == -1 && number_of(*stage, r, c) != -1
        },
{
    let mut dropped_stage = SolvingStage::new(stage.size_r, stage.size_c);
    let mut dropped = false;
    let ghost mut witness: (int, int) = (0, 0);
    let mut r: isize = 0;
    while r < stage.size_r
        invariant
            stage.wf(),
            dropped_stage.wf(),
            dropped_stage.size_r == stage.size_r,
            dropped_stage.size_c == stage.size_c,
            dropped_stage.score == 0,
            0 <= r <= stage.size_r,
            forall|i: int, j: int|
                0 <= i < stage.size_r && 0 <= j < stage.size_c ==> #[trigger] number_of(
                    dropped_stage,
                    i,
                    j,
                ) == -1 || number_of(dropped_stage, i, j) == number_of(*stage, i, j),
            dropped ==> 0 <= witness.0 < stage.size_r && 0 <= witness.1 < stage.size_c
                && number_of(dropped_stage, witness.0, witness.1) == -1 && number_of(*stage,
                witness.0,
                witness.1,
            ) != -1,
            dropped ==> witness.0 < r,
        decreases stage.size_r - r,
    {
        let mut c: isize = 0;
        while c < stage.size_c
            invariant
                stage.wf(),
                dropped_stage.wf(),
                dropped_stage.size_r == stage.size_r,
                dropped_stage.size_c == stage.size_c,
                dropped_stage.score == 0,
                0 <= r < stage.size_r,
                0 <= c <= stage.size_c,
                forall|i: int, j: int|
                    0 <= i < stage.size_r && 0 <= j < stage.size_c ==> #[trigger] number_of(
                        dropped_stage,
                        i,
                        j,
                    ) == -1 || number_of(dropped_stage, i, j) == number_of(*stage, i, j),
                dropped ==> 0 <= witness.0 < stage.size_r && 0 <= witness.1 < stage.size_c
                    && number_of(dropped_stage, witness.0, witness.1) == -1 && number_of(*stage,
                    witness.0,
                    witness.1,
                ) != -1,
                dropped ==> witness.0 < r || (witness.0 == r && witness.1 < c),
            decreases stage.size_c - c,
        {
            proof {
                lemma_offset_kind(r as int, c as int, 0, 0);
            }
            let n = stage.cell(r * 2 + 1, c * 2 + 1);
            let ghost was_dropped = dropped;
            let ghost old_witness = witness;
            let drop = n != -1 && chance_quarter_halved(rng, k);
            let value = clue_after_draw(n, drop);
            if value != n {
                dropped = true;
                proof {
                    witness = (r as int, c as int);
                }
            }
            let ghost before = dropped_stage;
            let rr = (r * 2 + 1) as usize;
            let cc = (c * 2 + 1) as usize;
            dropped_stage.stage[rr][cc] = value;
            proof {
                assert forall|i: int| 0 <= i < dropped_stage.stage@.len() implies #[trigger] dropped_stage.stage@[i]@.len()
                    == before.stage@[i]@.len() by {
                    if i != rr {
                        assert(dropped_stage.stage@[i] == before.stage@[i]);
                    }
                }
                lemma_wf_keep(before, dropped_stage);
                assert forall|i: int, j: int|
                    0 <= i < stage.size_r && 0 <= j < stage.size_c implies #[trigger] number_of(
                    dropped_stage,
                    i,
                    j,
                ) == -1 || number_of(dropped_stage, i, j) == number_of(*stage, i, j) by {
                    lemma_offset_kind(i, j, 0, 0);
                    if 2 * i + 1 != rr {
                        assert(dropped_stage.stage@[2 * i + 1] == before.stage@[2 * i + 1]);
                    }
                    if !(i == r && j == c) {
                        assert(number_of(dropped_stage, i, j) == number_of(before, i, j));
                    }
                }
                if dropped {
                    let (wi, wj) = witness;
                    lemma_offset_kind(wi, wj, 0, 0);
                    if 2 * wi + 1 != rr {
                        assert(dropped_stage.stage@[2 * wi + 1] == before.stage@[2 * wi + 1]);
                    }
                    if wi == r && wj == c {
                        assert(witness != old_witness || !was_dropped);
                        assert(value == -1);
                    } else {
                        assert(number_of(dropped_stage, wi, wj) == number_of(before, wi, wj));
                    }
                }
            }
            c = c + 1;
        }
        r = r + 1;
    }
    if dropped {
        proof {
            let (wi, wj) = witness;
            assert(number_of(dropped_stage, wi, wj) == -1);
        }
        Some(dropped_stage)
    } else {
        None
    }
}

} // verus!
