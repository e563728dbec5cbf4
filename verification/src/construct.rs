use vstd::prelude::*;
use crate::grid::{is_point_pos, lemma_potential_nonneg};
use crate::rotation::P_ALL;
use crate::stage::{lemma_area_bounds, SolvingStage, MAX_CELLS, MAX_SIDE};

verus! {

/// The positions `(r, 0), ..., (r, w - 1)` of one row, tagged with `flag`.
pub open spec fn row_positions(r: int, w: int, flag: bool) -> Seq<(isize, isize, bool)> {
    Seq::new(w as nat, |c: int| (r as isize, c as isize, flag))
}

/// The positions of the rows `0 .. h` of width `w`, row after row, tagged with `flag`.
pub open spec fn grid_positions(h: int, w: int, flag: bool) -> Seq<(isize, isize, bool)>
    decreases h,
{
    if h <= 0 {
        Seq::empty()
    } else {
        grid_positions(h - 1, w, flag) + row_positions(h - 1, w, flag)
    }
}

/// The cells `(r, c)` with `r < h` and `c < w`, row after row.
pub open spec fn grid_cells(h: int, w: int) -> Seq<(isize, isize)>
    decreases h,
{
    if h <= 0 {
        Seq::empty()
    } else {
        grid_cells(h - 1, w) + Seq::new(w as nat, |c: int| ((h - 1) as isize, c as isize))
    }
}

/// Appends the positions of row `r`, `0 .. w`, tagged with `flag`.
fn push_row_positions(out: &mut Vec<(isize, isize, bool)>, r: isize, w: isize, flag: bool)
    requires
        0 <= w,
    ensures
        final(out)@ == old(out)@ + row_positions(r as int, w as int, flag),
{
    let mut c: isize = 0;
    while c < w
        invariant
            0 <= c <= w,
            out@ == old(out)@ + Seq::new(c as nat, |j: int| (r as isize, j as isize, flag)),
        decreases w - c,
    {
        out.push((r, c, flag));
        c = c + 1;
        proof {
            assert(out@ =~= old(out)@ + Seq::new(c as nat, |j: int| (r as isize, j as isize, flag)));
        }
    }
    proof {
        assert(out@ =~= old(out)@ + row_positions(r as int, w as int, flag));
    }
}

/// Appends the positions of rows `0 .. h` of width `w`, tagged with `flag`.
fn push_grid_positions(out: &mut Vec<(isize, isize, bool)>, h: isize, w: isize, flag: bool)
    requires
        0 <= h,
        0 <= w,
    ensures
        final(out)@ == old(out)@ + grid_positions(h as int, w as int, flag),
{
    let mut r: isize = 0;
    proof {
        assert(out@ =~= old(out)@ + grid_positions(0, w as int, flag));
    }
    while r < h
        invariant
            0 <= r <= h,
            0 <= w,
            out@ == old(out)@ + grid_positions(r as int, w as int, flag),
        decreases h - r,
    {
        push_row_positions(out, r, w, flag);
        proof {
            assert(grid_positions(r + 1, w as int, flag) == grid_positions(r as int, w as int, flag)
                + row_positions(r as int, w as int, flag));
            assert(out@ =~= old(out)@ + grid_positions(r + 1, w as int, flag));
        }
        r = r + 1;
    }
}

/// The cells of rows `0 .. h` and columns `0 .. w`, row after row.
fn cells_of(h: isize, w: isize) -> (res: Vec<(isize, isize)>)
    requires
        0 <= h,
        0 <= w,
    ensures
        res@ == grid_cells(h as int, w as int),
{
    let mut nums: Vec<(isize, isize)> = Vec::new();
    let mut r: isize = 0;
    proof {
        assert(nums@ =~= grid_cells(0, w as int));
    }
    while r < h
        invariant
            0 <= r <= h,
            0 <= w,
            nums@ == grid_cells(r as int, w as int),
        decreases h - r,
    {
        let ghost before = nums@;
        let mut c: isize = 0;
        while c < w
            invariant
                0 <= c <= w,
                0 <= r < h,
                nums@ == before + Seq::new(c as nat, |j: int| (r, j as isize)),
            decreases w - c,
        {
            nums.push((r, c));
            c = c + 1;
            proof {
                assert(nums@ =~= before + Seq::new(c as nat, |j: int| (r, j as isize)));
            }
        }
        proof {
            assert(nums@ =~= grid_cells(r + 1, w as int));
        }
        r = r + 1;
    }
    nums
}

impl SolvingStage {
    /// An empty board of `size_r` by `size_c` cells: no numbers, no decided line,
    /// every point allowing every shape, every cell a region of its own labelled
    /// `r * size_c + c + 2`, nothing examined, no contradiction and no score.
    pub fn new(size_r: isize, size_c: isize) -> (res: SolvingStage)
        requires
            0 <= size_r,
            0 <= size_c,
            (2 * size_r + 1) * (2 * size_c + 1) <= MAX_CELLS,
        ensures
            res.wf(),
            res.size_r == size_r,
            res.size_c == size_c,
            res.result,
            res.score == 0,
            forall|r: int, c: int|
                #![trigger res.at(r, c)]
                res.in_grid(r, c) ==> res.at(r, c) == if is_point_pos(r, c) {
                    P_ALL
                } else {
                    -1i8
                },
            forall|i: int, j: int|
                #![trigger res.group_at(i, j)]
                0 <= i < size_r && 0 <= j < size_c ==> res.group_at(i, j) == i * size_c + j + 2,
            forall|i: int, j: int|
                #![trigger res.checked_at(i, j)]
                0 <= i < size_r && 0 <= j < size_c ==> res.checked_at(i, j) == 0,
    {
        proof {
            lemma_area_bounds(size_r as int, size_c as int);
        }
        let rows = size_r * 2 + 1;
        let cols = size_c * 2 + 1;
        let mut stage: Vec<Vec<i8>> = Vec::new();
        let mut i: isize = 0;
        while i < rows
            invariant
                0 <= i <= rows,
                rows == size_r * 2 + 1,
                cols == size_c * 2 + 1,
                0 <= size_c <= MAX_SIDE,
                stage@.len() == i,
                forall|a: int| 0 <= a < i ==> #[trigger] stage@[a]@.len() == cols,
                forall|a: int, b: int|
                    0 <= a < i && 0 <= b < cols ==> #[trigger] stage@[a]@[b] == if is_point_pos(
                        a,
                        b,
                    ) {
                        P_ALL
                    } else {
                        -1i8
                    },
            decreases rows - i,
        {
            let mut row: Vec<i8> = Vec::new();
            let mut j: isize = 0;
            while j < cols
                invariant
                    0 <= j <= cols,
                    0 <= i < rows,
                    cols == size_c * 2 + 1,
                    0 <= size_c <= MAX_SIDE,
                    row@.len() == j,
                    forall|b: int|
                        0 <= b < j ==> #[trigger] row@[b] == if is_point_pos(i as int, b) {
                            P_ALL
                        } else {
                            -1i8
                        },
                decreases cols - j,
            {
                if i % 2 == 0 && j % 2 == 0 {
                    row.push(P_ALL);
                } else {
                    row.push(-1);
                }
                j = j + 1;
            }
            stage.push(row);
            i = i + 1;
        }
        let mut group: Vec<Vec<i64>> = Vec::new();
        let mut checked: Vec<Vec<u8>> = Vec::new();
        let mut r: isize = 0;
        while r < size_r
            invariant
                0 <= r <= size_r,
                0 <= size_r <= MAX_SIDE,
                0 <= size_c <= MAX_SIDE,
                size_r * size_c <= MAX_CELLS,
                group@.len() == r,
                checked@.len() == r,
                forall|a: int| 0 <= a < r ==> #[trigger] group@[a]@.len() == size_c,
                forall|a: int| 0 <= a < r ==> #[trigger] checked@[a]@.len() == size_c,
                forall|a: int, b: int|
                    0 <= a < r && 0 <= b < size_c ==> #[trigger] group@[a]@[b] == a * size_c + b
                        + 2,
                forall|a: int, b: int|
                    0 <= a < r && 0 <= b < size_c ==> #[trigger] checked@[a]@[b] == 0,
            decreases size_r - r,
        {
            let mut grow: Vec<i64> = Vec::new();
            let mut crow: Vec<u8> = Vec::new();
            let mut c: isize = 0;
            while c < size_c
                invariant
                    0 <= c <= size_c,
                    0 <= r < size_r,
                    0 <= size_r <= MAX_SIDE,
                    0 <= size_c <= MAX_SIDE,
                    size_r * size_c <= MAX_CELLS,
                    grow@.len() == c,
                    crow@.len() == c,
                    forall|b: int| 0 <= b < c ==> #[trigger] grow@[b] == r * size_c + b + 2,
                    forall|b: int| 0 <= b < c ==> #[trigger] crow@[b] == 0,
                decreases size_c - c,
            {
                assert(r * size_c <= size_r * size_c) by (nonlinear_arith)
                    requires
                        0 <= r <= size_r,
                        0 <= size_c,
                ;
                assert(r * size_c >= 0) by (nonlinear_arith)
                    requires
                        0 <= r,
                        0 <= size_c,
                ;
                grow.push((r * size_c + c + 2) as i64);
                crow.push(0);
                c = c + 1;
            }
            group.push(grow);
            checked.push(crow);
            r = r + 1;
        }
        let res = SolvingStage {
            stage,
            size_r,
            size_c,
            group,
            result: true,
            checked,
            score: 0,
        };
        proof {
            assert forall|a: int, b: int|
                0 <= a < size_r && 0 <= b < size_c implies #[trigger] res.group_at(a, b) != i64::MIN by {
                assert(a * size_c >= 0) by (nonlinear_arith)
                    requires
                        0 <= a,
                        0 <= size_c,
                ;
            }
        }
        res
    }

    /// The vertical lines row after row, each as `(r, c, true)`, then the horizontal
    /// lines row after row, each as `(r, c, false)`.
    pub fn get_lines_pos(&self) -> (res: Vec<(isize, isize, bool)>)
        requires
            self.wf(),
        ensures
            res@ == grid_positions(self.size_r as int, self.size_c + 1, true) + grid_positions(
                self.size_r + 1,
                self.size_c as int,
                false,
            ),
    {
        let mut lines: Vec<(isize, isize, bool)> = Vec::new();
        push_grid_positions(&mut lines, self.size_r, self.size_c + 1, true);
        push_grid_positions(&mut lines, self.size_r + 1, self.size_c, false);
        proof {
            assert(lines@ =~= grid_positions(self.size_r as int, self.size_c + 1, true)
                + grid_positions(self.size_r + 1, self.size_c as int, false));
        }
        lines
    }

    /// The cells `(r, c)`, row after row.
    pub fn get_numbers_pos(&self) -> (res: Vec<(isize, isize)>)
        requires
            self.wf(),
        ensures
            res@ == grid_cells(self.size_r as int, self.size_c as int),
    {
        cells_of(self.size_r, self.size_c)
    }

    /// The points at the upper-left corner of every cell, `(r, c)` row after row.
    pub fn get_points_pos(&self) -> (res: Vec<(isize, isize)>)
        requires
            self.wf(),
        ensures
            res@ == grid_cells(self.size_r as int, self.size_c as int),
    {
        cells_of(self.size_r, self.size_c)
    }
}


/// Every position of `grid_positions(h, w, flag)` lies in rows `0 .. h` and columns
/// `0 .. w`, tagged with `flag`.
pub proof fn lemma_grid_positions_bounds(h: int, w: int, flag: bool)
    requires
        0 <= h <= MAX_SIDE + 1,
        0 <= w <= MAX_SIDE + 1,
    ensures
        forall|k: int|
            0 <= k < grid_positions(h, w, flag).len() ==> {
                let p = #[trigger] grid_positions(h, w, flag)[k];
                &&& 0 <= p.0 < h
                &&& 0 <= p.1 < w
                &&& p.2 == flag
            },
    decreases h,
{
    if h > 0 {
        lemma_grid_positions_bounds(h - 1, w, flag);
        let a = grid_positions(h - 1, w, flag);
        let b = row_positions(h - 1, w, flag);
        assert forall|k: int| 0 <= k < grid_positions(h, w, flag).len() implies {
            let p = #[trigger] grid_positions(h, w, flag)[k];
            &&& 0 <= p.0 < h
            &&& 0 <= p.1 < w
            &&& p.2 == flag
        } by {
            if k < a.len() {
                assert(grid_positions(h, w, flag)[k] == a[k]);
            } else {
                assert(grid_positions(h, w, flag)[k] == b[k - a.len()]);
                assert(0 <= k - a.len() < w);
            }
        }
    }
}

/// `b` is a copy of `a`: same sizes, flags, score and tables.
pub open spec fn same_board(a: SolvingStage, b: SolvingStage) -> bool {
    &&& b.size_r == a.size_r
    &&& b.size_c == a.size_c
    &&& b.result == a.result
    &&& b.score == a.score
    &&& b.stage@.len() == a.stage@.len()
    &&& forall|k: int| 0 <= k < a.stage@.len() ==> #[trigger] b.stage@[k]@ == a.stage@[k]@
    &&& b.group@.len() == a.group@.len()
    &&& forall|k: int| 0 <= k < a.group@.len() ==> #[trigger] b.group@[k]@ == a.group@[k]@
    &&& b.checked@.len() == a.checked@.len()
    &&& forall|k: int| 0 <= k < a.checked@.len() ==> #[trigger] b.checked@[k]@ == a.checked@[k]@
}

/// A copy holds the same cells, potential and well-formedness.
pub proof fn lemma_same_board(a: SolvingStage, b: SolvingStage)
    requires
        a.wf(),
        same_board(a, b),
    ensures
        b.wf(),
        b.pot() == a.pot(),
        crate::stage::same_cells(a, b),
        crate::stage::refines(a, b),
        forall|i: int, j: int| #![trigger b.group_at(i, j)] 0 <= i < a.size_r && 0 <= j < a.size_c ==> b.group_at(i, j) == a.group_at(i, j),
{
    crate::grid::lemma_potential_same(a.stage@, b.stage@);
    assert forall|i: int| 0 <= i < 2 * b.size_r + 1 implies #[trigger] b.stage@[i]@.len() == 2 * b.size_c + 1 by {
        assert(b.stage@[i]@ == a.stage@[i]@);
    }
    assert forall|i: int| 0 <= i < b.size_r implies #[trigger] b.group@[i]@.len() == b.size_c by {
        assert(b.group@[i]@ == a.group@[i]@);
    }
    assert forall|i: int| 0 <= i < b.size_r implies #[trigger] b.checked@[i]@.len() == b.size_c by {
        assert(b.checked@[i]@ == a.checked@[i]@);
    }
    assert forall|i: int, j: int| 0 <= i < b.size_r && 0 <= j < b.size_c implies #[trigger] b.group_at(i, j) != i64::MIN by {
        assert(b.group@[i]@ == a.group@[i]@);
        assert(a.group_at(i, j) != i64::MIN);
    }
    assert forall|r: int, c: int| #![trigger b.at(r, c)] a.in_grid(r, c) implies b.at(r, c) == a.at(r, c) by {
        assert(b.stage@[r]@ == a.stage@[r]@);
    }
    assert forall|r: int, c: int| #![trigger b.at(r, c)] a.in_grid(r, c) && is_point_pos(r, c) implies b.at(r, c) & a.at(r, c) == b.at(r, c) by {
        crate::grid::lemma_subset_trans(a.at(r, c), a.at(r, c), a.at(r, c));
    }
    assert forall|i: int, j: int| #![trigger b.group_at(i, j)] 0 <= i < a.size_r && 0 <= j < a.size_c implies b.group_at(i, j) == a.group_at(i, j) by {
        assert(b.group@[i]@ == a.group@[i]@);
    }
}

/// A copy of every row of `g`.
fn copy_rows<T: Copy>(g: &Vec<Vec<T>>) -> (res: Vec<Vec<T>>)
    ensures
        res@.len() == g@.len(),
        forall|k: int| 0 <= k < g@.len() ==> #[trigger] res@[k]@ == g@[k]@,
{
    let mut res: Vec<Vec<T>> = Vec::new();
    let mut i: usize = 0;
    while i < g.len()
        invariant
            0 <= i <= g@.len(),
            res@.len() == i,
            forall|k: int| 0 <= k < i ==> #[trigger] res@[k]@ == g@[k]@,
        decreases g@.len() - i,
    {
        let mut row: Vec<T> = Vec::new();
        let mut j: usize = 0;
        while j < g[i].len()
            invariant
                0 <= i < g@.len(),
                0 <= j <= g@[i as int]@.len(),
                row@ == g@[i as int]@.subrange(0, j as int),
            decreases g@[i as int]@.len() - j,
        {
            row.push(g[i][j]);
            j = j + 1;
            proof {
                assert(row@ =~= g@[i as int]@.subrange(0, j as int));
            }
        }
        proof {
            assert(row@ =~= g@[i as int]@);
        }
        res.push(row);
        i = i + 1;
    }
    res
}

impl SolvingStage {
    /// A copy of the board.
    pub fn duplicate(&self) -> (res: SolvingStage)
        ensures
            same_board(*self, res),
    {
        SolvingStage {
            stage: copy_rows(&self.stage),
            size_r: self.size_r,
            size_c: self.size_c,
            group: copy_rows(&self.group),
            result: self.result,
            checked: copy_rows(&self.checked),
            score: self.score,
        }
    }
}

} // verus!
