use vstd::prelude::*;
use crate::grid::{
    lemma_potential_same, cell_weight, is_line_pos, is_number_pos, is_point_pos, lemma_potential_update,
    lemma_subset_trans, potential, shapes_left,
};

verus! {

/// Largest number of grid positions, `(2 * size_r + 1) * (2 * size_c + 1)`, a board may
/// have: every position can hold at most seven points of undecided work, all of which
/// the `u32` score must be able to take.
pub const MAX_CELLS: isize = 613566756;

/// Largest number of rows or columns of cells a board may have, which follows from
/// `MAX_CELLS`: a board of one column can be this long.
pub const MAX_SIDE: isize = 306783377;

/// Score for each shape removed from a point.
pub const K_POINT_POS: u32 = 1;

/// Score for each line decided.
pub const K_LINE: u32 = 3;

/// A board being solved.
///
/// `stage` is the `(2 * size_r + 1) x (2 * size_c + 1)` grid: a point holds the set
/// of shapes it may still take (the `P_*` bits), a line holds `-1` while undecided,
/// `1` when drawn and `0` when crossed out, and a cell holds its number or `-1`.
/// `group` labels every cell with a region: cells with the same label lie on the same
/// side of the loop, cells with opposite labels on opposite sides. `checked` records
/// per cell whether its number was examined since its surroundings last changed
/// (0: not examined, 1: examined, 2: settled). `result` turns false once the board is
/// found contradictory, and `score` adds up the deductions made.
pub struct SolvingStage {
    pub stage: Vec<Vec<i8>>,
    pub size_r: isize,
    pub size_c: isize,
    pub group: Vec<Vec<i64>>,
    pub result: bool,
    pub checked: Vec<Vec<u8>>,
    pub score: u32,
}

impl SolvingStage {
    /// The value at grid position `(r, c)`.
    pub open spec fn at(&self, r: int, c: int) -> i8 {
        self.stage@[r]@[c]
    }

    pub open spec fn checked_at(&self, i: int, j: int) -> u8 {
        self.checked@[i]@[j]
    }

    pub open spec fn group_at(&self, i: int, j: int) -> i64 {
        self.group@[i]@[j]
    }

    pub open spec fn in_grid(&self, r: int, c: int) -> bool {
        0 <= r < 2 * self.size_r + 1 && 0 <= c < 2 * self.size_c + 1
    }

    /// The shape of a well-formed board: a number of grid positions within
    /// `MAX_CELLS` (which bounds each side by `MAX_SIDE`) and every table of the size
    /// the sizes give.
    pub open spec fn wf(&self) -> bool {
        &&& 0 <= self.size_r <= MAX_SIDE
        &&& 0 <= self.size_c <= MAX_SIDE
        &&& (2 * self.size_r + 1) * (2 * self.size_c + 1) <= MAX_CELLS
        &&& self.stage@.len() == 2 * self.size_r + 1
        &&& forall|i: int|
            0 <= i < 2 * self.size_r + 1 ==> #[trigger] self.stage@[i]@.len() == 2 * self.size_c
                + 1
        &&& self.group@.len() == self.size_r
        &&& forall|i: int| 0 <= i < self.size_r ==> #[trigger] self.group@[i]@.len() == self.size_c
        &&& forall|i: int, j: int|
            0 <= i < self.size_r && 0 <= j < self.size_c ==> #[trigger] self.group_at(i, j)
                != i64::MIN
        &&& self.checked@.len() == self.size_r
        &&& forall|i: int|
            0 <= i < self.size_r ==> #[trigger] self.checked@[i]@.len() == self.size_c
    }

    /// What is still undecided on the board.
    pub open spec fn pot(&self) -> int {
        potential(self.stage@)
    }

    /// The score can take every deduction still possible on the board.
    pub open spec fn headroom(&self) -> bool {
        self.score + self.pot() <= u32::MAX
    }
}

/// What the bound on grid positions gives: each side within `MAX_SIDE`, and every
/// product of (one more than) the sides within `MAX_CELLS`.
pub proof fn lemma_area_bounds(r: int, c: int)
    requires
        0 <= r,
        0 <= c,
        (2 * r + 1) * (2 * c + 1) <= MAX_CELLS,
    ensures
        r <= MAX_SIDE,
        c <= MAX_SIDE,
        (r + 1) * (c + 1) <= MAX_CELLS,
        r * c <= MAX_CELLS,
        0 <= r * c,
        0 <= (r + 1) * (c + 1),
        r * (c + 1) <= MAX_CELLS,
        (r + 1) * c <= MAX_CELLS,
        7 * ((2 * r + 1) * (2 * c + 1)) <= u32::MAX,
{
    assert((2 * r + 1) * (2 * c + 1) >= 2 * r + 1) by (nonlinear_arith)
        requires 0 <= r, 0 <= c;
    assert((2 * r + 1) * (2 * c + 1) >= 2 * c + 1) by (nonlinear_arith)
        requires 0 <= r, 0 <= c;
    assert((r + 1) * (c + 1) <= (2 * r + 1) * (2 * c + 1)) by (nonlinear_arith)
        requires 0 <= r, 0 <= c;
    assert(r * c <= (r + 1) * (c + 1)) by (nonlinear_arith)
        requires 0 <= r, 0 <= c;
    assert(0 <= r * c) by (nonlinear_arith)
        requires 0 <= r, 0 <= c;
    assert(r * (c + 1) <= (r + 1) * (c + 1)) by (nonlinear_arith)
        requires 0 <= r, 0 <= c;
    assert((r + 1) * c <= (r + 1) * (c + 1)) by (nonlinear_arith)
        requires 0 <= r, 0 <= c;
}

/// `s` holds the grid of `o` with `v` written at `(r, c)`.
pub open spec fn wrote(o: SolvingStage, s: SolvingStage, r: int, c: int, v: i8) -> bool {
    &&& s.stage@.len() == o.stage@.len()
    &&& s.stage@[r]@ == o.stage@[r]@.update(c, v)
    &&& forall|k: int| 0 <= k < o.stage@.len() && k != r ==> #[trigger] s.stage@[k]@ == o.stage@[k]@
}

/// Cell `(i, j)` touches grid position `(x, y)`: its number, one of its sides or
/// one of its corners sits there.
pub open spec fn near(i: int, j: int, x: int, y: int) -> bool {
    -1 <= 2 * i + 1 - x <= 1 && -1 <= 2 * j + 1 - y <= 1
}

/// The cells that touch `(x, y)` and were examined are marked as not examined.
pub open spec fn checked_after(o: SolvingStage, s: SolvingStage, x: int, y: int) -> bool {
    &&& s.checked@.len() == o.checked@.len()
    &&& forall|i: int|
        0 <= i < o.checked@.len() ==> #[trigger] s.checked@[i]@.len() == o.checked@[i]@.len()
    &&& forall|i: int, j: int|
        0 <= i < o.checked@.len() && 0 <= j < o.checked@[i]@.len() ==> #[trigger] s.checked_at(
            i,
            j,
        ) == if near(i, j, x, y) && o.checked_at(i, j) == 1 {
            0
        } else {
            o.checked_at(i, j)
        }
}

/// `s` takes every decision of `o`: same sizes, same numbers, every decided line
/// kept, every point allowing no shape that `o` ruled out, and no contradiction
/// forgotten.
pub open spec fn refines(o: SolvingStage, s: SolvingStage) -> bool {
    &&& s.size_r == o.size_r
    &&& s.size_c == o.size_c
    &&& forall|r: int, c: int|
        #![trigger s.at(r, c)]
        o.in_grid(r, c) ==> {
            &&& is_number_pos(r, c) ==> s.at(r, c) == o.at(r, c)
            &&& is_line_pos(r, c) && o.at(r, c) != -1 ==> s.at(r, c) == o.at(r, c)
            &&& is_point_pos(r, c) ==> s.at(r, c) & o.at(r, c) == s.at(r, c)
        }
    &&& s.result ==> o.result
}

/// Every line undecided in `o` is still undecided in `s`, drawn (1) or crossed out (0).
pub open spec fn lines_binary(o: SolvingStage, s: SolvingStage) -> bool {
    forall|r: int, c: int|
        #![trigger s.at(r, c)]
        o.in_grid(r, c) && is_line_pos(r, c) && o.at(r, c) == -1 ==> s.at(r, c) == -1 || s.at(r, c)
            == 0 || s.at(r, c) == 1
}

/// Deciding lines as 0 or 1 composes.
pub proof fn lemma_lines_binary_trans(o: SolvingStage, a: SolvingStage, b: SolvingStage)
    requires
        lines_binary(o, a),
        lines_binary(a, b),
        refines(a, b),
        a.size_r == o.size_r,
        a.size_c == o.size_c,
    ensures
        lines_binary(o, b),
{
    assert forall|r: int, c: int|
        o.in_grid(r, c) && is_line_pos(r, c) && o.at(r, c) == -1 implies #[trigger] b.at(r, c) == -1
            || b.at(r, c) == 0 || b.at(r, c) == 1 by {
        assert(a.at(r, c) == -1 || a.at(r, c) == 0 || a.at(r, c) == 1);
    }
}

/// No grid position changed, so no line was decided.
pub proof fn lemma_lines_binary_same(o: SolvingStage, s: SolvingStage)
    requires
        same_cells(o, s),
    ensures
        lines_binary(o, s),
{
}

/// `s` and `o` hold the same value at every grid position.
pub open spec fn same_cells(o: SolvingStage, s: SolvingStage) -> bool {
    forall|r: int, c: int| #![trigger s.at(r, c)] o.in_grid(r, c) ==> s.at(r, c) == o.at(r, c)
}

/// `s` refines `o`, the score grew by `k`, the potential fell by at least `k`, and a
/// run that scored nothing changed no grid position.
pub open spec fn progress(o: SolvingStage, s: SolvingStage, k: int) -> bool {
    &&& s.wf()
    &&& refines(o, s)
    &&& s.score == o.score + k
    &&& s.pot() + k <= o.pot()
    &&& k >= 0
    &&& k == 0 ==> same_cells(o, s)
}

/// The effect of removing the shapes `q` from the point at `(r, c)`; `res` shapes were
/// there to remove.
pub open spec fn removed_shapes(
    o: SolvingStage,
    s: SolvingStage,
    r: int,
    c: int,
    q: i8,
    res: int,
) -> bool {
    &&& wrote(o, s, r, c, o.at(r, c) & !(q & 127))
    &&& res == shapes_left(o.at(r, c) & q)
    &&& s.score == o.score + res
    &&& s.result == o.result
    &&& s.size_r == o.size_r
    &&& s.size_c == o.size_c
    &&& s.group == o.group
    &&& res > 0 ==> checked_after(o, s, r, c)
    &&& res == 0 ==> s.checked == o.checked
}

pub proof fn lemma_wrote(o: SolvingStage, s: SolvingStage, r: int, c: int, v: i8)
    requires
        o.wf(),
        o.in_grid(r, c),
        wrote(o, s, r, c, v),
        s.size_r == o.size_r,
        s.size_c == o.size_c,
        s.group == o.group,
        s.checked@.len() == o.checked@.len(),
        forall|i: int|
            0 <= i < o.checked@.len() ==> #[trigger] s.checked@[i]@.len() == o.checked@[i]@.len(),
    ensures
        s.wf(),
        s.pot() == o.pot() - cell_weight(r, c, o.at(r, c)) + cell_weight(r, c, v),
        forall|i: int, j: int|
            #![trigger s.at(i, j)]
            o.in_grid(i, j) ==> s.at(i, j) == if i == r && j == c {
                v
            } else {
                o.at(i, j)
            },
{
    lemma_potential_update(o.stage@, s.stage@, r, c, v);
    assert forall|i: int| 0 <= i < 2 * s.size_r + 1 implies #[trigger] s.stage@[i]@.len() == 2
        * s.size_c + 1 by {
        if i != r {
            assert(s.stage@[i]@ == o.stage@[i]@);
        }
        assert(o.stage@[i]@.len() == 2 * o.size_c + 1);
    }
    assert forall|i: int| 0 <= i < s.size_r implies #[trigger] s.checked@[i]@.len() == s.size_c by {
        assert(o.checked@[i]@.len() == o.size_c);
    }
    assert forall|i: int, j: int|
        0 <= i < s.size_r && 0 <= j < s.size_c implies #[trigger] s.group_at(i, j) != i64::MIN by {
        assert(o.group_at(i, j) != i64::MIN);
    }
    assert forall|i: int| 0 <= i < s.size_r implies #[trigger] s.group@[i]@.len() == s.size_c by {
        assert(o.group@[i]@.len() == o.size_c);
    }
}

/// Well-formedness depends only on the sizes, the table lengths and the labels.
pub proof fn lemma_wf_keep(o: SolvingStage, s: SolvingStage)
    requires
        o.wf(),
        s.size_r == o.size_r,
        s.size_c == o.size_c,
        s.group == o.group,
        s.stage@.len() == o.stage@.len(),
        forall|i: int| 0 <= i < o.stage@.len() ==> #[trigger] s.stage@[i]@.len() == o.stage@[i]@.len(),
        s.checked@.len() == o.checked@.len(),
        forall|i: int|
            0 <= i < o.checked@.len() ==> #[trigger] s.checked@[i]@.len() == o.checked@[i]@.len(),
    ensures
        s.wf(),
{
    assert forall|i: int| 0 <= i < 2 * s.size_r + 1 implies #[trigger] s.stage@[i]@.len() == 2
        * s.size_c + 1 by {
        assert(o.stage@[i]@.len() == 2 * o.size_c + 1);
    }
    assert forall|i: int| 0 <= i < s.size_r implies #[trigger] s.checked@[i]@.len() == s.size_c by {
        assert(o.checked@[i]@.len() == o.size_c);
    }
    assert forall|i: int, j: int|
        0 <= i < s.size_r && 0 <= j < s.size_c implies #[trigger] s.group_at(i, j) != i64::MIN by {
        assert(o.group_at(i, j) != i64::MIN);
    }
    assert forall|i: int| 0 <= i < s.size_r implies #[trigger] s.group@[i]@.len() == s.size_c by {
        assert(o.group@[i]@.len() == o.size_c);
    }
}

pub proof fn lemma_checked_after_same(o: SolvingStage, s: SolvingStage, s2: SolvingStage, x: int, y: int)
    requires
        checked_after(o, s, x, y),
        s2.checked == s.checked,
    ensures
        checked_after(o, s2, x, y),
{
    assert forall|i: int, j: int|
        0 <= i < o.checked@.len() && 0 <= j < o.checked@[i]@.len() implies #[trigger] s2.checked_at(i, j)
            == if near(i, j, x, y) && o.checked_at(i, j) == 1 {
            0
        } else {
            o.checked_at(i, j)
        } by {
        assert(s.checked_at(i, j) == s2.checked_at(i, j));
    }
}

/// Two writes at the same position leave the second value.
pub proof fn lemma_wrote_twice(
    o: SolvingStage,
    s: SolvingStage,
    s2: SolvingStage,
    r: int,
    c: int,
    v1: i8,
    v2: i8,
)
    requires
        0 <= r < o.stage@.len(),
        0 <= c < o.stage@[r]@.len(),
        wrote(o, s, r, c, v1),
        wrote(s, s2, r, c, v2),
    ensures
        wrote(o, s2, r, c, v2),
{
    assert(s2.stage@[r]@ =~= o.stage@[r]@.update(c, v2));
    assert forall|k: int| 0 <= k < o.stage@.len() && k != r implies #[trigger] s2.stage@[k]@
        == o.stage@[k]@ by {
        assert(s.stage@[k]@ == o.stage@[k]@);
    }
}

/// A board equal to another one holds the same grid with any cell rewritten to its value.
pub proof fn lemma_wrote_same(o: SolvingStage, r: int, c: int)
    requires
        0 <= r < o.stage@.len(),
        0 <= c < o.stage@[r]@.len(),
    ensures
        wrote(o, o, r, c, o.at(r, c)),
{
    assert(o.stage@[r]@ =~= o.stage@[r]@.update(c, o.at(r, c)));
}

/// Marking the cells near a position twice is marking them once.
pub proof fn lemma_checked_after_twice(o: SolvingStage, s: SolvingStage, s2: SolvingStage, x: int, y: int)
    requires
        checked_after(o, s, x, y),
        checked_after(s, s2, x, y),
    ensures
        checked_after(o, s2, x, y),
{
    assert forall|i: int| 0 <= i < o.checked@.len() implies #[trigger] s2.checked@[i]@.len()
        == o.checked@[i]@.len() by {
        assert(s.checked@[i]@.len() == o.checked@[i]@.len());
    }
    assert forall|i: int, j: int|
        0 <= i < o.checked@.len() && 0 <= j < o.checked@[i]@.len() implies #[trigger] s2.checked_at(i, j)
            == if near(i, j, x, y) && o.checked_at(i, j) == 1 {
            0
        } else {
            o.checked_at(i, j)
        } by {
        assert(s.checked@[i]@.len() == o.checked@[i]@.len());
        assert(s.checked_at(i, j) == if near(i, j, x, y) && o.checked_at(i, j) == 1 {
            0
        } else {
            o.checked_at(i, j)
        });
    }
}

/// Deciding an undecided line is progress worth `K_LINE`.
pub proof fn lemma_line_progress(o: SolvingStage, s: SolvingStage, r: int, c: int, v: i8)
    requires
        o.wf(),
        s.wf(),
        o.in_grid(r, c),
        is_line_pos(r, c),
        wrote(o, s, r, c, v),
        o.at(r, c) == -1,
        v != -1,
        s.size_r == o.size_r,
        s.size_c == o.size_c,
        s.score == o.score + 3,
        s.result ==> o.result,
    ensures
        progress(o, s, 3),
{
    lemma_potential_update(o.stage@, s.stage@, r, c, v);
    lemma_write_refines(o, s, r, c, v);
}

/// Writing one position keeps every other decision.
proof fn lemma_write_refines(o: SolvingStage, s: SolvingStage, r: int, c: int, v: i8)
    requires
        o.wf(),
        o.in_grid(r, c),
        wrote(o, s, r, c, v),
        s.size_r == o.size_r,
        s.size_c == o.size_c,
        s.result ==> o.result,
        is_number_pos(r, c) ==> v == o.at(r, c),
        is_line_pos(r, c) && o.at(r, c) != -1 ==> v == o.at(r, c),
        is_point_pos(r, c) ==> v & o.at(r, c) == v,
    ensures
        refines(o, s),
{
    assert forall|i: int, j: int| #![trigger s.at(i, j)] o.in_grid(i, j) implies {
        &&& is_number_pos(i, j) ==> s.at(i, j) == o.at(i, j)
        &&& is_line_pos(i, j) && o.at(i, j) != -1 ==> s.at(i, j) == o.at(i, j)
        &&& is_point_pos(i, j) ==> s.at(i, j) & o.at(i, j) == s.at(i, j)
    } by {
        if i != r {
            assert(s.stage@[i]@ == o.stage@[i]@);
        }
        lemma_subset_trans(o.at(i, j), o.at(i, j), o.at(i, j));
    }
}

/// Removing shapes from a point is progress worth the shapes removed.
pub proof fn lemma_point_progress(o: SolvingStage, s: SolvingStage, r: int, c: int, q: i8, k: int)
    requires
        o.wf(),
        s.wf(),
        o.in_grid(r, c),
        is_point_pos(r, c),
        removed_shapes(o, s, r, c, q, k),
        shapes_left(o.at(r, c) & !(q & 127)) == shapes_left(o.at(r, c)) - shapes_left(o.at(r, c) & q),
        (o.at(r, c) & !(q & 127)) & o.at(r, c) == (o.at(r, c) & !(q & 127)),
        k >= 0,
    ensures
        progress(o, s, k),
{
    lemma_potential_update(o.stage@, s.stage@, r, c, o.at(r, c) & !(q & 127));
    lemma_write_refines(o, s, r, c, o.at(r, c) & !(q & 127));
    if k == 0 {
        lemma_no_common_shapes(o.at(r, c), q);
        assert forall|i: int, j: int| #![trigger s.at(i, j)] o.in_grid(i, j) implies s.at(i, j)
            == o.at(i, j) by {
            if i != r {
                assert(s.stage@[i]@ == o.stage@[i]@);
            }
        }
    }
}

/// A point with none of the shapes of `q` keeps its value when they are removed.
proof fn lemma_no_common_shapes(v: i8, q: i8)
    requires
        shapes_left(v & q) == 0,
    ensures
        v & !(q & 127) == v,
{
    lemma_no_common_bits(v, q);
}

proof fn lemma_no_common_bits(v: i8, q: i8)
    by (bit_vector)
    requires
        (v & q) & 1 != 1,
        (v & q) & 2 != 2,
        (v & q) & 4 != 4,
        (v & q) & 8 != 8,
        (v & q) & 16 != 16,
        (v & q) & 32 != 32,
        (v & q) & 64 != 64,
    ensures
        v & !(q & 127) == v,
{
}

/// Progress composes.
pub proof fn lemma_progress_trans(a: SolvingStage, b: SolvingStage, c: SolvingStage, k1: int, k2: int)
    requires
        a.wf(),
        progress(a, b, k1),
        progress(b, c, k2),
    ensures
        progress(a, c, k1 + k2),
{
    lemma_refines_trans(a, b, c);
}

pub proof fn lemma_refines_trans(a: SolvingStage, b: SolvingStage, c: SolvingStage)
    requires
        a.wf(),
        refines(a, b),
        refines(b, c),
    ensures
        refines(a, c),
{
    assert forall|r: int, cc: int| #![trigger c.at(r, cc)] a.in_grid(r, cc) implies {
        &&& is_number_pos(r, cc) ==> c.at(r, cc) == a.at(r, cc)
        &&& is_line_pos(r, cc) && a.at(r, cc) != -1 ==> c.at(r, cc) == a.at(r, cc)
        &&& is_point_pos(r, cc) ==> c.at(r, cc) & a.at(r, cc) == c.at(r, cc)
    } by {
        assert(b.in_grid(r, cc));
        let x = b.at(r, cc);
        lemma_subset_trans(c.at(r, cc), b.at(r, cc), a.at(r, cc));
    }
}

/// A board refines itself with no progress.
pub proof fn lemma_progress_refl(a: SolvingStage)
    requires
        a.wf(),
    ensures
        progress(a, a, 0),
{
    assert forall|r: int, c: int| #![trigger a.at(r, c)] a.in_grid(r, c) && is_point_pos(r, c)
        implies a.at(r, c) & a.at(r, c) == a.at(r, c) by {
        lemma_subset_trans(a.at(r, c), a.at(r, c), a.at(r, c));
    }
}

/// Changing only the bookkeeping (`checked`, `group`) keeps the board's decisions.
pub proof fn lemma_same_grid_progress(a: SolvingStage, b: SolvingStage)
    requires
        a.wf(),
        b.wf(),
        b.stage == a.stage,
        b.size_r == a.size_r,
        b.size_c == a.size_c,
        b.score == a.score,
        b.result ==> a.result,
    ensures
        progress(a, b, 0),
{
    lemma_progress_refl(a);
}

} // verus!
