use vstd::prelude::*;
use crate::deduce::{lemma_turn_cell, number_of};
use crate::edit::lemma_shapes_split;
use crate::grid::{
    is_line_pos, is_number_pos, is_point_pos, lemma_offset_kind, lemma_point_potential_update, lemma_subset_trans,
    point_potential, shapes_left,
};
use crate::rotation::{
    idx_number, idx_point, rot_p, rot_rc, rot_spec, P_LINE_D, P_LINE_L, P_LINE_R, P_LINE_U,
    P_NONE, P_RD, P_UL,
};
use crate::stage::{
    lemma_point_progress, lemma_wf_keep, lemma_wrote, progress, removed_shapes, wrote,
    SolvingStage,
};

verus! {

/// Which corner of cell `(r, c)` the grid position `(i, j)` is, clockwise from the
/// upper-left one, or -1.
pub open spec fn corner_index(r: int, c: int, i: int, j: int) -> int {
    if i == 2 * r && j == 2 * c {
        0
    } else if i == 2 * r && j == 2 * c + 2 {
        1
    } else if i == 2 * r + 2 && j == 2 * c + 2 {
        2
    } else if i == 2 * r + 2 && j == 2 * c {
        3
    } else {
        -1
    }
}

/// Whether grid position `(i, j)` is one of the four sides of cell `(r, c)`.
pub open spec fn is_side(r: int, c: int, i: int, j: int) -> bool {
    (i == 2 * r + 1 && (j == 2 * c || j == 2 * c + 2)) || (j == 2 * c + 1 && (i == 2 * r || i
        == 2 * r + 2))
}

/// The shapes a number rules out at its `k`-th corner: around a 0 every line into the
/// cell, around a 1 the corner turning along both of its sides, around a 3 the corner
/// turning away from the cell and the empty corner.
pub open spec fn first_mask(num: i8, k: int) -> i8 {
    if num == 0 {
        rot_spec(P_LINE_R | P_LINE_D, k as u8)
    } else if num == 1 {
        rot_spec(P_RD, k as u8)
    } else {
        rot_spec(P_UL | P_NONE, k as u8)
    }
}

/// The value at `(i, j)` once the number of cell `(r, c)` in `o` has been applied.
pub open spec fn after_first_check(o: SolvingStage, r: int, c: int, i: int, j: int) -> i8 {
    let num = number_of(o, r, c);
    let k = corner_index(r, c, i, j);
    let v = o.at(i, j);
    if !(num == 0 || num == 1 || num == 3) {
        v
    } else if num == 0 && is_side(r, c, i, j) {
        0
    } else if k >= 0 {
        let m = first_mask(num, k);
        if num == 1 {
            if v & m == m {
                v & !m
            } else {
                v
            }
        } else {
            v & !(m & 127)
        }
    } else {
        v
    }
}


/// The `k`-th corner point of cell `(r, c)`, clockwise from the upper-left one.
pub open spec fn corner_at(s: SolvingStage, r: int, c: int, k: int) -> i8 {
    s.at(
        if k == 0 || k == 1 {
            2 * r
        } else {
            2 * r + 2
        },
        if k == 0 || k == 3 {
            2 * c
        } else {
            2 * c + 2
        },
    )
}

/// The `k`-th corner of cell `(r, c)` in `s` allows none of the shapes that the cell's
/// number in `o` rules out there, when that number is 0, 1 or 3.
pub open spec fn corner_cleared(o: SolvingStage, s: SolvingStage, r: int, c: int, k: int) -> bool {
    let num = number_of(o, r, c);
    (num == 0 || num == 1 || num == 3) ==> corner_at(s, r, c, k) & first_mask(num, k) & 127 == 0
}

proof fn lemma_cleared_bits(v: i8, x: i8, y: i8, m: i8)
    by (bit_vector)
    requires
        m == 1 || m == 2 || m == 4 || m == 8 || m == 16 || m == 32 || m == 64,
    ensures
        (v & m == m) ==> (v & !m) & m & 127 == 0,
        (v & m != m) ==> v & m & 127 == 0,
        (y & x == y && x & m & 127 == 0) ==> y & m & 127 == 0,
{
}

proof fn lemma_shrink_bits(x: i8, y: i8, m: i8)
    by (bit_vector)
    ensures
        (y & x == y && x & m & 127 == 0) ==> y & m & 127 == 0,
{
}

/// A corner cleared stays cleared while points only lose shapes.
proof fn lemma_cleared_kept(o: SolvingStage, b: SolvingStage, s: SolvingStage, i: int, j: int, k: int)
    requires
        b.wf(),
        b.size_r == o.size_r,
        b.size_c == o.size_c,
        0 <= i < o.size_r,
        0 <= j < o.size_c,
        0 <= k < 4,
        forall|x: int, y: int|
            #![trigger s.at(x, y)]
            b.in_grid(x, y) && is_point_pos(x, y) ==> s.at(x, y) & b.at(x, y) == s.at(x, y),
        corner_cleared(o, b, i, j, k),
    ensures
        corner_cleared(o, s, i, j, k),
{
    let x = if k == 0 || k == 1 {
        2 * i
    } else {
        2 * i + 2
    };
    let y = if k == 0 || k == 3 {
        2 * j
    } else {
        2 * j + 2
    };
    lemma_offset_kind(i, j, x - (2 * i + 1), y - (2 * j + 1));
    assert(b.in_grid(x, y));
    assert(s.at(x, y) & b.at(x, y) == s.at(x, y));
    lemma_shrink_bits(b.at(x, y), s.at(x, y), first_mask(number_of(o, i, j), k));
}

/// Cell `(i, j)` comes before cell `(r, c)` in row-major order.
pub open spec fn cell_before(i: int, j: int, r: int, c: int) -> bool {
    i < r || (i == r && j < c)
}

/// Cell `(i, j)` is on the board and numbered 0.
pub open spec fn zero_cell(o: SolvingStage, i: int, j: int) -> bool {
    0 <= i < o.size_r && 0 <= j < o.size_c && number_of(o, i, j) == 0
}

/// The line at `(x, y)` borders a cell numbered 0 that comes before cell `(r, c)`.
pub open spec fn zero_beside_upto(o: SolvingStage, x: int, y: int, r: int, c: int) -> bool {
    if x % 2 == 1 {
        let i = (x - 1) / 2;
        (zero_cell(o, i, y / 2 - 1) && cell_before(i, y / 2 - 1, r, c)) || (zero_cell(o, i, y / 2)
            && cell_before(i, y / 2, r, c))
    } else {
        let j = (y - 1) / 2;
        (zero_cell(o, x / 2 - 1, j) && cell_before(x / 2 - 1, j, r, c)) || (zero_cell(o, x / 2, j)
            && cell_before(x / 2, j, r, c))
    }
}

/// The line at `(x, y)` borders a cell numbered 0.
pub open spec fn zero_beside(o: SolvingStage, x: int, y: int) -> bool {
    zero_beside_upto(o, x, y, o.size_r as int, 0)
}

/// Only points changed from `o` to `s`, and each only lost shapes.
pub open spec fn points_shrunk(o: SolvingStage, s: SolvingStage) -> bool {
    forall|i: int, j: int|
        #![trigger s.at(i, j)]
        o.in_grid(i, j) ==> if is_point_pos(i, j) {
            s.at(i, j) & o.at(i, j) == s.at(i, j)
        } else {
            s.at(i, j) == o.at(i, j)
        }
}

/// The border points of `s` send no line off the board.
pub open spec fn borders_closed_rows(s: SolvingStage, n: int) -> bool {
    forall|r: int|
        0 <= r < n ==> #[trigger] s.at(2 * r, 0) & P_LINE_L == 0 && s.at(2 * r, 2 * s.size_c)
            & P_LINE_R == 0
}

pub open spec fn borders_closed_cols(s: SolvingStage, n: int) -> bool {
    forall|c: int|
        0 <= c < n ==> #[trigger] s.at(0, 2 * c) & P_LINE_U == 0 && s.at(2 * s.size_r, 2 * c)
            & P_LINE_D == 0
}

/// One more closed row of border points.
proof fn lemma_extend_rows(s: SolvingStage, r: int)
    requires
        borders_closed_rows(s, r),
        s.at(2 * r, 0) & P_LINE_L == 0,
        s.at(2 * r, 2 * s.size_c) & P_LINE_R == 0,
    ensures
        borders_closed_rows(s, r + 1),
{
}

/// One more closed column of border points.
proof fn lemma_extend_cols(s: SolvingStage, c: int)
    requires
        borders_closed_cols(s, c),
        s.at(0, 2 * c) & P_LINE_U == 0,
        s.at(2 * s.size_r, 2 * c) & P_LINE_D == 0,
    ensures
        borders_closed_cols(s, c + 1),
{
}

proof fn lemma_closed_bits(x: i8, y: i8, p: i8, v: i8)
    by (bit_vector)
    ensures
        (y & x == y && x & p == 0) ==> y & p == 0,
        (v & !(p & 127)) & p & 127 == 0,
        (p == 14 || p == 84 || p == 104 || p == 50) ==> (v & !(p & 127)) & p == 0,
        (v & !(p & 127)) & v == (v & !(p & 127)),
        (v & !p) & v == (v & !p),
{
}

proof fn lemma_shrunk_trans(a: SolvingStage, b: SolvingStage, c: SolvingStage)
    requires
        a.wf(),
        b.size_r == a.size_r,
        b.size_c == a.size_c,
        points_shrunk(a, b),
        points_shrunk(b, c),
    ensures
        points_shrunk(a, c),
{
    assert forall|i: int, j: int| #![trigger c.at(i, j)] a.in_grid(i, j) implies if is_point_pos(i, j) {
        c.at(i, j) & a.at(i, j) == c.at(i, j)
    } else {
        c.at(i, j) == a.at(i, j)
    } by {
        assert(b.in_grid(i, j));
        let x = b.at(i, j);
        lemma_subset_trans(c.at(i, j), b.at(i, j), a.at(i, j));
    }
}

proof fn lemma_borders_kept(a: SolvingStage, b: SolvingStage, nr: int, nc: int)
    requires
        a.wf(),
        b.size_r == a.size_r,
        b.size_c == a.size_c,
        forall|i: int, j: int|
            #![trigger b.at(i, j)]
            a.in_grid(i, j) && is_point_pos(i, j) ==> b.at(i, j) & a.at(i, j) == b.at(i, j),
        0 <= nr <= a.size_r + 1,
        0 <= nc <= a.size_c + 1,
        borders_closed_rows(a, nr),
        borders_closed_cols(a, nc),
    ensures
        borders_closed_rows(b, nr),
        borders_closed_cols(b, nc),
{
    assert forall|r: int| 0 <= r < nr implies #[trigger] b.at(2 * r, 0) & P_LINE_L == 0 && b.at(2 * r, 2 * b.size_c)
        & P_LINE_R == 0 by {
        assert(a.at(2 * r, 0) & P_LINE_L == 0);
        lemma_offset_kind(r, 0, 0, 0);
        lemma_offset_kind(r, a.size_c as int, 0, 0);
        lemma_closed_bits(a.at(2 * r, 0), b.at(2 * r, 0), P_LINE_L, 0);
        lemma_closed_bits(a.at(2 * r, 2 * a.size_c), b.at(2 * r, 2 * b.size_c), P_LINE_R, 0);
    }
    assert forall|c: int| 0 <= c < nc implies #[trigger] b.at(0, 2 * c) & P_LINE_U == 0 && b.at(2 * b.size_r, 2 * c)
        & P_LINE_D == 0 by {
        assert(a.at(0, 2 * c) & P_LINE_U == 0);
        lemma_offset_kind(0, c, 0, 0);
        lemma_offset_kind(a.size_r as int, c, 0, 0);
        lemma_closed_bits(a.at(0, 2 * c), b.at(0, 2 * c), P_LINE_U, 0);
        lemma_closed_bits(a.at(2 * a.size_r, 2 * c), b.at(2 * b.size_r, 2 * c), P_LINE_D, 0);
    }
}

proof fn lemma_corner(r: int, c: int, rows: int, cols: int, k: int)
    requires
        0 <= r < rows <= crate::stage::MAX_SIDE,
        0 <= c < cols <= crate::stage::MAX_SIDE,
        0 <= k < 4,
    ensures
        corner_index(
            r,
            c,
            crate::rotation::rot_row(2 * r, 2 * c, 2 * r + 1, 2 * c + 1, k),
            crate::rotation::rot_col(2 * r, 2 * c, 2 * r + 1, 2 * c + 1, k),
        ) == k,
{
}

/// Grid row of the `k`-th corner of cell `(r, c)`, clockwise from the upper-left one.
pub open spec fn corner_row(r: int, c: int, k: int) -> int {
    crate::rotation::rot_row(2 * r, 2 * c, 2 * r + 1, 2 * c + 1, k)
}

/// Grid column of the `k`-th corner of cell `(r, c)`.
pub open spec fn corner_col(r: int, c: int, k: int) -> int {
    crate::rotation::rot_col(2 * r, 2 * c, 2 * r + 1, 2 * c + 1, k)
}

/// The score the first deductions of cell `(r, c)` of `o` gain at its first `n` corners:
/// for a 0 the shapes entering the cell, for a 3 the shape turning away and the empty
/// one, each shape removed counting one; for a 1 one point when the corner still had the
/// shape turning along both sides.
pub open spec fn first_check_gain(o: SolvingStage, r: int, c: int, n: int) -> int
    decreases n,
{
    if n <= 0 {
        0
    } else {
        let k = n - 1;
        let v = o.at(corner_row(r, c, k), corner_col(r, c, k));
        let num = number_of(o, r, c);
        first_check_gain(o, r, c, k) + if num == 0 {
            shapes_left(v & rot_spec(P_LINE_R | P_LINE_D, k as u8))
        } else if num == 1 {
            if v & rot_spec(P_RD, k as u8) == rot_spec(P_RD, k as u8) {
                1int
            } else {
                0int
            }
        } else if num == 3 {
            shapes_left(v & rot_spec(P_UL | P_NONE, k as u8))
        } else {
            0int
        }
    }
}

impl SolvingStage {
    /// The first deductions from the number of cell `(r, c)`. A 0 crosses out its four
    /// sides, removes from each corner the shapes entering the cell and marks the cell
    /// as settled; a 1 removes from each corner the shape turning along both of its
    /// sides; a 3 removes from each corner the shape turning away from the cell and the
    /// empty one.
    pub fn first_check_number(&mut self, r: isize, c: isize)
        requires
            old(self).wf(),
            old(self).headroom(),
            0 <= r < old(self).size_r,
            0 <= c < old(self).size_c,
        ensures
            final(self).wf(),
            final(self).headroom(),
            final(self).score + final(self).pot() <= old(self).score + old(self).pot(),
            final(self).score >= old(self).score,
            final(self).size_r == old(self).size_r,
            final(self).size_c == old(self).size_c,
            final(self).group == old(self).group,
            final(self).result == old(self).result,
            forall|i: int, j: int|
                #![trigger final(self).at(i, j)]
                old(self).in_grid(i, j) ==> final(self).at(i, j) == after_first_check(
                    *old(self),
                    r as int,
                    c as int,
                    i,
                    j,
                ),
            number_of(*old(self), r as int, c as int) == 0 ==> final(self).checked_at(
                r as int,
                c as int,
            ) == 2,
            final(self).score == old(self).score + first_check_gain(*old(self), r as int, c as int, 4),
            points_scored(*old(self), *final(self)),
            number_of(*old(self), r as int, c as int) != 0 && number_of(*old(self), r as int, c as int)
                != 1 && number_of(*old(self), r as int, c as int) != 3 ==> *final(self) == *old(self),
    {
        let ghost o = *self;
        let ghost ri = r as int;
        let ghost ci = c as int;
        let center = idx_number(r, c);
        let num = self.cell(r * 2 + 1, c * 2 + 1);
        if num == 0 {
            //  o---+
            //  | 0 |
            //  +---+
            let mut rot: u8 = 0;
            while rot < 4
                invariant
                    0 <= rot <= 4,
                    o.wf(),
                    o.headroom(),
                    self.wf(),
                    0 <= ri < o.size_r,
                    0 <= ci < o.size_c,
                    ri == r,
                    ci == c,
                    num == 0,
                    num == number_of(o, ri, ci),
                    center.r == 2 * ri + 1,
                    center.c == 2 * ci + 1,
                    self.size_r == o.size_r,
                    self.size_c == o.size_c,
                    self.group == o.group,
                    self.result == o.result,
                    self.score >= o.score,
                    self.score + self.pot() <= o.score + o.pot(),
                    self.score == o.score + first_check_gain(o, ri, ci, rot as int),
                    points_scored(o, *self),
                    forall|i: int, j: int|
                        #![trigger self.at(i, j)]
                        o.in_grid(i, j) ==> self.at(i, j) == if 0 <= corner_index(ri, ci, i, j)
                            < rot || (rot > 0 && is_side(ri, ci, i, j)) {
                            after_first_check(o, ri, ci, i, j)
                        } else {
                            o.at(i, j)
                        },
                decreases 4 - rot,
            {
                let t = idx_point(r, c);
                proof {
                    lemma_turn_cell(ri, ci, o.size_r as int, o.size_c as int, t.r as int, t.c as int, rot as int);
                    lemma_corner(ri, ci, o.size_r as int, o.size_c as int, rot as int);
                    lemma_offset_kind(ri, ci, -1, -1);
                }
                let pt = rot_rc(t, center, rot);
                let m = rot_p(P_LINE_R | P_LINE_D, rot);
                let ghost before = *self;
                proof {
                    lemma_shapes_split(before.at(pt.r as int, pt.c as int), m);
                    lemma_shapes_nonneg2(before.at(pt.r as int, pt.c as int) & !(m & 127));
                    crate::grid::lemma_cell_le_potential(before.stage@, pt.r as int, pt.c as int);
                    crate::grid::lemma_potential_nonneg(before.stage@);
                }
                let k = self.remove_point_possibility_bat(pt, m);
                proof {
                    lemma_point_progress(before, *self, pt.r as int, pt.c as int, m, k as int);
                    lemma_wrote(before, *self, pt.r as int, pt.c as int, before.at(pt.r as int, pt.c as int) & !(m & 127));
                    lemma_removed_scored(before, *self, pt.r as int, pt.c as int, m, k as int);
                }
                self.put_line_zero(r * 2 + 1, c * 2);
                self.put_line_zero(r * 2 + 1, c * 2 + 2);
                self.put_line_zero(r * 2, c * 2 + 1);
                self.put_line_zero(r * 2 + 2, c * 2 + 1);
                rot = rot + 1;
            }
            let ghost s4 = *self;
            self.checked[r as usize][c as usize] = 2;
            proof {
                assert forall|a: int| 0 <= a < s4.checked@.len() implies #[trigger] self.checked@[a]@.len()
                    == s4.checked@[a]@.len() by {
                    if a != ri {
                        assert(self.checked@[a] == s4.checked@[a]);
                    }
                }
                lemma_wf_keep(s4, *self);
                assert forall|i: int, j: int| #![trigger self.at(i, j)] o.in_grid(i, j) implies self.at(i, j)
                    == after_first_check(o, ri, ci, i, j) by {
                    assert(s4.at(i, j) == self.at(i, j));
                }
            }
        } else if num == 1 {
            //  o---+
            //  | 1 |
            //  +---+
            let mut rot: u8 = 0;
            while rot < 4
                invariant
                    0 <= rot <= 4,
                    o.wf(),
                    o.headroom(),
                    self.wf(),
                    0 <= ri < o.size_r,
                    0 <= ci < o.size_c,
                    ri == r,
                    ci == c,
                    num == 1,
                    num == number_of(o, ri, ci),
                    center.r == 2 * ri + 1,
                    center.c == 2 * ci + 1,
                    self.size_r == o.size_r,
                    self.size_c == o.size_c,
                    self.group == o.group,
                    self.result == o.result,
                    self.score >= o.score,
                    self.score + self.pot() <= o.score + o.pot(),
                    self.score == o.score + first_check_gain(o, ri, ci, rot as int),
                    points_scored(o, *self),
                    forall|i: int, j: int|
                        #![trigger self.at(i, j)]
                        o.in_grid(i, j) ==> self.at(i, j) == if 0 <= corner_index(ri, ci, i, j)
                            < rot {
                            after_first_check(o, ri, ci, i, j)
                        } else {
                            o.at(i, j)
                        },
                decreases 4 - rot,
            {
                let t = idx_point(r, c);
                proof {
                    lemma_turn_cell(ri, ci, o.size_r as int, o.size_c as int, t.r as int, t.c as int, rot as int);
                    lemma_corner(ri, ci, o.size_r as int, o.size_c as int, rot as int);
                    lemma_offset_kind(ri, ci, -1, -1);
                }
                let pt = rot_rc(t, center, rot);
                let m = rot_p(P_RD, rot);
                let ghost before = *self;
                proof {
                    crate::rotation::lemma_rot_single(P_RD, rot);
                    lemma_one_shape(before.at(pt.r as int, pt.c as int), m);
                    crate::grid::lemma_cell_le_potential(before.stage@, pt.r as int, pt.c as int);
                    crate::grid::lemma_potential_nonneg(before.stage@);
                }
                self.remove_point_possibility(pt, m);
                proof {
                    if before.at(pt.r as int, pt.c as int) & m == m {
                        lemma_wrote(before, *self, pt.r as int, pt.c as int, before.at(pt.r as int, pt.c as int) & !m);
                        lemma_one_removed_scored(before, *self, pt.r as int, pt.c as int, m);
                    }
                }
                rot = rot + 1;
            }
            proof {
                assert forall|i: int, j: int| #![trigger self.at(i, j)] o.in_grid(i, j) implies self.at(i, j)
                    == after_first_check(o, ri, ci, i, j) by {}
            }
        } else if num == 3 {
            //  o---+
            //  | 3 |
            //  +---+
            let mut rot: u8 = 0;
            while rot < 4
                invariant
                    0 <= rot <= 4,
                    o.wf(),
                    o.headroom(),
                    self.wf(),
                    0 <= ri < o.size_r,
                    0 <= ci < o.size_c,
                    ri == r,
                    ci == c,
                    num == 3,
                    num == number_of(o, ri, ci),
                    center.r == 2 * ri + 1,
                    center.c == 2 * ci + 1,
                    self.size_r == o.size_r,
                    self.size_c == o.size_c,
                    self.group == o.group,
                    self.result == o.result,
                    self.score >= o.score,
                    self.score + self.pot() <= o.score + o.pot(),
                    self.score == o.score + first_check_gain(o, ri, ci, rot as int),
                    points_scored(o, *self),
                    forall|i: int, j: int|
                        #![trigger self.at(i, j)]
                        o.in_grid(i, j) ==> self.at(i, j) == if 0 <= corner_index(ri, ci, i, j)
                            < rot {
                            after_first_check(o, ri, ci, i, j)
                        } else {
                            o.at(i, j)
                        },
                decreases 4 - rot,
            {
                let t = idx_point(r, c);
                proof {
                    lemma_turn_cell(ri, ci, o.size_r as int, o.size_c as int, t.r as int, t.c as int, rot as int);
                    lemma_corner(ri, ci, o.size_r as int, o.size_c as int, rot as int);
                    lemma_offset_kind(ri, ci, -1, -1);
                }
                let pt = rot_rc(t, center, rot);
                let m = rot_p(P_UL | P_NONE, rot);
                let ghost before = *self;
                proof {
                    lemma_shapes_split(before.at(pt.r as int, pt.c as int), m);
                    lemma_shapes_nonneg2(before.at(pt.r as int, pt.c as int) & !(m & 127));
                    crate::grid::lemma_cell_le_potential(before.stage@, pt.r as int, pt.c as int);
                    crate::grid::lemma_potential_nonneg(before.stage@);
                }
                let k = self.remove_point_possibility_bat(pt, m);
                proof {
                    lemma_point_progress(before, *self, pt.r as int, pt.c as int, m, k as int);
                    lemma_wrote(before, *self, pt.r as int, pt.c as int, before.at(pt.r as int, pt.c as int) & !(m & 127));
                    lemma_removed_scored(before, *self, pt.r as int, pt.c as int, m, k as int);
                }
                rot = rot + 1;
            }
            proof {
                assert forall|i: int, j: int| #![trigger self.at(i, j)] o.in_grid(i, j) implies self.at(i, j)
                    == after_first_check(o, ri, ci, i, j) by {}
            }
        } else {
            proof {
                reveal_with_fuel(first_check_gain, 5);
            }
        }
    }

    /// Writes `0` at the line position `(x, y)`.
    fn put_line_zero(&mut self, x: isize, y: isize)
        requires
            old(self).wf(),
            old(self).in_grid(x as int, y as int),
            is_line_pos(x as int, y as int),
        ensures
            final(self).wf(),
            wrote(*old(self), *final(self), x as int, y as int, 0),
            final(self).pot() <= old(self).pot(),
            final(self).size_r == old(self).size_r,
            final(self).size_c == old(self).size_c,
            final(self).group == old(self).group,
            final(self).result == old(self).result,
            final(self).score == old(self).score,
            final(self).checked == old(self).checked,
            points_scored(*old(self), *final(self)),
            forall|i: int, j: int|
                #![trigger final(self).at(i, j)]
                old(self).in_grid(i, j) ==> final(self).at(i, j) == if i == x && j == y {
                    0
                } else {
                    old(self).at(i, j)
                },
    {
        let ghost o = *self;
        self.stage[x as usize][y as usize] = 0;
        proof {
            lemma_wrote(o, *self, x as int, y as int, 0);
            lemma_line_scored(o, *self, x as int, y as int, 0);
        }
    }
}

proof fn lemma_shapes_nonneg2(v: i8)
    ensures
        shapes_left(v) >= 0,
{
}

/// The score of `s` grew by exactly the shapes its points lost since `o`.
pub open spec fn points_scored(o: SolvingStage, s: SolvingStage) -> bool {
    s.score + point_potential(s.stage@) == o.score + point_potential(o.stage@)
}

/// Removing shapes from a point scores exactly the shapes removed.
proof fn lemma_removed_scored(o: SolvingStage, s: SolvingStage, x: int, y: int, q: i8, k: int)
    requires
        o.wf(),
        o.in_grid(x, y),
        is_point_pos(x, y),
        removed_shapes(o, s, x, y, q, k),
    ensures
        points_scored(o, s),
{
    let v = o.at(x, y);
    crate::edit::lemma_shapes_split(v, q);
    lemma_point_potential_update(o.stage@, s.stage@, x, y, v & !(q & 127));
}

/// Removing one shape a point still had scores one.
proof fn lemma_one_removed_scored(o: SolvingStage, s: SolvingStage, x: int, y: int, m: i8)
    requires
        o.wf(),
        o.in_grid(x, y),
        is_point_pos(x, y),
        wrote(o, s, x, y, o.at(x, y) & !m),
        shapes_left(o.at(x, y) & !m) == shapes_left(o.at(x, y)) - 1,
        s.score == o.score + 1,
    ensures
        points_scored(o, s),
{
    lemma_point_potential_update(o.stage@, s.stage@, x, y, o.at(x, y) & !m);
}

/// Writing a line does not change the point potential.
proof fn lemma_line_scored(o: SolvingStage, s: SolvingStage, x: int, y: int, v: i8)
    requires
        o.wf(),
        o.in_grid(x, y),
        is_line_pos(x, y),
        wrote(o, s, x, y, v),
        s.score == o.score,
    ensures
        points_scored(o, s),
{
    lemma_point_potential_update(o.stage@, s.stage@, x, y, v);
}

proof fn lemma_one_shape(v: i8, m: i8)
    requires
        m == 1 || m == 2 || m == 4 || m == 8 || m == 16 || m == 32 || m == 64,
    ensures
        v & m == m ==> shapes_left(v & !m) == shapes_left(v) - 1,
        v & m == m ==> (v & !m) & v == (v & !m),
{
    if v & m == m {
        crate::grid::lemma_clear_one_shape(v, m);
    }
}


/// Removing shapes from a point is progress, shrinks only that point, and leaves it
/// without the removed shapes.
proof fn lemma_removed(o: SolvingStage, s: SolvingStage, x: int, y: int, q: i8, k: int)
    requires
        o.wf(),
        s.wf(),
        o.in_grid(x, y),
        is_point_pos(x, y),
        removed_shapes(o, s, x, y, q, k),
    ensures
        progress(o, s, k),
        points_shrunk(o, s),
        s.at(x, y) == o.at(x, y) & !(q & 127),
{
    let v = o.at(x, y);
    lemma_shapes_split(v, q);
    lemma_shapes_nonneg2(v & !(q & 127));
    lemma_point_progress(o, s, x, y, q, k);
    lemma_wrote(o, s, x, y, v & !(q & 127));
    lemma_closed_bits(0, 0, q, v);
    assert forall|i: int, j: int| #![trigger s.at(i, j)] o.in_grid(i, j) implies if is_point_pos(i, j) {
        s.at(i, j) & o.at(i, j) == s.at(i, j)
    } else {
        s.at(i, j) == o.at(i, j)
    } by {
        lemma_subset_trans(o.at(i, j), o.at(i, j), o.at(i, j));
    }
}

/// The shapes a point can lose fit in the score.
proof fn lemma_removal_room(o: SolvingStage, x: int, y: int, q: i8)
    requires
        o.wf(),
        o.in_grid(x, y),
        is_point_pos(x, y),
    ensures
        shapes_left(o.at(x, y) & q) <= o.pot(),
{
    let v = o.at(x, y);
    lemma_shapes_split(v, q);
    lemma_shapes_nonneg2(v & !(q & 127));
    crate::grid::lemma_cell_le_potential(o.stage@, x, y);
}


/// The shapes the number of cell `(r, c)` of `o` rules out at grid position `(i, j)`:
/// those of `first_mask` at a corner of the cell, when the number is 0, 1 or 3.
pub open spec fn cell_mask(o: SolvingStage, r: int, c: int, i: int, j: int) -> i8 {
    let num = number_of(o, r, c);
    if 0 <= r < o.size_r && 0 <= c < o.size_c && (num == 0 || num == 1 || num == 3) && corner_index(
        r,
        c,
        i,
        j,
    ) >= 0 {
        first_mask(num, corner_index(r, c, i, j))
    } else {
        0
    }
}

/// `cell_mask` of cell `(r, c)` when that cell comes before cell `(rr, cc)`, rows first.
pub open spec fn mask_before(o: SolvingStage, r: int, c: int, i: int, j: int, rr: int, cc: int) -> i8 {
    if r < rr || (r == rr && c < cc) {
        cell_mask(o, r, c, i, j)
    } else {
        0
    }
}

/// The shapes ruled out at point `(i, j)` by the numbers of the four cells around it that
/// come before cell `(rr, cc)`.
pub open spec fn numbers_mask_upto(o: SolvingStage, i: int, j: int, rr: int, cc: int) -> i8 {
    let p = i / 2;
    let q = j / 2;
    mask_before(o, p - 1, q - 1, i, j, rr, cc) | mask_before(o, p - 1, q, i, j, rr, cc) | mask_before(
        o,
        p,
        q - 1,
        i,
        j,
        rr,
        cc,
    ) | mask_before(o, p, q, i, j, rr, cc)
}

/// The shapes ruled out at point `(i, j)` by the numbers of the four cells around it.
pub open spec fn numbers_mask(o: SolvingStage, i: int, j: int) -> i8 {
    numbers_mask_upto(o, i, j, o.size_r as int, 0)
}

proof fn lemma_clear_bits(v: i8, x: i8, m: i8)
    by (bit_vector)
    ensures
        (v & !(x & 127)) & !(m & 127) == v & !((x | m) & 127),
        v & !((0i8 | 0i8 | 0i8 | 0i8) & 127) == v,
{
}

proof fn lemma_or_slot(a: i8, b: i8, c: i8, m: i8)
    by (bit_vector)
    ensures
        (m | a | b | c) == (0i8 | a | b | c) | m,
        (a | m | b | c) == (a | 0i8 | b | c) | m,
        (a | b | m | c) == (a | b | 0i8 | c) | m,
        (a | b | c | m) == (a | b | c | 0i8) | m,
{
}

proof fn lemma_single_clear(v: i8, m: i8)
    by (bit_vector)
    requires
        m == 1 || m == 2 || m == 4 || m == 8 || m == 16 || m == 32 || m == 64,
    ensures
        (if v & m == m {
            v & !m
        } else {
            v
        }) == v & !(m & 127),
{
}

/// One cell's first deductions add its shapes to the ones cleared at each point.
proof fn lemma_mask_step(o: SolvingStage, b: SolvingStage, s: SolvingStage, s3: SolvingStage, r: int, c: int)
    requires
        o.wf(),
        b.size_r == o.size_r,
        b.size_c == o.size_c,
        0 <= r < o.size_r,
        0 <= c < o.size_c,
        number_of(b, r, c) == number_of(o, r, c),
        forall|i: int, j: int| #![trigger s.at(i, j)] o.in_grid(i, j) ==> s.at(i, j) == after_first_check(b, r, c, i, j),
        forall|i: int, j: int|
            #![trigger b.at(i, j)]
            o.in_grid(i, j) && is_point_pos(i, j) ==> b.at(i, j) == s3.at(i, j) & !(numbers_mask_upto(
                o,
                i,
                j,
                r,
                c,
            ) & 127),
    ensures
        forall|i: int, j: int|
            #![trigger s.at(i, j)]
            o.in_grid(i, j) && is_point_pos(i, j) ==> s.at(i, j) == s3.at(i, j) & !(numbers_mask_upto(
                o,
                i,
                j,
                r,
                c + 1,
            ) & 127),
{
    assert forall|i: int, j: int|
        #![trigger s.at(i, j)]
        o.in_grid(i, j) && is_point_pos(i, j) implies s.at(i, j) == s3.at(i, j) & !(numbers_mask_upto(
            o,
            i,
            j,
            r,
            c + 1,
        ) & 127) by {
        assert(b.at(i, j) == s3.at(i, j) & !(numbers_mask_upto(o, i, j, r, c) & 127));
        let p = i / 2;
        let q = j / 2;
        let a0 = mask_before(o, p - 1, q - 1, i, j, r, c);
        let a1 = mask_before(o, p - 1, q, i, j, r, c);
        let a2 = mask_before(o, p, q - 1, i, j, r, c);
        let a3 = mask_before(o, p, q, i, j, r, c);
        let x = numbers_mask_upto(o, i, j, r, c);
        let num = number_of(o, r, c);
        let k = corner_index(r, c, i, j);
        let m = cell_mask(o, r, c, i, j);
        assert(!is_side(r, c, i, j));
        if k >= 0 && (num == 0 || num == 1 || num == 3) {
            lemma_clear_bits(s3.at(i, j), x, m);
            if num == 1 {
                crate::rotation::lemma_rot_single(P_RD, k as u8);
                lemma_single_clear(b.at(i, j), m);
            }
            if p - 1 == r && q - 1 == c {
                lemma_or_slot(a1, a2, a3, m);
            } else if p - 1 == r && q == c {
                lemma_or_slot(a0, a2, a3, m);
            } else if p == r && q - 1 == c {
                lemma_or_slot(a0, a1, a3, m);
            } else {
                lemma_or_slot(a0, a1, a2, m);
            }
        }
    }
}


/// The line shapes the border rules out at point `(i, j)` of `s`, counting only the left
/// points of the first `rl` rows, the right ones of the first `rr`, the upper points of
/// the first `cu` columns and the lower ones of the first `cd`.
pub open spec fn border_mask_upto(s: SolvingStage, i: int, j: int, rl: int, rr: int, cu: int, cd: int) -> i8 {
    (if j == 0 && i < 2 * rl {
        P_LINE_L
    } else {
        0i8
    }) | (if j == 2 * s.size_c && i < 2 * rr {
        P_LINE_R
    } else {
        0i8
    }) | (if i == 0 && j < 2 * cu {
        P_LINE_U
    } else {
        0i8
    }) | (if i == 2 * s.size_r && j < 2 * cd {
        P_LINE_D
    } else {
        0i8
    })
}

/// The line shapes the border rules out at point `(i, j)` of `s`: every line that would
/// leave the board.
pub open spec fn border_mask(s: SolvingStage, i: int, j: int) -> i8 {
    border_mask_upto(s, i, j, s.size_r + 1, s.size_r + 1, s.size_c + 1, s.size_c + 1)
}

/// The shapes the first deductions rule out at point `(i, j)` of `o`.
pub open spec fn first_mask_at(o: SolvingStage, i: int, j: int) -> i8 {
    border_mask(o, i, j) | numbers_mask(o, i, j)
}

/// One border point losing the line off the board adds that line to its cleared shapes.
proof fn lemma_border_step(
    o: SolvingStage,
    b: SolvingStage,
    s: SolvingStage,
    w: int,
    rl: int,
    rr: int,
    cu: int,
    cd: int,
)
    requires
        o.wf(),
        b.wf(),
        b.size_r == o.size_r,
        b.size_c == o.size_c,
        0 <= w < 4,
        0 <= rl,
        0 <= rr,
        0 <= cu,
        0 <= cd,
        w == 0 ==> rl <= o.size_r && wrote(b, s, 2 * rl, 0, b.at(2 * rl, 0) & !(P_LINE_L & 127)),
        w == 1 ==> rr <= o.size_r && wrote(b, s, 2 * rr, 2 * o.size_c, b.at(2 * rr, 2 * o.size_c) & !(P_LINE_R & 127)),
        w == 2 ==> cu <= o.size_c && wrote(b, s, 0, 2 * cu, b.at(0, 2 * cu) & !(P_LINE_U & 127)),
        w == 3 ==> cd <= o.size_c && wrote(b, s, 2 * o.size_r, 2 * cd, b.at(2 * o.size_r, 2 * cd) & !(P_LINE_D & 127)),
        forall|i: int, j: int|
            #![trigger b.at(i, j)]
            o.in_grid(i, j) && is_point_pos(i, j) ==> b.at(i, j) == o.at(i, j) & !(border_mask_upto(
                o,
                i,
                j,
                rl,
                rr,
                cu,
                cd,
            ) & 127),
    ensures
        forall|i: int, j: int|
            #![trigger s.at(i, j)]
            o.in_grid(i, j) && is_point_pos(i, j) ==> s.at(i, j) == o.at(i, j) & !(border_mask_upto(
                o,
                i,
                j,
                if w == 0 { rl + 1 } else { rl },
                if w == 1 { rr + 1 } else { rr },
                if w == 2 { cu + 1 } else { cu },
                if w == 3 { cd + 1 } else { cd },
            ) & 127),
{
    let rl2 = if w == 0 { rl + 1 } else { rl };
    let rr2 = if w == 1 { rr + 1 } else { rr };
    let cu2 = if w == 2 { cu + 1 } else { cu };
    let cd2 = if w == 3 { cd + 1 } else { cd };
    let x = if w == 0 { 2 * rl } else if w == 1 { 2 * rr } else if w == 2 { 0 } else { 2 * o.size_r };
    let y = if w == 0 { 0 } else if w == 1 { 2 * o.size_c } else if w == 2 { 2 * cu } else { 2 * cd };
    let q = if w == 0 { P_LINE_L } else if w == 1 { P_LINE_R } else if w == 2 { P_LINE_U } else { P_LINE_D };
    assert forall|i: int, j: int|
        #![trigger s.at(i, j)]
        o.in_grid(i, j) && is_point_pos(i, j) implies s.at(i, j) == o.at(i, j) & !(border_mask_upto(
            o,
            i,
            j,
            rl2,
            rr2,
            cu2,
            cd2,
        ) & 127) by {
        assert(b.at(i, j) == o.at(i, j) & !(border_mask_upto(o, i, j, rl, rr, cu, cd) & 127));
        let a0 = if j == 0 && i < 2 * rl { P_LINE_L } else { 0i8 };
        let a1 = if j == 2 * o.size_c && i < 2 * rr { P_LINE_R } else { 0i8 };
        let a2 = if i == 0 && j < 2 * cu { P_LINE_U } else { 0i8 };
        let a3 = if i == 2 * o.size_r && j < 2 * cd { P_LINE_D } else { 0i8 };
        assert(b.in_grid(i, j));
        assert(b.in_grid(x, y));
        if i == x && j == y {
            assert(s.at(i, j) == b.at(i, j) & !(q & 127));
            lemma_clear_bits(o.at(i, j), border_mask_upto(o, i, j, rl, rr, cu, cd), q);
            if w == 0 {
                lemma_or_slot(a1, a2, a3, q);
            } else if w == 1 {
                lemma_or_slot(a0, a2, a3, q);
            } else if w == 2 {
                lemma_or_slot(a0, a1, a3, q);
            } else {
                lemma_or_slot(a0, a1, a2, q);
            }
        } else {
            if i != x {
                assert(s.stage@[i]@ == b.stage@[i]@);
            }
            assert(s.at(i, j) == b.at(i, j));
        }
    }
}

impl SolvingStage {
    /// The first deductions of a board: the border points can send no line off the
    /// board, then every number applies its first deductions: every side of a 0 is
    /// crossed out, and every corner of a 0, a 1 or a 3 loses the shapes that number
    /// rules out there (`corner_cleared`). Each point keeps exactly the shapes that
    /// neither the border nor a number around it rules out (`first_mask_at`), and the
    /// score grows by the number of shapes the points lost.
    #[verifier::spinoff_prover]
    pub fn first_check(&mut self)
        requires
            old(self).wf(),
            old(self).headroom(),
        ensures
            final(self).wf(),
            final(self).headroom(),
            final(self).score + final(self).pot() <= old(self).score + old(self).pot(),
            final(self).size_r == old(self).size_r,
            final(self).size_c == old(self).size_c,
            final(self).group == old(self).group,
            final(self).result == old(self).result,
            borders_closed_rows(*final(self), old(self).size_r + 1),
            borders_closed_cols(*final(self), old(self).size_c + 1),
            forall|i: int, j: int|
                #![trigger final(self).at(i, j)]
                old(self).in_grid(i, j) ==> {
                    &&& is_number_pos(i, j) ==> final(self).at(i, j) == old(self).at(i, j)
                    &&& is_point_pos(i, j) ==> final(self).at(i, j) & old(self).at(i, j)
                        == final(self).at(i, j)
                    &&& is_line_pos(i, j) ==> final(self).at(i, j) == if zero_beside(*old(self), i, j) {
                        0
                    } else {
                        old(self).at(i, j)
                    }
                },
            forall|r: int, c: int, k: int|
                0 <= r < old(self).size_r && 0 <= c < old(self).size_c && 0 <= k < 4
                    ==> #[trigger] corner_cleared(*old(self), *final(self), r, c, k),
            points_scored(*old(self), *final(self)),
            forall|i: int, j: int|
                #![trigger final(self).at(i, j)]
                old(self).in_grid(i, j) && is_point_pos(i, j) ==> final(self).at(i, j) == old(self).at(i, j)
                    & !(first_mask_at(*old(self), i, j) & 127),
    {
        let ghost o = *self;
        proof {
            assert forall|i: int, j: int|
                #![trigger self.at(i, j)]
                o.in_grid(i, j) && is_point_pos(i, j) implies self.at(i, j) == o.at(i, j) & !(
                border_mask_upto(o, i, j, 0, 0, 0, 0) & 127) by {
                lemma_clear_bits(o.at(i, j), 0, 0);
            }
            lemma_subset_trans(0, 0, 0);
            assert forall|i: int, j: int| #![trigger o.at(i, j)] o.in_grid(i, j) implies if is_point_pos(i, j) {
                o.at(i, j) & o.at(i, j) == o.at(i, j)
            } else {
                o.at(i, j) == o.at(i, j)
            } by {
                lemma_subset_trans(o.at(i, j), o.at(i, j), o.at(i, j));
            }
        }
        let mut r: isize = 0;
        while r < self.size_r + 1
            invariant
                0 <= r <= o.size_r + 1,
                o.wf(),
                o.headroom(),
                self.wf(),
                self.size_r == o.size_r,
                self.size_c == o.size_c,
                self.group == o.group,
                self.result == o.result,
                self.score + self.pot() <= o.score + o.pot(),
                points_scored(o, *self),
                points_shrunk(o, *self),
                borders_closed_rows(*self, r as int),
                forall|i: int, j: int|
                    #![trigger self.at(i, j)]
                    o.in_grid(i, j) && is_point_pos(i, j) ==> self.at(i, j) == o.at(i, j) & !(
                    border_mask_upto(o, i, j, r as int, r as int, 0, 0) & 127),
            decreases o.size_r + 1 - r,
        {
            let ghost s1 = *self;
            proof {
                lemma_offset_kind(r as int, 0, 0, 0);
                lemma_offset_kind(r as int, o.size_c as int, 0, 0);
                lemma_removal_room(s1, 2 * r as int, 0, P_LINE_L);
                crate::grid::lemma_potential_nonneg(s1.stage@);
            }
            let k1 = self.first_check_point_left(r);
            let ghost s2 = *self;
            proof {
                lemma_removed(s1, s2, 2 * r as int, 0, P_LINE_L, k1 as int);
                lemma_border_step(o, s1, s2, 0, r as int, r as int, 0, 0);
                lemma_removed_scored(s1, s2, 2 * r as int, 0, P_LINE_L, k1 as int);
                lemma_closed_bits(0, 0, P_LINE_L, s1.at(2 * r as int, 0));
                lemma_removal_room(s2, 2 * r as int, 2 * o.size_c as int, P_LINE_R);
                crate::grid::lemma_potential_nonneg(s2.stage@);
            }
            let k2 = self.first_check_point_right(r);
            proof {
                lemma_removed(s2, *self, 2 * r as int, 2 * o.size_c as int, P_LINE_R, k2 as int);
                lemma_border_step(o, s2, *self, 1, r + 1, r as int, 0, 0);
                lemma_removed_scored(s2, *self, 2 * r as int, 2 * o.size_c as int, P_LINE_R, k2 as int);
                lemma_closed_bits(0, 0, P_LINE_R, s2.at(2 * r as int, 2 * o.size_c as int));
                lemma_closed_bits(s2.at(2 * r as int, 0), self.at(2 * r as int, 0), P_LINE_L, 0);
                lemma_shrunk_trans(o, s1, s2);
                lemma_shrunk_trans(o, s2, *self);
                lemma_shrunk_trans(s1, s2, *self);
                lemma_borders_kept(s1, *self, r as int, 0);
                let ri = r as int;
                assert(self.at(2 * ri, 0) & P_LINE_L == 0);
                assert(self.at(2 * ri, 2 * self.size_c) & P_LINE_R == 0);
                lemma_extend_rows(*self, ri);
            }
            r = r + 1;
        }
        let mut c: isize = 0;
        while c < self.size_c + 1
            invariant
                0 <= c <= o.size_c + 1,
                o.wf(),
                o.headroom(),
                self.wf(),
                self.size_r == o.size_r,
                self.size_c == o.size_c,
                self.group == o.group,
                self.result == o.result,
                self.score + self.pot() <= o.score + o.pot(),
                points_scored(o, *self),
                points_shrunk(o, *self),
                borders_closed_rows(*self, o.size_r + 1),
                borders_closed_cols(*self, c as int),
                forall|i: int, j: int|
                    #![trigger self.at(i, j)]
                    o.in_grid(i, j) && is_point_pos(i, j) ==> self.at(i, j) == o.at(i, j) & !(
                    border_mask_upto(o, i, j, o.size_r + 1, o.size_r + 1, c as int, c as int) & 127),
            decreases o.size_c + 1 - c,
        {
            let ghost s1 = *self;
            proof {
                lemma_offset_kind(0, c as int, 0, 0);
                lemma_offset_kind(o.size_r as int, c as int, 0, 0);
                lemma_removal_room(s1, 0, 2 * c as int, P_LINE_U);
                crate::grid::lemma_potential_nonneg(s1.stage@);
            }
            let k1 = self.first_check_point_up(c);
            let ghost s2 = *self;
            proof {
                lemma_removed(s1, s2, 0, 2 * c as int, P_LINE_U, k1 as int);
                lemma_border_step(o, s1, s2, 2, o.size_r + 1, o.size_r + 1, c as int, c as int);
                lemma_removed_scored(s1, s2, 0, 2 * c as int, P_LINE_U, k1 as int);
                lemma_closed_bits(0, 0, P_LINE_U, s1.at(0, 2 * c as int));
                lemma_removal_room(s2, 2 * o.size_r as int, 2 * c as int, P_LINE_D);
                crate::grid::lemma_potential_nonneg(s2.stage@);
            }
            let k2 = self.first_check_point_down(c);
            proof {
                lemma_removed(s2, *self, 2 * o.size_r as int, 2 * c as int, P_LINE_D, k2 as int);
                lemma_border_step(o, s2, *self, 3, o.size_r + 1, o.size_r + 1, c + 1, c as int);
                lemma_removed_scored(s2, *self, 2 * o.size_r as int, 2 * c as int, P_LINE_D, k2 as int);
                lemma_closed_bits(0, 0, P_LINE_D, s2.at(2 * o.size_r as int, 2 * c as int));
                lemma_closed_bits(s2.at(0, 2 * c as int), self.at(0, 2 * c as int), P_LINE_U, 0);
                lemma_shrunk_trans(o, s1, s2);
                lemma_shrunk_trans(o, s2, *self);
                lemma_shrunk_trans(s1, s2, *self);
                lemma_borders_kept(s1, *self, o.size_r + 1, c as int);
                let ci = c as int;
                assert(self.at(0, 2 * ci) & P_LINE_U == 0);
                assert(self.at(2 * self.size_r, 2 * ci) & P_LINE_D == 0);
                lemma_extend_cols(*self, ci);
            }
            c = c + 1;
        }
        let ghost s3 = *self;
        self.first_check_numbers(Ghost(o));
        proof {
            assert forall|i: int, j: int|
                #![trigger self.at(i, j)]
                o.in_grid(i, j) && is_point_pos(i, j) implies self.at(i, j) == o.at(i, j) & !(
                first_mask_at(o, i, j) & 127) by {
                assert(s3.at(i, j) == o.at(i, j) & !(border_mask(o, i, j) & 127));
                lemma_clear_bits(o.at(i, j), border_mask(o, i, j), numbers_mask(o, i, j));
            }
        }
    }

    /// The first deductions of every number, row after row.
    fn first_check_numbers(&mut self, Ghost(o): Ghost<SolvingStage>)
        requires
            o.wf(),
            o.headroom(),
            old(self).wf(),
            old(self).size_r == o.size_r,
            old(self).size_c == o.size_c,
            old(self).group == o.group,
            old(self).result == o.result,
            old(self).score + old(self).pot() <= o.score + o.pot(),
            points_shrunk(o, *old(self)),
            borders_closed_rows(*old(self), o.size_r + 1),
            borders_closed_cols(*old(self), o.size_c + 1),
        ensures
            final(self).wf(),
            final(self).headroom(),
            final(self).score + final(self).pot() <= o.score + o.pot(),
            final(self).size_r == o.size_r,
            final(self).size_c == o.size_c,
            final(self).group == o.group,
            final(self).result == o.result,
            borders_closed_rows(*final(self), o.size_r + 1),
            borders_closed_cols(*final(self), o.size_c + 1),
            forall|i: int, j: int|
                #![trigger final(self).at(i, j)]
                o.in_grid(i, j) ==> {
                    &&& is_number_pos(i, j) ==> final(self).at(i, j) == o.at(i, j)
                    &&& is_point_pos(i, j) ==> final(self).at(i, j) & o.at(i, j) == final(self).at(i, j)
                    &&& is_line_pos(i, j) ==> final(self).at(i, j) == if zero_beside(o, i, j) {
                        0
                    } else {
                        o.at(i, j)
                    }
                },
            forall|i: int, j: int, k: int|
                0 <= i < o.size_r && 0 <= j < o.size_c && 0 <= k < 4 ==> #[trigger] corner_cleared(
                    o,
                    *final(self),
                    i,
                    j,
                    k,
                ),
            points_scored(*old(self), *final(self)),
            forall|i: int, j: int|
                #![trigger final(self).at(i, j)]
                o.in_grid(i, j) && is_point_pos(i, j) ==> final(self).at(i, j) == old(self).at(i, j) & !(
                numbers_mask(o, i, j) & 127),
    {
        let ghost s3 = *self;
        proof {
            assert forall|i: int, j: int|
                #![trigger self.at(i, j)]
                o.in_grid(i, j) && is_point_pos(i, j) implies self.at(i, j) == s3.at(i, j) & !(
                numbers_mask_upto(o, i, j, 0, 0) & 127) by {
                lemma_clear_bits(s3.at(i, j), 0, 0);
            }
        }
        let mut r: isize = 0;
        while r < self.size_r
            invariant
                0 <= r <= o.size_r,
                o.wf(),
                o.headroom(),
                self.wf(),
                self.size_r == o.size_r,
                self.size_c == o.size_c,
                self.group == o.group,
                self.result == o.result,
                self.score + self.pot() <= o.score + o.pot(),
                points_scored(s3, *self),
                borders_closed_rows(*self, o.size_r + 1),
                borders_closed_cols(*self, o.size_c + 1),
                forall|i: int, j: int|
                    #![trigger self.at(i, j)]
                    o.in_grid(i, j) ==> {
                        &&& is_number_pos(i, j) ==> self.at(i, j) == o.at(i, j)
                        &&& is_point_pos(i, j) ==> self.at(i, j) & o.at(i, j) == self.at(i, j)
                        &&& is_line_pos(i, j) ==> self.at(i, j) == if zero_beside_upto(o, i, j, r as int, 0) {
                            0
                        } else {
                            o.at(i, j)
                        }
                    },
                forall|i: int, j: int, k: int|
                    0 <= i < r && 0 <= j < o.size_c && 0 <= k < 4 ==> #[trigger] corner_cleared(o, *self, i, j, k),
                forall|i: int, j: int|
                    #![trigger self.at(i, j)]
                    o.in_grid(i, j) && is_point_pos(i, j) ==> self.at(i, j) == s3.at(i, j) & !(
                    numbers_mask_upto(o, i, j, r as int, 0) & 127),
            decreases o.size_r - r,
        {
            let mut c: isize = 0;
            while c < self.size_c
                invariant
                    0 <= r < o.size_r,
                    0 <= c <= o.size_c,
                    o.wf(),
                    o.headroom(),
                    self.wf(),
                    self.size_r == o.size_r,
                    self.size_c == o.size_c,
                    self.group == o.group,
                    self.result == o.result,
                    self.score + self.pot() <= o.score + o.pot(),
                    points_scored(s3, *self),
                    borders_closed_rows(*self, o.size_r + 1),
                    borders_closed_cols(*self, o.size_c + 1),
                    forall|i: int, j: int|
                        #![trigger self.at(i, j)]
                        o.in_grid(i, j) ==> {
                            &&& is_number_pos(i, j) ==> self.at(i, j) == o.at(i, j)
                            &&& is_point_pos(i, j) ==> self.at(i, j) & o.at(i, j) == self.at(i, j)
                            &&& is_line_pos(i, j) ==> self.at(i, j) == if zero_beside_upto(o, i, j, r as int, c as int) {
                                0
                            } else {
                                o.at(i, j)
                            }
                        },
                    forall|i: int, j: int, k: int|
                        ((0 <= i < r && 0 <= j < o.size_c) || (i == r && 0 <= j < c)) && 0 <= k < 4 ==> #[trigger] corner_cleared(o, *self, i, j, k),
                    forall|i: int, j: int|
                        #![trigger self.at(i, j)]
                        o.in_grid(i, j) && is_point_pos(i, j) ==> self.at(i, j) == s3.at(i, j) & !(
                        numbers_mask_upto(o, i, j, r as int, c as int) & 127),
                decreases o.size_c - c,
            {
                let ghost before = *self;
                self.first_check_number(r, c);
                proof {
                    assert(number_of(before, r as int, c as int) == number_of(o, r as int, c as int)) by {
                        lemma_offset_kind(r as int, c as int, 0, 0);
                    }
                    lemma_mask_step(o, before, *self, s3, r as int, c as int);
                    lemma_first_step(o, before, *self, r as int, c as int);
                    assert forall|i: int, j: int, k: int|
                        ((0 <= i < r && 0 <= j < o.size_c) || (i == r && 0 <= j < c + 1)) && 0 <= k < 4 implies #[trigger] corner_cleared(o, *self, i, j, k) by {
                        if !(i == r && j == c) {
                            assert(corner_cleared(o, before, i, j, k));
                            lemma_cleared_kept(o, before, *self, i, j, k);
                        }
                    }
                }
                c = c + 1;
            }
            proof {
                assert forall|i: int, j: int|
                    #![trigger self.at(i, j)]
                    o.in_grid(i, j) && is_point_pos(i, j) implies self.at(i, j) == s3.at(i, j) & !(
                    numbers_mask_upto(o, i, j, r + 1, 0) & 127) by {
                    assert(numbers_mask_upto(o, i, j, r as int, o.size_c as int) == numbers_mask_upto(
                        o,
                        i,
                        j,
                        r + 1,
                        0,
                    ));
                }
            }
            r = r + 1;
        }
    }
}

/// One cell's first deductions keep the facts of the ones before it.
proof fn lemma_first_step(o: SolvingStage, b: SolvingStage, s: SolvingStage, r: int, c: int)
    requires
        o.wf(),
        b.wf(),
        s.wf(),
        b.size_r == o.size_r,
        b.size_c == o.size_c,
        s.size_r == o.size_r,
        s.size_c == o.size_c,
        0 <= r < o.size_r,
        0 <= c < o.size_c,
        borders_closed_rows(b, o.size_r + 1),
        borders_closed_cols(b, o.size_c + 1),
        forall|i: int, j: int|
            #![trigger b.at(i, j)]
            o.in_grid(i, j) ==> {
                &&& is_number_pos(i, j) ==> b.at(i, j) == o.at(i, j)
                &&& is_point_pos(i, j) ==> b.at(i, j) & o.at(i, j) == b.at(i, j)
                &&& is_line_pos(i, j) ==> b.at(i, j) == if zero_beside_upto(o, i, j, r, c) {
                    0
                } else {
                    o.at(i, j)
                }
            },
        forall|i: int, j: int|
            #![trigger s.at(i, j)]
            b.in_grid(i, j) ==> s.at(i, j) == after_first_check(b, r, c, i, j),
    ensures
        borders_closed_rows(s, o.size_r + 1),
        borders_closed_cols(s, o.size_c + 1),
        forall|i: int, j: int|
            #![trigger s.at(i, j)]
            o.in_grid(i, j) ==> {
                &&& is_number_pos(i, j) ==> s.at(i, j) == o.at(i, j)
                &&& is_point_pos(i, j) ==> s.at(i, j) & o.at(i, j) == s.at(i, j)
                &&& is_line_pos(i, j) ==> s.at(i, j) == if zero_beside_upto(o, i, j, r, c + 1) {
                    0
                } else {
                    o.at(i, j)
                }
            },
        forall|i: int, j: int|
            #![trigger s.at(i, j)]
            b.in_grid(i, j) && is_point_pos(i, j) ==> s.at(i, j) & b.at(i, j) == s.at(i, j),
        forall|k: int| 0 <= k < 4 ==> #[trigger] corner_cleared(o, s, r, c, k),
{
    assert(number_of(b, r, c) == number_of(o, r, c)) by {
        lemma_offset_kind(r, c, 0, 0);
    }
    assert forall|k: int| 0 <= k < 4 implies #[trigger] corner_cleared(o, s, r, c, k) by {
        let x = if k == 0 || k == 1 {
            2 * r
        } else {
            2 * r + 2
        };
        let y = if k == 0 || k == 3 {
            2 * c
        } else {
            2 * c + 2
        };
        lemma_offset_kind(r, c, x - (2 * r + 1), y - (2 * c + 1));
        assert(b.in_grid(x, y));
        assert(corner_index(r, c, x, y) == k);
        assert(!is_side(r, c, x, y));
        let num = number_of(o, r, c);
        let m = first_mask(num, k);
        let v = b.at(x, y);
        lemma_closed_bits(0, 0, m, v);
        if num == 1 {
            crate::rotation::lemma_rot_single(P_RD, k as u8);
            lemma_cleared_bits(v, 0, 0, m);
        }
    }
    assert forall|i: int, j: int| #![trigger s.at(i, j)] o.in_grid(i, j) implies {
        &&& is_number_pos(i, j) ==> s.at(i, j) == o.at(i, j)
        &&& is_point_pos(i, j) ==> s.at(i, j) & o.at(i, j) == s.at(i, j)
        &&& is_line_pos(i, j) ==> s.at(i, j) == if zero_beside_upto(o, i, j, r, c + 1) {
            0
        } else {
            o.at(i, j)
        }
    } by {
        let v = b.at(i, j);
        assert(b.in_grid(i, j));
        lemma_closed_bits(0, 0, first_mask(number_of(b, r, c), corner_index(r, c, i, j)), v);
        if is_point_pos(i, j) {
            lemma_subset_trans(s.at(i, j), b.at(i, j), o.at(i, j));
        }
    }
    assert forall|i: int, j: int|
        #![trigger s.at(i, j)]
        b.in_grid(i, j) && is_point_pos(i, j) implies s.at(i, j) & b.at(i, j) == s.at(i, j) by {
        let v = b.at(i, j);
        lemma_closed_bits(0, 0, first_mask(number_of(b, r, c), corner_index(r, c, i, j)), v);
        lemma_subset_trans(v, v, v);
    }
    lemma_borders_kept(b, s, o.size_r + 1, o.size_c + 1);
}

} // verus!
