use vstd::prelude::*;
use crate::grid::{
    lemma_cell_le_potential, lemma_potential_nonneg,
    bit_in, cell_weight, is_line_pos, is_point_pos, lemma_subset_trans, shapes_left,
};
use crate::rotation::{all_p, fits_isize, idx_point, shape_bit, shape_mask, RowCol, P_ALL, P_LINE_D,
    P_LINE_L, P_LINE_R, P_LINE_U};
use crate::stage::{
    checked_after, lemma_progress_trans, lemma_wf_keep, lemma_checked_after_same, lemma_refines_trans, lemma_line_progress, lemma_point_progress, lemma_same_grid_progress, lemma_checked_after_twice, lemma_wrote_same, lemma_wrote_twice, lemma_wrote, near, progress, refines, removed_shapes, lines_binary,
    wrote, SolvingStage, K_LINE, K_POINT_POS,
};

verus! {

/// Bits of `v & q` and `v & !q` split the shape bits of `v`.
proof fn lemma_split_bits(v: i8, q: i8, b: i8)
    by (bit_vector)
    requires
        b == 1 || b == 2 || b == 4 || b == 8 || b == 16 || b == 32 || b == 64,
    ensures
        ((v & !(q & 127)) & b == b) == (v & b == b && q & b != b),
        ((v & q) & b == b) == (v & b == b && q & b == b),
        (v & !(q & 127)) & v == (v & !(q & 127)),
        q & b == b ==> (v & !(q & 127)) & b != b,
{
}

pub proof fn lemma_shapes_split(v: i8, q: i8)
    ensures
        shapes_left(v & !(q & 127)) == shapes_left(v) - shapes_left(v & q),
        (v & !(q & 127)) & v == (v & !(q & 127)),
{
    lemma_split_bits(v, q, 1);
    lemma_split_bits(v, q, 2);
    lemma_split_bits(v, q, 4);
    lemma_split_bits(v, q, 8);
    lemma_split_bits(v, q, 16);
    lemma_split_bits(v, q, 32);
    lemma_split_bits(v, q, 64);
}

/// The point effect of clearing bits `q & mask` of `v0`, one shape bit at a time.
proof fn lemma_bat_step(v0: i8, q: i8, b: i8, m: i8, m2: i8)
    by (bit_vector)
    requires
        (b == 1 && m == 0 && m2 == 1) || (b == 2 && m == 1 && m2 == 3) || (b == 4 && m == 3 && m2
            == 7) || (b == 8 && m == 7 && m2 == 15) || (b == 16 && m == 15 && m2 == 31) || (b == 32
            && m == 31 && m2 == 63) || (b == 64 && m == 63 && m2 == 127),
    ensures
        (q & b == b && (v0 & !(q & m)) & b == b) ==> (v0 & !(q & m)) & !b == v0 & !(q & m2),
        (q & b == b && (v0 & !(q & m)) & b != b) ==> (v0 & !(q & m)) == v0 & !(q & m2),
        q & b != b ==> (v0 & !(q & m)) == v0 & !(q & m2),
        (q & b == b) ==> (((v0 & !(q & m)) & b == b) == ((v0 & q) & b == b)),
        (q & b != b) ==> ((v0 & q) & b != b),
        v0 & !(q & 0) == v0,
        q & 127 & 127 == q & 127,
{
}

pub open spec fn count_bits(x: i8, n: int) -> int
    decreases n,
{
    if n <= 0 {
        0
    } else {
        count_bits(x, n - 1) + bit_in(x, shape_bit(n - 1))
    }
}

proof fn lemma_count_bits_all(x: i8)
    ensures
        count_bits(x, 7) == shapes_left(x),
{
    reveal_with_fuel(count_bits, 8);
}

impl SolvingStage {
    /// Marks cell `(i, j)` as not examined if it was examined.
    fn uncheck(&mut self, i: isize, j: isize)
        requires
            old(self).wf(),
            0 <= i < old(self).size_r,
            0 <= j < old(self).size_c,
        ensures
            final(self).wf(),
            final(self).stage == old(self).stage,
            final(self).size_r == old(self).size_r,
            final(self).size_c == old(self).size_c,
            final(self).group == old(self).group,
            final(self).result == old(self).result,
            final(self).score == old(self).score,
            final(self).checked@.len() == old(self).checked@.len(),
            forall|k: int|
                0 <= k < old(self).checked@.len() ==> #[trigger] final(self).checked@[k]@.len()
                    == old(self).checked@[k]@.len(),
            forall|a: int, b: int|
                0 <= a < old(self).checked@.len() && 0 <= b < old(self).checked@[a]@.len()
                    ==> #[trigger] final(self).checked_at(a, b) == if a == i && b == j
                    && old(self).checked_at(a, b) == 1 {
                    0
                } else {
                    old(self).checked_at(a, b)
                },
    {
        if self.checked[i as usize][j as usize] == 1 {
            self.checked[i as usize][j as usize] = 0;
        }
        proof {
            assert forall|k: int| 0 <= k < old(self).checked@.len() implies #[trigger] self.checked@[k]@.len()
                == old(self).checked@[k]@.len() by {
                if k != i {
                    assert(self.checked@[k] == old(self).checked@[k]);
                }
            }
            assert forall|a: int, b: int|
                0 <= a < old(self).checked@.len() && 0 <= b < old(self).checked@[a]@.len()
                    implies #[trigger] self.checked_at(a, b) == if a == i && b == j
                    && old(self).checked_at(a, b) == 1 {
                    0
                } else {
                    old(self).checked_at(a, b)
                } by {
                if a != i {
                    assert(self.checked@[a] == old(self).checked@[a]);
                }
            }
            lemma_wf_keep(*old(self), *self);
        }
    }

    /// Whether `rc` lies on the board grid.
    pub fn in_bound(&self, rc: RowCol) -> (res: bool)
        requires
            fits_isize(self.size_r * 2 + 1),
            fits_isize(self.size_c * 2 + 1),
        ensures
            res == (0 <= rc.r < self.size_r * 2 + 1 && 0 <= rc.c < self.size_c * 2 + 1),
    {
        rc.r >= 0 && rc.r < self.size_r * 2 + 1 && rc.c >= 0 && rc.c < self.size_c * 2 + 1
    }

    /// Decides the line at `target` as `line`. An undecided line takes the value, the
    /// cells beside it are marked as not examined, and the score grows by `K_LINE`,
    /// which is returned. A line that already holds `line` stays as it is; one that
    /// holds another value marks the board contradictory. Both return 0.
    pub fn set_line(&mut self, target: RowCol, line: i8) -> (res: u32)
        requires
            old(self).wf(),
            old(self).in_grid(target.r as int, target.c as int),
            is_line_pos(target.r as int, target.c as int),
            old(self).at(target.r as int, target.c as int) == -1 ==> old(self).score + K_LINE
                <= u32::MAX,
        ensures
            final(self).wf(),
            final(self).size_r == old(self).size_r,
            final(self).size_c == old(self).size_c,
            final(self).group == old(self).group,
            old(self).at(target.r as int, target.c as int) == -1 ==> {
                &&& res == K_LINE
                &&& final(self).score == old(self).score + K_LINE
                &&& final(self).result == old(self).result
                &&& wrote(*old(self), *final(self), target.r as int, target.c as int, line)
                &&& checked_after(*old(self), *final(self), target.r as int, target.c as int)
            },
            old(self).at(target.r as int, target.c as int) != -1 ==> {
                &&& res == 0
                &&& final(self).score == old(self).score
                &&& final(self).stage == old(self).stage
                &&& final(self).checked == old(self).checked
                &&& final(self).result == (old(self).result && old(self).at(target.r as int, target.c as int)
                    == line)
            },
    {
        let ghost o = *old(self);
        let r = target.r;
        let c = target.c;
        let cur = self.stage[r as usize][c as usize];
        if cur == -1 {
            self.stage[r as usize][c as usize] = line;
            proof {
                lemma_wrote(o, *self, r as int, c as int, line);
            }
            let ghost s1 = *self;
            if r % 2 == 1 {
                // vertical line: the cells to its left and right
                let i = (r - 1) / 2;
                if c < self.size_c * 2 {
                    self.uncheck(i, c / 2);
                }
                let ghost s2 = *self;
                if c > 0 {
                    self.uncheck(i, c / 2 - 1);
                }
                proof {
                    assert forall|a: int, b: int|
                        0 <= a < o.checked@.len() && 0 <= b < o.checked@[a]@.len() implies #[trigger] self.checked_at(a, b)
                        == if near(a, b, r as int, c as int) && o.checked_at(a, b) == 1 {
                        0
                    } else {
                        o.checked_at(a, b)
                    } by {
                        assert(o.checked@[a]@.len() == o.size_c);
                        assert(s2.checked_at(a, b) == s1.checked_at(a, b) || (a == i && b == c / 2));
                    }
                    assert forall|a: int| 0 <= a < o.checked@.len() implies #[trigger] self.checked@[a]@.len()
                        == o.checked@[a]@.len() by {
                        assert(o.checked@[a]@.len() == o.size_c);
                    }
                    assert(checked_after(o, *self, r as int, c as int));
                }
            } else {
                // horizontal line: the cells above and below it
                let j = (c - 1) / 2;
                if r < self.size_r * 2 {
                    self.uncheck(r / 2, j);
                }
                let ghost s2 = *self;
                if r > 0 {
                    self.uncheck(r / 2 - 1, j);
                }
                proof {
                    assert forall|a: int, b: int|
                        0 <= a < o.checked@.len() && 0 <= b < o.checked@[a]@.len() implies #[trigger] self.checked_at(a, b)
                        == if near(a, b, r as int, c as int) && o.checked_at(a, b) == 1 {
                        0
                    } else {
                        o.checked_at(a, b)
                    } by {
                        assert(o.checked@[a]@.len() == o.size_c);
                        assert(s2.checked_at(a, b) == s1.checked_at(a, b) || (a == r / 2 && b == j));
                    }
                    assert forall|a: int| 0 <= a < o.checked@.len() implies #[trigger] self.checked@[a]@.len()
                        == o.checked@[a]@.len() by {
                        assert(o.checked@[a]@.len() == o.size_c);
                    }
                    assert(checked_after(o, *self, r as int, c as int));
                }
            }
            let ghost s3 = *self;
            self.score = self.score + K_LINE;
            proof {
                lemma_wf_keep(s3, *self);
                assert(wrote(o, *self, r as int, c as int, line));
                lemma_checked_after_same(o, s3, *self, r as int, c as int);
            }
            K_LINE
        } else if cur == line {
            0
        } else {
            self.result = false;
            proof {
                lemma_wf_keep(o, *self);
            }
            0
        }
    }
}

impl SolvingStage {
    /// Removes the shapes `p` from the point at `target` when the point still allows
    /// all of them: the cells around the point are marked as not examined, the score
    /// grows by `K_POINT_POS`, which is returned. Otherwise nothing changes and 0 is
    /// returned.
    pub fn remove_point_possibility(&mut self, target: RowCol, p: i8) -> (res: u32)
        requires
            old(self).wf(),
            old(self).in_grid(target.r as int, target.c as int),
            is_point_pos(target.r as int, target.c as int),
            old(self).at(target.r as int, target.c as int) & p == p ==> old(self).score
                + K_POINT_POS <= u32::MAX,
        ensures
            final(self).wf(),
            final(self).size_r == old(self).size_r,
            final(self).size_c == old(self).size_c,
            final(self).group == old(self).group,
            old(self).at(target.r as int, target.c as int) & p == p ==> {
                &&& res == K_POINT_POS
                &&& final(self).score == old(self).score + K_POINT_POS
                &&& final(self).result == old(self).result
                &&& wrote(
                    *old(self),
                    *final(self),
                    target.r as int,
                    target.c as int,
                    old(self).at(target.r as int, target.c as int) & !p,
                )
                &&& checked_after(*old(self), *final(self), target.r as int, target.c as int)
            },
            old(self).at(target.r as int, target.c as int) & p != p ==> {
                &&& res == 0
                &&& *final(self) == *old(self)
            },
    {
        let ghost o = *old(self);
        let r = target.r;
        let c = target.c;
        let cur = self.stage[r as usize][c as usize];
        if (cur & p) == p {
            self.stage[r as usize][c as usize] = cur & !p;
            proof {
                lemma_wrote(o, *self, r as int, c as int, cur & !p);
            }
            let ghost s1 = *self;
            if r < self.size_r * 2 && c < self.size_c * 2 {
                self.uncheck(r / 2, c / 2);
            }
            let ghost s2 = *self;
            if r < self.size_r * 2 && c > 0 {
                self.uncheck(r / 2, c / 2 - 1);
            }
            let ghost s3 = *self;
            if r > 0 && c < self.size_c * 2 {
                self.uncheck(r / 2 - 1, c / 2);
            }
            let ghost s4 = *self;
            if c > 0 && r > 0 {
                self.uncheck(r / 2 - 1, c / 2 - 1);
            }
            proof {
                assert forall|a: int, b: int|
                    0 <= a < o.checked@.len() && 0 <= b < o.checked@[a]@.len() implies #[trigger] self.checked_at(a, b)
                    == if near(a, b, r as int, c as int) && o.checked_at(a, b) == 1 {
                    0
                } else {
                    o.checked_at(a, b)
                } by {
                    assert(o.checked@[a]@.len() == o.size_c);
                    assert(s2.checked_at(a, b) == s1.checked_at(a, b) || (a == r / 2 && b == c / 2));
                    assert(s3.checked_at(a, b) == s2.checked_at(a, b) || (a == r / 2 && b == c / 2 - 1));
                    assert(s4.checked_at(a, b) == s3.checked_at(a, b) || (a == r / 2 - 1 && b == c / 2));
                    assert(self.checked_at(a, b) == s4.checked_at(a, b) || (a == r / 2 - 1 && b == c / 2 - 1));
                }
                assert forall|a: int| 0 <= a < o.checked@.len() implies #[trigger] self.checked@[a]@.len()
                    == o.checked@[a]@.len() by {
                    assert(o.checked@[a]@.len() == o.size_c);
                }
                assert(checked_after(o, *self, r as int, c as int));
            }
            let ghost s5 = *self;
            self.score = self.score + K_POINT_POS;
            proof {
                lemma_wf_keep(s5, *self);
                lemma_checked_after_same(o, s5, *self, r as int, c as int);
            }
            K_POINT_POS
        } else {
            0
        }
    }

    /// Removes from the point at `target` every shape of `p` it still allows, one shape
    /// at a time, and returns how many were removed.
    pub fn remove_point_possibility_bat(&mut self, target: RowCol, p: i8) -> (res: u32)
        requires
            old(self).wf(),
            old(self).in_grid(target.r as int, target.c as int),
            is_point_pos(target.r as int, target.c as int),
            old(self).score + shapes_left(old(self).at(target.r as int, target.c as int) & p)
                <= u32::MAX,
        ensures
            final(self).wf(),
            removed_shapes(*old(self), *final(self), target.r as int, target.c as int, p, res as int),
    {
        let ghost o = *old(self);
        let ghost v0 = o.at(target.r as int, target.c as int);
        let ghost rr = target.r as int;
        let ghost cc = target.c as int;
        let mut counter: u32 = 0;
        let mut i: u8 = 0;
        proof {
            lemma_bat_step(v0, p, 1, 0, 1);
            lemma_wrote_same(o, rr, cc);
            lemma_count_bits_mono(v0 & p, 0, 7);
            lemma_count_bits_all(v0 & p);
        }
        while i < 7
            invariant
                i <= 7,
                self.wf(),
                o.wf(),
                o.in_grid(rr, cc),
                rr == target.r,
                cc == target.c,
                is_point_pos(rr, cc),
                v0 == o.at(rr, cc),
                o.score + shapes_left(v0 & p) <= u32::MAX,
                shapes_left(v0 & p) == count_bits(v0 & p, 7),
                wrote(o, *self, rr, cc, v0 & !(p & shape_mask(i as int))),
                counter == count_bits(v0 & p, i as int),
                self.score == o.score + counter,
                self.result == o.result,
                self.size_r == o.size_r,
                self.size_c == o.size_c,
                self.group == o.group,
                counter > 0 ==> checked_after(o, *self, rr, cc),
                counter == 0 ==> self.checked == o.checked,
            decreases 7 - i,
        {
            let p2 = all_p(i);
            let ghost s1 = *self;
            proof {
                lemma_bat_step(v0, p, p2, shape_mask(i as int), shape_mask(i + 1));
                lemma_count_bits_mono(v0 & p, i + 1, 7);
                assert(self.at(rr, cc) == v0 & !(p & shape_mask(i as int)));
            }
            if (p & p2) == p2 {
                let k = self.remove_point_possibility(target, p2);
                proof {
                    if k > 0 {
                        lemma_wrote_twice(o, s1, *self, rr, cc, s1.at(rr, cc), s1.at(rr, cc) & !p2);
                        if counter > 0 {
                            lemma_checked_after_twice(o, s1, *self, rr, cc);
                        }
                    }
                }
                counter = counter + k;
            }
            i = i + 1;
        }
        proof {
            assert(shape_mask(7) == 127);
        }
        counter
    }

    /// Leaves the point at `target` with only the shapes of `p` it still allows, and
    /// returns how many shapes were removed.
    pub fn restrict_point_possibility_bat(&mut self, target: RowCol, p: i8) -> (res: u32)
        requires
            old(self).wf(),
            old(self).in_grid(target.r as int, target.c as int),
            is_point_pos(target.r as int, target.c as int),
            old(self).score + shapes_left(old(self).at(target.r as int, target.c as int) & (P_ALL
                & !p)) <= u32::MAX,
        ensures
            final(self).wf(),
            removed_shapes(
                *old(self),
                *final(self),
                target.r as int,
                target.c as int,
                P_ALL & !p,
                res as int,
            ),
    {
        self.remove_point_possibility_bat(target, P_ALL & !p)
    }

    /// The points of the top border can send no line upwards.
    pub fn first_check_point_up(&mut self, c: isize) -> (res: u32)
        requires
            old(self).wf(),
            0 <= c <= old(self).size_c,
            old(self).score + shapes_left(old(self).at(0, 2 * c) & P_LINE_U) <= u32::MAX,
        ensures
            final(self).wf(),
            removed_shapes(*old(self), *final(self), 0, 2 * c, P_LINE_U, res as int),
    {
        self.remove_point_possibility_bat(idx_point(0, c), P_LINE_U)
    }

    /// The points of the bottom border can send no line downwards.
    pub fn first_check_point_down(&mut self, c: isize) -> (res: u32)
        requires
            old(self).wf(),
            0 <= c <= old(self).size_c,
            old(self).score + shapes_left(old(self).at(2 * old(self).size_r, 2 * c) & P_LINE_D)
                <= u32::MAX,
        ensures
            final(self).wf(),
            removed_shapes(
                *old(self),
                *final(self),
                2 * old(self).size_r,
                2 * c,
                P_LINE_D,
                res as int,
            ),
    {
        self.remove_point_possibility_bat(idx_point(self.size_r, c), P_LINE_D)
    }

    /// The points of the left border can send no line to the left.
    pub fn first_check_point_left(&mut self, r: isize) -> (res: u32)
        requires
            old(self).wf(),
            0 <= r <= old(self).size_r,
            old(self).score + shapes_left(old(self).at(2 * r, 0) & P_LINE_L) <= u32::MAX,
        ensures
            final(self).wf(),
            removed_shapes(*old(self), *final(self), 2 * r, 0, P_LINE_L, res as int),
    {
        self.remove_point_possibility_bat(idx_point(r, 0), P_LINE_L)
    }

    /// The points of the right border can send no line to the right.
    pub fn first_check_point_right(&mut self, r: isize) -> (res: u32)
        requires
            old(self).wf(),
            0 <= r <= old(self).size_r,
            old(self).score + shapes_left(old(self).at(2 * r, 2 * old(self).size_c) & P_LINE_R)
                <= u32::MAX,
        ensures
            final(self).wf(),
            removed_shapes(
                *old(self),
                *final(self),
                2 * r,
                2 * old(self).size_c,
                P_LINE_R,
                res as int,
            ),
    {
        self.remove_point_possibility_bat(idx_point(r, self.size_c), P_LINE_R)
    }
}

impl SolvingStage {
    /// Decides the line at `target` as part of a run of deductions that started at `s0`
    /// and had scored `acc`; returns the new total.
    pub(crate) fn step_line(
        &mut self,
        Ghost(s0): Ghost<SolvingStage>,
        acc: u32,
        target: RowCol,
        line: i8,
    ) -> (res: u32)
        requires
            s0.wf(),
            s0.headroom(),
            progress(s0, *old(self), acc as int),
            old(self).in_grid(target.r as int, target.c as int),
            is_line_pos(target.r as int, target.c as int),
            line == 0 || line == 1,
        ensures
            progress(s0, *final(self), res as int),
            progress(*old(self), *final(self), res - acc),
            forall|a: SolvingStage|
                a.wf() && #[trigger] refines(a, *old(self)) ==> refines(a, *final(self)),
            final(self).group == old(self).group,
            res >= acc,
            old(self).at(target.r as int, target.c as int) != -1 && old(self).at(
                target.r as int,
                target.c as int,
            ) != line ==> !final(self).result,
            final(self).result == (old(self).result && (old(self).at(target.r as int, target.c as int)
                == -1 || old(self).at(target.r as int, target.c as int) == line)),
            lines_binary(*old(self), *final(self)),
            res == acc ==> final(self).checked == old(self).checked,
            final(self).at(target.r as int, target.c as int) == if old(self).at(
                target.r as int,
                target.c as int,
            ) == -1 {
                line
            } else {
                old(self).at(target.r as int, target.c as int)
            },
            forall|i: int, j: int|
                #![trigger final(self).at(i, j)]
                old(self).in_grid(i, j) && !(i == target.r && j == target.c) ==> final(self).at(i, j)
                    == old(self).at(i, j),
    {
        let ghost o = *self;
        let ghost r = target.r as int;
        let ghost c = target.c as int;
        proof {
            lemma_cell_le_potential(o.stage@, r, c);
            lemma_potential_nonneg(o.stage@);
        }
        let k = self.set_line(target, line);
        proof {
            if o.at(r, c) == -1 {
                lemma_line_progress(o, *self, r, c, line);
                lemma_wrote(o, *self, r, c, line);
            } else {
                lemma_same_grid_progress(o, *self);
            }
            lemma_progress_trans(s0, o, *self, acc as int, k as int);
            assert forall|a: SolvingStage|
                a.wf() && #[trigger] refines(a, o) implies refines(a, *self) by {
                lemma_refines_trans(a, o, *self);
            }
        }
        acc + k
    }

    /// Restricts the point at `target` to the shapes `p` as part of a run of deductions
    /// that started at `s0` and had scored `acc`; returns the new total.
    pub(crate) fn step_restrict(
        &mut self,
        Ghost(s0): Ghost<SolvingStage>,
        acc: u32,
        target: RowCol,
        p: i8,
    ) -> (res: u32)
        requires
            s0.wf(),
            s0.headroom(),
            progress(s0, *old(self), acc as int),
            old(self).in_grid(target.r as int, target.c as int),
            is_point_pos(target.r as int, target.c as int),
        ensures
            progress(s0, *final(self), res as int),
            progress(*old(self), *final(self), res - acc),
            forall|a: SolvingStage|
                a.wf() && #[trigger] refines(a, *old(self)) ==> refines(a, *final(self)),
            final(self).group == old(self).group,
            res >= acc,
            final(self).at(target.r as int, target.c as int) == old(self).at(
                target.r as int,
                target.c as int,
            ) & !((P_ALL & !p) & 127),
            forall|i: int, j: int|
                #![trigger final(self).at(i, j)]
                old(self).in_grid(i, j) && !(i == target.r && j == target.c) ==> final(self).at(i, j)
                    == old(self).at(i, j),
            final(self).result == old(self).result,
            lines_binary(*old(self), *final(self)),
            res == acc ==> final(self).checked == old(self).checked,
    {
        let ghost o = *self;
        let ghost r = target.r as int;
        let ghost c = target.c as int;
        proof {
            lemma_cell_le_potential(o.stage@, r, c);
            lemma_potential_nonneg(o.stage@);
            lemma_shapes_split(o.at(r, c), P_ALL & !p);
            lemma_shapes_nonneg(o.at(r, c) & !((P_ALL & !p) & 127));
        }
        let k = self.restrict_point_possibility_bat(target, p);
        proof {
            lemma_point_progress(o, *self, r, c, P_ALL & !p, k as int);
            lemma_wrote(o, *self, r, c, o.at(r, c) & !((P_ALL & !p) & 127));
            lemma_progress_trans(s0, o, *self, acc as int, k as int);
            assert forall|a: SolvingStage|
                a.wf() && #[trigger] refines(a, o) implies refines(a, *self) by {
                lemma_refines_trans(a, o, *self);
            }
        }
        acc + k
    }
}

impl SolvingStage {
    /// The value at grid position `(r, c)`.
    pub(crate) fn cell(&self, r: isize, c: isize) -> (v: i8)
        requires
            self.wf(),
            self.in_grid(r as int, c as int),
        ensures
            v == self.at(r as int, c as int),
    {
        self.stage[r as usize][c as usize]
    }

    /// Records a contradiction during a run of deductions that started at `s0`.
    pub(crate) fn mark_contradiction(&mut self, Ghost(s0): Ghost<SolvingStage>, acc: u32)
        requires
            s0.wf(),
            progress(s0, *old(self), acc as int),
        ensures
            progress(s0, *final(self), acc as int),
            progress(*old(self), *final(self), 0),
            forall|a: SolvingStage|
                a.wf() && #[trigger] refines(a, *old(self)) ==> refines(a, *final(self)),
            !final(self).result,
            lines_binary(*old(self), *final(self)),
            final(self).stage == old(self).stage,
            final(self).group == old(self).group,
            final(self).checked == old(self).checked,
            final(self).score == old(self).score,
    {
        let ghost o = *self;
        self.result = false;
        proof {
            lemma_wf_keep(o, *self);
            lemma_same_grid_progress(o, *self);
            lemma_progress_trans(s0, o, *self, acc as int, 0);
            assert forall|a: SolvingStage|
                a.wf() && #[trigger] refines(a, o) implies refines(a, *self) by {
                lemma_refines_trans(a, o, *self);
            }
        }
    }
}

proof fn lemma_shapes_nonneg(v: i8)
    ensures
        shapes_left(v) >= 0,
{
}

proof fn lemma_count_bits_mono(x: i8, n: int, m: int)
    requires
        0 <= n <= m,
    ensures
        count_bits(x, n) <= count_bits(x, m),
        count_bits(x, n) >= 0,
    decreases m - n,
{
    lemma_count_bits_nonneg(x, n);
    if n < m {
        lemma_count_bits_mono(x, n + 1, m);
    }
}

proof fn lemma_count_bits_nonneg(x: i8, n: int)
    ensures
        count_bits(x, n) >= 0,
    decreases n,
{
    if n > 0 {
        lemma_count_bits_nonneg(x, n - 1);
    }
}

} // verus!
