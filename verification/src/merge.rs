use vstd::prelude::*;
use crate::deduce::number_of;
use crate::firstcheck::cell_before;
use crate::grid::{is_line_pos, is_number_pos, is_point_pos, lemma_offset_kind, lemma_potential_nonneg, shapes_left};
use crate::rotation::{idx_h_line, idx_point, idx_v_line, P_ALL};
use crate::stage::{
    checked_after, near,
    lemma_point_progress, lemma_wf_keep, lemma_wrote, same_cells, SolvingStage, MAX_SIDE,
};
use crate::edit::lemma_shapes_split;

verus! {

/// The value at `(i, j)` once `t` is merged into `o`: a missing number is taken from
/// `t`, and a point that differs from `t` keeps only the shapes `t` allows.
pub open spec fn merged_value(o: SolvingStage, t: SolvingStage, i: int, j: int) -> i8 {
    if is_number_pos(i, j) && o.at(i, j) == -1 {
        t.at(i, j)
    } else if is_point_pos(i, j) && o.at(i, j) != t.at(i, j) {
        o.at(i, j) & !(P_ALL & !t.at(i, j))
    } else {
        o.at(i, j)
    }
}

/// Marks of `s` are those of `o`, or cleared.
pub open spec fn marks_cleared_only(o: SolvingStage, s: SolvingStage) -> bool {
    &&& s.checked@.len() == o.checked@.len()
    &&& forall|i: int| 0 <= i < o.checked@.len() ==> #[trigger] s.checked@[i]@.len() == o.checked@[i]@.len()
    &&& forall|i: int, j: int|
        0 <= i < o.size_r && 0 <= j < o.size_c ==> #[trigger] s.checked_at(i, j) == o.checked_at(i, j)
            || s.checked_at(i, j) == 0
}

/// How many line positions a board has.
pub open spec fn lines_count(s: SolvingStage) -> int {
    s.size_r * (s.size_c + 1) + (s.size_r + 1) * s.size_c
}

/// The vertical line left of cell `(r, c)` is undecided in `o` and decided in `t`.
pub open spec fn v_pending(o: SolvingStage, t: SolvingStage, r: int, c: int) -> bool {
    o.at(2 * r + 1, 2 * c) == -1 && t.at(2 * r + 1, 2 * c) != -1
}

/// The horizontal line above cell `(r, c)` is undecided in `o` and decided in `t`.
pub open spec fn h_pending(o: SolvingStage, t: SolvingStage, r: int, c: int) -> bool {
    o.at(2 * r, 2 * c + 1) == -1 && t.at(2 * r, 2 * c + 1) != -1
}

/// How many of the first `n` vertical lines of row `r` are pending.
pub open spec fn v_pending_row(o: SolvingStage, t: SolvingStage, r: int, n: int) -> int
    decreases n,
{
    if n <= 0 {
        0
    } else {
        v_pending_row(o, t, r, n - 1) + if v_pending(o, t, r, n - 1) {
            1int
        } else {
            0
        }
    }
}

/// How many vertical lines of the first `m` rows are pending.
pub open spec fn v_pending_count(o: SolvingStage, t: SolvingStage, m: int) -> int
    decreases m,
{
    if m <= 0 {
        0
    } else {
        v_pending_count(o, t, m - 1) + v_pending_row(o, t, m - 1, o.size_c + 1)
    }
}

/// How many of the first `n` horizontal lines of row `r` are pending.
pub open spec fn h_pending_row(o: SolvingStage, t: SolvingStage, r: int, n: int) -> int
    decreases n,
{
    if n <= 0 {
        0
    } else {
        h_pending_row(o, t, r, n - 1) + if h_pending(o, t, r, n - 1) {
            1int
        } else {
            0
        }
    }
}

/// How many horizontal lines of the first `m` rows are pending.
pub open spec fn h_pending_count(o: SolvingStage, t: SolvingStage, m: int) -> int
    decreases m,
{
    if m <= 0 {
        0
    } else {
        h_pending_count(o, t, m - 1) + h_pending_row(o, t, m - 1, o.size_c as int)
    }
}

proof fn lemma_merge_bits(v: i8, p: i8)
    by (bit_vector)
    ensures
        (v & !((P_ALL & !p) & 127)) == (v & !(P_ALL & !p)),
{
}

impl SolvingStage {
    /// Copies into `self` every number of `stage` that `self` lacks.
    fn merge_numbers(&mut self, stage: &Self)
        requires
            old(self).wf(),
            stage.wf(),
            stage.size_r == old(self).size_r,
            stage.size_c == old(self).size_c,
        ensures
            final(self).wf(),
            final(self).size_r == old(self).size_r,
            final(self).size_c == old(self).size_c,
            final(self).group == old(self).group,
            final(self).result == old(self).result,
            final(self).score == old(self).score,
            final(self).pot() == old(self).pot(),
            marks_cleared_only(*old(self), *final(self)),
            forall|i: int, j: int|
                0 <= i < old(self).size_r && 0 <= j < old(self).size_c && number_of(*old(self), i, j) == -1
                    && number_of(*stage, i, j) != -1 ==> #[trigger] final(self).checked_at(i, j) == 0,
            forall|i: int, j: int|
                #![trigger final(self).at(i, j)]
                old(self).in_grid(i, j) ==> final(self).at(i, j) == if is_number_pos(i, j)
                    && old(self).at(i, j) == -1 {
                    stage.at(i, j)
                } else {
                    old(self).at(i, j)
                },
    {
        let ghost o = *self;
        let mut r: isize = 0;
        while r < self.size_r
            invariant
                0 <= r <= o.size_r,
                o.wf(),
                stage.wf(),
                stage.size_r == o.size_r,
                stage.size_c == o.size_c,
                self.wf(),
                self.size_r == o.size_r,
                self.size_c == o.size_c,
                self.group == o.group,
                self.result == o.result,
                self.score == o.score,
                self.pot() == o.pot(),
                marks_cleared_only(o, *self),
                forall|i: int, j: int|
                    0 <= i < o.size_r && 0 <= j < o.size_c && number_of(o, i, j) == -1 && number_of(*stage, i, j)
                        != -1 && cell_before(i, j, r as int, 0) ==> #[trigger] self.checked_at(i, j) == 0,
                forall|i: int, j: int|
                    #![trigger self.at(i, j)]
                    o.in_grid(i, j) ==> self.at(i, j) == if is_number_pos(i, j) && o.at(i, j) == -1
                        && cell_before((i - 1) / 2, (j - 1) / 2, r as int, 0) {
                        stage.at(i, j)
                    } else {
                        o.at(i, j)
                    },
            decreases o.size_r - r,
        {
            let mut c: isize = 0;
            while c < self.size_c
                invariant
                    0 <= r < o.size_r,
                    0 <= c <= o.size_c,
                    o.wf(),
                    stage.wf(),
                    stage.size_r == o.size_r,
                    stage.size_c == o.size_c,
                    self.wf(),
                    self.size_r == o.size_r,
                    self.size_c == o.size_c,
                    self.group == o.group,
                    self.result == o.result,
                    self.score == o.score,
                    self.pot() == o.pot(),
                    marks_cleared_only(o, *self),
                    forall|i: int, j: int|
                        0 <= i < o.size_r && 0 <= j < o.size_c && number_of(o, i, j) == -1 && number_of(*stage, i, j)
                            != -1 && cell_before(i, j, r as int, c as int) ==> #[trigger] self.checked_at(i, j) == 0,
                    forall|i: int, j: int|
                        #![trigger self.at(i, j)]
                        o.in_grid(i, j) ==> self.at(i, j) == if is_number_pos(i, j) && o.at(i, j)
                            == -1 && cell_before((i - 1) / 2, (j - 1) / 2, r as int, c as int) {
                            stage.at(i, j)
                        } else {
                            o.at(i, j)
                        },
                decreases o.size_c - c,
            {
                let mine = self.cell(r * 2 + 1, c * 2 + 1);
                let theirs = stage.cell(r * 2 + 1, c * 2 + 1);
                proof {
                    lemma_offset_kind(r as int, c as int, 0, 0);
                }
                let ghost before = *self;
                if mine != theirs && mine == -1 {
                    self.stage[(r * 2 + 1) as usize][(c * 2 + 1) as usize] = theirs;
                    proof {
                        lemma_wrote(before, *self, 2 * r + 1, 2 * c + 1, theirs);
                    }
                    let ghost mid = *self;
                    self.checked[r as usize][c as usize] = 0;
                    proof {
                        assert forall|a: int| 0 <= a < mid.checked@.len() implies #[trigger] self.checked@[a]@.len()
                            == mid.checked@[a]@.len() by {
                            if a != r {
                                assert(self.checked@[a] == mid.checked@[a]);
                            }
                        }
                        lemma_wf_keep(mid, *self);
                        assert forall|i: int, j: int|
                            0 <= i < o.size_r && 0 <= j < o.size_c implies #[trigger] self.checked_at(i, j)
                            == before.checked_at(i, j) || self.checked_at(i, j) == 0 by {
                            if i != r {
                                assert(self.checked@[i] == before.checked@[i]);
                            }
                        }
                    }
                }
                proof {
                    lemma_offset_kind(r as int, c as int, 0, 0);
                    assert forall|i: int, j: int|
                        0 <= i < o.size_r && 0 <= j < o.size_c implies #[trigger] self.checked_at(i, j)
                        == o.checked_at(i, j) || self.checked_at(i, j) == 0 by {
                        assert(before.checked_at(i, j) == o.checked_at(i, j) || before.checked_at(i, j) == 0);
                        if mine != theirs && mine == -1 {
                            if i != r {
                                assert(self.checked@[i] == before.checked@[i]);
                            }
                        }
                    }
                    assert forall|i: int, j: int|
                        0 <= i < o.size_r && 0 <= j < o.size_c && number_of(o, i, j) == -1 && number_of(*stage, i, j)
                            != -1 && cell_before(i, j, r as int, c + 1) implies #[trigger] self.checked_at(i, j) == 0 by {
                        if i == r && j == c {
                            assert(o.in_grid(2 * i + 1, 2 * j + 1));
                            assert(mine == before.at(2 * i + 1, 2 * j + 1));
                            assert(before.at(2 * i + 1, 2 * j + 1) == o.at(2 * i + 1, 2 * j + 1));
                        } else {
                            assert(before.checked_at(i, j) == 0);
                            if mine != theirs && mine == -1 {
                                if i != r {
                                    assert(self.checked@[i] == before.checked@[i]);
                                }
                            }
                        }
                    }
                }
                proof {
                    assert forall|i: int, j: int| #![trigger self.at(i, j)] o.in_grid(i, j) implies self.at(i, j)
                        == if is_number_pos(i, j) && o.at(i, j) == -1 && cell_before((i - 1) / 2, (j - 1) / 2, r as int, c + 1) {
                        stage.at(i, j)
                    } else {
                        o.at(i, j)
                    } by {
                        assert(before.at(i, j) == if is_number_pos(i, j) && o.at(i, j) == -1 && cell_before((i - 1) / 2, (j - 1) / 2, r as int, c as int) {
                            stage.at(i, j)
                        } else {
                            o.at(i, j)
                        });
                        if is_number_pos(i, j) {
                            assert((i - 1) / 2 * 2 == i - 1);
                            assert((j - 1) / 2 * 2 == j - 1);
                        }
                        if i == 2 * r + 1 && j == 2 * c + 1 {
                            assert(mine == before.at(i, j));
                            assert(theirs == stage.at(i, j));
                        } else {
                            assert(self.at(i, j) == before.at(i, j));
                        }
                    }
                }
                c = c + 1;
            }
            proof {
                assert forall|i: int, j: int| #![trigger self.at(i, j)] o.in_grid(i, j) implies self.at(i, j)
                    == if is_number_pos(i, j) && o.at(i, j) == -1 && cell_before((i - 1) / 2, (j - 1) / 2, r + 1, 0) {
                    stage.at(i, j)
                } else {
                    o.at(i, j)
                } by {
                    if is_number_pos(i, j) {
                        assert((i - 1) / 2 * 2 == i - 1);
                        assert((j - 1) / 2 * 2 == j - 1);
                    }
                }
            }
            r = r + 1;
        }
        proof {
            assert forall|i: int, j: int| #![trigger self.at(i, j)] o.in_grid(i, j) implies self.at(i, j)
                == if is_number_pos(i, j) && o.at(i, j) == -1 {
                stage.at(i, j)
            } else {
                o.at(i, j)
            } by {
                if is_number_pos(i, j) {
                    assert((i - 1) / 2 * 2 == i - 1);
                }
            }
        }
    }

    /// Rewrites every undecided vertical line of `self` that `stage` decided with its own
    /// undecided value: the line stays undecided, the cells beside it are marked as
    /// not examined and the score grows by `K_LINE` each time.
    fn merge_v_lines(&mut self, stage: &Self)
        requires
            old(self).wf(),
            stage.wf(),
            stage.size_r == old(self).size_r,
            stage.size_c == old(self).size_c,
            old(self).score + 3 * old(self).size_r * (old(self).size_c + 1) <= u32::MAX,
        ensures
            final(self).wf(),
            final(self).size_r == old(self).size_r,
            final(self).size_c == old(self).size_c,
            final(self).group == old(self).group,
            final(self).result == old(self).result,
            old(self).score <= final(self).score <= old(self).score + 3 * old(self).size_r * (
            old(self).size_c + 1),
            same_cells(*old(self), *final(self)),
            final(self).pot() == old(self).pot(),
            final(self).score == old(self).score + 3 * v_pending_count(*old(self), *stage, old(self).size_r as int),
            final(self).checked@.len() == old(self).checked@.len(),
            forall|i: int| 0 <= i < old(self).size_r ==> #[trigger] final(self).checked@[i]@.len() == old(self).checked@[i]@.len(),
            forall|i: int, j: int|
                0 <= i < old(self).size_r && 0 <= j < old(self).size_c ==> #[trigger] final(self).checked_at(i, j)
                    == if old(self).checked_at(i, j) == 1 && (v_pending(*old(self), *stage, i, j) || v_pending(
                    *old(self),
                    *stage,
                    i,
                    j + 1,
                )) {
                    0
                } else {
                    old(self).checked_at(i, j)
                },
    {
        let ghost o = *self;
        let ghost used: int = 0;
        let mut r: isize = 0;
        while r < self.size_r
            invariant
                self.score == o.score + 3 * v_pending_count(o, *stage, r as int),
                self.checked@.len() == o.checked@.len(),
                forall|i: int| 0 <= i < o.size_r ==> #[trigger] self.checked@[i]@.len() == o.checked@[i]@.len(),
                forall|i: int, j: int|
                    0 <= i < o.size_r && 0 <= j < o.size_c ==> #[trigger] self.checked_at(i, j)
                        == if o.checked_at(i, j) == 1 && ((v_pending(o, *stage, i, j) && cell_before(i, j, r as int, 0))
                        || (v_pending(o, *stage, i, j + 1) && cell_before(i, j + 1, r as int, 0))) {
                        0
                    } else {
                        o.checked_at(i, j)
                    },
                0 <= r <= o.size_r,
                o.wf(),
                stage.wf(),
                stage.size_r == o.size_r,
                stage.size_c == o.size_c,
                o.score + 3 * o.size_r * (o.size_c + 1) <= u32::MAX,
                self.wf(),
                self.size_r == o.size_r,
                self.size_c == o.size_c,
                self.group == o.group,
                self.result == o.result,
                self.stage@.len() == o.stage@.len(),
                forall|k: int| 0 <= k < o.stage@.len() ==> #[trigger] self.stage@[k]@ == o.stage@[k]@,
                o.score <= self.score <= o.score + 3 * r * (o.size_c + 1),
            decreases o.size_r - r,
        {
            let mut c: isize = 0;
            while c < self.size_c + 1
                invariant
                    0 <= r < o.size_r,
                    0 <= c <= o.size_c + 1,
                    o.wf(),
                    stage.wf(),
                    stage.size_r == o.size_r,
                    stage.size_c == o.size_c,
                    o.score + 3 * o.size_r * (o.size_c + 1) <= u32::MAX,
                    self.wf(),
                    self.size_r == o.size_r,
                    self.size_c == o.size_c,
                    self.group == o.group,
                    self.result == o.result,
                    self.stage@.len() == o.stage@.len(),
                    forall|k: int| 0 <= k < o.stage@.len() ==> #[trigger] self.stage@[k]@ == o.stage@[k]@,
                    o.score <= self.score <= o.score + 3 * r * (o.size_c + 1) + 3 * c,
                    self.score == o.score + 3 * (v_pending_count(o, *stage, r as int) + v_pending_row(o, *stage, r as int, c as int)),
                    self.checked@.len() == o.checked@.len(),
                    forall|i: int| 0 <= i < o.size_r ==> #[trigger] self.checked@[i]@.len() == o.checked@[i]@.len(),
                    forall|i: int, j: int|
                        0 <= i < o.size_r && 0 <= j < o.size_c ==> #[trigger] self.checked_at(i, j)
                            == if o.checked_at(i, j) == 1 && ((v_pending(o, *stage, i, j) && cell_before(i, j, r as int, c as int))
                            || (v_pending(o, *stage, i, j + 1) && cell_before(i, j + 1, r as int, c as int))) {
                            0
                        } else {
                            o.checked_at(i, j)
                        },
                decreases o.size_c + 1 - c,
            {
                let ghost entry = *self;
                proof {
                    lemma_offset_kind(r as int, c as int, 0, -1);
                    assert(3 * r * (o.size_c + 1) + 3 * c + 3 <= 3 * o.size_r * (o.size_c + 1)) by (nonlinear_arith)
                        requires
                            0 <= r < o.size_r,
                            0 <= c < o.size_c + 1,
                    ;
                    assert(3 * (r + 1) * (o.size_c + 1) == 3 * r * (o.size_c + 1) + 3 * (o.size_c + 1)) by (nonlinear_arith);
                }
                let mine = self.cell(r * 2 + 1, c * 2);
                proof {
                    assert(self.stage@[2 * r + 1]@ == o.stage@[2 * r + 1]@);
                    assert(mine == o.at(2 * r + 1, 2 * c));
                }
                if mine != stage.cell(r * 2 + 1, c * 2) && mine == -1 {
                    let line_pos = idx_v_line(r, c);
                    let ghost before = *self;
                    self.set_line(line_pos, self.cell(r * 2 + 1, c * 2));
                    proof {
                        assert(self.stage@[2 * r + 1]@ =~= before.stage@[2 * r + 1]@);
                    }
                }
                proof {
                    assert forall|i: int| 0 <= i < o.size_r implies #[trigger] self.checked@[i]@.len() == o.checked@[i]@.len() by {
                        assert(entry.checked@[i]@.len() == o.checked@[i]@.len());
                    }
                    assert forall|i: int, j: int|
                        0 <= i < o.size_r && 0 <= j < o.size_c implies #[trigger] self.checked_at(i, j)
                            == if o.checked_at(i, j) == 1 && ((v_pending(o, *stage, i, j) && cell_before(i, j, r as int, c + 1))
                            || (v_pending(o, *stage, i, j + 1) && cell_before(i, j + 1, r as int, c + 1))) {
                            0
                        } else {
                            o.checked_at(i, j)
                        } by {
                        assert(entry.checked@[i]@.len() == o.checked@[i]@.len());
                        assert(entry.checked_at(i, j) == if o.checked_at(i, j) == 1 && ((v_pending(o, *stage, i, j) && cell_before(i, j, r as int, c as int))
                            || (v_pending(o, *stage, i, j + 1) && cell_before(i, j + 1, r as int, c as int))) {
                            0
                        } else {
                            o.checked_at(i, j)
                        });
                        if near(i, j, 2 * r + 1, 2 * c) {
                            assert(i == r && (j == c || j == c - 1));
                        }
                    }
                }
                c = c + 1;
            }
            proof {
                assert(3 * (r + 1) * (o.size_c + 1) == 3 * r * (o.size_c + 1) + 3 * (o.size_c + 1)) by (nonlinear_arith);
                assert forall|i: int, j: int|
                    0 <= i < o.size_r && 0 <= j < o.size_c implies #[trigger] self.checked_at(i, j)
                        == if o.checked_at(i, j) == 1 && ((v_pending(o, *stage, i, j) && cell_before(i, j, r + 1, 0))
                        || (v_pending(o, *stage, i, j + 1) && cell_before(i, j + 1, r + 1, 0))) {
                        0
                    } else {
                        o.checked_at(i, j)
                    } by {
                    assert(cell_before(i, j, r as int, o.size_c + 1) == cell_before(i, j, r + 1, 0));
                    assert(cell_before(i, j + 1, r as int, o.size_c + 1) == cell_before(i, j + 1, r + 1, 0));
                }
            }
            r = r + 1;
        }
        proof {
            lemma_same_cells_view(o, *self);
        }
    }

    /// Rewrites every undecided horizontal line of `self` that `stage` decided with its own
    /// undecided value: the line stays undecided, the cells above and below it are marked as
    /// not examined and the score grows by `K_LINE` each time.
    fn merge_h_lines(&mut self, stage: &Self)
        requires
            old(self).wf(),
            stage.wf(),
            stage.size_r == old(self).size_r,
            stage.size_c == old(self).size_c,
            old(self).score + 3 * (old(self).size_r + 1) * old(self).size_c <= u32::MAX,
        ensures
            final(self).wf(),
            final(self).size_r == old(self).size_r,
            final(self).size_c == old(self).size_c,
            final(self).group == old(self).group,
            final(self).result == old(self).result,
            old(self).score <= final(self).score <= old(self).score + 3 * (old(self).size_r + 1) * old(self).size_c,
            same_cells(*old(self), *final(self)),
            final(self).pot() == old(self).pot(),
            final(self).score == old(self).score + 3 * h_pending_count(*old(self), *stage, old(self).size_r + 1),
            final(self).checked@.len() == old(self).checked@.len(),
            forall|i: int| 0 <= i < old(self).size_r ==> #[trigger] final(self).checked@[i]@.len() == old(self).checked@[i]@.len(),
            forall|i: int, j: int|
                0 <= i < old(self).size_r && 0 <= j < old(self).size_c ==> #[trigger] final(self).checked_at(i, j)
                    == if old(self).checked_at(i, j) == 1 && (h_pending(*old(self), *stage, i, j) || h_pending(
                    *old(self),
                    *stage,
                    i + 1,
                    j,
                )) {
                    0
                } else {
                    old(self).checked_at(i, j)
                },
    {
        let ghost o = *self;
        let ghost used: int = 0;
        let mut r: isize = 0;
        while r < self.size_r + 1
            invariant
                self.score == o.score + 3 * h_pending_count(o, *stage, r as int),
                self.checked@.len() == o.checked@.len(),
                forall|i: int| 0 <= i < o.size_r ==> #[trigger] self.checked@[i]@.len() == o.checked@[i]@.len(),
                forall|i: int, j: int|
                    0 <= i < o.size_r && 0 <= j < o.size_c ==> #[trigger] self.checked_at(i, j)
                        == if o.checked_at(i, j) == 1 && ((h_pending(o, *stage, i, j) && cell_before(i, j, r as int, 0))
                        || (h_pending(o, *stage, i + 1, j) && cell_before(i + 1, j, r as int, 0))) {
                        0
                    } else {
                        o.checked_at(i, j)
                    },
                0 <= r <= o.size_r + 1,
                o.wf(),
                stage.wf(),
                stage.size_r == o.size_r,
                stage.size_c == o.size_c,
                o.score + 3 * (o.size_r + 1) * o.size_c <= u32::MAX,
                self.wf(),
                self.size_r == o.size_r,
                self.size_c == o.size_c,
                self.group == o.group,
                self.result == o.result,
                self.stage@.len() == o.stage@.len(),
                forall|k: int| 0 <= k < o.stage@.len() ==> #[trigger] self.stage@[k]@ == o.stage@[k]@,
                o.score <= self.score <= o.score + 3 * r * o.size_c,
            decreases o.size_r + 1 - r,
        {
            let mut c: isize = 0;
            while c < self.size_c
                invariant
                    0 <= r < o.size_r + 1,
                    0 <= c <= o.size_c,
                    o.wf(),
                    stage.wf(),
                    stage.size_r == o.size_r,
                    stage.size_c == o.size_c,
                    o.score + 3 * (o.size_r + 1) * o.size_c <= u32::MAX,
                    self.wf(),
                    self.size_r == o.size_r,
                    self.size_c == o.size_c,
                    self.group == o.group,
                    self.result == o.result,
                    self.stage@.len() == o.stage@.len(),
                    forall|k: int| 0 <= k < o.stage@.len() ==> #[trigger] self.stage@[k]@ == o.stage@[k]@,
                    o.score <= self.score <= o.score + 3 * r * o.size_c + 3 * c,
                    self.score == o.score + 3 * (h_pending_count(o, *stage, r as int) + h_pending_row(o, *stage, r as int, c as int)),
                    self.checked@.len() == o.checked@.len(),
                    forall|i: int| 0 <= i < o.size_r ==> #[trigger] self.checked@[i]@.len() == o.checked@[i]@.len(),
                    forall|i: int, j: int|
                        0 <= i < o.size_r && 0 <= j < o.size_c ==> #[trigger] self.checked_at(i, j)
                            == if o.checked_at(i, j) == 1 && ((h_pending(o, *stage, i, j) && cell_before(i, j, r as int, c as int))
                            || (h_pending(o, *stage, i + 1, j) && cell_before(i + 1, j, r as int, c as int))) {
                            0
                        } else {
                            o.checked_at(i, j)
                        },
                decreases o.size_c - c,
            {
                let ghost entry = *self;
                proof {
                    lemma_offset_kind(r as int, c as int, -1, 0);
                    assert(3 * r * o.size_c + 3 * c + 3 <= 3 * (o.size_r + 1) * o.size_c) by (nonlinear_arith)
                        requires
                            0 <= r < o.size_r + 1,
                            0 <= c < o.size_c,
                    ;
                    assert(3 * (r + 1) * o.size_c == 3 * r * o.size_c + 3 * o.size_c) by (nonlinear_arith);
                }
                let mine = self.cell(r * 2, c * 2 + 1);
                proof {
                    assert(self.stage@[2 * r]@ == o.stage@[2 * r]@);
                }
                if mine != stage.cell(r * 2, c * 2 + 1) && mine == -1 {
                    let line_pos = idx_h_line(r, c);
                    let ghost before = *self;
                    self.set_line(line_pos, self.cell(r * 2, c * 2 + 1));
                    proof {
                        assert(self.stage@[2 * r]@ =~= before.stage@[2 * r]@);
                    }
                }
                proof {
                    assert forall|i: int| 0 <= i < o.size_r implies #[trigger] self.checked@[i]@.len() == o.checked@[i]@.len() by {
                        assert(entry.checked@[i]@.len() == o.checked@[i]@.len());
                    }
                    assert forall|i: int, j: int|
                        0 <= i < o.size_r && 0 <= j < o.size_c implies #[trigger] self.checked_at(i, j)
                            == if o.checked_at(i, j) == 1 && ((h_pending(o, *stage, i, j) && cell_before(i, j, r as int, c + 1))
                            || (h_pending(o, *stage, i + 1, j) && cell_before(i + 1, j, r as int, c + 1))) {
                            0
                        } else {
                            o.checked_at(i, j)
                        } by {
                        assert(entry.checked@[i]@.len() == o.checked@[i]@.len());
                        assert(entry.checked_at(i, j) == if o.checked_at(i, j) == 1 && ((h_pending(o, *stage, i, j) && cell_before(i, j, r as int, c as int))
                            || (h_pending(o, *stage, i + 1, j) && cell_before(i + 1, j, r as int, c as int))) {
                            0
                        } else {
                            o.checked_at(i, j)
                        });
                        if near(i, j, 2 * r, 2 * c + 1) {
                            assert(j == c && (i == r || i == r - 1));
                        }
                    }
                }
                c = c + 1;
            }
            proof {
                assert(3 * (r + 1) * o.size_c == 3 * r * o.size_c + 3 * o.size_c) by (nonlinear_arith);
                assert forall|i: int, j: int|
                    0 <= i < o.size_r && 0 <= j < o.size_c implies #[trigger] self.checked_at(i, j)
                        == if o.checked_at(i, j) == 1 && ((h_pending(o, *stage, i, j) && cell_before(i, j, r + 1, 0))
                        || (h_pending(o, *stage, i + 1, j) && cell_before(i + 1, j, r + 1, 0))) {
                        0
                    } else {
                        o.checked_at(i, j)
                    } by {
                    assert(cell_before(i, j, r as int, o.size_c as int) == cell_before(i, j, r + 1, 0));
                    assert(cell_before(i + 1, j, r as int, o.size_c as int) == cell_before(i + 1, j, r + 1, 0));
                }
            }
            r = r + 1;
        }
        proof {
            lemma_same_cells_view(o, *self);
        }
    }

    /// Restricts every point of `self` that differs from `stage` to the shapes `stage`
    /// allows.
    fn merge_points(&mut self, stage: &Self)
        requires
            old(self).wf(),
            old(self).headroom(),
            stage.wf(),
            stage.size_r == old(self).size_r,
            stage.size_c == old(self).size_c,
        ensures
            final(self).wf(),
            final(self).size_r == old(self).size_r,
            final(self).size_c == old(self).size_c,
            final(self).group == old(self).group,
            final(self).result == old(self).result,
            final(self).score >= old(self).score,
            final(self).score + final(self).pot() <= old(self).score + old(self).pot(),
            marks_cleared_only(*old(self), *final(self)),
            forall|i: int, j: int|
                #![trigger final(self).at(i, j)]
                old(self).in_grid(i, j) ==> final(self).at(i, j) == if is_point_pos(i, j)
                    && old(self).at(i, j) != stage.at(i, j) {
                    old(self).at(i, j) & !(P_ALL & !stage.at(i, j))
                } else {
                    old(self).at(i, j)
                },
    {
        let ghost o = *self;
        let mut r: isize = 0;
        while r < self.size_r + 1
            invariant
                0 <= r <= o.size_r + 1,
                o.wf(),
                o.headroom(),
                stage.wf(),
                stage.size_r == o.size_r,
                stage.size_c == o.size_c,
                self.wf(),
                self.size_r == o.size_r,
                self.size_c == o.size_c,
                self.group == o.group,
                self.result == o.result,
                self.score >= o.score,
                self.score + self.pot() <= o.score + o.pot(),
                marks_cleared_only(o, *self),
                forall|i: int, j: int|
                    #![trigger self.at(i, j)]
                    o.in_grid(i, j) ==> self.at(i, j) == if is_point_pos(i, j) && o.at(i, j) != stage.at(i, j)
                        && i / 2 < r {
                        o.at(i, j) & !(P_ALL & !stage.at(i, j))
                    } else {
                        o.at(i, j)
                    },
            decreases o.size_r + 1 - r,
        {
            let mut c: isize = 0;
            while c < self.size_c + 1
                invariant
                    0 <= r < o.size_r + 1,
                    0 <= c <= o.size_c + 1,
                    o.wf(),
                    o.headroom(),
                    stage.wf(),
                    stage.size_r == o.size_r,
                    stage.size_c == o.size_c,
                    self.wf(),
                    self.size_r == o.size_r,
                    self.size_c == o.size_c,
                    self.group == o.group,
                    self.result == o.result,
                    self.score >= o.score,
                    self.score + self.pot() <= o.score + o.pot(),
                    marks_cleared_only(o, *self),
                    forall|i: int, j: int|
                        #![trigger self.at(i, j)]
                        o.in_grid(i, j) ==> self.at(i, j) == if is_point_pos(i, j) && o.at(i, j) != stage.at(i, j)
                            && (i / 2 < r || (i / 2 == r && j / 2 < c)) {
                            o.at(i, j) & !(P_ALL & !stage.at(i, j))
                        } else {
                            o.at(i, j)
                        },
                decreases o.size_c + 1 - c,
            {
                let ghost before = *self;
                proof {
                    lemma_offset_kind(r as int, c as int, 0, 0);
                }
                let theirs = stage.cell(r * 2, c * 2);
                if self.cell(r * 2, c * 2) != theirs {
                    let pos = idx_point(r, c);
                    let ghost v = before.at(2 * r as int, 2 * c as int);
                    proof {
                        lemma_shapes_split(v, P_ALL & !theirs);
                        lemma_shapes_nonneg3(v & !((P_ALL & !theirs) & 127));
                        crate::grid::lemma_cell_le_potential(before.stage@, 2 * r as int, 2 * c as int);
                        lemma_potential_nonneg(before.stage@);
                        lemma_merge_bits(v, theirs);
                    }
                    let k = self.restrict_point_possibility_bat(pos, theirs);
                    proof {
                        lemma_point_progress(before, *self, 2 * r as int, 2 * c as int, P_ALL & !theirs, k as int);
                        lemma_wrote(before, *self, 2 * r as int, 2 * c as int, v & !((P_ALL & !theirs) & 127));
                        assert forall|i: int, j: int|
                            0 <= i < o.size_r && 0 <= j < o.size_c implies #[trigger] self.checked_at(i, j)
                            == o.checked_at(i, j) || self.checked_at(i, j) == 0 by {
                            assert(before.checked_at(i, j) == o.checked_at(i, j) || before.checked_at(i, j) == 0);
                        }
                    }
                }
                proof {
                    assert forall|i: int, j: int| #![trigger self.at(i, j)] o.in_grid(i, j) implies self.at(i, j)
                        == if is_point_pos(i, j) && o.at(i, j) != stage.at(i, j) && (i / 2 < r || (i / 2 == r && j / 2 < c + 1)) {
                        o.at(i, j) & !(P_ALL & !stage.at(i, j))
                    } else {
                        o.at(i, j)
                    } by {
                        assert(before.at(i, j) == if is_point_pos(i, j) && o.at(i, j) != stage.at(i, j)
                            && (i / 2 < r || (i / 2 == r && j / 2 < c)) {
                            o.at(i, j) & !(P_ALL & !stage.at(i, j))
                        } else {
                            o.at(i, j)
                        });
                        if !(i == 2 * r && j == 2 * c) {
                            assert(self.at(i, j) == before.at(i, j));
                        }
                    }
                }
                c = c + 1;
            }
            r = r + 1;
        }
    }

    /// Merges the board `stage`, of the same size, into `self`: every number `self`
    /// lacks is copied, every undecided line of `self` that `stage` decided is rewritten
    /// with its own undecided value (adding `K_LINE` to the score), and every point of
    /// `self` that differs keeps only the shapes `stage` allows.
    pub fn marge(&mut self, stage: &Self)
        requires
            old(self).wf(),
            stage.wf(),
            stage.size_r == old(self).size_r,
            stage.size_c == old(self).size_c,
            old(self).score + old(self).pot() + 3 * lines_count(*old(self)) <= u32::MAX,
        ensures
            final(self).wf(),
            final(self).size_r == old(self).size_r,
            final(self).size_c == old(self).size_c,
            final(self).group == old(self).group,
            final(self).result == old(self).result,
            final(self).score >= old(self).score,
            final(self).score + final(self).pot() <= old(self).score + old(self).pot() + 3
                * lines_count(*old(self)),
            marks_cleared_only(*old(self), *final(self)),
            forall|i: int, j: int|
                0 <= i < old(self).size_r && 0 <= j < old(self).size_c && number_of(*old(self), i, j) == -1
                    && number_of(*stage, i, j) != -1 ==> #[trigger] final(self).checked_at(i, j) == 0,
            forall|i: int, j: int|
                #![trigger final(self).at(i, j)]
                old(self).in_grid(i, j) ==> final(self).at(i, j) == merged_value(
                    *old(self),
                    *stage,
                    i,
                    j,
                ),
            forall|i: int, j: int|
                #![trigger final(self).at(i, j)]
                old(self).in_grid(i, j) && is_point_pos(i, j) ==> {
                    &&& final(self).at(i, j) & !stage.at(i, j) & 127 == 0
                    &&& final(self).at(i, j) & old(self).at(i, j) == final(self).at(i, j)
                    &&& (old(self).at(i, j) & stage.at(i, j)) & final(self).at(i, j) == old(self).at(i, j)
                        & stage.at(i, j)
                },
            forall|i: int, j: int|
                0 <= i < old(self).size_r && 0 <= j < old(self).size_c ==> #[trigger] number_of(
                    *final(self),
                    i,
                    j,
                ) == if number_of(*old(self), i, j) == -1 {
                    number_of(*stage, i, j)
                } else {
                    number_of(*old(self), i, j)
                },
    {
        let ghost o = *self;
        proof {
            lemma_potential_nonneg(o.stage@);
            assert(3 * lines_count(o) == 3 * o.size_r * (o.size_c + 1) + 3 * (o.size_r + 1) * o.size_c) by (nonlinear_arith);
            assert(o.size_r * (o.size_c + 1) >= 0) by (nonlinear_arith)
                requires
                    o.size_r >= 0,
                    o.size_c >= 0,
            ;
            assert((o.size_r + 1) * o.size_c >= 0) by (nonlinear_arith)
                requires
                    o.size_r >= 0,
                    o.size_c >= 0,
            ;
        }
        self.merge_numbers(stage);
        let ghost s1 = *self;
        self.merge_v_lines(stage);
        let ghost s2 = *self;
        self.merge_h_lines(stage);
        let ghost s3 = *self;
        proof {
            lemma_potential_nonneg(s3.stage@);
        }
        self.merge_points(stage);
        proof {
            assert forall|i: int, j: int|
                0 <= i < o.size_r && 0 <= j < o.size_c implies #[trigger] self.checked_at(i, j) == o.checked_at(i, j)
                || self.checked_at(i, j) == 0 by {
                assert(s1.checked_at(i, j) == o.checked_at(i, j) || s1.checked_at(i, j) == 0);
                assert(s2.checked_at(i, j) == s1.checked_at(i, j) || s2.checked_at(i, j) == 0);
                assert(s3.checked_at(i, j) == s2.checked_at(i, j) || s3.checked_at(i, j) == 0);
                assert(self.checked_at(i, j) == s3.checked_at(i, j) || self.checked_at(i, j) == 0);
            }
            assert forall|i: int, j: int|
                0 <= i < o.size_r && 0 <= j < o.size_c && number_of(o, i, j) == -1 && number_of(*stage, i, j)
                    != -1 implies #[trigger] self.checked_at(i, j) == 0 by {
                assert(s1.checked_at(i, j) == 0);
                assert(s2.checked_at(i, j) == s1.checked_at(i, j) || s2.checked_at(i, j) == 0);
                assert(s3.checked_at(i, j) == s2.checked_at(i, j) || s3.checked_at(i, j) == 0);
                assert(self.checked_at(i, j) == s3.checked_at(i, j) || self.checked_at(i, j) == 0);
            }
            assert forall|i: int, j: int| #![trigger self.at(i, j)] o.in_grid(i, j) implies self.at(i, j)
                == merged_value(o, *stage, i, j) by {
                assert(s1.at(i, j) == s2.at(i, j));
                assert(s2.at(i, j) == s3.at(i, j));
            }
            assert forall|i: int, j: int|
                #![trigger self.at(i, j)]
                o.in_grid(i, j) && is_point_pos(i, j) implies {
                    &&& self.at(i, j) & !stage.at(i, j) & 127 == 0
                    &&& self.at(i, j) & o.at(i, j) == self.at(i, j)
                    &&& (o.at(i, j) & stage.at(i, j)) & self.at(i, j) == o.at(i, j) & stage.at(i, j)
                } by {
                assert(self.at(i, j) == merged_value(o, *stage, i, j));
                lemma_merged_point(o.at(i, j), stage.at(i, j));
            }
            assert forall|i: int, j: int| 0 <= i < o.size_r && 0 <= j < o.size_c implies #[trigger] number_of(
                *self,
                i,
                j,
            ) == if number_of(o, i, j) == -1 {
                number_of(*stage, i, j)
            } else {
                number_of(o, i, j)
            } by {
                lemma_offset_kind(i, j, 0, 0);
                assert(o.in_grid(2 * i + 1, 2 * j + 1));
                assert(self.at(2 * i + 1, 2 * j + 1) == merged_value(o, *stage, 2 * i + 1, 2 * j + 1));
            }
        }
    }

}


/// A point merged with another keeps exactly the shapes both allow (and its own eighth
/// bit): it allows nothing the other does not, loses nothing both allow, and gains
/// nothing.
proof fn lemma_merged_point(o: i8, t: i8)
    by (bit_vector)
    ensures
        (if o != t { o & !(127i8 & !t) } else { o }) & !t & 127 == 0,
        (if o != t { o & !(127i8 & !t) } else { o }) & o == (if o != t { o & !(127i8 & !t) } else { o }),
        (o & t) & (if o != t { o & !(127i8 & !t) } else { o }) == o & t,
{
}

proof fn lemma_shapes_nonneg3(v: i8)
    ensures
        shapes_left(v) >= 0,
{
}

/// Boards with the same grid hold the same cells and potential.
proof fn lemma_same_cells_view(o: SolvingStage, s: SolvingStage)
    requires
        o.wf(),
        s.stage@.len() == o.stage@.len(),
        forall|k: int| 0 <= k < o.stage@.len() ==> #[trigger] s.stage@[k]@ == o.stage@[k]@,
    ensures
        same_cells(o, s),
        s.pot() == o.pot(),
{
    crate::grid::lemma_potential_same(o.stage@, s.stage@);
    assert forall|r: int, c: int| #![trigger s.at(r, c)] o.in_grid(r, c) implies s.at(r, c) == o.at(r, c) by {
        assert(s.stage@[r]@ == o.stage@[r]@);
    }
}

} // verus!
