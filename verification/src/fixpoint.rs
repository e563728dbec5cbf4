use vstd::prelude::*;
use crate::grid::lemma_potential_nonneg;
use crate::group::{h_line_agrees, labels_agree, labels_followed, labels_nonzero, v_line_agrees};
use crate::point::{degree_ok, lemma_degree_ok_kept};
use crate::grid::lemma_offset_kind;
use crate::stage::{lemma_progress_refl, lemma_progress_trans, progress, SolvingStage};

verus! {

/// Every point of the board satisfies the degree rule.
pub open spec fn degrees_ok(s: SolvingStage) -> bool {
    forall|r: int, c: int| 0 <= r <= s.size_r && 0 <= c <= s.size_c ==> #[trigger] degree_ok(s, r, c)
}

/// The degree rule only reads the grid, and survives a contradiction.
pub proof fn lemma_degrees_kept(s: SolvingStage, t: SolvingStage)
    requires
        degrees_ok(s),
        t.stage == s.stage,
        t.size_r == s.size_r,
        t.size_c == s.size_c,
        t.result ==> s.result,
    ensures
        degrees_ok(t),
{
    assert forall|r: int, c: int| 0 <= r <= t.size_r && 0 <= c <= t.size_c implies #[trigger] degree_ok(t, r, c) by {
        assert(degree_ok(s, r, c));
        lemma_degree_ok_kept(s, t, r, c);
    }
}

/// Every cell of `s` is marked as examined, so `check_number` finds nothing more there.
pub open spec fn numbers_examined(s: SolvingStage) -> bool {
    forall|r: int, c: int| 0 <= r < s.size_r && 0 <= c < s.size_c ==> #[trigger] s.checked_at(r, c) != 0
}

impl SolvingStage {
    /// One pass of every deduction: each cell number, each point, then the labels.
    /// Returns the score gained; a pass that gains nothing leaves a board on which
    /// every point satisfies the degree rule and everything follows the labels.
    fn check_pass(&mut self) -> (res: u32)
        requires
            old(self).wf(),
            old(self).headroom(),
        ensures
            progress(*old(self), *final(self), res as int),
            res == 0 ==> degrees_ok(*final(self)) && labels_followed(*final(self)),
            res == 0 ==> numbers_examined(*final(self)),
            labels_nonzero(*old(self)) ==> labels_nonzero(*final(self)),
            res == 0 && labels_nonzero(*old(self)) && final(self).result ==> labels_agree(*final(self)),
    {
        let ghost p0 = *self;
        let mut local_counter: u32 = 0;
        proof {
            lemma_progress_refl(p0);
        }
        let mut r: isize = 0;
        while r < self.size_r
            invariant
                0 <= r <= p0.size_r,
                p0.wf(),
                p0.headroom(),
                progress(p0, *self, local_counter as int),
                self.group == p0.group,
                local_counter == 0 ==> forall|i: int, j: int|
                    0 <= i < r && 0 <= j < p0.size_c ==> #[trigger] self.checked_at(i, j) != 0,
            decreases p0.size_r - r,
        {
            let mut c: isize = 0;
            while c < self.size_c
                invariant
                    0 <= r < p0.size_r,
                    0 <= c <= p0.size_c,
                    p0.wf(),
                    p0.headroom(),
                    progress(p0, *self, local_counter as int),
                    self.group == p0.group,
                    local_counter == 0 ==> forall|i: int, j: int|
                        (0 <= i < r && 0 <= j < p0.size_c) || (i == r && 0 <= j < c) ==> #[trigger] self.checked_at(i, j) != 0,
                decreases p0.size_c - c,
            {
                let ghost before = *self;
                let k = self.check_number(r, c);
                proof {
                    lemma_progress_trans(p0, before, *self, local_counter as int, k as int);
                    if local_counter + k == 0 {
                        assert forall|i: int, j: int|
                            (0 <= i < r && 0 <= j < p0.size_c) || (i == r && 0 <= j < c + 1) implies #[trigger] self.checked_at(i, j) != 0 by {
                            if !(i == r && j == c) {
                                assert(before.checked_at(i, j) != 0);
                            }
                        }
                    }
                }
                local_counter = local_counter + k;
                c = c + 1;
            }
            r = r + 1;
        }
        let mut r: isize = 0;
        while r < self.size_r + 1
            invariant
                0 <= r <= p0.size_r + 1,
                p0.wf(),
                p0.headroom(),
                progress(p0, *self, local_counter as int),
                self.group == p0.group,
                local_counter == 0 ==> forall|i: int, j: int|
                    0 <= i < r && 0 <= j <= p0.size_c ==> #[trigger] degree_ok(*self, i, j),
                local_counter == 0 ==> numbers_examined(*self),
            decreases p0.size_r + 1 - r,
        {
            let mut c: isize = 0;
            while c < self.size_c + 1
                invariant
                    0 <= r < p0.size_r + 1,
                    0 <= c <= p0.size_c + 1,
                    p0.wf(),
                    p0.headroom(),
                    progress(p0, *self, local_counter as int),
                    self.group == p0.group,
                    local_counter == 0 ==> forall|i: int, j: int|
                        (0 <= i < r && 0 <= j <= p0.size_c) || (i == r && 0 <= j < c) ==> #[trigger] degree_ok(*self, i, j),
                    local_counter == 0 ==> numbers_examined(*self),
                decreases p0.size_c + 1 - c,
            {
                let ghost before = *self;
                let k = self.check_point(r, c);
                proof {
                    lemma_progress_trans(p0, before, *self, local_counter as int, k as int);
                    if local_counter + k == 0 {
                        assert forall|i: int, j: int| 0 <= i < self.size_r && 0 <= j < self.size_c implies #[trigger] self.checked_at(i, j) != 0 by {
                            assert(before.checked_at(i, j) != 0);
                        }
                        assert forall|i: int, j: int|
                            (0 <= i < r && 0 <= j <= p0.size_c) || (i == r && 0 <= j < c) implies #[trigger] degree_ok(*self, i, j) by {
                            assert(degree_ok(before, i, j));
                            lemma_degree_ok_kept(before, *self, i, j);
                        }
                    }
                }
                local_counter = local_counter + k;
                c = c + 1;
            }
            r = r + 1;
        }
        let ghost before = *self;
        proof {
            if labels_nonzero(p0) {
                assert forall|i: int, j: int| 0 <= i < before.size_r && 0 <= j < before.size_c implies #[trigger] before.group_at(i, j) != 0 by {
                    assert(p0.group_at(i, j) != 0);
                }
            }
        }
        let k = self.check_group();
        proof {
            lemma_progress_trans(p0, before, *self, local_counter as int, k as int);
            if local_counter + k == 0 {
                assert forall|i: int, j: int| 0 <= i < self.size_r && 0 <= j < self.size_c implies #[trigger] self.checked_at(i, j) != 0 by {
                    assert(before.checked_at(i, j) != 0);
                }
                assert forall|i: int, j: int|
                    0 <= i <= p0.size_r && 0 <= j <= p0.size_c implies #[trigger] degree_ok(*self, i, j) by {
                    assert(degree_ok(before, i, j));
                    lemma_degree_ok_kept(before, *self, i, j);
                }
                if labels_nonzero(p0) && self.result {
                    assert forall|r: int, c: int|
                        0 <= r < self.size_r && 0 <= c <= self.size_c implies #[trigger] v_line_agrees(
                        *self,
                        r,
                        c,
                        self.at(2 * r + 1, 2 * c),
                    ) by {
                        lemma_offset_kind(r, c, 0, -1);
                        assert(before.in_grid(2 * r + 1, 2 * c));
                        assert(self.at(2 * r + 1, 2 * c) == before.at(2 * r + 1, 2 * c));
                        assert(v_line_agrees(*self, r, c, before.at(2 * r + 1, 2 * c)));
                    }
                    assert forall|r: int, c: int|
                        0 <= r <= self.size_r && 0 <= c < self.size_c implies #[trigger] h_line_agrees(
                        *self,
                        r,
                        c,
                        self.at(2 * r, 2 * c + 1),
                    ) by {
                        lemma_offset_kind(r, c, -1, 0);
                        assert(before.in_grid(2 * r, 2 * c + 1));
                        assert(self.at(2 * r, 2 * c + 1) == before.at(2 * r, 2 * c + 1));
                        assert(h_line_agrees(*self, r, c, before.at(2 * r, 2 * c + 1)));
                    }
                }
            }
        }
        local_counter = local_counter + k;
        local_counter
    }

    /// Applies every deduction until a whole pass gains nothing, and returns the score
    /// gained. The board left satisfies the degree rule at every point and follows the
    /// region labels everywhere; when no label was 0 and the board is not contradictory,
    /// the labels also agree with every decided line. Every cell is left marked as
    /// examined, so `check_number` gains nothing more at any cell of it.
    pub fn check(&mut self) -> (res: u32)
        requires
            old(self).wf(),
            old(self).headroom(),
        ensures
            progress(*old(self), *final(self), res as int),
            degrees_ok(*final(self)),
            labels_followed(*final(self)),
            labels_nonzero(*old(self)) ==> labels_nonzero(*final(self)),
            labels_nonzero(*old(self)) && final(self).result ==> labels_agree(*final(self)),
            numbers_examined(*final(self)),
    {
        let ghost s0 = *old(self);
        let mut counter: u32 = 0;
        proof {
            lemma_progress_refl(s0);
        }
        loop
            invariant_except_break
                s0.wf(),
                s0.headroom(),
                progress(s0, *self, counter as int),
                labels_nonzero(s0) ==> labels_nonzero(*self),
            ensures
                progress(s0, *self, counter as int),
                degrees_ok(*self),
                labels_followed(*self),
                labels_nonzero(s0) ==> labels_nonzero(*self),
                labels_nonzero(s0) && self.result ==> labels_agree(*self),
                numbers_examined(*self),
            decreases self.pot(),
        {
            let ghost before = *self;
            let local_counter = self.check_pass();
            proof {
                lemma_progress_trans(s0, before, *self, counter as int, local_counter as int);
                lemma_potential_nonneg(self.stage@);
                lemma_potential_nonneg(before.stage@);
            }
            counter = counter + local_counter;
            if local_counter == 0 {
                break;
            }
        }
        counter
    }
}

} // verus!
