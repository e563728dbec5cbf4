use vstd::prelude::*;
use crate::grid::{is_line_pos, is_point_pos, lemma_offset_kind};
use crate::rotation::{
    fits_isize, idx_h_line, idx_number, idx_point, idx_v_line, in_possibility, lemma_turn_near,
    rot_col, rot_p, rot_rc, rot_rc_fits, rot_row, RowCol, P_CORNER_UL, P_DIAGONAL_RD,
    P_DIAGONAL_RU, P_NONE, P_OR_UL, P_RD, P_UL,
};
use crate::completion::{completions_kept, number_met, lemma_completes_line, lemma_completes_restrict, lemma_corner_rules_sound, lemma_sides_sound};
use crate::group::{allows_only, lemma_allows_only};
use crate::point::{completes, finished};
use crate::grid::lemma_subset_trans;
use crate::rotation::rot_spec;
use crate::stage::{
    lemma_progress_refl, lemma_progress_trans, lemma_refines_trans, lemma_same_grid_progress,
    lemma_wf_keep, progress, refines, SolvingStage, MAX_SIDE,
};

verus! {

/// Turning a position next to the number of cell `(r, c)` around that number keeps it on
/// the board and of the same kind.
pub proof fn lemma_turn_cell(r: int, c: int, rows: int, cols: int, tr: int, tc: int, rot: int)
    requires
        0 <= r < rows <= MAX_SIDE,
        0 <= c < cols <= MAX_SIDE,
        0 <= rot,
        -1 <= tr - (2 * r + 1) <= 1,
        -1 <= tc - (2 * c + 1) <= 1,
    ensures
        0 <= rot_row(tr, tc, 2 * r + 1, 2 * c + 1, rot) < 2 * rows + 1,
        0 <= rot_col(tr, tc, 2 * r + 1, 2 * c + 1, rot) < 2 * cols + 1,
        is_line_pos(rot_row(tr, tc, 2 * r + 1, 2 * c + 1, rot), rot_col(tr, tc, 2 * r + 1, 2 * c + 1, rot))
            == is_line_pos(tr, tc),
        is_point_pos(rot_row(tr, tc, 2 * r + 1, 2 * c + 1, rot), rot_col(tr, tc, 2 * r + 1, 2 * c + 1, rot))
            == is_point_pos(tr, tc),
        fits_isize(tr - (2 * r + 1)),
        fits_isize(tc - (2 * c + 1)),
        fits_isize(rot_row(tr, tc, 2 * r + 1, 2 * c + 1, rot)),
        fits_isize(rot_col(tr, tc, 2 * r + 1, 2 * c + 1, rot)),
{
    let nr = rot_row(tr, tc, 2 * r + 1, 2 * c + 1, rot);
    let nc = rot_col(tr, tc, 2 * r + 1, 2 * c + 1, rot);
    lemma_turn_near(tr, tc, 2 * r + 1, 2 * c + 1, rot);
    lemma_offset_kind(r, c, tr - (2 * r + 1), tc - (2 * c + 1));
    lemma_offset_kind(r, c, nr - (2 * r + 1), nc - (2 * c + 1));
}

/// One if `x == v`.
pub open spec fn is_val(x: i8, v: i8) -> int {
    if x == v {
        1
    } else {
        0
    }
}

/// How many of the four sides of cell `(r, c)` hold `v`.
pub open spec fn side_count(s: SolvingStage, r: int, c: int, v: i8) -> int {
    is_val(s.at(2 * r + 1, 2 * c), v) + is_val(s.at(2 * r + 1, 2 * c + 2), v) + is_val(
        s.at(2 * r, 2 * c + 1),
        v,
    ) + is_val(s.at(2 * r + 2, 2 * c + 1), v)
}

/// The value of `s` at `(tr, tc)` turned `rot` quarter turns around the number of cell
/// `(r, c)`.
pub open spec fn turned_at(s: SolvingStage, r: int, c: int, tr: int, tc: int, rot: int) -> i8 {
    s.at(rot_row(tr, tc, 2 * r + 1, 2 * c + 1, rot), rot_col(tr, tc, 2 * r + 1, 2 * c + 1, rot))
}

/// The point value `x` allows only shapes of `m`, as `in_possibility(x, m)` tests.
pub open spec fn among(x: i8, m: i8) -> bool {
    x & m == x
}

/// The turned line holds `v`, or `s` is contradictory.
pub open spec fn turned_decided(s: SolvingStage, r: int, c: int, tr: int, tc: int, rot: int, v: i8) -> bool {
    turned_at(s, r, c, tr, tc, rot) == v || !s.result
}

/// `(tr, tc)` is one of the nine positions around and at the number of cell `(r, c)`.
pub open spec fn around_cell(r: int, c: int, tr: int, tc: int) -> bool {
    -1 <= tr - (2 * r + 1) <= 1 && -1 <= tc - (2 * c + 1) <= 1
}

/// Turned decided lines stay decided.
pub proof fn lemma_turned_decided_kept(a: SolvingStage, b: SolvingStage, r: int, c: int, tr: int, tc: int, k: int, v: i8)
    requires
        a.wf(),
        refines(a, b),
        0 <= r < a.size_r,
        0 <= c < a.size_c,
        0 <= k,
        around_cell(r, c, tr, tc),
        is_line_pos(tr, tc),
        v != -1,
        turned_decided(a, r, c, tr, tc, k, v),
    ensures
        turned_decided(b, r, c, tr, tc, k, v),
{
    lemma_turn_cell(r, c, a.size_r as int, a.size_c as int, tr, tc, k);
    let x = rot_row(tr, tc, 2 * r + 1, 2 * c + 1, k);
    let y = rot_col(tr, tc, 2 * r + 1, 2 * c + 1, k);
    assert(a.in_grid(x, y));
    assert(b.at(x, y) == turned_at(b, r, c, tr, tc, k));
}

/// A turned line decided as `v` stays so.
pub proof fn lemma_turned_line_kept(a: SolvingStage, b: SolvingStage, r: int, c: int, tr: int, tc: int, k: int)
    requires
        a.wf(),
        refines(a, b),
        0 <= r < a.size_r,
        0 <= c < a.size_c,
        0 <= k,
        around_cell(r, c, tr, tc),
        is_line_pos(tr, tc),
        turned_at(a, r, c, tr, tc, k) != -1,
    ensures
        turned_at(b, r, c, tr, tc, k) == turned_at(a, r, c, tr, tc, k),
{
    lemma_turn_cell(r, c, a.size_r as int, a.size_c as int, tr, tc, k);
    let x = rot_row(tr, tc, 2 * r + 1, 2 * c + 1, k);
    let y = rot_col(tr, tc, 2 * r + 1, 2 * c + 1, k);
    assert(a.in_grid(x, y));
    assert(b.at(x, y) == turned_at(b, r, c, tr, tc, k));
}

/// A turned point keeps allowing only shapes of `m`, and keeps passing `in_possibility`.
pub proof fn lemma_turned_point_kept(a: SolvingStage, b: SolvingStage, r: int, c: int, tr: int, tc: int, k: int, m: i8)
    requires
        a.wf(),
        refines(a, b),
        0 <= r < a.size_r,
        0 <= c < a.size_c,
        0 <= k,
        around_cell(r, c, tr, tc),
        is_point_pos(tr, tc),
    ensures
        allows_only(turned_at(a, r, c, tr, tc, k), m) ==> allows_only(turned_at(b, r, c, tr, tc, k), m),
        among(turned_at(a, r, c, tr, tc, k), m) ==> among(turned_at(b, r, c, tr, tc, k), m),
{
    lemma_turn_cell(r, c, a.size_r as int, a.size_c as int, tr, tc, k);
    let x = rot_row(tr, tc, 2 * r + 1, 2 * c + 1, k);
    let y = rot_col(tr, tc, 2 * r + 1, 2 * c + 1, k);
    assert(a.in_grid(x, y));
    assert(b.at(x, y) == turned_at(b, r, c, tr, tc, k));
    lemma_allows_only(a.at(x, y), b.at(x, y), m, 0);
    lemma_subset_trans(b.at(x, y), a.at(x, y), m);
}

/// What the corner patterns of a 1 leave in `s` in rotation `k`, for what was found in
/// `o`: a corner allowing only the diagonal shapes crosses out the two far sides, and two
/// crossed-out near sides leave the opposite corner only the diagonal shapes.
pub open spec fn one_rules(o: SolvingStage, s: SolvingStage, r: int, c: int, k: int) -> bool {
    let m = rot_spec(P_DIAGONAL_RD, k as u8);
    &&& among(turned_at(o, r, c, 2 * r, 2 * c, k), m) ==> turned_decided(s, r, c, 2 * r + 2, 2 * c + 1, k, 0)
        && turned_decided(s, r, c, 2 * r + 1, 2 * c + 2, k, 0)
    &&& turned_at(o, r, c, 2 * r, 2 * c + 1, k) == 0 && turned_at(o, r, c, 2 * r + 1, 2 * c, k) == 0
        ==> allows_only(turned_at(s, r, c, 2 * r + 2, 2 * c + 2, k), m)
}

/// The rules of a 1 survive further deductions, and hold for premises found earlier.
pub proof fn lemma_one_rules_kept(p: SolvingStage, o: SolvingStage, a: SolvingStage, b: SolvingStage, r: int, c: int, k: int)
    requires
        p.wf(),
        o.wf(),
        a.wf(),
        refines(p, o),
        refines(a, b),
        o.size_r == a.size_r,
        o.size_c == a.size_c,
        0 <= r < a.size_r,
        0 <= c < a.size_c,
        0 <= k,
        one_rules(o, a, r, c, k),
    ensures
        one_rules(p, b, r, c, k),
{
    let m = rot_spec(P_DIAGONAL_RD, k as u8);
    lemma_offset_kind(r, c, -1, -1);
    lemma_offset_kind(r, c, 1, 0);
    lemma_offset_kind(r, c, 0, 1);
    lemma_offset_kind(r, c, -1, 0);
    lemma_offset_kind(r, c, 0, -1);
    lemma_offset_kind(r, c, 1, 1);
    lemma_turned_point_kept(p, o, r, c, 2 * r, 2 * c, k, m);
    if turned_at(p, r, c, 2 * r, 2 * c + 1, k) == 0 {
        lemma_turned_line_kept(p, o, r, c, 2 * r, 2 * c + 1, k);
    }
    if turned_at(p, r, c, 2 * r + 1, 2 * c, k) == 0 {
        lemma_turned_line_kept(p, o, r, c, 2 * r + 1, 2 * c, k);
    }
    if among(turned_at(o, r, c, 2 * r, 2 * c, k), m) {
        lemma_turned_decided_kept(a, b, r, c, 2 * r + 2, 2 * c + 1, k, 0);
        lemma_turned_decided_kept(a, b, r, c, 2 * r + 1, 2 * c + 2, k, 0);
    }
    lemma_turned_point_kept(a, b, r, c, 2 * r + 2, 2 * c + 2, k, m);
}

/// What the corner patterns of a 2 leave in `s` in rotation `k`, for what was found in
/// `o`: the first of the following that the corner passes applies. A corner allowing only
/// the diagonal shapes leaves the opposite corner only those; one with a line up or left
/// leaves it only such shapes; one allowing only the empty corner or the turn up-left
/// leaves the opposite corner the other diagonal shapes and the two side corners the
/// crossing shapes.
pub open spec fn two_rules(o: SolvingStage, s: SolvingStage, r: int, c: int, k: int) -> bool {
    let md = rot_spec(P_DIAGONAL_RD, k as u8);
    let mo = rot_spec(P_OR_UL, k as u8);
    let mc = rot_spec(P_CORNER_UL | P_UL, k as u8);
    let now = turned_at(s, r, c, 2 * r, 2 * c, k);
    &&& among(turned_at(o, r, c, 2 * r, 2 * c, k), md) ==> allows_only(turned_at(s, r, c, 2 * r + 2, 2 * c + 2, k), md)
    &&& among(turned_at(o, r, c, 2 * r, 2 * c, k), mo) && !among(now, md) ==> allows_only(
        turned_at(s, r, c, 2 * r + 2, 2 * c + 2, k),
        mo,
    )
    &&& among(turned_at(o, r, c, 2 * r, 2 * c, k), mc) && !among(now, md) && !among(now, mo) ==> {
        &&& allows_only(turned_at(s, r, c, 2 * r + 2, 2 * c + 2, k), rot_spec(P_UL | P_RD | P_NONE, k as u8))
        &&& allows_only(turned_at(s, r, c, 2 * r + 2, 2 * c, k), rot_spec(P_DIAGONAL_RU, k as u8))
        &&& allows_only(turned_at(s, r, c, 2 * r, 2 * c + 2, k), rot_spec(P_DIAGONAL_RU, k as u8))
    }
}

/// The rules of a 2 survive further deductions, and hold for premises found earlier.
pub proof fn lemma_two_rules_kept(p: SolvingStage, o: SolvingStage, a: SolvingStage, b: SolvingStage, r: int, c: int, k: int)
    requires
        p.wf(),
        o.wf(),
        a.wf(),
        refines(p, o),
        refines(a, b),
        o.size_r == a.size_r,
        o.size_c == a.size_c,
        0 <= r < a.size_r,
        0 <= c < a.size_c,
        0 <= k,
        two_rules(o, a, r, c, k),
    ensures
        two_rules(p, b, r, c, k),
{
    let md = rot_spec(P_DIAGONAL_RD, k as u8);
    let mo = rot_spec(P_OR_UL, k as u8);
    let mc = rot_spec(P_CORNER_UL | P_UL, k as u8);
    lemma_offset_kind(r, c, -1, -1);
    lemma_offset_kind(r, c, 1, 1);
    lemma_offset_kind(r, c, 1, -1);
    lemma_offset_kind(r, c, -1, 1);
    lemma_turned_point_kept(p, o, r, c, 2 * r, 2 * c, k, md);
    lemma_turned_point_kept(p, o, r, c, 2 * r, 2 * c, k, mo);
    lemma_turned_point_kept(p, o, r, c, 2 * r, 2 * c, k, mc);
    lemma_turned_point_kept(a, b, r, c, 2 * r, 2 * c, k, md);
    lemma_turned_point_kept(a, b, r, c, 2 * r, 2 * c, k, mo);
    lemma_turned_point_kept(a, b, r, c, 2 * r + 2, 2 * c + 2, k, md);
    lemma_turned_point_kept(a, b, r, c, 2 * r + 2, 2 * c + 2, k, mo);
    lemma_turned_point_kept(a, b, r, c, 2 * r + 2, 2 * c + 2, k, rot_spec(P_UL | P_RD | P_NONE, k as u8));
    lemma_turned_point_kept(a, b, r, c, 2 * r + 2, 2 * c, k, rot_spec(P_DIAGONAL_RU, k as u8));
    lemma_turned_point_kept(a, b, r, c, 2 * r, 2 * c + 2, k, rot_spec(P_DIAGONAL_RU, k as u8));
}

/// What the corner patterns of a 3 leave in `s` in rotation `k`, for what was found in
/// `o`: a corner with a line up or left keeps only the diagonal shapes and draws the
/// two far sides; otherwise a corner allowing only the empty corner draws the two near
/// sides.
pub open spec fn three_rules(o: SolvingStage, s: SolvingStage, r: int, c: int, k: int) -> bool {
    let mo = rot_spec(P_OR_UL, k as u8);
    let mc = rot_spec(P_CORNER_UL, k as u8);
    let now = turned_at(s, r, c, 2 * r, 2 * c, k);
    &&& among(turned_at(o, r, c, 2 * r, 2 * c, k), mo) ==> {
        &&& allows_only(now, rot_spec(P_DIAGONAL_RD, k as u8))
        &&& turned_decided(s, r, c, 2 * r + 1, 2 * c + 2, k, 1)
        &&& turned_decided(s, r, c, 2 * r + 2, 2 * c + 1, k, 1)
    }
    &&& among(turned_at(o, r, c, 2 * r, 2 * c, k), mc) && !among(now, mo) ==> {
        &&& turned_decided(s, r, c, 2 * r + 1, 2 * c, k, 1)
        &&& turned_decided(s, r, c, 2 * r, 2 * c + 1, k, 1)
    }
}

/// The rules of a 3 survive further deductions, and hold for premises found earlier.
pub proof fn lemma_three_rules_kept(p: SolvingStage, o: SolvingStage, a: SolvingStage, b: SolvingStage, r: int, c: int, k: int)
    requires
        p.wf(),
        o.wf(),
        a.wf(),
        refines(p, o),
        refines(a, b),
        o.size_r == a.size_r,
        o.size_c == a.size_c,
        0 <= r < a.size_r,
        0 <= c < a.size_c,
        0 <= k,
        three_rules(o, a, r, c, k),
    ensures
        three_rules(p, b, r, c, k),
{
    let mo = rot_spec(P_OR_UL, k as u8);
    let mc = rot_spec(P_CORNER_UL, k as u8);
    lemma_offset_kind(r, c, -1, -1);
    lemma_offset_kind(r, c, 0, 1);
    lemma_offset_kind(r, c, 1, 0);
    lemma_offset_kind(r, c, 0, -1);
    lemma_offset_kind(r, c, -1, 0);
    lemma_turned_point_kept(p, o, r, c, 2 * r, 2 * c, k, mo);
    lemma_turned_point_kept(p, o, r, c, 2 * r, 2 * c, k, mc);
    lemma_turned_point_kept(a, b, r, c, 2 * r, 2 * c, k, mo);
    lemma_turned_point_kept(a, b, r, c, 2 * r, 2 * c, k, rot_spec(P_DIAGONAL_RD, k as u8));
    if among(turned_at(o, r, c, 2 * r, 2 * c, k), mo) {
        lemma_turned_decided_kept(a, b, r, c, 2 * r + 1, 2 * c + 2, k, 1);
        lemma_turned_decided_kept(a, b, r, c, 2 * r + 2, 2 * c + 1, k, 1);
    }
    if among(turned_at(o, r, c, 2 * r, 2 * c, k), mc) && !among(turned_at(a, r, c, 2 * r, 2 * c, k), mo) {
        lemma_turned_decided_kept(a, b, r, c, 2 * r + 1, 2 * c, k, 1);
        lemma_turned_decided_kept(a, b, r, c, 2 * r, 2 * c + 1, k, 1);
    }
}

/// Every side of cell `(r, c)` that was undecided in `o` holds `v` in `s`.
pub open spec fn open_sides_set(o: SolvingStage, s: SolvingStage, r: int, c: int, v: i8) -> bool {
    &&& o.at(2 * r + 1, 2 * c) == -1 ==> s.at(2 * r + 1, 2 * c) == v
    &&& o.at(2 * r + 1, 2 * c + 2) == -1 ==> s.at(2 * r + 1, 2 * c + 2) == v
    &&& o.at(2 * r, 2 * c + 1) == -1 ==> s.at(2 * r, 2 * c + 1) == v
    &&& o.at(2 * r + 2, 2 * c + 1) == -1 ==> s.at(2 * r + 2, 2 * c + 1) == v
}

/// The number of cell `(r, c)`.
pub open spec fn number_of(s: SolvingStage, r: int, c: int) -> i8 {
    s.at(2 * r + 1, 2 * c + 1)
}

/// Decided sides of a cell stay decided.
proof fn lemma_sides_kept(o: SolvingStage, s: SolvingStage, t: SolvingStage, r: int, c: int, v: i8)
    requires
        o.wf(),
        s.wf(),
        0 <= r < o.size_r,
        0 <= c < o.size_c,
        open_sides_set(o, s, r, c, v),
        refines(s, t),
        v != -1,
        s.size_r == o.size_r,
        s.size_c == o.size_c,
    ensures
        open_sides_set(o, t, r, c, v),
{
    assert(t.at(2 * r + 1, 2 * c) == t.at(2 * r + 1, 2 * c));
    assert(t.at(2 * r + 1, 2 * c + 2) == t.at(2 * r + 1, 2 * c + 2));
    assert(t.at(2 * r, 2 * c + 1) == t.at(2 * r, 2 * c + 1));
    assert(t.at(2 * r + 2, 2 * c + 1) == t.at(2 * r + 2, 2 * c + 1));
    lemma_offset_kind(r, c, 0, -1);
    lemma_offset_kind(r, c, 0, 1);
    lemma_offset_kind(r, c, -1, 0);
    lemma_offset_kind(r, c, 1, 0);
}

/// The facts every pattern step below keeps.
pub open spec fn pattern_frame(
    s0: SolvingStage,
    o: SolvingStage,
    s: SolvingStage,
    acc: int,
    res: int,
) -> bool {
    &&& progress(s0, s, res)
    &&& res >= acc
    &&& s.group == o.group
    &&& res == acc ==> s.checked == o.checked
    &&& forall|a: SolvingStage| a.wf() && #[trigger] refines(a, o) ==> refines(a, s)
}

impl SolvingStage {
    /// Counts the sides of cell `(r, c)` holding `v`: more than `limit` marks the board
    /// contradictory, exactly `limit` decides every undecided side as `fill`.
    #[verifier::spinoff_prover]
    #[verifier::rlimit(60)]
    fn fill_sides(
        &mut self,
        Ghost(s0): Ghost<SolvingStage>,
        acc: u32,
        r: isize,
        c: isize,
        v: i8,
        limit: i8,
        fill: i8,
    ) -> (res: u32)
        requires
            s0.wf(),
            s0.headroom(),
            progress(s0, *old(self), acc as int),
            0 <= r < s0.size_r,
            0 <= c < s0.size_c,
            fill == 0 || fill == 1,
        ensures
            pattern_frame(s0, *old(self), *final(self), acc as int, res as int),
            side_count(*old(self), r as int, c as int, v) > limit ==> !final(self).result
                && final(self).stage == old(self).stage,
            side_count(*old(self), r as int, c as int, v) == limit ==> open_sides_set(
                *old(self),
                *final(self),
                r as int,
                c as int,
                fill,
            ),
            side_count(*old(self), r as int, c as int, v) < limit ==> *final(self) == *old(self)
                && res == acc,
            forall|sol: SolvingStage|
                finished(sol) && #[trigger] completes(sol, *old(self)) && side_count(sol, r as int, c as int, v)
                    == limit && (v == 0 || v == 1) && fill == 1 - v ==> completes(sol, *final(self))
                    && final(self).result == old(self).result,
    {
        let ghost o = *self;
        let ghost ri = r as int;
        let ghost ci = c as int;
        let mut counter = acc;
        proof {
            lemma_offset_kind(ri, ci, 0, -1);
            lemma_offset_kind(ri, ci, 0, 1);
            lemma_offset_kind(ri, ci, -1, 0);
            lemma_offset_kind(ri, ci, 1, 0);
            lemma_progress_refl(o);
            assert forall|a: SolvingStage| a.wf() && #[trigger] refines(a, o) implies refines(a, o) by {}
        }
        let mut count: i8 = 0;
        if self.cell(r * 2 + 1, c * 2) == v {
            count += 1;
        }
        if self.cell(r * 2 + 1, c * 2 + 2) == v {
            count += 1;
        }
        if self.cell(r * 2, c * 2 + 1) == v {
            count += 1;
        }
        if self.cell(r * 2 + 2, c * 2 + 1) == v {
            count += 1;
        }
        assert(count == side_count(o, ri, ci, v));
        if count > limit {
            self.mark_contradiction(Ghost(s0), counter);
            proof {
                assert forall|sol: SolvingStage|
                    finished(sol) && #[trigger] completes(sol, o) && side_count(sol, ri, ci, v) == limit && (v
                        == 0 || v == 1) && fill == 1 - v implies false by {
                    lemma_sides_sound(sol, o, ri, ci, v);
                }
            }
        } else if count == limit {
            let ghost g0 = *self;
            if self.cell(r * 2 + 1, c * 2) == -1 {
                counter = self.step_line(Ghost(s0), counter, idx_v_line(r, c), fill);
            }
            let ghost g1 = *self;
            if self.cell(r * 2 + 1, c * 2 + 2) == -1 {
                counter = self.step_line(Ghost(s0), counter, idx_v_line(r, c + 1), fill);
            }
            let ghost g2 = *self;
            if self.cell(r * 2, c * 2 + 1) == -1 {
                counter = self.step_line(Ghost(s0), counter, idx_h_line(r, c), fill);
            }
            let ghost g3 = *self;
            if self.cell(r * 2 + 2, c * 2 + 1) == -1 {
                counter = self.step_line(Ghost(s0), counter, idx_h_line(r + 1, c), fill);
            }
            proof {
                assert forall|sol: SolvingStage|
                    finished(sol) && #[trigger] completes(sol, o) && side_count(sol, ri, ci, v) == limit && (v
                        == 0 || v == 1) && fill == 1 - v implies completes(sol, *self) && self.result == o.result by {
                    lemma_sides_sound(sol, o, ri, ci, v);
                    if g0.at(2 * ri + 1, 2 * ci) == -1 {
                        lemma_completes_line(sol, g0, g1, 2 * ri + 1, 2 * ci);
                    }
                    if g1.at(2 * ri + 1, 2 * ci + 2) == -1 {
                        lemma_completes_line(sol, g1, g2, 2 * ri + 1, 2 * ci + 2);
                    }
                    if g2.at(2 * ri, 2 * ci + 1) == -1 {
                        lemma_completes_line(sol, g2, g3, 2 * ri, 2 * ci + 1);
                    }
                    if g3.at(2 * ri + 2, 2 * ci + 1) == -1 {
                        lemma_completes_line(sol, g3, *self, 2 * ri + 2, 2 * ci + 1);
                    }
                }
            }
        }
        counter
    }

    /// The patterns of the corner points around a 1, in all four rotations.
    fn number_one_patterns(&mut self, Ghost(s0): Ghost<SolvingStage>, acc: u32, r: isize, c: isize) -> (res: u32)
        requires
            s0.wf(),
            s0.headroom(),
            progress(s0, *old(self), acc as int),
            0 <= r < s0.size_r,
            0 <= c < s0.size_c,
        ensures
            pattern_frame(s0, *old(self), *final(self), acc as int, res as int),
            forall|k: int| 0 <= k < 4 ==> #[trigger] one_rules(*old(self), *final(self), r as int, c as int, k),
            completions_kept(*old(self), *final(self), r as int, c as int, 1),
    {
        let ghost o = *self;
        let ghost ri = r as int;
        let ghost ci = c as int;
        let center = idx_number(r, c);
        let mut counter = acc;
        proof {
            assert forall|a: SolvingStage| a.wf() && #[trigger] refines(a, o) implies refines(a, o) by {}
            lemma_progress_refl(o);
            lemma_offset_kind(ri, ci, -1, -1);
            lemma_offset_kind(ri, ci, 1, 0);
            lemma_offset_kind(ri, ci, 0, 1);
            lemma_offset_kind(ri, ci, -1, 0);
            lemma_offset_kind(ri, ci, 0, -1);
            lemma_offset_kind(ri, ci, 1, 1);
        }
        let mut rot: u8 = 0;
        while rot < 4
            invariant
                0 <= rot <= 4,
                s0.wf(),
                s0.headroom(),
                o.wf(),
                o.size_r == s0.size_r,
                o.size_c == s0.size_c,
                progress(s0, *self, counter as int),
                counter >= acc,
                counter == acc ==> self.checked == o.checked,
                forall|a: SolvingStage| a.wf() && #[trigger] refines(a, o) ==> refines(a, *self),
                refines(o, *self),
                self.group == o.group,
                0 <= ri < s0.size_r,
                0 <= ci < s0.size_c,
                ri == r,
                ci == c,
                center.r == 2 * ri + 1,
                center.c == 2 * ci + 1,
                forall|k: int| 0 <= k < rot ==> #[trigger] one_rules(o, *self, ri, ci, k),
                completions_kept(o, *self, ri, ci, 1),
                is_point_pos(2 * ri, 2 * ci),
                is_line_pos(2 * ri + 2, 2 * ci + 1),
                is_line_pos(2 * ri + 1, 2 * ci + 2),
                is_line_pos(2 * ri, 2 * ci + 1),
                is_line_pos(2 * ri + 1, 2 * ci),
                is_point_pos(2 * ri + 2, 2 * ci + 2),
            decreases 4 - rot,
        {
            let ghost t0 = *self;
            let ghost k = rot as int;
            let ghost m = rot_spec(P_DIAGONAL_RD, rot);
            // ?   +      ?   +
            //   1    >>    1 x
            // +   +      + x +
            let t = idx_point(r, c);
            proof {
                lemma_turn_cell(ri, ci, s0.size_r as int, s0.size_c as int, t.r as int, t.c as int, rot as int);
                lemma_turned_point_kept(o, t0, ri, ci, 2 * ri, 2 * ci, k, m);
            }
            let pt = rot_rc(t, center, rot);
            if in_possibility(self.cell(pt.r, pt.c), rot_p(P_DIAGONAL_RD, rot)) {
                let t1 = idx_h_line(r + 1, c);
                proof {
                    lemma_turn_cell(ri, ci, s0.size_r as int, s0.size_c as int, t1.r as int, t1.c as int, rot as int);
                }
                counter = self.step_line(Ghost(s0), counter, rot_rc(t1, center, rot), 0);
                let ghost u1 = *self;
                let t2 = idx_v_line(r, c + 1);
                proof {
                    lemma_turn_cell(ri, ci, s0.size_r as int, s0.size_c as int, t2.r as int, t2.c as int, rot as int);
                    assert(turned_decided(u1, ri, ci, 2 * ri + 2, 2 * ci + 1, k, 0));
                }
                counter = self.step_line(Ghost(s0), counter, rot_rc(t2, center, rot), 0);
                proof {
                    lemma_turned_decided_kept(u1, *self, ri, ci, 2 * ri + 2, 2 * ci + 1, k, 0);
                    assert(turned_decided(*self, ri, ci, 2 * ri + 1, 2 * ci + 2, k, 0));
                    assert forall|sol: SolvingStage|
                        finished(sol) && #[trigger] completes(sol, t0) && side_count(sol, ri, ci, 1) == 1 implies completes(
                        sol,
                        *self,
                    ) && self.result == t0.result by {
                        lemma_corner_rules_sound(sol, t0, ri, ci, k, 1);
                        lemma_completes_line(sol, t0, u1, rot_row(2 * ri + 2, 2 * ci + 1, 2 * ri + 1, 2 * ci + 1, k), rot_col(2 * ri + 2, 2 * ci + 1, 2 * ri + 1, 2 * ci + 1, k));
                        lemma_completes_line(sol, u1, *self, rot_row(2 * ri + 1, 2 * ci + 2, 2 * ri + 1, 2 * ci + 1, k), rot_col(2 * ri + 1, 2 * ci + 2, 2 * ri + 1, 2 * ci + 1, k));
                    }
                }
            }
            let ghost t1s = *self;
            // + x +      + x +
            // x 1    >>  x 1
            // +   +      +  xor
            let t3 = idx_h_line(r, c);
            let t4 = idx_v_line(r, c);
            proof {
                lemma_turn_cell(ri, ci, s0.size_r as int, s0.size_c as int, t3.r as int, t3.c as int, rot as int);
                lemma_turn_cell(ri, ci, s0.size_r as int, s0.size_c as int, t4.r as int, t4.c as int, rot as int);
                if turned_at(o, ri, ci, 2 * ri, 2 * ci + 1, k) == 0 {
                    lemma_turned_line_kept(o, t1s, ri, ci, 2 * ri, 2 * ci + 1, k);
                }
                if turned_at(o, ri, ci, 2 * ri + 1, 2 * ci, k) == 0 {
                    lemma_turned_line_kept(o, t1s, ri, ci, 2 * ri + 1, 2 * ci, k);
                }
            }
            let ln1 = rot_rc(t3, center, rot);
            let ln2 = rot_rc(t4, center, rot);
            if self.cell(ln1.r, ln1.c) == 0 && self.cell(ln2.r, ln2.c) == 0 {
                let t5 = idx_point(r + 1, c + 1);
                proof {
                    lemma_turn_cell(ri, ci, s0.size_r as int, s0.size_c as int, t5.r as int, t5.c as int, rot as int);
                }
                counter = self.step_restrict(
                    Ghost(s0),
                    counter,
                    rot_rc(t5, center, rot),
                    rot_p(P_DIAGONAL_RD, rot),
                );
                proof {
                    assert forall|sol: SolvingStage|
                        finished(sol) && #[trigger] completes(sol, t1s) && side_count(sol, ri, ci, 1) == 1 implies completes(
                        sol,
                        *self,
                    ) && self.result == t1s.result by {
                        lemma_corner_rules_sound(sol, t1s, ri, ci, k, 1);
                        lemma_completes_restrict(sol, t1s, *self, rot_row(2 * ri + 2, 2 * ci + 2, 2 * ri + 1, 2 * ci + 1, k), rot_col(2 * ri + 2, 2 * ci + 2, 2 * ri + 1, 2 * ci + 1, k), m);
                    }
                    lemma_allows_only(0, 0, m, t1s.at(rot_row(t5.r as int, t5.c as int, center.r as int, center.c as int, k), rot_col(t5.r as int, t5.c as int, center.r as int, center.c as int, k)));
                    assert(allows_only(turned_at(*self, ri, ci, 2 * ri + 2, 2 * ci + 2, k), m));
                    if among(turned_at(o, ri, ci, 2 * ri, 2 * ci, k), m) {
                        lemma_turned_decided_kept(t1s, *self, ri, ci, 2 * ri + 2, 2 * ci + 1, k, 0);
                        lemma_turned_decided_kept(t1s, *self, ri, ci, 2 * ri + 1, 2 * ci + 2, k, 0);
                    }
                }
            }
            proof {
                lemma_progress_refl(t0);
                lemma_progress_refl(o);
                assert(refines(t0, *self));
                lemma_refines_trans(o, t0, *self);
                assert(one_rules(o, *self, ri, ci, k));
                assert forall|sol: SolvingStage|
                    finished(sol) && #[trigger] completes(sol, o) && side_count(sol, ri, ci, 1) == 1 implies completes(
                    sol,
                    *self,
                ) && self.result == o.result by {
                    assert(completes(sol, t0));
                    assert(completes(sol, t1s));
                }
                assert forall|j: int| 0 <= j < rot + 1 implies #[trigger] one_rules(o, *self, ri, ci, j) by {
                    if j < rot {
                        assert(one_rules(o, t0, ri, ci, j));
                        lemma_one_rules_kept(o, o, t0, *self, ri, ci, j);
                    }
                }
            }
            rot = rot + 1;
        }
        counter
    }

    /// The patterns of the corner points around a 2, in all four rotations.
    fn number_two_patterns(&mut self, Ghost(s0): Ghost<SolvingStage>, acc: u32, r: isize, c: isize) -> (res: u32)
        requires
            s0.wf(),
            s0.headroom(),
            progress(s0, *old(self), acc as int),
            0 <= r < s0.size_r,
            0 <= c < s0.size_c,
        ensures
            pattern_frame(s0, *old(self), *final(self), acc as int, res as int),
            forall|k: int| 0 <= k < 4 ==> #[trigger] two_rules(*old(self), *final(self), r as int, c as int, k),
            completions_kept(*old(self), *final(self), r as int, c as int, 2),
    {
        let ghost o = *self;
        let ghost ri = r as int;
        let ghost ci = c as int;
        let center = idx_number(r, c);
        let mut counter = acc;
        proof {
            assert forall|a: SolvingStage| a.wf() && #[trigger] refines(a, o) implies refines(a, o) by {}
            lemma_progress_refl(o);
            lemma_offset_kind(ri, ci, -1, -1);
            lemma_offset_kind(ri, ci, 1, 1);
            lemma_offset_kind(ri, ci, 1, -1);
            lemma_offset_kind(ri, ci, -1, 1);
        }
        let mut rot: u8 = 0;
        while rot < 4
            invariant
                0 <= rot <= 4,
                s0.wf(),
                s0.headroom(),
                o.wf(),
                o.size_r == s0.size_r,
                o.size_c == s0.size_c,
                progress(s0, *self, counter as int),
                counter >= acc,
                counter == acc ==> self.checked == o.checked,
                forall|a: SolvingStage| a.wf() && #[trigger] refines(a, o) ==> refines(a, *self),
                refines(o, *self),
                self.group == o.group,
                0 <= ri < s0.size_r,
                0 <= ci < s0.size_c,
                ri == r,
                ci == c,
                center.r == 2 * ri + 1,
                center.c == 2 * ci + 1,
                forall|k: int| 0 <= k < rot ==> #[trigger] two_rules(o, *self, ri, ci, k),
                completions_kept(o, *self, ri, ci, 2),
                is_point_pos(2 * ri, 2 * ci),
                is_point_pos(2 * ri + 2, 2 * ci + 2),
                is_point_pos(2 * ri + 2, 2 * ci),
                is_point_pos(2 * ri, 2 * ci + 2),
            decreases 4 - rot,
        {
            let ghost t0 = *self;
            let ghost k = rot as int;
            let ghost md = rot_spec(P_DIAGONAL_RD, rot);
            let ghost mo = rot_spec(P_OR_UL, rot);
            let ghost mc = rot_spec(P_CORNER_UL | P_UL, rot);
            let t = idx_point(r, c);
            proof {
                lemma_turn_cell(ri, ci, s0.size_r as int, s0.size_c as int, t.r as int, t.c as int, rot as int);
                lemma_turned_point_kept(o, t0, ri, ci, 2 * ri, 2 * ci, k, md);
                lemma_turned_point_kept(o, t0, ri, ci, 2 * ri, 2 * ci, k, mo);
                lemma_turned_point_kept(o, t0, ri, ci, 2 * ri, 2 * ci, k, mc);
            }
            let pt = rot_rc(t, center, rot);
            let t1 = idx_point(r + 1, c + 1);
            proof {
                lemma_turn_cell(ri, ci, s0.size_r as int, s0.size_c as int, t1.r as int, t1.c as int, rot as int);
            }
            let ghost p11 = (rot_row(t1.r as int, t1.c as int, center.r as int, center.c as int, k), rot_col(t1.r as int, t1.c as int, center.r as int, center.c as int, k));
            // xor  +     xor  +
            //    2    >>    2
            //  +   +      +  xor
            if in_possibility(self.cell(pt.r, pt.c), rot_p(P_DIAGONAL_RD, rot)) {
                counter = self.step_restrict(Ghost(s0), counter, rot_rc(t1, center, rot), rot_p(P_DIAGONAL_RD, rot));
                proof {
                    lemma_allows_only(0, 0, md, t0.at(p11.0, p11.1));
                    assert forall|sol: SolvingStage|
                        finished(sol) && #[trigger] completes(sol, t0) && side_count(sol, ri, ci, 1) == 2 implies completes(
                        sol,
                        *self,
                    ) && self.result == t0.result by {
                        lemma_corner_rules_sound(sol, t0, ri, ci, k, 2);
                        lemma_completes_restrict(sol, t0, *self, rot_row(2 * ri + 2, 2 * ci + 2, 2 * ri + 1, 2 * ci + 1, k), rot_col(2 * ri + 2, 2 * ci + 2, 2 * ri + 1, 2 * ci + 1, k), md);
                    }
                }
            }
            // p   +      p   +  :  or|
            //   2    >>    2    : ---p---
            // +   +      +   p  :    | 2
            else if in_possibility(self.cell(pt.r, pt.c), rot_p(P_OR_UL, rot)) {
                counter = self.step_restrict(Ghost(s0), counter, rot_rc(t1, center, rot), rot_p(P_OR_UL, rot));
                proof {
                    lemma_allows_only(0, 0, mo, t0.at(p11.0, p11.1));
                    assert forall|sol: SolvingStage|
                        finished(sol) && #[trigger] completes(sol, t0) && side_count(sol, ri, ci, 1) == 2 implies completes(
                        sol,
                        *self,
                    ) && self.result == t0.result by {
                        lemma_corner_rules_sound(sol, t0, ri, ci, k, 2);
                        lemma_completes_restrict(sol, t0, *self, rot_row(2 * ri + 2, 2 * ci + 2, 2 * ri + 1, 2 * ci + 1, k), rot_col(2 * ri + 2, 2 * ci + 2, 2 * ri + 1, 2 * ci + 1, k), mo);
                    }
                }
            }
            // @   +      @  xor :    x         |
            //   2    >>    2    :  x @ ?  or --@ x
            // +   +     xor  @  :    ? 2       x 2
            else if in_possibility(self.cell(pt.r, pt.c), rot_p(P_CORNER_UL | P_UL, rot)) {
                let ghost mx = rot_spec(P_UL | P_RD | P_NONE, rot);
                let ghost mr = rot_spec(P_DIAGONAL_RU, rot);
                counter = self.step_restrict(Ghost(s0), counter, rot_rc(t1, center, rot), rot_p(P_UL | P_RD | P_NONE, rot));
                let ghost u1 = *self;
                proof {
                    lemma_allows_only(0, 0, mx, t0.at(p11.0, p11.1));
                }
                let t2 = idx_point(r + 1, c);
                proof {
                    lemma_turn_cell(ri, ci, s0.size_r as int, s0.size_c as int, t2.r as int, t2.c as int, rot as int);
                }
                let ghost p10 = (rot_row(t2.r as int, t2.c as int, center.r as int, center.c as int, k), rot_col(t2.r as int, t2.c as int, center.r as int, center.c as int, k));
                counter = self.step_restrict(Ghost(s0), counter, rot_rc(t2, center, rot), rot_p(P_DIAGONAL_RU, rot));
                let ghost u2 = *self;
                proof {
                    lemma_allows_only(0, 0, mr, u1.at(p10.0, p10.1));
                    lemma_turned_point_kept(u1, u2, ri, ci, 2 * ri + 2, 2 * ci + 2, k, mx);
                }
                let t3 = idx_point(r, c + 1);
                proof {
                    lemma_turn_cell(ri, ci, s0.size_r as int, s0.size_c as int, t3.r as int, t3.c as int, rot as int);
                }
                let ghost p01 = (rot_row(t3.r as int, t3.c as int, center.r as int, center.c as int, k), rot_col(t3.r as int, t3.c as int, center.r as int, center.c as int, k));
                counter = self.step_restrict(Ghost(s0), counter, rot_rc(t3, center, rot), rot_p(P_DIAGONAL_RU, rot));
                proof {
                    lemma_allows_only(0, 0, mr, u2.at(p01.0, p01.1));
                    lemma_turned_point_kept(u2, *self, ri, ci, 2 * ri + 2, 2 * ci + 2, k, mx);
                    lemma_turned_point_kept(u2, *self, ri, ci, 2 * ri + 2, 2 * ci, k, mr);
                    assert forall|sol: SolvingStage|
                        finished(sol) && #[trigger] completes(sol, t0) && side_count(sol, ri, ci, 1) == 2 implies completes(
                        sol,
                        *self,
                    ) && self.result == t0.result by {
                        lemma_corner_rules_sound(sol, t0, ri, ci, k, 2);
                        lemma_completes_restrict(sol, t0, u1, rot_row(2 * ri + 2, 2 * ci + 2, 2 * ri + 1, 2 * ci + 1, k), rot_col(2 * ri + 2, 2 * ci + 2, 2 * ri + 1, 2 * ci + 1, k), mx);
                        lemma_completes_restrict(sol, u1, u2, rot_row(2 * ri + 2, 2 * ci, 2 * ri + 1, 2 * ci + 1, k), rot_col(2 * ri + 2, 2 * ci, 2 * ri + 1, 2 * ci + 1, k), mr);
                        lemma_completes_restrict(sol, u2, *self, rot_row(2 * ri, 2 * ci + 2, 2 * ri + 1, 2 * ci + 1, k), rot_col(2 * ri, 2 * ci + 2, 2 * ri + 1, 2 * ci + 1, k), mr);
                    }
                }
            }
            proof {
                lemma_progress_refl(t0);
                lemma_progress_refl(o);
                assert(refines(t0, *self));
                lemma_refines_trans(o, t0, *self);
                lemma_turned_point_kept(t0, *self, ri, ci, 2 * ri, 2 * ci, k, md);
                lemma_turned_point_kept(t0, *self, ri, ci, 2 * ri, 2 * ci, k, mo);
                assert(two_rules(o, *self, ri, ci, k));
                assert forall|sol: SolvingStage|
                    finished(sol) && #[trigger] completes(sol, o) && side_count(sol, ri, ci, 1) == 2 implies completes(
                    sol,
                    *self,
                ) && self.result == o.result by {
                    assert(completes(sol, t0));
                }
                assert forall|j: int| 0 <= j < rot + 1 implies #[trigger] two_rules(o, *self, ri, ci, j) by {
                    if j < rot {
                        assert(two_rules(o, t0, ri, ci, j));
                        lemma_two_rules_kept(o, o, t0, *self, ri, ci, j);
                    }
                }
            }
            rot = rot + 1;
        }
        counter
    }

    /// The patterns of the corner points around a 3, in all four rotations.
    fn number_three_patterns(&mut self, Ghost(s0): Ghost<SolvingStage>, acc: u32, r: isize, c: isize) -> (res: u32)
        requires
            s0.wf(),
            s0.headroom(),
            progress(s0, *old(self), acc as int),
            0 <= r < s0.size_r,
            0 <= c < s0.size_c,
        ensures
            pattern_frame(s0, *old(self), *final(self), acc as int, res as int),
            forall|k: int| 0 <= k < 4 ==> #[trigger] three_rules(*old(self), *final(self), r as int, c as int, k),
            completions_kept(*old(self), *final(self), r as int, c as int, 3),
    {
        let ghost o = *self;
        let ghost ri = r as int;
        let ghost ci = c as int;
        let center = idx_number(r, c);
        let mut counter = acc;
        proof {
            assert forall|a: SolvingStage| a.wf() && #[trigger] refines(a, o) implies refines(a, o) by {}
            lemma_progress_refl(o);
            lemma_offset_kind(ri, ci, -1, -1);
            lemma_offset_kind(ri, ci, 0, 1);
            lemma_offset_kind(ri, ci, 1, 0);
            lemma_offset_kind(ri, ci, 0, -1);
            lemma_offset_kind(ri, ci, -1, 0);
        }
        let mut rot: u8 = 0;
        while rot < 4
            invariant
                0 <= rot <= 4,
                s0.wf(),
                s0.headroom(),
                o.wf(),
                o.size_r == s0.size_r,
                o.size_c == s0.size_c,
                progress(s0, *self, counter as int),
                counter >= acc,
                counter == acc ==> self.checked == o.checked,
                forall|a: SolvingStage| a.wf() && #[trigger] refines(a, o) ==> refines(a, *self),
                refines(o, *self),
                self.group == o.group,
                0 <= ri < s0.size_r,
                0 <= ci < s0.size_c,
                ri == r,
                ci == c,
                center.r == 2 * ri + 1,
                center.c == 2 * ci + 1,
                forall|k: int| 0 <= k < rot ==> #[trigger] three_rules(o, *self, ri, ci, k),
                completions_kept(o, *self, ri, ci, 3),
                is_point_pos(2 * ri, 2 * ci),
                is_line_pos(2 * ri + 1, 2 * ci + 2),
                is_line_pos(2 * ri + 2, 2 * ci + 1),
                is_line_pos(2 * ri + 1, 2 * ci),
                is_line_pos(2 * ri, 2 * ci + 1),
            decreases 4 - rot,
        {
            let ghost t0 = *self;
            let ghost k = rot as int;
            let ghost mo = rot_spec(P_OR_UL, rot);
            let ghost mc = rot_spec(P_CORNER_UL, rot);
            let ghost md = rot_spec(P_DIAGONAL_RD, rot);
            let t = idx_point(r, c);
            proof {
                lemma_turn_cell(ri, ci, s0.size_r as int, s0.size_c as int, t.r as int, t.c as int, rot as int);
                lemma_turned_point_kept(o, t0, ri, ci, 2 * ri, 2 * ci, k, mo);
                lemma_turned_point_kept(o, t0, ri, ci, 2 * ri, 2 * ci, k, mc);
            }
            let pt = rot_rc(t, center, rot);
            let ghost p00 = (rot_row(t.r as int, t.c as int, center.r as int, center.c as int, k), rot_col(t.r as int, t.c as int, center.r as int, center.c as int, k));
            //  p   +     xor  +
            //    3    >>    3 |
            //  +   +      +---+
            if in_possibility(self.cell(pt.r, pt.c), rot_p(P_OR_UL, rot)) {
                counter = self.step_restrict(Ghost(s0), counter, rot_rc(t, center, rot), rot_p(P_DIAGONAL_RD, rot));
                let ghost u1 = *self;
                proof {
                    lemma_allows_only(0, 0, md, t0.at(p00.0, p00.1));
                }
                let t2 = idx_v_line(r, c + 1);
                proof {
                    lemma_turn_cell(ri, ci, s0.size_r as int, s0.size_c as int, t2.r as int, t2.c as int, rot as int);
                }
                counter = self.step_line(Ghost(s0), counter, rot_rc(t2, center, rot), 1);
                let ghost u2 = *self;
                proof {
                    assert(turned_decided(u2, ri, ci, 2 * ri + 1, 2 * ci + 2, k, 1));
                    lemma_turned_point_kept(u1, u2, ri, ci, 2 * ri, 2 * ci, k, md);
                }
                let t3 = idx_h_line(r + 1, c);
                proof {
                    lemma_turn_cell(ri, ci, s0.size_r as int, s0.size_c as int, t3.r as int, t3.c as int, rot as int);
                }
                counter = self.step_line(Ghost(s0), counter, rot_rc(t3, center, rot), 1);
                proof {
                    assert(turned_decided(*self, ri, ci, 2 * ri + 2, 2 * ci + 1, k, 1));
                    lemma_turned_decided_kept(u2, *self, ri, ci, 2 * ri + 1, 2 * ci + 2, k, 1);
                    lemma_turned_point_kept(u2, *self, ri, ci, 2 * ri, 2 * ci, k, md);
                    assert forall|sol: SolvingStage|
                        finished(sol) && #[trigger] completes(sol, t0) && side_count(sol, ri, ci, 1) == 3 implies completes(
                        sol,
                        *self,
                    ) && self.result == t0.result by {
                        lemma_corner_rules_sound(sol, t0, ri, ci, k, 3);
                        lemma_completes_restrict(sol, t0, u1, rot_row(2 * ri, 2 * ci, 2 * ri + 1, 2 * ci + 1, k), rot_col(2 * ri, 2 * ci, 2 * ri + 1, 2 * ci + 1, k), md);
                        lemma_completes_line(sol, u1, u2, rot_row(2 * ri + 1, 2 * ci + 2, 2 * ri + 1, 2 * ci + 1, k), rot_col(2 * ri + 1, 2 * ci + 2, 2 * ri + 1, 2 * ci + 1, k));
                        lemma_completes_line(sol, u2, *self, rot_row(2 * ri + 2, 2 * ci + 1, 2 * ri + 1, 2 * ci + 1, k), rot_col(2 * ri + 2, 2 * ci + 1, 2 * ri + 1, 2 * ci + 1, k));
                    }
                }
            }
            // c   +      c---+
            //   3    >>  | 3
            // +   +      +   +
            else if in_possibility(self.cell(pt.r, pt.c), rot_p(P_CORNER_UL, rot)) {
                let t2 = idx_v_line(r, c);
                proof {
                    lemma_turn_cell(ri, ci, s0.size_r as int, s0.size_c as int, t2.r as int, t2.c as int, rot as int);
                }
                counter = self.step_line(Ghost(s0), counter, rot_rc(t2, center, rot), 1);
                let ghost u1 = *self;
                proof {
                    assert(turned_decided(u1, ri, ci, 2 * ri + 1, 2 * ci, k, 1));
                }
                let t3 = idx_h_line(r, c);
                proof {
                    lemma_turn_cell(ri, ci, s0.size_r as int, s0.size_c as int, t3.r as int, t3.c as int, rot as int);
                }
                counter = self.step_line(Ghost(s0), counter, rot_rc(t3, center, rot), 1);
                proof {
                    assert(turned_decided(*self, ri, ci, 2 * ri, 2 * ci + 1, k, 1));
                    lemma_turned_decided_kept(u1, *self, ri, ci, 2 * ri + 1, 2 * ci, k, 1);
                    assert forall|sol: SolvingStage|
                        finished(sol) && #[trigger] completes(sol, t0) && side_count(sol, ri, ci, 1) == 3 implies completes(
                        sol,
                        *self,
                    ) && self.result == t0.result by {
                        lemma_corner_rules_sound(sol, t0, ri, ci, k, 3);
                        lemma_completes_line(sol, t0, u1, rot_row(2 * ri + 1, 2 * ci, 2 * ri + 1, 2 * ci + 1, k), rot_col(2 * ri + 1, 2 * ci, 2 * ri + 1, 2 * ci + 1, k));
                        lemma_completes_line(sol, u1, *self, rot_row(2 * ri, 2 * ci + 1, 2 * ri + 1, 2 * ci + 1, k), rot_col(2 * ri, 2 * ci + 1, 2 * ri + 1, 2 * ci + 1, k));
                    }
                }
            }
            proof {
                lemma_progress_refl(t0);
                lemma_progress_refl(o);
                assert(refines(t0, *self));
                lemma_refines_trans(o, t0, *self);
                lemma_turned_point_kept(t0, *self, ri, ci, 2 * ri, 2 * ci, k, mo);
                assert(three_rules(o, *self, ri, ci, k));
                assert forall|sol: SolvingStage|
                    finished(sol) && #[trigger] completes(sol, o) && side_count(sol, ri, ci, 1) == 3 implies completes(
                    sol,
                    *self,
                ) && self.result == o.result by {
                    assert(completes(sol, t0));
                }
                assert forall|j: int| 0 <= j < rot + 1 implies #[trigger] three_rules(o, *self, ri, ci, j) by {
                    if j < rot {
                        assert(three_rules(o, t0, ri, ci, j));
                        lemma_three_rules_kept(o, o, t0, *self, ri, ci, j);
                    }
                }
            }
            rot = rot + 1;
        }
        counter
    }
}


impl SolvingStage {
    /// Deductions from the number of cell `(r, c)`, unless the cell was already examined.
    ///
    /// With as many drawn sides as the number, the undecided sides are crossed out;
    /// with as many crossed-out sides as four minus the number, the undecided sides are
    /// drawn; more of either marks the board contradictory. Then the patterns of the
    /// corner points around a 1, a 2 or a 3 are applied in all four rotations (see
    /// `one_rules`, `two_rules`, `three_rules`), and the cell is marked as examined.
    /// Returns the score gained. None of this rules out a finished board that completes
    /// the board and satisfies the cell's number (`completes`, `number_met`): it still
    /// completes the board after, and then the board is not marked contradictory.
    pub fn check_number(&mut self, r: isize, c: isize) -> (res: u32)
        requires
            old(self).wf(),
            old(self).headroom(),
            0 <= r < old(self).size_r,
            0 <= c < old(self).size_c,
        ensures
            progress(*old(self), *final(self), res as int),
            final(self).group == old(self).group,
            old(self).checked_at(r as int, c as int) != 0 ==> res == 0 && *final(self) == *old(
                self,
            ),
            old(self).checked_at(r as int, c as int) == 0 ==> final(self).checked_at(
                r as int,
                c as int,
            ) == 1,
            res == 0 ==> forall|i: int, j: int|
                0 <= i < old(self).size_r && 0 <= j < old(self).size_c && !(i == r && j == c)
                    ==> #[trigger] final(self).checked_at(i, j) == old(self).checked_at(i, j),
            old(self).checked_at(r as int, c as int) == 0 && 1 <= number_of(
                *old(self),
                r as int,
                c as int,
            ) <= 3 ==> {
                let num = number_of(*old(self), r as int, c as int) as int;
                let ones = side_count(*old(self), r as int, c as int, 1);
                let zeros = side_count(*old(self), r as int, c as int, 0);
                &&& (ones > num || zeros > 4 - num) ==> !final(self).result
                &&& ones == num ==> open_sides_set(*old(self), *final(self), r as int, c as int, 0)
                &&& (zeros == 4 - num && ones <= num) ==> open_sides_set(
                    *old(self),
                    *final(self),
                    r as int,
                    c as int,
                    1,
                )
            },
            old(self).checked_at(r as int, c as int) == 0 && number_of(*old(self), r as int, c as int)
                == 1 ==> forall|k: int|
                0 <= k < 4 ==> #[trigger] one_rules(*old(self), *final(self), r as int, c as int, k),
            old(self).checked_at(r as int, c as int) == 0 && number_of(*old(self), r as int, c as int)
                == 2 ==> forall|k: int|
                0 <= k < 4 ==> #[trigger] two_rules(*old(self), *final(self), r as int, c as int, k),
            old(self).checked_at(r as int, c as int) == 0 && number_of(*old(self), r as int, c as int)
                == 3 ==> forall|k: int|
                0 <= k < 4 ==> #[trigger] three_rules(*old(self), *final(self), r as int, c as int, k),
            forall|sol: SolvingStage|
                finished(sol) && #[trigger] completes(sol, *old(self)) && number_met(sol, *old(self), r as int, c as int)
                    ==> completes(sol, *final(self)) && final(self).result == old(self).result,
    {
        let ghost s0 = *old(self);
        let ghost ri = r as int;
        let ghost ci = c as int;
        let mut counter: u32 = 0;
        let num = self.cell(r * 2 + 1, c * 2 + 1);
        if self.checked[r as usize][c as usize] != 0 {
            proof {
                lemma_progress_refl(s0);
            }
            return 0;
        }
        proof {
            lemma_progress_refl(s0);
        }
        if num == 1 || num == 2 || num == 3 {
            // check if line is filled around the number
            counter = self.fill_sides(Ghost(s0), counter, r, c, 1, num, 0);
        }
        let ghost s1 = *self;
        proof {
            lemma_progress_refl(s1);
        }
        if num == 1 || num == 2 || num == 3 {
            // check if none-line is filled around the number
            counter = self.fill_sides(Ghost(s0), counter, r, c, 0, 4 - num, 1);
        }
        let ghost s2 = *self;
        if num == 1 {
            counter = self.number_one_patterns(Ghost(s0), counter, r, c);
        } else if num == 2 {
            counter = self.number_two_patterns(Ghost(s0), counter, r, c);
        } else if num == 3 {
            counter = self.number_three_patterns(Ghost(s0), counter, r, c);
        }
        let ghost s3 = *self;
        self.checked[r as usize][c as usize] = 1;
        proof {
            assert forall|a: int| 0 <= a < s3.checked@.len() implies #[trigger] self.checked@[a]@.len()
                == s3.checked@[a]@.len() by {
                if a != ri {
                    assert(self.checked@[a] == s3.checked@[a]);
                }
            }
            lemma_wf_keep(s3, *self);
            lemma_same_grid_progress(s3, *self);
            lemma_progress_trans(s0, s3, *self, counter as int, 0);
            lemma_refines_trans(s1, s3, *self);
            lemma_progress_refl(s2);
            lemma_refines_trans(s2, s3, *self);
            if 1 <= num <= 3 {
                let ones = side_count(s0, ri, ci, 1);
                let zeros = side_count(s0, ri, ci, 0);
                assert(ones + zeros <= 4);
                if ones > num {
                    assert(!s1.result);
                    assert(!self.result);
                }
                if ones == num {
                    lemma_sides_kept(s0, s1, *self, ri, ci, 0);
                }
                if ones < num {
                    assert(s1 == s0);
                    if zeros > 4 - num {
                        assert(!s2.result);
                        assert(!self.result);
                    }
                    if zeros == 4 - num {
                        assert(open_sides_set(s1, s2, ri, ci, 1));
                        lemma_sides_kept(s0, s2, *self, ri, ci, 1);
                    }
                }
                if ones == num && zeros == 4 - num {
                    assert(open_sides_set(s0, *self, ri, ci, 1));
                }
            }
            assert forall|sol: SolvingStage|
                finished(sol) && #[trigger] completes(sol, s0) && number_met(sol, s0, ri, ci) implies completes(
                sol,
                *self,
            ) && self.result == s0.result by {
                if 1 <= num <= 3 {
                    assert(completes(sol, s1));
                    lemma_sides_sound(sol, s1, ri, ci, 0);
                    assert(completes(sol, s2));
                    assert(completes(sol, s3));
                }
            }
            lemma_progress_refl(s0);
            if num == 1 {
                assert forall|k: int| 0 <= k < 4 implies #[trigger] one_rules(s0, *self, ri, ci, k) by {
                    lemma_one_rules_kept(s0, s2, s3, *self, ri, ci, k);
                }
            } else if num == 2 {
                assert forall|k: int| 0 <= k < 4 implies #[trigger] two_rules(s0, *self, ri, ci, k) by {
                    lemma_two_rules_kept(s0, s2, s3, *self, ri, ci, k);
                }
            } else if num == 3 {
                assert forall|k: int| 0 <= k < 4 implies #[trigger] three_rules(s0, *self, ri, ci, k) by {
                    lemma_three_rules_kept(s0, s2, s3, *self, ri, ci, k);
                }
            }
        }
        counter
    }
}

} // verus!
