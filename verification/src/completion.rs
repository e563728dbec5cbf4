use vstd::prelude::*;
use crate::deduce::{among, side_count, turned_at};
use crate::grid::lemma_subset_trans;
use crate::grid::{is_line_pos, is_point_pos, lemma_offset_kind};
use crate::point::{around_line, completes, finished, uses};
use crate::rotation::{
    is_shape_bit, rot1, rot_col, rot_row, rot_spec, P_CORNER_UL, P_DIAGONAL_RD, P_DIAGONAL_RU, P_LINE_U,
    P_ALL, P_NONE, P_OR_UL, P_RD, P_UL,
};
use crate::stage::SolvingStage;

verus! {

/// Point `(pi, pj)` of the finished board `sol` uses its `d`-th line exactly when that
/// line, at `(x, y)`, is drawn.
proof fn lemma_finished_line(sol: SolvingStage, pi: int, pj: int, d: int, x: int, y: int)
    requires
        finished(sol),
        0 <= pi <= sol.size_r,
        0 <= pj <= sol.size_c,
        0 <= d < 4,
        sol.in_grid(x, y),
        x == crate::point::around_row(pi, pj, d),
        y == crate::point::around_col(pi, pj, d),
    ensures
        (sol.at(x, y) == 1) == uses(sol.at(2 * pi, 2 * pj), d),
        sol.at(x, y) == 0 || sol.at(x, y) == 1,
        is_shape_bit(sol.at(2 * pi, 2 * pj)),
{
    assert((around_line(sol, pi, pj, d) == 1) == uses(sol.at(2 * pi, 2 * pj), d));
    crate::point::lemma_around(pi, pj, d);
}

/// In a finished board, the four corners of cell `(r, c)` turned `k` quarter turns
/// around its number, and the sides of the cell each of them uses: the upper-left corner
/// `P` uses the upper side toward `(1 + k) % 4` and the left one toward `(2 + k) % 4`,
/// the lower-right corner `Q` the lower side toward `(3 + k) % 4` and the right one
/// toward `k`, the lower-left corner `A` the left side toward `k` and the lower one
/// toward `(1 + k) % 4`, and the upper-right corner `B` the upper side toward
/// `(3 + k) % 4` and the right one toward `(2 + k) % 4`.
pub proof fn lemma_turned_corners(sol: SolvingStage, r: int, c: int, k: int)
    requires
        finished(sol),
        0 <= r < sol.size_r,
        0 <= c < sol.size_c,
        0 <= k < 4,
    ensures
        (turned_at(sol, r, c, 2 * r, 2 * c + 1, k) == 1) == uses(turned_at(sol, r, c, 2 * r, 2 * c, k), (1 + k) % 4),
        (turned_at(sol, r, c, 2 * r + 1, 2 * c, k) == 1) == uses(turned_at(sol, r, c, 2 * r, 2 * c, k), (2 + k) % 4),
        (turned_at(sol, r, c, 2 * r + 2, 2 * c + 1, k) == 1) == uses(turned_at(sol, r, c, 2 * r + 2, 2 * c + 2, k), (3 + k) % 4),
        (turned_at(sol, r, c, 2 * r + 1, 2 * c + 2, k) == 1) == uses(turned_at(sol, r, c, 2 * r + 2, 2 * c + 2, k), k),
        (turned_at(sol, r, c, 2 * r + 1, 2 * c, k) == 1) == uses(turned_at(sol, r, c, 2 * r + 2, 2 * c, k), k),
        (turned_at(sol, r, c, 2 * r + 2, 2 * c + 1, k) == 1) == uses(turned_at(sol, r, c, 2 * r + 2, 2 * c, k), (1 + k) % 4),
        (turned_at(sol, r, c, 2 * r, 2 * c + 1, k) == 1) == uses(turned_at(sol, r, c, 2 * r, 2 * c + 2, k), (3 + k) % 4),
        (turned_at(sol, r, c, 2 * r + 1, 2 * c + 2, k) == 1) == uses(turned_at(sol, r, c, 2 * r, 2 * c + 2, k), (2 + k) % 4),
        is_shape_bit(turned_at(sol, r, c, 2 * r, 2 * c, k)),
        is_shape_bit(turned_at(sol, r, c, 2 * r + 2, 2 * c + 2, k)),
        is_shape_bit(turned_at(sol, r, c, 2 * r + 2, 2 * c, k)),
        is_shape_bit(turned_at(sol, r, c, 2 * r, 2 * c + 2, k)),
        turned_at(sol, r, c, 2 * r, 2 * c + 1, k) == 0 || turned_at(sol, r, c, 2 * r, 2 * c + 1, k) == 1,
        turned_at(sol, r, c, 2 * r + 1, 2 * c, k) == 0 || turned_at(sol, r, c, 2 * r + 1, 2 * c, k) == 1,
        turned_at(sol, r, c, 2 * r + 2, 2 * c + 1, k) == 0 || turned_at(sol, r, c, 2 * r + 2, 2 * c + 1, k) == 1,
        turned_at(sol, r, c, 2 * r + 1, 2 * c + 2, k) == 0 || turned_at(sol, r, c, 2 * r + 1, 2 * c + 2, k) == 1,
        side_count(sol, r, c, 1) == crate::deduce::is_val(turned_at(sol, r, c, 2 * r, 2 * c + 1, k), 1)
            + crate::deduce::is_val(turned_at(sol, r, c, 2 * r + 1, 2 * c, k), 1) + crate::deduce::is_val(
            turned_at(sol, r, c, 2 * r + 2, 2 * c + 1, k),
            1,
        ) + crate::deduce::is_val(turned_at(sol, r, c, 2 * r + 1, 2 * c + 2, k), 1),
{
    // corner point indices, turned
    let (pi, pj, bi, bj, qi, qj, ai, aj) = if k == 0 {
        (r, c, r, c + 1, r + 1, c + 1, r + 1, c)
    } else if k == 1 {
        (r, c + 1, r + 1, c + 1, r + 1, c, r, c)
    } else if k == 2 {
        (r + 1, c + 1, r + 1, c, r, c, r, c + 1)
    } else {
        (r + 1, c, r, c, r, c + 1, r + 1, c + 1)
    };
    let cr = 2 * r + 1;
    let cc = 2 * c + 1;
    assert(rot_row(2 * r, 2 * c, cr, cc, k) == 2 * pi && rot_col(2 * r, 2 * c, cr, cc, k) == 2 * pj);
    assert(rot_row(2 * r, 2 * c + 2, cr, cc, k) == 2 * bi && rot_col(2 * r, 2 * c + 2, cr, cc, k) == 2 * bj);
    assert(rot_row(2 * r + 2, 2 * c + 2, cr, cc, k) == 2 * qi && rot_col(2 * r + 2, 2 * c + 2, cr, cc, k) == 2 * qj);
    assert(rot_row(2 * r + 2, 2 * c, cr, cc, k) == 2 * ai && rot_col(2 * r + 2, 2 * c, cr, cc, k) == 2 * aj);
    let tx = rot_row(2 * r, 2 * c + 1, cr, cc, k);
    let ty = rot_col(2 * r, 2 * c + 1, cr, cc, k);
    let lx = rot_row(2 * r + 1, 2 * c, cr, cc, k);
    let ly = rot_col(2 * r + 1, 2 * c, cr, cc, k);
    let bx = rot_row(2 * r + 2, 2 * c + 1, cr, cc, k);
    let by = rot_col(2 * r + 2, 2 * c + 1, cr, cc, k);
    let rx = rot_row(2 * r + 1, 2 * c + 2, cr, cc, k);
    let ry = rot_col(2 * r + 1, 2 * c + 2, cr, cc, k);
    crate::point::lemma_around(pi, pj, (1 + k) % 4);
    crate::point::lemma_around(pi, pj, (2 + k) % 4);
    crate::point::lemma_around(qi, qj, (3 + k) % 4);
    crate::point::lemma_around(qi, qj, k);
    crate::point::lemma_around(ai, aj, k);
    crate::point::lemma_around(ai, aj, (1 + k) % 4);
    crate::point::lemma_around(bi, bj, (3 + k) % 4);
    crate::point::lemma_around(bi, bj, (2 + k) % 4);
    lemma_finished_line(sol, pi, pj, (1 + k) % 4, tx, ty);
    lemma_finished_line(sol, pi, pj, (2 + k) % 4, lx, ly);
    lemma_finished_line(sol, qi, qj, (3 + k) % 4, bx, by);
    lemma_finished_line(sol, qi, qj, k, rx, ry);
    lemma_finished_line(sol, ai, aj, k, lx, ly);
    lemma_finished_line(sol, ai, aj, (1 + k) % 4, bx, by);
    lemma_finished_line(sol, bi, bj, (3 + k) % 4, tx, ty);
    lemma_finished_line(sol, bi, bj, (2 + k) % 4, rx, ry);
}


proof fn lemma_rot1_values()
    by (bit_vector)
    ensures
        102i8 & 127i8 == 102i8,
        110i8 & 127i8 == 110i8,
        17i8 & 127i8 == 17i8,
        25i8 & 127i8 == 25i8,
        60i8 & 127i8 == 60i8,
        14i8 & 127i8 == 14i8,
        rot1(102i8) == 60i8,
        rot1(60i8) == 102i8,
        rot1(110i8) == 62i8,
        rot1(62i8) == 118i8,
        rot1(118i8) == 124i8,
        rot1(17i8) == 65i8,
        rot1(65i8) == 9i8,
        rot1(9i8) == 3i8,
        rot1(25i8) == 67i8,
        rot1(67i8) == 25i8,
        rot1(14i8) == 50i8,
        rot1(50i8) == 84i8,
        rot1(84i8) == 104i8,
{
}

/// The corner masks turned `k` quarter turns, by value.
proof fn lemma_corner_masks(k: int)
    requires
        0 <= k < 4,
    ensures
        rot_spec(P_DIAGONAL_RD, k as u8) == (if k % 2 == 0 { 102i8 } else { 60i8 }),
        rot_spec(P_DIAGONAL_RU, k as u8) == (if k % 2 == 0 { 60i8 } else { 102i8 }),
        rot_spec(P_OR_UL, k as u8) == (if k == 0 {
            110i8
        } else if k == 1 {
            62i8
        } else if k == 2 {
            118i8
        } else {
            124i8
        }),
        rot_spec(P_CORNER_UL, k as u8) == (if k == 0 {
            17i8
        } else if k == 1 {
            65i8
        } else if k == 2 {
            9i8
        } else {
            3i8
        }),
        rot_spec(P_CORNER_UL | P_UL, k as u8) == (if k % 2 == 0 { 25i8 } else { 67i8 }),
        rot_spec(P_UL | P_RD | P_NONE, k as u8) == (if k % 2 == 0 { 25i8 } else { 67i8 }),
        rot_spec(P_LINE_U, k as u8) == (if k == 0 {
            14i8
        } else if k == 1 {
            50i8
        } else if k == 2 {
            84i8
        } else {
            104i8
        }),
{
    lemma_rot1_values();
    assert(P_CORNER_UL | P_UL == 25i8) by (bit_vector);
    assert(P_UL | P_RD | P_NONE == 25i8) by (bit_vector);
}

/// Which shapes each corner mask holds, by the lines they use (up 14, right 50, down 84,
/// left 104).
proof fn lemma_mask_shapes(b: i8)
    by (bit_vector)
    requires
        b == 1 || b == 2 || b == 4 || b == 8 || b == 16 || b == 32 || b == 64,
    ensures
        ((b & 14 != 0) != (b & 50 != 0)) == ((b & 84 != 0) != (b & 104 != 0)),
        ((b & 50 != 0) != (b & 84 != 0)) == ((b & 104 != 0) != (b & 14 != 0)),
        (b & 102 == b) == ((b & 50 != 0) != (b & 84 != 0)),
        (b & 60 == b) == ((b & 84 != 0) != (b & 104 != 0)),
        (b & 110 == b) == (b & 14 != 0 || b & 104 != 0),
        (b & 62 == b) == (b & 50 != 0 || b & 14 != 0),
        (b & 118 == b) == (b & 84 != 0 || b & 50 != 0),
        (b & 124 == b) == (b & 104 != 0 || b & 84 != 0),
        (b & 17 == b) == (b & 14 == 0 && b & 104 == 0),
        (b & 65 == b) == (b & 50 == 0 && b & 14 == 0),
        (b & 9 == b) == (b & 84 == 0 && b & 50 == 0),
        (b & 3 == b) == (b & 104 == 0 && b & 84 == 0),
        (b & 25 == b) == ((b & 14 != 0) == (b & 104 != 0)),
        (b & 67 == b) == ((b & 50 != 0) == (b & 14 != 0)),
        b & 14 != 0 && b & 50 != 0 ==> b & 84 == 0 && b & 104 == 0,
        b & 14 != 0 && b & 84 != 0 ==> b & 50 == 0 && b & 104 == 0,
        b & 14 != 0 && b & 104 != 0 ==> b & 50 == 0 && b & 84 == 0,
        b & 50 != 0 && b & 84 != 0 ==> b & 104 == 0,
        b & 50 != 0 && b & 104 != 0 ==> b & 84 == 0,
        b & 14 != 0 ==> b & 50 != 0 || b & 84 != 0 || b & 104 != 0,
        b & 50 != 0 ==> b & 14 != 0 || b & 84 != 0 || b & 104 != 0,
        b & 84 != 0 ==> b & 14 != 0 || b & 50 != 0 || b & 104 != 0,
        b & 104 != 0 ==> b & 14 != 0 || b & 50 != 0 || b & 84 != 0,
{
}



/// The corner masks turned `k` quarter turns, by the lines their shapes use: a shape
/// uses no line or two.
pub proof fn lemma_shape_dirs(b: i8, k: int)
    requires
        is_shape_bit(b),
        0 <= k < 4,
    ensures
        (b & rot_spec(P_DIAGONAL_RD, k as u8) == b) == (uses(b, (1 + k) % 4) != uses(b, (2 + k) % 4)),
        (b & rot_spec(P_DIAGONAL_RU, k as u8) == b) == (uses(b, k) != uses(b, (1 + k) % 4)),
        (b & rot_spec(P_OR_UL, k as u8) == b) == (uses(b, k) || uses(b, (3 + k) % 4)),
        (b & rot_spec(P_CORNER_UL | P_UL, k as u8) == b) == (uses(b, k) == uses(b, (3 + k) % 4)),
        (b & rot_spec(P_UL | P_RD | P_NONE, k as u8) == b) == (uses(b, k) == uses(b, (3 + k) % 4)),
        (b & rot_spec(P_CORNER_UL, k as u8) == b) == (!uses(b, k) && !uses(b, (3 + k) % 4)),
        (uses(b, k) != uses(b, (1 + k) % 4)) == (uses(b, (2 + k) % 4) != uses(b, (3 + k) % 4)),
        (uses(b, (1 + k) % 4) != uses(b, (2 + k) % 4)) == (uses(b, (3 + k) % 4) != uses(b, k)),
        uses(b, k) && uses(b, (1 + k) % 4) ==> !uses(b, (2 + k) % 4) && !uses(b, (3 + k) % 4),
        uses(b, k) && uses(b, (2 + k) % 4) ==> !uses(b, (1 + k) % 4) && !uses(b, (3 + k) % 4),
        uses(b, k) && uses(b, (3 + k) % 4) ==> !uses(b, (1 + k) % 4) && !uses(b, (2 + k) % 4),
        uses(b, (1 + k) % 4) && uses(b, (2 + k) % 4) ==> !uses(b, (3 + k) % 4),
        uses(b, (1 + k) % 4) && uses(b, (3 + k) % 4) ==> !uses(b, (2 + k) % 4),
        uses(b, k) ==> uses(b, (1 + k) % 4) || uses(b, (2 + k) % 4) || uses(b, (3 + k) % 4),
        uses(b, (1 + k) % 4) ==> uses(b, k) || uses(b, (2 + k) % 4) || uses(b, (3 + k) % 4),
        uses(b, (2 + k) % 4) ==> uses(b, k) || uses(b, (1 + k) % 4) || uses(b, (3 + k) % 4),
        uses(b, (3 + k) % 4) ==> uses(b, k) || uses(b, (1 + k) % 4) || uses(b, (2 + k) % 4),
{
    lemma_mask_shapes(b);
    lemma_corner_masks(k);
    lemma_corner_masks((1 + k) % 4);
    lemma_corner_masks((2 + k) % 4);
    lemma_corner_masks((3 + k) % 4);
    if k == 0 {
        assert((1 + k) % 4 == 1 && (2 + k) % 4 == 2 && (3 + k) % 4 == 3);
    } else if k == 1 {
        assert((1 + k) % 4 == 2 && (2 + k) % 4 == 3 && (3 + k) % 4 == 0);
    } else if k == 2 {
        assert((1 + k) % 4 == 3 && (2 + k) % 4 == 0 && (3 + k) % 4 == 1);
    } else {
        assert((1 + k) % 4 == 0 && (2 + k) % 4 == 1 && (3 + k) % 4 == 2);
    }
}

/// What the corner patterns of a number conclude holds in every finished board that
/// completes `s` and satisfies the number `num` of cell `(r, c)`.
pub proof fn lemma_corner_rules_sound(sol: SolvingStage, s: SolvingStage, r: int, c: int, k: int, num: int)
    requires
        s.wf(),
        finished(sol),
        completes(sol, s),
        0 <= r < s.size_r,
        0 <= c < s.size_c,
        0 <= k < 4,
        side_count(sol, r, c, 1) == num,
    ensures
        num == 1 && among(turned_at(s, r, c, 2 * r, 2 * c, k), rot_spec(P_DIAGONAL_RD, k as u8)) ==> turned_at(
            sol,
            r,
            c,
            2 * r + 2,
            2 * c + 1,
            k,
        ) == 0 && turned_at(sol, r, c, 2 * r + 1, 2 * c + 2, k) == 0,
        num == 1 && turned_at(s, r, c, 2 * r, 2 * c + 1, k) == 0 && turned_at(s, r, c, 2 * r + 1, 2 * c, k) == 0
            ==> among(turned_at(sol, r, c, 2 * r + 2, 2 * c + 2, k), rot_spec(P_DIAGONAL_RD, k as u8)),
        num == 2 && among(turned_at(s, r, c, 2 * r, 2 * c, k), rot_spec(P_DIAGONAL_RD, k as u8)) ==> among(
            turned_at(sol, r, c, 2 * r + 2, 2 * c + 2, k),
            rot_spec(P_DIAGONAL_RD, k as u8),
        ),
        num == 2 && among(turned_at(s, r, c, 2 * r, 2 * c, k), rot_spec(P_OR_UL, k as u8)) ==> among(
            turned_at(sol, r, c, 2 * r + 2, 2 * c + 2, k),
            rot_spec(P_OR_UL, k as u8),
        ),
        num == 2 && among(turned_at(s, r, c, 2 * r, 2 * c, k), rot_spec(P_CORNER_UL | P_UL, k as u8)) ==> {
            &&& among(turned_at(sol, r, c, 2 * r + 2, 2 * c + 2, k), rot_spec(P_UL | P_RD | P_NONE, k as u8))
            &&& among(turned_at(sol, r, c, 2 * r + 2, 2 * c, k), rot_spec(P_DIAGONAL_RU, k as u8))
            &&& among(turned_at(sol, r, c, 2 * r, 2 * c + 2, k), rot_spec(P_DIAGONAL_RU, k as u8))
        },
        num == 3 && among(turned_at(s, r, c, 2 * r, 2 * c, k), rot_spec(P_OR_UL, k as u8)) ==> {
            &&& among(turned_at(sol, r, c, 2 * r, 2 * c, k), rot_spec(P_DIAGONAL_RD, k as u8))
            &&& turned_at(sol, r, c, 2 * r + 1, 2 * c + 2, k) == 1
            &&& turned_at(sol, r, c, 2 * r + 2, 2 * c + 1, k) == 1
        },
        num == 3 && among(turned_at(s, r, c, 2 * r, 2 * c, k), rot_spec(P_CORNER_UL, k as u8)) ==> {
            &&& turned_at(sol, r, c, 2 * r + 1, 2 * c, k) == 1
            &&& turned_at(sol, r, c, 2 * r, 2 * c + 1, k) == 1
        },
{
    lemma_turned_corners(sol, r, c, k);
    let cr = 2 * r + 1;
    let cc = 2 * c + 1;
    crate::deduce::lemma_turn_cell(r, c, s.size_r as int, s.size_c as int, 2 * r, 2 * c, k);
    let px = rot_row(2 * r, 2 * c, cr, cc, k);
    let py = rot_col(2 * r, 2 * c, cr, cc, k);
    let bp = sol.at(px, py);
    lemma_shape_dirs(bp, k);
    lemma_shape_dirs(turned_at(sol, r, c, 2 * r + 2, 2 * c + 2, k), k);
    lemma_shape_dirs(turned_at(sol, r, c, 2 * r + 2, 2 * c, k), k);
    lemma_shape_dirs(turned_at(sol, r, c, 2 * r, 2 * c + 2, k), k);
    assert(s.in_grid(px, py));
    assert(s.at(px, py) & bp == bp);
    let sp = s.at(px, py);
    assert(bp & sp == bp) by (bit_vector)
        requires
            sp & bp == bp,
    ;
    lemma_subset_trans(bp, s.at(px, py), rot_spec(P_DIAGONAL_RD, k as u8));
    lemma_subset_trans(bp, s.at(px, py), rot_spec(P_OR_UL, k as u8));
    lemma_subset_trans(bp, s.at(px, py), rot_spec(P_CORNER_UL | P_UL, k as u8));
    lemma_subset_trans(bp, s.at(px, py), rot_spec(P_CORNER_UL, k as u8));
    crate::deduce::lemma_turn_cell(r, c, s.size_r as int, s.size_c as int, 2 * r, 2 * c + 1, k);
    crate::deduce::lemma_turn_cell(r, c, s.size_r as int, s.size_c as int, 2 * r + 1, 2 * c, k);
    let tx = rot_row(2 * r, 2 * c + 1, cr, cc, k);
    let ty = rot_col(2 * r, 2 * c + 1, cr, cc, k);
    let lx = rot_row(2 * r + 1, 2 * c, cr, cc, k);
    let ly = rot_col(2 * r + 1, 2 * c, cr, cc, k);
    assert(s.at(tx, ty) == -1 || s.at(tx, ty) == sol.at(tx, ty));
    assert(s.at(lx, ly) == -1 || s.at(lx, ly) == sol.at(lx, ly));
}



/// The finished board `sol` satisfies the number of cell `(r, c)` of `s` when that
/// number is 1, 2 or 3: as many of the cell's sides are drawn.
pub open spec fn number_met(sol: SolvingStage, s: SolvingStage, r: int, c: int) -> bool {
    1 <= crate::deduce::number_of(s, r, c) <= 3 ==> side_count(sol, r, c, 1) == crate::deduce::number_of(s, r, c)
}

/// Every finished board that completes `o` and has `n` drawn sides around cell `(r, c)`
/// still completes `s`, and `s` is marked contradictory only if `o` was.
pub open spec fn completions_kept(o: SolvingStage, s: SolvingStage, r: int, c: int, n: int) -> bool {
    forall|sol: SolvingStage|
        finished(sol) && #[trigger] completes(sol, o) && side_count(sol, r, c, 1) == n ==> completes(sol, s)
            && s.result == o.result
}

/// Writing at a line the value a finished board completing `a` has there keeps it
/// completing.
pub proof fn lemma_completes_line(sol: SolvingStage, a: SolvingStage, s: SolvingStage, x: int, y: int)
    requires
        completes(sol, a),
        a.in_grid(x, y),
        is_line_pos(x, y),
        s.size_r == a.size_r,
        s.size_c == a.size_c,
        s.at(x, y) == -1 || s.at(x, y) == sol.at(x, y),
        forall|i: int, j: int|
            #![trigger s.at(i, j)]
            a.in_grid(i, j) && !(i == x && j == y) ==> s.at(i, j) == a.at(i, j),
    ensures
        completes(sol, s),
{
    assert forall|i: int, j: int| s.in_grid(i, j) && is_line_pos(i, j) implies #[trigger] s.at(i, j) == -1
        || s.at(i, j) == sol.at(i, j) by {
        if !(i == x && j == y) {
            assert(s.at(i, j) == a.at(i, j));
        }
    }
    assert forall|i: int, j: int| s.in_grid(i, j) && is_point_pos(i, j) implies #[trigger] s.at(i, j)
        & sol.at(i, j) == sol.at(i, j) by {
        assert(s.at(i, j) == a.at(i, j));
    }
}

proof fn lemma_keep_bits(p: i8, b: i8, m: i8)
    by (bit_vector)
    requires
        p & b == b,
        b & m == b,
    ensures
        (p & !((127i8 & !m) & 127)) & b == b,
{
}

/// Restricting a point to shapes that include the one of a finished board completing `a`
/// keeps it completing.
pub proof fn lemma_completes_restrict(sol: SolvingStage, a: SolvingStage, s: SolvingStage, x: int, y: int, m: i8)
    requires
        completes(sol, a),
        a.in_grid(x, y),
        is_point_pos(x, y),
        s.size_r == a.size_r,
        s.size_c == a.size_c,
        among(sol.at(x, y), m),
        s.at(x, y) == a.at(x, y) & !((P_ALL & !m) & 127),
        forall|i: int, j: int|
            #![trigger s.at(i, j)]
            a.in_grid(i, j) && !(i == x && j == y) ==> s.at(i, j) == a.at(i, j),
    ensures
        completes(sol, s),
{
    assert(a.at(x, y) & sol.at(x, y) == sol.at(x, y));
    lemma_keep_bits(a.at(x, y), sol.at(x, y), m);
    assert forall|i: int, j: int| s.in_grid(i, j) && is_line_pos(i, j) implies #[trigger] s.at(i, j) == -1
        || s.at(i, j) == sol.at(i, j) by {
        assert(s.at(i, j) == a.at(i, j));
    }
    assert forall|i: int, j: int| s.in_grid(i, j) && is_point_pos(i, j) implies #[trigger] s.at(i, j)
        & sol.at(i, j) == sol.at(i, j) by {
        if !(i == x && j == y) {
            assert(s.at(i, j) == a.at(i, j));
        }
    }
}

/// The sides of cell `(r, c)` in a finished board completing `s`: a side decided in `s`
/// is the same there, so no more sides hold `v` in `s` than in the finished board, and
/// when as many do, every undecided side of `s` holds the other value there.
pub proof fn lemma_sides_sound(sol: SolvingStage, s: SolvingStage, r: int, c: int, v: i8)
    requires
        s.wf(),
        finished(sol),
        completes(sol, s),
        0 <= r < s.size_r,
        0 <= c < s.size_c,
        v == 0 || v == 1,
    ensures
        side_count(s, r, c, v) <= side_count(sol, r, c, v),
        side_count(s, r, c, v) == side_count(sol, r, c, v) ==> {
            &&& s.at(2 * r + 1, 2 * c) == -1 ==> sol.at(2 * r + 1, 2 * c) == 1 - v
            &&& s.at(2 * r + 1, 2 * c + 2) == -1 ==> sol.at(2 * r + 1, 2 * c + 2) == 1 - v
            &&& s.at(2 * r, 2 * c + 1) == -1 ==> sol.at(2 * r, 2 * c + 1) == 1 - v
            &&& s.at(2 * r + 2, 2 * c + 1) == -1 ==> sol.at(2 * r + 2, 2 * c + 1) == 1 - v
        },
        side_count(sol, r, c, 0) + side_count(sol, r, c, 1) == 4,
{
    lemma_offset_kind(r, c, 0, -1);
    lemma_offset_kind(r, c, 0, 1);
    lemma_offset_kind(r, c, -1, 0);
    lemma_offset_kind(r, c, 1, 0);
    assert(s.in_grid(2 * r + 1, 2 * c));
    assert(s.in_grid(2 * r + 1, 2 * c + 2));
    assert(s.in_grid(2 * r, 2 * c + 1));
    assert(s.in_grid(2 * r + 2, 2 * c + 1));
    assert(sol.at(2 * r + 1, 2 * c) == 0 || sol.at(2 * r + 1, 2 * c) == 1);
    assert(sol.at(2 * r + 1, 2 * c + 2) == 0 || sol.at(2 * r + 1, 2 * c + 2) == 1);
    assert(sol.at(2 * r, 2 * c + 1) == 0 || sol.at(2 * r, 2 * c + 1) == 1);
    assert(sol.at(2 * r + 2, 2 * c + 1) == 0 || sol.at(2 * r + 2, 2 * c + 1) == 1);
}

} // verus!
