use vstd::prelude::*;
use crate::deduce::{among, is_val, pattern_frame};
use crate::group::{allows_only, decided_as, lemma_allows_only};
use crate::grid::lemma_subset_trans;
use crate::rotation::{is_shape_bit, rot1, rot_spec, P_ALL};
use crate::grid::{is_line_pos, is_point_pos, lemma_offset_kind};
use crate::rotation::{
    idx_point, idx_v_line, in_possibility, lemma_turn_near, rot_col, rot_p, rot_rc, rot_row,
    RowCol, P_EDGE_U, P_LINE_U,
};
use crate::stage::{
    lemma_lines_binary_same, lemma_lines_binary_trans, lemma_progress_refl, lemma_refines_trans, lines_binary,
    progress, refines, same_cells, SolvingStage,
};

verus! {

/// Grid row of the `k`-th line around point `(r, c)`, clockwise from the upper one.
pub open spec fn around_row(r: int, c: int, k: int) -> int {
    rot_row(2 * r - 1, 2 * c, 2 * r, 2 * c, k)
}

/// Grid column of the `k`-th line around point `(r, c)`, clockwise from the upper one.
pub open spec fn around_col(r: int, c: int, k: int) -> int {
    rot_col(2 * r - 1, 2 * c, 2 * r, 2 * c, k)
}

/// The `k`-th line around point `(r, c)`; one off the board reads as crossed out.
pub open spec fn around_line(s: SolvingStage, r: int, c: int, k: int) -> i8 {
    if s.in_grid(around_row(r, c, k), around_col(r, c, k)) {
        s.at(around_row(r, c, k), around_col(r, c, k))
    } else {
        0
    }
}

/// How many of the first `n` lines around point `(r, c)` hold `v`.
pub open spec fn around_upto(s: SolvingStage, r: int, c: int, v: i8, n: int) -> int
    decreases n,
{
    if n <= 0 {
        0
    } else {
        around_upto(s, r, c, v, n - 1) + is_val(around_line(s, r, c, n - 1), v)
    }
}

/// How many of the four lines around point `(r, c)` hold `v`.
pub open spec fn around_count(s: SolvingStage, r: int, c: int, v: i8) -> int {
    is_val(around_line(s, r, c, 0), v) + is_val(around_line(s, r, c, 1), v) + is_val(
        around_line(s, r, c, 2),
        v,
    ) + is_val(around_line(s, r, c, 3), v)
}

/// The degree rule holds at point `(r, c)`: three or more drawn lines, or one drawn line
/// with the three others crossed out, only on a contradictory board; and on a
/// consistent one, two drawn lines leave no line undecided, and neither three crossed
/// lines nor one drawn and two crossed leave the last line undecided.
pub open spec fn degree_ok(s: SolvingStage, r: int, c: int) -> bool {
    let l = around_count(s, r, c, 1);
    let x = around_count(s, r, c, 0);
    let u = around_count(s, r, c, -1i8);
    &&& l >= 3 ==> !s.result
    &&& (l == 1 && x == 3) ==> !s.result
    &&& s.result ==> {
        &&& l == 2 ==> u == 0
        &&& !(l == 0 && x == 3 && u == 1)
        &&& !(l == 1 && x == 2 && u == 1)
    }
}

/// The degree rule only reads the grid, and survives a contradiction.
pub proof fn lemma_degree_ok_kept(s: SolvingStage, t: SolvingStage, r: int, c: int)
    requires
        same_cells(s, t),
        t.size_r == s.size_r,
        t.size_c == s.size_c,
        t.result ==> s.result,
        degree_ok(s, r, c),
    ensures
        degree_ok(t, r, c),
{
    assert(around_line(t, r, c, 0) == around_line(s, r, c, 0));
    assert(around_line(t, r, c, 1) == around_line(s, r, c, 1));
    assert(around_line(t, r, c, 2) == around_line(s, r, c, 2));
    assert(around_line(t, r, c, 3) == around_line(s, r, c, 3));
}

proof fn lemma_around_upto(s: SolvingStage, r: int, c: int, v: i8)
    ensures
        around_upto(s, r, c, v, 4) == around_count(s, r, c, v),
{
    reveal_with_fuel(around_upto, 5);
}

/// The lines around a point are distinct line positions next to it.
pub(crate) proof fn lemma_around(r: int, c: int, k: int)
    requires
        0 <= k < 4,
    ensures
        is_line_pos(around_row(r, c, k), around_col(r, c, k)),
        -1 <= around_row(r, c, k) - 2 * r <= 1,
        -1 <= around_col(r, c, k) - 2 * c <= 1,
        k == 0 ==> around_row(r, c, k) == 2 * r - 1 && around_col(r, c, k) == 2 * c,
        k == 1 ==> around_row(r, c, k) == 2 * r && around_col(r, c, k) == 2 * c + 1,
        k == 2 ==> around_row(r, c, k) == 2 * r + 1 && around_col(r, c, k) == 2 * c,
        k == 3 ==> around_row(r, c, k) == 2 * r && around_col(r, c, k) == 2 * c - 1,
{
    lemma_turn_near(2 * r - 1, 2 * c, 2 * r, 2 * c, k);
    lemma_offset_kind(r, c, around_row(r, c, k) - 2 * r, around_col(r, c, k) - 2 * c);
}

/// What the line patterns of point `(r, c)` leave in `s` in rotation `k` (the `k`-th line
/// around it, when on the board), for what was found in `o`: a point that must send a
/// line that way has it drawn, one that cannot has it crossed out, and a drawn or
/// crossed-out line leaves the point only the shapes that agree.
pub open spec fn point_rules(o: SolvingStage, s: SolvingStage, r: int, c: int, k: int) -> bool {
    let x = around_row(r, c, k);
    let y = around_col(r, c, k);
    let mu = rot_spec(P_LINE_U, k as u8);
    let me = rot_spec(P_EDGE_U, k as u8);
    o.in_grid(x, y) ==> {
        &&& among(o.at(2 * r, 2 * c), mu) ==> decided_as(s, x, y, 1)
        &&& among(o.at(2 * r, 2 * c), me) ==> decided_as(s, x, y, 0)
        &&& o.at(x, y) == 1 ==> allows_only(s.at(2 * r, 2 * c), mu)
        &&& o.at(x, y) == 0 ==> allows_only(s.at(2 * r, 2 * c), me)
    }
}

/// The shapes of point `(r, c)` all send a line along its `k`-th line, which is decided
/// otherwise, or all keep away from it, which is decided otherwise.
pub open spec fn pattern_clash(s: SolvingStage, r: int, c: int, k: int) -> bool {
    let x = around_row(r, c, k);
    let y = around_col(r, c, k);
    &&& s.in_grid(x, y)
    &&& s.at(x, y) != -1
    &&& {
        ||| among(s.at(2 * r, 2 * c), rot_spec(P_LINE_U, k as u8)) && s.at(x, y) != 1
        ||| among(s.at(2 * r, 2 * c), rot_spec(P_EDGE_U, k as u8)) && s.at(x, y) != 0
    }
}

/// Some line around point `(r, c)` clashes with the point's shapes.
pub open spec fn point_clash(s: SolvingStage, r: int, c: int) -> bool {
    exists|k: int| 0 <= k < 4 && #[trigger] pattern_clash(s, r, c, k)
}

/// The degree rule finds point `(r, c)` impossible: three or more drawn lines, or one
/// drawn and the three others crossed out (or off the board).
pub open spec fn degree_clash(s: SolvingStage, r: int, c: int) -> bool {
    around_count(s, r, c, 1) >= 3 || (around_count(s, r, c, 1) == 1 && around_count(s, r, c, 0) == 3)
}

/// Grid position `(i, j)` is one of the four lines around point `(r, c)`.
pub open spec fn around_pos(r: int, c: int, i: int, j: int) -> bool {
    ||| i == 2 * r - 1 && j == 2 * c
    ||| i == 2 * r + 1 && j == 2 * c
    ||| i == 2 * r && j == 2 * c - 1
    ||| i == 2 * r && j == 2 * c + 1
}

/// From `o` to `s` only point `(r, c)` and its four lines changed.
pub open spec fn point_frame(o: SolvingStage, s: SolvingStage, r: int, c: int) -> bool {
    forall|i: int, j: int|
        #![trigger s.at(i, j)]
        o.in_grid(i, j) && !(i == 2 * r && j == 2 * c) && !around_pos(r, c, i, j) ==> s.at(i, j) == o.at(i, j)
}


/// Shape bit `b` sends a line along the `k`-th line around its point.
pub open spec fn uses(b: i8, k: int) -> bool {
    b & rot_spec(P_LINE_U, k as u8) != 0
}

/// The `k`-th line around point `(r, c)` of `s` agrees with shape `b`: undecided, drawn
/// where the shape uses it, or crossed out (or off the board) where it does not.
pub open spec fn line_fits(s: SolvingStage, r: int, c: int, b: i8, k: int) -> bool {
    ||| around_line(s, r, c, k) == -1
    ||| around_line(s, r, c, k) == 1 && uses(b, k)
    ||| around_line(s, r, c, k) == 0 && !uses(b, k)
}

/// Shape `b` is one the point `(r, c)` of `s` still allows, and it agrees with every
/// decided line around the point: the point could take that shape.
pub open spec fn shape_fits(s: SolvingStage, r: int, c: int, b: i8) -> bool {
    &&& is_shape_bit(b)
    &&& s.at(2 * r, 2 * c) & b == b
    &&& line_fits(s, r, c, b, 0)
    &&& line_fits(s, r, c, b, 1)
    &&& line_fits(s, r, c, b, 2)
    &&& line_fits(s, r, c, b, 3)
}

proof fn lemma_mask_values()
    by (bit_vector)
    ensures
        14i8 & 127i8 == 14i8,
        113i8 & 127i8 == 113i8,
        rot1(14i8) == 50i8,
        rot1(50i8) == 84i8,
        rot1(84i8) == 104i8,
        rot1(113i8) == 77i8,
        rot1(77i8) == 43i8,
        rot1(43i8) == 23i8,
{
}

/// The lines a shape uses, turn by turn, and the shapes that keep away from each.
proof fn lemma_masks(k: int)
    requires
        0 <= k < 4,
    ensures
        rot_spec(P_LINE_U, k as u8) == (if k == 0 {
            14i8
        } else if k == 1 {
            50i8
        } else if k == 2 {
            84i8
        } else {
            104i8
        }),
        rot_spec(P_EDGE_U, k as u8) == (if k == 0 {
            113i8
        } else if k == 1 {
            77i8
        } else if k == 2 {
            43i8
        } else {
            23i8
        }),
{
    lemma_mask_values();
}

/// Which of the four lines each shape uses: none for the empty point, two for the others.
proof fn lemma_shape_lines(b: i8)
    by (bit_vector)
    requires
        b == 1 || b == 2 || b == 4 || b == 8 || b == 16 || b == 32 || b == 64,
    ensures
        b == 1 ==> b & 14 == 0 && b & 50 == 0 && b & 84 == 0 && b & 104 == 0,
        b == 2 ==> b & 14 != 0 && b & 50 != 0 && b & 84 == 0 && b & 104 == 0,
        b == 4 ==> b & 14 != 0 && b & 50 == 0 && b & 84 != 0 && b & 104 == 0,
        b == 8 ==> b & 14 != 0 && b & 50 == 0 && b & 84 == 0 && b & 104 != 0,
        b == 16 ==> b & 14 == 0 && b & 50 != 0 && b & 84 != 0 && b & 104 == 0,
        b == 32 ==> b & 14 == 0 && b & 50 != 0 && b & 84 == 0 && b & 104 != 0,
        b == 64 ==> b & 14 == 0 && b & 50 == 0 && b & 84 != 0 && b & 104 != 0,
{
}

proof fn lemma_fit_bits(p: i8, b: i8, mu: i8, me: i8)
    by (bit_vector)
    requires
        b == 1 || b == 2 || b == 4 || b == 8 || b == 16 || b == 32 || b == 64,
        p & b == b,
        (mu == 14 && me == 113) || (mu == 50 && me == 77) || (mu == 84 && me == 43) || (mu == 104
            && me == 23),
    ensures
        p & mu == p ==> b & mu != 0,
        p & me == p ==> b & mu == 0,
        b & mu != 0 ==> (p & !((127i8 & !mu) & 127)) & b == b,
        b & mu == 0 ==> (p & !((127i8 & !me) & 127)) & b == b,
{
}

/// A line decided by the line patterns keeps every shape that agreed with the point.
proof fn lemma_fits_line(a: SolvingStage, s: SolvingStage, r: int, c: int, k: int, v: i8, b: i8)
    requires
        a.wf(),
        s.size_r == a.size_r,
        s.size_c == a.size_c,
        0 <= k < 4,
        v == 0 || v == 1,
        a.in_grid(around_row(r, c, k), around_col(r, c, k)),
        v == 1 ==> among(a.at(2 * r, 2 * c), rot_spec(P_LINE_U, k as u8)),
        v == 0 ==> among(a.at(2 * r, 2 * c), rot_spec(P_EDGE_U, k as u8)),
        s.result == (a.result && (a.at(around_row(r, c, k), around_col(r, c, k)) == -1 || a.at(
            around_row(r, c, k),
            around_col(r, c, k),
        ) == v)),
        s.at(around_row(r, c, k), around_col(r, c, k)) == if a.at(around_row(r, c, k), around_col(r, c, k))
            == -1 {
            v
        } else {
            a.at(around_row(r, c, k), around_col(r, c, k))
        },
        forall|i: int, j: int|
            #![trigger s.at(i, j)]
            a.in_grid(i, j) && !(i == around_row(r, c, k) && j == around_col(r, c, k)) ==> s.at(i, j)
                == a.at(i, j),
        a.in_grid(2 * r, 2 * c),
        shape_fits(a, r, c, b),
    ensures
        shape_fits(s, r, c, b),
        s.result == a.result,
{
    lemma_around(r, c, 0);
    lemma_around(r, c, 1);
    lemma_around(r, c, 2);
    lemma_around(r, c, 3);
    lemma_masks(k);
    lemma_fit_bits(a.at(2 * r, 2 * c), b, rot_spec(P_LINE_U, k as u8), rot_spec(P_EDGE_U, k as u8));
    assert(line_fits(a, r, c, b, k));
    assert(s.at(2 * r, 2 * c) == a.at(2 * r, 2 * c));
    assert forall|j: int| 0 <= j < 4 implies #[trigger] line_fits(s, r, c, b, j) by {
        assert(line_fits(a, r, c, b, j));
        if j != k {
            lemma_around(r, c, j);
            if a.in_grid(around_row(r, c, j), around_col(r, c, j)) {
                assert(s.at(around_row(r, c, j), around_col(r, c, j)) == a.at(around_row(r, c, j), around_col(r, c, j)));
            }
        }
    }
    assert(line_fits(s, r, c, b, 0));
    assert(line_fits(s, r, c, b, 1));
    assert(line_fits(s, r, c, b, 2));
    assert(line_fits(s, r, c, b, 3));
}

/// A point restricted to the shapes that agree with a decided line keeps every shape
/// that agreed with it.
proof fn lemma_fits_restrict(a: SolvingStage, s: SolvingStage, r: int, c: int, k: int, m: i8, b: i8)
    requires
        a.wf(),
        s.size_r == a.size_r,
        s.size_c == a.size_c,
        0 <= k < 4,
        a.in_grid(around_row(r, c, k), around_col(r, c, k)),
        (m == rot_spec(P_LINE_U, k as u8) && a.at(around_row(r, c, k), around_col(r, c, k)) == 1) || (m
            == rot_spec(P_EDGE_U, k as u8) && a.at(around_row(r, c, k), around_col(r, c, k)) == 0),
        s.at(2 * r, 2 * c) == a.at(2 * r, 2 * c) & !((P_ALL & !m) & 127),
        forall|i: int, j: int|
            #![trigger s.at(i, j)]
            a.in_grid(i, j) && !(i == 2 * r && j == 2 * c) ==> s.at(i, j) == a.at(i, j),
        s.result == a.result,
        a.in_grid(2 * r, 2 * c),
        shape_fits(a, r, c, b),
    ensures
        shape_fits(s, r, c, b),
{
    lemma_masks(k);
    lemma_fit_bits(a.at(2 * r, 2 * c), b, rot_spec(P_LINE_U, k as u8), rot_spec(P_EDGE_U, k as u8));
    assert(line_fits(a, r, c, b, k));
    assert forall|j: int| 0 <= j < 4 implies #[trigger] line_fits(s, r, c, b, j) by {
        assert(line_fits(a, r, c, b, j));
        lemma_around(r, c, j);
        if a.in_grid(around_row(r, c, j), around_col(r, c, j)) {
            assert(s.at(around_row(r, c, j), around_col(r, c, j)) == a.at(around_row(r, c, j), around_col(r, c, j)));
        }
    }
    assert(line_fits(s, r, c, b, 0));
    assert(line_fits(s, r, c, b, 1));
    assert(line_fits(s, r, c, b, 2));
    assert(line_fits(s, r, c, b, 3));
}


/// What a shape that agrees with the lines around its point says of them: at most two
/// are drawn, never one with the three others crossed out, and the degree rule decides
/// the undecided ones as the shape does.
proof fn lemma_fit_degree(s: SolvingStage, r: int, c: int, b: i8)
    requires
        shape_fits(s, r, c, b),
    ensures
        around_count(s, r, c, 1) <= 2,
        !(around_count(s, r, c, 1) == 1 && around_count(s, r, c, 0) == 3),
        forall|k: int|
            0 <= k < 4 && #[trigger] around_line(s, r, c, k) == -1 ==> {
                &&& around_count(s, r, c, 1) == 2 ==> !uses(b, k)
                &&& (around_count(s, r, c, 1) == 0 && around_count(s, r, c, 0) == 3) ==> !uses(b, k)
                &&& (around_count(s, r, c, 1) == 1 && around_count(s, r, c, 0) == 2) ==> uses(b, k)
            },
{
    lemma_masks(0);
    lemma_masks(1);
    lemma_masks(2);
    lemma_masks(3);
    lemma_shape_lines(b);
    assert(line_fits(s, r, c, b, 0));
    assert(line_fits(s, r, c, b, 1));
    assert(line_fits(s, r, c, b, 2));
    assert(line_fits(s, r, c, b, 3));
}

/// Lines decided the way a shape that agrees with the point decides them keep it agreeing.
proof fn lemma_fits_filled(a: SolvingStage, s: SolvingStage, r: int, c: int, b: i8, fill: i8)
    requires
        shape_fits(a, r, c, b),
        s.at(2 * r, 2 * c) == a.at(2 * r, 2 * c),
        forall|k: int|
            0 <= k < 4 ==> #[trigger] around_line(s, r, c, k) == if around_line(a, r, c, k) == -1 {
                fill
            } else {
                around_line(a, r, c, k)
            },
        forall|k: int| 0 <= k < 4 && #[trigger] around_line(a, r, c, k) == -1 ==> (fill == 1) == uses(b, k),
        fill == 0 || fill == 1,
    ensures
        shape_fits(s, r, c, b),
{
    assert forall|k: int| 0 <= k < 4 implies #[trigger] line_fits(s, r, c, b, k) by {
        assert(line_fits(a, r, c, b, k));
    }
    assert(line_fits(s, r, c, b, 0));
    assert(line_fits(s, r, c, b, 1));
    assert(line_fits(s, r, c, b, 2));
    assert(line_fits(s, r, c, b, 3));
}


/// `sol` is a finished board: every line drawn or crossed out, every point holding one
/// shape, and that shape using exactly the drawn lines around the point (none off the
/// board).
pub open spec fn finished(sol: SolvingStage) -> bool {
    &&& sol.wf()
    &&& forall|i: int, j: int|
        sol.in_grid(i, j) && is_line_pos(i, j) ==> #[trigger] sol.at(i, j) == 0 || sol.at(i, j) == 1
    &&& forall|r: int, c: int|
        0 <= r <= sol.size_r && 0 <= c <= sol.size_c ==> is_shape_bit(#[trigger] sol.at(2 * r, 2 * c))
    &&& forall|r: int, c: int, k: int|
        0 <= r <= sol.size_r && 0 <= c <= sol.size_c && 0 <= k < 4 ==> (#[trigger] around_line(sol, r, c, k)
            == 1) == uses(sol.at(2 * r, 2 * c), k)
}

/// The finished board `sol` completes `s`: the same size, every line decided in `s`
/// decided the same way in `sol`, and every point of `sol` holding a shape `s` allows
/// there.
pub open spec fn completes(sol: SolvingStage, s: SolvingStage) -> bool {
    &&& sol.size_r == s.size_r
    &&& sol.size_c == s.size_c
    &&& forall|i: int, j: int|
        s.in_grid(i, j) && is_line_pos(i, j) ==> #[trigger] s.at(i, j) == -1 || s.at(i, j) == sol.at(i, j)
    &&& forall|i: int, j: int|
        s.in_grid(i, j) && is_point_pos(i, j) ==> #[trigger] s.at(i, j) & sol.at(i, j) == sol.at(i, j)
}

/// The shape a finished board completing `s` gives a point agrees with `s` there.
proof fn lemma_completion_fits(sol: SolvingStage, s: SolvingStage, r: int, c: int)
    requires
        s.wf(),
        finished(sol),
        completes(sol, s),
        0 <= r <= s.size_r,
        0 <= c <= s.size_c,
    ensures
        shape_fits(s, r, c, sol.at(2 * r, 2 * c)),
{
    lemma_offset_kind(r, c, 0, 0);
    assert(s.in_grid(2 * r, 2 * c));
    assert(s.at(2 * r, 2 * c) & sol.at(2 * r, 2 * c) == sol.at(2 * r, 2 * c));
    assert(is_shape_bit(sol.at(2 * r, 2 * c)));
    assert forall|k: int| 0 <= k < 4 implies #[trigger] line_fits(s, r, c, sol.at(2 * r, 2 * c), k) by {
        lemma_around(r, c, k);
        assert((around_line(sol, r, c, k) == 1) == uses(sol.at(2 * r, 2 * c), k));
        if s.in_grid(around_row(r, c, k), around_col(r, c, k)) {
            let x = around_row(r, c, k);
            let y = around_col(r, c, k);
            assert(s.at(x, y) == -1 || s.at(x, y) == sol.at(x, y));
            assert(sol.at(x, y) == 0 || sol.at(x, y) == 1);
        }
    }
    assert(line_fits(s, r, c, sol.at(2 * r, 2 * c), 0));
    assert(line_fits(s, r, c, sol.at(2 * r, 2 * c), 1));
    assert(line_fits(s, r, c, sol.at(2 * r, 2 * c), 2));
    assert(line_fits(s, r, c, sol.at(2 * r, 2 * c), 3));
}

/// A point that keeps the shape of a finished board, with lines around it that agree
/// with that shape and nothing else changed, is still completed by that board.
proof fn lemma_completion_kept(sol: SolvingStage, o: SolvingStage, s: SolvingStage, r: int, c: int)
    requires
        o.wf(),
        finished(sol),
        completes(sol, o),
        s.size_r == o.size_r,
        s.size_c == o.size_c,
        0 <= r <= o.size_r,
        0 <= c <= o.size_c,
        shape_fits(s, r, c, sol.at(2 * r, 2 * c)),
        point_frame(o, s, r, c),
    ensures
        completes(sol, s),
{
    let b = sol.at(2 * r, 2 * c);
    assert forall|i: int, j: int| s.in_grid(i, j) && is_line_pos(i, j) implies #[trigger] s.at(i, j) == -1
        || s.at(i, j) == sol.at(i, j) by {
        assert(o.in_grid(i, j));
        if around_pos(r, c, i, j) {
            let k = if i == 2 * r - 1 && j == 2 * c {
                0
            } else if i == 2 * r && j == 2 * c + 1 {
                1
            } else if i == 2 * r + 1 && j == 2 * c {
                2
            } else {
                3
            };
            lemma_around(r, c, k);
            assert(line_fits(s, r, c, b, k));
            assert((around_line(sol, r, c, k) == 1) == uses(b, k));
            assert(sol.at(i, j) == 0 || sol.at(i, j) == 1);
        } else {
            lemma_offset_kind(r, c, 0, 0);
            assert(s.at(i, j) == o.at(i, j));
        }
    }
    assert forall|i: int, j: int| s.in_grid(i, j) && is_point_pos(i, j) implies #[trigger] s.at(i, j)
        & sol.at(i, j) == sol.at(i, j) by {
        assert(o.in_grid(i, j));
        if !(i == 2 * r && j == 2 * c) {
            lemma_offset_kind(r, c, 0, 0);
            if around_pos(r, c, i, j) {
                assert(is_line_pos(i, j));
            }
            assert(s.at(i, j) == o.at(i, j));
        }
    }
}

/// A clash at a point survives further deductions.
proof fn lemma_clash_kept(a: SolvingStage, b: SolvingStage, r: int, c: int)
    requires
        a.wf(),
        refines(a, b),
        0 <= r <= a.size_r,
        0 <= c <= a.size_c,
        point_clash(a, r, c),
    ensures
        point_clash(b, r, c),
{
    let k = choose|k: int| 0 <= k < 4 && #[trigger] pattern_clash(a, r, c, k);
    lemma_around(r, c, k);
    lemma_offset_kind(r, c, 0, 0);
    assert(a.in_grid(2 * r, 2 * c));
    assert(b.at(2 * r, 2 * c) & a.at(2 * r, 2 * c) == b.at(2 * r, 2 * c));
    lemma_subset_trans(b.at(2 * r, 2 * c), a.at(2 * r, 2 * c), rot_spec(P_LINE_U, k as u8));
    lemma_subset_trans(b.at(2 * r, 2 * c), a.at(2 * r, 2 * c), rot_spec(P_EDGE_U, k as u8));
    let x = around_row(r, c, k);
    let y = around_col(r, c, k);
    assert(b.at(x, y) == a.at(x, y));
    assert(pattern_clash(b, r, c, k));
}

/// A line decided as `v` stays so, or the board turns contradictory.
proof fn lemma_decided_kept(a: SolvingStage, b: SolvingStage, x: int, y: int, v: i8)
    requires
        a.wf(),
        refines(a, b),
        a.in_grid(x, y),
        is_line_pos(x, y),
        v != -1,
        decided_as(a, x, y, v),
    ensures
        decided_as(b, x, y, v),
{
    assert(b.at(x, y) == b.at(x, y));
}

/// The rules of a point survive further deductions, and hold for premises found earlier.
pub proof fn lemma_point_rules_kept(p: SolvingStage, o: SolvingStage, a: SolvingStage, b: SolvingStage, r: int, c: int, k: int)
    requires
        p.wf(),
        o.wf(),
        a.wf(),
        refines(p, o),
        refines(a, b),
        o.size_r == a.size_r,
        o.size_c == a.size_c,
        0 <= r <= a.size_r,
        0 <= c <= a.size_c,
        0 <= k < 4,
        point_rules(o, a, r, c, k),
    ensures
        point_rules(p, b, r, c, k),
{
    let x = around_row(r, c, k);
    let y = around_col(r, c, k);
    let mu = rot_spec(P_LINE_U, k as u8);
    let me = rot_spec(P_EDGE_U, k as u8);
    lemma_around(r, c, k);
    lemma_offset_kind(r, c, 0, 0);
    if p.in_grid(x, y) {
        assert(o.in_grid(2 * r, 2 * c));
        assert(o.at(2 * r, 2 * c) & p.at(2 * r, 2 * c) == o.at(2 * r, 2 * c));
        lemma_subset_trans(o.at(2 * r, 2 * c), p.at(2 * r, 2 * c), mu);
        lemma_subset_trans(o.at(2 * r, 2 * c), p.at(2 * r, 2 * c), me);
        if p.at(x, y) != -1 {
            assert(o.at(x, y) == p.at(x, y));
        }
        if among(o.at(2 * r, 2 * c), mu) {
            lemma_decided_kept(a, b, x, y, 1);
        }
        if among(o.at(2 * r, 2 * c), me) {
            lemma_decided_kept(a, b, x, y, 0);
        }
        assert(b.at(2 * r, 2 * c) & a.at(2 * r, 2 * c) == b.at(2 * r, 2 * c));
        lemma_allows_only(a.at(2 * r, 2 * c), b.at(2 * r, 2 * c), mu, 0);
        lemma_allows_only(a.at(2 * r, 2 * c), b.at(2 * r, 2 * c), me, 0);
    }
}

impl SolvingStage {
    /// One deduction at point `(r, c)` during its line patterns, from `before` to `self`:
    /// lines it decides take 0 or 1, and a contradiction it finds is a clash of a line
    /// around the point with the point's shapes.
    proof fn lemma_pattern_step(self, o: SolvingStage, before: SolvingStage, r: int, c: int, k: int, x: int, y: int)
        requires
            o.wf(),
            before.wf(),
            0 <= r <= o.size_r,
            0 <= c <= o.size_c,
            0 <= k < 4,
            x == around_row(r, c, k),
            y == around_col(r, c, k),
            before.size_r == o.size_r,
            before.size_c == o.size_c,
            lines_binary(o, before),
            lines_binary(before, self),
            refines(before, self),
            o.result && !before.result ==> point_clash(before, r, c),
            before.result && !self.result ==> pattern_clash(self, r, c, k),
            point_frame(o, before, r, c),
            forall|i: int, j: int|
                #![trigger self.at(i, j)]
                before.in_grid(i, j) && !(i == x && j == y) && !(i == 2 * r && j == 2 * c) ==> self.at(i, j)
                    == before.at(i, j),
        ensures
            lines_binary(o, self),
            o.result && !self.result ==> point_clash(self, r, c),
            point_frame(o, self, r, c),
    {
        lemma_around(r, c, k);
        lemma_lines_binary_trans(o, before, self);
        if o.result && !self.result {
            if !before.result {
                lemma_clash_kept(before, self, r, c);
            } else {
                assert(pattern_clash(self, r, c, k));
            }
        }
    }
}

impl SolvingStage {
    /// The line patterns of the point `(r, c)` in all four rotations: a point that must
    /// send a line one way draws it, one that cannot crosses it out, and a drawn or
    /// crossed-out line restricts the point's shapes.
    fn point_line_patterns(&mut self, Ghost(s0): Ghost<SolvingStage>, acc: u32, r: isize, c: isize) -> (res: u32)
        requires
            s0.wf(),
            s0.headroom(),
            progress(s0, *old(self), acc as int),
            0 <= r <= s0.size_r,
            0 <= c <= s0.size_c,
        ensures
            pattern_frame(s0, *old(self), *final(self), acc as int, res as int),
            forall|k: int| 0 <= k < 4 ==> #[trigger] point_rules(*old(self), *final(self), r as int, c as int, k),
            old(self).result && !final(self).result ==> point_clash(*final(self), r as int, c as int),
            lines_binary(*old(self), *final(self)),
            point_frame(*old(self), *final(self), r as int, c as int),
            forall|b: i8|
                #[trigger] shape_fits(*old(self), r as int, c as int, b) ==> shape_fits(
                    *final(self),
                    r as int,
                    c as int,
                    b,
                ) && final(self).result == old(self).result,
    {
        let ghost o = *self;
        let ghost ri = r as int;
        let ghost ci = c as int;
        let center = idx_point(r, c);
        let mut counter = acc;
        proof {
            assert forall|a: SolvingStage| a.wf() && #[trigger] refines(a, o) implies refines(a, o) by {}
            lemma_offset_kind(ri, ci, 0, 0);
            lemma_progress_refl(o);
        }
        let mut rot: u8 = 0;
        while rot < 4
            invariant
                0 <= rot <= 4,
                s0.wf(),
                s0.headroom(),
                o.wf(),
                o.size_r == s0.size_r,
                o.size_c == s0.size_c,
                progress(s0, *self, counter as int),
                counter >= acc,
                counter == acc ==> self.checked == o.checked,
                forall|a: SolvingStage| a.wf() && #[trigger] refines(a, o) ==> refines(a, *self),
                refines(o, *self),
                self.group == o.group,
                0 <= ri <= s0.size_r,
                0 <= ci <= s0.size_c,
                ri == r,
                ci == c,
                center.r == 2 * ri,
                center.c == 2 * ci,
                is_point_pos(2 * ri, 2 * ci),
                forall|k: int| 0 <= k < rot ==> #[trigger] point_rules(o, *self, ri, ci, k),
                o.result && !self.result ==> point_clash(*self, ri, ci),
                lines_binary(o, *self),
                point_frame(o, *self, ri, ci),
                forall|b: i8| #[trigger] shape_fits(o, ri, ci, b) ==> shape_fits(*self, ri, ci, b) && self.result == o.result,
            decreases 4 - rot,
        {
            let ghost t0 = *self;
            let ghost k = rot as int;
            let ghost mu = rot_spec(P_LINE_U, rot);
            let ghost me = rot_spec(P_EDGE_U, rot);
            let t = idx_v_line(r - 1, c);
            proof {
                lemma_around(ri, ci, rot as int);
                assert(o.in_grid(2 * ri, 2 * ci));
                assert(t0.at(2 * ri, 2 * ci) & o.at(2 * ri, 2 * ci) == t0.at(2 * ri, 2 * ci));
                lemma_subset_trans(t0.at(2 * ri, 2 * ci), o.at(2 * ri, 2 * ci), mu);
                lemma_subset_trans(t0.at(2 * ri, 2 * ci), o.at(2 * ri, 2 * ci), me);
            }
            let ln = rot_rc(t, center, rot);
            let ghost x = ln.r as int;
            let ghost y = ln.c as int;
            if ln.r >= 0 && ln.r < self.size_r * 2 + 1 && ln.c >= 0 && ln.c < self.size_c * 2 + 1 {
                //  ?  >>  |
                //  +  >>  +
                if in_possibility(self.cell(r * 2, c * 2), rot_p(P_LINE_U, rot)) {
                    let ghost before = *self;
                    counter = self.step_line(Ghost(s0), counter, ln, 1);
                    proof {
                        self.lemma_pattern_step(o, before, ri, ci, k, x, y);
                        assert forall|b: i8| #[trigger] shape_fits(before, ri, ci, b) implies shape_fits(*self, ri, ci, b)
                            && self.result == before.result by {
                            lemma_fits_line(before, *self, ri, ci, k, 1, b);
                        }
                    }
                }
                let ghost u1 = *self;
                proof {
                    lemma_progress_refl(t0);
                    if among(o.at(2 * ri, 2 * ci), mu) {
                        assert(decided_as(u1, x, y, 1));
                    }
                    assert(u1.at(2 * ri, 2 * ci) == t0.at(2 * ri, 2 * ci));
                }
                //   ?  >>  x
                //   +  >>  +
                if in_possibility(self.cell(r * 2, c * 2), rot_p(P_EDGE_U, rot)) {
                    let ghost before = *self;
                    counter = self.step_line(Ghost(s0), counter, ln, 0);
                    proof {
                        self.lemma_pattern_step(o, before, ri, ci, k, x, y);
                        assert forall|b: i8| #[trigger] shape_fits(before, ri, ci, b) implies shape_fits(*self, ri, ci, b)
                            && self.result == before.result by {
                            lemma_fits_line(before, *self, ri, ci, k, 0, b);
                        }
                    }
                }
                let ghost u2 = *self;
                proof {
                    lemma_progress_refl(u1);
                    if among(o.at(2 * ri, 2 * ci), mu) {
                        lemma_decided_kept(u1, u2, x, y, 1);
                    }
                    if among(o.at(2 * ri, 2 * ci), me) {
                        assert(decided_as(u2, x, y, 0));
                    }
                    if o.at(x, y) != -1 {
                        assert(u2.at(x, y) == o.at(x, y));
                    }
                }
                //   |  >>  |
                //   +  >>  *
                if self.cell(ln.r, ln.c) == 1 {
                    let ghost before = *self;
                    counter = self.step_restrict(Ghost(s0), counter, center, rot_p(P_LINE_U, rot));
                    proof {
                        self.lemma_pattern_step(o, before, ri, ci, k, x, y);
                        assert forall|b: i8| #[trigger] shape_fits(before, ri, ci, b) implies shape_fits(*self, ri, ci, b)
                            && self.result == before.result by {
                            lemma_fits_restrict(before, *self, ri, ci, k, mu, b);
                        }
                        lemma_allows_only(0, 0, mu, u2.at(2 * ri, 2 * ci));
                    }
                }
                let ghost u3 = *self;
                proof {
                    lemma_progress_refl(u2);
                    if among(o.at(2 * ri, 2 * ci), mu) {
                        lemma_decided_kept(u2, u3, x, y, 1);
                    }
                    if among(o.at(2 * ri, 2 * ci), me) {
                        lemma_decided_kept(u2, u3, x, y, 0);
                    }
                }
                //   x  >>  x
                //   +  >>  *
                if self.cell(ln.r, ln.c) == 0 {
                    let ghost before = *self;
                    counter = self.step_restrict(Ghost(s0), counter, center, rot_p(P_EDGE_U, rot));
                    proof {
                        self.lemma_pattern_step(o, before, ri, ci, k, x, y);
                        assert forall|b: i8| #[trigger] shape_fits(before, ri, ci, b) implies shape_fits(*self, ri, ci, b)
                            && self.result == before.result by {
                            lemma_fits_restrict(before, *self, ri, ci, k, me, b);
                        }
                        lemma_allows_only(0, 0, me, u3.at(2 * ri, 2 * ci));
                    }
                }
                proof {
                    lemma_progress_refl(u3);
                    if among(o.at(2 * ri, 2 * ci), mu) {
                        lemma_decided_kept(u3, *self, x, y, 1);
                    }
                    if among(o.at(2 * ri, 2 * ci), me) {
                        lemma_decided_kept(u3, *self, x, y, 0);
                    }
                    if o.at(x, y) == 1 {
                        assert(self.at(2 * ri, 2 * ci) & u3.at(2 * ri, 2 * ci) == self.at(2 * ri, 2 * ci));
                        lemma_allows_only(u3.at(2 * ri, 2 * ci), self.at(2 * ri, 2 * ci), mu, 0);
                    }
                    assert forall|b: i8| #[trigger] shape_fits(o, ri, ci, b) implies shape_fits(*self, ri, ci, b)
                        && self.result == o.result by {
                        assert(shape_fits(t0, ri, ci, b));
                        assert(shape_fits(u1, ri, ci, b));
                        assert(shape_fits(u2, ri, ci, b));
                        assert(shape_fits(u3, ri, ci, b));
                    }
                }
            }
            proof {
                lemma_progress_refl(t0);
                lemma_progress_refl(o);
                assert(refines(t0, *self));
                lemma_refines_trans(o, t0, *self);
                assert(point_rules(o, *self, ri, ci, k));
                assert forall|j: int| 0 <= j < rot + 1 implies #[trigger] point_rules(o, *self, ri, ci, j) by {
                    if j < rot {
                        assert(point_rules(o, t0, ri, ci, j));
                        lemma_point_rules_kept(o, o, t0, *self, ri, ci, j);
                    }
                }
            }
            rot = rot + 1;
        }
        counter
    }
}


impl SolvingStage {
    /// Decides every undecided line around the point `(r, c)` as `fill`.
    fn fill_around(&mut self, Ghost(s0): Ghost<SolvingStage>, acc: u32, r: isize, c: isize, fill: i8) -> (res: u32)
        requires
            s0.wf(),
            s0.headroom(),
            progress(s0, *old(self), acc as int),
            0 <= r <= s0.size_r,
            0 <= c <= s0.size_c,
            fill == 0 || fill == 1,
        ensures
            pattern_frame(s0, *old(self), *final(self), acc as int, res as int),
            final(self).result == old(self).result,
            lines_binary(*old(self), *final(self)),
            point_frame(*old(self), *final(self), r as int, c as int),
            final(self).at(2 * r, 2 * c) == old(self).at(2 * r, 2 * c),
            forall|k: int|
                0 <= k < 4 ==> #[trigger] around_line(*final(self), r as int, c as int, k) == if around_line(
                    *old(self),
                    r as int,
                    c as int,
                    k,
                ) == -1 {
                    fill
                } else {
                    around_line(*old(self), r as int, c as int, k)
                },
    {
        let ghost o = *self;
        let ghost ri = r as int;
        let ghost ci = c as int;
        let center = idx_point(r, c);
        let mut counter = acc;
        proof {
            assert forall|a: SolvingStage| a.wf() && #[trigger] refines(a, o) implies refines(a, o) by {}
            lemma_around(ri, ci, 0);
            lemma_around(ri, ci, 1);
            lemma_around(ri, ci, 2);
            lemma_around(ri, ci, 3);
        }
        let mut rot: u8 = 0;
        while rot < 4
            invariant
                0 <= rot <= 4,
                s0.wf(),
                s0.headroom(),
                progress(s0, *self, counter as int),
                counter >= acc,
                counter == acc ==> self.checked == o.checked,
                forall|a: SolvingStage| a.wf() && #[trigger] refines(a, o) ==> refines(a, *self),
                self.group == o.group,
                self.size_r == s0.size_r,
                self.size_c == s0.size_c,
                o.size_r == s0.size_r,
                o.size_c == s0.size_c,
                0 <= ri <= s0.size_r,
                0 <= ci <= s0.size_c,
                ri == r,
                ci == c,
                center.r == 2 * ri,
                center.c == 2 * ci,
                fill == 0 || fill == 1,
                self.result == o.result,
                lines_binary(o, *self),
                point_frame(o, *self, ri, ci),
                self.at(2 * ri, 2 * ci) == o.at(2 * ri, 2 * ci),
                forall|k: int|
                    0 <= k < rot ==> #[trigger] around_line(*self, ri, ci, k) == if around_line(
                        o,
                        ri,
                        ci,
                        k,
                    ) == -1 {
                        fill
                    } else {
                        around_line(o, ri, ci, k)
                    },
                forall|k: int|
                    rot <= k < 4 ==> #[trigger] around_line(*self, ri, ci, k) == around_line(o, ri, ci, k),
            decreases 4 - rot,
        {
            let t = idx_v_line(r - 1, c);
            proof {
                lemma_around(ri, ci, rot as int);
            }
            let ln = rot_rc(t, center, rot);
            let ghost before = *self;
            if self.in_bound(ln) && self.cell(ln.r, ln.c) == -1 {
                counter = self.step_line(Ghost(s0), counter, ln, fill);
                proof {
                    lemma_progress_refl(before);
                    lemma_lines_binary_trans(o, before, *self);
                    assert forall|k: int| 0 <= k < 4 implies #[trigger] around_line(*self, ri, ci, k)
                        == if k == rot {
                        fill
                    } else {
                        around_line(before, ri, ci, k)
                    } by {
                        lemma_around(ri, ci, k);
                    }
                }
            }
            proof {
                let rk = rot as int;
                assert(around_line(before, ri, ci, rk) == around_line(o, ri, ci, rk));
                assert(around_line(*self, ri, ci, rk) == if around_line(o, ri, ci, rk) == -1 {
                    fill
                } else {
                    around_line(o, ri, ci, rk)
                });
                assert forall|k: int| 0 <= k < 4 && k != rk implies #[trigger] around_line(*self, ri, ci, k)
                    == around_line(before, ri, ci, k) by {}
            }
            rot = rot + 1;
        }
        counter
    }

    /// The degree rule at the point `(r, c)`: three or more drawn lines, or one drawn
    /// line with the three others crossed out (or off the board), are contradictory;
    /// two drawn lines, or three crossed out, cross out the rest; one drawn line and two
    /// crossed out draw the last.
    fn point_degree_rule(&mut self, Ghost(s0): Ghost<SolvingStage>, acc: u32, r: isize, c: isize) -> (res: u32)
        requires
            s0.wf(),
            s0.headroom(),
            progress(s0, *old(self), acc as int),
            0 <= r <= s0.size_r,
            0 <= c <= s0.size_c,
        ensures
            pattern_frame(s0, *old(self), *final(self), acc as int, res as int),
            degree_ok(*final(self), r as int, c as int),
            old(self).result && !final(self).result ==> degree_clash(*final(self), r as int, c as int),
            lines_binary(*old(self), *final(self)),
            point_frame(*old(self), *final(self), r as int, c as int),
            forall|b: i8|
                #[trigger] shape_fits(*old(self), r as int, c as int, b) ==> shape_fits(
                    *final(self),
                    r as int,
                    c as int,
                    b,
                ) && final(self).result == old(self).result,
    {
        let ghost o = *self;
        let ghost ri = r as int;
        let ghost ci = c as int;
        let center = idx_point(r, c);
        let mut counter = acc;
        proof {
            assert forall|a: SolvingStage| a.wf() && #[trigger] refines(a, o) implies refines(a, o) by {}
            lemma_progress_refl(o);
        }
        let mut count_line: i8 = 0;
        let mut count_x: i8 = 0;
        let mut rot: u8 = 0;
        while rot < 4
            invariant
                0 <= rot <= 4,
                *self == o,
                o.wf(),
                0 <= ri <= o.size_r,
                0 <= ci <= o.size_c,
                ri == r,
                ci == c,
                center.r == 2 * ri,
                center.c == 2 * ci,
                count_line == around_upto(o, ri, ci, 1, rot as int),
                count_x == around_upto(o, ri, ci, 0, rot as int),
                0 <= count_line <= rot,
                0 <= count_x <= rot,
            decreases 4 - rot,
        {
            let t = idx_v_line(r - 1, c);
            proof {
                lemma_around(ri, ci, rot as int);
            }
            let ln = rot_rc(t, center, rot);
            if !self.in_bound(ln) || self.cell(ln.r, ln.c) == 0 {
                count_x += 1;
            } else if self.cell(ln.r, ln.c) == 1 {
                count_line += 1;
            }
            rot = rot + 1;
        }
        proof {
            lemma_around_upto(o, ri, ci, 1);
            lemma_around_upto(o, ri, ci, 0);
        }
        proof {
            lemma_lines_binary_same(o, o);
        }
        if count_line >= 3 || (count_x == 3 && count_line == 1) {
            self.mark_contradiction(Ghost(s0), counter);
            proof {
                assert forall|b: i8| #[trigger] shape_fits(o, ri, ci, b) implies false by {
                    lemma_fit_degree(o, ri, ci, b);
                }
                assert(around_line(*self, ri, ci, 0) == around_line(o, ri, ci, 0));
                assert(around_line(*self, ri, ci, 1) == around_line(o, ri, ci, 1));
                assert(around_line(*self, ri, ci, 2) == around_line(o, ri, ci, 2));
                assert(around_line(*self, ri, ci, 3) == around_line(o, ri, ci, 3));
            }
        } else if count_line == 2 {
            counter = self.fill_around(Ghost(s0), counter, r, c, 0);
            proof {
                assert forall|b: i8| #[trigger] shape_fits(o, ri, ci, b) implies shape_fits(*self, ri, ci, b) by {
                    lemma_fit_degree(o, ri, ci, b);
                    lemma_fits_filled(o, *self, ri, ci, b, 0);
                }
            }
        } else if count_x == 3 {
            counter = self.fill_around(Ghost(s0), counter, r, c, 0);
            proof {
                assert forall|b: i8| #[trigger] shape_fits(o, ri, ci, b) implies shape_fits(*self, ri, ci, b) by {
                    lemma_fit_degree(o, ri, ci, b);
                    lemma_fits_filled(o, *self, ri, ci, b, 0);
                }
            }
        } else if count_line == 1 && count_x == 2 {
            counter = self.fill_around(Ghost(s0), counter, r, c, 1);
            proof {
                assert forall|b: i8| #[trigger] shape_fits(o, ri, ci, b) implies shape_fits(*self, ri, ci, b) by {
                    lemma_fit_degree(o, ri, ci, b);
                    lemma_fits_filled(o, *self, ri, ci, b, 1);
                }
            }
        }
        counter
    }

    /// Deductions at the point `(r, c)`: its line patterns in all four rotations (see
    /// `point_rules`), then the degree rule. Returns the score gained. Lines it decides
    /// are drawn (1) or crossed out (0); the board turns contradictory only when a line
    /// around the point is decided against the point's shapes or the degree rule finds
    /// the point impossible; and a run that gains nothing leaves the examined marks.
    /// Nothing it does rules out a way the point could still be drawn: every shape of the
    /// point that agrees with the lines around it (`shape_fits`) is kept, with the lines
    /// it decides agreeing with that shape, and then the board is not marked
    /// contradictory; so every finished board that completed the board before completes
    /// it after (`completes`).
    pub fn check_point(&mut self, r: isize, c: isize) -> (res: u32)
        requires
            old(self).wf(),
            old(self).headroom(),
            0 <= r <= old(self).size_r,
            0 <= c <= old(self).size_c,
        ensures
            progress(*old(self), *final(self), res as int),
            final(self).group == old(self).group,
            degree_ok(*final(self), r as int, c as int),
            forall|k: int| 0 <= k < 4 ==> #[trigger] point_rules(*old(self), *final(self), r as int, c as int, k),
            old(self).result && !final(self).result ==> point_clash(*final(self), r as int, c as int)
                || degree_clash(*final(self), r as int, c as int),
            lines_binary(*old(self), *final(self)),
            res == 0 ==> final(self).checked == old(self).checked,
            point_frame(*old(self), *final(self), r as int, c as int),
            forall|b: i8|
                #[trigger] shape_fits(*old(self), r as int, c as int, b) ==> shape_fits(
                    *final(self),
                    r as int,
                    c as int,
                    b,
                ) && final(self).result == old(self).result,
            forall|sol: SolvingStage|
                finished(sol) && #[trigger] completes(sol, *old(self)) ==> completes(sol, *final(self))
                    && final(self).result == old(self).result,
    {
        let ghost s0 = *old(self);
        proof {
            lemma_progress_refl(s0);
        }
        let counter = self.point_line_patterns(Ghost(s0), 0, r, c);
        let ghost s1 = *self;
        let res = self.point_degree_rule(Ghost(s0), counter, r, c);
        proof {
            lemma_progress_refl(s1);
            assert(refines(s1, *self));
            assert forall|k: int| 0 <= k < 4 implies #[trigger] point_rules(s0, *self, r as int, c as int, k) by {
                lemma_point_rules_kept(s0, s0, s1, *self, r as int, c as int, k);
            }
            lemma_lines_binary_trans(s0, s1, *self);
            if s0.result && !s1.result {
                lemma_clash_kept(s1, *self, r as int, c as int);
            }
            assert forall|b: i8| #[trigger] shape_fits(s0, r as int, c as int, b) implies shape_fits(
                *self,
                r as int,
                c as int,
                b,
            ) && self.result == s0.result by {
                assert(shape_fits(s1, r as int, c as int, b));
            }
            assert forall|sol: SolvingStage| finished(sol) && #[trigger] completes(sol, s0) implies completes(
                sol,
                *self,
            ) && self.result == s0.result by {
                lemma_completion_fits(sol, s0, r as int, c as int);
                assert(shape_fits(s1, r as int, c as int, sol.at(2 * r, 2 * c)));
                lemma_completion_kept(sol, s0, *self, r as int, c as int);
            }
        }
        res
    }
}

} // verus!
