use vstd::prelude::*;
use crate::deduce::{among, pattern_frame};
use crate::grid::{is_line_pos, is_point_pos, lemma_offset_kind, lemma_potential_same};
use crate::rotation::{
    idx_h_line, idx_point, idx_v_line, in_possibility, P_DIAGONAL_RD, P_DIAGONAL_RU, P_DL, P_NONE,
    P_RD, P_UL, P_UR,
};
use crate::stage::{
    lemma_lines_binary_same, lemma_lines_binary_trans, lemma_progress_refl, lemma_progress_trans,
    lemma_same_grid_progress, lemma_wf_keep, lines_binary, progress, refines, SolvingStage,
};

verus! {

/// The region label of cell `(r, c)`; every position off the board is the outside, `-1`.
pub open spec fn label(s: SolvingStage, r: int, c: int) -> i64 {
    if 0 <= r < s.size_r && 0 <= c < s.size_c {
        s.group_at(r, c)
    } else {
        -1i64
    }
}

/// The label a cell gets when the label class of `v2` joins that of `v1`: `v2` becomes
/// `v1` and `-v2` becomes `-v1`.
pub open spec fn relabel(g: i64, v1: i64, v2: i64) -> i64 {
    if g == v2 {
        v1
    } else if g == -v2 {
        (-v1) as i64
    } else {
        g
    }
}

pub open spec fn abs_i64(g: i64) -> int {
    if g < 0 {
        -g
    } else {
        g as int
    }
}

/// No cell is labelled 0, which keeps the outside's label `-1` apart from every class
/// that a join renames.
pub open spec fn labels_nonzero(s: SolvingStage) -> bool {
    forall|r: int, c: int| 0 <= r < s.size_r && 0 <= c < s.size_c ==> #[trigger] s.group_at(r, c) != 0
}

/// Two labels name the same class: equal labels lie on the same side of the loop,
/// opposite labels on opposite sides.
pub open spec fn same_class(x: i64, y: i64) -> bool {
    abs_i64(x) == abs_i64(y)
}

/// Labels only merge from `o` to `s`: every two positions whose labels named one class
/// in `o` still do, equal labels stay equal, opposite labels stay opposite, and no label
/// grows in absolute value.
pub open spec fn classes_kept(o: SolvingStage, s: SolvingStage) -> bool {
    &&& forall|r1: int, c1: int, r2: int, c2: int|
        same_class(label(o, r1, c1), label(o, r2, c2)) ==> #[trigger] same_class(
            label(s, r1, c1),
            label(s, r2, c2),
        )
    &&& forall|r1: int, c1: int, r2: int, c2: int|
        #![trigger label(s, r1, c1), label(s, r2, c2)]
        label(o, r1, c1) == label(o, r2, c2) ==> label(s, r1, c1) == label(s, r2, c2)
    &&& forall|r1: int, c1: int, r2: int, c2: int|
        #![trigger label(s, r1, c1), label(s, r2, c2)]
        label(o, r1, c1) == -label(o, r2, c2) ==> label(s, r1, c1) == -label(s, r2, c2)
    &&& forall|r: int, c: int| #[trigger] abs_i64(label(s, r, c)) <= abs_i64(label(o, r, c))
}

/// The label a cell gets when the classes of `g1` and `g2` are joined: the class with
/// the larger absolute label takes the smaller one; equal absolute labels join nothing.
pub open spec fn joined(g: i64, g1: i64, g2: i64) -> i64 {
    if abs_i64(g1) == abs_i64(g2) {
        g
    } else if abs_i64(g1) < abs_i64(g2) {
        relabel(g, g1, g2)
    } else {
        relabel(g, g2, g1)
    }
}

/// `x` allows no shape outside `m`.
/// The two cells beside the vertical line left of cell `(r, c)` are in one class.
pub open spec fn v_joined(s: SolvingStage, r: int, c: int) -> bool {
    same_class(label(s, r, c), label(s, r, c - 1))
}

/// The two cells beside the horizontal line above cell `(r, c)` are in one class.
pub open spec fn h_joined(s: SolvingStage, r: int, c: int) -> bool {
    same_class(label(s, r - 1, c), label(s, r, c))
}

/// The cells up-left and down-right of the point at the upper-left corner of cell
/// `(r, c)` are in one class.
pub open spec fn ru_joined(s: SolvingStage, r: int, c: int) -> bool {
    same_class(label(s, r - 1, c - 1), label(s, r, c))
}

/// The cells down-left and up-right of that point are in one class.
pub open spec fn rd_joined(s: SolvingStage, r: int, c: int) -> bool {
    same_class(label(s, r, c - 1), label(s, r - 1, c))
}

/// The diagonal neighbours of the point at the upper-left corner of cell `(r, c)` are in
/// one class whenever the shapes that point allowed in `o` all separate them, or all
/// keep them together.
pub open spec fn diagonals_joined(o: SolvingStage, s: SolvingStage, r: int, c: int) -> bool {
    let p = o.at(2 * r, 2 * c);
    &&& (among(p, P_DIAGONAL_RU) || among(p, P_DL | P_UR | P_NONE)) ==> ru_joined(s, r, c)
    &&& (among(p, P_DIAGONAL_RD) || among(p, P_UL | P_RD | P_NONE)) ==> rd_joined(s, r, c)
}

/// The labels beside the vertical line left of cell `(r, c)` agree with its value `v`:
/// opposite across a drawn line, equal across a crossed-out one.
pub open spec fn v_line_agrees(s: SolvingStage, r: int, c: int, v: i8) -> bool {
    &&& v == 1 ==> label(s, r, c) == -label(s, r, c - 1)
    &&& v == 0 ==> label(s, r, c) == label(s, r, c - 1)
}

/// The labels beside the horizontal line above cell `(r, c)` agree with its value `v`.
pub open spec fn h_line_agrees(s: SolvingStage, r: int, c: int, v: i8) -> bool {
    &&& v == 1 ==> label(s, r - 1, c) == -label(s, r, c)
    &&& v == 0 ==> label(s, r - 1, c) == label(s, r, c)
}

/// The labels agree with every decided line of `s`.
pub open spec fn labels_agree(s: SolvingStage) -> bool {
    &&& forall|r: int, c: int|
        0 <= r < s.size_r && 0 <= c <= s.size_c ==> #[trigger] v_line_agrees(s, r, c, s.at(2 * r + 1, 2 * c))
    &&& forall|r: int, c: int|
        0 <= r <= s.size_r && 0 <= c < s.size_c ==> #[trigger] h_line_agrees(s, r, c, s.at(2 * r, 2 * c + 1))
}

/// Keeping classes together composes.
pub proof fn lemma_classes_trans(a: SolvingStage, b: SolvingStage, c: SolvingStage)
    requires
        classes_kept(a, b),
        classes_kept(b, c),
    ensures
        classes_kept(a, c),
{
    assert forall|r1: int, c1: int, r2: int, c2: int|
        same_class(label(a, r1, c1), label(a, r2, c2)) implies #[trigger] same_class(
        label(c, r1, c1),
        label(c, r2, c2),
    ) by {
        assert(same_class(label(b, r1, c1), label(b, r2, c2)));
    }
    assert forall|r1: int, c1: int, r2: int, c2: int|
        #![trigger label(c, r1, c1), label(c, r2, c2)]
        label(a, r1, c1) == label(a, r2, c2) implies label(c, r1, c1) == label(c, r2, c2) by {
        assert(label(b, r1, c1) == label(b, r2, c2));
    }
    assert forall|r1: int, c1: int, r2: int, c2: int|
        #![trigger label(c, r1, c1), label(c, r2, c2)]
        label(a, r1, c1) == -label(a, r2, c2) implies label(c, r1, c1) == -label(c, r2, c2) by {
        assert(label(b, r1, c1) == -label(b, r2, c2));
    }
    assert forall|r: int, k: int| #[trigger] abs_i64(label(c, r, k)) <= abs_i64(label(a, r, k)) by {
        assert(abs_i64(label(b, r, k)) <= abs_i64(label(a, r, k)));
    }
}

/// Boards with the same labels keep every class.
pub proof fn lemma_same_labels_kept(a: SolvingStage, b: SolvingStage)
    requires
        b.group == a.group,
        b.size_r == a.size_r,
        b.size_c == a.size_c,
    ensures
        classes_kept(a, b),
{
    assert forall|r: int, c: int| #[trigger] label(b, r, c) == label(a, r, c) by {}
}

/// Classes kept keep every joined pair joined.
pub proof fn lemma_joined_pairs_kept(a: SolvingStage, b: SolvingStage, r: int, c: int)
    requires
        classes_kept(a, b),
    ensures
        v_joined(a, r, c) ==> v_joined(b, r, c),
        h_joined(a, r, c) ==> h_joined(b, r, c),
        ru_joined(a, r, c) ==> ru_joined(b, r, c),
        rd_joined(a, r, c) ==> rd_joined(b, r, c),
{
    assert(same_class(label(a, r, c), label(a, r, c - 1)) ==> same_class(label(b, r, c), label(b, r, c - 1)));
    assert(same_class(label(a, r - 1, c), label(a, r, c)) ==> same_class(label(b, r - 1, c), label(b, r, c)));
    assert(same_class(label(a, r - 1, c - 1), label(a, r, c)) ==> same_class(label(b, r - 1, c - 1), label(b, r, c)));
    assert(same_class(label(a, r, c - 1), label(a, r - 1, c)) ==> same_class(label(b, r, c - 1), label(b, r - 1, c)));
}

/// Joining the classes of the labels `x` and `y`, or of `x` and `-y`, puts `x` and `y`
/// in one class.
pub proof fn lemma_join_pair(o: SolvingStage, s: SolvingStage, r1: int, c1: int, r2: int, c2: int, g1: i64, h: i64)
    requires
        g1 == label(o, r1, c1),
        h == label(o, r2, c2) || h == -label(o, r2, c2),
        g1 != i64::MIN,
        h != i64::MIN,
        g1 != 0,
        h != 0,
        forall|r: int, c: int| #[trigger] label(s, r, c) == joined(label(o, r, c), g1, h),
    ensures
        same_class(label(s, r1, c1), label(s, r2, c2)),
{
    let g2 = label(o, r2, c2);
    assert(label(s, r1, c1) == joined(g1, g1, h));
    assert(label(s, r2, c2) == joined(g2, g1, h));
    lemma_join_makes_class(g1, h);
    lemma_joined_class(h, g2, g1, h);
}

/// Joining two classes keeps every class together.
pub proof fn lemma_joined_class(x: i64, y: i64, g1: i64, g2: i64)
    requires
        g1 != i64::MIN,
        g2 != i64::MIN,
        same_class(x, y),
    ensures
        same_class(joined(x, g1, g2), joined(y, g1, g2)),
{
}

/// Joining the classes of `g1` and of `h` puts them in one class.
pub proof fn lemma_join_makes_class(g1: i64, h: i64)
    requires
        g1 != i64::MIN,
        h != i64::MIN,
        g1 != 0,
        h != 0,
    ensures
        same_class(joined(g1, g1, h), joined(h, g1, h)),
{
}

/// A joined label is never 0, and the outside keeps its label.
pub proof fn lemma_joined_nonzero(x: i64, g1: i64, g2: i64)
    requires
        g1 != i64::MIN,
        g2 != i64::MIN,
        g1 != 0,
        g2 != 0,
    ensures
        x != 0 ==> joined(x, g1, g2) != 0,
        joined(-1i64, g1, g2) == -1,
{
}

/// The labels after `join_group(g1, g2)`, off the board too.
pub proof fn lemma_join_labels(o: SolvingStage, s: SolvingStage, g1: i64, g2: i64)
    requires
        o.wf(),
        labels_nonzero(o),
        g1 != i64::MIN,
        g2 != i64::MIN,
        g1 != 0,
        g2 != 0,
        s.size_r == o.size_r,
        s.size_c == o.size_c,
        forall|r: int, c: int|
            0 <= r < o.size_r && 0 <= c < o.size_c ==> #[trigger] s.group_at(r, c) == joined(
                o.group_at(r, c),
                g1,
                g2,
            ),
    ensures
        labels_nonzero(s),
        forall|r: int, c: int| #[trigger] label(s, r, c) == joined(label(o, r, c), g1, g2),
        classes_kept(o, s),
{
    assert forall|r: int, c: int| 0 <= r < s.size_r && 0 <= c < s.size_c implies #[trigger] s.group_at(r, c) != 0 by {
        lemma_joined_nonzero(o.group_at(r, c), g1, g2);
    }
    assert forall|r: int, c: int| #[trigger] label(s, r, c) == joined(label(o, r, c), g1, g2) by {
        lemma_joined_nonzero(label(o, r, c), g1, g2);
    }
    assert forall|r1: int, c1: int, r2: int, c2: int|
        same_class(label(o, r1, c1), label(o, r2, c2)) implies #[trigger] same_class(
        label(s, r1, c1),
        label(s, r2, c2),
    ) by {
        assert(label(s, r1, c1) == joined(label(o, r1, c1), g1, g2));
        assert(label(s, r2, c2) == joined(label(o, r2, c2), g1, g2));
        lemma_joined_class(label(o, r1, c1), label(o, r2, c2), g1, g2);
    }
    assert forall|r1: int, c1: int, r2: int, c2: int|
        #![trigger label(s, r1, c1), label(s, r2, c2)]
        label(o, r1, c1) == -label(o, r2, c2) implies label(s, r1, c1) == -label(s, r2, c2) by {
        assert(label(s, r1, c1) == joined(label(o, r1, c1), g1, g2));
        assert(label(s, r2, c2) == joined(label(o, r2, c2), g1, g2));
        lemma_joined_odd(label(o, r2, c2), g1, g2);
    }
    assert forall|r: int, c: int| #[trigger] abs_i64(label(s, r, c)) <= abs_i64(label(o, r, c)) by {
        assert(label(s, r, c) == joined(label(o, r, c), g1, g2));
    }
}

/// Joining maps opposite labels to opposite labels.
pub proof fn lemma_joined_odd(x: i64, g1: i64, g2: i64)
    requires
        g1 != i64::MIN,
        g2 != i64::MIN,
        g1 != 0,
        g2 != 0,
        x != i64::MIN,
    ensures
        joined((-x) as i64, g1, g2) == -joined(x, g1, g2),
{
}

pub open spec fn allows_only(x: i8, m: i8) -> bool {
    x & !m & 127 == 0
}

/// `s` holds the line value `v`, or is contradictory.
pub open spec fn decided_as(s: SolvingStage, x: int, y: int, v: i8) -> bool {
    s.at(x, y) == v || !s.result
}

/// The vertical line left of cell `(r, c)` follows the labels on its two sides: drawn
/// between opposite labels, crossed out between equal ones.
pub open spec fn v_line_follows_labels(s: SolvingStage, r: int, c: int) -> bool {
    &&& label(s, r, c) == -label(s, r, c - 1) ==> decided_as(s, 2 * r + 1, 2 * c, 1)
    &&& label(s, r, c) == label(s, r, c - 1) ==> decided_as(s, 2 * r + 1, 2 * c, 0)
}

/// The horizontal line above cell `(r, c)` follows the labels on its two sides.
pub open spec fn h_line_follows_labels(s: SolvingStage, r: int, c: int) -> bool {
    &&& label(s, r - 1, c) == -label(s, r, c) ==> decided_as(s, 2 * r, 2 * c + 1, 1)
    &&& label(s, r - 1, c) == label(s, r, c) ==> decided_as(s, 2 * r, 2 * c + 1, 0)
}

/// The point at the upper-left corner of cell `(r, c)` follows the labels of its
/// diagonal neighbours: opposite labels across a diagonal leave only shapes that
/// separate them, equal labels only shapes that do not.
pub open spec fn point_follows_labels(s: SolvingStage, r: int, c: int) -> bool {
    let a = label(s, r - 1, c - 1);
    let b = label(s, r, c);
    let d = label(s, r, c - 1);
    let e = label(s, r - 1, c);
    let x = s.at(2 * r, 2 * c);
    &&& a == -b ==> allows_only(x, P_DIAGONAL_RU)
    &&& (a != -b && a == b) ==> allows_only(x, P_DL | P_UR | P_NONE)
    &&& d == -e ==> allows_only(x, P_DIAGONAL_RD)
    &&& (d != -e && d == e) ==> allows_only(x, P_UL | P_RD | P_NONE)
}

/// Every line and every inner point of the board follows the region labels.
pub open spec fn labels_followed(s: SolvingStage) -> bool {
    &&& forall|r: int, c: int|
        0 <= r < s.size_r && 0 <= c <= s.size_c ==> #[trigger] v_line_follows_labels(s, r, c)
    &&& forall|r: int, c: int|
        0 <= r <= s.size_r && 0 <= c < s.size_c ==> #[trigger] h_line_follows_labels(s, r, c)
    &&& forall|r: int, c: int|
        1 <= r < s.size_r && 1 <= c < s.size_c ==> #[trigger] point_follows_labels(s, r, c)
}

/// Following the labels only reads the grid and the labels, and survives a
/// contradiction.
pub proof fn lemma_labels_kept(s: SolvingStage, t: SolvingStage)
    requires
        labels_followed(s),
        t.stage == s.stage,
        t.group == s.group,
        t.size_r == s.size_r,
        t.size_c == s.size_c,
        t.result ==> s.result,
    ensures
        labels_followed(t),
{
    assert forall|r: int, c: int|
        0 <= r < t.size_r && 0 <= c <= t.size_c implies #[trigger] v_line_follows_labels(t, r, c) by {
        assert(v_line_follows_labels(s, r, c));
    }
    assert forall|r: int, c: int|
        0 <= r <= t.size_r && 0 <= c < t.size_c implies #[trigger] h_line_follows_labels(t, r, c) by {
        assert(h_line_follows_labels(s, r, c));
    }
    assert forall|r: int, c: int|
        1 <= r < t.size_r && 1 <= c < t.size_c implies #[trigger] point_follows_labels(t, r, c) by {
        assert(point_follows_labels(s, r, c));
    }
}

pub(crate) proof fn lemma_allows_only(x: i8, y: i8, m: i8, o: i8)
    by (bit_vector)
    ensures
        (y & x == y && x & !m & 127 == 0) ==> y & !m & 127 == 0,
        (o & !((127 & !m) & 127)) & !m & 127 == 0,
{
}

/// The label facts survive further deductions that keep the labels.
proof fn lemma_follows_kept(s: SolvingStage, t: SolvingStage)
    requires
        s.wf(),
        refines(s, t),
        t.group == s.group,
    ensures
        forall|r: int, c: int|
            0 <= r < s.size_r && 0 <= c <= s.size_c && #[trigger] v_line_follows_labels(s, r, c)
                ==> v_line_follows_labels(t, r, c),
        forall|r: int, c: int|
            0 <= r <= s.size_r && 0 <= c < s.size_c && #[trigger] h_line_follows_labels(s, r, c)
                ==> h_line_follows_labels(t, r, c),
        forall|r: int, c: int|
            0 <= r <= s.size_r && 0 <= c <= s.size_c && #[trigger] point_follows_labels(s, r, c)
                ==> point_follows_labels(t, r, c),
{
    assert forall|r: int, c: int|
        0 <= r < s.size_r && 0 <= c <= s.size_c && #[trigger] v_line_follows_labels(s, r, c)
            implies v_line_follows_labels(t, r, c) by {
        lemma_offset_kind(r, c, 0, -1);
        assert(t.at(2 * r + 1, 2 * c) == t.at(2 * r + 1, 2 * c));
    }
    assert forall|r: int, c: int|
        0 <= r <= s.size_r && 0 <= c < s.size_c && #[trigger] h_line_follows_labels(s, r, c)
            implies h_line_follows_labels(t, r, c) by {
        lemma_offset_kind(r, c, -1, 0);
        assert(t.at(2 * r, 2 * c + 1) == t.at(2 * r, 2 * c + 1));
    }
    assert forall|r: int, c: int|
        0 <= r <= s.size_r && 0 <= c <= s.size_c && #[trigger] point_follows_labels(s, r, c)
            implies point_follows_labels(t, r, c) by {
        lemma_offset_kind(r, c, -1, -1);
        let x = s.at(2 * r, 2 * c);
        let y = t.at(2 * r, 2 * c);
        lemma_allows_only(x, y, P_DIAGONAL_RU, 0);
        lemma_allows_only(x, y, P_DL | P_UR | P_NONE, 0);
        lemma_allows_only(x, y, P_DIAGONAL_RD, 0);
        lemma_allows_only(x, y, P_UL | P_RD | P_NONE, 0);
    }
}

/// The absolute value of a label.
fn label_abs(g: i64) -> (res: i64)
    requires
        g != i64::MIN,
    ensures
        res == abs_i64(g),
{
    if g < 0 {
        -g
    } else {
        g
    }
}

impl SolvingStage {
    /// The region label of cell `(r, c)`, `-1` off the board.
    fn get_group(&self, r: isize, c: isize) -> (g: i64)
        requires
            self.wf(),
        ensures
            g == label(*self, r as int, c as int),
            g != i64::MIN,
    {
        if r < 0 || r >= self.size_r || c < 0 || c >= self.size_c {
            -1
        } else {
            proof {
                assert(self.group_at(r as int, c as int) != i64::MIN);
            }
            self.group[r as usize][c as usize]
        }
    }

    /// Joins the label classes of `g1` and `g2` over the whole board.
    fn join_group(&mut self, g1: i64, g2: i64)
        requires
            old(self).wf(),
            g1 != i64::MIN,
            g2 != i64::MIN,
        ensures
            final(self).wf(),
            final(self).stage == old(self).stage,
            final(self).checked == old(self).checked,
            final(self).score == old(self).score,
            final(self).result == old(self).result,
            final(self).size_r == old(self).size_r,
            final(self).size_c == old(self).size_c,
            forall|r: int, c: int|
                0 <= r < old(self).size_r && 0 <= c < old(self).size_c
                    ==> #[trigger] final(self).group_at(r, c) == joined(old(self).group_at(r, c), g1, g2),
    {
        let ghost o = *self;
        if label_abs(g1) == label_abs(g2) {
            return;
        }
        let v1: i64;
        let v2: i64;
        if label_abs(g1) < label_abs(g2) {
            v1 = g1;
            v2 = g2;
        } else {
            v1 = g2;
            v2 = g1;
        }
        let mut r: isize = 0;
        while r < self.size_r
            invariant
                0 <= r <= self.size_r,
                o.wf(),
                v1 != i64::MIN,
                v2 != i64::MIN,
                abs_i64(g1) != abs_i64(g2),
                abs_i64(g1) < abs_i64(g2) ==> v1 == g1 && v2 == g2,
                abs_i64(g1) > abs_i64(g2) ==> v1 == g2 && v2 == g1,
                self.stage == o.stage,
                self.checked == o.checked,
                self.score == o.score,
                self.result == o.result,
                self.size_r == o.size_r,
                self.size_c == o.size_c,
                self.group@.len() == o.group@.len(),
                forall|i: int| 0 <= i < o.size_r ==> #[trigger] self.group@[i]@.len() == o.size_c,
                forall|i: int, j: int|
                    0 <= i < r && 0 <= j < o.size_c ==> #[trigger] self.group_at(i, j) == relabel(
                        o.group_at(i, j),
                        v1,
                        v2,
                    ),
                forall|i: int, j: int|
                    r <= i < o.size_r && 0 <= j < o.size_c ==> #[trigger] self.group_at(i, j)
                        == o.group_at(i, j),
            decreases o.size_r - r,
        {
            let mut c: isize = 0;
            while c < self.size_c
                invariant
                    0 <= r < o.size_r,
                    0 <= c <= o.size_c,
                    o.wf(),
                    v1 != i64::MIN,
                    v2 != i64::MIN,
                    self.stage == o.stage,
                    self.checked == o.checked,
                    self.score == o.score,
                    self.result == o.result,
                    self.size_r == o.size_r,
                    self.size_c == o.size_c,
                    self.group@.len() == o.group@.len(),
                    forall|i: int| 0 <= i < o.size_r ==> #[trigger] self.group@[i]@.len() == o.size_c,
                    forall|i: int, j: int|
                        (0 <= i < r && 0 <= j < o.size_c) || (i == r && 0 <= j < c) ==> #[trigger] self.group_at(i, j)
                            == relabel(o.group_at(i, j), v1, v2),
                    forall|i: int, j: int|
                        ((r < i < o.size_r && 0 <= j < o.size_c) || (i == r && c <= j < o.size_c)) ==> #[trigger] self.group_at(i, j)
                            == o.group_at(i, j),
                decreases o.size_c - c,
            {
                let ghost before = *self;
                let g = self.group[r as usize][c as usize];
                assert(g == before.group_at(r as int, c as int));
                assert(before.group_at(r as int, c as int) == o.group_at(r as int, c as int));
                if g == v2 {
                    self.group[r as usize][c as usize] = v1;
                } else if g == -v2 {
                    self.group[r as usize][c as usize] = -v1;
                }
                proof {
                    assert forall|i: int, j: int|
                        0 <= i < o.size_r && 0 <= j < o.size_c && !(i == r && j == c) implies #[trigger] self.group_at(i, j)
                            == before.group_at(i, j) by {
                        if i != r {
                            assert(self.group@[i] == before.group@[i]);
                        }
                    }
                    assert(self.group_at(r as int, c as int) == relabel(o.group_at(r as int, c as int), v1, v2));
                }
                c = c + 1;
            }
            r = r + 1;
        }
        proof {
            assert forall|i: int, j: int|
                0 <= i < o.size_r && 0 <= j < o.size_c implies #[trigger] self.group_at(i, j)
                    != i64::MIN by {
                assert(o.group_at(i, j) != i64::MIN);
            }
        }
    }
}


/// The frame of a label-joining pass: only the labels change, and they stay valid.
pub open spec fn labels_only(o: SolvingStage, s: SolvingStage) -> bool {
    &&& s.wf()
    &&& s.stage == o.stage
    &&& s.checked == o.checked
    &&& s.score == o.score
    &&& s.result == o.result
    &&& s.size_r == o.size_r
    &&& s.size_c == o.size_c
}

impl SolvingStage {
    /// Joins the labels across every decided vertical line: a drawn line puts its two
    /// cells on opposite sides, a crossed-out line on the same side.
    fn join_along_v_lines(&mut self)
        requires
            old(self).wf(),
        ensures
            labels_only(*old(self), *final(self)),
            labels_nonzero(*old(self)) ==> labels_nonzero(*final(self)) && classes_kept(
                *old(self),
                *final(self),
            ),
            labels_nonzero(*old(self)) ==> forall|r: int, c: int|
                0 <= r < old(self).size_r && 0 <= c <= old(self).size_c && (old(self).at(2 * r + 1, 2 * c)
                    == 0 || old(self).at(2 * r + 1, 2 * c) == 1) ==> #[trigger] v_joined(*final(self), r, c),
    {
        let ghost o = *self;
        let ghost nz = labels_nonzero(o);
        proof {
            assert(classes_kept(o, o));
        }
        let mut r: isize = 0;
        while r < self.size_r
            invariant
                0 <= r <= o.size_r,
                o.wf(),
                labels_only(o, *self),
                nz == labels_nonzero(o),
                nz ==> labels_nonzero(*self) && classes_kept(o, *self),
                nz ==> forall|i: int, j: int|
                    0 <= i < r && 0 <= j <= o.size_c && (o.at(2 * i + 1, 2 * j) == 0 || o.at(2 * i + 1, 2 * j) == 1)
                        ==> #[trigger] v_joined(*self, i, j),
            decreases o.size_r - r,
        {
            let mut c: isize = 0;
            while c < self.size_c + 1
                invariant
                    0 <= r < o.size_r,
                    0 <= c <= o.size_c + 1,
                    o.wf(),
                    labels_only(o, *self),
                    nz == labels_nonzero(o),
                    nz ==> labels_nonzero(*self) && classes_kept(o, *self),
                    nz ==> forall|i: int, j: int|
                        ((0 <= i < r && 0 <= j <= o.size_c) || (i == r && 0 <= j < c)) && (o.at(2 * i + 1, 2 * j)
                            == 0 || o.at(2 * i + 1, 2 * j) == 1) ==> #[trigger] v_joined(*self, i, j),
                decreases o.size_c + 1 - c,
            {
                let ghost before = *self;
                //    +
                //  g | h -> -g = h
                //    +
                let v = self.cell(r * 2 + 1, c * 2);
                if v == 1 {
                    let g1 = self.get_group(r, c);
                    let g2 = self.get_group(r, c - 1);
                    let h = -g2;
                    self.join_group(g1, h);
                    proof {
                        if nz {
                            lemma_join_labels(before, *self, g1, h);
                            lemma_join_pair(before, *self, r as int, c as int, r as int, c - 1, g1, h);
                        }
                    }
                }
                //    +
                //  g x h ->  g = h
                //    +
                else if v == 0 {
                    let g1 = self.get_group(r, c);
                    let g2 = self.get_group(r, c - 1);
                    self.join_group(g1, g2);
                    proof {
                        if nz {
                            lemma_join_labels(before, *self, g1, g2);
                            lemma_join_pair(before, *self, r as int, c as int, r as int, c - 1, g1, g2);
                        }
                    }
                } else {
                    proof {
                        assert(classes_kept(before, *self));
                    }
                }
                proof {
                    if nz {
                        lemma_classes_trans(o, before, *self);
                        assert forall|i: int, j: int|
                            ((0 <= i < r && 0 <= j <= o.size_c) || (i == r && 0 <= j < c + 1)) && (o.at(2 * i + 1, 2 * j)
                                == 0 || o.at(2 * i + 1, 2 * j) == 1) implies #[trigger] v_joined(*self, i, j) by {
                            lemma_joined_pairs_kept(before, *self, i, j);
                            if !(i == r && j == c) {
                                assert(v_joined(before, i, j));
                            }
                        }
                    }
                }
                c = c + 1;
            }
            r = r + 1;
        }
    }

    /// Joins the labels across every decided horizontal line.
    fn join_along_h_lines(&mut self)
        requires
            old(self).wf(),
        ensures
            labels_only(*old(self), *final(self)),
            labels_nonzero(*old(self)) ==> labels_nonzero(*final(self)) && classes_kept(
                *old(self),
                *final(self),
            ),
            labels_nonzero(*old(self)) ==> forall|r: int, c: int|
                0 <= r <= old(self).size_r && 0 <= c < old(self).size_c && (old(self).at(2 * r, 2 * c + 1)
                    == 0 || old(self).at(2 * r, 2 * c + 1) == 1) ==> #[trigger] h_joined(*final(self), r, c),
    {
        let ghost o = *self;
        let ghost nz = labels_nonzero(o);
        proof {
            assert(classes_kept(o, o));
        }
        let mut r: isize = 0;
        while r < self.size_r + 1
            invariant
                0 <= r <= o.size_r + 1,
                o.wf(),
                labels_only(o, *self),
                nz == labels_nonzero(o),
                nz ==> labels_nonzero(*self) && classes_kept(o, *self),
                nz ==> forall|i: int, j: int|
                    0 <= i < r && 0 <= j < o.size_c && (o.at(2 * i, 2 * j + 1) == 0 || o.at(2 * i, 2 * j + 1) == 1)
                        ==> #[trigger] h_joined(*self, i, j),
            decreases o.size_r + 1 - r,
        {
            let mut c: isize = 0;
            while c < self.size_c
                invariant
                    0 <= r < o.size_r + 1,
                    0 <= c <= o.size_c,
                    o.wf(),
                    labels_only(o, *self),
                    nz == labels_nonzero(o),
                    nz ==> labels_nonzero(*self) && classes_kept(o, *self),
                    nz ==> forall|i: int, j: int|
                        ((0 <= i < r && 0 <= j < o.size_c) || (i == r && 0 <= j < c)) && (o.at(2 * i, 2 * j + 1)
                            == 0 || o.at(2 * i, 2 * j + 1) == 1) ==> #[trigger] h_joined(*self, i, j),
                decreases o.size_c - c,
            {
                let ghost before = *self;
                //    g
                //  +---+ -> -g = h
                //    h
                let v = self.cell(r * 2, c * 2 + 1);
                if v == 1 {
                    let g1 = self.get_group(r - 1, c);
                    let g2 = self.get_group(r, c);
                    let h = -g2;
                    self.join_group(g1, h);
                    proof {
                        if nz {
                            lemma_join_labels(before, *self, g1, h);
                            lemma_join_pair(before, *self, r - 1, c as int, r as int, c as int, g1, h);
                        }
                    }
                }
                //    g
                //  + x + ->  g = h
                //    h
                else if v == 0 {
                    let g1 = self.get_group(r - 1, c);
                    let g2 = self.get_group(r, c);
                    self.join_group(g1, g2);
                    proof {
                        if nz {
                            lemma_join_labels(before, *self, g1, g2);
                            lemma_join_pair(before, *self, r - 1, c as int, r as int, c as int, g1, g2);
                        }
                    }
                } else {
                    proof {
                        assert(classes_kept(before, *self));
                    }
                }
                proof {
                    if nz {
                        lemma_classes_trans(o, before, *self);
                        assert forall|i: int, j: int|
                            ((0 <= i < r && 0 <= j < o.size_c) || (i == r && 0 <= j < c + 1)) && (o.at(2 * i, 2 * j + 1)
                                == 0 || o.at(2 * i, 2 * j + 1) == 1) implies #[trigger] h_joined(*self, i, j) by {
                            lemma_joined_pairs_kept(before, *self, i, j);
                            if !(i == r && j == c) {
                                assert(h_joined(before, i, j));
                            }
                        }
                    }
                }
                c = c + 1;
            }
            r = r + 1;
        }
    }

    /// Joins the labels of diagonal neighbours across every inner point whose shapes
    /// all separate them, or all keep them together.
    #[verifier::spinoff_prover]
    #[verifier::rlimit(40)]
    fn join_across_points(&mut self)
        requires
            old(self).wf(),
        ensures
            labels_only(*old(self), *final(self)),
            labels_nonzero(*old(self)) ==> labels_nonzero(*final(self)) && classes_kept(
                *old(self),
                *final(self),
            ),
            labels_nonzero(*old(self)) ==> forall|r: int, c: int|
                1 <= r < old(self).size_r && 1 <= c < old(self).size_c ==> #[trigger] diagonals_joined(
                    *old(self),
                    *final(self),
                    r,
                    c,
                ),
    {
        let ghost o = *self;
        let ghost nz = labels_nonzero(o);
        proof {
            assert(classes_kept(o, o));
        }
        let mut r: isize = 1;
        while r < self.size_r
            invariant
                1 <= r,
                r <= o.size_r || o.size_r == 0,
                o.wf(),
                labels_only(o, *self),
                nz == labels_nonzero(o),
                nz ==> labels_nonzero(*self) && classes_kept(o, *self),
                nz ==> forall|i: int, j: int|
                    1 <= i < r && 1 <= j < o.size_c ==> #[trigger] diagonals_joined(o, *self, i, j),
            decreases o.size_r - r,
        {
            let mut c: isize = 1;
            while c < self.size_c
                invariant
                    1 <= r < o.size_r,
                    1 <= c,
                    c <= o.size_c || o.size_c == 0,
                    o.wf(),
                    labels_only(o, *self),
                    nz == labels_nonzero(o),
                    nz ==> labels_nonzero(*self) && classes_kept(o, *self),
                    nz ==> forall|i: int, j: int|
                        ((1 <= i < r && 1 <= j < o.size_c) || (i == r && 1 <= j < c)) ==> #[trigger] diagonals_joined(o, *self, i, j),
                decreases o.size_c - c,
            {
                let ghost before = *self;
                let p = self.cell(r * 2, c * 2);
                //  g
                //    +   -> -g = h
                //      h
                if in_possibility(p, P_DIAGONAL_RU) {
                    let g1 = self.get_group(r - 1, c - 1);
                    let g2 = self.get_group(r, c);
                    let h = -g2;
                    self.join_group(g1, h);
                    proof {
                        if nz {
                            lemma_join_labels(before, *self, g1, h);
                            lemma_join_pair(before, *self, r - 1, c - 1, r as int, c as int, g1, h);
                        }
                    }
                }
                //  g
                //    +   ->  g = h
                //      h
                else if in_possibility(p, P_DL | P_UR | P_NONE) {
                    let g1 = self.get_group(r - 1, c - 1);
                    let g2 = self.get_group(r, c);
                    self.join_group(g1, g2);
                    proof {
                        if nz {
                            lemma_join_labels(before, *self, g1, g2);
                            lemma_join_pair(before, *self, r - 1, c - 1, r as int, c as int, g1, g2);
                        }
                    }
                } else {
                    proof {
                        assert(classes_kept(before, *self));
                    }
                }
                let ghost mid = *self;
                //      g
                //    +   -> -g = h
                //  h
                if in_possibility(p, P_DIAGONAL_RD) {
                    let g1 = self.get_group(r, c - 1);
                    let g2 = self.get_group(r - 1, c);
                    let h = -g2;
                    self.join_group(g1, h);
                    proof {
                        if nz {
                            lemma_join_labels(mid, *self, g1, h);
                            lemma_join_pair(mid, *self, r as int, c - 1, r - 1, c as int, g1, h);
                        }
                    }
                }
                //      g
                //    +   ->  g = h
                //  h
                else if in_possibility(p, P_UL | P_RD | P_NONE) {
                    let g1 = self.get_group(r, c - 1);
                    let g2 = self.get_group(r - 1, c);
                    self.join_group(g1, g2);
                    proof {
                        if nz {
                            lemma_join_labels(mid, *self, g1, g2);
                            lemma_join_pair(mid, *self, r as int, c - 1, r - 1, c as int, g1, g2);
                        }
                    }
                } else {
                    proof {
                        assert(classes_kept(mid, *self));
                    }
                }
                proof {
                    if nz {
                        lemma_classes_trans(before, mid, *self);
                        lemma_classes_trans(o, before, *self);
                        lemma_joined_pairs_kept(mid, *self, r as int, c as int);
                        assert(diagonals_joined(o, *self, r as int, c as int));
                        assert forall|i: int, j: int|
                            ((1 <= i < r && 1 <= j < o.size_c) || (i == r && 1 <= j < c + 1)) implies #[trigger] diagonals_joined(o, *self, i, j) by {
                            lemma_joined_pairs_kept(before, *self, i, j);
                            if !(i == r && j == c) {
                                assert(diagonals_joined(o, before, i, j));
                            }
                        }
                    }
                }
                c = c + 1;
            }
            r = r + 1;
        }
    }
}


/// The vertical line left of cell `(r, c)` is decided against the labels on its two
/// sides: not drawn between opposite labels, or not crossed out between equal ones.
pub open spec fn v_clash(s: SolvingStage, r: int, c: int) -> bool {
    let v = s.at(2 * r + 1, 2 * c);
    &&& v != -1
    &&& {
        ||| label(s, r, c) == -label(s, r, c - 1) && v != 1
        ||| label(s, r, c) == label(s, r, c - 1) && v != 0
    }
}

/// The horizontal line above cell `(r, c)` is decided against the labels on its two
/// sides.
pub open spec fn h_clash(s: SolvingStage, r: int, c: int) -> bool {
    let v = s.at(2 * r, 2 * c + 1);
    &&& v != -1
    &&& {
        ||| label(s, r - 1, c) == -label(s, r, c) && v != 1
        ||| label(s, r - 1, c) == label(s, r, c) && v != 0
    }
}

/// Some line of `s` is decided against the labels on its two sides.
pub open spec fn labels_clash(s: SolvingStage) -> bool {
    ||| exists|r: int, c: int| 0 <= r < s.size_r && 0 <= c <= s.size_c && #[trigger] v_clash(s, r, c)
    ||| exists|r: int, c: int| 0 <= r <= s.size_r && 0 <= c < s.size_c && #[trigger] h_clash(s, r, c)
}

/// A clash with the labels survives deductions that keep the labels.
proof fn lemma_labels_clash_kept(a: SolvingStage, b: SolvingStage)
    requires
        a.wf(),
        refines(a, b),
        b.group == a.group,
        labels_clash(a),
    ensures
        labels_clash(b),
{
    if exists|r: int, c: int| 0 <= r < a.size_r && 0 <= c <= a.size_c && #[trigger] v_clash(a, r, c) {
        let (r, c) = choose|r: int, c: int| 0 <= r < a.size_r && 0 <= c <= a.size_c && #[trigger] v_clash(a, r, c);
        lemma_offset_kind(r, c, 0, -1);
        assert(a.in_grid(2 * r + 1, 2 * c));
        assert(b.at(2 * r + 1, 2 * c) == a.at(2 * r + 1, 2 * c));
        assert(v_clash(b, r, c));
    } else {
        let (r, c) = choose|r: int, c: int| 0 <= r <= a.size_r && 0 <= c < a.size_c && #[trigger] h_clash(a, r, c);
        lemma_offset_kind(r, c, -1, 0);
        assert(a.in_grid(2 * r, 2 * c + 1));
        assert(b.at(2 * r, 2 * c + 1) == a.at(2 * r, 2 * c + 1));
        assert(h_clash(b, r, c));
    }
}

impl SolvingStage {
    /// One line decided from the labels, from `before` to `self`: lines decided take 0 or
    /// 1, and a contradiction found is a clash with the labels.
    proof fn lemma_label_step(self, o: SolvingStage, before: SolvingStage)
        requires
            o.wf(),
            before.wf(),
            before.size_r == o.size_r,
            before.size_c == o.size_c,
            lines_binary(o, before),
            lines_binary(before, self),
            refines(before, self),
            self.group == before.group,
            o.result && !before.result ==> labels_clash(before),
            before.result && !self.result ==> labels_clash(self),
        ensures
            lines_binary(o, self),
            o.result && !self.result ==> labels_clash(self),
    {
        lemma_lines_binary_trans(o, before, self);
        if o.result && !self.result && !before.result {
            lemma_labels_clash_kept(before, self);
        }
    }
}

impl SolvingStage {
    /// Decides every vertical line from the labels on its two sides.
    fn v_lines_from_labels(&mut self, Ghost(s0): Ghost<SolvingStage>, acc: u32) -> (res: u32)
        requires
            s0.wf(),
            s0.headroom(),
            progress(s0, *old(self), acc as int),
        ensures
            pattern_frame(s0, *old(self), *final(self), acc as int, res as int),
            old(self).result && !final(self).result ==> labels_clash(*final(self)),
            lines_binary(*old(self), *final(self)),
            forall|r: int, c: int|
                0 <= r < s0.size_r && 0 <= c <= s0.size_c ==> #[trigger] v_line_follows_labels(
                    *final(self),
                    r,
                    c,
                ),
    {
        let ghost o = *self;
        let mut counter = acc;
        proof {
            assert forall|a: SolvingStage| a.wf() && #[trigger] refines(a, o) implies refines(a, o) by {}
            lemma_lines_binary_same(o, o);
        }
        let mut r: isize = 0;
        while r < self.size_r
            invariant
                0 <= r <= s0.size_r,
                s0.wf(),
                s0.headroom(),
                progress(s0, *self, counter as int),
                counter >= acc,
                counter == acc ==> self.checked == o.checked,
                forall|a: SolvingStage| a.wf() && #[trigger] refines(a, o) ==> refines(a, *self),
                self.group == o.group,
                o.wf(),
                self.size_r == o.size_r,
                self.size_c == o.size_c,
                o.result && !self.result ==> labels_clash(*self),
                lines_binary(o, *self),
                forall|i: int, j: int|
                    0 <= i < r && 0 <= j <= s0.size_c ==> #[trigger] v_line_follows_labels(*self, i, j),
            decreases s0.size_r - r,
        {
            let mut c: isize = 0;
            while c < self.size_c + 1
                invariant
                    0 <= r < s0.size_r,
                    0 <= c <= s0.size_c + 1,
                    s0.wf(),
                    s0.headroom(),
                    progress(s0, *self, counter as int),
                    counter >= acc,
                    counter == acc ==> self.checked == o.checked,
                    forall|a: SolvingStage| a.wf() && #[trigger] refines(a, o) ==> refines(a, *self),
                    self.group == o.group,
                    o.wf(),
                    self.size_r == o.size_r,
                    self.size_c == o.size_c,
                    o.result && !self.result ==> labels_clash(*self),
                    lines_binary(o, *self),
                o.wf(),
                self.size_r == o.size_r,
                self.size_c == o.size_c,
                o.result && !self.result ==> labels_clash(*self),
                lines_binary(o, *self),
                    forall|i: int, j: int|
                        (0 <= i < r && 0 <= j <= s0.size_c) || (i == r && 0 <= j < c) ==> #[trigger] v_line_follows_labels(*self, i, j),
                decreases s0.size_c + 1 - c,
            {
                let ghost before = *self;
                proof {
                    lemma_offset_kind(r as int, c as int, 0, -1);
                }
                //    +
                //  g   -g
                //    +
                if self.get_group(r, c) == -self.get_group(r, c - 1) {
                    let ghost pre = *self;
                    counter = self.step_line(Ghost(s0), counter, idx_v_line(r, c), 1);
                    proof {
                        lemma_progress_refl(pre);
                        if pre.result && !self.result {
                            assert(v_clash(*self, r as int, c as int));
                        }
                        self.lemma_label_step(o, pre);
                    }
                }
                let ghost mid = *self;
                //    +
                //  g   g
                //    +
                if self.get_group(r, c) == self.get_group(r, c - 1) {
                    let ghost pre = *self;
                    counter = self.step_line(Ghost(s0), counter, idx_v_line(r, c), 0);
                    proof {
                        lemma_progress_refl(pre);
                        if pre.result && !self.result {
                            assert(v_clash(*self, r as int, c as int));
                        }
                        self.lemma_label_step(o, pre);
                    }
                }
                proof {
                    lemma_progress_refl(before);
                    lemma_progress_refl(mid);
                    assert(refines(before, *self));
                    lemma_follows_kept(before, *self);
                    assert(refines(mid, *self));
                    assert(v_line_follows_labels(*self, r as int, c as int));
                    assert forall|i: int, j: int|
                        (0 <= i < r && 0 <= j <= s0.size_c) || (i == r && 0 <= j < c) implies #[trigger] v_line_follows_labels(*self, i, j) by {
                        if !(i == r && j == c) {
                            assert(v_line_follows_labels(before, i, j));
                        }
                    }
                }
                c = c + 1;
            }
            r = r + 1;
        }
        counter
    }

    /// Decides every horizontal line from the labels on its two sides.
    fn h_lines_from_labels(&mut self, Ghost(s0): Ghost<SolvingStage>, acc: u32) -> (res: u32)
        requires
            s0.wf(),
            s0.headroom(),
            progress(s0, *old(self), acc as int),
        ensures
            pattern_frame(s0, *old(self), *final(self), acc as int, res as int),
            old(self).result && !final(self).result ==> labels_clash(*final(self)),
            lines_binary(*old(self), *final(self)),
            forall|r: int, c: int|
                0 <= r <= s0.size_r && 0 <= c < s0.size_c ==> #[trigger] h_line_follows_labels(
                    *final(self),
                    r,
                    c,
                ),
    {
        let ghost o = *self;
        let mut counter = acc;
        proof {
            assert forall|a: SolvingStage| a.wf() && #[trigger] refines(a, o) implies refines(a, o) by {}
            lemma_lines_binary_same(o, o);
        }
        let mut r: isize = 0;
        while r < self.size_r + 1
            invariant
                0 <= r <= s0.size_r + 1,
                s0.wf(),
                s0.headroom(),
                progress(s0, *self, counter as int),
                counter >= acc,
                counter == acc ==> self.checked == o.checked,
                forall|a: SolvingStage| a.wf() && #[trigger] refines(a, o) ==> refines(a, *self),
                self.group == o.group,
                o.wf(),
                self.size_r == o.size_r,
                self.size_c == o.size_c,
                o.result && !self.result ==> labels_clash(*self),
                lines_binary(o, *self),
                forall|i: int, j: int|
                    0 <= i < r && 0 <= j < s0.size_c ==> #[trigger] h_line_follows_labels(*self, i, j),
            decreases s0.size_r + 1 - r,
        {
            let mut c: isize = 0;
            while c < self.size_c
                invariant
                    0 <= r < s0.size_r + 1,
                    0 <= c <= s0.size_c,
                    s0.wf(),
                    s0.headroom(),
                    progress(s0, *self, counter as int),
                    counter >= acc,
                    counter == acc ==> self.checked == o.checked,
                    forall|a: SolvingStage| a.wf() && #[trigger] refines(a, o) ==> refines(a, *self),
                    self.group == o.group,
                    o.wf(),
                    self.size_r == o.size_r,
                    self.size_c == o.size_c,
                    o.result && !self.result ==> labels_clash(*self),
                    lines_binary(o, *self),
                o.wf(),
                self.size_r == o.size_r,
                self.size_c == o.size_c,
                o.result && !self.result ==> labels_clash(*self),
                lines_binary(o, *self),
                    forall|i: int, j: int|
                        (0 <= i < r && 0 <= j < s0.size_c) || (i == r && 0 <= j < c) ==> #[trigger] h_line_follows_labels(*self, i, j),
                decreases s0.size_c - c,
            {
                let ghost before = *self;
                proof {
                    lemma_offset_kind(r as int, c as int, -1, 0);
                }
                //    g
                //  +   +
                //   -g
                if self.get_group(r - 1, c) == -self.get_group(r, c) {
                    let ghost pre = *self;
                    counter = self.step_line(Ghost(s0), counter, idx_h_line(r, c), 1);
                    proof {
                        lemma_progress_refl(pre);
                        if pre.result && !self.result {
                            assert(h_clash(*self, r as int, c as int));
                        }
                        self.lemma_label_step(o, pre);
                    }
                }
                let ghost mid = *self;
                //    g
                //  + x + ->  g = h
                //    h
                if self.get_group(r - 1, c) == self.get_group(r, c) {
                    let ghost pre = *self;
                    counter = self.step_line(Ghost(s0), counter, idx_h_line(r, c), 0);
                    proof {
                        lemma_progress_refl(pre);
                        if pre.result && !self.result {
                            assert(h_clash(*self, r as int, c as int));
                        }
                        self.lemma_label_step(o, pre);
                    }
                }
                proof {
                    lemma_progress_refl(before);
                    lemma_progress_refl(mid);
                    assert(refines(before, *self));
                    lemma_follows_kept(before, *self);
                    assert(refines(mid, *self));
                    assert(h_line_follows_labels(*self, r as int, c as int));
                    assert forall|i: int, j: int|
                        (0 <= i < r && 0 <= j < s0.size_c) || (i == r && 0 <= j < c) implies #[trigger] h_line_follows_labels(*self, i, j) by {
                        if !(i == r && j == c) {
                            assert(h_line_follows_labels(before, i, j));
                        }
                    }
                }
                c = c + 1;
            }
            r = r + 1;
        }
        counter
    }
}


impl SolvingStage {
    /// Restricts every inner point from the labels of its diagonal neighbours.
    fn points_from_labels(&mut self, Ghost(s0): Ghost<SolvingStage>, acc: u32) -> (res: u32)
        requires
            s0.wf(),
            s0.headroom(),
            progress(s0, *old(self), acc as int),
        ensures
            pattern_frame(s0, *old(self), *final(self), acc as int, res as int),
            final(self).result == old(self).result,
            lines_binary(*old(self), *final(self)),
            forall|r: int, c: int|
                1 <= r < s0.size_r && 1 <= c < s0.size_c ==> #[trigger] point_follows_labels(
                    *final(self),
                    r,
                    c,
                ),
    {
        let ghost o = *self;
        let mut counter = acc;
        proof {
            assert forall|a: SolvingStage| a.wf() && #[trigger] refines(a, o) implies refines(a, o) by {}
            lemma_lines_binary_same(o, o);
        }
        let mut r: isize = 1;
        while r < self.size_r
            invariant
                1 <= r,
                r <= s0.size_r || s0.size_r == 0,
                s0.wf(),
                s0.headroom(),
                progress(s0, *self, counter as int),
                counter >= acc,
                counter == acc ==> self.checked == o.checked,
                forall|a: SolvingStage| a.wf() && #[trigger] refines(a, o) ==> refines(a, *self),
                self.group == o.group,
                self.result == o.result,
                o.size_r == s0.size_r,
                o.size_c == s0.size_c,
                lines_binary(o, *self),
                forall|i: int, j: int|
                    1 <= i < r && 1 <= j < s0.size_c ==> #[trigger] point_follows_labels(*self, i, j),
            decreases s0.size_r - r,
        {
            let mut c: isize = 1;
            while c < self.size_c
                invariant
                    1 <= r < s0.size_r,
                    1 <= c,
                    c <= s0.size_c || s0.size_c == 0,
                    s0.wf(),
                    s0.headroom(),
                    progress(s0, *self, counter as int),
                    counter >= acc,
                    counter == acc ==> self.checked == o.checked,
                    forall|a: SolvingStage| a.wf() && #[trigger] refines(a, o) ==> refines(a, *self),
                    self.group == o.group,
                    self.result == o.result,
                    o.size_r == s0.size_r,
                    o.size_c == s0.size_c,
                    lines_binary(o, *self),
                self.result == o.result,
                o.size_r == s0.size_r,
                o.size_c == s0.size_c,
                lines_binary(o, *self),
                    forall|i: int, j: int|
                        (1 <= i < r && 1 <= j < s0.size_c) || (i == r && 1 <= j < c) ==> #[trigger] point_follows_labels(*self, i, j),
                decreases s0.size_c - c,
            {
                let ghost before = *self;
                let ghost pr = 2 * r as int;
                let ghost pc = 2 * c as int;
                proof {
                    lemma_offset_kind(r as int, c as int, 0, 0);
                    lemma_progress_refl(before);
                }
                //  g
                //    +
                //     -g
                if self.get_group(r - 1, c - 1) == -self.get_group(r, c) {
                    let ghost pq = *self;
                    counter = self.step_restrict(Ghost(s0), counter, idx_point(r, c), P_DIAGONAL_RU);
                    proof {
                        lemma_progress_refl(pq);
                        lemma_lines_binary_trans(o, pq, *self);
                    }
                    proof {
                        lemma_allows_only(0, 0, P_DIAGONAL_RU, before.at(pr, pc));
                    }
                }
                //  g
                //    +
                //      g
                else if self.get_group(r - 1, c - 1) == self.get_group(r, c) {
                    let ghost pq = *self;
                    counter = self.step_restrict(Ghost(s0), counter, idx_point(r, c), P_DL | P_UR | P_NONE);
                    proof {
                        lemma_progress_refl(pq);
                        lemma_lines_binary_trans(o, pq, *self);
                    }
                    proof {
                        lemma_allows_only(0, 0, P_DL | P_UR | P_NONE, before.at(pr, pc));
                    }
                }
                let ghost mid = *self;
                proof {
                    lemma_progress_refl(mid);
                }
                //      g
                //    +
                // -g
                if self.get_group(r, c - 1) == -self.get_group(r - 1, c) {
                    let ghost pq = *self;
                    counter = self.step_restrict(Ghost(s0), counter, idx_point(r, c), P_DIAGONAL_RD);
                    proof {
                        lemma_progress_refl(pq);
                        lemma_lines_binary_trans(o, pq, *self);
                    }
                    proof {
                        lemma_allows_only(0, 0, P_DIAGONAL_RD, mid.at(pr, pc));
                    }
                }
                //      g
                //    +
                //  g
                else if self.get_group(r, c - 1) == self.get_group(r - 1, c) {
                    let ghost pq = *self;
                    counter = self.step_restrict(Ghost(s0), counter, idx_point(r, c), P_UL | P_RD | P_NONE);
                    proof {
                        lemma_progress_refl(pq);
                        lemma_lines_binary_trans(o, pq, *self);
                    }
                    proof {
                        lemma_allows_only(0, 0, P_UL | P_RD | P_NONE, mid.at(pr, pc));
                    }
                }
                proof {
                    assert(refines(before, *self));
                    assert(refines(mid, *self));
                    let x = mid.at(pr, pc);
                    let y = self.at(pr, pc);
                    assert(y & x == y);
                    lemma_allows_only(x, y, P_DIAGONAL_RU, 0);
                    lemma_allows_only(x, y, P_DL | P_UR | P_NONE, 0);
                    assert(point_follows_labels(*self, r as int, c as int));
                    lemma_follows_kept(before, *self);
                    assert forall|i: int, j: int|
                        (1 <= i < r && 1 <= j < s0.size_c) || (i == r && 1 <= j < c) implies #[trigger] point_follows_labels(*self, i, j) by {
                        assert(point_follows_labels(before, i, j));
                    }
                }
                c = c + 1;
            }
            r = r + 1;
        }
        counter
    }

    /// Deductions from the region labels. First the labels are joined across every
    /// decided line and every inner point whose shapes decide its diagonals; then every
    /// line between opposite labels is drawn, every line between equal labels is crossed
    /// out, and every inner point keeps only the shapes its diagonal labels allow.
    /// Returns the score gained. On a board with no label 0 (as every new board), the
    /// labels left agree with every line decided before, unless the board turned
    /// contradictory, and labels only merge: positions whose labels named one class
    /// still do. The board turns contradictory only when a line is decided against the
    /// labels on its two sides, and lines it decides are drawn (1) or crossed out (0).
    pub fn check_group(&mut self) -> (res: u32)
        requires
            old(self).wf(),
            old(self).headroom(),
        ensures
            progress(*old(self), *final(self), res as int),
            forall|r: int, c: int|
                0 <= r < old(self).size_r && 0 <= c <= old(self).size_c ==> #[trigger] v_line_follows_labels(
                    *final(self),
                    r,
                    c,
                ),
            forall|r: int, c: int|
                0 <= r <= old(self).size_r && 0 <= c < old(self).size_c ==> #[trigger] h_line_follows_labels(
                    *final(self),
                    r,
                    c,
                ),
            forall|r: int, c: int|
                1 <= r < old(self).size_r && 1 <= c < old(self).size_c ==> #[trigger] point_follows_labels(
                    *final(self),
                    r,
                    c,
                ),
            labels_nonzero(*old(self)) ==> labels_nonzero(*final(self)),
            labels_nonzero(*old(self)) ==> classes_kept(*old(self), *final(self)),
            old(self).result && !final(self).result ==> labels_clash(*final(self)),
            lines_binary(*old(self), *final(self)),
            res == 0 ==> final(self).checked == old(self).checked,
            labels_nonzero(*old(self)) ==> forall|r: int, c: int|
                0 <= r < old(self).size_r && 0 <= c <= old(self).size_c && final(self).result
                    ==> #[trigger] v_line_agrees(*final(self), r, c, old(self).at(2 * r + 1, 2 * c)),
            labels_nonzero(*old(self)) ==> forall|r: int, c: int|
                0 <= r <= old(self).size_r && 0 <= c < old(self).size_c && final(self).result
                    ==> #[trigger] h_line_agrees(*final(self), r, c, old(self).at(2 * r, 2 * c + 1)),
            labels_nonzero(*old(self)) ==> forall|r: int, c: int|
                1 <= r < old(self).size_r && 1 <= c < old(self).size_c ==> #[trigger] diagonals_joined(
                    *old(self),
                    *final(self),
                    r,
                    c,
                ),
    {
        let ghost s0 = *old(self);
        // set group number
        self.join_along_v_lines();
        let ghost sv = *self;
        self.join_along_h_lines();
        let ghost sh = *self;
        self.join_across_points();
        let ghost s1 = *self;
        proof {
            lemma_same_grid_progress(s0, s1);
            lemma_potential_same(s0.stage@, s1.stage@);
        }
        // set lines and points number
        let counter = self.v_lines_from_labels(Ghost(s0), 0);
        let ghost s2 = *self;
        let counter = self.h_lines_from_labels(Ghost(s0), counter);
        let ghost s3 = *self;
        let counter = self.points_from_labels(Ghost(s0), counter);
        proof {
            lemma_progress_refl(s2);
            lemma_progress_refl(s3);
            assert(refines(s2, *self));
            assert(refines(s3, *self));
            lemma_follows_kept(s2, *self);
            lemma_follows_kept(s3, *self);
            lemma_lines_binary_same(s0, s1);
            lemma_progress_refl(s1);
            lemma_lines_binary_trans(s0, s1, s2);
            lemma_lines_binary_trans(s0, s2, s3);
            lemma_lines_binary_trans(s0, s3, *self);
            if s0.result && !self.result {
                if !s2.result {
                    lemma_labels_clash_kept(s2, s3);
                }
                lemma_labels_clash_kept(s3, *self);
            }
            assert forall|r: int, c: int|
                0 <= r < s0.size_r && 0 <= c <= s0.size_c implies #[trigger] v_line_follows_labels(*self, r, c) by {
                assert(v_line_follows_labels(s2, r, c));
            }
            assert forall|r: int, c: int|
                0 <= r <= s0.size_r && 0 <= c < s0.size_c implies #[trigger] h_line_follows_labels(*self, r, c) by {
                assert(h_line_follows_labels(s3, r, c));
            }
            if labels_nonzero(s0) {
                lemma_classes_trans(sv, sh, s1);
                lemma_classes_trans(s0, sv, s1);
                lemma_same_labels_kept(s1, *self);
                lemma_classes_trans(s0, s1, *self);
                assert forall|r1: int, c1: int, r2: int, c2: int|
                    same_class(label(s0, r1, c1), label(s0, r2, c2)) implies #[trigger] same_class(
                    label(*self, r1, c1),
                    label(*self, r2, c2),
                ) by {
                    assert(same_class(label(s1, r1, c1), label(s1, r2, c2)));
                }
                assert(self.group == s1.group);
                assert forall|r: int, c: int| 0 <= r < self.size_r && 0 <= c < self.size_c implies #[trigger] self.group_at(r, c) != 0 by {
                    assert(s1.group_at(r, c) != 0);
                }
                assert forall|r: int, c: int|
                    0 <= r < s0.size_r && 0 <= c <= s0.size_c && self.result implies #[trigger] v_line_agrees(
                    *self,
                    r,
                    c,
                    s0.at(2 * r + 1, 2 * c),
                ) by {
                    lemma_offset_kind(r, c, 0, -1);
                    let v = s0.at(2 * r + 1, 2 * c);
                    if v == 0 || v == 1 {
                        assert(v_joined(sv, r, c));
                        lemma_joined_pairs_kept(sv, s1, r, c);
                        assert(label(*self, r, c) == label(s1, r, c));
                        assert(label(*self, r, c - 1) == label(s1, r, c - 1));
                        assert(v_line_follows_labels(*self, r, c));
                        assert(s0.in_grid(2 * r + 1, 2 * c));
                        assert(self.at(2 * r + 1, 2 * c) == v);
                    }
                }
                assert forall|r: int, c: int|
                    0 <= r <= s0.size_r && 0 <= c < s0.size_c && self.result implies #[trigger] h_line_agrees(
                    *self,
                    r,
                    c,
                    s0.at(2 * r, 2 * c + 1),
                ) by {
                    lemma_offset_kind(r, c, -1, 0);
                    let v = s0.at(2 * r, 2 * c + 1);
                    if v == 0 || v == 1 {
                        assert(h_joined(sh, r, c));
                        lemma_joined_pairs_kept(sh, s1, r, c);
                        assert(label(*self, r - 1, c) == label(s1, r - 1, c));
                        assert(label(*self, r, c) == label(s1, r, c));
                        assert(h_line_follows_labels(*self, r, c));
                        assert(s0.in_grid(2 * r, 2 * c + 1));
                        assert(self.at(2 * r, 2 * c + 1) == v);
                    }
                }
                assert forall|r: int, c: int|
                    1 <= r < s0.size_r && 1 <= c < s0.size_c implies #[trigger] diagonals_joined(s0, *self, r, c) by {
                    assert(diagonals_joined(sh, s1, r, c));
                    assert(label(*self, r - 1, c - 1) == label(s1, r - 1, c - 1));
                    assert(label(*self, r, c) == label(s1, r, c));
                    assert(label(*self, r, c - 1) == label(s1, r, c - 1));
                    assert(label(*self, r - 1, c) == label(s1, r - 1, c));
                }
            }
        }
        counter
    }
}

} // verus!
