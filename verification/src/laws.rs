use vstd::prelude::*;
use crate::blocks::{block_in, border_count};
use crate::grid::{is_number_pos, is_point_pos, shapes_left};
use crate::merge::merged_value;
use crate::rotation::{rot1, rot_spec};
use crate::stage::SolvingStage;

verus! {

proof fn lemma_rot1_bits(x: i8)
    by (bit_vector)
    ensures
        rot1(x) & 127 == rot1(x),
        rot1(rot1(rot1(rot1(x & 127)))) == x & 127,
        (x & 127) & 127 == x & 127,
{
}

/// Turning the shapes of a point by `a` and then by `b` quarter turns is turning them
/// by `a + b`; in particular four quarter turns give the shapes back.
pub proof fn law_rot_p_compose(p: i8, a: u8, b: u8)
    requires
        a + b <= u8::MAX,
    ensures
        rot_spec(rot_spec(p, a), b) == rot_spec(p, (a + b) as u8),
        rot_spec(p, 4) == rot_spec(p, 0),
{
    let q = p & 127;
    lemma_rot1_bits(p);
    lemma_rot1_bits(q);
    lemma_rot1_bits(rot1(q));
    lemma_rot1_bits(rot1(rot1(q)));
    lemma_rot1_bits(rot1(rot1(rot1(q))));
    let x = rot_spec(p, a);
    assert(x & 127 == x);
    assert((a + b) as u8 % 4 == (a % 4 + b % 4) % 4);
}

proof fn lemma_rot1_count(x: i8)
    by (bit_vector)
    ensures
        (rot1(x) & 1 == 1) == (x & 1 == 1),
        (rot1(x) & 16 == 16) == (x & 2 == 2),
        (rot1(x) & 32 == 32) == (x & 4 == 4),
        (rot1(x) & 2 == 2) == (x & 8 == 8),
        (rot1(x) & 64 == 64) == (x & 16 == 16),
        (rot1(x) & 4 == 4) == (x & 32 == 32),
        (rot1(x) & 8 == 8) == (x & 64 == 64),
        ((x & 127) & 1 == 1) == (x & 1 == 1),
        ((x & 127) & 2 == 2) == (x & 2 == 2),
        ((x & 127) & 4 == 4) == (x & 4 == 4),
        ((x & 127) & 8 == 8) == (x & 8 == 8),
        ((x & 127) & 16 == 16) == (x & 16 == 16),
        ((x & 127) & 32 == 32) == (x & 32 == 32),
        ((x & 127) & 64 == 64) == (x & 64 == 64),
{
}

/// A quarter turn moves shapes to shapes: a point allows as many shapes once turned.
pub proof fn law_rot_p_keeps_count(p: i8, rot: u8)
    ensures
        shapes_left(rot_spec(p, rot)) == shapes_left(p),
{
    let q = p & 127;
    lemma_rot1_count(p);
    lemma_rot1_count(q);
    lemma_rot1_count(rot1(q));
    lemma_rot1_count(rot1(rot1(q)));
}

/// Merging a board into itself changes no position of its grid.
pub proof fn law_marge_self(o: SolvingStage)
    ensures
        forall|i: int, j: int| #[trigger] merged_value(o, o, i, j) == o.at(i, j),
{
    assert forall|i: int, j: int| #[trigger] merged_value(o, o, i, j) == o.at(i, j) by {
        if is_number_pos(i, j) && o.at(i, j) == -1 {
        } else if is_point_pos(i, j) && o.at(i, j) != o.at(i, j) {
        }
    }
}

/// The line at grid position `(x, y)` when the loop runs along the border of the
/// region `b`: drawn (1) between a cell of the region and one outside it, crossed out
/// (0) elsewhere.
pub open spec fn border_line(b: Seq<Vec<bool>>, rows: int, cols: int, x: int, y: int) -> i8 {
    if x % 2 == 1 {
        if block_in(b, rows, cols, (x - 1) / 2, y / 2 - 1) != block_in(b, rows, cols, (x - 1) / 2, y / 2) {
            1
        } else {
            0
        }
    } else {
        if block_in(b, rows, cols, x / 2 - 1, (y - 1) / 2) != block_in(b, rows, cols, x / 2, (y - 1) / 2) {
            1
        } else {
            0
        }
    }
}

/// One if the line at `(x, y)` of the border of `b` is drawn.
pub open spec fn drawn(b: Seq<Vec<bool>>, rows: int, cols: int, x: int, y: int) -> int {
    if border_line(b, rows, cols, x, y) == 1 {
        1
    } else {
        0
    }
}

/// Drawing the border of a region satisfies every clue counted from it: each cell has
/// exactly as many drawn sides as its clue says.
pub proof fn law_border_satisfies_clues(b: Seq<Vec<bool>>, rows: int, cols: int, r: int, c: int)
    requires
        0 <= r < rows,
        0 <= c < cols,
    ensures
        drawn(b, rows, cols, 2 * r + 1, 2 * c) + drawn(b, rows, cols, 2 * r + 1, 2 * c + 2) + drawn(
            b,
            rows,
            cols,
            2 * r,
            2 * c + 1,
        ) + drawn(b, rows, cols, 2 * r + 2, 2 * c + 1) == border_count(b, rows, cols, r, c),
{
    assert((2 * r + 1) % 2 == 1);
    assert((2 * r) % 2 == 0);
    assert((2 * r + 2) % 2 == 0);
    assert((2 * r + 1 - 1) / 2 == r);
    assert((2 * c) / 2 == c);
    assert((2 * c + 2) / 2 == c + 1);
    assert((2 * c + 1 - 1) / 2 == c);
    assert((2 * r) / 2 == r);
    assert((2 * r + 2) / 2 == r + 1);
}

} // verus!
