use vstd::prelude::*;

verus! {

/// A point may still be passed by no line.
pub const P_NONE: i8 = 1;
/// A point may still join its upper and right lines.
pub const P_UR: i8 = 2;
/// A point may still join its upper and lower lines.
pub const P_UD: i8 = 4;
/// A point may still join its upper and left lines.
pub const P_UL: i8 = 8;
/// A point may still join its right and lower lines.
pub const P_RD: i8 = 16;
/// A point may still join its right and left lines.
pub const P_RL: i8 = 32;
/// A point may still join its lower and left lines.
pub const P_DL: i8 = 64;
/// Every shape a point can take.
pub const P_ALL: i8 = 127;
/// `P_UD | P_UL | P_RD | P_RL`: the upper-left and lower-right cells are on opposite sides.
pub const P_DIAGONAL_RU: i8 = 60;
/// `P_UR | P_UD | P_RL | P_DL`: the upper-right and lower-left cells are on opposite sides.
pub const P_DIAGONAL_RD: i8 = 102;
/// `P_RD | P_RL | P_DL | P_NONE`: no line leaves the point upwards.
pub const P_EDGE_U: i8 = 113;
/// `P_UR | P_UD | P_RD | P_NONE`: no line leaves the point to the left.
pub const P_EDGE_L: i8 = 23;
/// `P_UR | P_UD | P_UL`: a line leaves the point upwards.
pub const P_LINE_U: i8 = 14;
/// `P_UR | P_RD | P_RL`: a line leaves the point to the right.
pub const P_LINE_R: i8 = 50;
/// `P_UD | P_RD | P_DL`: a line leaves the point downwards.
pub const P_LINE_D: i8 = 84;
/// `P_UL | P_RL | P_DL`: a line leaves the point to the left.
pub const P_LINE_L: i8 = 104;
/// `P_LINE_U | P_LINE_L`.
pub const P_OR_UL: i8 = 110;
/// `P_EDGE_U & P_EDGE_L`: no line leaves the point upwards or to the left.
pub const P_CORNER_UL: i8 = 17;

/// A position on the board grid: row first, column second.
#[derive(Clone, Copy, Debug)]
pub struct RowCol {
    pub r: isize,
    pub c: isize,
}

pub open spec fn fits_isize(x: int) -> bool {
    isize::MIN <= x <= isize::MAX
}

/// Grid position of the point at the upper-left corner of cell `(r, c)`.
pub fn idx_point(r: isize, c: isize) -> (res: RowCol)
    requires
        fits_isize(r * 2),
        fits_isize(c * 2),
    ensures
        res.r == r * 2,
        res.c == c * 2,
{
    RowCol { r: r * 2, c: c * 2 }
}

/// Grid position of the vertical line on the left side of cell `(r, c)`.
pub fn idx_v_line(r: isize, c: isize) -> (res: RowCol)
    requires
        fits_isize(r * 2 + 1),
        fits_isize(c * 2),
    ensures
        res.r == r * 2 + 1,
        res.c == c * 2,
{
    RowCol { r: r * 2 + 1, c: c * 2 }
}

/// Grid position of the horizontal line on the upper side of cell `(r, c)`.
pub fn idx_h_line(r: isize, c: isize) -> (res: RowCol)
    requires
        fits_isize(r * 2),
        fits_isize(c * 2 + 1),
    ensures
        res.r == r * 2,
        res.c == c * 2 + 1,
{
    RowCol { r: r * 2, c: c * 2 + 1 }
}

/// Grid position of the number of cell `(r, c)`.
pub fn idx_number(r: isize, c: isize) -> (res: RowCol)
    requires
        fits_isize(r * 2 + 1),
        fits_isize(c * 2 + 1),
    ensures
        res.r == r * 2 + 1,
        res.c == c * 2 + 1,
{
    RowCol { r: r * 2 + 1, c: c * 2 + 1 }
}

/// Row of `target` turned `rot` quarter turns clockwise around `center`.
pub open spec fn rot_row(tr: int, tc: int, cr: int, cc: int, rot: int) -> int {
    let dr = tr - cr;
    let dc = tc - cc;
    if rot % 4 == 0 {
        cr + dr
    } else if rot % 4 == 1 {
        cr + dc
    } else if rot % 4 == 2 {
        cr - dr
    } else {
        cr - dc
    }
}

/// Column of `target` turned `rot` quarter turns clockwise around `center`.
pub open spec fn rot_col(tr: int, tc: int, cr: int, cc: int, rot: int) -> int {
    let dr = tr - cr;
    let dc = tc - cc;
    if rot % 4 == 0 {
        cc + dc
    } else if rot % 4 == 1 {
        cc - dr
    } else if rot % 4 == 2 {
        cc - dc
    } else {
        cc + dr
    }
}

/// The computation of `rot_rc` stays within `isize`.
pub open spec fn rot_rc_fits(target: RowCol, center: RowCol, rot: u8) -> bool {
    &&& fits_isize(target.r - center.r)
    &&& fits_isize(target.c - center.c)
    &&& fits_isize(rot_row(target.r as int, target.c as int, center.r as int, center.c as int, rot as int))
    &&& fits_isize(rot_col(target.r as int, target.c as int, center.r as int, center.c as int, rot as int))
}

/// Turns `target` by `rot` quarter turns clockwise around `center`.
pub fn rot_rc(target: RowCol, center: RowCol, rot: u8) -> (res: RowCol)
    requires
        rot_rc_fits(target, center, rot),
    ensures
        res.r == rot_row(target.r as int, target.c as int, center.r as int, center.c as int, rot as int),
        res.c == rot_col(target.r as int, target.c as int, center.r as int, center.c as int, rot as int),
{
    let dr: isize = target.r - center.r;
    let dc: isize = target.c - center.c;
    let k: u8 = rot % 4;
    let r: isize = if k == 0 {
        center.r + dr
    } else if k == 1 {
        center.r + dc
    } else if k == 2 {
        center.r - dr
    } else {
        center.r - dc
    };
    let c: isize = if k == 0 {
        center.c + dc
    } else if k == 1 {
        center.c - dr
    } else if k == 2 {
        center.c - dc
    } else {
        center.c + dr
    };
    RowCol { r, c }
}

/// Turning by `a` and then by `b` quarter turns is turning by `a + b`.
pub proof fn lemma_rot_rc_compose(tr: int, tc: int, cr: int, cc: int, a: int, b: int)
    requires
        a >= 0,
        b >= 0,
    ensures
        rot_row(rot_row(tr, tc, cr, cc, a), rot_col(tr, tc, cr, cc, a), cr, cc, b)
            == rot_row(tr, tc, cr, cc, a + b),
        rot_col(rot_row(tr, tc, cr, cc, a), rot_col(tr, tc, cr, cc, a), cr, cc, b)
            == rot_col(tr, tc, cr, cc, a + b),
{
    assert((a + b) % 4 == (a % 4 + b % 4) % 4) by (nonlinear_arith)
        requires a >= 0, b >= 0;
}

/// Turning a neighbour of `center` (at most one step away in each direction) keeps it a
/// neighbour, and swaps which offsets vanish on odd turns.
pub proof fn lemma_turn_near(tr: int, tc: int, cr: int, cc: int, rot: int)
    requires
        0 <= rot,
        -1 <= tr - cr <= 1,
        -1 <= tc - cc <= 1,
    ensures
        -1 <= rot_row(tr, tc, cr, cc, rot) - cr <= 1,
        -1 <= rot_col(tr, tc, cr, cc, rot) - cc <= 1,
        (rot_row(tr, tc, cr, cc, rot) == cr) == (if rot % 2 == 0 {
            tr == cr
        } else {
            tc == cc
        }),
        (rot_col(tr, tc, cr, cc, rot) == cc) == (if rot % 2 == 0 {
            tc == cc
        } else {
            tr == cr
        }),
{
}

/// The one-quarter turn of each shape bit, clockwise: `UR -> RD -> DL -> UL -> UR`,
/// `UD <-> RL`, `NONE -> NONE`.
pub open spec fn rot1(p: i8) -> i8 {
    (p & 1) | ((p & 2) << 3u8) | ((p & 4) << 3u8) | ((p & 8) >> 2u8) | ((p & 16) << 2u8) | ((p
        & 32) >> 3u8) | ((p & 64) >> 3u8)
}

/// The shapes of `p` turned by `rot` quarter turns; the bit that no shape uses is dropped.
pub open spec fn rot_spec(p: i8, rot: u8) -> i8 {
    if rot % 4 == 0 {
        p & 127
    } else if rot % 4 == 1 {
        rot1(p & 127)
    } else if rot % 4 == 2 {
        rot1(rot1(p & 127))
    } else {
        rot1(rot1(rot1(p & 127)))
    }
}

/// The `i`-th shape bit, in the order `NONE, UR, UD, UL, RD, RL, DL`.
pub open spec fn shape_bit(i: int) -> i8 {
    if i == 0 {
        1
    } else if i == 1 {
        2
    } else if i == 2 {
        4
    } else if i == 3 {
        8
    } else if i == 4 {
        16
    } else if i == 5 {
        32
    } else {
        64
    }
}

/// The shape bits below the `i`-th.
pub open spec fn shape_mask(i: int) -> i8 {
    if i <= 0 {
        0
    } else if i == 1 {
        1
    } else if i == 2 {
        3
    } else if i == 3 {
        7
    } else if i == 4 {
        15
    } else if i == 5 {
        31
    } else if i == 6 {
        63
    } else {
        127
    }
}

pub open spec fn is_shape_bit(p: i8) -> bool {
    p == 1 || p == 2 || p == 4 || p == 8 || p == 16 || p == 32 || p == 64
}

pub(crate) fn all_p(i: u8) -> (res: i8)
    requires
        i < 7,
    ensures
        res == shape_bit(i as int),
{
    match i {
        0 => P_NONE,
        1 => P_UR,
        2 => P_UD,
        3 => P_UL,
        4 => P_RD,
        5 => P_RL,
        _ => P_DL,
    }
}

proof fn lemma_rot_bits(p: i8, b: i8, m: i8, m2: i8, x: i8, rot: u8)
    by (bit_vector)
    requires
        (b == 1 && m == 0 && m2 == 1) || (b == 2 && m == 1 && m2 == 3) || (b == 4 && m == 3 && m2
            == 7) || (b == 8 && m == 7 && m2 == 15) || (b == 16 && m == 15 && m2 == 31) || (b == 32
            && m == 31 && m2 == 63) || (b == 64 && m == 63 && m2 == 127),
        x == 1 || x == 2 || x == 4 || x == 8 || x == 16 || x == 32 || x == 64,
    ensures
        rot_spec(p & m2, rot) == (rot_spec(p & m, rot) | (if p & b == b {
            rot_spec(b, rot)
        } else {
            0
        })),
        rot_spec(p & 127, rot) == rot_spec(p, rot),
        rot1(x) == 1 || rot1(x) == 2 || rot1(x) == 4 || rot1(x) == 8 || rot1(x) == 16 || rot1(x)
            == 32 || rot1(x) == 64,
        rot_spec(x, 0) == x,
        rot_spec(x, 1) == rot1(x),
        rot_spec(x, 2) == rot1(rot1(x)),
        rot_spec(x, 3) == rot1(rot1(rot1(x))),
        x == 1 ==> rot1(x) == 1,
        x == 2 ==> rot1(x) == 16,
        x == 4 ==> rot1(x) == 32,
        x == 8 ==> rot1(x) == 2,
        x == 16 ==> rot1(x) == 64,
        x == 32 ==> rot1(x) == 4,
        x == 64 ==> rot1(x) == 8,
{
}

/// A single shape bit stays a single shape bit when turned.
pub proof fn lemma_rot_single(p: i8, rot: u8)
    requires
        is_shape_bit(p),
    ensures
        is_shape_bit(rot_spec(p, rot)),
{
    lemma_rot_bits(0, 1, 0, 1, p, 0);
    lemma_rot_bits(0, 1, 0, 1, rot1(p), 0);
    lemma_rot_bits(0, 1, 0, 1, rot1(rot1(p)), 0);
    lemma_rot_bits(p, 1, 0, 1, p, rot);
}

/// One quarter turn of a single shape bit.
fn turn_bit(p: i8) -> (res: i8)
    requires
        is_shape_bit(p),
    ensures
        res == rot1(p),
        is_shape_bit(res),
{
    proof {
        lemma_rot_bits(0, 1, 0, 1, p, 0);
    }
    match p {
        P_NONE => P_NONE,
        P_UR => P_RD,
        P_UD => P_RL,
        P_UL => P_UR,
        P_RD => P_DL,
        P_RL => P_UD,
        P_DL => P_UL,
        _ => P_NONE,
    }
}

/// `rot` quarter turns of a single shape bit.
fn turn_bit_rep(p: i8, rot: u8) -> (res: i8)
    requires
        is_shape_bit(p),
    ensures
        res == rot_spec(p, rot),
{
    let mut p2: i8 = p;
    let k: u8 = rot % 4;
    let mut j: u8 = 0;
    proof {
        lemma_rot_bits(0, 1, 0, 1, p, 0);
    }
    while j < k
        invariant
            k == rot % 4,
            j <= k,
            is_shape_bit(p),
            is_shape_bit(p2),
            j == 0 ==> p2 == p,
            j == 1 ==> p2 == rot1(p),
            j == 2 ==> p2 == rot1(rot1(p)),
            j == 3 ==> p2 == rot1(rot1(rot1(p))),
        decreases k - j,
    {
        proof {
            lemma_rot_bits(0, 1, 0, 1, p2, 0);
        }
        p2 = turn_bit(p2);
        j = j + 1;
    }
    proof {
        lemma_rot_bits(0, 1, 0, 1, p, 0);
    }
    p2
}

/// Turns every shape of the set `p` by `rot` quarter turns clockwise.
pub fn rot_p(p: i8, rot: u8) -> (res: i8)
    ensures
        res == rot_spec(p, rot),
{
    let mut res: i8 = 0;
    let mut i: u8 = 0;
    proof {
        lemma_rot_bits(p, 1, 0, 1, 1, rot);
        assert(p & 0 == 0) by (bit_vector);
        assert(rot_spec(0, rot) == 0) by (bit_vector);
    }
    while i < 7
        invariant
            i <= 7,
            res == rot_spec(p & shape_mask(i as int), rot),
        decreases 7 - i,
    {
        let p2 = all_p(i);
        proof {
            lemma_rot_bits(p, p2, shape_mask(i as int), shape_mask(i + 1), p2, rot);
        }
        if p2 & p == p2 {
            assert(p & p2 == p2) by (bit_vector)
                requires p2 & p == p2;
            res = res | turn_bit_rep(p2, rot);
        } else {
            assert(p & p2 != p2) by (bit_vector)
                requires p2 & p != p2;
            assert(res | 0 == res) by (bit_vector);
        }
        i = i + 1;
    }
    proof {
        lemma_rot_bits(p, 1, 0, 1, 1, rot);
    }
    res
}

/// Whether every shape of `x` is among the shapes of `p`.
pub fn in_possibility(x: i8, p: i8) -> (res: bool)
    ensures
        res == ((x & p) == x),
{
    (x & p) == x
}

} // verus!
