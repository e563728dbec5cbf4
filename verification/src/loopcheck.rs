use vstd::prelude::*;
use crate::cycle::{even_degrees, has_line, lemma_loop_walk};
use crate::deduce::{number_of, side_count};
use crate::grid::{is_line_pos, lemma_offset_kind};
use crate::point::{around_col, around_row};
use crate::rotation::{idx_point, idx_v_line, lemma_turn_near, rot_rc};
use crate::stage::{lemma_wf_keep, SolvingStage, MAX_SIDE};

verus! {

/// Every numbered cell of `s` has as many drawn sides as its number.
pub open spec fn numbers_satisfied(s: SolvingStage) -> bool {
    forall|r: int, c: int|
        0 <= r < s.size_r && 0 <= c < s.size_c && #[trigger] number_of(s, r, c) != -1 ==> side_count(
            s,
            r,
            c,
            1,
        ) == number_of(s, r, c)
}

/// Every drawn line of `s` is marked in `visited_v` (vertical) or `visited_h`
/// (horizontal).
pub open spec fn drawn_lines_visited(
    s: SolvingStage,
    visited_v: Seq<Vec<bool>>,
    visited_h: Seq<Vec<bool>>,
) -> bool {
    &&& forall|r: int, c: int|
        0 <= r < s.size_r && 0 <= c <= s.size_c && #[trigger] s.at(2 * r + 1, 2 * c) == 1
            ==> visited_v[r]@[c]
    &&& forall|r: int, c: int|
        0 <= r <= s.size_r && 0 <= c < s.size_c && #[trigger] s.at(2 * r, 2 * c + 1) == 1
            ==> visited_h[r]@[c]
}

pub open spec fn marks_shaped(s: SolvingStage, visited_v: Seq<Vec<bool>>, visited_h: Seq<Vec<bool>>) -> bool {
    &&& visited_v.len() == s.size_r
    &&& forall|i: int| 0 <= i < s.size_r ==> #[trigger] visited_v[i]@.len() == s.size_c + 1
    &&& visited_h.len() == s.size_r + 1
    &&& forall|i: int| 0 <= i <= s.size_r ==> #[trigger] visited_h[i]@.len() == s.size_c
}

impl SolvingStage {
    /// Whether the board is solved given the lines one walk visited: every number has
    /// as many drawn sides as it says, and every drawn line was visited.
    pub fn check_completed(&mut self, checked_v: Vec<Vec<bool>>, checked_h: Vec<Vec<bool>>) -> (res: bool)
        requires
            old(self).wf(),
            marks_shaped(*old(self), checked_v@, checked_h@),
        ensures
            *final(self) == *old(self),
            res == (numbers_satisfied(*old(self)) && drawn_lines_visited(
                *old(self),
                checked_v@,
                checked_h@,
            )),
    {
        let ghost o = *self;
        // check numbers
        let mut r: usize = 0;
        while r < self.size_r as usize
            invariant
                *self == o,
                o.wf(),
                0 <= r <= o.size_r,
                forall|i: int, j: int|
                    0 <= i < r && 0 <= j < o.size_c && #[trigger] number_of(o, i, j) != -1
                        ==> side_count(o, i, j, 1) == number_of(o, i, j),
            decreases o.size_r - r,
        {
            let mut c: usize = 0;
            while c < self.size_c as usize
                invariant
                    *self == o,
                    o.wf(),
                    0 <= r < o.size_r,
                    0 <= c <= o.size_c,
                    forall|i: int, j: int|
                        ((0 <= i < r && 0 <= j < o.size_c) || (i == r && 0 <= j < c)) && #[trigger] number_of(o, i, j) != -1
                            ==> side_count(o, i, j, 1) == number_of(o, i, j),
                decreases o.size_c - c,
            {
                let ri = r as isize;
                let ci = c as isize;
                let num = self.cell(ri * 2 + 1, ci * 2 + 1);
                if num != -1 {
                    let mut line: i8 = 0;
                    if self.cell(ri * 2 + 1, ci * 2) == 1 {
                        line += 1;
                    }
                    if self.cell(ri * 2, ci * 2 + 1) == 1 {
                        line += 1;
                    }
                    if self.cell(ri * 2 + 1, ci * 2 + 2) == 1 {
                        line += 1;
                    }
                    if self.cell(ri * 2 + 2, ci * 2 + 1) == 1 {
                        line += 1;
                    }
                    if line != num {
                        assert(number_of(o, r as int, c as int) != -1);
                        assert(side_count(o, r as int, c as int, 1) != number_of(o, r as int, c as int));
                        return false;
                    }
                }
                c = c + 1;
            }
            r = r + 1;
        }
        // check lines(vertical)
        let mut r: usize = 0;
        while r < self.size_r as usize
            invariant
                *self == o,
                o.wf(),
                0 <= r <= o.size_r,
                numbers_satisfied(o),
                marks_shaped(o, checked_v@, checked_h@),
                forall|i: int, j: int|
                    0 <= i < r && 0 <= j <= o.size_c && #[trigger] o.at(2 * i + 1, 2 * j) == 1
                        ==> checked_v@[i]@[j],
            decreases o.size_r - r,
        {
            let mut c: usize = 0;
            while c < (self.size_c + 1) as usize
                invariant
                    *self == o,
                    o.wf(),
                    0 <= r < o.size_r,
                    0 <= c <= o.size_c + 1,
                    numbers_satisfied(o),
                    marks_shaped(o, checked_v@, checked_h@),
                    forall|i: int, j: int|
                        ((0 <= i < r && 0 <= j <= o.size_c) || (i == r && 0 <= j < c)) && #[trigger] o.at(2 * i + 1, 2 * j) == 1
                            ==> checked_v@[i]@[j],
                decreases o.size_c + 1 - c,
            {
                if self.cell(r as isize * 2 + 1, c as isize * 2) == 1 && !checked_v[r][c] {
                    assert(o.at(2 * r as int + 1, 2 * c as int) == 1);
                    return false;
                }
                c = c + 1;
            }
            r = r + 1;
        }
        // check lines(horizontal)
        let mut r: usize = 0;
        while r < (self.size_r + 1) as usize
            invariant
                *self == o,
                o.wf(),
                0 <= r <= o.size_r + 1,
                numbers_satisfied(o),
                marks_shaped(o, checked_v@, checked_h@),
                forall|i: int, j: int|
                    0 <= i < o.size_r && 0 <= j <= o.size_c && #[trigger] o.at(2 * i + 1, 2 * j) == 1
                        ==> checked_v@[i]@[j],
                forall|i: int, j: int|
                    0 <= i < r && 0 <= j < o.size_c && #[trigger] o.at(2 * i, 2 * j + 1) == 1
                        ==> checked_h@[i]@[j],
            decreases o.size_r + 1 - r,
        {
            let mut c: usize = 0;
            while c < self.size_c as usize
                invariant
                    *self == o,
                    o.wf(),
                    0 <= r < o.size_r + 1,
                    0 <= c <= o.size_c,
                    numbers_satisfied(o),
                    marks_shaped(o, checked_v@, checked_h@),
                    forall|i: int, j: int|
                        0 <= i < o.size_r && 0 <= j <= o.size_c && #[trigger] o.at(2 * i + 1, 2 * j) == 1
                            ==> checked_v@[i]@[j],
                    forall|i: int, j: int|
                        ((0 <= i < r && 0 <= j < o.size_c) || (i == r && 0 <= j < c)) && #[trigger] o.at(2 * i, 2 * j + 1) == 1
                            ==> checked_h@[i]@[j],
                decreases o.size_c - c,
            {
                if self.cell(r as isize * 2, c as isize * 2 + 1) == 1 && !checked_h[r][c] {
                    assert(o.at(2 * r as int, 2 * c as int + 1) == 1);
                    return false;
                }
                c = c + 1;
            }
            r = r + 1;
        }
        true
    }
}


/// The points `p` and `q` are neighbours joined by a drawn line of `s`.
pub open spec fn linked(s: SolvingStage, p: (int, int), q: (int, int)) -> bool {
    let dr = q.0 - p.0;
    let dc = q.1 - p.1;
    &&& ((dr == 0 && (dc == 1 || dc == -1)) || (dc == 0 && (dr == 1 || dr == -1)))
    &&& s.in_grid(p.0 + q.0, p.1 + q.1)
    &&& s.at(p.0 + q.0, p.1 + q.1) == 1
}

/// Step `k + 2` of the walk `w` does not go straight back to where step `k` stood.
pub open spec fn no_turn_back(w: Seq<(int, int)>, k: int) -> bool {
    w[k + 2] != w[k]
}

/// The point one step behind `p` for a walk heading `h` (0 up, 1 right, 2 down, 3 left).
pub open spec fn behind(p: (int, int), h: int) -> (int, int) {
    if h == 0 {
        (p.0 + 1, p.1)
    } else if h == 1 {
        (p.0, p.1 - 1)
    } else if h == 2 {
        (p.0 - 1, p.1)
    } else {
        (p.0, p.1 + 1)
    }
}

/// `w` is a closed walk of points of `s` along drawn lines that never turns straight
/// back along the line it came by.
pub open spec fn closed_walk(s: SolvingStage, w: Seq<(int, int)>) -> bool {
    &&& w.len() >= 2
    &&& w[0] == w.last()
    &&& forall|k: int| 0 <= k < w.len() - 1 ==> #[trigger] linked(s, w[k], w[k + 1])
    &&& forall|k: int| 0 <= k < w.len() - 2 ==> #[trigger] no_turn_back(w, k)
}

/// `w` is a walk of points of `s` along drawn lines from `start` to `end` that never
/// turns straight back.
pub open spec fn walk_from(s: SolvingStage, w: Seq<(int, int)>, start: (int, int), end: (int, int)) -> bool {
    &&& w.len() >= 2
    &&& w[0] == start
    &&& w.last() == end
    &&& forall|k: int| 0 <= k < w.len() - 1 ==> #[trigger] linked(s, w[k], w[k + 1])
    &&& forall|k: int| 0 <= k < w.len() - 2 ==> #[trigger] no_turn_back(w, k)
}

/// A drawn line leaves point `(r, c)` in direction `d` (0 up, 1 right, 2 down, 3 left).
pub open spec fn drawn_toward(s: SolvingStage, r: int, c: int, d: int) -> bool {
    &&& s.in_grid(around_row(r, c, d), around_col(r, c, d))
    &&& s.at(around_row(r, c, d), around_col(r, c, d)) == 1
}

/// The point one step from the point of `p` in direction `d`, with `d` as its heading.
pub open spec fn step_to(p: (int, int, int), d: int) -> (int, int, int) {
    if d == 0 {
        (p.0 - 1, p.1, 0)
    } else if d == 1 {
        (p.0, p.1 + 1, 1)
    } else if d == 2 {
        (p.0 + 1, p.1, 2)
    } else {
        (p.0, p.1 - 1, 3)
    }
}

/// One step of the walk from a point and a heading: the first drawn line among a left
/// turn, straight on and a right turn; none when all three are missing.
pub open spec fn walk_step(s: SolvingStage, p: (int, int, int)) -> Option<(int, int, int)> {
    if drawn_toward(s, p.0, p.1, (p.2 + 3) % 4) {
        Some(step_to(p, (p.2 + 3) % 4))
    } else if drawn_toward(s, p.0, p.1, p.2 % 4) {
        Some(step_to(p, p.2 % 4))
    } else if drawn_toward(s, p.0, p.1, (p.2 + 1) % 4) {
        Some(step_to(p, (p.2 + 1) % 4))
    } else {
        None
    }
}

/// Where the walk from `p0` stands after `n` steps; none once it has stopped.
pub open spec fn walk_at(s: SolvingStage, p0: (int, int, int), n: nat) -> Option<(int, int, int)>
    decreases n,
{
    if n == 0 {
        Some(p0)
    } else {
        match walk_at(s, p0, (n - 1) as nat) {
            Some(p) => walk_step(s, p),
            None => None,
        }
    }
}

/// The walk from `p0` stands at point `q` after `k` steps.
pub open spec fn walk_on(s: SolvingStage, p0: (int, int, int), k: nat, q: (int, int)) -> bool {
    &&& walk_at(s, p0, k) is Some
    &&& walk_at(s, p0, k).unwrap().0 == q.0
    &&& walk_at(s, p0, k).unwrap().1 == q.1
}

/// The grid position of the line crossed by step `k + 1` of the walk from `p0`.
pub open spec fn step_line(s: SolvingStage, p0: (int, int, int), k: nat) -> (int, int) {
    (
        walk_at(s, p0, k).unwrap().0 + walk_at(s, p0, (k + 1) as nat).unwrap().0,
        walk_at(s, p0, k).unwrap().1 + walk_at(s, p0, (k + 1) as nat).unwrap().1,
    )
}

/// The start of the walk along the vertical line `(r, c)`: at its upper end, heading up.
pub open spec fn walk_start(r: int, c: int) -> (int, int, int) {
    (r, c, 0)
}

/// The vertical line `(r, c)` is the first drawn one, rows first.
pub open spec fn first_v_line(s: SolvingStage, r: int, c: int) -> bool {
    &&& 0 <= r < s.size_r
    &&& 0 <= c <= s.size_c
    &&& s.at(2 * r + 1, 2 * c) == 1
    &&& forall|i: int, j: int|
        0 <= i < s.size_r && 0 <= j <= s.size_c && (i < r || (i == r && j < c)) ==> #[trigger] s.at(
            2 * i + 1,
            2 * j,
        ) != 1
}

/// As many steps as there are pairs of a point and a heading.
pub open spec fn walk_bound(s: SolvingStage) -> int {
    4 * ((s.size_r + 1) * (s.size_c + 1))
}

/// The walk along the vertical line `(r, c)` first comes back to its lower end after
/// `n` steps, with `n` within the bound.
pub open spec fn first_return(s: SolvingStage, r: int, c: int, n: nat) -> bool {
    &&& 1 <= n <= walk_bound(s)
    &&& walk_on(s, walk_start(r, c), n, (r + 1, c))
    &&& forall|k: nat|
        1 <= k < n ==> #[trigger] walk_at(s, walk_start(r, c), k) is Some && !walk_on(
            s,
            walk_start(r, c),
            k,
            (r + 1, c),
        )
}

/// The line at `(i, j)` is the vertical line `(r, c)` or is crossed by one of the first
/// `n` steps of the walk along it.
pub open spec fn walked(s: SolvingStage, r: int, c: int, n: nat, i: int, j: int) -> bool {
    ||| (i == 2 * r + 1 && j == 2 * c)
    ||| exists|k: nat|
        k < n && walk_at(s, walk_start(r, c), (k + 1) as nat) is Some && #[trigger] step_line(
            s,
            walk_start(r, c),
            k,
        ) == (i, j)
}

/// Every drawn line is walked within the first `n` steps of the walk along `(r, c)`.
pub open spec fn walk_covers(s: SolvingStage, r: int, c: int, n: nat) -> bool {
    &&& forall|i: int, j: int|
        0 <= i < s.size_r && 0 <= j <= s.size_c && #[trigger] s.at(2 * i + 1, 2 * j) == 1
            ==> walked(s, r, c, n, 2 * i + 1, 2 * j)
    &&& forall|i: int, j: int|
        0 <= i <= s.size_r && 0 <= j < s.size_c && #[trigger] s.at(2 * i, 2 * j + 1) == 1
            ==> walked(s, r, c, n, 2 * i, 2 * j + 1)
}

/// The walk along the first drawn vertical line comes back within the bound, having
/// followed every drawn line, and every number is satisfied: a board `check_loop`
/// accepts.
pub open spec fn loop_found(s: SolvingStage) -> bool {
    exists|r: int, c: int, n: nat|
        first_v_line(s, r, c) && #[trigger] first_return(s, r, c, n) && numbers_satisfied(s)
            && walk_covers(s, r, c, n)
}

/// No first drawn vertical line has a walk that comes back within the bound.
pub open spec fn no_first_return(s: SolvingStage) -> bool {
    forall|r: int, c: int, n: nat| first_v_line(s, r, c) && #[trigger] first_return(s, r, c, n) ==> false
}

/// No line is marked yet.
pub open spec fn marks_clear(s: SolvingStage, cv: Seq<Vec<bool>>, ch: Seq<Vec<bool>>) -> bool {
    &&& forall|i: int, j: int| 0 <= i < s.size_r && 0 <= j <= s.size_c ==> !#[trigger] cv[i]@[j]
    &&& forall|i: int, j: int| 0 <= i <= s.size_r && 0 <= j < s.size_c ==> !#[trigger] ch[i]@[j]
}

/// The marks are exactly the lines walked in the first `n` steps along `(r, c)`.
pub open spec fn marks_walked(
    s: SolvingStage,
    cv: Seq<Vec<bool>>,
    ch: Seq<Vec<bool>>,
    r: int,
    c: int,
    n: nat,
) -> bool {
    &&& forall|i: int, j: int|
        0 <= i < s.size_r && 0 <= j <= s.size_c ==> #[trigger] cv[i]@[j] == walked(s, r, c, n, 2 * i + 1, 2 * j)
    &&& forall|i: int, j: int|
        0 <= i <= s.size_r && 0 <= j < s.size_c ==> #[trigger] ch[i]@[j] == walked(s, r, c, n, 2 * i, 2 * j + 1)
}

proof fn lemma_first_v_unique(s: SolvingStage, r: int, c: int, r2: int, c2: int)
    requires
        first_v_line(s, r, c),
        first_v_line(s, r2, c2),
    ensures
        r == r2 && c == c2,
{
    if r < r2 || (r == r2 && c < c2) {
        assert(s.at(2 * r + 1, 2 * c) != 1);
    } else if r2 < r || (r == r2 && c2 < c) {
        assert(s.at(2 * r2 + 1, 2 * c2) != 1);
    }
}

proof fn lemma_first_return_unique(s: SolvingStage, r: int, c: int, n: nat, m: nat)
    requires
        first_return(s, r, c, n),
        first_return(s, r, c, m),
    ensures
        n == m,
{
    if n < m {
        assert(walk_at(s, walk_start(r, c), n) is Some);
    } else if m < n {
        assert(walk_at(s, walk_start(r, c), m) is Some);
    }
}

proof fn lemma_walk_stopped(s: SolvingStage, p0: (int, int, int), n: nat, m: nat)
    requires
        walk_at(s, p0, n) is None,
        n <= m,
    ensures
        walk_at(s, p0, m) is None,
    decreases m - n,
{
    if n < m {
        lemma_walk_stopped(s, p0, n, (m - 1) as nat);
    }
}

proof fn lemma_walked_next(s: SolvingStage, r: int, c: int, n: nat, i: int, j: int)
    requires
        walk_at(s, walk_start(r, c), (n + 1) as nat) is Some,
    ensures
        walked(s, r, c, (n + 1) as nat, i, j) == (walked(s, r, c, n, i, j) || step_line(
            s,
            walk_start(r, c),
            n,
        ) == (i, j)),
{
    if walked(s, r, c, (n + 1) as nat, i, j) && !(i == 2 * r + 1 && j == 2 * c) {
        let k = choose|k: nat|
            k < n + 1 && walk_at(s, walk_start(r, c), (k + 1) as nat) is Some && #[trigger] step_line(
                s,
                walk_start(r, c),
                k,
            ) == (i, j);
        if k < n {
            assert(walked(s, r, c, n, i, j));
        }
    }
    if walked(s, r, c, n, i, j) && !(i == 2 * r + 1 && j == 2 * c) {
        let k = choose|k: nat|
            k < n && walk_at(s, walk_start(r, c), (k + 1) as nat) is Some && #[trigger] step_line(
                s,
                walk_start(r, c),
                k,
            ) == (i, j);
        assert(k < n + 1);
    }
}

proof fn lemma_around_mod(r: int, c: int, k: int)
    requires
        0 <= k,
    ensures
        around_row(r, c, k) == around_row(r, c, k % 4),
        around_col(r, c, k) == around_col(r, c, k % 4),
        k % 4 == 0 ==> around_row(r, c, k) == 2 * r - 1 && around_col(r, c, k) == 2 * c,
        k % 4 == 1 ==> around_row(r, c, k) == 2 * r && around_col(r, c, k) == 2 * c + 1,
        k % 4 == 2 ==> around_row(r, c, k) == 2 * r + 1 && around_col(r, c, k) == 2 * c,
        k % 4 == 3 ==> around_row(r, c, k) == 2 * r && around_col(r, c, k) == 2 * c - 1,
{
    assert((k % 4) % 4 == k % 4);
}


/// A closed walk runs along drawn lines, so some line is drawn.
proof fn lemma_walk_has_line(s: SolvingStage, w: Seq<(int, int)>)
    requires
        closed_walk(s, w),
    ensures
        has_line(s),
{
    let k: int = 0;
    assert(linked(s, w[k], w[k + 1]));
    let p = w[k];
    let q = w[k + 1];
    if p.0 == q.0 {
        let j = if p.1 < q.1 { p.1 } else { q.1 };
        assert(s.at(2 * p.0, 2 * j + 1) == 1);
    } else {
        let i = if p.0 < q.0 { p.0 } else { q.0 };
        assert(s.at(2 * i + 1, 2 * p.1) == 1);
    }
}

/// What `check_loop` states of its first walk gives its answer on a board whose points
/// each meet zero or two drawn lines, and on a board with no line drawn.
proof fn lemma_loop_rule(o: SolvingStage, f: SolvingStage, res: bool)
    requires
        o.wf(),
        res ==> exists|w: Seq<(int, int)>| closed_walk(o, w),
        f.result != o.result ==> !res && !f.result && exists|w: Seq<(int, int)>| closed_walk(o, w),
        forall|fr: int, fc: int, n: nat|
            first_v_line(o, fr, fc) && #[trigger] first_return(o, fr, fc, n) ==> res == (
            numbers_satisfied(o) && walk_covers(o, fr, fc, n)),
        forall|fr: int, fc: int, n: nat|
            first_v_line(o, fr, fc) && #[trigger] first_return(o, fr, fc, n) && !(
            numbers_satisfied(o) && walk_covers(o, fr, fc, n)) ==> !f.result,
    ensures
        even_degrees(o) && has_line(o) ==> res == loop_found(o) && (!res ==> !f.result),
        !has_line(o) ==> !res && f.result == o.result,
{
    if even_degrees(o) && has_line(o) {
        let (fr, fc, n) = lemma_loop_walk(o);
        assert(first_return(o, fr, fc, n));
        if loop_found(o) {
            let (r, c, m) = choose|r: int, c: int, m: nat|
                first_v_line(o, r, c) && #[trigger] first_return(o, r, c, m) && numbers_satisfied(o)
                    && walk_covers(o, r, c, m);
            lemma_first_v_unique(o, r, c, fr, fc);
            lemma_first_return_unique(o, r, c, m, n);
        }
        if res {
            assert(loop_found(o));
        }
    }
    if res {
        let w = choose|w: Seq<(int, int)>| closed_walk(o, w);
        lemma_walk_has_line(o, w);
    }
    if f.result != o.result {
        let w = choose|w: Seq<(int, int)>| closed_walk(o, w);
        lemma_walk_has_line(o, w);
    }
}

impl SolvingStage {
    /// Follows the drawn lines from the first vertical line not yet followed, turning
    /// left, going straight or turning right in that order of preference. A walk that
    /// comes back to its first line decides: the board is complete when every number is
    /// satisfied and every drawn line was followed, and contradictory otherwise (two
    /// loops, or a loop that leaves a number unsatisfied). A walk that stops starts the
    /// search again from the next line not yet followed.
    ///
    /// A walk that has not come back after as many steps as there are pairs of a point
    /// and a heading can never come back, since each step depends only on that pair; it
    /// is stopped like a walk that runs into an end.
    ///
    /// So when the walk along the first drawn vertical line comes back within that
    /// bound, the answer is whether every number is satisfied and that one walk followed
    /// every drawn line. On a board whose points each meet zero or two drawn lines that
    /// walk always comes back: the answer is whether the drawn lines form one loop that
    /// satisfies every number, and a board with lines drawn that is not so is marked
    /// contradictory. A board with no line drawn gets `false` and is left as it was.
    pub fn check_loop(&mut self) -> (res: bool)
        requires
            old(self).wf(),
        ensures
            final(self).stage == old(self).stage,
            final(self).group == old(self).group,
            final(self).checked == old(self).checked,
            final(self).score == old(self).score,
            final(self).size_r == old(self).size_r,
            final(self).size_c == old(self).size_c,
            final(self).wf(),
            res ==> numbers_satisfied(*old(self)),
            res ==> exists|w: Seq<(int, int)>| closed_walk(*old(self), w),
            final(self).result != old(self).result ==> !res && !final(self).result && exists|w: Seq<(int, int)>| closed_walk(*old(self), w),
            forall|fr: int, fc: int, n: nat|
                first_v_line(*old(self), fr, fc) && #[trigger] first_return(*old(self), fr, fc, n) ==> res == (
                numbers_satisfied(*old(self)) && walk_covers(*old(self), fr, fc, n)),
            loop_found(*old(self)) ==> res,
            forall|fr: int, fc: int, n: nat|
                first_v_line(*old(self), fr, fc) && #[trigger] first_return(*old(self), fr, fc, n) && !(
                numbers_satisfied(*old(self)) && walk_covers(*old(self), fr, fc, n)) ==> !final(self).result,
            res ==> final(self).result == old(self).result,
            even_degrees(*old(self)) && has_line(*old(self)) ==> res == loop_found(*old(self)) && (!res
                ==> !final(self).result),
            !has_line(*old(self)) ==> !res && final(self).result == old(self).result,
    {
        let ghost o = *self;
        let mut checked_v: Vec<Vec<bool>> = Vec::new();
        let mut i: usize = 0;
        while i < self.size_r as usize
            invariant
                *self == o,
                o == *old(self),
                o.wf(),
                0 <= i <= o.size_r,
                checked_v@.len() == i,
                forall|k: int| 0 <= k < i ==> #[trigger] checked_v@[k]@.len() == o.size_c + 1,
                forall|k: int, j: int| 0 <= k < i && 0 <= j <= o.size_c ==> !#[trigger] checked_v@[k]@[j],
            decreases o.size_r - i,
        {
            let mut row: Vec<bool> = Vec::new();
            let mut j: usize = 0;
            while j < (self.size_c + 1) as usize
                invariant
                    *self == o,
                    o == *old(self),
                    o.wf(),
                    0 <= j <= o.size_c + 1,
                    row@.len() == j,
                    forall|k: int| 0 <= k < j ==> !#[trigger] row@[k],
                decreases o.size_c + 1 - j,
            {
                row.push(false);
                j = j + 1;
            }
            checked_v.push(row);
            i = i + 1;
        }
        let mut checked_h: Vec<Vec<bool>> = Vec::new();
        let mut i: usize = 0;
        while i < (self.size_r + 1) as usize
            invariant
                *self == o,
                o == *old(self),
                o.wf(),
                0 <= i <= o.size_r + 1,
                checked_h@.len() == i,
                forall|k: int| 0 <= k < i ==> #[trigger] checked_h@[k]@.len() == o.size_c,
                forall|k: int, j: int| 0 <= k < i && 0 <= j < o.size_c ==> !#[trigger] checked_h@[k]@[j],
            decreases o.size_r + 1 - i,
        {
            let mut row: Vec<bool> = Vec::new();
            let mut j: usize = 0;
            while j < self.size_c as usize
                invariant
                    *self == o,
                    o == *old(self),
                    o.wf(),
                    0 <= j <= o.size_c,
                    row@.len() == j,
                    forall|k: int| 0 <= k < j ==> !#[trigger] row@[k],
                decreases o.size_c - j,
            {
                row.push(false);
                j = j + 1;
            }
            checked_h.push(row);
            i = i + 1;
        }
        proof {
            crate::stage::lemma_area_bounds(o.size_r as int, o.size_c as int);
        }
        let max_steps: usize = 4 * ((self.size_r as usize + 1) * (self.size_c as usize + 1));
        let ghost mut started = false;
        let mut r: usize = 0;
        while r < self.size_r as usize
            invariant
                *self == o,
                o == *old(self),
                o.wf(),
                0 <= r <= o.size_r,
                marks_shaped(o, checked_v@, checked_h@),
                max_steps == walk_bound(o),
                !started ==> marks_clear(o, checked_v@, checked_h@),
                !started ==> forall|i: int, j: int|
                    0 <= i < r && 0 <= j <= o.size_c ==> #[trigger] o.at(2 * i + 1, 2 * j) != 1,
                started ==> no_first_return(o),
            decreases o.size_r - r,
        {
            let mut c: usize = 0;
            while c < (self.size_c + 1) as usize
                invariant
                    *self == o,
                    o == *old(self),
                    o.wf(),
                    0 <= r < o.size_r,
                    0 <= c <= o.size_c + 1,
                    marks_shaped(o, checked_v@, checked_h@),
                    max_steps == walk_bound(o),
                    !started ==> marks_clear(o, checked_v@, checked_h@),
                    !started ==> forall|i: int, j: int|
                        0 <= i < o.size_r && 0 <= j <= o.size_c && (i < r || (i == r && j < c))
                            ==> #[trigger] o.at(2 * i + 1, 2 * j) != 1,
                    started ==> no_first_return(o),
                decreases o.size_c + 1 - c,
            {
                if !checked_v[r][c] && self.cell(r as isize * 2 + 1, c as isize * 2) == 1 {
                    let ghost is_first = !started;
                    proof {
                        started = true;
                    }
                    let mut rot: u8 = 0;
                    let mut r2 = r;
                    let mut c2 = c;
                    checked_v[r][c] = true;
                    let ghost start = ((r + 1) as int, c as int);
                    let ghost mut walk: Seq<(int, int)> = seq![start, (r as int, c as int)];
                    let ghost mut steps: nat = 0;
                    let mut fuel: usize = max_steps;
                    proof {
                        assert(linked(o, walk[0], walk[1]));
                        if is_first {
                            assert forall|i: int, j: int|
                                0 <= i < o.size_r && 0 <= j <= o.size_c && (i < r || (i == r && j < c)) implies
                                #[trigger] o.at(2 * i + 1, 2 * j) != 1 by {}
                            assert(first_v_line(o, r as int, c as int));
                            assert forall|i: int, j: int| 0 <= i < o.size_r && 0 <= j <= o.size_c implies
                                #[trigger] checked_v@[i]@[j] == walked(o, r as int, c as int, 0, 2 * i + 1, 2 * j) by {
                                if i != r {
                                    assert(!checked_v@[i]@[j]);
                                } else if j != c {
                                    assert(!checked_v@[i]@[j]);
                                }
                            }
                            assert(marks_walked(o, checked_v@, checked_h@, r as int, c as int, 0));
                        }
                    }
                    loop
                        invariant_except_break
                            steps + fuel == max_steps,
                            is_first ==> walk_at(o, walk_start(r as int, c as int), steps) == Some(
                                (r2 as int, c2 as int, rot as int),
                            ),
                            is_first ==> forall|k: nat|
                                1 <= k <= steps ==> #[trigger] walk_at(o, walk_start(r as int, c as int), k) is Some
                                    && !walk_on(o, walk_start(r as int, c as int), k, start),
                            is_first ==> marks_walked(o, checked_v@, checked_h@, r as int, c as int, steps),
                        invariant
                            *self == o,
                            o == *old(self),
                            o.wf(),
                            0 <= r < o.size_r,
                            0 <= c <= o.size_c,
                            0 <= r2 <= o.size_r,
                            0 <= c2 <= o.size_c,
                            rot < 4,
                            marks_shaped(o, checked_v@, checked_h@),
                            walk_from(o, walk, start, (r2 as int, c2 as int)),
                            walk[walk.len() - 2] == behind((r2 as int, c2 as int), rot as int),
                            start == ((r + 1) as int, c as int),
                            max_steps == walk_bound(o),
                            started,
                            !is_first ==> no_first_return(o),
                            is_first ==> first_v_line(o, r as int, c as int),
                        ensures
                            *self == o,
                            marks_shaped(o, checked_v@, checked_h@),
                            started,
                            no_first_return(o),
                        decreases fuel,
                    {
                        if fuel == 0 {
                            proof {
                                if is_first {
                                    assert forall|fr: int, fc: int, n: nat|
                                        first_v_line(o, fr, fc) && #[trigger] first_return(o, fr, fc, n) implies false by {
                                        lemma_first_v_unique(o, r as int, c as int, fr, fc);
                                        assert(walk_at(o, walk_start(r as int, c as int), n) is Some);
                                    }
                                }
                            }
                            break;
                        }
                        fuel = fuel - 1;
                        let center = idx_point(r2 as isize, c2 as isize);
                        let mut link = false;
                        let mut rot2: u8 = 3;
                        let ghost cur = (r2 as int, c2 as int, rot as int);
                        let ghost cv0 = checked_v@;
                        let ghost ch0 = checked_h@;
                        while rot2 < 6
                            invariant_except_break
                                !link,
                                center.r == 2 * r2,
                                center.c == 2 * c2,
                                r2 as int == cur.0,
                                c2 as int == cur.1,
                                rot as int == cur.2,
                                checked_v@ == cv0,
                                checked_h@ == ch0,
                                forall|d: int| 3 <= d < rot2 ==> !#[trigger] drawn_toward(o, cur.0, cur.1, (cur.2 + d) % 4),
                            invariant
                                *self == o,
                                o.wf(),
                                3 <= rot2 <= 6,
                                rot < 4,
                                0 <= cur.2 < 4,
                                0 <= r2 <= o.size_r,
                                0 <= c2 <= o.size_c,
                                marks_shaped(o, checked_v@, checked_h@),
                                marks_shaped(o, cv0, ch0),
                                walk_from(o, walk, start, (r2 as int, c2 as int)),
                                walk[walk.len() - 2] == behind((r2 as int, c2 as int), rot as int),
                            ensures
                                *self == o,
                                rot < 4,
                                0 <= r2 <= o.size_r,
                                0 <= c2 <= o.size_c,
                                marks_shaped(o, checked_v@, checked_h@),
                                walk_from(o, walk, start, (r2 as int, c2 as int)),
                                walk[walk.len() - 2] == behind((r2 as int, c2 as int), rot as int),
                                !link ==> forall|d: int| 3 <= d < 6 ==> !#[trigger] drawn_toward(o, cur.0, cur.1, (cur.2 + d) % 4),
                                link ==> walk_step(o, cur) == Some((r2 as int, c2 as int, rot as int)),
                                link ==> forall|i: int, j: int|
                                    0 <= i < o.size_r && 0 <= j <= o.size_c ==> #[trigger] checked_v@[i]@[j] == (cv0[i]@[j]
                                        || (cur.0 + r2 == 2 * i + 1 && cur.1 + c2 == 2 * j)),
                                link ==> forall|i: int, j: int|
                                    0 <= i <= o.size_r && 0 <= j < o.size_c ==> #[trigger] checked_h@[i]@[j] == (ch0[i]@[j]
                                        || (cur.0 + r2 == 2 * i && cur.1 + c2 == 2 * j + 1)),
                            decreases 6 - rot2,
                        {
                            let t = idx_v_line(r2 as isize - 1, c2 as isize);
                            proof {
                                lemma_around_mod(r2 as int, c2 as int, (rot + rot2) as int);
                                lemma_turn_near(t.r as int, t.c as int, center.r as int, center.c as int, (rot + rot2) as int);
                            }
                            let ln = rot_rc(t, center, rot + rot2);
                            if self.in_bound(ln) && self.cell(ln.r, ln.c) == 1 {
                                proof {
                                    assert(drawn_toward(o, cur.0, cur.1, (cur.2 + rot2) % 4));
                                    assert((cur.2 + 4) % 4 == cur.2 % 4);
                                    assert((cur.2 + 5) % 4 == (cur.2 + 1) % 4);
                                }
                                rot = (rot + rot2) % 4;
                                link = true;
                                let ghost prev = (r2 as int, c2 as int);
                                if rot == 0 {
                                    checked_v[r2 - 1][c2] = true;
                                    r2 -= 1;
                                } else if rot == 1 {
                                    checked_h[r2][c2] = true;
                                    c2 += 1;
                                } else if rot == 2 {
                                    checked_v[r2][c2] = true;
                                    r2 += 1;
                                } else {
                                    checked_h[r2][c2 - 1] = true;
                                    c2 -= 1;
                                }
                                proof {
                                    let next = (r2 as int, c2 as int);
                                    assert(linked(o, prev, next));
                                    let w2 = walk.push(next);
                                    assert forall|k: int| 0 <= k < w2.len() - 1 implies #[trigger] linked(o, w2[k], w2[k + 1]) by {
                                        if k < walk.len() - 1 {
                                            assert(w2[k] == walk[k] && w2[k + 1] == walk[k + 1]);
                                        }
                                    }
                                    assert(walk[walk.len() - 2] == behind(prev, cur.2));
                                    assert(next != behind(prev, cur.2));
                                    assert forall|k: int| 0 <= k < w2.len() - 2 implies #[trigger] no_turn_back(w2, k) by {
                                        if k < walk.len() - 2 {
                                            assert(no_turn_back(walk, k));
                                            assert(w2[k] == walk[k] && w2[k + 2] == walk[k + 2]);
                                        } else {
                                            assert(w2[k] == walk[walk.len() - 2]);
                                            assert(w2[k + 2] == next);
                                        }
                                    }
                                    assert(w2[w2.len() - 2] == prev);
                                    assert(prev == behind(next, rot as int));
                                    walk = w2;
                                    assert forall|i: int, j: int|
                                        0 <= i < o.size_r && 0 <= j <= o.size_c implies #[trigger] checked_v@[i]@[j] == (cv0[i]@[j]
                                            || (cur.0 + r2 == 2 * i + 1 && cur.1 + c2 == 2 * j)) by {
                                        if rot == 0 && i == r2 {
                                        } else if rot == 2 && i == cur.0 {
                                        } else {
                                            assert(checked_v@[i] == cv0[i]);
                                        }
                                    }
                                    assert forall|i: int, j: int|
                                        0 <= i <= o.size_r && 0 <= j < o.size_c implies #[trigger] checked_h@[i]@[j] == (ch0[i]@[j]
                                            || (cur.0 + r2 == 2 * i && cur.1 + c2 == 2 * j + 1)) by {
                                        if (rot == 1 || rot == 3) && i == r2 {
                                        } else {
                                            assert(checked_h@[i] == ch0[i]);
                                        }
                                    }
                                }
                                break;
                            }
                            proof {
                                assert(!drawn_toward(o, cur.0, cur.1, (cur.2 + rot2) % 4));
                            }
                            rot2 = rot2 + 1;
                        }
                        if !link {
                            proof {
                                if is_first {
                                    let ws = walk_start(r as int, c as int);
                                    assert(!drawn_toward(o, cur.0, cur.1, (cur.2 + 3) % 4));
                                    assert(!drawn_toward(o, cur.0, cur.1, (cur.2 + 4) % 4));
                                    assert(!drawn_toward(o, cur.0, cur.1, (cur.2 + 5) % 4));
                                    assert((cur.2 + 4) % 4 == cur.2 % 4);
                                    assert((cur.2 + 5) % 4 == (cur.2 + 1) % 4);
                                    assert(walk_step(o, cur) is None);
                                    assert(walk_at(o, ws, steps + 1) is None);
                                    assert forall|fr: int, fc: int, n: nat|
                                        first_v_line(o, fr, fc) && #[trigger] first_return(o, fr, fc, n) implies false by {
                                        lemma_first_v_unique(o, r as int, c as int, fr, fc);
                                        if n > steps {
                                            lemma_walk_stopped(o, ws, steps + 1, n);
                                        }
                                        assert(walk_at(o, ws, n) is Some);
                                    }
                                }
                            }
                            break;
                        } else {
                            proof {
                                let ws = walk_start(r as int, c as int);
                                let next = (r2 as int, c2 as int, rot as int);
                                if is_first {
                                    assert(walk_at(o, ws, steps + 1) == Some(next));
                                    assert(step_line(o, ws, steps) == (cur.0 + r2, cur.1 + c2));
                                    assert forall|i: int, j: int| 0 <= i < o.size_r && 0 <= j <= o.size_c implies
                                        #[trigger] checked_v@[i]@[j] == walked(o, r as int, c as int, steps + 1, 2 * i + 1, 2 * j) by {
                                        lemma_walked_next(o, r as int, c as int, steps, 2 * i + 1, 2 * j);
                                    }
                                    assert forall|i: int, j: int| 0 <= i <= o.size_r && 0 <= j < o.size_c implies
                                        #[trigger] checked_h@[i]@[j] == walked(o, r as int, c as int, steps + 1, 2 * i, 2 * j + 1) by {
                                        lemma_walked_next(o, r as int, c as int, steps, 2 * i, 2 * j + 1);
                                    }
                                }
                                steps = steps + 1;
                            }
                            if r2 == r + 1 && c2 == c {
                                proof {
                                    assert(closed_walk(o, walk));
                                }
                                let ghost cv = checked_v@;
                                let ghost ch = checked_h@;
                                let done = self.check_completed(checked_v, checked_h);
                                proof {
                                    assert(*self == o);
                                    assert(self.stage == o.stage);
                                    if is_first {
                                        assert(first_return(o, r as int, c as int, steps));
                                        assert(drawn_lines_visited(o, cv, ch) == walk_covers(o, r as int, c as int, steps));
                                        assert forall|fr: int, fc: int, n: nat|
                                            first_v_line(o, fr, fc) && #[trigger] first_return(o, fr, fc, n) implies done == (
                                            numbers_satisfied(o) && walk_covers(o, fr, fc, n)) by {
                                            lemma_first_v_unique(o, r as int, c as int, fr, fc);
                                            lemma_first_return_unique(o, r as int, c as int, steps, n);
                                        }
                                    }
                                }
                                if done {
                                    proof {
                                        lemma_loop_rule(o, *self, true);
                                    }
                                    return true;
                                } else {
                                    self.result = false;
                                    proof {
                                        lemma_wf_keep(o, *self);
                                        lemma_loop_rule(o, *self, false);
                                    }
                                    return false;
                                }
                            }
                        }
                    }
                }
                c = c + 1;
            }
            r = r + 1;
        }
        proof {
            lemma_loop_rule(o, *self, false);
        }
        false
    }
}

} // verus!
