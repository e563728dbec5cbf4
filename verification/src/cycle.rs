use vstd::prelude::*;
use vstd::set_lib::{lemma_int_range, lemma_len_subset, lemma_map_size, set_int_range};
use crate::loopcheck::{
    drawn_toward, first_return, first_v_line, step_to, walk_at, walk_bound, walk_on, walk_start,
    walk_step,
};
use crate::stage::SolvingStage;

verus! {

/// How many drawn lines meet at point `(r, c)`.
pub open spec fn degree(s: SolvingStage, r: int, c: int) -> int {
    (if drawn_toward(s, r, c, 0) { 1int } else { 0int }) + (if drawn_toward(s, r, c, 1) {
        1int
    } else {
        0int
    }) + (if drawn_toward(s, r, c, 2) { 1int } else { 0int }) + (if drawn_toward(s, r, c, 3) {
        1int
    } else {
        0int
    })
}

/// Every point of `s` touches no drawn line or exactly two: the drawn lines form
/// closed loops that neither end nor branch.
pub open spec fn even_degrees(s: SolvingStage) -> bool {
    forall|r: int, c: int|
        0 <= r <= s.size_r && 0 <= c <= s.size_c ==> #[trigger] degree(s, r, c) == 0 || degree(
            s,
            r,
            c,
        ) == 2
}

/// Some line of `s` is drawn.
pub open spec fn has_line(s: SolvingStage) -> bool {
    ||| exists|i: int, j: int|
        0 <= i < s.size_r && 0 <= j <= s.size_c && #[trigger] s.at(2 * i + 1, 2 * j) == 1
    ||| exists|i: int, j: int|
        0 <= i <= s.size_r && 0 <= j < s.size_c && #[trigger] s.at(2 * i, 2 * j + 1) == 1
}

/// A walk state standing on a point of `s` that it reached along a drawn line.
pub open spec fn arrived(s: SolvingStage, p: (int, int, int)) -> bool {
    &&& 0 <= p.0 <= s.size_r
    &&& 0 <= p.1 <= s.size_c
    &&& 0 <= p.2 < 4
    &&& drawn_toward(s, p.0, p.1, (p.2 + 2) % 4)
}

/// A number for each walk state of `s`, distinct for distinct states, below the walk bound.
pub open spec fn state_code(s: SolvingStage, p: (int, int, int)) -> int {
    (p.0 * (s.size_c + 1) + p.1) * 4 + p.2
}

/// State codes of states on the board lie below the walk bound and tell states apart.
proof fn lemma_code(s: SolvingStage, a: (int, int, int), b: (int, int, int))
    requires
        0 <= s.size_c,
        0 <= a.0 <= s.size_r,
        0 <= a.1 <= s.size_c,
        0 <= a.2 < 4,
        0 <= b.0 <= s.size_r,
        0 <= b.1 <= s.size_c,
        0 <= b.2 < 4,
    ensures
        0 <= state_code(s, a) < walk_bound(s),
        state_code(s, a) == state_code(s, b) ==> a == b,
{
    let w = s.size_c + 1;
    let x = a.0 * w + a.1;
    let y = b.0 * w + b.1;
    assert(0 <= x <= (s.size_r + 1) * w - 1) by (nonlinear_arith)
        requires
            x == a.0 * w + a.1,
            0 <= a.0 <= s.size_r,
            0 <= a.1 < w,
    ;
    assert(4 * ((s.size_r + 1) * (s.size_c + 1)) == 4 * ((s.size_r + 1) * w));
    if state_code(s, a) == state_code(s, b) {
        assert(x == y && a.2 == b.2);
        assert(a.0 == b.0) by (nonlinear_arith)
            requires
                a.0 * w + a.1 == b.0 * w + b.1,
                0 <= a.1 < w,
                0 <= b.1 < w,
                0 <= a.0,
                0 <= b.0,
        {
            if a.0 > b.0 {
                assert((a.0 - b.0) * w >= w);
            } else if a.0 < b.0 {
                assert((b.0 - a.0) * w >= w);
            }
        }
    }
}

/// The line from `p`'s point toward `d` is the line toward `(d + 2) % 4` from the point
/// one step away, which lies on the board.
proof fn lemma_step_back(s: SolvingStage, p: (int, int, int), d: int)
    requires
        0 <= d < 4,
        0 <= p.0 <= s.size_r,
        0 <= p.1 <= s.size_c,
        drawn_toward(s, p.0, p.1, d),
    ensures
        0 <= step_to(p, d).0 <= s.size_r,
        0 <= step_to(p, d).1 <= s.size_c,
        step_to(p, d).2 == d,
        drawn_toward(s, step_to(p, d).0, step_to(p, d).1, (d + 2) % 4),
{
}

/// From a state reached along a drawn line, at a point meeting two drawn lines, the
/// walk takes the other one.
proof fn lemma_step_arrives(s: SolvingStage, p: (int, int, int))
    requires
        even_degrees(s),
        arrived(s, p),
    ensures
        walk_step(s, p) is Some,
        arrived(s, walk_step(s, p).unwrap()),
        walk_step(s, p).unwrap().2 != (p.2 + 2) % 4,
        walk_step(s, p).unwrap() == step_to(p, walk_step(s, p).unwrap().2),
{
    assert(degree(s, p.0, p.1) == 0 || degree(s, p.0, p.1) == 2);
    let d = if drawn_toward(s, p.0, p.1, (p.2 + 3) % 4) {
        (p.2 + 3) % 4
    } else if drawn_toward(s, p.0, p.1, p.2 % 4) {
        p.2 % 4
    } else {
        (p.2 + 1) % 4
    };
    assert(drawn_toward(s, p.0, p.1, d));
    lemma_step_back(s, p, d);
}

/// Two states reached along drawn lines that step to the same state are the same.
proof fn lemma_step_injective(s: SolvingStage, a: (int, int, int), b: (int, int, int))
    requires
        even_degrees(s),
        arrived(s, a),
        arrived(s, b),
        walk_step(s, a) == walk_step(s, b),
    ensures
        a == b,
{
    lemma_step_arrives(s, a);
    lemma_step_arrives(s, b);
    let q = walk_step(s, a).unwrap();
    assert(a.0 == b.0 && a.1 == b.1);
    assert(degree(s, a.0, a.1) == 0 || degree(s, a.0, a.1) == 2);
    assert(drawn_toward(s, a.0, a.1, q.2));
}


/// A walk from a state reached along a drawn line never stops.
proof fn lemma_walk_arrives(s: SolvingStage, p0: (int, int, int), n: nat)
    requires
        even_degrees(s),
        arrived(s, p0),
    ensures
        walk_at(s, p0, n) is Some,
        arrived(s, walk_at(s, p0, n).unwrap()),
    decreases n,
{
    if n > 0 {
        lemma_walk_arrives(s, p0, (n - 1) as nat);
        lemma_step_arrives(s, walk_at(s, p0, (n - 1) as nat).unwrap());
    }
}

/// Two steps of the walk at the same state: the walk is back at its start after the
/// difference.
proof fn lemma_walk_back(s: SolvingStage, p0: (int, int, int), i: nat, j: nat)
    requires
        even_degrees(s),
        arrived(s, p0),
        i <= j,
        walk_at(s, p0, i) == walk_at(s, p0, j),
    ensures
        walk_at(s, p0, (j - i) as nat) == Some(p0),
    decreases i,
{
    if i > 0 {
        lemma_walk_arrives(s, p0, (i - 1) as nat);
        lemma_walk_arrives(s, p0, (j - 1) as nat);
        lemma_step_injective(s, walk_at(s, p0, (i - 1) as nat).unwrap(), walk_at(s, p0, (j - 1) as nat).unwrap());
        lemma_walk_back(s, p0, (i - 1) as nat, (j - 1) as nat);
        assert((j - 1) - (i - 1) == j - i);
    }
}

/// Among the first `walk_bound + 1` states of a walk that never stops, two agree.
proof fn lemma_walk_repeats(s: SolvingStage, p0: (int, int, int)) -> (ij: (nat, nat))
    requires
        s.size_c >= 0,
        s.size_r >= 0,
        even_degrees(s),
        arrived(s, p0),
    ensures
        ij.0 < ij.1 <= walk_bound(s),
        walk_at(s, p0, ij.0) == walk_at(s, p0, ij.1),
{
    let n = walk_bound(s);
    let f = |k: int| state_code(s, walk_at(s, p0, k as nat).unwrap());
    let x = set_int_range(0, n + 1);
    let y = set_int_range(0, n);
    lemma_int_range(0, n + 1);
    lemma_int_range(0, n);
    assert forall|k: int| x.contains(k) implies #[trigger] y.contains(f(k)) by {
        lemma_walk_arrives(s, p0, k as nat);
        let p = walk_at(s, p0, k as nat).unwrap();
        lemma_code(s, p, p);
    }
    if forall|a: int, b: int| x.contains(a) && x.contains(b) && #[trigger] f(a) == #[trigger] f(b) ==> a == b {
        assert(vstd::relations::injective_on(f, x));
        lemma_map_size(x, x.map(f), f);
        assert(x.map(f).subset_of(y));
        lemma_len_subset(x.map(f), y);
        assert(false);
        (0, 0)
    } else {
        let (a, b) = choose|a: int, b: int| x.contains(a) && x.contains(b) && #[trigger] f(a) == #[trigger] f(b) && a != b;
        lemma_walk_arrives(s, p0, a as nat);
        lemma_walk_arrives(s, p0, b as nat);
        lemma_code(s, walk_at(s, p0, a as nat).unwrap(), walk_at(s, p0, b as nat).unwrap());
        if a < b {
            (a as nat, b as nat)
        } else {
            (b as nat, a as nat)
        }
    }
}


/// The first step, from 1 up to `k`, at which a walk that never stops stands at `q`.
proof fn lemma_first_hit(s: SolvingStage, p0: (int, int, int), q: (int, int), k: nat) -> (n: nat)
    requires
        even_degrees(s),
        arrived(s, p0),
        1 <= k,
        walk_on(s, p0, k, q),
    ensures
        1 <= n <= k,
        walk_on(s, p0, n, q),
        forall|m: nat| 1 <= m < n ==> #[trigger] walk_at(s, p0, m) is Some && !walk_on(s, p0, m, q),
    decreases k,
{
    if exists|m: nat| 1 <= m < k && #[trigger] walk_on(s, p0, m, q) {
        let m = choose|m: nat| 1 <= m < k && #[trigger] walk_on(s, p0, m, q);
        lemma_first_hit(s, p0, q, m)
    } else {
        assert forall|m: nat| 1 <= m < k implies #[trigger] walk_at(s, p0, m) is Some && !walk_on(s, p0, m, q) by {
            lemma_walk_arrives(s, p0, m);
        }
        k
    }
}

/// On a board whose points each meet zero or two drawn lines, the walk along a drawn
/// vertical line comes back to its lower end within the bound.
pub proof fn lemma_walk_returns(s: SolvingStage, r: int, c: int) -> (n: nat)
    requires
        s.wf(),
        even_degrees(s),
        0 <= r < s.size_r,
        0 <= c <= s.size_c,
        s.at(2 * r + 1, 2 * c) == 1,
    ensures
        first_return(s, r, c, n),
{
    let p0 = walk_start(r, c);
    assert(arrived(s, p0));
    let (i, j) = lemma_walk_repeats(s, p0);
    lemma_walk_back(s, p0, i, j);
    let m = (j - i) as nat;
    lemma_walk_arrives(s, p0, (m - 1) as nat);
    let q = walk_at(s, p0, (m - 1) as nat).unwrap();
    lemma_step_arrives(s, q);
    assert(walk_at(s, p0, m) == walk_step(s, q));
    assert(q.0 == r + 1 && q.1 == c);
    assert(m - 1 >= 1);
    assert(walk_on(s, p0, (m - 1) as nat, (r + 1, c)));
    let n = lemma_first_hit(s, p0, (r + 1, c), (m - 1) as nat);
    n
}


/// On such a board a drawn horizontal line leads, leftwards, to a drawn vertical one.
proof fn lemma_some_v_line(s: SolvingStage, i: int, j: int) -> (rc: (int, int))
    requires
        s.wf(),
        even_degrees(s),
        0 <= i <= s.size_r,
        0 <= j < s.size_c,
        s.at(2 * i, 2 * j + 1) == 1,
    ensures
        0 <= rc.0 < s.size_r,
        0 <= rc.1 <= s.size_c,
        s.at(2 * rc.0 + 1, 2 * rc.1) == 1,
    decreases j,
{
    assert(drawn_toward(s, i, j, 1));
    assert(degree(s, i, j) == 0 || degree(s, i, j) == 2);
    if drawn_toward(s, i, j, 0) {
        (i - 1, j)
    } else if drawn_toward(s, i, j, 2) {
        (i, j)
    } else {
        assert(drawn_toward(s, i, j, 3));
        lemma_some_v_line(s, i, j - 1)
    }
}

/// A drawn vertical line at `(r, c)` or before it, rows first, is the first one.
proof fn lemma_first_v(s: SolvingStage, r: int, c: int) -> (rc: (int, int))
    requires
        0 <= r < s.size_r,
        0 <= c <= s.size_c,
        s.at(2 * r + 1, 2 * c) == 1,
    ensures
        first_v_line(s, rc.0, rc.1),
    decreases r, c,
{
    if exists|i: int, j: int|
        0 <= i < s.size_r && 0 <= j <= s.size_c && (i < r || (i == r && j < c)) && #[trigger] s.at(
            2 * i + 1,
            2 * j,
        ) == 1 {
        let (i, j) = choose|i: int, j: int|
            0 <= i < s.size_r && 0 <= j <= s.size_c && (i < r || (i == r && j < c)) && #[trigger] s.at(
                2 * i + 1,
                2 * j,
            ) == 1;
        lemma_first_v(s, i, j)
    } else {
        (r, c)
    }
}

/// On a board whose points each meet zero or two drawn lines, with some line drawn,
/// there is a first drawn vertical line, and the walk along it comes back to its lower
/// end within the bound.
pub proof fn lemma_loop_walk(s: SolvingStage) -> (rcn: (int, int, nat))
    requires
        s.wf(),
        even_degrees(s),
        has_line(s),
    ensures
        first_v_line(s, rcn.0, rcn.1),
        first_return(s, rcn.0, rcn.1, rcn.2),
{
    let v = if exists|i: int, j: int|
        0 <= i < s.size_r && 0 <= j <= s.size_c && #[trigger] s.at(2 * i + 1, 2 * j) == 1 {
        choose|i: int, j: int| 0 <= i < s.size_r && 0 <= j <= s.size_c && #[trigger] s.at(2 * i + 1, 2 * j) == 1
    } else {
        let (i, j) = choose|i: int, j: int|
            0 <= i <= s.size_r && 0 <= j < s.size_c && #[trigger] s.at(2 * i, 2 * j + 1) == 1;
        lemma_some_v_line(s, i, j)
    };
    let (fr, fc) = lemma_first_v(s, v.0, v.1);
    let n = lemma_walk_returns(s, fr, fc);
    (fr, fc, n)
}

} // verus!
