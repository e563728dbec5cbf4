use vstd::prelude::*;
use crate::deduce::{number_of, side_count};
use crate::firstcheck::after_first_check;
use crate::grid::{lemma_offset_kind, lemma_potential_le, lemma_potential_nonneg};
use crate::merge::{lines_count, merged_value};
use crate::blocks::{
    blocks_shaped, border_count, clue_count, clues_match, get_dropped_stage, grow_blocks, lemma_clues_nonneg,
    lemma_fewer_clues,
};
use crate::grid::is_number_pos;
use crate::random::{random_below, thread_rng};
use rand::rngs::ThreadRng;
use crate::rough::solve_roughly;
use crate::solve::{false_rows, search_outcome, solve, SolveResult};
use crate::fixpoint::degrees_ok;
use crate::group::labels_followed;
use crate::loopcheck::{closed_walk, numbers_satisfied};
use crate::stage::{lemma_area_bounds, lemma_wrote, refines, wrote, SolvingStage, MAX_CELLS, MAX_SIDE};
use crate::text::{numbers_valid, puzzle_string, puzzle_text};

verus! {

/// How many times in a row a drawn clue may leave the board without answer before
/// the generator backs out of its current level.
const MP_NUMBER_TRY_COUNT: i32 = 4;

/// The deepest search the generator asks of `solve`.
const MAX_DEPTH: i32 = 3;

/// Every clue of `o` is still there in `s`.
pub open spec fn numbers_kept(o: SolvingStage, s: SolvingStage) -> bool {
    forall|r: int, c: int|
        0 <= r < o.size_r && 0 <= c < o.size_c && number_of(o, r, c) != -1 ==> #[trigger] number_of(
            s,
            r,
            c,
        ) == number_of(o, r, c)
}

/// What every step of the generator keeps: a well-formed board of the same size with
/// room in its score, valid clues, and every clue it started with.
pub open spec fn puzzle_step(o: SolvingStage, s: SolvingStage) -> bool {
    &&& s.wf()
    &&& s.headroom()
    &&& s.size_r == o.size_r
    &&& s.size_c == o.size_c
    &&& numbers_valid(s)
    &&& numbers_kept(o, s)
}

/// A search keeps the board's numbers.
proof fn lemma_refines_numbers(o: SolvingStage, s: SolvingStage)
    requires
        o.wf(),
        refines(o, s),
    ensures
        forall|r: int, c: int|
            0 <= r < o.size_r && 0 <= c < o.size_c ==> #[trigger] number_of(s, r, c) == number_of(
                o,
                r,
                c,
            ),
{
    assert forall|r: int, c: int| 0 <= r < o.size_r && 0 <= c < o.size_c implies #[trigger] number_of(
        s,
        r,
        c,
    ) == number_of(o, r, c) by {
        lemma_offset_kind(r, c, 0, 0);
        assert(o.in_grid(2 * r + 1, 2 * c + 1));
        assert(s.at(2 * r + 1, 2 * c + 1) == o.at(2 * r + 1, 2 * c + 1));
    }
}

/// A search is a step of the generator.
proof fn lemma_search_step(o: SolvingStage, s: SolvingStage, res: SolveResult)
    requires
        o.wf(),
        o.headroom(),
        numbers_valid(o),
        search_outcome(o, s, res),
    ensures
        puzzle_step(o, s),
{
    lemma_potential_nonneg(s.stage@);
    lemma_refines_numbers(o, s);
}

/// Steps of the generator compose.
proof fn lemma_step_trans(a: SolvingStage, b: SolvingStage, c: SolvingStage)
    requires
        puzzle_step(a, b),
        puzzle_step(b, c),
    ensures
        puzzle_step(a, c),
{
    assert forall|r: int, k: int|
        0 <= r < a.size_r && 0 <= k < a.size_c && number_of(a, r, k) != -1 implies #[trigger] number_of(
        c,
        r,
        k,
    ) == number_of(a, r, k) by {
        assert(number_of(b, r, k) == number_of(a, r, k));
    }
}

/// The numbers of cell `(r, c)` in the rows of a first check stay where they were.
proof fn lemma_first_check_numbers(o: SolvingStage, s: SolvingStage, r: int, c: int)
    requires
        o.wf(),
        forall|i: int, j: int|
            #![trigger s.at(i, j)]
            o.in_grid(i, j) ==> s.at(i, j) == after_first_check(o, r, c, i, j),
    ensures
        forall|i: int, j: int|
            0 <= i < o.size_r && 0 <= j < o.size_c ==> #[trigger] number_of(s, i, j) == number_of(
                o,
                i,
                j,
            ),
{
    assert forall|i: int, j: int| 0 <= i < o.size_r && 0 <= j < o.size_c implies #[trigger] number_of(
        s,
        i,
        j,
    ) == number_of(o, i, j) by {
        lemma_offset_kind(i, j, 0, 0);
        assert(o.in_grid(2 * i + 1, 2 * j + 1));
        assert(s.at(2 * i + 1, 2 * j + 1) == after_first_check(o, r, c, 2 * i + 1, 2 * j + 1));
    }
}

/// Merging a board with valid clues into another keeps every clue and adds only valid ones.
proof fn lemma_merge_step(o: SolvingStage, t: SolvingStage, s: SolvingStage)
    requires
        o.wf(),
        numbers_valid(o),
        numbers_valid(t),
        t.size_r == o.size_r,
        t.size_c == o.size_c,
        s.size_r == o.size_r,
        s.size_c == o.size_c,
        forall|i: int, j: int|
            #![trigger s.at(i, j)]
            o.in_grid(i, j) ==> s.at(i, j) == merged_value(o, t, i, j),
    ensures
        numbers_valid(s),
        numbers_kept(o, s),
{
    assert forall|i: int, j: int| 0 <= i < s.size_r && 0 <= j < s.size_c implies -1 <= #[trigger] number_of(
        s,
        i,
        j,
    ) <= 3 by {
        lemma_offset_kind(i, j, 0, 0);
        assert(o.in_grid(2 * i + 1, 2 * j + 1));
        assert(s.at(2 * i + 1, 2 * j + 1) == merged_value(o, t, 2 * i + 1, 2 * j + 1));
        assert(-1 <= number_of(o, i, j) <= 3);
        assert(-1 <= number_of(t, i, j) <= 3);
    }
    assert forall|i: int, j: int|
        0 <= i < o.size_r && 0 <= j < o.size_c && number_of(o, i, j) != -1 implies #[trigger] number_of(
        s,
        i,
        j,
    ) == number_of(o, i, j) by {
        lemma_offset_kind(i, j, 0, 0);
        assert(o.in_grid(2 * i + 1, 2 * j + 1));
        assert(s.at(2 * i + 1, 2 * j + 1) == merged_value(o, t, 2 * i + 1, 2 * j + 1));
    }
}

/// The result of a generator that gave up: it stopped before deciding.
fn gave_up() -> (res: SolveResult)
    ensures
        res == (SolveResult { has_answer: false, multi_answer: false, no_answer: false, over_depth: true }),
{
    SolveResult { has_answer: false, multi_answer: false, no_answer: false, over_depth: true }
}

impl SolvingStage {
    /// Writes the number `n` into cell `(r, c)`.
    fn set_number(&mut self, r: isize, c: isize, n: i8)
        requires
            old(self).wf(),
            0 <= r < old(self).size_r,
            0 <= c < old(self).size_c,
        ensures
            wrote(*old(self), *final(self), 2 * r + 1, 2 * c + 1, n),
            final(self).size_r == old(self).size_r,
            final(self).size_c == old(self).size_c,
            final(self).group == old(self).group,
            final(self).checked == old(self).checked,
            final(self).result == old(self).result,
            final(self).score == old(self).score,
    {
        let ghost o = *self;
        let rr = (r * 2 + 1) as usize;
        let cc = (c * 2 + 1) as usize;
        self.stage[rr][cc] = n;
        proof {
            assert(self.stage@[rr as int]@ == o.stage@[rr as int]@.update(cc as int, n));
        }
    }

    /// Whether the score can take one more merge on top of everything a board of this
    /// size can leave undecided: seven shapes at every grid position, and three for every
    /// line a merge may score.
    fn merge_room(&self) -> (ok: bool)
        requires
            self.wf(),
        ensures
            ok == (self.score + 7 * (2 * self.size_r + 1) * (2 * self.size_c + 1) + 3 * lines_count(
                *self,
            ) <= u32::MAX),
            ok ==> self.score + self.pot() + 3 * lines_count(*self) <= u32::MAX,
    {
        let rows = (self.size_r * 2 + 1) as u64;
        let cols = (self.size_c * 2 + 1) as u64;
        let r = self.size_r as u64;
        let c = self.size_c as u64;
        proof {
            lemma_potential_le(self.stage@, 2 * self.size_c + 1);
            lemma_area_bounds(self.size_r as int, self.size_c as int);
            assert(rows * cols <= MAX_CELLS);
            assert(r * (c + 1) <= MAX_CELLS);
            assert((r + 1) * c <= MAX_CELLS);
        }
        let bound = 7 * (rows * cols) + 3 * (r * (c + 1) + (r + 1) * c);
        proof {
            assert(7 * self.stage@.len() * (2 * self.size_c + 1) == 7 * (rows * cols)) by (
            nonlinear_arith)
                requires
                    self.stage@.len() == rows,
                    cols == 2 * self.size_c + 1,
            ;
            assert(rows * cols == (2 * self.size_r + 1) * (2 * self.size_c + 1));
            assert(7 * (2 * self.size_r + 1) * (2 * self.size_c + 1) == 7 * ((2 * self.size_r + 1) * (2
                * self.size_c + 1))) by (nonlinear_arith);
        }
        (self.score as u64) + bound <= 0xffff_ffffu64
    }
}

/// A search result that reports a single answer.
pub open spec fn single_answer(r: SolveResult) -> bool {
    r.has_answer && !r.multi_answer && !r.over_depth
}

/// The score of `s` has room for one more merge (see `merge_room`).
pub open spec fn room_for_merge(s: SolvingStage) -> bool {
    s.score + 7 * (2 * s.size_r + 1) * (2 * s.size_c + 1) + 3 * lines_count(s) <= u32::MAX
}

/// `a` and `b` are boards of one size with the same clues.
pub open spec fn same_clues(a: SolvingStage, b: SolvingStage) -> bool {
    &&& a.size_r == b.size_r
    &&& a.size_c == b.size_c
    &&& forall|r: int, c: int|
        0 <= r < a.size_r && 0 <= c < a.size_c ==> #[trigger] number_of(a, r, c) == number_of(b, r, c)
}

/// Some board with the clues of `b` was searched, with the result `rep`.
pub open spec fn clues_searched(b: SolvingStage, rep: SolveResult) -> bool {
    exists|t0: SolvingStage, t: SolvingStage|
        #![trigger same_clues(t0, b), search_outcome(t0, t, rep)]
        same_clues(t0, b) && search_outcome(t0, t, rep)
}

/// Same clues is an equivalence.
proof fn lemma_same_clues_trans(a: SolvingStage, b: SolvingStage, c: SolvingStage)
    requires
        same_clues(a, b),
        same_clues(b, c),
    ensures
        same_clues(a, c),
{
    assert forall|r: int, k: int| 0 <= r < a.size_r && 0 <= k < a.size_c implies #[trigger] number_of(
        a,
        r,
        k,
    ) == number_of(c, r, k) by {
        assert(number_of(a, r, k) == number_of(b, r, k));
    }
}

/// The drawn and crossed-out sides of an empty cell, and so the clues it may take: none
/// when the cell already has a clue or all four sides are decided; otherwise the number
/// of drawn sides and how many values from there on leave room for the crossed-out ones.
fn clue_span(s: &SolvingStage, r: isize, c: isize) -> (res: Option<(i8, usize)>)
    requires
        s.wf(),
        0 <= r < s.size_r,
        0 <= c < s.size_c,
    ensures
        res is None <==> (number_of(*s, r as int, c as int) != -1 || side_count(*s, r as int, c as int, 1)
            + side_count(*s, r as int, c as int, 0) == 4),
        res matches Some(p) ==> p.0 == side_count(*s, r as int, c as int, 1) && p.1 == 4 - side_count(
            *s,
            r as int,
            c as int,
            1,
        ) - side_count(*s, r as int, c as int, 0) && p.1 >= 1,
{
    proof {
        lemma_offset_kind(r as int, c as int, 0, 0);
        lemma_offset_kind(r as int, c as int, 0, -1);
        lemma_offset_kind(r as int, c as int, 0, 1);
        lemma_offset_kind(r as int, c as int, -1, 0);
        lemma_offset_kind(r as int, c as int, 1, 0);
    }
    if s.cell(r * 2 + 1, c * 2 + 1) != -1 {
        return None;
    }
    let sides: [i8; 4] = [
        s.cell(r * 2 + 1, c * 2),
        s.cell(r * 2 + 1, c * 2 + 2),
        s.cell(r * 2, c * 2 + 1),
        s.cell(r * 2 + 2, c * 2 + 1),
    ];
    let mut line_count: i8 = 0;
    let mut no_line_count: i8 = 0;
    let mut k: usize = 0;
    while k < 4
        invariant
            0 <= k <= 4,
            sides@ == seq![
                s.at(2 * r + 1, 2 * c),
                s.at(2 * r + 1, 2 * c + 2),
                s.at(2 * r, 2 * c + 1),
                s.at(2 * r + 2, 2 * c + 1),
            ],
            line_count == side_lines_upto(sides@, 1, k as int),
            no_line_count == side_lines_upto(sides@, 0, k as int),
            0 <= line_count <= k,
            0 <= no_line_count <= k,
            line_count + no_line_count <= k,
        decreases 4 - k,
    {
        if sides[k] == 1 {
            line_count += 1;
        } else if sides[k] == 0 {
            no_line_count += 1;
        }
        k = k + 1;
    }
    proof {
        reveal_with_fuel(side_lines_upto, 5);
    }
    if line_count + no_line_count == 4 {
        return None;
    }
    Some((line_count, (4 - no_line_count - line_count) as usize))
}

/// How many of the first `k` values of `sides` are `v`.
pub open spec fn side_lines_upto(sides: Seq<i8>, v: i8, k: int) -> int
    decreases k,
{
    if k <= 0 {
        0
    } else {
        side_lines_upto(sides, v, k - 1) + if sides[k - 1] == v {
            1int
        } else {
            0int
        }
    }
}

/// Puts the clue `n` into the empty cell `(r, c)` of `t` and applies its first
/// deductions: the cell holds `n` and every other clue stays.
fn add_clue(t: &mut SolvingStage, r: isize, c: isize, n: i8)
    requires
        old(t).wf(),
        old(t).headroom(),
        numbers_valid(*old(t)),
        0 <= r < old(t).size_r,
        0 <= c < old(t).size_c,
        0 <= n <= 3,
    ensures
        final(t).wf(),
        final(t).headroom(),
        final(t).size_r == old(t).size_r,
        final(t).size_c == old(t).size_c,
        numbers_valid(*final(t)),
        number_of(*final(t), r as int, c as int) == n,
        forall|i: int, j: int|
            0 <= i < old(t).size_r && 0 <= j < old(t).size_c && !(i == r && j == c) ==> #[trigger] number_of(
                *final(t),
                i,
                j,
            ) == number_of(*old(t), i, j),
{
    let ghost before_set = *t;
    proof {
        lemma_offset_kind(r as int, c as int, 0, 0);
    }
    t.set_number(r, c, n);
    let ghost before_check = *t;
    proof {
        lemma_wrote(before_set, before_check, 2 * r + 1, 2 * c + 1, n);
        assert forall|i: int, j: int|
            0 <= i < before_set.size_r && 0 <= j < before_set.size_c && !(i == r && j == c) implies #[trigger] number_of(
            before_check,
            i,
            j,
        ) == number_of(before_set, i, j) by {
            lemma_offset_kind(i, j, 0, 0);
            assert(before_set.in_grid(2 * i + 1, 2 * j + 1));
        }
        assert(before_set.in_grid(2 * r + 1, 2 * c + 1));
        assert forall|i: int, j: int|
            0 <= i < before_check.size_r && 0 <= j < before_check.size_c implies -1
            <= #[trigger] number_of(before_check, i, j) <= 3 by {
            lemma_offset_kind(i, j, 0, 0);
            assert(before_set.in_grid(2 * i + 1, 2 * j + 1));
            assert(-1 <= number_of(before_set, i, j) <= 3);
        }
    }
    t.first_check_number(r, c);
    proof {
        lemma_first_check_numbers(before_check, *t, r as int, c as int);
    }
}

/// Grows the clues of `stage` until `solve` finds it a single answer.
///
/// The board is searched (to depth `solve_depth`); a board without answer, or with a
/// single one, is done, and the search's result is returned. Otherwise a copy of the
/// board receives a random clue in an empty cell (see `clue_span`), no smaller than the
/// lines already drawn around it and leaving room for the lines crossed out, and the
/// copy is grown in turn: when it has a single answer its clues are merged into the
/// board and that answer is returned; when it has several they are merged and a fresh
/// copy is tried; when it has none another clue is drawn, and after
/// `MP_NUMBER_TRY_COUNT` such failures in a row the depth grows (up to `MAX_DEPTH`) and
/// the board is reported without answer; when the copy was left undecided at its depth
/// limit, another clue goes into the same copy. The generator gives up, reporting a
/// search stopped at its limit, once `fuel` runs out or the score has no room for another
/// merge. The second value is the first search's result and the board it left.
fn make_puzzle_unit(stage: &mut SolvingStage, solve_depth: &mut i32, fuel: &mut u64) -> (res: (
    SolveResult,
    Ghost<(SolveResult, SolvingStage)>,
))
    requires
        old(stage).wf(),
        old(stage).headroom(),
        old(stage).size_r >= 1,
        old(stage).size_c >= 1,
        numbers_valid(*old(stage)),
        1 <= *old(solve_depth) <= MAX_DEPTH,
    ensures
        puzzle_step(*old(stage), *final(stage)),
        *old(solve_depth) <= *final(solve_depth) <= MAX_DEPTH,
        *final(fuel) <= *old(fuel),
        res.0.no_answer || single_answer(res.0) || res.0 == (SolveResult {
            has_answer: false,
            multi_answer: false,
            no_answer: false,
            over_depth: true,
        }),
        search_outcome(*old(stage), res.1@.1, res.1@.0),
        res.1@.0.no_answer || single_answer(res.1@.0) ==> res.0 == res.1@.0 && *final(stage) == res.1@.1
            && *final(fuel) == *old(fuel),
        res.0 == (SolveResult { has_answer: false, multi_answer: false, no_answer: false, over_depth: true })
            ==> *final(fuel) == 0 || !room_for_merge(*final(stage)),
        single_answer(res.0) ==> clues_searched(*final(stage), res.0),
    decreases *old(fuel),
{
    let ghost s0 = *stage;
    let result = solve(stage, *solve_depth, 0);
    let ghost first = (result, *stage);
    let mut rng = thread_rng();
    proof {
        lemma_search_step(s0, *stage, result);
    }
    if result.no_answer {
        return (result, Ghost(first));
    } else if result.has_answer && !result.multi_answer && !result.over_depth {
        proof {
            lemma_refines_numbers(s0, *stage);
            assert(same_clues(s0, *stage));
            assert(search_outcome(s0, first.1, result));
        }
        return (result, Ghost(first));
    }
    let mut try_count: i32 = 0;
    loop
        invariant
            puzzle_step(s0, *stage),
            s0.size_r >= 1,
            s0.size_c >= 1,
            *old(solve_depth) <= *solve_depth <= MAX_DEPTH,
            1 <= *old(solve_depth),
            *fuel <= *old(fuel),
            s0 == *old(stage),
            0 <= try_count <= MP_NUMBER_TRY_COUNT,
            search_outcome(s0, first.1, first.0),
            !first.0.no_answer && !single_answer(first.0),
        decreases *fuel,
    {
        if *fuel == 0 {
            return (gave_up(), Ghost(first));
        }
        *fuel = *fuel - 1;
        let ghost outer_fuel = *fuel + 1;
        let mut new_stage = stage.duplicate();
        proof {
            crate::construct::lemma_same_board(*stage, new_stage);
            lemma_refines_numbers(*stage, new_stage);
        }
        loop
            invariant
                puzzle_step(s0, *stage),
                s0.size_r >= 1,
                s0.size_c >= 1,
                *old(solve_depth) <= *solve_depth <= MAX_DEPTH,
                1 <= *old(solve_depth),
                *fuel < outer_fuel,
                outer_fuel <= *old(fuel),
                s0 == *old(stage),
                0 <= try_count <= MP_NUMBER_TRY_COUNT,
                new_stage.wf(),
                new_stage.headroom(),
                new_stage.size_r == stage.size_r,
                new_stage.size_c == stage.size_c,
                numbers_valid(new_stage),
                numbers_kept(*stage, new_stage),
                search_outcome(s0, first.1, first.0),
                !first.0.no_answer && !single_answer(first.0),
            decreases *fuel,
        {
            if *fuel == 0 {
                return (gave_up(), Ghost(first));
            }
            *fuel = *fuel - 1;
            // add a new number
            let r = random_below(&mut rng, stage.size_r as usize) as isize;
            let c = random_below(&mut rng, stage.size_c as usize) as isize;
            let span = clue_span(stage, r, c);
            if span.is_none() {
                continue;
            }
            let (lo, width) = span.unwrap();
            let n = lo + random_below(&mut rng, width) as i8;
            let ghost before_add = new_stage;
            add_clue(&mut new_stage, r, c, n);
            proof {
                assert forall|i: int, j: int|
                    0 <= i < stage.size_r && 0 <= j < stage.size_c && number_of(*stage, i, j) != -1 implies #[trigger] number_of(
                    new_stage,
                    i,
                    j,
                ) == number_of(*stage, i, j) by {
                    assert(number_of(before_add, i, j) == number_of(*stage, i, j));
                }
            }
            let ghost before_unit = new_stage;
            let (new_result, _) = make_puzzle_unit(&mut new_stage, solve_depth, fuel);
            proof {
                assert forall|i: int, j: int|
                    0 <= i < stage.size_r && 0 <= j < stage.size_c && number_of(*stage, i, j) != -1 implies #[trigger] number_of(
                    new_stage,
                    i,
                    j,
                ) == number_of(*stage, i, j) by {
                    assert(number_of(before_unit, i, j) == number_of(*stage, i, j));
                }
            }
            if new_result.no_answer {
                // no answer
                try_count += 1;
                if try_count <= MP_NUMBER_TRY_COUNT {
                    break;
                } else {
                    if *solve_depth < MAX_DEPTH {
                        *solve_depth += 1;
                    }
                    return (SolveResult {
                        has_answer: false,
                        multi_answer: false,
                        no_answer: true,
                        over_depth: false,
                    }, Ghost(first));
                }
            } else if new_result.has_answer && !new_result.multi_answer && !new_result.over_depth {
                // unique answer
                if !stage.merge_room() {
                    return (gave_up(), Ghost(first));
                }
                let ghost before_merge = *stage;
                stage.marge(&new_stage);
                proof {
                    lemma_merge_step(before_merge, new_stage, *stage);
                    lemma_step_trans(s0, before_merge, *stage);
                    assert forall|i: int, j: int| 0 <= i < new_stage.size_r && 0 <= j < new_stage.size_c implies #[trigger] number_of(
                        new_stage,
                        i,
                        j,
                    ) == number_of(*stage, i, j) by {
                        lemma_offset_kind(i, j, 0, 0);
                        assert(before_merge.in_grid(2 * i + 1, 2 * j + 1));
                        assert(stage.at(2 * i + 1, 2 * j + 1) == merged_value(before_merge, new_stage, 2 * i + 1, 2 * j + 1));
                    }
                    assert(same_clues(new_stage, *stage));
                    let (t0, t) = choose|t0: SolvingStage, t: SolvingStage|
                        #![trigger same_clues(t0, new_stage), search_outcome(t0, t, new_result)]
                        same_clues(t0, new_stage) && search_outcome(t0, t, new_result);
                    lemma_same_clues_trans(t0, new_stage, *stage);
                    assert(same_clues(t0, *stage) && search_outcome(t0, t, new_result));
                }
                return (new_result, Ghost(first));
            } else if new_result.has_answer {
                // several answers
                if !stage.merge_room() {
                    return (gave_up(), Ghost(first));
                }
                let ghost before_merge = *stage;
                stage.marge(&new_stage);
                proof {
                    lemma_merge_step(before_merge, new_stage, *stage);
                    lemma_step_trans(s0, before_merge, *stage);
                }
                try_count = 0;
                break;
            } else {
                // stopped at the depth limit
                continue;
            }
        }
    }
}

/// What the generator may report of the board `b` it leaves: no answer, a single
/// answer found by searching a board with the clues of `b`, or a stop for want of fuel
/// or of score room.
pub open spec fn unit_report(b: SolvingStage, rep: SolveResult) -> bool {
    &&& rep.no_answer || single_answer(rep) || rep == (SolveResult {
        has_answer: false,
        multi_answer: false,
        no_answer: false,
        over_depth: true,
    })
    &&& single_answer(rep) ==> clues_searched(b, rep)
}

/// Makes a puzzle of `size_r` by `size_c` cells: starting from an empty board, clues
/// are grown by the generator above, searching to depth one at first. The board it
/// ends with is returned, its clues all from 0 to 3, with what the generator reported
/// of it.
pub fn make_puzzle(size_r: isize, size_c: isize) -> (res: SolvingStage)
    requires
        1 <= size_r,
        1 <= size_c,
        (2 * size_r + 1) * (2 * size_c + 1) <= MAX_CELLS,
    ensures
        res.wf(),
        res.size_r == size_r,
        res.size_c == size_c,
        numbers_valid(res),
        exists|rep: SolveResult| #[trigger] unit_report(res, rep),
{
    let mut stage = SolvingStage::new(size_r, size_c);
    proof {
        lemma_potential_le(stage.stage@, 2 * size_c + 1);
        lemma_area_bounds(size_r as int, size_c as int);
        assert(7 * stage.stage@.len() * (2 * size_c + 1) == 7 * ((2 * size_r + 1) * (2 * size_c + 1))) by (nonlinear_arith)
            requires
                stage.stage@.len() == 2 * size_r + 1,
        ;
        assert forall|r: int, c: int| 0 <= r < stage.size_r && 0 <= c < stage.size_c implies -1
            <= #[trigger] number_of(stage, r, c) <= 3 by {
            lemma_offset_kind(r, c, 0, 0);
            assert(stage.in_grid(2 * r + 1, 2 * c + 1));
        }
    }
    let mut depth: i32 = 1;
    let mut fuel: u64 = u64::MAX;
    let (rep, _) = make_puzzle_unit(&mut stage, &mut depth, &mut fuel);
    proof {
        assert(unit_report(stage, rep));
    }
    stage
}

/// A puzzle made by `make_puzzle`, as text: its rows of clues top to bottom, joined by
/// `|`, with `" "` for an empty cell and the digit of each clue.
pub fn make_puzzle_web(size_r: isize, size_c: isize) -> (res: String)
    requires
        1 <= size_r,
        1 <= size_c,
        (2 * size_r + 1) * (2 * size_c + 1) <= MAX_CELLS,
    ensures
        exists|s: SolvingStage|
            s.size_r == size_r && s.size_c == size_c && numbers_valid(s) && res@ == puzzle_text(s)
                && exists|rep: SolveResult| #[trigger] unit_report(s, rep),
{
    let stage = make_puzzle(size_r, size_c);
    puzzle_string(&stage)
}

/// A board whose clues stayed where they were, or were dropped, still matches the
/// region its clues came from.
proof fn lemma_clues_kept(o: SolvingStage, s: SolvingStage, b: Seq<Vec<bool>>)
    requires
        clues_match(o, b),
        s.size_r == o.size_r,
        s.size_c == o.size_c,
        forall|r: int, c: int|
            0 <= r < o.size_r && 0 <= c < o.size_c ==> #[trigger] number_of(s, r, c) == -1
                || number_of(s, r, c) == number_of(o, r, c),
    ensures
        clues_match(s, b),
{
    assert forall|r: int, c: int| 0 <= r < s.size_r && 0 <= c < s.size_c implies #[trigger] number_of(
        s,
        r,
        c,
    ) == -1 || number_of(s, r, c) == border_count(b, s.size_r as int, s.size_c as int, r, c) by {
        assert(number_of(o, r, c) == -1 || number_of(o, r, c) == border_count(
            b,
            o.size_r as int,
            o.size_c as int,
            r,
            c,
        ));
    }
}

/// What a rough search of a fresh board with clues asks: at least one cell each way, and
/// a number of grid positions within `MAX_CELLS`, so that the score can take every
/// deduction on such a board.
pub open spec fn rough_room(size_r: isize, size_c: isize) -> bool {
    &&& 1 <= size_r
    &&& 1 <= size_c
    &&& (2 * size_r + 1) * (2 * size_c + 1) <= MAX_CELLS
}

/// Some cell of the region `b` is in it.
pub open spec fn region_nonempty(b: Seq<Vec<bool>>, rows: int, cols: int) -> bool {
    exists|i: int, j: int| 0 <= i < rows && 0 <= j < cols && #[trigger] b[i]@[j]
}

/// Every cell of `s` holds as clue the number of its sides on the border of `b`.
pub open spec fn all_clues(s: SolvingStage, b: Seq<Vec<bool>>) -> bool {
    forall|r: int, c: int|
        0 <= r < s.size_r && 0 <= c < s.size_c ==> #[trigger] number_of(s, r, c) == border_count(
            b,
            s.size_r as int,
            s.size_c as int,
            r,
            c,
        )
}

/// `rep` is what a rough search reported of the board `s` it left: no answer exactly
/// when `s` is contradictory, an outcome other than a stop at the limit is no answer
/// or a single one, and a single answer is a completed board.
pub open spec fn rough_settled(s: SolvingStage, rep: SolveResult) -> bool {
    &&& rep.no_answer <==> !s.result
    &&& !rep.over_depth ==> rep.no_answer || single_answer(rep)
    &&& single_answer(rep) ==> numbers_satisfied(s) && exists|w: Seq<(int, int)>| closed_walk(s, w)
}

/// What `make_puzzle2` promises of its board `s`: its clues count sides on the border
/// of the region `b`, which is not empty; the last rough search of `s` reported `rep`,
/// which is neither several answers nor a stop at the limit unless `s` still holds
/// every clue of the region.
pub open spec fn puzzle2_made(s: SolvingStage, b: Seq<Vec<bool>>, rep: SolveResult) -> bool {
    &&& blocks_shaped(b, s.size_r as int, s.size_c as int)
    &&& clues_match(s, b)
    &&& region_nonempty(b, s.size_r as int, s.size_c as int)
    &&& rough_settled(s, rep)
    &&& (!rep.multi_answer && !rep.over_depth) || all_clues(s, b)
}

/// The first check and a rough search of a fresh board with clues; the clues stay.
fn settle_fresh(
    stage: &mut SolvingStage,
    solve_roughly_try_count_list: &Vec<usize>,
    solve_roughly_check_count: &usize,
) -> (res: SolveResult)
    requires
        old(stage).wf(),
        rough_room(old(stage).size_r, old(stage).size_c),
        old(stage).score == 0,
        solve_roughly_try_count_list@.len() < i32::MAX,
        *solve_roughly_check_count > 0,
    ensures
        final(stage).wf(),
        final(stage).size_r == old(stage).size_r,
        final(stage).size_c == old(stage).size_c,
        forall|r: int, c: int|
            0 <= r < old(stage).size_r && 0 <= c < old(stage).size_c ==> #[trigger] number_of(
                *final(stage),
                r,
                c,
            ) == number_of(*old(stage), r, c),
        degrees_ok(*final(stage)),
        labels_followed(*final(stage)),
        res.no_answer <==> !final(stage).result,
        res.no_answer ==> !res.has_answer && !res.multi_answer && !res.over_depth,
        res.multi_answer ==> res.has_answer,
        (res.has_answer && !res.multi_answer && !res.over_depth) ==> numbers_satisfied(*final(stage))
            && exists|w: Seq<(int, int)>| closed_walk(*final(stage), w),
        !res.over_depth ==> res.no_answer || single_answer(res),
{
    let ghost o = *stage;
    proof {
        lemma_potential_le(stage.stage@, 2 * stage.size_c + 1);
        lemma_area_bounds(stage.size_r as int, stage.size_c as int);
        assert(7 * stage.stage@.len() * (2 * stage.size_c + 1) == 7 * ((2 * stage.size_r + 1) * (2
            * stage.size_c + 1))) by (nonlinear_arith)
            requires
                stage.stage@.len() == 2 * stage.size_r + 1,
        ;
        assert(stage.pot() <= u32::MAX);
    }
    stage.first_check();
    let ghost checked = *stage;
    proof {
        assert forall|r: int, c: int| 0 <= r < o.size_r && 0 <= c < o.size_c implies #[trigger] number_of(
            checked,
            r,
            c,
        ) == number_of(o, r, c) by {
            lemma_offset_kind(r, c, 0, 0);
            assert(o.in_grid(2 * r + 1, 2 * c + 1));
        }
        lemma_potential_nonneg(stage.stage@);
    }
    let result = solve_roughly(stage, 0, 50, solve_roughly_try_count_list, solve_roughly_check_count);
    proof {
        lemma_refines_numbers(checked, *stage);
    }
    result
}

/// One try at a complete puzzle: a region grown from a random cell, every cell
/// numbered with its sides on the region's border, then checked and searched roughly.
/// The board, the search's result and the region are returned.
fn full_number_game(
    size_r: isize,
    size_c: isize,
    solve_roughly_try_count_list: &Vec<usize>,
    solve_roughly_check_count: &usize,
    rng: &mut ThreadRng,
) -> (res: (SolvingStage, SolveResult, Vec<Vec<bool>>))
    requires
        rough_room(size_r, size_c),
        solve_roughly_try_count_list@.len() < i32::MAX,
        *solve_roughly_check_count > 0,
    ensures
        res.0.wf(),
        res.0.size_r == size_r,
        res.0.size_c == size_c,
        blocks_shaped(res.2@, size_r as int, size_c as int),
        clues_match(res.0, res.2@),
        region_nonempty(res.2@, size_r as int, size_c as int),
        all_clues(res.0, res.2@),
        rough_settled(res.0, res.1),
{
    proof {
        lemma_area_bounds(size_r as int, size_c as int);
    }
    let mut blocks = false_rows(size_r as usize, size_c as usize);
    let r0 = random_below(rng, size_r as usize);
    let c0 = random_below(rng, size_c as usize);
    let ghost before = blocks@;
    blocks[r0][c0] = true;
    proof {
        assert forall|i: int| 0 <= i < size_r implies #[trigger] blocks@[i]@.len() == size_c by {
            if i != r0 {
                assert(blocks@[i] == before[i]);
            }
        }
    }
    proof {
        assert(blocks@[r0 as int]@[c0 as int]);
    }
    grow_blocks(&mut blocks, size_r, size_c, rng);
    proof {
        assert(blocks@[r0 as int]@[c0 as int]);
        assert(region_nonempty(blocks@, size_r as int, size_c as int));
    }
    let mut stage_temp = SolvingStage::new(size_r, size_c);
    let ghost fresh = stage_temp;
    stage_temp.number_blocks(&blocks);
    proof {
        assert forall|r: int, c: int| 0 <= r < size_r && 0 <= c < size_c implies #[trigger] number_of(
            stage_temp,
            r,
            c,
        ) == -1 || number_of(stage_temp, r, c) == border_count(
            blocks@,
            stage_temp.size_r as int,
            stage_temp.size_c as int,
            r,
            c,
        ) by {
            lemma_offset_kind(r, c, 0, 0);
            assert(fresh.in_grid(2 * r + 1, 2 * c + 1));
            assert((2 * r + 1 - 1) / 2 == r);
            assert((2 * c + 1 - 1) / 2 == c);
            let n = border_count(blocks@, size_r as int, size_c as int, r, c);
            assert(0 <= n <= 4);
        }
    }
    let ghost numbered = stage_temp;
    proof {
        assert forall|r: int, c: int| 0 <= r < size_r && 0 <= c < size_c implies #[trigger] number_of(
            numbered,
            r,
            c,
        ) == border_count(blocks@, size_r as int, size_c as int, r, c) by {
            lemma_offset_kind(r, c, 0, 0);
            assert(fresh.in_grid(2 * r + 1, 2 * c + 1));
            assert((2 * r + 1 - 1) / 2 == r);
            assert((2 * c + 1 - 1) / 2 == c);
            let n = border_count(blocks@, size_r as int, size_c as int, r, c);
            assert(0 <= n <= 4);
        }
    }
    let result = settle_fresh(&mut stage_temp, solve_roughly_try_count_list, solve_roughly_check_count);
    proof {
        lemma_clues_kept(numbered, stage_temp, blocks@);
        assert forall|r: int, c: int| 0 <= r < size_r && 0 <= c < size_c implies #[trigger] number_of(
            stage_temp,
            r,
            c,
        ) == border_count(blocks@, size_r as int, size_c as int, r, c) by {
            assert(number_of(stage_temp, r, c) == number_of(numbered, r, c));
        }
    }
    (stage_temp, result, blocks)
}

/// Makes a puzzle of `size_r` by `size_c` cells from a region: a region of cells is
/// grown at random and every cell gets as clue the number of its sides on the region's
/// border, until a rough search of that board (with the given tries per depth and
/// lines drawn per try) neither finds several answers nor stops at its limit. Clues are
/// then dropped at random, each with probability 1/4 at first: a board that the rough
/// search still settles is kept, and after each board it does not, the probability is
/// halved; after six such boards in a row, or when no clue was dropped, the last kept
/// board is returned. Each board kept has fewer clues than the one before, so the
/// dropping ends. Every clue of the result counts the sides of its cell on the
/// border of one region of the board.
pub fn make_puzzle2(
    size_r: isize,
    size_c: isize,
    solve_roughly_try_count_list: &Vec<usize>,
    solve_roughly_check_count: &usize,
) -> (res: SolvingStage)
    requires
        rough_room(size_r, size_c),
        solve_roughly_try_count_list@.len() < i32::MAX,
        *solve_roughly_check_count > 0,
    ensures
        res.wf(),
        res.size_r == size_r,
        res.size_c == size_c,
        exists|b: Seq<Vec<bool>>, rep: SolveResult| #[trigger] puzzle2_made(res, b, rep),
{
    let mut rng = thread_rng();
    // make the answer and the full number game
    let mut attempt = full_number_game(
        size_r,
        size_c,
        solve_roughly_try_count_list,
        solve_roughly_check_count,
        &mut rng,
    );
    let mut fuel: u64 = u64::MAX;
    while (attempt.1.multi_answer || attempt.1.over_depth) && fuel > 0
        invariant
            rough_room(size_r, size_c),
            solve_roughly_try_count_list@.len() < i32::MAX,
            *solve_roughly_check_count > 0,
            attempt.0.wf(),
            attempt.0.size_r == size_r,
            attempt.0.size_c == size_c,
            blocks_shaped(attempt.2@, size_r as int, size_c as int),
            clues_match(attempt.0, attempt.2@),
            region_nonempty(attempt.2@, size_r as int, size_c as int),
            all_clues(attempt.0, attempt.2@),
            rough_settled(attempt.0, attempt.1),
        decreases fuel,
    {
        fuel = fuel - 1;
        attempt = full_number_game(
            size_r,
            size_c,
            solve_roughly_try_count_list,
            solve_roughly_check_count,
            &mut rng,
        );
    }
    let (stage_answer, first_result, blocks) = attempt;
    // drop numbers
    let mut last_ok_stage = stage_answer;
    let ghost mut last_rep = first_result;
    let mut halvings: u32 = 0;
    let mut try_count: u32 = 0;
    loop
        invariant
            rough_room(size_r, size_c),
            solve_roughly_try_count_list@.len() < i32::MAX,
            *solve_roughly_check_count > 0,
            last_ok_stage.wf(),
            last_ok_stage.size_r == size_r,
            last_ok_stage.size_c == size_c,
            blocks_shaped(blocks@, size_r as int, size_c as int),
            clues_match(last_ok_stage, blocks@),
            puzzle2_made(last_ok_stage, blocks@, last_rep),
            try_count <= 5,
            halvings <= 63,
        decreases clue_count(last_ok_stage), 5 - try_count,
    {
        proof {
            lemma_clues_nonneg(last_ok_stage, last_ok_stage.size_r as int);
        }
        match get_dropped_stage(&last_ok_stage, halvings, &mut rng) {
            Some(dropped) => {
                let mut dropped_stage = dropped;
                proof {
                    lemma_clues_kept(last_ok_stage, dropped_stage, blocks@);
                }
                let ghost before = dropped_stage;
                let result = settle_fresh(
                    &mut dropped_stage,
                    solve_roughly_try_count_list,
                    solve_roughly_check_count,
                );
                proof {
                    lemma_clues_kept(before, dropped_stage, blocks@);
                }
                if result.multi_answer || result.over_depth {
                    if halvings < 63 {
                        halvings = halvings + 1;
                    }
                    if try_count >= 5 {
                        break;
                    }
                    try_count = try_count + 1;
                } else {
                    proof {
                        let (wr, wc) = choose|wr: int, wc: int|
                            0 <= wr < last_ok_stage.size_r && 0 <= wc < last_ok_stage.size_c
                                && #[trigger] number_of(before, wr, wc) == -1 && number_of(
                                last_ok_stage,
                                wr,
                                wc,
                            ) != -1;
                        assert(number_of(dropped_stage, wr, wc) == number_of(before, wr, wc));
                        assert forall|r: int, c: int|
                            0 <= r < last_ok_stage.size_r && 0 <= c < last_ok_stage.size_c implies #[trigger] number_of(
                            dropped_stage,
                            r,
                            c,
                        ) == -1 || number_of(dropped_stage, r, c) == number_of(last_ok_stage, r, c) by {
                            assert(number_of(dropped_stage, r, c) == number_of(before, r, c));
                        }
                        lemma_fewer_clues(dropped_stage, last_ok_stage, wr, wc);
                        lemma_clues_nonneg(dropped_stage, dropped_stage.size_r as int);
                    }
                    last_ok_stage = dropped_stage;
                    proof {
                        last_rep = result;
                    }
                    try_count = 0;
                }
            },
            None => {
                break;
            },
        }
    }
    proof {
        assert(puzzle2_made(last_ok_stage, blocks@, last_rep));
    }
    last_ok_stage
}

/// A puzzle made by `make_puzzle2` with two tries at each of two depths and five lines
/// drawn per try, as text: its rows of clues top to bottom, joined by `|`, with `" "` for
/// an empty cell, the digit of each clue from 0 to 3, and nothing for a clue of 4.
pub fn make_puzzle_web2(size_r: isize, size_c: isize) -> (res: String)
    requires
        rough_room(size_r, size_c),
    ensures
        exists|s: SolvingStage, b: Seq<Vec<bool>>, rep: SolveResult|
            s.size_r == size_r && s.size_c == size_c && #[trigger] puzzle2_made(s, b, rep) && res@
                == puzzle_text(s),
{
    let tries = vec![2usize, 2usize];
    let check_count: usize = 5;
    let stage = make_puzzle2(size_r, size_c, &tries, &check_count);
    puzzle_string(&stage)
}

} // verus!
