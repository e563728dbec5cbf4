use vstd::prelude::*;
use crate::construct::{grid_positions, lemma_grid_positions_bounds, lemma_same_board, same_board};
use crate::fixpoint::{degrees_ok, lemma_degrees_kept};
use crate::grid::{is_line_pos, lemma_offset_kind, lemma_potential_nonneg};
use crate::group::{labels_followed, lemma_labels_kept};
use crate::loopcheck::{loop_found, closed_walk, marks_shaped, numbers_satisfied};
use crate::rotation::{idx_h_line, idx_v_line, RowCol};
use crate::stage::{lemma_refines_trans, lemma_line_progress, lemma_wrote, refines, SolvingStage, MAX_SIDE};

verus! {

/// What a search found: an answer, more than one, none, or that it stopped at its
/// depth limit before deciding.
#[derive(Clone, Copy, Debug)]
pub struct SolveResult {
    pub has_answer: bool,
    pub multi_answer: bool,
    pub no_answer: bool,
    pub over_depth: bool,
}

/// Rows of `false`, `rows` by `cols`.
pub(crate) fn false_rows(rows: usize, cols: usize) -> (res: Vec<Vec<bool>>)
    ensures
        res@.len() == rows,
        forall|k: int| 0 <= k < rows ==> #[trigger] res@[k]@.len() == cols,
{
    let mut res: Vec<Vec<bool>> = Vec::new();
    let mut i: usize = 0;
    while i < rows
        invariant
            0 <= i <= rows,
            res@.len() == i,
            forall|k: int| 0 <= k < i ==> #[trigger] res@[k]@.len() == cols,
        decreases rows - i,
    {
        let mut row: Vec<bool> = Vec::new();
        let mut j: usize = 0;
        while j < cols
            invariant
                0 <= j <= cols,
                row@.len() == j,
            decreases cols - j,
        {
            row.push(false);
            j = j + 1;
        }
        res.push(row);
        i = i + 1;
    }
    res
}

/// Whether the line at `line_pos` is undecided, reading the vertical or the horizontal
/// marks by `is_v`.
pub open spec fn line_of(r: int, c: int, is_v: bool) -> (int, int) {
    if is_v {
        (2 * r + 1, 2 * c)
    } else {
        (2 * r, 2 * c + 1)
    }
}

/// The lines `new_stage` decided, marked as `true`.
pub open spec fn marks_of(s: SolvingStage, v_checked: Seq<Vec<bool>>, h_checked: Seq<Vec<bool>>) -> bool {
    &&& forall|r: int, c: int|
        0 <= r < s.size_r && 0 <= c <= s.size_c ==> #[trigger] v_checked[r]@[c] == (s.at(2 * r + 1, 2 * c) != -1)
    &&& forall|r: int, c: int|
        0 <= r <= s.size_r && 0 <= c < s.size_c ==> #[trigger] h_checked[r]@[c] == (s.at(2 * r, 2 * c + 1) != -1)
}

/// Records what one branch of a search found: the lines it decided are marked as
/// tried, and a second answer, or a branch with several, ends the search with more
/// than one answer.
pub(crate) fn record_branch(
    new_stage: &SolvingStage,
    result: SolveResult,
    v_checked: &mut Vec<Vec<bool>>,
    h_checked: &mut Vec<Vec<bool>>,
    has_answer: &mut bool,
    over_depth: bool,
) -> (res: Option<SolveResult>)
    requires
        new_stage.wf(),
        marks_shaped(*new_stage, old(v_checked)@, old(h_checked)@),
    ensures
        marks_shaped(*new_stage, final(v_checked)@, final(h_checked)@),
        marks_of(*new_stage, final(v_checked)@, final(h_checked)@),
        result.multi_answer ==> res == Some(
            SolveResult { has_answer: true, multi_answer: true, no_answer: false, over_depth },
        ) && *final(has_answer) == *old(has_answer),
        !result.multi_answer && result.has_answer && *old(has_answer) ==> res == Some(
            SolveResult { has_answer: true, multi_answer: true, no_answer: false, over_depth },
        ) && *final(has_answer),
        !result.multi_answer && result.has_answer && !*old(has_answer) ==> res is None
            && *final(has_answer),
        !result.multi_answer && !result.has_answer ==> res is None && *final(has_answer) == *old(
            has_answer,
        ),
{
    let lines = new_stage.get_lines_pos();
    let ghost vs = grid_positions(new_stage.size_r as int, new_stage.size_c + 1, true);
    let ghost hs = grid_positions(new_stage.size_r + 1, new_stage.size_c as int, false);
    proof {
        lemma_grid_positions_bounds(new_stage.size_r as int, new_stage.size_c + 1, true);
        lemma_grid_positions_bounds(new_stage.size_r + 1, new_stage.size_c as int, false);
    }
    let mut k: usize = 0;
    while k < lines.len()
        invariant
            new_stage.wf(),
            lines@ == vs + hs,
            vs == grid_positions(new_stage.size_r as int, new_stage.size_c + 1, true),
            hs == grid_positions(new_stage.size_r + 1, new_stage.size_c as int, false),
            0 <= k <= lines@.len(),
            marks_shaped(*new_stage, v_checked@, h_checked@),
            forall|r: int, c: int|
                0 <= r < new_stage.size_r && 0 <= c <= new_stage.size_c && (exists|m: int| 0 <= m < k && #[trigger] lines@[m] == (r as isize, c as isize, true))
                    ==> #[trigger] v_checked@[r]@[c] == (new_stage.at(2 * r + 1, 2 * c) != -1),
            forall|r: int, c: int|
                0 <= r <= new_stage.size_r && 0 <= c < new_stage.size_c && (exists|m: int| 0 <= m < k && #[trigger] lines@[m] == (r as isize, c as isize, false))
                    ==> #[trigger] h_checked@[r]@[c] == (new_stage.at(2 * r, 2 * c + 1) != -1),
        decreases lines@.len() - k,
    {
        let (r, c, is_v) = lines[k];
        proof {
            lemma_grid_positions_bounds(new_stage.size_r as int, new_stage.size_c + 1, true);
            lemma_grid_positions_bounds(new_stage.size_r + 1, new_stage.size_c as int, false);
            if k < vs.len() {
                assert(lines@[k as int] == vs[k as int]);
                assert(grid_positions(new_stage.size_r as int, new_stage.size_c + 1, true)[k as int] == vs[k as int]);
                assert(is_v && 0 <= r < new_stage.size_r && 0 <= c <= new_stage.size_c);
            } else {
                assert(lines@[k as int] == hs[k - vs.len()]);
                assert(grid_positions(new_stage.size_r + 1, new_stage.size_c as int, false)[k - vs.len()] == hs[k - vs.len()]);
                assert(!is_v && 0 <= r <= new_stage.size_r && 0 <= c < new_stage.size_c);
            }
        }
        let ghost before_v = v_checked@;
        let ghost before_h = h_checked@;
        if is_v {
            v_checked[r as usize][c as usize] = new_stage.cell(r * 2 + 1, c * 2) != -1;
        } else {
            h_checked[r as usize][c as usize] = new_stage.cell(r * 2, c * 2 + 1) != -1;
        }
        proof {
            assert forall|i: int| 0 <= i < new_stage.size_r implies #[trigger] v_checked@[i]@.len() == new_stage.size_c + 1 by {
                if is_v && i == r {
                } else {
                    assert(v_checked@[i] == before_v[i]);
                }
            }
            assert forall|i: int| 0 <= i <= new_stage.size_r implies #[trigger] h_checked@[i]@.len() == new_stage.size_c by {
                if !is_v && i == r {
                } else {
                    assert(h_checked@[i] == before_h[i]);
                }
            }
            assert forall|i: int, j: int|
                0 <= i < new_stage.size_r && 0 <= j <= new_stage.size_c && (exists|m: int| 0 <= m < k + 1 && #[trigger] lines@[m] == (i as isize, j as isize, true))
                    implies #[trigger] v_checked@[i]@[j] == (new_stage.at(2 * i + 1, 2 * j) != -1) by {
                if is_v && i == r && j == c {
                } else {
                    if i != r || !is_v {
                        assert(v_checked@[i] == before_v[i]);
                    }
                    let m = choose|m: int| 0 <= m < k + 1 && #[trigger] lines@[m] == (i as isize, j as isize, true);
                    if m == k {
                        assert(false);
                    }
                }
            }
            assert forall|i: int, j: int|
                0 <= i <= new_stage.size_r && 0 <= j < new_stage.size_c && (exists|m: int| 0 <= m < k + 1 && #[trigger] lines@[m] == (i as isize, j as isize, false))
                    implies #[trigger] h_checked@[i]@[j] == (new_stage.at(2 * i, 2 * j + 1) != -1) by {
                if !is_v && i == r && j == c {
                } else {
                    if i != r || is_v {
                        assert(h_checked@[i] == before_h[i]);
                    }
                    let m = choose|m: int| 0 <= m < k + 1 && #[trigger] lines@[m] == (i as isize, j as isize, false);
                    if m == k {
                        assert(false);
                    }
                }
            }
        }
        k = k + 1;
    }
    proof {
        assert forall|r: int, c: int| 0 <= r < new_stage.size_r && 0 <= c <= new_stage.size_c implies
            #[trigger] v_checked@[r]@[c] == (new_stage.at(2 * r + 1, 2 * c) != -1) by {
            lemma_position_listed(new_stage.size_r as int, new_stage.size_c + 1, true, r, c);
            let m = choose|m: int| 0 <= m < vs.len() && vs[m] == (r as isize, c as isize, true);
            assert(lines@[m] == vs[m]);
        }
        assert forall|r: int, c: int| 0 <= r <= new_stage.size_r && 0 <= c < new_stage.size_c implies
            #[trigger] h_checked@[r]@[c] == (new_stage.at(2 * r, 2 * c + 1) != -1) by {
            lemma_position_listed(new_stage.size_r + 1, new_stage.size_c as int, false, r, c);
            let m = choose|m: int| 0 <= m < hs.len() && hs[m] == (r as isize, c as isize, false);
            assert(lines@[vs.len() + m] == hs[m]);
        }
    }
    if result.multi_answer {
        return Some(SolveResult { has_answer: true, multi_answer: true, no_answer: false, over_depth });
    } else if result.has_answer {
        if *has_answer {
            return Some(SolveResult { has_answer: true, multi_answer: true, no_answer: false, over_depth });
        } else {
            *has_answer = true;
            return None;
        }
    }
    None
}

/// Every position of the rows `0 .. h` and columns `0 .. w` is listed.
pub(crate) proof fn lemma_position_listed(h: int, w: int, flag: bool, r: int, c: int)
    requires
        0 <= r < h <= MAX_SIDE + 1,
        0 <= c < w <= MAX_SIDE + 1,
    ensures
        exists|m: int| 0 <= m < grid_positions(h, w, flag).len() && grid_positions(h, w, flag)[m] == (r as isize, c as isize, flag),
    decreases h,
{
    let a = grid_positions(h - 1, w, flag);
    if r < h - 1 {
        lemma_position_listed(h - 1, w, flag, r, c);
        let m = choose|m: int| 0 <= m < a.len() && a[m] == (r as isize, c as isize, flag);
        assert(grid_positions(h, w, flag)[m] == a[m]);
    } else {
        assert(grid_positions(h, w, flag)[a.len() + c] == (r as isize, c as isize, flag));
    }
}


/// What every search promises of the board it leaves and of its result: the board
/// keeps every decision it was given, no score beyond what the deductions earned, a
/// fixpoint of the deductions; the result is one of the outcomes below, and an answer
/// reported alone is a completed board.
pub open spec fn search_outcome(o: SolvingStage, s: SolvingStage, res: SolveResult) -> bool {
    &&& s.wf()
    &&& refines(o, s)
    &&& s.score + s.pot() <= o.score + o.pot()
    &&& s.score >= o.score
    &&& degrees_ok(s)
    &&& labels_followed(s)
    &&& res.no_answer <==> !s.result
    &&& res.no_answer ==> !res.has_answer && !res.multi_answer && !res.over_depth
    &&& res.multi_answer ==> res.has_answer
    &&& (res.has_answer && !res.multi_answer && !res.over_depth) ==> numbers_satisfied(s)
        && exists|w: Seq<(int, int)>| closed_walk(s, w)
}

/// The deductions, then the completion check, on the board being searched.
pub(crate) fn check_and_close(stage: &mut SolvingStage) -> (complete: bool)
    requires
        old(stage).wf(),
        old(stage).headroom(),
    ensures
        final(stage).wf(),
        refines(*old(stage), *final(stage)),
        final(stage).score + final(stage).pot() <= old(stage).score + old(stage).pot(),
        final(stage).score >= old(stage).score,
        degrees_ok(*final(stage)),
        labels_followed(*final(stage)),
        final(stage).pot() <= old(stage).pot(),
        complete ==> numbers_satisfied(*final(stage)) && exists|w: Seq<(int, int)>| closed_walk(*final(stage), w),
        final(stage).result && loop_found(*final(stage)) ==> complete,
{
    let ghost s0 = *stage;
    stage.check();
    let ghost s1 = *stage;
    let complete = stage.check_loop();
    proof {
        lemma_degrees_kept(s1, *stage);
        lemma_labels_kept(s1, *stage);
        crate::stage::lemma_same_grid_progress(s1, *stage);
        lemma_refines_trans(s0, s1, *stage);
        if complete {
            let w = choose|w: Seq<(int, int)>| closed_walk(s1, w);
            assert(closed_walk(*stage, w));
        }
        if stage.result == s1.result {
            assert(*stage == s1);
        }
    }
    complete
}

/// Decides the line at `pos` in a copy of `stage`.
pub(crate) fn branch_with(stage: &SolvingStage, pos: RowCol, line: i8) -> (res: SolvingStage)
    requires
        stage.wf(),
        stage.headroom(),
        stage.in_grid(pos.r as int, pos.c as int),
        is_line_pos(pos.r as int, pos.c as int),
        stage.at(pos.r as int, pos.c as int) == -1,
        line == 0 || line == 1,
    ensures
        res.wf(),
        res.headroom(),
        res.score + res.pot() == stage.score + stage.pot(),
        res.pot() + 3 == stage.pot(),
        refines(*stage, res),
{
    let mut new_stage = stage.duplicate();
    proof {
        lemma_same_board(*stage, new_stage);
        crate::grid::lemma_cell_le_potential(stage.stage@, pos.r as int, pos.c as int);
    }
    let ghost n0 = new_stage;
    new_stage.set_line(pos, line);
    proof {
        lemma_wrote(n0, new_stage, pos.r as int, pos.c as int, line);
        lemma_line_progress(n0, new_stage, pos.r as int, pos.c as int, line);
        lemma_refines_trans(*stage, n0, new_stage);
    }
    new_stage
}

/// Searches the board for its answers: the deductions are applied; a contradictory
/// board has no answer and a completed one has one. Otherwise, unless `depth` reached
/// `max_depth`, each undecided line not decided by an earlier branch is tried drawn and
/// crossed out, searching one level deeper: a branch without answer decides the line
/// the other way and the search starts again; two answers, or a branch with several,
/// end the search with more than one answer.
pub fn solve(stage: &mut SolvingStage, max_depth: i32, depth: i32) -> (res: SolveResult)
    requires
        old(stage).wf(),
        old(stage).headroom(),
        depth <= max_depth || depth + old(stage).pot() < i32::MAX,
    ensures
        search_outcome(*old(stage), *final(stage), res),
        final(stage).result && loop_found(*final(stage)) ==> res == (SolveResult {
            has_answer: true,
            multi_answer: false,
            no_answer: false,
            over_depth: false,
        }),
        !res.over_depth ==> res.no_answer || (res.has_answer && !res.multi_answer),
        depth == max_depth ==> !res.multi_answer && (res.over_depth ==> !res.has_answer),
    decreases old(stage).pot(),
{
    let ghost s0 = *stage;
    proof {
        crate::stage::lemma_progress_refl(s0);
        lemma_potential_nonneg(s0.stage@);
    }
    loop
        invariant
            s0.wf(),
            s0.headroom(),
            s0 == *old(stage),
            depth <= max_depth || depth + s0.pot() < i32::MAX,
            stage.wf(),
            refines(s0, *stage),
            stage.score + stage.pot() <= s0.score + s0.pot(),
            stage.score >= s0.score,
            stage.pot() <= s0.pot(),
        decreases stage.pot(),
    {
        let ghost head_pot = stage.pot();
        let ghost h0 = *stage;
        proof {
            lemma_potential_nonneg(stage.stage@);
        }
        let complete = check_and_close(stage);
        let ghost s1 = *stage;
        proof {
            lemma_refines_trans(s0, h0, *stage);
        }
        if !stage.result {
            return SolveResult { has_answer: false, multi_answer: false, no_answer: true, over_depth: false };
        } else if complete {
            return SolveResult { has_answer: true, multi_answer: false, no_answer: false, over_depth: false };
        } else {
            if depth == max_depth {
                return SolveResult { has_answer: false, multi_answer: false, no_answer: false, over_depth: true };
            }
            let mut has_answer = false;
            let mut over_depth = true;
            let mut v_checked = false_rows(stage.size_r as usize, (stage.size_c + 1) as usize);
            let mut h_checked = false_rows((stage.size_r + 1) as usize, stage.size_c as usize);
            // assume a line and solve.
            let lines = stage.get_lines_pos();
            let ghost vs = grid_positions(stage.size_r as int, stage.size_c + 1, true);
            let ghost hs = grid_positions(stage.size_r + 1, stage.size_c as int, false);
            let mut k: usize = 0;
            let mut restart = false;
            while k < lines.len()
                invariant_except_break
                    *stage == s1,
                    !restart,
                invariant
                    s0.wf(),
                    s0.headroom(),
                    s0 == *old(stage),
                    depth <= max_depth || depth + s0.pot() < i32::MAX,
                    depth != max_depth,
                    s1.wf(),
                    s1.result,
                    !loop_found(s1),
                    refines(s0, s1),
                    s1.score + s1.pot() <= s0.score + s0.pot(),
                    s1.score >= s0.score,
                    s1.pot() <= head_pot,
                    head_pot <= s0.pot(),
                    degrees_ok(s1),
                    labels_followed(s1),
                    lines@ == vs + hs,
                    vs == grid_positions(s1.size_r as int, s1.size_c + 1, true),
                    hs == grid_positions(s1.size_r + 1, s1.size_c as int, false),
                    0 <= k <= lines@.len(),
                    marks_shaped(s1, v_checked@, h_checked@),
                    over_depth,
                ensures
                    restart ==> stage.wf() && refines(s0, *stage) && stage.score + stage.pot()
                        <= s0.score + s0.pot() && stage.score >= s0.score && stage.pot() < head_pot,
                    !restart ==> *stage == s1,
                decreases lines@.len() - k,
            {
                let (r, c, is_v) = lines[k];
                proof {
                    lemma_grid_positions_bounds(s1.size_r as int, s1.size_c + 1, true);
                    lemma_grid_positions_bounds(s1.size_r + 1, s1.size_c as int, false);
                    if k < vs.len() {
                        assert(lines@[k as int] == vs[k as int]);
                        assert(grid_positions(s1.size_r as int, s1.size_c + 1, true)[k as int] == vs[k as int]);
                        assert(is_v && 0 <= r < s1.size_r && 0 <= c <= s1.size_c);
                    } else {
                        assert(lines@[k as int] == hs[k - vs.len()]);
                        assert(grid_positions(s1.size_r + 1, s1.size_c as int, false)[k - vs.len()] == hs[k - vs.len()]);
                        assert(!is_v && 0 <= r <= s1.size_r && 0 <= c < s1.size_c);
                    }
                    lemma_offset_kind(r as int, c as int, 0, -1);
                    lemma_offset_kind(r as int, c as int, -1, 0);
                }
                let line_pos = if is_v {
                    idx_v_line(r, c)
                } else {
                    idx_h_line(r, c)
                };
                if stage.cell(line_pos.r, line_pos.c) != -1 || (is_v && v_checked[r as usize][c as usize]) || (!is_v && h_checked[r as usize][c as usize]) {
                    k = k + 1;
                    continue;
                }
                proof {
                    crate::grid::lemma_cell_le_potential(s1.stage@, line_pos.r as int, line_pos.c as int);
                }
                // line
                {
                    let mut new_stage = branch_with(stage, line_pos, 1);
                    let result = solve(&mut new_stage, max_depth, depth + 1);
                    if result.no_answer {
                        let ghost b = *stage;
                        stage.set_line(line_pos, 0);
                        proof {
                            lemma_line_progress(b, *stage, line_pos.r as int, line_pos.c as int, 0);
                            lemma_refines_trans(s0, b, *stage);
                            lemma_wrote(b, *stage, line_pos.r as int, line_pos.c as int, 0);
                        }
                        restart = true;
                        break;
                    } else {
                        if result.over_depth {
                            over_depth = true;
                        }
                        let return_result = record_branch(&new_stage, result, &mut v_checked, &mut h_checked, &mut has_answer, over_depth);
                        if return_result.is_some() {
                            proof {
                                lemma_degrees_kept(s1, *stage);
                            }
                            return return_result.unwrap();
                        }
                    }
                }
                // no-line
                {
                    let mut new_stage = branch_with(stage, line_pos, 0);
                    let result = solve(&mut new_stage, max_depth, depth + 1);
                    if result.no_answer {
                        let ghost b = *stage;
                        stage.set_line(line_pos, 1);
                        proof {
                            lemma_line_progress(b, *stage, line_pos.r as int, line_pos.c as int, 1);
                            lemma_refines_trans(s0, b, *stage);
                            lemma_wrote(b, *stage, line_pos.r as int, line_pos.c as int, 1);
                        }
                        restart = true;
                        break;
                    } else {
                        if result.over_depth {
                            over_depth = true;
                        }
                        let return_result = record_branch(&new_stage, result, &mut v_checked, &mut h_checked, &mut has_answer, over_depth);
                        if return_result.is_some() {
                            return return_result.unwrap();
                        }
                    }
                }
                k = k + 1;
            }
            if restart {
                proof {
                    lemma_potential_nonneg(stage.stage@);
                }
                continue;
            }
            return SolveResult { has_answer, multi_answer: false, no_answer: false, over_depth };
        }
    }
}

} // verus!
