use vstd::prelude::*;
use crate::construct::{grid_positions, lemma_grid_positions_bounds};
use crate::grid::{is_line_pos, lemma_offset_kind, lemma_potential_nonneg};
use crate::loopcheck::{loop_found, marks_shaped};
use crate::random::{coin_flip, random_below, thread_rng};
use crate::rotation::{idx_h_line, idx_v_line, RowCol};
use crate::solve::{
    branch_with, check_and_close, false_rows, lemma_position_listed, record_branch, search_outcome, SolveResult,
};
use crate::stage::{lemma_line_progress, lemma_refines_trans, lemma_wrote, refines, SolvingStage};

verus! {

/// What a rough search asks of its board: at least one cell each way, room in the
/// score for the deductions of two branches, and a depth within the list of tries.
pub open spec fn rough_pre(s: SolvingStage, depth: i32, tries: Seq<usize>) -> bool {
    &&& s.wf()
    &&& s.size_r >= 1
    &&& s.size_c >= 1
    &&& s.score + s.pot() <= u32::MAX
    &&& 0 <= depth <= tries.len()
    &&& tries.len() < i32::MAX
}

/// `s` refines `o` and decided something more.
pub open spec fn advanced(o: SolvingStage, s: SolvingStage) -> bool {
    &&& s.wf()
    &&& refines(o, s)
    &&& s.score + s.pot() <= o.score + o.pot()
    &&& s.score >= o.score
    &&& s.pot() < o.pot()
}

/// Two searched branches of `o` at the undecided line `pos`.
pub open spec fn candidate(o: SolvingStage, a: SolvingStage, b: SolvingStage, pos: (int, int)) -> bool {
    &&& o.in_grid(pos.0, pos.1)
    &&& is_line_pos(pos.0, pos.1)
    &&& o.at(pos.0, pos.1) == -1
    &&& a.wf()
    &&& b.wf()
    &&& a.size_r == o.size_r
    &&& a.size_c == o.size_c
    &&& b.size_r == o.size_r
    &&& b.size_c == o.size_c
    &&& a.score + a.pot() <= o.score + o.pot()
    &&& b.score + b.pot() <= o.score + o.pot()
    &&& a.score >= o.score + 3
    &&& b.score >= o.score + 3
    &&& a.pot() < o.pot()
    &&& b.pot() < o.pot()
}

/// What one probe of a rough search found.
enum Probe {
    /// The search is over, with this result.
    Done(SolveResult),
    /// The board was decided further; the search starts again.
    Again,
    /// Both branches of the line at `(r, c)` (vertical when the flag is set) were
    /// searched without deciding anything, gaining this much score together.
    Tried(u64, SolvingStage, SolvingStage, isize, isize, bool),
    /// No undecided line of the drawn direction turned up.
    Missed,
}

/// The grid position of the vertical (when `is_v`) or horizontal line of cell `(r, c)`.
pub open spec fn probe_line_pos(r: isize, c: isize, is_v: bool) -> (int, int) {
    if is_v {
        (r * 2 + 1, c * 2)
    } else {
        (r * 2, c * 2 + 1)
    }
}

/// Whether the drawn line of cell `(r, c)` (vertical when `is_v`) is undecided, so that a
/// probe can try it; the draw is in range for its direction.
fn probe_hits(stage: &SolvingStage, r: isize, c: isize, is_v: bool) -> (res: bool)
    requires
        stage.wf(),
        is_v ==> 0 <= r < stage.size_r && 0 <= c <= stage.size_c,
        !is_v ==> 0 <= r <= stage.size_r && 0 <= c < stage.size_c,
    ensures
        stage.in_grid(probe_line_pos(r, c, is_v).0, probe_line_pos(r, c, is_v).1),
        is_line_pos(probe_line_pos(r, c, is_v).0, probe_line_pos(r, c, is_v).1),
        res == (stage.at(probe_line_pos(r, c, is_v).0, probe_line_pos(r, c, is_v).1) == -1),
{
    if is_v {
        proof {
            lemma_offset_kind(r as int, c as int, 0, -1);
        }
        stage.cell(r * 2 + 1, c * 2) == -1
    } else {
        proof {
            lemma_offset_kind(r as int, c as int, -1, 0);
        }
        stage.cell(r * 2, c * 2 + 1) == -1
    }
}

/// Tries one randomly drawn undecided line both ways.
fn probe_line(
    stage: &mut SolvingStage,
    depth: i32,
    score_min: u32,
    solve_roughly_try_count_list: &Vec<usize>,
    solve_roughly_check_count: &usize,
    v_checked: &mut Vec<Vec<bool>>,
    h_checked: &mut Vec<Vec<bool>>,
    has_answer: &mut bool,
) -> (res: Probe)
    requires
        rough_pre(*old(stage), depth, solve_roughly_try_count_list@),
        depth < solve_roughly_try_count_list@.len(),
        *solve_roughly_check_count > 0,
        old(stage).result,
        marks_shaped(*old(stage), old(v_checked)@, old(h_checked)@),
    ensures
        marks_shaped(*old(stage), final(v_checked)@, final(h_checked)@),
        match res {
            Probe::Done(r) => *final(stage) == *old(stage) && r.has_answer && r.multi_answer
                && !r.no_answer && r.over_depth,
            Probe::Again => advanced(*old(stage), *final(stage)),
            Probe::Tried(gain, a, b, r, c, is_v) => *final(stage) == *old(stage) && candidate(
                *old(stage),
                a,
                b,
                probe_line_pos(r, c, is_v),
            ) && gain == a.score + b.score - 2 * old(stage).score,
            Probe::Missed => *final(stage) == *old(stage),
        },
    decreases old(stage).pot(), 0int,
{
    let ghost s1 = *stage;
    let mut rng = thread_rng();
    let is_virtical = coin_flip(&mut rng);
    let mut r: isize = 0;
    let mut c: isize = 0;
    let mut found = false;
    let mut fuel: u64 = u64::MAX;
    while !found && fuel > 0
        invariant
            *stage == s1,
            s1.wf(),
            s1.size_r >= 1,
            s1.size_c >= 1,
            found ==> s1.in_grid(probe_line_pos(r, c, is_virtical).0, probe_line_pos(r, c, is_virtical).1)
                && is_line_pos(probe_line_pos(r, c, is_virtical).0, probe_line_pos(r, c, is_virtical).1)
                && s1.at(probe_line_pos(r, c, is_virtical).0, probe_line_pos(r, c, is_virtical).1) == -1,
            found ==> 0 <= r <= s1.size_r && 0 <= c <= s1.size_c,
        decreases fuel,
    {
        fuel = fuel - 1;
        if is_virtical {
            c = random_below(&mut rng, stage.size_c as usize + 1) as isize;
            r = random_below(&mut rng, stage.size_r as usize) as isize;
        } else {
            c = random_below(&mut rng, stage.size_c as usize) as isize;
            r = random_below(&mut rng, stage.size_r as usize + 1) as isize;
        }
        found = probe_hits(stage, r, c, is_virtical);
    }
    if !found {
        return Probe::Missed;
    }
    let line_pos = if is_virtical {
        idx_v_line(r, c)
    } else {
        idx_h_line(r, c)
    };
    proof {
        crate::grid::lemma_cell_le_potential(s1.stage@, line_pos.r as int, line_pos.c as int);
    }
    let mut check_stage1 = branch_with(stage, line_pos, 1);
    let ghost c1 = check_stage1;
    let result1 = solve_roughly(
        &mut check_stage1,
        depth + 1,
        score_min,
        solve_roughly_try_count_list,
        solve_roughly_check_count,
    );
    if result1.no_answer {
        stage.set_line(line_pos, 0);
        proof {
            lemma_line_progress(s1, *stage, line_pos.r as int, line_pos.c as int, 0);
            lemma_wrote(s1, *stage, line_pos.r as int, line_pos.c as int, 0);
        }
        return Probe::Again;
    } else {
        let return_result = record_branch(&check_stage1, result1, v_checked, h_checked, has_answer, true);
        if return_result.is_some() {
            return Probe::Done(return_result.unwrap());
        }
    }
    let mut check_stage2 = branch_with(stage, line_pos, 0);
    let ghost c2 = check_stage2;
    let result2 = solve_roughly(
        &mut check_stage2,
        depth + 1,
        score_min,
        solve_roughly_try_count_list,
        solve_roughly_check_count,
    );
    if result2.no_answer {
        stage.set_line(line_pos, 1);
        proof {
            lemma_line_progress(s1, *stage, line_pos.r as int, line_pos.c as int, 1);
            lemma_wrote(s1, *stage, line_pos.r as int, line_pos.c as int, 1);
        }
        return Probe::Again;
    } else {
        let return_result = record_branch(&check_stage2, result2, v_checked, h_checked, has_answer, true);
        if return_result.is_some() {
            return Probe::Done(return_result.unwrap());
        }
    }
    proof {
        lemma_potential_nonneg(check_stage1.stage@);
        lemma_potential_nonneg(check_stage2.stage@);
    }
    // check common line
    let changed = settle_common_lines(stage, &check_stage1, &check_stage2);
    if changed {
        return Probe::Again;
    }
    Probe::Tried(
        (check_stage1.score as u64 - stage.score as u64) + (check_stage2.score as u64 - stage.score as u64),
        check_stage1,
        check_stage2,
        r,
        c,
        is_virtical,
    )
}

/// The grid position of the line listed as `(r, c, is_v)` by `get_lines_pos`.
pub open spec fn entry_xy(e: (isize, isize, bool)) -> (int, int) {
    if e.2 {
        (2 * e.0 + 1, 2 * e.1 as int)
    } else {
        (2 * e.0 as int, 2 * e.1 + 1)
    }
}

/// The line at `(x, y)` is undecided in `s` and decided alike in the branches `a` and `b`.
pub open spec fn agreed_line(s: SolvingStage, a: SolvingStage, b: SolvingStage, x: int, y: int) -> bool {
    &&& s.in_grid(x, y)
    &&& is_line_pos(x, y)
    &&& s.at(x, y) == -1
    &&& a.at(x, y) == b.at(x, y)
    &&& a.at(x, y) != -1
}

/// Decides every undecided line of `stage` that both searched branches decided alike.
/// Returns whether any line was decided.
fn settle_common_lines(stage: &mut SolvingStage, check_stage1: &SolvingStage, check_stage2: &SolvingStage) -> (changed: bool)
    requires
        old(stage).wf(),
        old(stage).headroom(),
        check_stage1.wf(),
        check_stage2.wf(),
        check_stage1.size_r == old(stage).size_r,
        check_stage1.size_c == old(stage).size_c,
        check_stage2.size_r == old(stage).size_r,
        check_stage2.size_c == old(stage).size_c,
    ensures
        changed ==> advanced(*old(stage), *final(stage)),
        !changed ==> *final(stage) == *old(stage),
        changed == exists|x: int, y: int| agreed_line(*old(stage), *check_stage1, *check_stage2, x, y),
        final(stage).result == old(stage).result,
        forall|x: int, y: int|
            #![trigger final(stage).at(x, y)]
            old(stage).in_grid(x, y) ==> final(stage).at(x, y) == if agreed_line(
                *old(stage),
                *check_stage1,
                *check_stage2,
                x,
                y,
            ) {
                check_stage1.at(x, y)
            } else {
                old(stage).at(x, y)
            },
{
    let ghost s1 = *stage;
    let mut changed = false;
    let lines = stage.get_lines_pos();
    let ghost vs = grid_positions(s1.size_r as int, s1.size_c + 1, true);
    let ghost hs = grid_positions(s1.size_r + 1, s1.size_c as int, false);
    proof {
        crate::stage::lemma_progress_refl(s1);
        lemma_potential_nonneg(s1.stage@);
    }
    let mut k: usize = 0;
    while k < lines.len()
        invariant
            s1.wf(),
            s1.headroom(),
            check_stage1.wf(),
            check_stage2.wf(),
            check_stage1.size_r == s1.size_r,
            check_stage1.size_c == s1.size_c,
            check_stage2.size_r == s1.size_r,
            check_stage2.size_c == s1.size_c,
            lines@ == vs + hs,
            vs == grid_positions(s1.size_r as int, s1.size_c + 1, true),
            hs == grid_positions(s1.size_r + 1, s1.size_c as int, false),
            0 <= k <= lines@.len(),
            changed ==> advanced(s1, *stage),
            !changed ==> *stage == s1,
            stage.result == s1.result,
            stage.size_r == s1.size_r,
            stage.size_c == s1.size_c,
            changed == exists|m: int| 0 <= m < k && #[trigger] agreed_line(s1, *check_stage1, *check_stage2, entry_xy(lines@[m]).0, entry_xy(lines@[m]).1),
            forall|x: int, y: int|
                #![trigger stage.at(x, y)]
                s1.in_grid(x, y) ==> stage.at(x, y) == if agreed_line(s1, *check_stage1, *check_stage2, x, y)
                    && exists|m: int| 0 <= m < k && #[trigger] entry_xy(lines@[m]) == (x, y) {
                    check_stage1.at(x, y)
                } else {
                    s1.at(x, y)
                },
        decreases lines@.len() - k,
    {
        let (r, c, is_v) = lines[k];
        proof {
            lemma_grid_positions_bounds(s1.size_r as int, s1.size_c + 1, true);
            lemma_grid_positions_bounds(s1.size_r + 1, s1.size_c as int, false);
            if k < vs.len() {
                assert(lines@[k as int] == vs[k as int]);
                assert(grid_positions(s1.size_r as int, s1.size_c + 1, true)[k as int] == vs[k as int]);
                assert(is_v && 0 <= r < s1.size_r && 0 <= c <= s1.size_c);
            } else {
                assert(lines@[k as int] == hs[k - vs.len()]);
                assert(grid_positions(s1.size_r + 1, s1.size_c as int, false)[k - vs.len()] == hs[k - vs.len()]);
                assert(!is_v && 0 <= r <= s1.size_r && 0 <= c < s1.size_c);
            }
            lemma_offset_kind(r as int, c as int, 0, -1);
            lemma_offset_kind(r as int, c as int, -1, 0);
        }
        let (x, y) = if is_v {
            (r * 2 + 1, c * 2)
        } else {
            (r * 2, c * 2 + 1)
        };
        let ghost b = *stage;
        let ghost e = lines@[k as int];
        proof {
            assert(entry_xy(e) == (x as int, y as int));
        }
        let v1 = check_stage1.cell(x, y);
        if stage.cell(x, y) == -1 && v1 == check_stage2.cell(x, y) && v1 != -1 {
            proof {
                crate::grid::lemma_cell_le_potential(b.stage@, x as int, y as int);
            }
            if is_v {
                stage.set_line(idx_v_line(r, c), v1);
            } else {
                stage.set_line(idx_h_line(r, c), v1);
            }
            proof {
                lemma_line_progress(b, *stage, x as int, y as int, v1);
                lemma_wrote(b, *stage, x as int, y as int, v1);
                if changed {
                    lemma_refines_trans(s1, b, *stage);
                }
            }
            changed = true;
        }
        proof {
            let xi = x as int;
            let yi = y as int;
            assert(s1.in_grid(xi, yi));
            if agreed_line(s1, *check_stage1, *check_stage2, xi, yi) {
                assert(agreed_line(s1, *check_stage1, *check_stage2, entry_xy(lines@[k as int]).0, entry_xy(lines@[k as int]).1));
            }
            assert forall|xx: int, yy: int|
                #![trigger stage.at(xx, yy)]
                s1.in_grid(xx, yy) implies stage.at(xx, yy) == if agreed_line(s1, *check_stage1, *check_stage2, xx, yy)
                    && exists|m: int| 0 <= m < k + 1 && #[trigger] entry_xy(lines@[m]) == (xx, yy) {
                    check_stage1.at(xx, yy)
                } else {
                    s1.at(xx, yy)
                } by {
                if (xx, yy) == (xi, yi) {
                    assert(entry_xy(lines@[k as int]) == (xx, yy));
                } else {
                    assert(stage.at(xx, yy) == b.at(xx, yy));
                    if exists|m: int| 0 <= m < k + 1 && #[trigger] entry_xy(lines@[m]) == (xx, yy) {
                        let m = choose|m: int| 0 <= m < k + 1 && #[trigger] entry_xy(lines@[m]) == (xx, yy);
                        assert(m < k);
                    }
                }
            }
            if changed {
                if !(exists|m: int| 0 <= m < k && #[trigger] agreed_line(s1, *check_stage1, *check_stage2, entry_xy(lines@[m]).0, entry_xy(lines@[m]).1)) {
                    assert(agreed_line(s1, *check_stage1, *check_stage2, entry_xy(lines@[k as int]).0, entry_xy(lines@[k as int]).1));
                }
            }
            assert(changed == exists|m: int| 0 <= m < k + 1 && #[trigger] agreed_line(s1, *check_stage1, *check_stage2, entry_xy(lines@[m]).0, entry_xy(lines@[m]).1));
        }
        k = k + 1;
    }
    proof {
        lemma_grid_positions_bounds(s1.size_r as int, s1.size_c + 1, true);
        lemma_grid_positions_bounds(s1.size_r + 1, s1.size_c as int, false);
        // every line position of the board is listed
        assert forall|x: int, y: int| s1.in_grid(x, y) && is_line_pos(x, y) implies exists|m: int|
            0 <= m < lines@.len() && #[trigger] entry_xy(lines@[m]) == (x, y) by {
            if x % 2 == 1 {
                let r = (x - 1) / 2;
                let c = y / 2;
                lemma_position_listed(s1.size_r as int, s1.size_c + 1, true, r, c);
                let m = choose|m: int| 0 <= m < vs.len() && vs[m] == (r as isize, c as isize, true);
                assert(lines@[m] == vs[m]);
                assert(entry_xy(lines@[m]) == (x, y));
            } else {
                let r = x / 2;
                let c = (y - 1) / 2;
                lemma_position_listed(s1.size_r + 1, s1.size_c as int, false, r, c);
                let m = choose|m: int| 0 <= m < hs.len() && hs[m] == (r as isize, c as isize, false);
                assert(lines@[vs.len() + m] == hs[m]);
                assert(entry_xy(lines@[vs.len() + m]) == (x, y));
            }
        }
        if changed {
            let m = choose|m: int| 0 <= m < lines@.len() && #[trigger] agreed_line(s1, *check_stage1, *check_stage2, entry_xy(lines@[m]).0, entry_xy(lines@[m]).1);
            let p = entry_xy(lines@[m]);
            assert(agreed_line(s1, *check_stage1, *check_stage2, p.0, p.1));
        } else {
            assert forall|x: int, y: int| !agreed_line(s1, *check_stage1, *check_stage2, x, y) by {
                if agreed_line(s1, *check_stage1, *check_stage2, x, y) {
                    let m = choose|m: int| 0 <= m < lines@.len() && #[trigger] entry_xy(lines@[m]) == (x, y);
                    assert(agreed_line(s1, *check_stage1, *check_stage2, entry_xy(lines@[m]).0, entry_xy(lines@[m]).1));
                }
            }
        }
        assert forall|x: int, y: int|
            #![trigger stage.at(x, y)]
            s1.in_grid(x, y) implies stage.at(x, y) == if agreed_line(s1, *check_stage1, *check_stage2, x, y) {
                check_stage1.at(x, y)
            } else {
                s1.at(x, y)
            } by {
            if agreed_line(s1, *check_stage1, *check_stage2, x, y) {
                let m = choose|m: int| 0 <= m < lines@.len() && #[trigger] entry_xy(lines@[m]) == (x, y);
            }
        }
    }
    changed
}

/// A rough search of the board's answers: like `solve`, but at each depth it draws
/// `solve_roughly_check_count` random undecided lines, searches both branches of each
/// one depth deeper, settles the lines both branches decided alike, and then searches
/// again the pair of branches that gained the most score; this is repeated as many times
/// as the list of tries gives for the depth, and the depth is bounded by the list's
/// length. A search that runs out of tries, or whose probes of a round all came back
/// without a pair of branches to search, reports that it stopped at its depth limit.
pub fn solve_roughly(
    stage: &mut SolvingStage,
    depth: i32,
    score_min: u32,
    solve_roughly_try_count_list: &Vec<usize>,
    solve_roughly_check_count: &usize,
) -> (res: SolveResult)
    requires
        rough_pre(*old(stage), depth, solve_roughly_try_count_list@),
        *solve_roughly_check_count > 0,
    ensures
        search_outcome(*old(stage), *final(stage), res),
        final(stage).result && loop_found(*final(stage)) ==> res == (SolveResult {
            has_answer: true,
            multi_answer: false,
            no_answer: false,
            over_depth: false,
        }),
        !res.over_depth ==> res.no_answer || (res.has_answer && !res.multi_answer),
        res.multi_answer ==> res.over_depth,
        depth == solve_roughly_try_count_list@.len() ==> !res.multi_answer && (res.over_depth
            ==> !res.has_answer),
    decreases old(stage).pot(), 1int,
{
    let ghost s0 = *stage;
    proof {
        crate::stage::lemma_progress_refl(s0);
        lemma_potential_nonneg(s0.stage@);
    }
    loop
        invariant
            rough_pre(s0, depth, solve_roughly_try_count_list@),
            *solve_roughly_check_count > 0,
            s0 == *old(stage),
            stage.wf(),
            stage.size_r == s0.size_r,
            stage.size_c == s0.size_c,
            refines(s0, *stage),
            stage.score + stage.pot() <= s0.score + s0.pot(),
            stage.score >= s0.score,
            stage.pot() <= s0.pot(),
        decreases stage.pot(),
    {
        let ghost head_pot = stage.pot();
        let ghost h0 = *stage;
        proof {
            lemma_potential_nonneg(stage.stage@);
        }
        let complete = check_and_close(stage);
        let ghost s1 = *stage;
        proof {
            lemma_refines_trans(s0, h0, *stage);
        }
        if !stage.result {
            return SolveResult { has_answer: false, multi_answer: false, no_answer: true, over_depth: false };
        } else if complete {
            return SolveResult { has_answer: true, multi_answer: false, no_answer: false, over_depth: false };
        } else {
            if depth as usize == solve_roughly_try_count_list.len() {
                return SolveResult { has_answer: false, multi_answer: false, no_answer: false, over_depth: true };
            }
            let mut has_answer = false;
            let mut v_checked = false_rows(stage.size_r as usize, (stage.size_c + 1) as usize);
            let mut h_checked = false_rows((stage.size_r + 1) as usize, stage.size_c as usize);
            let tries = solve_roughly_try_count_list[depth as usize];
            let mut restart = false;
            let mut t: usize = 0;
            while t < tries
                invariant_except_break
                    *stage == s1,
                    !restart,
                invariant
                    rough_pre(s0, depth, solve_roughly_try_count_list@),
                    depth < solve_roughly_try_count_list@.len(),
                    *solve_roughly_check_count > 0,
                    s0 == *old(stage),
                    s1.wf(),
                    s1.result,
                    !loop_found(s1),
                    s1.size_r == s0.size_r,
                    s1.size_c == s0.size_c,
                    refines(s0, s1),
                    s1.score + s1.pot() <= s0.score + s0.pot(),
                    s1.score >= s0.score,
                    s1.pot() <= head_pot,
                    head_pot <= s0.pot(),
                    crate::fixpoint::degrees_ok(s1),
                    crate::group::labels_followed(s1),
                    marks_shaped(s1, v_checked@, h_checked@),
                ensures
                    restart ==> stage.wf() && stage.size_r == s0.size_r && stage.size_c == s0.size_c
                        && refines(s0, *stage) && stage.score + stage.pot() <= s0.score + s0.pot()
                        && stage.score >= s0.score && stage.pot() < head_pot,
                    !restart ==> *stage == s1,
                decreases tries - t,
            {
                let mut try_opt_stage1: Option<SolvingStage> = None;
                let mut try_opt_stage2: Option<SolvingStage> = None;
                let mut max_score: u64 = 0;
                let mut try_c: isize = 0;
                let mut try_r: isize = 0;
                let mut try_is_virtical: bool = true;
                let mut i: usize = 0;
                while i < *solve_roughly_check_count
                    invariant_except_break
                        *stage == s1,
                        !restart,
                    invariant
                        rough_pre(s0, depth, solve_roughly_try_count_list@),
                        depth < solve_roughly_try_count_list@.len(),
                        *solve_roughly_check_count > 0,
                        s0 == *old(stage),
                        s1.wf(),
                        s1.result,
                        !loop_found(s1),
                        s1.size_r == s0.size_r,
                        s1.size_c == s0.size_c,
                        refines(s0, s1),
                        s1.score + s1.pot() <= s0.score + s0.pot(),
                        s1.score >= s0.score,
                        s1.pot() <= head_pot,
                        head_pot <= s0.pot(),
                        crate::fixpoint::degrees_ok(s1),
                        crate::group::labels_followed(s1),
                        marks_shaped(s1, v_checked@, h_checked@),
                        try_opt_stage1 is Some <==> try_opt_stage2 is Some,
                        try_opt_stage1 is Some ==> candidate(
                            s1,
                            try_opt_stage1.unwrap(),
                            try_opt_stage2.unwrap(),
                            probe_line_pos(try_r, try_c, try_is_virtical),
                        ),
                    ensures
                        restart ==> stage.wf() && stage.size_r == s0.size_r && stage.size_c == s0.size_c
                            && refines(s0, *stage) && stage.score + stage.pot() <= s0.score + s0.pot()
                            && stage.score >= s0.score && stage.pot() < head_pot,
                        !restart ==> *stage == s1,
                        !restart ==> marks_shaped(s1, v_checked@, h_checked@),
                        !restart ==> (try_opt_stage1 is Some <==> try_opt_stage2 is Some),
                        !restart && try_opt_stage1 is Some ==> candidate(
                            s1,
                            try_opt_stage1.unwrap(),
                            try_opt_stage2.unwrap(),
                            probe_line_pos(try_r, try_c, try_is_virtical),
                        ),
                    decreases *solve_roughly_check_count - i,
                {
                    proof {
                        lemma_potential_nonneg(stage.stage@);
                    }
                    let probe = probe_line(
                        stage,
                        depth,
                        score_min,
                        solve_roughly_try_count_list,
                        solve_roughly_check_count,
                        &mut v_checked,
                        &mut h_checked,
                        &mut has_answer,
                    );
                    match probe {
                        Probe::Done(result) => {
                            return result;
                        },
                        Probe::Again => {
                            proof {
                                lemma_refines_trans(s0, s1, *stage);
                            }
                            restart = true;
                            break;
                        },
                        Probe::Tried(gain, check_stage1, check_stage2, r, c, is_virtical) => {
                            if max_score < gain {
                                max_score = gain;
                                try_opt_stage1 = Some(check_stage1);
                                try_opt_stage2 = Some(check_stage2);
                                try_c = c;
                                try_r = r;
                                try_is_virtical = is_virtical;
                            }
                        },
                        Probe::Missed => {},
                    }
                    i = i + 1;
                }
                if restart {
                    break;
                }
                if try_opt_stage1.is_none() {
                    return SolveResult { has_answer, multi_answer: false, no_answer: false, over_depth: true };
                }
                let line_pos = if try_is_virtical {
                    idx_v_line(try_r, try_c)
                } else {
                    idx_h_line(try_r, try_c)
                };
                let mut try_stage1 = try_opt_stage1.unwrap();
                let mut try_stage2 = try_opt_stage2.unwrap();
                proof {
                    crate::grid::lemma_cell_le_potential(s1.stage@, line_pos.r as int, line_pos.c as int);
                    lemma_potential_nonneg(try_stage1.stage@);
                    lemma_potential_nonneg(try_stage2.stage@);
                }
                let result1 = solve_roughly(
                    &mut try_stage1,
                    depth + 1,
                    score_min,
                    solve_roughly_try_count_list,
                    solve_roughly_check_count,
                );
                if result1.no_answer {
                    let ghost b = *stage;
                    stage.set_line(line_pos, 0);
                    proof {
                        lemma_line_progress(b, *stage, line_pos.r as int, line_pos.c as int, 0);
                        lemma_wrote(b, *stage, line_pos.r as int, line_pos.c as int, 0);
                        lemma_refines_trans(s0, b, *stage);
                    }
                    let ghost b2 = *stage;
                    stage.check();
                    proof {
                        lemma_refines_trans(s0, b2, *stage);
                    }
                    restart = true;
                    break;
                } else {
                    let return_result = record_branch(&try_stage1, result1, &mut v_checked, &mut h_checked, &mut has_answer, true);
                    if return_result.is_some() {
                        return return_result.unwrap();
                    }
                }
                let result2 = solve_roughly(
                    &mut try_stage2,
                    depth + 1,
                    score_min,
                    solve_roughly_try_count_list,
                    solve_roughly_check_count,
                );
                if result2.no_answer {
                    let ghost b = *stage;
                    stage.set_line(line_pos, 1);
                    proof {
                        lemma_line_progress(b, *stage, line_pos.r as int, line_pos.c as int, 1);
                        lemma_wrote(b, *stage, line_pos.r as int, line_pos.c as int, 1);
                        lemma_refines_trans(s0, b, *stage);
                    }
                    let ghost b2 = *stage;
                    stage.check();
                    proof {
                        lemma_refines_trans(s0, b2, *stage);
                    }
                    restart = true;
                    break;
                } else {
                    let return_result = record_branch(&try_stage1, result2, &mut v_checked, &mut h_checked, &mut has_answer, true);
                    if return_result.is_some() {
                        return return_result.unwrap();
                    }
                }
                t = t + 1;
            }
            if restart {
                proof {
                    lemma_potential_nonneg(stage.stage@);
                }
                continue;
            }
            return SolveResult { has_answer, multi_answer: false, no_answer: false, over_depth: true };
        }
    }
}

} // verus!
