use loop_puzzle::random::bool_from_draw;
use loop_puzzle::generate::{make_puzzle2, make_puzzle_web, make_puzzle_web2};
use loop_puzzle::rotation::{
    idx_h_line, idx_number, idx_point, idx_v_line, in_possibility, rot_p, rot_rc, RowCol, P_ALL,
    P_DIAGONAL_RD, P_DL, P_LINE_R, P_NONE, P_RD, P_RL, P_UD, P_UL, P_UR,
};
use loop_puzzle::rough::solve_roughly;
use loop_puzzle::solve::solve;
use loop_puzzle::stage::SolvingStage;
use loop_puzzle::text::{p_dump, puzzle_string};

fn shape_count(p: i8) -> u32 {
    (p & P_ALL).count_ones()
}

#[test]
fn rot_p_four_turns_give_back() {
    let all = [P_NONE, P_UR, P_UD, P_UL, P_RD, P_RL, P_DL];
    for p in 0..=127i8 {
        for a in 0..4u8 {
            for b in 0..4u8 {
                assert_eq!(rot_p(rot_p(p, a), b), rot_p(p, a + b));
            }
        }
        assert_eq!(rot_p(p, 4), p);
        assert_eq!(shape_count(rot_p(p, 1)), shape_count(p));
    }
    for p in all {
        assert_eq!(rot_p(rot_p(rot_p(rot_p(p, 1), 1), 1), 1), p);
    }
    assert_eq!(rot_p(P_UR, 1), P_RD);
    assert_eq!(rot_p(P_UD, 1), P_RL);
    assert_eq!(rot_p(P_NONE, 3), P_NONE);
}

#[test]
fn rot_rc_turns_around_center() {
    let center = RowCol { r: 3, c: 3 };
    let up = RowCol { r: 2, c: 3 };
    let right = rot_rc(up, center, 1);
    assert_eq!((right.r, right.c), (3, 4));
    let down = rot_rc(up, center, 2);
    assert_eq!((down.r, down.c), (4, 3));
    let back = rot_rc(rot_rc(up, center, 3), center, 1);
    assert_eq!((back.r, back.c), (2, 3));
}

#[test]
fn grid_indexes() {
    let p = idx_point(2, 3);
    assert_eq!((p.r, p.c), (4, 6));
    let v = idx_v_line(2, 3);
    assert_eq!((v.r, v.c), (5, 6));
    let h = idx_h_line(2, 3);
    assert_eq!((h.r, h.c), (4, 7));
    let n = idx_number(2, 3);
    assert_eq!((n.r, n.c), (5, 7));
}

#[test]
fn in_possibility_is_subset() {
    assert!(in_possibility(P_UR, P_LINE_R));
    assert!(!in_possibility(P_UD, P_LINE_R));
    assert!(in_possibility(0, P_NONE));
    assert!(in_possibility(P_DIAGONAL_RD, P_ALL));
}

#[test]
fn new_board_is_undecided() {
    let stage = SolvingStage::new(2, 3);
    assert_eq!(stage.stage.len(), 5);
    for r in 0..5 {
        assert_eq!(stage.stage[r].len(), 7);
        for c in 0..7 {
            let expected = if r % 2 == 0 && c % 2 == 0 { P_ALL } else { -1 };
            assert_eq!(stage.stage[r][c], expected);
        }
    }
    assert!(stage.result);
    assert_eq!(stage.score, 0);
    assert_eq!(stage.group[1][2], 1 * 3 + 2 + 2);
}

#[test]
fn positions_in_row_major_order() {
    let stage = SolvingStage::new(2, 2);
    assert_eq!(stage.get_numbers_pos(), vec![(0, 0), (0, 1), (1, 0), (1, 1)]);
    // one position per cell, not per point
    assert_eq!(stage.get_points_pos(), vec![(0, 0), (0, 1), (1, 0), (1, 1)]);
    let lines = stage.get_lines_pos();
    assert_eq!(lines.len(), 2 * 3 + 3 * 2);
    assert_eq!(lines[0], (0, 0, true));
    assert_eq!(lines[6], (0, 0, false));
}

#[test]
fn set_line_scores_once() {
    let mut stage = SolvingStage::new(2, 2);
    let pos = idx_v_line(0, 1);
    assert_eq!(stage.set_line(pos, 1), 3);
    assert_eq!(stage.stage[1][2], 1);
    assert_eq!(stage.score, 3);
    assert_eq!(stage.set_line(pos, 1), 0);
    assert!(stage.result);
    assert_eq!(stage.set_line(pos, 0), 0);
    assert!(!stage.result);
    assert_eq!(stage.stage[1][2], 1);
}

#[test]
fn remove_point_possibility_removes_once() {
    let mut stage = SolvingStage::new(2, 2);
    let pos = idx_point(1, 1);
    assert_eq!(stage.remove_point_possibility(pos, P_UR), 1);
    assert_eq!(stage.stage[2][2], P_ALL & !P_UR);
    assert_eq!(stage.remove_point_possibility(pos, P_UR), 0);
    assert_eq!(stage.stage[2][2], P_ALL & !P_UR);
}

#[test]
fn marge_with_itself_keeps_grid() {
    let mut stage = SolvingStage::new(3, 3);
    stage.stage[3][3] = 2;
    stage.first_check();
    stage.check();
    let copy = stage.duplicate();
    stage.marge(&copy);
    assert_eq!(stage.stage, copy.stage);
}

#[test]
fn marge_copies_missing_numbers() {
    let mut stage = SolvingStage::new(3, 3);
    let mut other = SolvingStage::new(3, 3);
    other.stage[1][1] = 3;
    stage.stage[3][3] = 0;
    other.stage[3][3] = 2;
    stage.marge(&other);
    assert_eq!(stage.stage[1][1], 3);
    assert_eq!(stage.stage[3][3], 0);
}

#[test]
fn solve_reports_no_answer() {
    let mut stage = SolvingStage::new(2, 2);
    stage.stage[1][1] = 1;
    stage.stage[1][0] = 1;
    stage.stage[1][2] = 1;
    let result = solve(&mut stage, 1, 0);
    assert!(result.no_answer);
    assert!(!result.has_answer && !result.multi_answer && !result.over_depth);
    assert!(!stage.result);
}

#[test]
fn solve_roughly_finds_single_answer() {
    let mut stage: SolvingStage = SolvingStage::new(4, 4);
    stage.stage[1 * 2 + 1][3 * 2 + 1] = 1;
    stage.stage[2 * 2 + 1][1 * 2 + 1] = 2;
    stage.stage[2 * 2 + 1][2 * 2 + 1] = 1;
    stage.stage[2 * 2 + 1][3 * 2 + 1] = 0;
    stage.stage[3 * 2 + 1][3 * 2 + 1] = 1;
    stage.first_check();
    let result = solve_roughly(&mut stage, 0, 50, &vec![2, 2], &5);
    assert!(!result.no_answer);
    assert!(!result.multi_answer || result.has_answer);
}

#[test]
fn puzzle_string_shows_rows() {
    let mut stage = SolvingStage::new(2, 3);
    stage.stage[1][1] = 0;
    stage.stage[1][5] = 3;
    stage.stage[3][3] = 1;
    stage.stage[3][5] = 2;
    assert_eq!(puzzle_string(&stage), "0 3| 12");
    stage.stage[3][1] = 4;
    assert_eq!(puzzle_string(&stage), "0 3|12");
}

#[test]
fn p_dump_names_shapes() {
    assert_eq!(p_dump(P_UR | P_NONE), "P_UR | P_NONE");
    assert_eq!(p_dump(0), "");
    assert_eq!(p_dump(P_RL), "P_RL");
    assert_eq!(
        p_dump(P_ALL),
        "P_UR | P_UD | P_UL | P_RD | P_RL | P_DL | P_NONE"
    );
}

#[test]
fn board_lines_draws_board() {
    let mut stage = SolvingStage::new(1, 2);
    stage.stage[0][1] = 1;
    stage.stage[0][3] = 0;
    stage.stage[1][0] = 1;
    stage.stage[1][1] = 3;
    let lines = stage.board_lines();
    assert_eq!(lines, vec!["+---+ x +", "| 3      ", "+   +   +"]);
}

#[test]
fn make_puzzle_web_has_one_glyph_per_cell() {
    let text = make_puzzle_web(4, 5);
    let chars: Vec<char> = text.chars().collect();
    assert_eq!(chars.len(), 4 * 5 + 3);
    for (k, ch) in chars.iter().enumerate() {
        if k % 6 == 5 {
            assert_eq!(*ch, '|');
        } else {
            assert!(" 0123".contains(*ch));
        }
    }
}

#[test]
fn make_puzzle2_clues_come_from_a_region() {
    let stage = make_puzzle2(4, 4, &vec![2, 2], &5);
    assert_eq!((stage.size_r, stage.size_c), (4, 4));
    for r in 0..4 {
        for c in 0..4 {
            let n = stage.stage[r * 2 + 1][c * 2 + 1];
            assert!(-1 <= n && n <= 4);
        }
    }
    let text = make_puzzle_web2(3, 3);
    assert_eq!(text.chars().filter(|c| *c == '|').count(), 2);
}

#[test]
fn check_leaves_labels_agreeing_with_lines() {
    let mut stage: SolvingStage = SolvingStage::new(5, 5);
    for (r, c, n) in [(1, 1, 0), (0, 2, 2), (1, 3, 1), (2, 4, 1), (2, 1, 2), (3, 2, 3)] {
        stage.stage[r * 2 + 1][c * 2 + 1] = n;
    }
    stage.first_check();
    stage.check();
    assert!(stage.result);
    let label = |s: &SolvingStage, r: isize, c: isize| -> i64 {
        if r < 0 || c < 0 || r >= s.size_r || c >= s.size_c {
            -1
        } else {
            s.group[r as usize][c as usize]
        }
    };
    let mut decided = 0;
    for r in 0..5isize {
        for c in 0..6isize {
            let v = stage.stage[(r * 2 + 1) as usize][(c * 2) as usize];
            if v == 1 {
                assert_eq!(label(&stage, r, c), -label(&stage, r, c - 1));
                decided += 1;
            } else if v == 0 {
                assert_eq!(label(&stage, r, c), label(&stage, r, c - 1));
                decided += 1;
            }
        }
    }
    for r in 0..6isize {
        for c in 0..5isize {
            let v = stage.stage[(r * 2) as usize][(c * 2 + 1) as usize];
            if v == 1 {
                assert_eq!(label(&stage, r - 1, c), -label(&stage, r, c));
            } else if v == 0 {
                assert_eq!(label(&stage, r - 1, c), label(&stage, r, c));
            }
        }
    }
    assert!(decided > 0);
}

#[test]
fn first_check_clears_corners() {
    let mut stage: SolvingStage = SolvingStage::new(3, 3);
    stage.stage[3][3] = 0;
    stage.stage[3][5] = 3;
    stage.first_check();
    // the upper-left corner of the 0 can send no line right or down
    assert_eq!(stage.stage[2][2], P_NONE | P_UL);
    // every side of the 0 is crossed out
    assert_eq!(stage.stage[3][2], 0);
    assert_eq!(stage.stage[3][4], 0);
    assert_eq!(stage.stage[2][3], 0);
    assert_eq!(stage.stage[4][3], 0);
    // the upper-right corner of the 3 cannot turn away from it nor stay empty
    let corner = stage.stage[2][6];
    assert_eq!(corner & (P_UR | P_NONE), 0);
    // border points send no line off the board
    assert_eq!(stage.stage[0][2] & (P_UR | P_UD | P_UL), 0);
}

#[test]
fn check_number_applies_corner_patterns() {
    // a 1 whose upper-left corner allows only the diagonal shapes crosses out its
    // lower and right sides
    let mut stage: SolvingStage = SolvingStage::new(3, 3);
    stage.stage[3][3] = 1;
    stage.stage[2][2] = P_DIAGONAL_RD;
    stage.check_number(1, 1);
    assert_eq!(stage.stage[4][3], 0);
    assert_eq!(stage.stage[3][4], 0);
    assert_eq!(stage.checked[1][1], 1);
    // a 3 whose upper-left corner allows only the empty corner draws its upper and left
    // sides
    let mut stage: SolvingStage = SolvingStage::new(3, 3);
    stage.stage[3][3] = 3;
    stage.stage[2][2] = P_NONE | P_RD;
    stage.check_number(1, 1);
    assert_eq!(stage.stage[3][2], 1);
    assert_eq!(stage.stage[2][3], 1);
}

#[test]
fn check_point_follows_its_lines() {
    let mut stage: SolvingStage = SolvingStage::new(3, 3);
    // a point that can only send a line to the right draws it
    stage.stage[2][2] = P_UR | P_RD | P_RL;
    stage.check_point(1, 1);
    assert_eq!(stage.stage[2][3], 1);
    // a crossed-out line above a point removes the shapes going up
    let mut stage: SolvingStage = SolvingStage::new(3, 3);
    stage.stage[1][2] = 0;
    stage.check_point(1, 1);
    assert_eq!(stage.stage[2][2] & (P_UR | P_UD | P_UL), 0);
}

#[test]
fn check_loop_single_square_is_complete() {
    let mut stage: SolvingStage = SolvingStage::new(1, 1);
    stage.set_line(idx_v_line(0, 0), 1);
    stage.set_line(idx_v_line(0, 1), 1);
    stage.set_line(idx_h_line(0, 0), 1);
    stage.set_line(idx_h_line(1, 0), 1);
    assert!(stage.check_loop());
    assert!(stage.result);
}

#[test]
fn check_loop_two_squares_apart_is_contradictory() {
    let mut stage: SolvingStage = SolvingStage::new(1, 3);
    for c in [0isize, 2] {
        stage.set_line(idx_v_line(0, c), 1);
        stage.set_line(idx_v_line(0, c + 1), 1);
        stage.set_line(idx_h_line(0, c), 1);
        stage.set_line(idx_h_line(1, c), 1);
    }
    assert!(!stage.check_loop());
    assert!(!stage.result);
}

#[test]
fn check_leaves_every_number_examined() {
    let mut stage: SolvingStage = SolvingStage::new(5, 5);
    let pos = idx_number(1, 1);
    stage.stage[pos.r as usize][pos.c as usize] = 3;
    let pos = idx_number(2, 2);
    stage.stage[pos.r as usize][pos.c as usize] = 3;
    stage.first_check();
    stage.check();
    for r in 0..5isize {
        for c in 0..5isize {
            let before = stage.stage.clone();
            assert_eq!(stage.check_number(r, c), 0);
            assert!(stage.stage == before);
        }
    }
    assert_eq!(stage.check(), 0);
}

#[test]
fn first_check_number_zero_scores_its_corners() {
    let mut stage: SolvingStage = SolvingStage::new(2, 2);
    let pos = idx_number(0, 0);
    stage.stage[pos.r as usize][pos.c as usize] = 0;
    stage.first_check_number(0, 0);
    assert_eq!(stage.score, 20);
    assert_eq!(stage.checked[0][0], 2);
}

#[test]
fn new_builds_a_long_single_column_board() {
    let stage: SolvingStage = SolvingStage::new(20000, 1);
    assert_eq!(stage.stage.len(), 40001);
    assert_eq!(stage.stage[0].len(), 3);
    assert_eq!(stage.group[19999][0], 19999 + 2);
    assert!(stage.result);
    assert_eq!(stage.score, 0);
}

#[test]
fn bool_from_draw_follows_the_threshold() {
    assert!(bool_from_draw(0x7fff_ffff_ffff_ffff, 1));
    assert!(!bool_from_draw(0x8000_0000_0000_0000, 1));
    assert!(bool_from_draw(0x3fff_ffff_ffff_ffff, 2));
    assert!(!bool_from_draw(0x4000_0000_0000_0000, 2));
    assert!(bool_from_draw(0, 64));
    assert!(!bool_from_draw(1, 64));
    assert!(!bool_from_draw(0, 65));
}

#[test]
fn first_check_one_cell_leaves_corner_turns() {
    let mut stage: SolvingStage = SolvingStage::new(1, 1);
    stage.first_check();
    assert_eq!(stage.stage[0][0], P_NONE | P_RD);
    assert_eq!(stage.stage[0][2], P_NONE | P_DL);
    assert_eq!(stage.stage[2][0], P_NONE | P_UR);
    assert_eq!(stage.stage[2][2], P_NONE | P_UL);
    assert_eq!(stage.score, 20);
    assert_eq!(stage.stage[1][0], -1);
    assert_eq!(stage.stage[1][2], -1);
    assert_eq!(stage.stage[0][1], -1);
    assert_eq!(stage.stage[2][1], -1);
    assert!(stage.result);
}

#[test]
fn check_loop_without_lines_leaves_result() {
    let mut stage: SolvingStage = SolvingStage::new(2, 2);
    assert!(!stage.check_loop());
    assert!(stage.result);
}

#[test]
fn check_loop_square_with_unsatisfied_number_is_contradictory() {
    let mut stage: SolvingStage = SolvingStage::new(1, 2);
    let pos = idx_number(0, 1);
    stage.stage[pos.r as usize][pos.c as usize] = 2;
    stage.set_line(idx_v_line(0, 0), 1);
    stage.set_line(idx_v_line(0, 1), 1);
    stage.set_line(idx_h_line(0, 0), 1);
    stage.set_line(idx_h_line(1, 0), 1);
    assert!(!stage.check_loop());
    assert!(!stage.result);
}

#[test]
fn check_point_keeps_the_shape_its_lines_allow() {
    let mut stage: SolvingStage = SolvingStage::new(3, 3);
    stage.set_line(idx_v_line(0, 1), 1);
    stage.set_line(idx_v_line(1, 1), 1);
    stage.check_point(1, 1);
    assert!(stage.result);
    assert_eq!(stage.stage[2][2], P_UD);
    assert_eq!(stage.stage[2][1], 0);
    assert_eq!(stage.stage[2][3], 0);
}

#[test]
fn check_loop_accepts_a_stray_line_walked_before_the_loop() {
    // a lone line first in reading order, then a loop around another cell: the walk
    // along the lone line stops, the loop closes, and every drawn line was walked
    let mut stage: SolvingStage = SolvingStage::new(1, 3);
    stage.set_line(idx_v_line(0, 0), 1);
    stage.set_line(idx_v_line(0, 2), 1);
    stage.set_line(idx_v_line(0, 3), 1);
    stage.set_line(idx_h_line(0, 2), 1);
    stage.set_line(idx_h_line(1, 2), 1);
    assert!(stage.check_loop());
    assert!(stage.result);
}

#[test]
fn check_number_keeps_a_board_with_a_way_to_meet_it() {
    // a 2 with its upper side drawn and its left side crossed out: either of the other
    // two sides can still be drawn, so nothing is contradictory
    let mut stage: SolvingStage = SolvingStage::new(3, 3);
    let pos = idx_number(1, 1);
    stage.stage[pos.r as usize][pos.c as usize] = 2;
    stage.set_line(idx_h_line(1, 1), 1);
    stage.set_line(idx_v_line(1, 1), 0);
    stage.check_number(1, 1);
    assert!(stage.result);
    assert_eq!(stage.stage[4][3], -1);
    assert_eq!(stage.stage[3][4], -1);
}
