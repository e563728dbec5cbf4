use loop_puzzle::rotation::{in_possibility, P_DIAGONAL_RD};
use loop_puzzle::solve::solve;
use loop_puzzle::stage::SolvingStage;
use loop_puzzle::text::p_dump;

fn set_number(stage: &mut SolvingStage, r: usize, c: usize, v: i8) {
    stage.stage[r * 2 + 1][c * 2 + 1] = v;
}

fn set_v_line(stage: &mut SolvingStage, r: usize, c: usize, v: i8) {
    stage.stage[r * 2 + 1][c * 2] = v;
}

fn set_point(stage: &mut SolvingStage, r: usize, c: usize, v: i8) {
    stage.stage[r * 2][c * 2] = v;
}

fn v_line(stage: &SolvingStage, r: usize, c: usize) -> i8 {
    stage.stage[r * 2 + 1][c * 2]
}

fn h_line(stage: &SolvingStage, r: usize, c: usize) -> i8 {
    stage.stage[r * 2][c * 2 + 1]
}

fn point(stage: &SolvingStage, r: usize, c: usize) -> i8 {
    stage.stage[r * 2][c * 2]
}

#[test]
fn test_3_3() {
    let mut stage: SolvingStage = SolvingStage::new(5, 5);
    set_number(&mut stage, 1, 1, 3);
    set_number(&mut stage, 2, 2, 3);
    stage.first_check();
    stage.check();
    assert!(v_line(&stage, 1, 1) == 1);
    assert!(h_line(&stage, 1, 1) == 1);
    assert!(v_line(&stage, 2, 3) == 1);
    assert!(h_line(&stage, 3, 2) == 1);

    assert!(v_line(&stage, 0, 1) == 0);
    assert!(h_line(&stage, 1, 0) == 0);
    assert!(v_line(&stage, 3, 3) == 0);
    assert!(h_line(&stage, 3, 3) == 0);
}

#[test]
fn test_1_1_3() {
    let mut stage: SolvingStage = SolvingStage::new(5, 5);
    set_number(&mut stage, 1, 1, 1);
    set_number(&mut stage, 2, 2, 1);
    set_number(&mut stage, 1, 2, 3);
    stage.first_check();
    stage.check();

    assert!(stage.result);
    assert!(v_line(&stage, 1, 1) == 0);
    assert!(h_line(&stage, 1, 1) == 0);
    assert!(v_line(&stage, 2, 3) == 0);
    assert!(h_line(&stage, 3, 2) == 0);
}

#[test]
fn test_3_2_3() {
    let mut stage: SolvingStage = SolvingStage::new(5, 5);
    set_number(&mut stage, 3, 1, 3);
    set_number(&mut stage, 2, 2, 2);
    set_number(&mut stage, 1, 3, 3);
    stage.first_check();
    stage.check();

    assert!(stage.result);
}

#[test]
fn test_corner() {
    let mut stage: SolvingStage = SolvingStage::new(5, 5);
    set_number(&mut stage, 0, 4, 3);
    set_number(&mut stage, 4, 0, 1);
    set_number(&mut stage, 4, 4, 2);
    set_number(&mut stage, 1, 0, 0);
    stage.first_check();
    stage.check();
    assert!(stage.result);
    assert!(v_line(&stage, 0, 5) == 1);
    assert!(h_line(&stage, 0, 4) == 1);
    assert!(v_line(&stage, 3, 5) == 1);
    assert!(h_line(&stage, 5, 3) == 1);
    assert!(v_line(&stage, 4, 0) == 0);
    assert!(h_line(&stage, 5, 0) == 0);
    assert!(v_line(&stage, 0, 0) == 0);
    assert!(v_line(&stage, 2, 0) == 0);
    assert!(h_line(&stage, 2, 0) == 0);
}

#[test]
fn test_corner_line() {
    let mut stage: SolvingStage = SolvingStage::new(5, 5);
    set_v_line(&mut stage, 0, 0, 0);
    set_v_line(&mut stage, 0, 5, 1);
    stage.first_check();
    stage.check();
    assert!(stage.result);
    assert!(h_line(&stage, 0, 0) == 0);
    assert!(h_line(&stage, 0, 4) == 1);
}

#[test]
fn test_0_1() {
    let mut stage: SolvingStage = SolvingStage::new(5, 5);
    set_number(&mut stage, 1, 1, 0);
    set_number(&mut stage, 2, 2, 1);
    stage.first_check();
    stage.check();
    assert!(v_line(&stage, 2, 2) == 0);
    assert!(h_line(&stage, 2, 2) == 0);
}

#[test]
fn test_1_or() {
    let mut stage: SolvingStage = SolvingStage::new(5, 5);
    set_number(&mut stage, 1, 1, 1);
    set_point(&mut stage, 1, 1, P_DIAGONAL_RD);
    stage.first_check();
    stage.check();

    println!("{}", p_dump(P_DIAGONAL_RD));
    println!("{}", p_dump(point(&stage, 1, 1)));
    println!("{}", in_possibility(point(&stage, 1, 1), P_DIAGONAL_RD));
    assert!(v_line(&stage, 1, 2) == 0);
    assert!(h_line(&stage, 2, 1) == 0);
}

#[test]
fn complex1() {
    let mut stage: SolvingStage = SolvingStage::new(5, 5);
    set_number(&mut stage, 1, 1, 0);
    set_number(&mut stage, 0, 2, 2);
    set_number(&mut stage, 1, 3, 1);
    set_number(&mut stage, 2, 4, 1);
    set_number(&mut stage, 2, 1, 2);
    set_number(&mut stage, 3, 2, 3);
    stage.first_check();
    stage.check();

    assert!(v_line(&stage, 1, 0) == 1);
    assert!(v_line(&stage, 1, 1) == 0);
    assert!(v_line(&stage, 1, 2) == 0);
    assert!(v_line(&stage, 1, 4) == 0);
    assert!(v_line(&stage, 2, 0) == 0);
    assert!(v_line(&stage, 2, 1) == 1);
    assert!(v_line(&stage, 2, 4) == 0);
    assert!(v_line(&stage, 3, 3) == 1);
    assert!(v_line(&stage, 3, 5) == 1);
    assert!(v_line(&stage, 4, 3) == 0);
    assert!(h_line(&stage, 0, 1) == 1);
    assert!(h_line(&stage, 0, 3) == 0);
    assert!(h_line(&stage, 1, 1) == 0);
    assert!(h_line(&stage, 2, 0) == 1);
    assert!(h_line(&stage, 2, 1) == 0);
    assert!(h_line(&stage, 2, 3) == 0);
    assert!(h_line(&stage, 2, 4) == 0);
    assert!(h_line(&stage, 4, 2) == 1);
    assert!(h_line(&stage, 4, 3) == 0);
}

#[test]
fn complex_complete() {
    let mut stage: SolvingStage = SolvingStage::new(4, 4);
    set_number(&mut stage, 0, 1, 1);
    set_number(&mut stage, 0, 2, 2);
    set_number(&mut stage, 1, 1, 0);
    set_number(&mut stage, 1, 3, 3);
    set_number(&mut stage, 2, 0, 1);
    set_number(&mut stage, 2, 3, 3);
    set_number(&mut stage, 3, 2, 2);
    stage.first_check();
    stage.check();

    let complete = stage.check_loop();

    assert!(stage.result);
    assert!(complete);
}

#[test]
fn complex_error_multi_loop() {
    let mut stage: SolvingStage = SolvingStage::new(4, 4);
    set_number(&mut stage, 0, 0, 3);
    set_number(&mut stage, 0, 1, 3);
    set_number(&mut stage, 0, 3, 0);
    set_number(&mut stage, 3, 3, 3);
    set_number(&mut stage, 2, 3, 3);
    stage.first_check();
    stage.check();

    println!("{}", p_dump(point(&stage, 0, 2)));

    let complete = stage.check_loop();

    assert!(!complete);
    assert!(!stage.result);
}

#[test]
fn complex_complete2() {
    let mut stage: SolvingStage = SolvingStage::new(4, 4);
    set_number(&mut stage, 1, 3, 1);
    set_number(&mut stage, 2, 1, 2);
    set_number(&mut stage, 2, 2, 1);
    set_number(&mut stage, 2, 3, 0);
    set_number(&mut stage, 3, 3, 1);

    stage.first_check();
    let result = solve(&mut stage, 2, 0);

    assert!(result.has_answer);
    assert!(!result.multi_answer);
    assert!(!result.no_answer);
    assert!(!result.over_depth);
}
