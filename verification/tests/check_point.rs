use loop_puzzle::rotation::{P_LINE_R, P_NONE, P_RL, P_UL, P_UR};
use loop_puzzle::stage::SolvingStage;

#[test]
fn check_point_test1() {
    let mut stage: SolvingStage = SolvingStage::new(4, 4);
    stage.stage[1 * 2 + 1][1 * 2] = 1;
    stage.stage[1 * 2][1 * 2 + 1] = 1;
    let score = stage.check_point(1, 1);
    println!("Score: {score}");
    assert!(stage.stage[0 * 2 + 1][1 * 2] == 0);
    assert!(stage.stage[1 * 2][0 * 2 + 1] == 0);
}

#[test]
fn test2() {
    let mut stage: SolvingStage = SolvingStage::new(4, 4);
    stage.stage[1 * 2][1 * 2] = P_UR | P_UL | P_RL | P_NONE;
    let score = stage.check_point(1, 1);
    println!("Score: {score}");
    assert!(stage.stage[1 * 2 + 1][1 * 2] == 0);
}

#[test]
fn test3() {
    let mut stage: SolvingStage = SolvingStage::new(4, 4);
    stage.stage[1 * 2][1 * 2] = P_LINE_R;
    let score = stage.check_point(1, 1);
    println!("Score: {score}");
    assert!(stage.stage[1 * 2][1 * 2 + 1] == 1);
}

#[test]
fn test4() {
    let mut stage: SolvingStage = SolvingStage::new(4, 4);
    stage.stage[1 * 2 + 1][2 * 2] = 1;
    stage.stage[2 * 2][1 * 2 + 1] = 1;
    let score = stage.check_point(2, 2);
    println!("Score: {score}");
    assert!(stage.stage[2 * 2 + 1][2 * 2] == 0);
    assert!(stage.stage[2 * 2][2 * 2 + 1] == 0);
}
