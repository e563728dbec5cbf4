use loop_puzzle::stage::SolvingStage;

#[test]
fn check_group_test1() {
    let mut stage: SolvingStage = SolvingStage::new(5, 5);
    stage.stage[1 * 2 + 1][2 * 2] = 0;
    stage.stage[2 * 2][1 * 2 + 1] = 1;
    stage.stage[3 * 2 + 1][2 * 2] = 0;
    stage.stage[3 * 2][1 * 2 + 1] = 1;
    stage.stage[1 * 2 + 1][3 * 2] = 1;
    stage.stage[2 * 2][3 * 2 + 1] = 0;
    stage.stage[3 * 2 + 1][3 * 2] = 0;
    stage.check_group();
    assert!(stage.stage[3 * 2][3 * 2 + 1] == 1);
}
