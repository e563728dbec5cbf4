use loop_puzzle::stage::SolvingStage;

fn test_sub_x(num: i8, v1: bool, v2: bool, h1: bool, h2: bool) {
    let mut stage: SolvingStage = SolvingStage::new(4, 4);
    stage.stage[1 * 2 + 1][1 * 2 + 1] = num;
    stage.stage[1 * 2 + 1][1 * 2] = if v1 { 1 } else { -1 };
    stage.stage[1 * 2 + 1][2 * 2] = if v2 { 1 } else { -1 };
    stage.stage[1 * 2][1 * 2 + 1] = if h1 { 1 } else { -1 };
    stage.stage[2 * 2][1 * 2 + 1] = if h2 { 1 } else { -1 };
    let score = stage.check_number(1, 1);
    println!("Score: {score}");
    assert!(stage.stage[1 * 2 + 1][1 * 2] == if v1 { 1 } else { 0 });
    assert!(stage.stage[1 * 2 + 1][2 * 2] == if v2 { 1 } else { 0 });
    assert!(stage.stage[1 * 2][1 * 2 + 1] == if h1 { 1 } else { 0 });
    assert!(stage.stage[2 * 2][1 * 2 + 1] == if h2 { 1 } else { 0 });
}

#[test]
fn test_test1() {
    test_sub_x(1, true, false, false, false);
}

#[test]
fn test_test2() {
    test_sub_x(1, false, true, false, false);
}

#[test]
fn test_test3() {
    test_sub_x(1, false, false, true, false);
}

#[test]
fn test_test4() {
    test_sub_x(1, false, false, false, true);
}

#[test]
fn test5() {
    test_sub_x(2, true, true, false, false);
}

#[test]
fn test6() {
    test_sub_x(2, true, false, true, false);
}

#[test]
fn test7() {
    test_sub_x(3, true, false, true, true);
}

#[test]
fn test8() {
    test_sub_x(3, true, true, true, false);
}
