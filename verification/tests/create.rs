use loop_puzzle::generate::make_puzzle;

#[test]
fn make_puzzle_5_5() {
    let stage = make_puzzle(5, 5);
    assert!(stage.size_r == 5 && stage.size_c == 5);
}

