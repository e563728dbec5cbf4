use loop_puzzle::rotation::{rot_p, P_DL, P_NONE, P_RD, P_UD, P_UL, P_UR};

#[test]
fn test1() {
    assert!(rot_p(P_RD, 1) == P_DL);
    assert!(rot_p(P_UD, 2) == P_UD);
    assert!(rot_p(P_UL | P_NONE, 1) == P_UR | P_NONE);
}
