use spmspm_pim::row_cycle::{AllJumpCyclesTypes, TOTAL_TYPES_COUNT};

#[test]
fn row_cycle_test() {
    let types = AllJumpCyclesTypes::NormalJumpCycle256;
    for i in types.and_following() {
        println!("{:?}", i);
    }
}

#[test]
fn all_types_follow_the_first() {
    let all = AllJumpCyclesTypes::NormalJumpCycle256.and_following();
    assert_eq!(all.len(), TOTAL_TYPES_COUNT);
    for (k, t) in all.iter().enumerate() {
        assert_eq!(t.position(), k);
        assert_eq!(AllJumpCyclesTypes::from_position(k), Some(*t));
    }
    assert_eq!(AllJumpCyclesTypes::from_position(TOTAL_TYPES_COUNT), None);
    let tail = AllJumpCyclesTypes::MyJumpOnly16_32.and_following();
    assert_eq!(tail, vec![AllJumpCyclesTypes::MyJumpOnly16_32]);
    let ideal = AllJumpCyclesTypes::IdealJumpCycle256.and_following();
    assert_eq!(ideal.len(), TOTAL_TYPES_COUNT - 4);
    assert_eq!(ideal[0], AllJumpCyclesTypes::IdealJumpCycle256);
}
