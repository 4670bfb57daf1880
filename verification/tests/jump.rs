use spmspm_pim::jump::ideal_jump::IdealJumpCycle;
use spmspm_pim::jump::myjump_only::MyJumpOnly;
use spmspm_pim::jump::normal_jump::NormalJumpCycle;
use spmspm_pim::jump::normal_jump_selective::NormalJumpCycleSelective;
use spmspm_pim::jump::{check_same_walker, AddableJumpCycle, JumpCycle, UpdatableJumpCycle};
use spmspm_pim::remote_updator::SelectiveUpdator;
use spmspm_pim::row_cycle::{PhysicRowId, RowIdWordId, RowLocation, SubarrayId, WordId};

fn status(row: usize, word: usize) -> RowIdWordId {
    RowIdWordId { row_id: PhysicRowId(row), word_id: WordId(word) }
}

fn location(row: usize, word: usize) -> RowLocation {
    RowLocation { row_id_word_id: status(row, word), subarray_id: SubarrayId(0) }
}

#[test]
fn test_ideal_jump() {
    let mut ideal_jump: IdealJumpCycle<32> = IdealJumpCycle::default();
    ideal_jump.update(&status(0, 0), &location(0, 0), WordId(10), 3);
    let total = ideal_jump.total();
    assert_eq!(total, 18 + 10);
}

#[test]
fn test_ideal_jump_different_row() {
    let mut ideal_jump: IdealJumpCycle<32> = IdealJumpCycle::default();
    ideal_jump.update(&status(0, 0), &location(1, 0), WordId(10), 3);
    let total = ideal_jump.total();
    assert_eq!(total, 18 + 10 + 18);
}

#[test]
fn test_same_row_different_walker() {
    let mut ideal_jump: IdealJumpCycle<32> = IdealJumpCycle::default();
    ideal_jump.update(&status(0, 0), &location(0, 8), WordId(10), 3);
    let total = ideal_jump.total();
    assert_eq!(total, 18 + 10 + 18);
}

#[test]
fn test_check_same_walker() {
    let source = status(0, 0);
    let target = status(0, 3);
    let false_target_wrong_row = status(1, 3);
    let false_target_wrong_col = status(0, 8);
    assert!(check_same_walker::<32>(&source, &target));
    assert!(!check_same_walker::<32>(&source, &false_target_wrong_row));
    assert!(!check_same_walker::<32>(&source, &false_target_wrong_col));
}

#[test]
fn myjump_only_test_jump() {
    let mut ideal_jump: MyJumpOnly<4, 32> = MyJumpOnly::default();
    ideal_jump.update(&status(0, 0), &location(0, 0), WordId(10), 3);
    let total = ideal_jump.total();
    // 0 first row, 1 extra row, 10 words, 3 cal, 1 jump(0-0)no cover
    assert_eq!(total, 18 + 10 + 3 + 1);
}

#[test]
fn myjump_only_test_jump_different_row() {
    let mut ideal_jump: MyJumpOnly<4, 32> = MyJumpOnly::default();
    ideal_jump.update(&status(0, 0), &location(1, 0), WordId(10), 3);
    let total = ideal_jump.total();
    assert_eq!(total, 18 + 10 + 18 + 3);
}

#[test]
fn myjump_only_test_jump_different_row_with_jump_small() {
    let mut ideal_jump: MyJumpOnly<4, 32> = MyJumpOnly::default();
    ideal_jump.update(&status(0, 0), &location(1, 6), WordId(16), 3);
    let total = ideal_jump.total();
    assert_eq!(total, 18 + 16 + 18 + 18 + 3);
}

#[test]
fn myjump_only_test_jump_different_row_with_jump_large() {
    let mut ideal_jump: MyJumpOnly<4, 32> = MyJumpOnly::default();
    ideal_jump.update(&status(0, 0), &location(1, 16), WordId(16), 3);
    let total = ideal_jump.total();
    assert_eq!(total, 18 + 16 + 18 + 3);
}

#[test]
fn normal_jump_selective_test_jump() {
    let mut ideal_jump: NormalJumpCycleSelective<32> = NormalJumpCycleSelective::default();
    ideal_jump.update(&status(0, 0), &location(0, 0), WordId(10), 3);
    let total = ideal_jump.total();
    assert_eq!(total, 18 + 10);
}

#[test]
fn normal_jump_selective_test_jump_different_row() {
    let mut ideal_jump: NormalJumpCycleSelective<32> = NormalJumpCycleSelective::default();
    ideal_jump.update(&status(0, 0), &location(1, 0), WordId(10), 3);
    let total = ideal_jump.total();
    assert_eq!(total, 18 + 10 + 18);
}

#[test]
fn normal_jump_selective_test_jump_different_row_with_jump_small() {
    let mut ideal_jump: NormalJumpCycleSelective<32> = NormalJumpCycleSelective::default();
    ideal_jump.update(&status(0, 0), &location(1, 6), WordId(16), 3);
    let total = ideal_jump.total();
    assert_eq!(total, 18 + 16 + 18 + 18);
}

#[test]
fn normal_jump_selective_test_jump_different_row_with_jump_large() {
    let mut ideal_jump: NormalJumpCycleSelective<32> = NormalJumpCycleSelective::default();
    ideal_jump.update(&status(0, 0), &location(1, 16), WordId(16), 3);
    let total = ideal_jump.total();
    assert_eq!(total, 18 + 16 + 18);
}

fn alternating_locations() -> Vec<RowLocation> {
    [1, 9, 1, 9, 1, 9, 1, 9].into_iter().map(|x| location(0, x)).collect()
}

#[test]
fn test_selective() {
    let mut normal_jump_cycle = NormalJumpCycle::<32>::default();
    let mut selective_updator =
        SelectiveUpdator::<'_, 32, _>::new(&mut normal_jump_cycle, status(0, 0), WordId(1), 1);
    selective_updator.update(alternating_locations());
    println!("extra scan cycles: {}", selective_updator.extra_scan_cycles);
    println!("jump cycles: {:#?}", normal_jump_cycle);
}

#[test]
fn test_sequential() {
    let mut normal_jump_cycle = NormalJumpCycle::<32>::default();
    let mut row_status = status(0, 0);
    for row_location in alternating_locations() {
        normal_jump_cycle.update(&row_status, &row_location, WordId(1), 1);
        row_status = row_location.row_id_word_id;
    }
    println!("jump cycles: {:#?}", normal_jump_cycle);
}

#[test]
fn selective_order_groups_walkers() {
    // the run 1, 9, 1, 9, .. falls in two walkers of one row; taken walker
    // by walker it needs one jump into each walker instead of one per access
    let mut sequential = NormalJumpCycle::<32>::default();
    let mut row_status = status(0, 0);
    for row_location in alternating_locations() {
        sequential.update(&row_status, &row_location, WordId(1), 1);
        row_status = row_location.row_id_word_id;
    }
    let mut grouped = NormalJumpCycle::<32>::default();
    let mut selective_updator =
        SelectiveUpdator::<'_, 32, _>::new(&mut grouped, status(0, 0), WordId(1), 1);
    selective_updator.update(alternating_locations());
    let extra = selective_updator.extra_scan_cycles;
    assert!(grouped.total() < sequential.total());
    assert!(extra > 0);
}

#[test]
fn jump_cycles_add_up() {
    let mut a: IdealJumpCycle<32> = IdealJumpCycle::default();
    a.update(&status(0, 0), &location(1, 0), WordId(10), 3);
    let mut b: IdealJumpCycle<32> = IdealJumpCycle::default();
    b.update(&status(0, 0), &location(0, 8), WordId(10), 3);
    let (ta, tb) = (a.total(), b.total());
    a.add(&b);
    assert_eq!(a.total(), ta + tb);
}
