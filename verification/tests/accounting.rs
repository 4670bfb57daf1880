use std::collections::BTreeSet;

use spmspm_pim::action::{slowest_index, update_jump_cycle, TotalAction};
use spmspm_pim::bits::{count_to_log, BitsField};
use spmspm_pim::event::Event;
use spmspm_pim::evil_filter::{AllEvilFilter, EvilFilter, NoEvilFilter, PercentEvilFilter};
use spmspm_pim::jump::ideal_jump::IdealJumpCycle;
use spmspm_pim::jump::normal_jump::NormalJumpCycle;
use spmspm_pim::jump::{JumpCycle, UpdatableJumpCycle};
use spmspm_pim::overlap::{compute_single_task_overlap_stat, compute_single_task_overlap_stat_for, SingleTaskOverlapStat};
use spmspm_pim::resource::{ResourceConstraint, RoundTask};
use spmspm_pim::results::SubArrayResult;
use spmspm_pim::row_cycle::{LogicColId, LogicRowId, PhysicRowId, RowIdWordId, RowLocation, SubarrayId, WordId};
use spmspm_pim::transpose::transpose2;

#[test]
fn count_to_log_is_ceil_log2() {
    assert_eq!(count_to_log(100), 7);
    assert_eq!(count_to_log(1000), 10);
    assert_eq!(count_to_log(10000), 14);
    assert_eq!(count_to_log(4), 2);
    assert_eq!(count_to_log(5), 3);
    assert_eq!(count_to_log(1), 0);
    assert_eq!(count_to_log(0), 0);
}

#[test]
fn bits_field_extracts() {
    let field = BitsField { bits: 2, offset: 2 };
    assert_eq!(field.get(0b110100), 0b01);
    assert_eq!(BitsField { bits: 3, offset: 0 }.get(13), 5);
    assert_eq!(BitsField { bits: 0, offset: 4 }.get(255), 0);
}

#[test]
fn overlap_histogram_counts_rounds() {
    let stat = compute_single_task_overlap_stat_for("g".to_string(), &vec![0, 1, 1, 3, 2000]);
    assert_eq!(stat.graph, "g");
    assert_eq!(stat.overlap_histogram.len(), 1025);
    assert_eq!(stat.overlap_histogram[0], 1);
    assert_eq!(stat.overlap_histogram[1], 2);
    assert_eq!(stat.overlap_histogram[2], 0);
    assert_eq!(stat.overlap_histogram[3], 1);
    // an overlap past the last bucket lands in it
    assert_eq!(stat.overlap_histogram[1024], 1);
    let all = compute_single_task_overlap_stat(vec![("a".to_string(), vec![5]), ("b".to_string(), vec![])]);
    assert_eq!(all.len(), 2);
    assert_eq!(all[0].overlap_histogram[5], 1);
    assert_eq!(all[1].overlap_histogram.iter().sum::<usize>(), 0);
    let mut small = SingleTaskOverlapStat::new("s".to_string(), 2);
    small.add(7);
    assert_eq!(small.overlap_histogram, vec![0, 0, 1]);
}

#[test]
fn transpose_swaps_rows_and_columns() {
    let m = vec![vec![1, 2, 3], vec![4, 5, 6]];
    assert_eq!(transpose2(m), vec![vec![1, 4], vec![2, 5], vec![3, 6]]);
}

#[test]
fn resource_allocation() {
    let mut r = ResourceConstraint::new(16);
    let first = vec![RoundTask { sub_array_id: 1, size: 8 }, RoundTask { sub_array_id: 2, size: 5 }];
    let e = match r.allocate(first, 10) {
        Ok(e) => e,
        Err(_) => panic!("free subarrays must be granted"),
    };
    assert_eq!(e.finished_time, 10 + 2 + 1);
    assert_eq!(r.sub_array_occupied, BTreeSet::from([1, 2]));
    let clash = vec![RoundTask { sub_array_id: 2, size: 4 }];
    match r.allocate(clash, 0) {
        Ok(_) => panic!("an occupied subarray must be refused"),
        Err(t) => assert_eq!(t[0].sub_array_id, 2),
    }
    assert_eq!(r.sub_array_occupied, BTreeSet::from([1, 2]));
    r.deallocate(e.event);
    assert!(r.sub_array_occupied.is_empty());
}

#[test]
fn events_order_by_finished_time_reversed() {
    let early = Event { finished_time: 3, event: () };
    let late = Event { finished_time: 9, event: () };
    assert!(late < early);
    assert_eq!(early.compare(&late), std::cmp::Ordering::Greater);
    assert!(early == Event { finished_time: 3, event: () });
}

#[test]
fn subarray_results_accumulate() {
    let mut total = SubArrayResult::default();
    let mut one = SubArrayResult::default();
    one.cycle = 5;
    one.comp_cycle = 2;
    one.cycle_remote = 1;
    one.accumulate(&mut total);
    one.accumulate(&mut total);
    assert_eq!(total.cycle, 10);
    assert_eq!(total.comp_cycle, 4);
    assert_eq!(total.cycle_remote, 2);
    total.reset();
    assert_eq!(total.cycle, 0);
    assert_eq!(total.comp_cycle, 0);
}

#[test]
fn evil_filters() {
    assert!(AllEvilFilter.is_evil_row(LogicRowId(7)));
    assert!(!NoEvilFilter.is_evil_col(LogicColId(7)));
    let f = PercentEvilFilter::new(3, 1);
    assert!(f.is_evil_row(LogicRowId(2)));
    assert!(!f.is_evil_row(LogicRowId(3)));
    assert!(f.is_evil_col(LogicColId(0)));
    assert!(!f.is_evil_col(LogicColId(1)));
}

fn status(row: usize, word: usize) -> RowIdWordId {
    RowIdWordId { row_id: PhysicRowId(row), word_id: WordId(word) }
}

#[test]
fn slowest_model_is_picked() {
    let mut models: Vec<IdealJumpCycle<32>> = vec![IdealJumpCycle::default(); 3];
    let loc = RowLocation { row_id_word_id: status(1, 0), subarray_id: SubarrayId(0) };
    models[1].update(&status(0, 0), &loc, WordId(10), 3);
    assert_eq!(slowest_index(&models), 1);
    // ties go to the last one
    let same: Vec<IdealJumpCycle<32>> = vec![IdealJumpCycle::default(); 3];
    assert_eq!(slowest_index(&same), 2);
    let mut total: IdealJumpCycle<32> = IdealJumpCycle::default();
    let picked = update_jump_cycle(&models, &mut total);
    assert_eq!(picked, 18 + 10 + 18);
    assert_eq!(total.total(), models[1].total());
    let mut action = TotalAction::new();
    action.apply(&models[1]);
    assert_eq!(action.index, 1);
    assert_eq!(action.total[0], 18 + 10 + 18);
}

fn normal(one: usize, multi: usize, all: usize, covered: usize, no_open: usize, shift: usize) -> NormalJumpCycle<32> {
    NormalJumpCycle {
        jump_one_cycle: one,
        jump_multiple_cycle: multi,
        total_jumps_all: all,
        total_jumps_covered_by_row_open: covered,
        jumps_not_covered_when_no_row_open: no_open,
        jumps_not_covered_when_more_shift: shift,
    }
}

fn normal_fields(n: &NormalJumpCycle<32>) -> [usize; 6] {
    [
        n.jump_one_cycle,
        n.jump_multiple_cycle,
        n.total_jumps_all,
        n.total_jumps_covered_by_row_open,
        n.jumps_not_covered_when_no_row_open,
        n.jumps_not_covered_when_more_shift,
    ]
}

#[test]
fn the_slowest_round_adds_every_counter() {
    let models = vec![normal(5, 1, 9, 9, 9, 9), normal(2, 10, 7, 3, 2, 1), normal(4, 4, 1, 1, 1, 1)];
    let mut total = normal(1, 1, 1, 1, 1, 1);
    let picked = update_jump_cycle(&models, &mut total);
    assert_eq!(picked, 12);
    assert_eq!(normal_fields(&total), [3, 11, 8, 4, 3, 2]);
}
