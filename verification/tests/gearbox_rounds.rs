use spmspm_pim::gearbox::HardwareConfig;
use spmspm_pim::gearbox_rounds::{GearboxSim, Hardware, TotalResult};
use spmspm_pim::row_cycle::{LogicColId, LogicRowId, RingBufferId, RingId, RingPort, SubarrayId, TsvId};
use spmspm_pim::sparse::CsrPattern;

fn config(channels: usize, banks: usize, subarrays: usize) -> HardwareConfig {
    HardwareConfig { channels, ranks: 1, chips: 1, bank_groups: 1, banks, subarrays, stacks: 1, layers: channels }
}

#[test]
fn test_id_translate() {
    let config = config(16, 16, 16);
    let hard_ware = Hardware::new(1024, config, 100, 100);
    assert_eq!(hard_ware.tsvs(), 16);
    assert_eq!(hard_ware.subarrays(), 4096);
    assert_eq!(hard_ware.banks(), 256);
    assert_eq!(hard_ware.get_dispatcher_id(SubarrayId(0)), SubarrayId(0));
    assert_eq!(hard_ware.get_dispatcher_id(SubarrayId(16)), SubarrayId(16));
    assert_eq!(hard_ware.get_dispatcher_id(SubarrayId(19)), SubarrayId(16));

    assert_eq!(hard_ware.get_partition_id_col(LogicColId(0)), SubarrayId(0));
    assert_eq!(hard_ware.get_partition_id_col(LogicColId(1001)), SubarrayId(10));
    assert_eq!(hard_ware.get_partition_id_row(LogicRowId(4095)), SubarrayId(40));
    assert_eq!(hard_ware.get_tsv_id_from_ring(RingId(0)), TsvId(0));
    assert_eq!(hard_ware.get_tsv_id_from_subarray(SubarrayId(1)), TsvId(0));
    assert_eq!(hard_ware.get_tsv_id_from_subarray(SubarrayId(16)), TsvId(0));
    assert_eq!(hard_ware.get_tsv_id_from_subarray(SubarrayId(255)), TsvId(0));
    assert_eq!(hard_ware.get_tsv_id_from_subarray(SubarrayId(256)), TsvId(1));
    assert_eq!(hard_ware.ring_buffer_id(SubarrayId(17)), RingBufferId(1));
    assert_eq!(hard_ware.ring_buffer_id(SubarrayId(15)), RingBufferId(0));
    assert_eq!(hard_ware.ring_id_from_subarray(SubarrayId(0)), RingId(0));
    assert_eq!(hard_ware.ring_id_from_subarray(SubarrayId(255)), RingId(0));
    assert_eq!(hard_ware.ring_id_from_subarray(SubarrayId(256)), RingId(1));
    assert_eq!(hard_ware.ring_port_from_subarray(SubarrayId(255)), RingPort(15));
    assert_eq!(hard_ware.ring_port_from_subarray(SubarrayId(256)), RingPort(0));
    assert_eq!(hard_ware.ring_port_from_subarray(SubarrayId(16)), RingPort(1));

    assert_eq!(hard_ware.rings(), 16);
    for i in 0..100 {
        assert_eq!(
            hard_ware.ring_id_from_subarray(SubarrayId(i)),
            hard_ware.ring_id_from_subarray(hard_ware.get_dispatcher_id(SubarrayId(i)))
        );
        assert_eq!(
            hard_ware.ring_port_from_subarray(SubarrayId(i)),
            hard_ware.ring_port_from_subarray(hard_ware.get_dispatcher_id(SubarrayId(i)))
        );
    }
}

fn totals(t: &TotalResult) -> [usize; 6] {
    [
        t.global_max_acc_cycle,
        t.global_max_acc_cycle_remote,
        t.gloabl_max_acc_ring,
        t.global_max_acc_tsv,
        t.global_max_real_local,
        t.global_max_ring_buffer,
    ]
}

#[test]
fn rounds_add_the_slowest_units() {
    // Two subarrays on one ring; row 0 is local, row 1 is sent on the ring.
    let matrix_b = CsrPattern { cols: 2, indices: vec![vec![0], vec![0]] };
    let input = CsrPattern { cols: 2, indices: vec![vec![0], vec![1]] };
    let mut sim = GearboxSim::new(vec![], vec![], matrix_b, &config(1, 2, 1));
    assert_eq!(sim.row_per_partition, 1);
    assert_eq!(sim.col_per_partition, 1);
    assert!(sim.can_run(&input, 1));
    let total = sim.run(&input, 1);
    assert_eq!(totals(&total), [27, 0, 1, 0, 27, 1]);
    let r = sim.report("g".to_string(), total, 1);
    assert_eq!(r.name, "g");
    assert_eq!(r.batch, 1);
    assert_eq!(r.subarray_result.len(), 2);
    assert_eq!(r.subarray_result[0].cycle, 18);
    assert_eq!(r.subarray_result[0].local_row_open_cycle, 18);
    assert_eq!(r.subarray_result[1].cycle, 9);
    assert_eq!(r.subarray_result[1].remote_row_read_cycle, 9);
    assert_eq!(r.subarray_result[1].cycle_remote, 0);
    assert_eq!(r.ring_result.len(), 1);
    assert_eq!((r.ring_result[0].cycle, r.ring_result[0].traffic), (1, 1));
    assert_eq!((r.tsv_result[0].cycle, r.tsv_result[0].traffic), (0, 0));
}

#[test]
fn cross_channel_products_use_both_tsvs() {
    let matrix_b = CsrPattern { cols: 2, indices: vec![vec![], vec![0]] };
    let input = CsrPattern { cols: 2, indices: vec![vec![1]] };
    let mut sim = GearboxSim::new(vec![], vec![], matrix_b, &config(2, 1, 1));
    assert!(sim.can_run(&input, 1));
    let total = sim.run(&input, 1);
    assert_eq!(totals(&total), [9, 9, 0, 1, 9, 1]);
    let r = sim.report("g".to_string(), total, 1);
    assert_eq!(r.subarray_result[0].remote_row_write_cycle, 9);
    assert_eq!(r.subarray_result[0].cycle_remote, 9);
    assert_eq!(r.subarray_result[1].remote_row_read_cycle, 9);
    assert_eq!(r.ring_result.len(), 2);
    assert_eq!((r.ring_result[0].cycle, r.ring_result[0].traffic), (0, 1));
    assert_eq!((r.ring_result[1].cycle, r.ring_result[1].traffic), (0, 1));
    assert_eq!((r.tsv_result[0].cycle, r.tsv_result[0].traffic), (1, 1));
    assert_eq!((r.tsv_result[1].cycle, r.tsv_result[1].traffic), (1, 1));
}

#[test]
fn evil_columns_are_read_where_the_target_row_lives() {
    let matrix_b = CsrPattern { cols: 2, indices: vec![vec![0, 1], vec![]] };
    let input = CsrPattern { cols: 2, indices: vec![vec![0]] };
    let mut sim = GearboxSim::new(vec![1], vec![], matrix_b, &config(1, 2, 1));
    assert!(sim.can_run(&input, 1));
    let total = sim.run(&input, 1);
    assert_eq!(totals(&total), [19, 0, 0, 0, 19, 1]);
    let r = sim.report("g".to_string(), total, 1);
    assert_eq!(r.subarray_result[0].cycle, 19);
    assert_eq!(r.subarray_result[0].local_row_open_cycle, 18);
    assert_eq!(r.subarray_result[0].remote_row_read_cycle, 1);
    assert_eq!((r.ring_result[0].cycle, r.ring_result[0].traffic), (0, 1));
}

#[test]
fn evil_columns_are_sent_once_per_input_row() {
    // Both nonzeros of input row 0 meet evil column 1, which lives in the
    // other subarray: the products are gathered over the row and one is sent.
    let matrix_b = CsrPattern { cols: 2, indices: vec![vec![1], vec![1]] };
    let input = CsrPattern { cols: 2, indices: vec![vec![0, 1]] };
    let mut sim = GearboxSim::new(vec![1], vec![], matrix_b, &config(1, 2, 1));
    assert!(sim.can_run(&input, 1));
    let total = sim.run(&input, 1);
    assert_eq!(total.global_max_ring_buffer, 1);
    let r = sim.report("g".to_string(), total, 1);
    assert_eq!(r.ring_result[0].traffic, 1);
}

#[test]
fn evil_rows_are_counted_apart() {
    let matrix_b = CsrPattern { cols: 2, indices: vec![vec![0, 1], vec![]] };
    let input = CsrPattern { cols: 2, indices: vec![vec![0]] };
    let mut sim = GearboxSim::new(vec![], vec![0], matrix_b, &config(1, 2, 1));
    assert!(sim.can_run(&input, 1));
    let total = sim.run(&input, 1);
    assert_eq!(totals(&total), [18, 0, 0, 0, 18, 0]);
    let r = sim.report("g".to_string(), total, 1);
    for p in 0..2 {
        assert_eq!(r.subarray_result[p].cycle, 18);
        assert_eq!(r.subarray_result[p].local_row_open_cycle_evil, 18);
        assert_eq!(r.subarray_result[p].local_row_open_cycle, 0);
    }
}

#[test]
fn an_unfinished_round_is_not_counted() {
    let matrix_b = CsrPattern { cols: 2, indices: vec![vec![0], vec![0]] };
    let input = CsrPattern { cols: 2, indices: vec![vec![0]] };
    let mut sim = GearboxSim::new(vec![], vec![], matrix_b, &config(1, 2, 1));
    assert!(sim.can_run(&input, 2));
    let total = sim.run(&input, 2);
    assert_eq!(totals(&total), [0, 0, 0, 0, 0, 0]);
    let r = sim.report("g".to_string(), total, 2);
    assert_eq!(r.subarray_result[0].cycle, 0);
}

#[test]
fn rounds_are_checked_before_they_start() {
    let matrix_b = CsrPattern { cols: 2, indices: vec![vec![0], vec![0]] };
    let sim = GearboxSim::new(vec![], vec![], matrix_b.clone(), &config(1, 2, 1));
    let input = CsrPattern { cols: 2, indices: vec![vec![0], vec![1]] };
    assert!(sim.can_run(&input, 1));
    // no round size
    assert!(!sim.can_run(&input, 0));
    // a nonzero that names no row of matrix B
    let bad = CsrPattern { cols: 2, indices: vec![vec![2]] };
    assert!(!sim.can_run(&bad, 1));
    // ring ports would not fit their counter
    let wide = GearboxSim::new(vec![], vec![], matrix_b, &config(1, 200, 1));
    assert!(!wide.can_run(&input, 1));
}
