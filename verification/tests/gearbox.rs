use spmspm_pim::gearbox::{ids_by_weight, GearboxSim, HardwareConfig, Ring, SubArray};
use spmspm_pim::row_cycle::{PhysicRowId, RingPort};
use spmspm_pim::sparse::CsrPattern;

fn config(banks: usize, subarrays: usize, layers: usize) -> HardwareConfig {
    HardwareConfig { channels: layers, ranks: 1, chips: 1, bank_groups: 1, banks, subarrays, stacks: 1, layers }
}

#[test]
fn same_layer_transfers_load_the_ring() {
    let matrix_b = CsrPattern { cols: 4, indices: vec![vec![1], vec![2], vec![], vec![]] };
    let input = CsrPattern { cols: 4, indices: vec![vec![0, 1]] };
    let mut sim = GearboxSim::new(4, vec![], vec![], matrix_b, &config(4, 1, 1));
    assert_eq!(sim.row_per_partition, 1);
    assert_eq!(sim.col_per_partition, 1);
    sim.run(&input);
    assert!(sim.can_report());
    let r = sim.report("g".to_string());
    assert_eq!(r.name, "g");
    assert_eq!(r.subarray_result.len(), 4);
    assert!(r.subarray_result.iter().all(|s| s.cycle == 0));
    assert_eq!(r.ring_result.len(), 1);
    assert_eq!(r.ring_result[0].traffic, 2);
    assert_eq!(r.ring_result[0].cycle, 1);
    assert_eq!(r.tsv_result[0].traffic, 0);
}

#[test]
fn cross_layer_transfers_use_both_tsvs() {
    let matrix_b = CsrPattern { cols: 4, indices: vec![vec![2], vec![], vec![], vec![]] };
    let input = CsrPattern { cols: 4, indices: vec![vec![0]] };
    let mut sim = GearboxSim::new(4, vec![], vec![], matrix_b, &config(2, 1, 2));
    sim.run(&input);
    assert!(sim.can_report());
    let r = sim.report("g".to_string());
    assert_eq!(r.subarray_result[2].cycle, 10);
    assert_eq!(r.subarray_result[2].row_write_cycle, 9);
    assert_eq!(r.subarray_result[2].comp_cycle, 0);
    assert_eq!(r.subarray_result[0].cycle, 0);
    assert_eq!(r.ring_result.len(), 2);
    assert_eq!(r.ring_result[0].traffic, 1);
    assert_eq!(r.ring_result[1].traffic, 1);
    assert_eq!(r.tsv_result.len(), 2);
    assert_eq!(r.tsv_result[0].cycle, 1);
    assert_eq!(r.tsv_result[1].cycle, 1);
}

#[test]
fn local_products_read_and_write() {
    let matrix_b = CsrPattern { cols: 4, indices: vec![vec![0, 3], vec![1], vec![], vec![2]] };
    let input = CsrPattern { cols: 4, indices: vec![vec![0], vec![3]] };
    let mut sim = GearboxSim::new(4, vec![], vec![], matrix_b, &config(2, 2, 1));
    sim.run(&input);
    let r = sim.report("g".to_string());
    let s0 = r.subarray_result[0];
    assert_eq!((s0.cycle, s0.row_open_cycle, s0.row_read_cycle, s0.row_write_cycle, s0.comp_cycle), (20, 18, 9, 9, 1));
    assert_eq!(r.ring_result[0].traffic, 2);
}

#[test]
fn evil_rows_stay_local() {
    let matrix_b = CsrPattern { cols: 4, indices: vec![vec![2], vec![], vec![], vec![]] };
    let input = CsrPattern { cols: 4, indices: vec![vec![0]] };
    let mut sim = GearboxSim::new(4, vec![], vec![0], matrix_b, &config(2, 1, 2));
    sim.run(&input);
    let r = sim.report("g".to_string());
    assert_eq!(r.subarray_result[2].cycle, 20);
    assert_eq!(r.ring_result[0].traffic, 0);
    assert_eq!(r.tsv_result[0].traffic, 0);
}

#[test]
fn evil_columns_go_remote_from_the_target_row() {
    // column 2 is evil: each product with it is sent from the subarray of
    // target row 0 to the subarray of column 2, on the other layer
    let matrix_b = CsrPattern { cols: 4, indices: vec![vec![2], vec![2], vec![], vec![]] };
    let input = CsrPattern { cols: 4, indices: vec![vec![0, 1]] };
    let mut sim = GearboxSim::new(4, vec![2], vec![], matrix_b, &config(2, 1, 2));
    sim.run(&input);
    let r = sim.report("g".to_string());
    assert_eq!(r.tsv_result[0].traffic, 2);
    assert_eq!(r.tsv_result[1].traffic, 2);
    assert_eq!(r.subarray_result[2].cycle, 11);
}

#[test]
fn subarray_runs_merge_repeated_rows() {
    let mut s = SubArray::new();
    s.add_task(PhysicRowId(1), PhysicRowId(5));
    s.add_task(PhysicRowId(1), PhysicRowId(6));
    s.add_remote_task(PhysicRowId(6));
    assert_eq!(s.local_read_rows, vec![(PhysicRowId(1), 2)]);
    assert_eq!(s.local_write_rows, vec![(PhysicRowId(5), 1), (PhysicRowId(6), 2)]);
    let r = s.report();
    // one read run (9 + 2), two write runs (9 + 1, 9 + 2)
    assert_eq!(r.cycle, 11 + 10 + 11);
    assert_eq!(r.row_open_cycle, 27);
    assert_eq!(r.comp_cycle, 2);
    s.read_open = Some(1);
    assert_eq!(s.report().row_read_cycle, 0);
    s.write_open = Some(5);
    assert_eq!(s.report().row_write_cycle, 18);
}

#[test]
fn ring_takes_the_short_way() {
    let mut ring = Ring::new(4);
    ring.add_task(RingPort(0), RingPort(1));
    ring.add_task(RingPort(0), RingPort(2));
    ring.add_task(RingPort(3), RingPort(1));
    let r = ring.report();
    // 0->1 holds segment 0; 0->2 is a tie taken as 2..0, holding nothing;
    // 3->1 is a tie taken as 1..3, holding segments 1 and 2
    assert_eq!(r.traffic, 3);
    assert_eq!(r.cycle, 1);
    ring.add_task(RingPort(1), RingPort(2));
    assert_eq!(ring.report().cycle, 2);
}

#[test]
fn runs_are_checked_before_they_start() {
    let matrix_b = CsrPattern { cols: 4, indices: vec![vec![1], vec![2], vec![], vec![]] };
    let sim = GearboxSim::new(4, vec![], vec![], matrix_b.clone(), &config(4, 1, 1));
    assert!(sim.can_run(&CsrPattern { cols: 4, indices: vec![vec![0, 1]] }));
    // row 7 of matrix B does not exist
    assert!(!sim.can_run(&CsrPattern { cols: 8, indices: vec![vec![7]] }));
    // with two layers but a single ring, the subarrays of layer 1 have no ring
    let lonely = HardwareConfig { channels: 1, ranks: 1, chips: 1, bank_groups: 1, banks: 2, subarrays: 1, stacks: 1, layers: 1 };
    let sim = GearboxSim::new(4, vec![], vec![], matrix_b, &lonely);
    assert!(!sim.can_run(&CsrPattern { cols: 4, indices: vec![vec![0]] }));
}

#[test]
fn ids_rank_heaviest_first() {
    assert_eq!(ids_by_weight(&vec![1, 3, 3, 0, 5]), vec![4, 1, 2, 0, 3]);
    assert_eq!(ids_by_weight(&vec![]), Vec::<usize>::new());
    let g = CsrPattern { cols: 3, indices: vec![vec![0], vec![0, 1, 2], vec![]] };
    assert_eq!(ids_by_weight(&g.row_lengths()), vec![1, 0, 2]);
}

#[test]
fn test_gearbox_mapping() {
    // get the number of remote rows, local rows, evil rows, evil cols
}
