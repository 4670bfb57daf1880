use spmspm_pim::gearbox_refined::SubArray;
use spmspm_pim::row_cycle::PhysicRowId;
use spmspm_pim::sparse::graph_and_transpose;

#[test]
fn writes_on_the_open_row_cost_the_column_distance() {
    let mut s = SubArray::new();
    s.add_task(PhysicRowId(5), PhysicRowId(2), false, 10);
    s.add_task(PhysicRowId(5), PhysicRowId(2), false, 14);
    s.add_task(PhysicRowId(6), PhysicRowId(3), true, 0);
    s.add_remote_task(PhysicRowId(2), 3);
    s.add_remote_task(PhysicRowId(2), 7);
    s.add_remote_read_task(PhysicRowId(6));
    assert_eq!(s.report_current_round(), (62, 13));
    let r = s.report();
    assert_eq!(r.cycle, 62);
    assert_eq!(r.local_row_open_cycle, 18);
    assert_eq!(r.local_row_read_cycle, 1);
    assert_eq!(r.local_row_write_cycle, 4);
    assert_eq!(r.local_row_open_cycle_evil, 38);
    assert_eq!(r.remote_row_read_cycle, 1);
    assert_eq!(r.remote_row_write_cycle, 13);
    assert_eq!(r.cycle_remote, 13);
    assert_eq!(s.write_open, Some((3, 0)));
    assert_eq!(s.remote_write, Some((2, 7)));
}

#[test]
fn graph_and_transpose_sort_and_merge_the_entries() {
    let (a, b) = graph_and_transpose(3, 4, vec![(2, 1), (0, 3), (0, 1), (2, 1), (1, 0)]);
    assert_eq!(a.cols, 4);
    assert_eq!(a.indices, vec![vec![1, 3], vec![0], vec![1]]);
    assert_eq!(b.cols, 3);
    assert_eq!(b.indices, vec![vec![1], vec![0, 2], vec![], vec![0]]);
}
