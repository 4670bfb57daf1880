use spmspm_pim::dispatch::{batch_ends, plan_row, DistributeType, Mapping};
use spmspm_pim::gearbox::IdSet;
use spmspm_pim::row_cycle::{LogicColId, LogicRowId};
use spmspm_pim::same_bank_weighted::SameBankWeightedMapping;
use spmspm_pim::sparse::CsrPattern;

/// The end row of each bank, cut the way the weighted mapping's callers
/// cut: where the running nonzero count, as `f32`, first exceeds `(b + 1)`
/// times the average per bank.
fn weighted_bank_rows(graph: &CsrPattern, global_total_banks: usize) -> Vec<usize> {
    let weight: usize = graph.indices.iter().map(|r| r.len()).sum();
    let average_nnz = weight as f32 / global_total_banks as f32;
    let mut bank_rows = vec![];
    let mut accumulated = 0usize;
    let mut row_id = 0usize;
    let mut rows = graph.indices.iter();
    'outer: for bank_id in 0..global_total_banks {
        let target = (bank_id + 1) as f32 * average_nnz;
        if accumulated as f32 > target {
            bank_rows.push(row_id);
            continue;
        }
        for row in rows.by_ref() {
            row_id += 1;
            accumulated += row.len();
            if accumulated as f32 > target {
                bank_rows.push(row_id);
                continue 'outer;
            }
        }
        break;
    }
    while bank_rows.len() < global_total_banks {
        bank_rows.push(graph.indices.len());
    }
    bank_rows
}


fn graph() -> CsrPattern {
    CsrPattern { cols: 4, indices: vec![vec![0, 1], vec![2], vec![0, 3], vec![1, 2, 3]] }
}

#[test]
fn plan_follows_the_mapping() {
    let g = graph();
    let mapping = SameBankWeightedMapping::new(2, 1, 2, 256, &g, &weighted_bank_rows(&g, 2));
    let no = IdSet::from_ids(vec![]);
    let plan = plan_row(&mapping, &no, &no, &g, 1, &vec![0, 3]);
    assert_eq!(plan.len(), 5);
    let expected: Vec<(usize, usize)> = vec![(0, 0), (0, 1), (3, 1), (3, 2), (3, 3)];
    for (d, (b, c)) in plan.iter().zip(expected) {
        assert_eq!(d.target, LogicRowId(1));
        assert_eq!(d.mat_b_row, LogicRowId(b));
        assert_eq!(d.col, LogicColId(c));
        let same = mapping.get_result_dense_location(LogicRowId(1), LogicColId(c)).0
            == mapping.get_matrix_b_location(LogicRowId(b)).0;
        let kind = if same { DistributeType::Local } else { DistributeType::Remote };
        assert_eq!(d.kind, kind);
    }
}

#[test]
fn evil_rows_and_columns_are_set_apart() {
    let g = graph();
    let mapping = SameBankWeightedMapping::new(2, 1, 2, 256, &g, &weighted_bank_rows(&g, 2));
    let evil_rows = IdSet::from_ids(vec![3]);
    let evil_cols = IdSet::from_ids(vec![1]);
    let plan = plan_row(&mapping, &evil_rows, &evil_cols, &g, 0, &vec![0, 3]);
    assert_eq!(plan.len(), 3);
    assert_eq!(plan[1].kind, DistributeType::EvilCol);
    assert_eq!(plan[1].col, LogicColId(1));
    assert_eq!(plan[2].kind, DistributeType::EvilRow);
    assert_eq!(plan[2].mat_b_row, LogicRowId(3));
    assert_eq!(plan[2].col, LogicColId(0));
    assert!(evil_rows.contains(3));
    assert!(!evil_rows.contains(1));
}

#[test]
fn batches_end_every_batch_rows() {
    assert!(!batch_ends(0, 2));
    assert!(batch_ends(1, 2));
    assert!(batch_ends(0, 1));
    assert!(batch_ends(5, 3));
}
