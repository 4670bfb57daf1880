use spmspm_pim::same_bank_weighted::SameBankWeightedMapping;
use spmspm_pim::sparse::CsrPattern;
use std::collections::BTreeMap;

/// The end row of each bank, cut the way the weighted mapping's callers
/// cut: where the running nonzero count, as `f32`, first exceeds `(b + 1)`
/// times the average per bank.
fn weighted_bank_rows(graph: &CsrPattern, global_total_banks: usize) -> Vec<usize> {
    let weight: usize = graph.indices.iter().map(|r| r.len()).sum();
    let average_nnz = weight as f32 / global_total_banks as f32;
    let mut bank_rows = vec![];
    let mut accumulated = 0usize;
    let mut row_id = 0usize;
    let mut rows = graph.indices.iter();
    'outer: for bank_id in 0..global_total_banks {
        let target = (bank_id + 1) as f32 * average_nnz;
        if accumulated as f32 > target {
            bank_rows.push(row_id);
            continue;
        }
        for row in rows.by_ref() {
            row_id += 1;
            accumulated += row.len();
            if accumulated as f32 > target {
                bank_rows.push(row_id);
                continue 'outer;
            }
        }
        break;
    }
    while bank_rows.len() < global_total_banks {
        bank_rows.push(graph.indices.len());
    }
    bank_rows
}


/// A small symmetric graph: a ring of twelve vertices with a few chords
/// (in place of a power-network graph read from a file).
fn graph() -> CsrPattern {
    let n: u32 = 12;
    let mut indices: Vec<Vec<u32>> = (0..n).map(|i| vec![(i + n - 1) % n, (i + 1) % n]).collect();
    for &(a, b) in &[(0u32, 6u32), (2, 9), (3, 7)] {
        indices[a as usize].push(b);
        indices[b as usize].push(a);
    }
    for row in indices.iter_mut() {
        row.sort();
    }
    CsrPattern { cols: n as usize, indices }
}

#[test]
fn same_bank_weighted_test() {
    let matrix = graph();
    let mapping = SameBankWeightedMapping::new(4, 4, 4, 4, &matrix, &weighted_bank_rows(&matrix, 16));
    println!("{:?}", mapping);
    assert_eq!(mapping.row_id_mappings.len(), matrix.indices.len());
}

#[test]
fn test_dist() {
    let matrix = graph();
    let mapping = SameBankWeightedMapping::new(4, 4, 4, 4, &matrix, &weighted_bank_rows(&matrix, 16));
    let mut bank_counts = BTreeMap::new();
    let mut subarray_counts = BTreeMap::new();
    let mut subarray_counts_weight = BTreeMap::new();
    let mut bank_counts_weight = BTreeMap::new();
    for row_mapping in mapping.row_id_mappings.iter() {
        let bank_id = row_mapping.bank_id;
        let subarray_id = row_mapping.subarray_id;
        let subarray_id = bank_id << mapping.subarray_bits | subarray_id;
        let weight = row_mapping.size;
        *bank_counts.entry(bank_id).or_insert(0) += 1;
        *subarray_counts.entry(subarray_id).or_insert(0) += 1;
        *bank_counts_weight.entry(bank_id).or_insert(0) += weight;
        *subarray_counts_weight.entry(subarray_id).or_insert(0) += weight;
    }
    println!("bank_counts: {:?}", bank_counts);
    println!("subarray_counts: {:?}", subarray_counts);
    println!("bank_counts_weight: {:?}", bank_counts_weight);
    println!("subarray_counts_weight: {:?}", subarray_counts_weight);
    assert_eq!(bank_counts.values().sum::<usize>(), matrix.indices.len());
    assert_eq!(subarray_counts.values().sum::<usize>(), matrix.indices.len());
}

#[test]
fn banks_are_cut_where_the_f32_running_count_passes_the_target() {
    // 62 rows of one nonzero over 14 banks: 7 * (62 / 14) is 30.999998 in
    // f32, so the seventh bank ends after row 31, not after row 32.
    let matrix = CsrPattern { cols: 62, indices: (0..62).map(|_| vec![0u32]).collect() };
    let bank_rows = weighted_bank_rows(&matrix, 14);
    assert_eq!(bank_rows[6], 31);
    assert_eq!(*bank_rows.last().unwrap(), 62);
    let mapping = SameBankWeightedMapping::new(14, 1, 1, 4, &matrix, &bank_rows);
    assert_eq!(mapping.row_id_mappings[30].bank_id, 6);
    assert_eq!(mapping.row_id_mappings[31].bank_id, 7);
}

#[test]
fn rows_are_packed_after_the_rows_placed_before_them() {
    let matrix = graph();
    let col_size = 4;
    let mapping = SameBankWeightedMapping::new(4, 4, 4, col_size, &matrix, &weighted_bank_rows(&matrix, 16));
    let maps = &mapping.row_id_mappings;
    for r in 0..maps.len() {
        let place = (maps[r].bank_id, maps[r].subarray_id);
        let before: Vec<usize> = (0..r).filter(|&q| (maps[q].bank_id, maps[q].subarray_id) == place).collect();
        let bytes: usize = before.iter().map(|&q| 4 * matrix.indices[q].len()).sum();
        assert_eq!(maps[r].size, 4 * matrix.indices[r].len());
        assert!(maps[r].col_id < col_size);
        assert_eq!(maps[r].row_id * col_size + maps[r].col_id, bytes);
        assert_eq!(mapping.dense_id_mapping[r].shift, before.len());
        let all = (0..maps.len()).filter(|&q| (maps[q].bank_id, maps[q].subarray_id) == place).count();
        assert_eq!(mapping.subarray_dense_size[place.0 * 4 + place.1], all);
    }
}
