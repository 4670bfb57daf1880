use spmspm_pim::sparse::CsrPattern;
use spmspm_pim::sparse_vec::{sparse_add, Pattern, SparseVector};
use spmspm_pim::split::split_matrix;

fn example() -> CsrPattern {
    // x x 1 x x x
    // 1 x x 1 x x
    // x 1 x x 1 x
    // 1 x 1 x 1 x
    // x x x x x x
    CsrPattern { cols: 6, indices: vec![vec![2], vec![0, 3], vec![1, 4], vec![0, 2, 4], vec![]] }
}

#[test]
fn test_split_col() {
    let matrix = example();
    println!("{:?}", matrix.indices);
    let start_points = vec![0, 2, 4];
    let split = split_matrix(&matrix, start_points);
    for (i, matrix) in split.matrix.iter().enumerate() {
        println!("matrix {}", i);
        println!("{:?}", matrix.indices);
    }
}

#[test]
fn split_matrix_by_columns() {
    let split = split_matrix(&example(), vec![0, 2, 4]);
    assert_eq!(split.start_points, vec![0, 2, 4]);
    assert_eq!(split.matrix.len(), 3);
    let blocks: Vec<Vec<Vec<u32>>> = split.matrix.iter().map(|m| m.indices.clone()).collect();
    assert_eq!(blocks[0], vec![vec![], vec![0], vec![1], vec![0], vec![]]);
    assert_eq!(blocks[1], vec![vec![0], vec![1], vec![], vec![0], vec![]]);
    assert_eq!(blocks[2], vec![vec![], vec![], vec![0], vec![0], vec![]]);
    assert!(split.matrix.iter().all(|m| m.cols == 2));
    let one = split_matrix(&example(), vec![3]);
    assert_eq!(one.matrix[0].cols, 3);
    assert_eq!(one.matrix[0].indices[1], vec![0]);
    assert!(split_matrix(&example(), vec![]).matrix.is_empty());
}

#[test]
fn sparse_add_merges_and_sums() {
    let v1 = SparseVector { dim: 5, indices: vec![0, 2, 4], data: vec![1u64, 1, 1] };
    let v2 = SparseVector { dim: 5, indices: vec![1, 3, 4], data: vec![1u64, 1, 1] };
    let v3 = sparse_add(&v1, &v2);
    assert_eq!(v3, SparseVector { dim: 5, indices: vec![0, 1, 2, 3, 4], data: vec![1, 1, 1, 1, 2] });
    let empty = SparseVector { dim: 5, indices: vec![], data: Vec::<u64>::new() };
    assert_eq!(sparse_add(&empty, &v2), v2);
    assert_eq!(sparse_add(&v1, &empty), v1);
}

#[test]
fn analyze_nnz_test_vec_add() {
    let cs_vec1 = SparseVector { dim: 100, indices: vec![1, 2, 3], data: vec![Pattern; 3] };
    let cs_vec2 = SparseVector { dim: 100, indices: vec![1, 3, 4], data: vec![Pattern; 3] };
    let result = sparse_add(&cs_vec1, &cs_vec2);
    println!("{:?}", result);
    assert_eq!(result.indices, vec![1, 2, 3, 4]);
}

#[test]
fn analyze_split_spmm_test_vec_add() {
    let cs_vec1 = SparseVector { dim: 100, indices: vec![1, 2, 3], data: vec![Pattern; 3] };
    let cs_vec2 = SparseVector { dim: 100, indices: vec![1, 3, 4], data: vec![Pattern; 3] };
    let result = sparse_add(&cs_vec1, &cs_vec2);
    println!("{:?}", result);
}
