//! Splitting a matrix into blocks of consecutive columns.
use vstd::prelude::*;
use crate::sparse::CsrPattern;

verus! {

/// The entries of `row` in columns `a..b`, in order, renumbered from `a`.
pub open spec fn column_block(row: Seq<u32>, a: nat, b: nat) -> Seq<u32>
    decreases row.len(),
{
    if row.len() == 0 {
        Seq::empty()
    } else {
        let prev = column_block(row.drop_last(), a, b);
        let c = row.last() as nat;
        if a <= c < b { prev.push((c - a) as u32) } else { prev }
    }
}

/// The column where block `k` ends: the next start point, or the column
/// count after the last one.
pub open spec fn block_end(start_points: Seq<usize>, cols: nat, k: int) -> nat {
    if k + 1 < start_points.len() { start_points[k + 1] as nat } else { cols }
}

/// The blocks of a matrix split by columns, with the columns where they
/// start.
pub struct SplitMatrix {
    pub matrix: Vec<CsrPattern>,
    pub start_points: Vec<usize>,
}

/// Splits `input_matrix` by columns: block `k` holds the columns from start
/// point `k` up to the next start point (the last one up to the column
/// count), numbered from its first column.
///
/// For example, the rows `[2]`, `[0, 3]`, `[1, 4]`, `[0, 2, 4]` of a
/// six-column matrix split at `[0, 2, 4]` give the blocks with rows
/// `[]`, `[0]`, `[1]`, `[0]`; `[0]`, `[1]`, `[]`, `[0]`; and `[]`, `[]`,
/// `[0]`, `[0]`.
pub fn split_matrix(input_matrix: &CsrPattern, start_points: Vec<usize>) -> (r: SplitMatrix)
    requires
        forall|k: int| 0 <= k < start_points.len() ==> (#[trigger] start_points[k]) <= block_end(start_points@, input_matrix.cols as nat, k),
    ensures
        r.start_points@ == start_points@,
        r.matrix.len() == start_points.len(),
        forall|k: int| 0 <= k < r.matrix.len() ==> {
            let a = start_points[k] as nat;
            let b = block_end(start_points@, input_matrix.cols as nat, k);
            &&& (#[trigger] r.matrix[k]).cols == b - a
            &&& r.matrix[k].indices.len() == input_matrix.indices.len()
            &&& forall|row: int| 0 <= row < input_matrix.indices.len()
                ==> (#[trigger] r.matrix[k].indices[row])@ == column_block(input_matrix.indices[row]@, a, b)
        },
{
    let cols = input_matrix.cols;
    let n = start_points.len();
    let mut result_matrix: Vec<CsrPattern> = Vec::new();
    let mut k: usize = 0;
    while k < n
        invariant
            k <= n,
            n == start_points.len(),
            cols == input_matrix.cols,
            forall|q: int| 0 <= q < start_points.len() ==> (#[trigger] start_points[q]) <= block_end(start_points@, input_matrix.cols as nat, q),
            result_matrix.len() == k,
            forall|q: int| 0 <= q < k ==> {
                let a = start_points[q] as nat;
                let b = block_end(start_points@, input_matrix.cols as nat, q);
                &&& (#[trigger] result_matrix[q]).cols == b - a
                &&& result_matrix[q].indices.len() == input_matrix.indices.len()
                &&& forall|row: int| 0 <= row < input_matrix.indices.len()
                    ==> (#[trigger] result_matrix[q].indices[row])@ == column_block(input_matrix.indices[row]@, a, b)
            },
        decreases n - k,
    {
        let a = start_points[k];
        let b = if k + 1 < n { start_points[k + 1] } else { cols };
        assert(a <= b);
        let mut rows: Vec<Vec<u32>> = Vec::new();
        let mut row_id: usize = 0;
        while row_id < input_matrix.indices.len()
            invariant
                row_id <= input_matrix.indices.len(),
                a <= b,
                rows.len() == row_id,
                forall|t: int| 0 <= t < row_id ==> (#[trigger] rows[t])@ == column_block(input_matrix.indices[t]@, a as nat, b as nat),
            decreases input_matrix.indices.len() - row_id,
        {
            let row = &input_matrix.indices[row_id];
            let mut block: Vec<u32> = Vec::new();
            let mut i: usize = 0;
            while i < row.len()
                invariant
                    i <= row.len(),
                    a <= b,
                    block@ == column_block(row@.take(i as int), a as nat, b as nat),
                decreases row.len() - i,
            {
                proof {
                    assert(row@.take(i + 1).drop_last() == row@.take(i as int));
                    assert(row@.take(i + 1).last() == row@[i as int]);
                }
                let c = row[i] as usize;
                if a <= c && c < b {
                    block.push((c - a) as u32);
                }
                i += 1;
            }
            proof {
                assert(row@.take(i as int) == row@);
            }
            rows.push(block);
            row_id += 1;
        }
        result_matrix.push(CsrPattern { cols: b - a, indices: rows });
        k += 1;
    }
    SplitMatrix { matrix: result_matrix, start_points }
}

} // verus!
