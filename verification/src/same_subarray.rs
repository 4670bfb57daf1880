//! Mapping for same subarray: each subarray holds a fixed-size range of the
//! rows and of the dense columns.
use vstd::prelude::*;

verus! {

/// Rows and columns in blocks of equal size, one block per subarray.
pub struct SameSubarrayMapping {
    pub row_per_partition: usize,
    pub col_per_partition: usize,
}

impl SameSubarrayMapping {
    /// A mapping with the given block sizes.
    pub fn new(row_per_partition: usize, col_per_partition: usize) -> (r: Self)
        ensures
            r.row_per_partition == row_per_partition,
            r.col_per_partition == col_per_partition,
    {
        Self { row_per_partition, col_per_partition }
    }
}

} // verus!
