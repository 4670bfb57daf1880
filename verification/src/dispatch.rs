//! How each product of a sparse matrix multiplication is handled by a
//! gearbox simulator: evil rows and evil columns apart, the others locally
//! or remotely depending on where the mapping puts them.
use vstd::prelude::*;
use crate::gearbox::{IdSet, id_set_contents, id_set_contains};
use crate::row_cycle::{LogicColId, LogicRowId, PhysicColId, PhysicRowId, SubarrayId};
use crate::same_bank_weighted::{SameBankWeightedMapping, global_subarray};
use crate::sparse::CsrPattern;
use vstd::arithmetic::power2::pow2;

verus! {

/// A map from logical ids to physical locations.
pub trait Mapping {
    /// Row `row` of matrix B can be located.
    spec fn b_location_ok(&self, row: LogicRowId) -> bool;

    /// Where row `row` of matrix B starts.
    spec fn b_location(&self, row: LogicRowId) -> (SubarrayId, PhysicRowId, PhysicColId);

    /// Word `shift` of row `row` of matrix B can be located.
    spec fn b_location_with_shift_ok(&self, row: LogicRowId, shift: usize) -> bool;

    /// Where word `shift` of row `row` of matrix B is.
    spec fn b_location_with_shift(&self, row: LogicRowId, shift: usize) -> (SubarrayId, PhysicRowId, PhysicColId);

    /// The dense result of row `target`, column `col` can be located.
    spec fn dense_location_ok(&self, target: LogicRowId, col: LogicColId) -> bool;

    /// Where the dense result of row `target`, column `col` is.
    spec fn dense_location(&self, target: LogicRowId, col: LogicColId) -> (SubarrayId, PhysicRowId, PhysicColId);

    fn get_matrix_b_location(&self, mat_b_row_id: LogicRowId) -> (r: (SubarrayId, PhysicRowId, PhysicColId))
        requires
            self.b_location_ok(mat_b_row_id),
        ensures
            r == self.b_location(mat_b_row_id),
    ;

    fn get_matrix_b_location_with_shift(&self, mat_b_row_id: LogicRowId, shift: usize) -> (r: (SubarrayId, PhysicRowId, PhysicColId))
        requires
            self.b_location_with_shift_ok(mat_b_row_id, shift),
        ensures
            r == self.b_location_with_shift(mat_b_row_id, shift),
    ;

    fn get_result_dense_location(&self, target_row_id: LogicRowId, col_id: LogicColId) -> (r: (SubarrayId, PhysicRowId, PhysicColId))
        requires
            self.dense_location_ok(target_row_id, col_id),
        ensures
            r == self.dense_location(target_row_id, col_id),
    ;
}

impl Mapping for SameBankWeightedMapping {
    open spec fn b_location_ok(&self, row: LogicRowId) -> bool {
        &&& row.0 < self.row_id_mappings.len()
        &&& self.local_ids_fit()
        &&& self.subarray_bits < usize::BITS
        &&& ({
            let e = self.row_id_mappings[row.0 as int];
            global_subarray(e.subarray_id as nat, e.bank_id as nat, self.subarray_bits as nat) <= usize::MAX
        })
    }

    open spec fn b_location(&self, row: LogicRowId) -> (SubarrayId, PhysicRowId, PhysicColId) {
        let e = self.row_id_mappings[row.0 as int];
        (SubarrayId(global_subarray(e.subarray_id as nat, e.bank_id as nat, self.subarray_bits as nat) as usize),
            PhysicRowId(e.row_id), PhysicColId(e.col_id))
    }

    open spec fn b_location_with_shift_ok(&self, row: LogicRowId, shift: usize) -> bool {
        &&& row.0 < self.row_id_mappings.len()
        &&& self.local_ids_fit()
        &&& self.subarray_bits < usize::BITS
        &&& self.col_bits < usize::BITS
        &&& ({
            let e = self.row_id_mappings[row.0 as int];
            &&& global_subarray(e.subarray_id as nat, e.bank_id as nat, self.subarray_bits as nat) <= usize::MAX
            &&& e.col_id + shift * 4 <= usize::MAX
            &&& e.row_id + (e.col_id + shift * 4) as nat / pow2(self.col_bits as nat) <= usize::MAX
        })
    }

    open spec fn b_location_with_shift(&self, row: LogicRowId, shift: usize) -> (SubarrayId, PhysicRowId, PhysicColId) {
        let e = self.row_id_mappings[row.0 as int];
        let col = (e.col_id + shift * 4) as nat;
        (SubarrayId(global_subarray(e.subarray_id as nat, e.bank_id as nat, self.subarray_bits as nat) as usize),
            PhysicRowId((e.row_id + col / pow2(self.col_bits as nat)) as usize),
            PhysicColId((col % pow2(self.col_bits as nat)) as usize))
    }

    open spec fn dense_location_ok(&self, target: LogicRowId, col: LogicColId) -> bool {
        &&& col.0 < self.dense_id_mapping.len()
        &&& self.local_ids_fit()
        &&& self.subarray_bits < usize::BITS
        &&& self.col_bits < usize::BITS
        &&& ({
            let d = self.dense_id_mapping[col.0 as int];
            let g = global_subarray(d.subarray_id as nat, d.bank_id as nat, self.subarray_bits as nat);
            &&& g < self.subarray_dense_size.len()
            &&& (self.subarray_dense_size[g as int] * target.0 + d.shift) * 4 <= usize::MAX
        })
    }

    open spec fn dense_location(&self, target: LogicRowId, col: LogicColId) -> (SubarrayId, PhysicRowId, PhysicColId) {
        let d = self.dense_id_mapping[col.0 as int];
        let g = global_subarray(d.subarray_id as nat, d.bank_id as nat, self.subarray_bits as nat);
        let real_shift = ((self.subarray_dense_size[g as int] * target.0 + d.shift) * 4) as nat;
        (SubarrayId(g as usize), PhysicRowId((real_shift / pow2(self.col_bits as nat)) as usize),
            PhysicColId((real_shift % pow2(self.col_bits as nat)) as usize))
    }

    fn get_matrix_b_location(&self, mat_b_row_id: LogicRowId) -> (r: (SubarrayId, PhysicRowId, PhysicColId)) {
        SameBankWeightedMapping::get_matrix_b_location(self, mat_b_row_id)
    }

    fn get_matrix_b_location_with_shift(&self, mat_b_row_id: LogicRowId, shift: usize) -> (r: (SubarrayId, PhysicRowId, PhysicColId)) {
        SameBankWeightedMapping::get_matrix_b_location_with_shift(self, mat_b_row_id, shift)
    }

    fn get_result_dense_location(&self, target_row_id: LogicRowId, col_id: LogicColId) -> (r: (SubarrayId, PhysicRowId, PhysicColId)) {
        SameBankWeightedMapping::get_result_dense_location(self, target_row_id, col_id)
    }
}

/// How one product is handled.
#[derive(Debug, Clone, Copy, PartialEq, Eq, Structural)]
pub enum DistributeType {
    /// The row of matrix B is evil: it is spread everywhere.
    EvilRow,
    /// The column is evil: it has a copy everywhere.
    EvilCol,
    /// The row of matrix B and the result are in one subarray.
    Local,
    /// The result is in another subarray.
    Remote,
}

/// One product handed to a handler: its kind, the target row, the row of
/// matrix B and the column.
#[derive(Debug, Clone, Copy, PartialEq, Eq, Structural)]
pub struct Distribution {
    pub kind: DistributeType,
    pub target: LogicRowId,
    pub mat_b_row: LogicRowId,
    pub col: LogicColId,
}

/// The handling of the products of row `b` of matrix B (columns `cols`)
/// that are not in an evil row, in column order.
pub open spec fn plan_cols<M: Mapping>(mapping: M, evil_cols: Set<usize>, target: usize, b: usize, cols: Seq<u32>) -> Seq<Distribution>
    decreases cols.len(),
{
    if cols.len() == 0 {
        Seq::empty()
    } else {
        let c = cols.last() as usize;
        let kind = if evil_cols.contains(c) {
            DistributeType::EvilCol
        } else if mapping.dense_location(LogicRowId(target), LogicColId(c)).0 == mapping.b_location(LogicRowId(b)).0 {
            DistributeType::Local
        } else {
            DistributeType::Remote
        };
        plan_cols(mapping, evil_cols, target, b, cols.drop_last())
            .push(Distribution { kind, target: LogicRowId(target), mat_b_row: LogicRowId(b), col: LogicColId(c) })
    }
}

/// The handling of the products of input row `target`, whose nonzeros are
/// the rows `bs` of matrix B: an evil row is handed over whole (with
/// column 0), the others column by column.
pub open spec fn plan_row_spec<M: Mapping>(mapping: M, evil_rows: Set<usize>, evil_cols: Set<usize>, mb: CsrPattern, target: usize, bs: Seq<u32>) -> Seq<Distribution>
    decreases bs.len(),
{
    if bs.len() == 0 {
        Seq::empty()
    } else {
        let prev = plan_row_spec(mapping, evil_rows, evil_cols, mb, target, bs.drop_last());
        let b = bs.last() as usize;
        if evil_rows.contains(b) {
            prev.push(Distribution { kind: DistributeType::EvilRow, target: LogicRowId(target), mat_b_row: LogicRowId(b), col: LogicColId(0) })
        } else {
            prev + plan_cols(mapping, evil_cols, target, b, mb.indices[b as int]@)
        }
    }
}

/// Every product of input row `target` can be located: its row of matrix
/// B exists, and unless the row or the column is evil, both the row and
/// the result can be located.
pub open spec fn row_locatable<M: Mapping>(mapping: M, evil_rows: Set<usize>, evil_cols: Set<usize>, mb: CsrPattern, target: usize, bs: Seq<u32>) -> bool {
    forall|j: int| 0 <= j < bs.len() ==> {
        let b = #[trigger] bs[j] as usize;
        &&& (b as int) < mb.indices.len()
        &&& !evil_rows.contains(b) ==> forall|q: int| 0 <= q < mb.indices[b as int]@.len() ==> {
            let c = #[trigger] mb.indices[b as int]@[q] as usize;
            !evil_cols.contains(c) ==> mapping.b_location_ok(LogicRowId(b)) && mapping.dense_location_ok(LogicRowId(target), LogicColId(c))
        }
    }
}

/// Decides, for every product of input row `target_id` (nonzeros `row`),
/// how it is handled, in the order a simulator handles them.
pub fn plan_row<M: Mapping>(mapping: &M, evil_rows: &IdSet, evil_cols: &IdSet, matrix_b: &CsrPattern, target_id: usize, row: &Vec<u32>) -> (r: Vec<Distribution>)
    requires
        row_locatable(*mapping, id_set_contents(*evil_rows), id_set_contents(*evil_cols), *matrix_b, target_id, row@),
    ensures
        r@ == plan_row_spec(*mapping, id_set_contents(*evil_rows), id_set_contents(*evil_cols), *matrix_b, target_id, row@),
{
    let ghost ers = id_set_contents(*evil_rows);
    let ghost ecs = id_set_contents(*evil_cols);
    let mut plan: Vec<Distribution> = Vec::new();
    let mut j: usize = 0;
    while j < row.len()
        invariant
            j <= row.len(),
            ers == id_set_contents(*evil_rows),
            ecs == id_set_contents(*evil_cols),
            row_locatable(*mapping, ers, ecs, *matrix_b, target_id, row@),
            plan@ == plan_row_spec(*mapping, ers, ecs, *matrix_b, target_id, row@.take(j as int)),
        decreases row.len() - j,
    {
        let b = row[j] as usize;
        proof {
            assert(row@.take(j + 1).drop_last() == row@.take(j as int));
            assert(row@.take(j + 1).last() == row@[j as int]);
            assert((b as int) < matrix_b.indices.len());
        }
        if id_set_contains(evil_rows, b) {
            plan.push(Distribution { kind: DistributeType::EvilRow, target: LogicRowId(target_id), mat_b_row: LogicRowId(b), col: LogicColId(0) });
        } else {
            let cols = &matrix_b.indices[b];
            let ghost before = plan@;
            let mut q: usize = 0;
            while q < cols.len()
                invariant
                    q <= cols.len(),
                    ers == id_set_contents(*evil_rows),
                    ecs == id_set_contents(*evil_cols),
                    (b as int) < matrix_b.indices.len(),
                    *cols == matrix_b.indices[b as int],
                    !ers.contains(b),
                    forall|t: int| 0 <= t < cols.len() ==> {
                        let c = #[trigger] cols@[t] as usize;
                        !ecs.contains(c) ==> mapping.b_location_ok(LogicRowId(b)) && mapping.dense_location_ok(LogicRowId(target_id), LogicColId(c))
                    },
                    plan@ == before + plan_cols(*mapping, ecs, target_id, b, cols@.take(q as int)),
                decreases cols.len() - q,
            {
                let c = cols[q] as usize;
                proof {
                    assert(cols@.take(q + 1).drop_last() == cols@.take(q as int));
                    assert(cols@.take(q + 1).last() == cols@[q as int]);
                }
                let kind = if id_set_contains(evil_cols, c) {
                    DistributeType::EvilCol
                } else {
                    let target_partition = mapping.get_result_dense_location(LogicRowId(target_id), LogicColId(c)).0;
                    let source_partition = mapping.get_matrix_b_location(LogicRowId(b)).0;
                    if target_partition.0 == source_partition.0 {
                        DistributeType::Local
                    } else {
                        DistributeType::Remote
                    }
                };
                plan.push(Distribution { kind, target: LogicRowId(target_id), mat_b_row: LogicRowId(b), col: LogicColId(c) });
                proof {
                    assert(plan@ == before + plan_cols(*mapping, ecs, target_id, b, cols@.take(q + 1)));
                }
                q += 1;
            }
            proof {
                assert(cols@.take(q as int) == cols@);
            }
        }
        j += 1;
    }
    proof {
        assert(row@.take(j as int) == row@);
    }
    plan
}

/// Whether the statistics are gathered after input row `target_id`: after
/// every `batch` rows.
pub fn batch_ends(target_id: usize, batch: usize) -> (r: bool)
    requires
        batch > 0,
        target_id < usize::MAX,
    ensures
        r == ((target_id + 1) % (batch as int) == 0),
{
    (target_id + 1) % batch == 0
}

} // verus!
