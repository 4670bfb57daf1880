//! The weighted same-bank mapping: the rows of matrix B are cut into one
//! contiguous range per bank so that every bank holds about the same number
//! of nonzeros, and inside a bank the rows are dealt to the subarrays in
//! turn and packed one after another.
use vstd::prelude::*;
use crate::bits::{count_to_log, count_log, is_count_log, field_value, BitsField};
use crate::row_cycle::{LogicColId, LogicRowId, PhysicColId, PhysicRowId, SubarrayId};
use vstd::arithmetic::power2::{pow2, lemma_pow2_pos};
use vstd::bits::{lemma_usize_shl_is_mul, lemma_usize_shr_is_div, lemma_usize_pow2_no_overflow};
use crate::sparse::{lemma_prefix_nnz_monotone, CsrPattern};

verus! {

/// Where a row of matrix B is stored.
#[derive(Debug, Clone, Copy, PartialEq, Eq, Structural)]
pub struct RowIdMappingEntry {
    pub bank_id: usize,
    pub subarray_id: usize,
    pub row_id: usize,
    pub col_id: usize,
    pub size: usize,
}

impl RowIdMappingEntry {
    /// An entry with the given fields.
    pub fn new(bank_id: usize, subarray_id: usize, row_id: usize, col_id: usize, size: usize) -> (r: Self)
        ensures
            r == (RowIdMappingEntry { bank_id, subarray_id, row_id, col_id, size }),
    {
        Self { bank_id, subarray_id, row_id, col_id, size }
    }
}

/// Where the dense result column of a row is stored: the subarray of the
/// row, at the row's rank among the rows of that subarray.
#[derive(Debug, Clone, Copy, PartialEq, Eq, Structural)]
pub struct DenseIdMappingEntry {
    pub bank_id: usize,
    pub subarray_id: usize,
    pub shift: usize,
}

/// the row and dense col share the same mapping
/// it follows the principles:
/// 1. we first partition the graph into several partitions, each partition have a range of row
///    ids,
/// 2. we set the num of the partitions to the number of the banks, and make sure the weight of
///    each partition are similar
/// 3. after the mapping, we create the layout of the mapping insde the bank,
#[derive(Debug)]
pub struct SameBankWeightedMapping {
    /// the mappings for matrix b rows
    pub row_id_mappings: Vec<RowIdMappingEntry>,
    /// the dense size for each subarray.
    pub subarray_dense_size: Vec<usize>,
    /// the mappings for the dense result
    pub dense_id_mapping: Vec<DenseIdMappingEntry>,
    pub subarray_bits: usize,
    pub col_bits: usize,
}

// ---------------------------------------------------------------------------
// Cutting the rows into banks
// ---------------------------------------------------------------------------

/// The end (exclusive) of the rows of bank `b`, given the end row of every
/// bank.
pub open spec fn bank_end(ends: Seq<usize>, b: nat) -> nat {
    ends[b as int] as nat
}

/// The first row of bank `b`: where the bank before it ends.
pub open spec fn bank_begin(ends: Seq<usize>, b: nat) -> nat {
    if b == 0 { 0 } else { ends[b - 1] as nat }
}

/// The bank ends of `n` rows: each at most `n`, never decreasing, the last
/// one at `n`, so that the banks cover the rows one range after another.
pub open spec fn cuts_ok(ends: Seq<usize>, n: nat) -> bool {
    &&& forall|a: int, b: int| 0 <= a <= b < ends.len() ==> ends[a] <= ends[b]
    &&& forall|a: int| 0 <= a < ends.len() ==> ends[a] <= n
    &&& ends.len() > 0 ==> ends[ends.len() - 1] == n
}

// ---------------------------------------------------------------------------
// Laying out the rows of a bank
// ---------------------------------------------------------------------------

/// The bytes that the rows `begin..i` dealt to subarray `s` (of `subarrays`)
/// occupy; a row takes 4 bytes per nonzero.
pub open spec fn sub_bytes(g: CsrPattern, begin: nat, i: nat, subarrays: nat, s: nat) -> nat
    decreases i,
{
    if i <= begin || subarrays == 0 || i > g.indices.len() {
        0
    } else {
        let prev = sub_bytes(g, begin, (i - 1) as nat, subarrays, s);
        if ((i - 1 - begin) as nat) % subarrays == s { prev + g.indices[i - 1]@.len() * 4 } else { prev }
    }
}

/// The number of rows among `begin..i` dealt to subarray `s`.
pub open spec fn sub_count(begin: nat, i: nat, subarrays: nat, s: nat) -> nat
    decreases i,
{
    if i <= begin || subarrays == 0 {
        0
    } else {
        let prev = sub_count(begin, (i - 1) as nat, subarrays, s);
        if ((i - 1 - begin) as nat) % subarrays == s { prev + 1 } else { prev }
    }
}

/// The subarray bytes of a range of rows are at most 4 bytes per nonzero of the range.
proof fn lemma_sub_bytes_bound(g: CsrPattern, begin: nat, i: nat, subarrays: nat, s: nat)
    requires
        begin <= i <= g.indices.len(),
    ensures
        sub_bytes(g, begin, i, subarrays, s) <= 4 * (g.prefix_nnz(i as int) - g.prefix_nnz(begin as int)),
    decreases i,
{
    lemma_prefix_nnz_monotone(g, begin as int, i as int);
    if i > begin && subarrays != 0 {
        lemma_sub_bytes_bound(g, begin, (i - 1) as nat, subarrays, s);
        lemma_prefix_nnz_monotone(g, begin as int, i - 1);
    }
}

/// A subarray gets at most the rows of the range.
proof fn lemma_sub_count_bound(begin: nat, i: nat, subarrays: nat, s: nat)
    ensures
        sub_count(begin, i, subarrays, s) <= if i >= begin { (i - begin) as nat } else { 0 },
    decreases i,
{
    if i > begin && subarrays != 0 {
        lemma_sub_count_bound(begin, (i - 1) as nat, subarrays, s);
    }
}

/// `n` zeros.
fn zeros(n: usize) -> (r: Vec<usize>)
    ensures
        r.len() == n,
        forall|i: int| 0 <= i < n ==> r[i] == 0,
{
    let mut v: Vec<usize> = Vec::new();
    while v.len() < n
        invariant
            v.len() <= n,
            forall|i: int| 0 <= i < v.len() ==> v[i] == 0,
        decreases n - v.len(),
    {
        v.push(0);
    }
    v
}

/// The mapping entry of row `i` of bank `b`, whose rows begin at `begin`.
pub open spec fn row_entry(g: CsrPattern, b: nat, begin: nat, i: nat, subarrays: nat, col_size: nat) -> RowIdMappingEntry {
    let s = ((i - begin) as nat) % subarrays;
    let bytes = sub_bytes(g, begin, i, subarrays, s);
    RowIdMappingEntry {
        bank_id: b as usize,
        subarray_id: s as usize,
        row_id: (bytes / col_size) as usize,
        col_id: (bytes % col_size) as usize,
        size: (g.indices[i as int]@.len() * 4) as usize,
    }
}

/// The dense entry of row `i` of bank `b`, whose rows begin at `begin`.
pub open spec fn dense_entry(b: nat, begin: nat, i: nat, subarrays: nat) -> DenseIdMappingEntry {
    let s = ((i - begin) as nat) % subarrays;
    DenseIdMappingEntry { bank_id: b as usize, subarray_id: s as usize, shift: sub_count(begin, i, subarrays, s) as usize }
}

/// Deals rows `start..end` of bank `bank_id` to the subarrays in turn and
/// packs each subarray's rows one after another; returns how many rows each
/// subarray got.
fn layout_bank(
    graph: &CsrPattern,
    bank_id: usize,
    start: usize,
    end: usize,
    total_subarrays: usize,
    col_size: usize,
    row_id_mappings: &mut Vec<RowIdMappingEntry>,
    dense_id_mapping: &mut Vec<DenseIdMappingEntry>,
) -> (sizes: Vec<usize>)
    requires
        start <= end <= graph.indices.len(),
        start < end ==> total_subarrays > 0 && col_size > 0,
        4 * graph.nnz_spec() <= usize::MAX,
        old(row_id_mappings).len() == start,
        old(dense_id_mapping).len() == start,
    ensures
        final(row_id_mappings).len() == end,
        final(dense_id_mapping).len() == end,
        forall|i: int| 0 <= i < start ==> final(row_id_mappings)[i] == old(row_id_mappings)[i],
        forall|i: int| 0 <= i < start ==> final(dense_id_mapping)[i] == old(dense_id_mapping)[i],
        forall|i: int| start <= i < end ==> final(row_id_mappings)[i]
            == row_entry(*graph, bank_id as nat, start as nat, i as nat, total_subarrays as nat, col_size as nat),
        forall|i: int| start <= i < end ==> final(dense_id_mapping)[i]
            == dense_entry(bank_id as nat, start as nat, i as nat, total_subarrays as nat),
        sizes.len() == total_subarrays,
        forall|s: int| 0 <= s < total_subarrays ==> sizes[s] == sub_count(start as nat, end as nat, total_subarrays as nat, s as nat),
{
    let ghost g = *graph;
    let ghost nsub = total_subarrays as nat;
    let ghost cs = col_size as nat;
    let mut status_row = zeros(total_subarrays);
    let mut status_col = zeros(total_subarrays);
    let mut subarray_size = zeros(total_subarrays);
    let mut row_id = start;
    proof {
        lemma_prefix_nnz_monotone(g, start as int, end as int);
        lemma_prefix_nnz_monotone(g, end as int, g.indices.len() as int);
    }
    while row_id < end
        invariant
            g == *graph,
            nsub == total_subarrays as nat,
            cs == col_size as nat,
            start <= row_id <= end <= g.indices.len(),
            start < end ==> total_subarrays > 0 && col_size > 0,
            4 * g.nnz_spec() <= usize::MAX,
            g.prefix_nnz(end as int) <= g.nnz_spec(),
            status_row.len() == total_subarrays,
            status_col.len() == total_subarrays,
            subarray_size.len() == total_subarrays,
            start < end ==> forall|s: int| 0 <= s < total_subarrays ==> (#[trigger] status_col[s]) < col_size,
            forall|s: int| 0 <= s < total_subarrays ==> status_row[s] * cs + (#[trigger] status_col[s])
                == sub_bytes(g, start as nat, row_id as nat, nsub, s as nat),
            forall|s: int| 0 <= s < total_subarrays ==> (#[trigger] subarray_size[s])
                == sub_count(start as nat, row_id as nat, nsub, s as nat),
            row_id_mappings.len() == row_id,
            dense_id_mapping.len() == row_id,
            forall|i: int| 0 <= i < start ==> row_id_mappings[i] == old(row_id_mappings)[i],
            forall|i: int| 0 <= i < start ==> dense_id_mapping[i] == old(dense_id_mapping)[i],
            forall|i: int| start <= i < row_id ==> row_id_mappings[i]
                == row_entry(g, bank_id as nat, start as nat, i as nat, nsub, cs),
            forall|i: int| start <= i < row_id ==> dense_id_mapping[i]
                == dense_entry(bank_id as nat, start as nat, i as nat, nsub),
        decreases end - row_id,
    {
        let subarray_id = (row_id - start) % total_subarrays;
        let subarray_row_id = status_row[subarray_id];
        let subarray_col_id = status_col[subarray_id];
        let ghost t = sub_bytes(g, start as nat, row_id as nat, nsub, subarray_id as nat);
        proof {
            lemma_sub_bytes_bound(g, start as nat, (row_id + 1) as nat, nsub, subarray_id as nat);
            lemma_prefix_nnz_monotone(g, (row_id + 1) as int, end as int);
            assert(subarray_row_id * cs + subarray_col_id == t);
            vstd::arithmetic::div_mod::lemma_fundamental_div_mod_converse(
                t as int, cs as int, subarray_row_id as int, subarray_col_id as int);
            assert(subarray_col_id <= t) by (nonlinear_arith)
                requires subarray_row_id * cs + subarray_col_id == t, cs > 0;
        }
        let row_len = graph.indices[row_id].len();
        let shift = subarray_size[subarray_id];
        proof {
            lemma_sub_count_bound(start as nat, row_id as nat, nsub, subarray_id as nat);
        }
        dense_id_mapping.push(DenseIdMappingEntry { bank_id, shift, subarray_id });
        row_id_mappings.push(RowIdMappingEntry::new(bank_id, subarray_id, subarray_row_id, subarray_col_id, row_len * 4));
        let next_col = subarray_col_id + row_len * 4;
        proof {
            let raw = subarray_col_id + row_len * 4;
            vstd::arithmetic::div_mod::lemma_fundamental_div_mod(raw as int, cs as int);
            assert((subarray_row_id + raw / (cs as int)) * cs + raw % (cs as int) == t + row_len * 4) by (nonlinear_arith)
                requires
                    raw == cs * (raw / (cs as int)) + raw % (cs as int),
                    subarray_row_id * cs + subarray_col_id == t,
                    raw == subarray_col_id + row_len * 4,
            ;
            assert(subarray_row_id + raw / (cs as int) <= t + row_len * 4) by (nonlinear_arith)
                requires
                    (subarray_row_id + raw / (cs as int)) * cs + raw % (cs as int) == t + row_len * 4,
                    cs >= 1,
                    raw % (cs as int) >= 0,
                    subarray_row_id + raw / (cs as int) >= 0,
            ;
        }
        let next_row = subarray_row_id + next_col / col_size;
        let next_col = next_col % col_size;
        status_row.set(subarray_id, next_row);
        status_col.set(subarray_id, next_col);
        subarray_size.set(subarray_id, shift + 1);
        row_id += 1;
    }
    subarray_size
}


impl SameBankWeightedMapping {
    /// create the new mapping,
    /// in this mapping, it achieve the goles defined here [`SameBankWeightedMapping`]
    /// # Arguments
    /// * `total_banks` - the total number of banks in a channel
    /// * `total_channels` - the total number of channels
    /// * `total_subarrays` - the total number of subarrays in a bank
    /// * `col_size` - the size of the col in a subarray row
    /// * `graph` - the graph
    /// * `bank_rows` - the end row (exclusive) of each bank: the rows are cut
    ///   where the running nonzero count first exceeds `(b + 1)` times the
    ///   average per bank, compared in `f32`. That cut rests on floating
    ///   point, so the caller makes it and hands over its result.
    /// # Returns
    /// the mapping: inside each bank the rows are dealt to the subarrays in
    /// turn; a row starts, in its subarray, where the rows placed before it
    /// in the same (bank, subarray) end, at a column below `col_size`; its
    /// dense place counts those rows; and the dense size of a subarray
    /// counts every row placed in it.
    #[verifier::rlimit(50)]
    pub fn new(
        total_banks: usize,
        total_channels: usize,
        total_subarrays: usize,
        col_size: usize,
        graph: &CsrPattern,
        bank_rows: &Vec<usize>,
    ) -> (r: Self)
        requires
            total_channels * total_banks <= usize::MAX,
            bank_rows.len() == total_channels * total_banks,
            cuts_ok(bank_rows@, graph.indices.len() as nat),
            graph.indices.len() > 0 ==> total_channels * total_banks > 0 && total_subarrays > 0 && col_size > 0,
            4 * graph.nnz_spec() <= usize::MAX,
            graph.indices.len() == graph.cols,
        ensures
            ({
                let g = *graph;
                let nb = (total_channels * total_banks) as nat;
                let ns = total_subarrays as nat;
                let cs = col_size as nat;
                &&& r.row_id_mappings.len() == g.indices.len()
                &&& r.dense_id_mapping.len() == g.indices.len()
                &&& r.subarray_dense_size.len() == nb * ns
                &&& r.subarray_bits == count_log(ns)
                &&& r.col_bits == count_log(cs)
                &&& r.local_ids_fit()
                &&& forall|b: int, i: int| #![trigger bank_end(bank_rows@, b as nat), r.row_id_mappings[i]] #![trigger bank_end(bank_rows@, b as nat), r.dense_id_mapping[i]] 0 <= b < nb && bank_begin(bank_rows@, b as nat) <= i < bank_end(bank_rows@, b as nat)
                    ==> r.row_id_mappings[i] == row_entry(g, b as nat, bank_begin(bank_rows@, b as nat), i as nat, ns, cs)
                        && r.dense_id_mapping[i] == dense_entry(b as nat, bank_begin(bank_rows@, b as nat), i as nat, ns)
                &&& forall|b: int, s: int| #![trigger sub_count(bank_begin(bank_rows@, b as nat), bank_end(bank_rows@, b as nat), ns, s as nat)] 0 <= b < nb && 0 <= s < ns
                    ==> r.subarray_dense_size[b * ns + s] == sub_count(bank_begin(bank_rows@, b as nat), bank_end(bank_rows@, b as nat), ns, s as nat)
                &&& forall|i: int| #![trigger r.row_id_mappings[i]] 0 <= i < g.indices.len() ==> {
                    &&& r.row_id_mappings[i].col_id < cs
                    &&& r.row_id_mappings[i].row_id * cs + r.row_id_mappings[i].col_id
                        == bytes_placed_before(g, r.row_id_mappings@, place_of(r.row_id_mappings[i]), i as nat)
                    &&& r.dense_id_mapping[i].shift == rows_placed_before(r.row_id_mappings@, place_of(r.row_id_mappings[i]), i as nat)
                }
                &&& forall|b: int, s: int| #![trigger rows_placed_before(r.row_id_mappings@, (b as usize, s as usize), g.indices.len() as nat)]
                    0 <= b < nb && 0 <= s < ns
                    ==> r.subarray_dense_size[b * ns + s] == rows_placed_before(r.row_id_mappings@, (b as usize, s as usize), g.indices.len() as nat)
            }),
    {
        let ghost g = *graph;
        let global_total_banks = total_channels * total_banks;
        let ghost nb = global_total_banks as nat;
        let ghost ns = total_subarrays as nat;
        let ghost cs = col_size as nat;
        let mut row_id_mappings: Vec<RowIdMappingEntry> = Vec::new();
        let mut dense_id_mapping: Vec<DenseIdMappingEntry> = Vec::new();
        let mut start_row_id: usize = 0;
        let mut total_subarray_dense_size: Vec<usize> = Vec::new();
        let mut bank_id: usize = 0;
        while bank_id < global_total_banks
            invariant
                g == *graph,
                nb == global_total_banks as nat,
                ns == total_subarrays as nat,
                cs == col_size as nat,
                bank_id <= global_total_banks,
                bank_rows.len() == global_total_banks,
                cuts_ok(bank_rows@, g.indices.len() as nat),
                start_row_id == bank_begin(bank_rows@, bank_id as nat),
                g.indices.len() > 0 ==> global_total_banks > 0 && total_subarrays > 0 && col_size > 0,
                4 * g.nnz_spec() <= usize::MAX,
                row_id_mappings.len() == start_row_id,
                dense_id_mapping.len() == start_row_id,
                total_subarray_dense_size.len() == bank_id * ns,
                forall|b: int, i: int| #![trigger bank_end(bank_rows@, b as nat), row_id_mappings[i]] #![trigger bank_end(bank_rows@, b as nat), dense_id_mapping[i]] 0 <= b < bank_id && bank_begin(bank_rows@, b as nat) <= i < bank_end(bank_rows@, b as nat)
                    ==> row_id_mappings[i] == row_entry(g, b as nat, bank_begin(bank_rows@, b as nat), i as nat, ns, cs)
                        && dense_id_mapping[i] == dense_entry(b as nat, bank_begin(bank_rows@, b as nat), i as nat, ns),
                forall|b: int, s: int| #![trigger sub_count(bank_begin(bank_rows@, b as nat), bank_end(bank_rows@, b as nat), ns, s as nat)] 0 <= b < bank_id && 0 <= s < ns
                    ==> total_subarray_dense_size[b * ns + s] == sub_count(bank_begin(bank_rows@, b as nat), bank_end(bank_rows@, b as nat), ns, s as nat),
            decreases global_total_banks - bank_id,
        {
            let end_row_id = bank_rows[bank_id];
            proof {
                assert(bank_begin(bank_rows@, bank_id as nat) <= bank_end(bank_rows@, bank_id as nat) <= g.indices.len());
                assert forall|b: int| 0 <= b < bank_id implies #[trigger] bank_end(bank_rows@, b as nat) <= bank_begin(bank_rows@, bank_id as nat) by {
                    assert(bank_rows[b] <= bank_rows[bank_id - 1]);
                }
            }
            let ghost old_rows = row_id_mappings@;
            let ghost old_dense = dense_id_mapping@;
            let ghost old_sizes = total_subarray_dense_size@;
            let mut sizes = layout_bank(graph, bank_id, start_row_id, end_row_id, total_subarrays, col_size,
                &mut row_id_mappings, &mut dense_id_mapping);
            total_subarray_dense_size.append(&mut sizes);
            proof {
                assert forall|b: int, i: int| #![trigger bank_end(bank_rows@, b as nat), row_id_mappings[i]] #![trigger bank_end(bank_rows@, b as nat), dense_id_mapping[i]]
                    0 <= b < bank_id + 1 && bank_begin(bank_rows@, b as nat) <= i < bank_end(bank_rows@, b as nat)
                    implies row_id_mappings[i] == row_entry(g, b as nat, bank_begin(bank_rows@, b as nat), i as nat, ns, cs)
                        && dense_id_mapping[i] == dense_entry(b as nat, bank_begin(bank_rows@, b as nat), i as nat, ns) by {
                    if b < bank_id {
                        assert(bank_end(bank_rows@, b as nat) <= bank_begin(bank_rows@, bank_id as nat));
                        assert(row_id_mappings[i] == old_rows[i]);
                        assert(dense_id_mapping[i] == old_dense[i]);
                    }
                }
                assert forall|b: int, s: int| #![trigger sub_count(bank_begin(bank_rows@, b as nat), bank_end(bank_rows@, b as nat), ns, s as nat)] 0 <= b < bank_id + 1 && 0 <= s < ns
                    implies total_subarray_dense_size[b * ns + s] == sub_count(bank_begin(bank_rows@, b as nat), bank_end(bank_rows@, b as nat), ns, s as nat) by {
                    if b < bank_id {
                        assert(b * ns + s < bank_id * ns) by (nonlinear_arith)
                            requires b < bank_id, s < ns, 0 <= b, 0 <= s;
                        assert(total_subarray_dense_size[b * ns + s] == old_sizes[b * ns + s]);
                    } else {
                        assert(b * ns + s == bank_id * ns + s);
                    }
                }
                assert((bank_id + 1) * ns == bank_id * ns + ns) by (nonlinear_arith);
            }
            start_row_id = end_row_id;
            bank_id += 1;
        }
        proof {
            if nb > 0 {
                assert(start_row_id == bank_rows[nb - 1]);
            }
        }
        let subarray_bits = count_to_log(total_subarrays);
        let col_bits = count_to_log(col_size);
        proof {
            assert forall|i: int| 0 <= i < row_id_mappings.len() implies
                (#[trigger] row_id_mappings[i]).subarray_id < pow2(subarray_bits as nat)
                && dense_id_mapping[i].subarray_id < pow2(subarray_bits as nat) by {
                lemma_row_in_some_bank(bank_rows@, g.indices.len() as nat, i as nat);
                let ends = bank_rows@;
                let b = choose|b: nat| b < ends.len() && bank_begin(ends, b) <= i < #[trigger] bank_end(ends, b);
                assert(b < nb);
                assert(bank_id == global_total_banks);
                let bi: int = b as int;
                assert(bank_begin(bank_rows@, bi as nat) <= i && i < bank_end(bank_rows@, bi as nat));
                assert(row_id_mappings[i] == row_entry(g, bi as nat, bank_begin(bank_rows@, bi as nat), i as nat, ns, cs));
                assert(row_id_mappings[i] == row_entry(g, b, bank_begin(bank_rows@, b), i as nat, ns, cs));
                assert(ns > 0);
            }
            lemma_weighted_layout(g, bank_rows@, row_id_mappings@, dense_id_mapping@, total_subarray_dense_size@, ns, cs);
        }
        SameBankWeightedMapping {
            col_bits,
            row_id_mappings,
            subarray_bits,
            subarray_dense_size: total_subarray_dense_size,
            dense_id_mapping,
        }
    }
}

impl SameBankWeightedMapping {
    /// Every local subarray id fits in the subarray bits.
    pub open spec fn local_ids_fit(self) -> bool {
        &&& self.dense_id_mapping.len() == self.row_id_mappings.len()
        &&& forall|i: int| 0 <= i < self.row_id_mappings.len() ==>
            (#[trigger] self.row_id_mappings[i]).subarray_id < pow2(self.subarray_bits as nat)
            && self.dense_id_mapping[i].subarray_id < pow2(self.subarray_bits as nat)
    }
}

/// The global id of subarray `local` of bank `bank`: the bank above the
/// `subarray_bits` low bits.
pub open spec fn global_subarray(local: nat, bank: nat, subarray_bits: nat) -> nat {
    bank * pow2(subarray_bits) + local
}

fn get_global_subarray_id_from_local_subarray_id(local_subarray_id: usize, bank_id: usize, subarray_bits: usize) -> (r: SubarrayId)
    requires
        subarray_bits < usize::BITS,
        local_subarray_id < pow2(subarray_bits as nat),
        global_subarray(local_subarray_id as nat, bank_id as nat, subarray_bits as nat) <= usize::MAX,
    ensures
        r.0 == global_subarray(local_subarray_id as nat, bank_id as nat, subarray_bits as nat),
{
    proof {
        crate::same_bank::lemma_shift_or(bank_id, local_subarray_id, subarray_bits);
    }
    SubarrayId(bank_id << subarray_bits | local_subarray_id)
}

impl SameBankWeightedMapping {
    /// Where row `mat_b_row_id` of matrix B is stored.
    pub fn get_matrix_b_location(&self, mat_b_row_id: LogicRowId) -> (r: (SubarrayId, PhysicRowId, PhysicColId))
        requires
            mat_b_row_id.0 < self.row_id_mappings.len(),
            self.local_ids_fit(),
            self.subarray_bits < usize::BITS,
            ({
                let e = self.row_id_mappings[mat_b_row_id.0 as int];
                global_subarray(e.subarray_id as nat, e.bank_id as nat, self.subarray_bits as nat) <= usize::MAX
            }),
        ensures
            ({
                let e = self.row_id_mappings[mat_b_row_id.0 as int];
                &&& r.0.0 == global_subarray(e.subarray_id as nat, e.bank_id as nat, self.subarray_bits as nat)
                &&& r.1.0 == e.row_id
                &&& r.2.0 == e.col_id
            }),
    {
        let location = &self.row_id_mappings[mat_b_row_id.0];
        let subarray_id = get_global_subarray_id_from_local_subarray_id(location.subarray_id, location.bank_id, self.subarray_bits);
        (subarray_id, PhysicRowId(location.row_id), PhysicColId(location.col_id))
    }

    /// Where the dense result of row `target_row_id`, column `col_id` is
    /// stored: the column's subarray, after `target_row_id` full rounds of that
    /// subarray's columns, at the column's rank; 4 bytes per value.
    pub fn get_result_dense_location(&self, target_row_id: LogicRowId, col_id: LogicColId) -> (r: (SubarrayId, PhysicRowId, PhysicColId))
        requires
            col_id.0 < self.dense_id_mapping.len(),
            self.local_ids_fit(),
            self.subarray_bits < usize::BITS,
            self.col_bits < usize::BITS,
            ({
                let d = self.dense_id_mapping[col_id.0 as int];
                let g = global_subarray(d.subarray_id as nat, d.bank_id as nat, self.subarray_bits as nat);
                &&& g < self.subarray_dense_size.len()
                &&& (self.subarray_dense_size[g as int] * target_row_id.0 + d.shift) * 4 <= usize::MAX
            }),
        ensures
            ({
                let d = self.dense_id_mapping[col_id.0 as int];
                let g = global_subarray(d.subarray_id as nat, d.bank_id as nat, self.subarray_bits as nat);
                let real_shift = ((self.subarray_dense_size[g as int] * target_row_id.0 + d.shift) * 4) as nat;
                &&& r.0.0 == g
                &&& r.1.0 == real_shift / pow2(self.col_bits as nat)
                &&& r.2.0 == real_shift % pow2(self.col_bits as nat)
            }),
    {
        let dense_id_mapping = &self.dense_id_mapping[col_id.0];
        proof {
            let _ = self.row_id_mappings[col_id.0 as int];
        }
        let subarray_id = get_global_subarray_id_from_local_subarray_id(dense_id_mapping.subarray_id, dense_id_mapping.bank_id, self.subarray_bits);
        let shift = dense_id_mapping.shift;
        let size = self.subarray_dense_size[subarray_id.0];
        proof {
            assert(size * target_row_id.0 <= usize::MAX) by (nonlinear_arith)
                requires (size * target_row_id.0 + shift) * 4 <= usize::MAX;
        }
        let real_shift = size * target_row_id.0 + shift;
        let real_shift = real_shift * 4;
        proof {
            lemma_usize_shr_is_div(real_shift, self.col_bits);
        }
        let row_id = real_shift >> self.col_bits;
        let col_id = BitsField { bits: self.col_bits, offset: 0 }.get(real_shift);
        proof {
            assert(pow2(0) == 1) by {
                vstd::arithmetic::power2::lemma2_to64();
            }
        }
        (subarray_id, PhysicRowId(row_id), PhysicColId(col_id))
    }

    /// Where the word `shift` of row `mat_b_row_id` of matrix B is stored:
    /// `shift` words past the row's start, wrapping into the following rows.
    pub fn get_matrix_b_location_with_shift(&self, mat_b_row_id: LogicRowId, shift: usize) -> (r: (SubarrayId, PhysicRowId, PhysicColId))
        requires
            mat_b_row_id.0 < self.row_id_mappings.len(),
            self.local_ids_fit(),
            self.subarray_bits < usize::BITS,
            self.col_bits < usize::BITS,
            ({
                let e = self.row_id_mappings[mat_b_row_id.0 as int];
                &&& global_subarray(e.subarray_id as nat, e.bank_id as nat, self.subarray_bits as nat) <= usize::MAX
                &&& e.col_id + shift * 4 <= usize::MAX
                &&& e.row_id + (e.col_id + shift * 4) as nat / pow2(self.col_bits as nat) <= usize::MAX
            }),
        ensures
            ({
                let e = self.row_id_mappings[mat_b_row_id.0 as int];
                let col = (e.col_id + shift * 4) as nat;
                &&& r.0.0 == global_subarray(e.subarray_id as nat, e.bank_id as nat, self.subarray_bits as nat)
                &&& r.1.0 == e.row_id + col / pow2(self.col_bits as nat)
                &&& r.2.0 == col % pow2(self.col_bits as nat)
                &&& r.2.0 < pow2(self.col_bits as nat)
                &&& r.1.0 * pow2(self.col_bits as nat) + r.2.0 == e.row_id * pow2(self.col_bits as nat) + e.col_id + shift * 4
                &&& (shift == 0 && e.col_id < pow2(self.col_bits as nat)) ==> r.1.0 == e.row_id && r.2.0 == e.col_id
            }),
    {
        let location = &self.row_id_mappings[mat_b_row_id.0];
        proof {
            let p = pow2(self.col_bits as nat);
            lemma_pow2_pos(self.col_bits as nat);
            let col = (location.col_id + shift * 4) as nat;
            vstd::arithmetic::div_mod::lemma_fundamental_div_mod(col as int, p as int);
            let q: int = (col / p) as int;
            let m: int = (col % p) as int;
            let row: int = location.row_id as int;
            assert((row + q) * p + m == row * p + col) by (nonlinear_arith)
                requires col == p * q + m;
            if shift == 0 && location.col_id < p {
                vstd::arithmetic::div_mod::lemma_small_mod(col, p);
                vstd::arithmetic::div_mod::lemma_basic_div(col as int, p as int);
            }
        }
        let col_id = location.col_id + shift * 4;
        proof {
            lemma_usize_shr_is_div(col_id, self.col_bits);
        }
        let row_id = location.row_id + (col_id >> self.col_bits);
        let col_id = BitsField { bits: self.col_bits, offset: 0 }.get(col_id);
        proof {
            assert(pow2(0) == 1) by {
                vstd::arithmetic::power2::lemma2_to64();
            }
        }
        let subarray_id = get_global_subarray_id_from_local_subarray_id(location.subarray_id, location.bank_id, self.subarray_bits);
        (subarray_id, PhysicRowId(row_id), PhysicColId(col_id))
    }
}

/// Inside a bank, row `r + k` (for `0 < k < subarrays`) goes to another
/// subarray than row `r`.
proof fn lemma_offset_other_subarray(x: nat, k: nat, subarrays: nat)
    requires
        0 < k < subarrays,
    ensures
        (x + k) % subarrays != x % subarrays,
{
    let q = (x / subarrays) as int;
    let s = (x % subarrays) as int;
    vstd::arithmetic::div_mod::lemma_fundamental_div_mod(x as int, subarrays as int);
    if s + k < subarrays {
        assert(x + k == q * subarrays + (s + k)) by (nonlinear_arith)
            requires x == subarrays * q + s;
        vstd::arithmetic::div_mod::lemma_fundamental_div_mod_converse_mod((x + k) as int, subarrays as int, q, s + k);
    } else {
        assert(x + k == (q + 1) * subarrays + (s + k - subarrays)) by (nonlinear_arith)
            requires x == subarrays * q + s;
        vstd::arithmetic::div_mod::lemma_fundamental_div_mod_converse_mod((x + k) as int, subarrays as int, q + 1, s + k - subarrays);
    }
}

/// Rows `r + 1 .. r + k` of a bank add nothing to the subarray of row `r`.
proof fn lemma_skip_other_subarrays(g: CsrPattern, begin: nat, r: nat, k: nat, subarrays: nat)
    requires
        begin <= r,
        1 <= k <= subarrays,
        r + k <= g.indices.len(),
    ensures
        sub_bytes(g, begin, r + k, subarrays, ((r - begin) as nat) % subarrays)
            == sub_bytes(g, begin, r + 1, subarrays, ((r - begin) as nat) % subarrays),
        sub_count(begin, r + k, subarrays, ((r - begin) as nat) % subarrays)
            == sub_count(begin, r + 1, subarrays, ((r - begin) as nat) % subarrays),
    decreases k,
{
    if k > 1 {
        lemma_skip_other_subarrays(g, begin, r, (k - 1) as nat, subarrays);
        lemma_offset_other_subarray((r - begin) as nat, (k - 1) as nat, subarrays);
        assert((r + k - 1 - begin) as nat == (r - begin) as nat + (k - 1) as nat);
    }
}

/// The rows of a subarray are packed one after another: the next row of
/// the same bank dealt to the same subarray (`subarrays` rows later) starts
/// where the row before it ends, and comes one place later in the dense
/// result; the first row dealt to each subarray starts at byte 0 and
/// place 0.
pub proof fn lemma_weighted_running_sum(g: CsrPattern, b: nat, begin: nat, end: nat, r: nat, subarrays: nat, col_size: nat)
    requires
        begin <= r < end <= g.indices.len(),
        subarrays > 0,
        col_size > 0,
        4 * g.nnz_spec() <= usize::MAX,
    ensures
        ({
            let e1 = row_entry(g, b, begin, r, subarrays, col_size);
            let d1 = dense_entry(b, begin, r, subarrays);
            &&& r < begin + subarrays ==> e1.row_id == 0 && e1.col_id == 0 && d1.shift == 0
            &&& r + subarrays < end ==> {
                let e2 = row_entry(g, b, begin, r + subarrays, subarrays, col_size);
                let d2 = dense_entry(b, begin, r + subarrays, subarrays);
                &&& e2.subarray_id == e1.subarray_id
                &&& e2.row_id * col_size + e2.col_id == e1.row_id * col_size + e1.col_id + e1.size
                &&& d2.shift == d1.shift + 1
            }
        }),
{
    let x = (r - begin) as nat;
    let s = x % subarrays;
    lemma_prefix_nnz_monotone(g, r as int, end as int);
    lemma_prefix_nnz_monotone(g, end as int, g.indices.len() as int);
    if r < begin + subarrays {
        vstd::arithmetic::div_mod::lemma_small_mod(x, subarrays);
        lemma_sub_zero(g, begin, r, subarrays, s);
    }
    if r + subarrays < end {
        lemma_skip_other_subarrays(g, begin, r, subarrays, subarrays);
        vstd::arithmetic::div_mod::lemma_mod_add_multiples_vanish(x as int, subarrays as int);
        assert((r + subarrays - begin) as nat == subarrays + x);
        let t1 = sub_bytes(g, begin, r, subarrays, s);
        let t2 = sub_bytes(g, begin, r + subarrays, subarrays, s);
        assert(t2 == t1 + g.indices[r as int]@.len() * 4);
        lemma_sub_bytes_bound(g, begin, (r + subarrays) as nat, subarrays, s);
        lemma_sub_bytes_bound(g, begin, r, subarrays, s);
        lemma_prefix_nnz_monotone(g, begin as int, r as int);
        lemma_prefix_nnz_monotone(g, (r + subarrays) as int, g.indices.len() as int);
        lemma_row_place(t1, col_size);
        lemma_row_place(t2, col_size);
        lemma_sub_count_bound(begin, r, subarrays, s);
        lemma_sub_count_bound(begin, (r + subarrays) as nat, subarrays, s);
    }
}

/// A byte offset that fits a word, split into a row and a column, gives
/// the offset back.
proof fn lemma_row_place(t: nat, col_size: nat)
    requires
        col_size > 0,
        t <= usize::MAX,
    ensures
        ((t / col_size) as usize) * col_size + ((t % col_size) as usize) == t,
{
    vstd::arithmetic::div_mod::lemma_fundamental_div_mod(t as int, col_size as int);
    let q = t / col_size;
    let m = t % col_size;
    assert(q <= t && m <= t && q * col_size + m == t) by (nonlinear_arith)
        requires col_size > 0, t == col_size * q + m, 0 <= m < col_size, q >= 0;
}

/// Before the rows of a bank reach a subarray, it holds nothing.
proof fn lemma_sub_zero(g: CsrPattern, begin: nat, r: nat, subarrays: nat, s: nat)
    requires
        begin <= r,
        (r - begin) as nat == s,
        s < subarrays,
    ensures
        sub_bytes(g, begin, r, subarrays, s) == 0,
        sub_count(begin, r, subarrays, s) == 0,
    decreases r,
{
    if r > begin {
        lemma_sub_zero_below(g, begin, r, subarrays, s);
    }
}

proof fn lemma_sub_zero_below(g: CsrPattern, begin: nat, i: nat, subarrays: nat, s: nat)
    requires
        begin <= i,
        (i - begin) as nat <= s,
        s < subarrays,
    ensures
        sub_bytes(g, begin, i, subarrays, s) == 0,
        sub_count(begin, i, subarrays, s) == 0,
    decreases i,
{
    if i > begin {
        lemma_sub_zero_below(g, begin, (i - 1) as nat, subarrays, s);
        vstd::arithmetic::div_mod::lemma_small_mod((i - 1 - begin) as nat, subarrays);
    }
}

/// Every row lies in the bank whose range holds it.
pub proof fn lemma_row_in_some_bank(ends: Seq<usize>, n: nat, i: nat)
    requires
        cuts_ok(ends, n),
        ends.len() > 0,
        i < n,
    ensures
        exists|b: nat| b < ends.len() && bank_begin(ends, b) <= i < #[trigger] bank_end(ends, b),
{
    lemma_row_in_bank_upto(ends, n, i, (ends.len() - 1) as nat);
}

proof fn lemma_row_in_bank_upto(ends: Seq<usize>, n: nat, i: nat, b: nat)
    requires
        cuts_ok(ends, n),
        i < bank_end(ends, b),
        b < ends.len(),
    ensures
        exists|c: nat| c < ends.len() && bank_begin(ends, c) <= i < #[trigger] bank_end(ends, c),
    decreases b,
{
    if i >= bank_begin(ends, b) {
        assert(bank_begin(ends, b) <= i < bank_end(ends, b));
    } else {
        lemma_row_in_bank_upto(ends, n, i, (b - 1) as nat);
    }
}

/// The (bank, subarray) that a mapping entry places its row in.
pub open spec fn place_of(e: RowIdMappingEntry) -> (usize, usize) {
    (e.bank_id, e.subarray_id)
}

/// The bytes of the rows before `i` that `maps` places at `place`, 4 per
/// nonzero.
pub open spec fn bytes_placed_before(g: CsrPattern, maps: Seq<RowIdMappingEntry>, place: (usize, usize), i: nat) -> nat
    decreases i,
{
    if i == 0 {
        0
    } else {
        bytes_placed_before(g, maps, place, (i - 1) as nat)
            + if place_of(maps[i - 1]) == place { 4 * g.indices[i - 1]@.len() } else { 0 }
    }
}

/// The number of rows before `i` that `maps` places at `place`.
pub open spec fn rows_placed_before(maps: Seq<RowIdMappingEntry>, place: (usize, usize), i: nat) -> nat
    decreases i,
{
    if i == 0 {
        0
    } else {
        rows_placed_before(maps, place, (i - 1) as nat) + if place_of(maps[i - 1]) == place { 1nat } else { 0nat }
    }
}

/// The entries of every row are those of its bank's layout.
pub open spec fn laid_out(g: CsrPattern, ends: Seq<usize>, maps: Seq<RowIdMappingEntry>, subarrays: nat, col_size: nat) -> bool {
    forall|b: int, i: int| #![trigger bank_end(ends, b as nat), maps[i]] 0 <= b < ends.len() && bank_begin(ends, b as nat) <= i < bank_end(ends, b as nat)
        ==> maps[i] == row_entry(g, b as nat, bank_begin(ends, b as nat), i as nat, subarrays, col_size)
}

/// A row lies in bank `b` exactly when it lies in its range; rows before
/// the range lie in earlier banks, rows after it in later ones.
proof fn lemma_bank_of_row(ends: Seq<usize>, n: nat, i: nat, b: nat, c: nat)
    requires
        cuts_ok(ends, n),
        b < ends.len(),
        c < ends.len(),
        bank_begin(ends, c) <= i < bank_end(ends, c),
    ensures
        i < bank_begin(ends, b) ==> c < b,
        bank_begin(ends, b) <= i < bank_end(ends, b) ==> c == b,
        bank_end(ends, b) <= i ==> c > b,
{
    if c < b {
        assert(ends[c as int] <= ends[b - 1]);
    }
    if c > b {
        assert(ends[b as int] <= ends[c - 1]);
    }
}

/// Counted over the rows in order, the bytes and rows placed at (`b`, `s`)
/// are none before bank `b`, those of its layout inside it, and all of
/// them after it.
proof fn lemma_placed_prefix(g: CsrPattern, ends: Seq<usize>, maps: Seq<RowIdMappingEntry>, subarrays: nat, col_size: nat,
    b: nat, s: nat, i: nat)
    requires
        cuts_ok(ends, g.indices.len() as nat),
        ends.len() <= usize::MAX,
        laid_out(g, ends, maps, subarrays, col_size),
        subarrays > 0,
        b < ends.len(),
        s < subarrays,
        subarrays <= usize::MAX,
        i <= g.indices.len(),
    ensures
        ({
            let place = (b as usize, s as usize);
            let begin = bank_begin(ends, b);
            let end = bank_end(ends, b);
            &&& i <= begin ==> bytes_placed_before(g, maps, place, i) == 0 && rows_placed_before(maps, place, i) == 0
            &&& begin <= i <= end ==> bytes_placed_before(g, maps, place, i) == sub_bytes(g, begin, i, subarrays, s)
                && rows_placed_before(maps, place, i) == sub_count(begin, i, subarrays, s)
            &&& end <= i ==> rows_placed_before(maps, place, i) == sub_count(begin, end, subarrays, s)
        }),
    decreases i,
{
    let place = (b as usize, s as usize);
    let begin = bank_begin(ends, b);
    let end = bank_end(ends, b);
    assert(begin <= end) by {
        if b > 0 {
            assert(ends[b - 1] <= ends[b as int]);
        }
    }
    if i > 0 {
        let j = (i - 1) as nat;
        lemma_placed_prefix(g, ends, maps, subarrays, col_size, b, s, j);
        lemma_row_in_some_bank(ends, g.indices.len() as nat, j);
        let c = choose|c: nat| c < ends.len() && bank_begin(ends, c) <= j < #[trigger] bank_end(ends, c);
        lemma_bank_of_row(ends, g.indices.len() as nat, j, b, c);
        let ci: int = c as int;
        assert(bank_begin(ends, ci as nat) <= j && j < bank_end(ends, ci as nat));
        assert(maps[j as int] == row_entry(g, ci as nat, bank_begin(ends, ci as nat), j, subarrays, col_size));
        assert(maps[j as int].bank_id == c as usize);
        if c != b {
            assert(place_of(maps[j as int]) != place);
        } else {
            let t = ((j - begin) as nat) % subarrays;
            assert(place_of(maps[j as int]) == (b as usize, t as usize));
            assert((place_of(maps[j as int]) == place) == (t == s));
        }
    }
}

/// The layout law of the weighted mapping: a row starts, in its subarray,
/// where the rows before it placed in the same (bank, subarray) end, its
/// column inside a subarray row; its dense place counts those rows; and a
/// subarray's dense size counts every row placed in it.
proof fn lemma_weighted_layout(g: CsrPattern, ends: Seq<usize>, maps: Seq<RowIdMappingEntry>, dense: Seq<DenseIdMappingEntry>,
    sizes: Seq<usize>, subarrays: nat, col_size: nat)
    requires
        cuts_ok(ends, g.indices.len() as nat),
        ends.len() <= usize::MAX,
        g.indices.len() > 0 ==> ends.len() > 0 && subarrays > 0 && col_size > 0,
        subarrays <= usize::MAX,
        4 * g.nnz_spec() <= usize::MAX,
        maps.len() == g.indices.len(),
        dense.len() == g.indices.len(),
        sizes.len() == ends.len() * subarrays,
        laid_out(g, ends, maps, subarrays, col_size),
        forall|b: int, i: int| #![trigger bank_end(ends, b as nat), dense[i]] 0 <= b < ends.len() && bank_begin(ends, b as nat) <= i < bank_end(ends, b as nat)
            ==> dense[i] == dense_entry(b as nat, bank_begin(ends, b as nat), i as nat, subarrays),
        forall|b: int, s: int| #![trigger sub_count(bank_begin(ends, b as nat), bank_end(ends, b as nat), subarrays, s as nat)] 0 <= b < ends.len() && 0 <= s < subarrays
            ==> sizes[b * subarrays + s] == sub_count(bank_begin(ends, b as nat), bank_end(ends, b as nat), subarrays, s as nat),
    ensures
        forall|i: int| #![trigger maps[i]] 0 <= i < g.indices.len() ==> {
            &&& maps[i].col_id < col_size
            &&& maps[i].row_id * col_size + maps[i].col_id == bytes_placed_before(g, maps, place_of(maps[i]), i as nat)
            &&& dense[i].shift == rows_placed_before(maps, place_of(maps[i]), i as nat)
        },
        forall|b: int, s: int| #![trigger rows_placed_before(maps, (b as usize, s as usize), g.indices.len() as nat)]
            0 <= b < ends.len() && 0 <= s < subarrays
            ==> sizes[b * subarrays + s] == rows_placed_before(maps, (b as usize, s as usize), g.indices.len() as nat),
{
    let n = g.indices.len() as nat;
    assert forall|i: int| #![trigger maps[i]] 0 <= i < n implies {
        &&& maps[i].col_id < col_size
        &&& maps[i].row_id * col_size + maps[i].col_id == bytes_placed_before(g, maps, place_of(maps[i]), i as nat)
        &&& dense[i].shift == rows_placed_before(maps, place_of(maps[i]), i as nat)
    } by {
        lemma_row_in_some_bank(ends, n, i as nat);
        let c = choose|c: nat| c < ends.len() && bank_begin(ends, c) <= i < #[trigger] bank_end(ends, c);
        let ci: int = c as int;
        let begin = bank_begin(ends, c);
        assert(bank_begin(ends, ci as nat) <= i && i < bank_end(ends, ci as nat));
        assert(maps[i] == row_entry(g, c, begin, i as nat, subarrays, col_size));
        assert(dense[i] == dense_entry(c, begin, i as nat, subarrays));
        let sub = ((i - begin) as nat) % subarrays;
        lemma_placed_prefix(g, ends, maps, subarrays, col_size, c, sub, i as nat);
        let bytes = sub_bytes(g, begin, i as nat, subarrays, sub);
        lemma_sub_bytes_bound(g, begin, i as nat, subarrays, sub);
        lemma_prefix_nnz_monotone(g, begin as int, i as int);
        lemma_prefix_nnz_monotone(g, i as int, n as int);
        lemma_sub_count_bound(begin, i as nat, subarrays, sub);
        assert(bytes <= usize::MAX);
        vstd::arithmetic::div_mod::lemma_fundamental_div_mod(bytes as int, col_size as int);
        vstd::arithmetic::div_mod::lemma_div_pos_is_pos(bytes as int, col_size as int);
        vstd::arithmetic::div_mod::lemma_div_is_ordered_by_denominator(bytes as int, 1, col_size as int);
        assert(place_of(maps[i]) == (c as usize, sub as usize));
        assert(bytes_placed_before(g, maps, place_of(maps[i]), i as nat) == bytes);
        assert(bytes / col_size <= bytes);
        assert(maps[i].row_id == bytes / col_size);
        assert(maps[i].col_id == bytes % col_size);
        assert(maps[i].col_id < col_size);
        vstd::arithmetic::mul::lemma_mul_is_commutative((bytes / col_size) as int, col_size as int);
        assert(maps[i].row_id * col_size + maps[i].col_id == bytes);
        assert(dense[i].shift == rows_placed_before(maps, place_of(maps[i]), i as nat));
    }
    assert forall|b: int, s: int| #![trigger rows_placed_before(maps, (b as usize, s as usize), n)]
        0 <= b < ends.len() && 0 <= s < subarrays
        implies sizes[b * subarrays + s] == rows_placed_before(maps, (b as usize, s as usize), n) by {
        lemma_placed_prefix(g, ends, maps, subarrays, col_size, b as nat, s as nat, n);
        assert(bank_end(ends, b as nat) <= n);
        assert(sizes[b * subarrays + s] == sub_count(bank_begin(ends, b as nat), bank_end(ends, b as nat), subarrays, s as nat));
    }
}

} // verus!
