//! A sparse pattern matrix in compressed-row form: for every row, the
//! column ids of its nonzeros.
use vstd::prelude::*;

verus! {

/// A pattern matrix (no values) stored row by row.
#[derive(Clone, Debug)]
pub struct CsrPattern {
    /// The number of columns.
    pub cols: usize,
    /// For every row, the column ids of its nonzeros.
    pub indices: Vec<Vec<u32>>,
}

impl CsrPattern {
    /// The number of nonzeros of rows `0..r`.
    pub open spec fn prefix_nnz(self, r: int) -> nat
        decreases r,
    {
        if r <= 0 || r > self.indices.len() {
            0
        } else {
            self.prefix_nnz(r - 1) + self.indices[r - 1]@.len()
        }
    }

    /// The number of nonzeros.
    pub open spec fn nnz_spec(self) -> nat {
        self.prefix_nnz(self.indices.len() as int)
    }

    /// Every column id is below the column count.
    pub open spec fn wf(self) -> bool {
        forall|i: int, j: int| 0 <= i < self.indices.len() && 0 <= j < self.indices[i].len()
            ==> (#[trigger] self.indices[i][j]) < self.cols
    }

    /// The number of rows.
    pub fn rows(&self) -> (r: usize)
        ensures
            r == self.indices.len(),
    {
        self.indices.len()
    }

    /// The number of nonzeros of every row.
    pub fn row_lengths(&self) -> (r: Vec<usize>)
        ensures
            r.len() == self.indices.len(),
            forall|i: int| 0 <= i < r.len() ==> r[i] == self.indices[i].len(),
    {
        let mut r: Vec<usize> = Vec::new();
        let mut i: usize = 0;
        while i < self.indices.len()
            invariant
                i <= self.indices.len(),
                r.len() == i,
                forall|t: int| 0 <= t < i ==> r[t] == self.indices[t].len(),
            decreases self.indices.len() - i,
        {
            r.push(self.indices[i].len());
            i += 1;
        }
        r
    }

    /// The number of nonzeros, or `None` when it does not fit in a `usize`.
    pub fn nnz(&self) -> (r: Option<usize>)
        ensures
            r matches Some(n) ==> n == self.nnz_spec(),
            r is None ==> self.nnz_spec() > usize::MAX,
    {
        let mut total: usize = 0;
        let mut i: usize = 0;
        while i < self.indices.len()
            invariant
                0 <= i <= self.indices.len(),
                total == self.prefix_nnz(i as int),
            decreases self.indices.len() - i,
        {
            let len = self.indices[i].len();
            if total > usize::MAX - len {
                proof {
                    lemma_prefix_nnz_monotone(*self, (i + 1) as int, self.indices.len() as int);
                }
                return None;
            }
            total = total + len;
            i += 1;
        }
        Some(total)
    }
}

/// The nonzero count of a prefix grows with the prefix.
pub proof fn lemma_prefix_nnz_monotone(m: CsrPattern, a: int, b: int)
    requires
        0 <= a <= b <= m.indices.len(),
    ensures
        m.prefix_nnz(a) <= m.prefix_nnz(b),
    decreases b - a,
{
    if a < b {
        lemma_prefix_nnz_monotone(m, a, b - 1);
    }
}

/// Row `i` of `m` lists its column ids in strictly increasing order.
pub open spec fn row_ascending(m: CsrPattern, i: int) -> bool {
    forall|a: int, b: int| 0 <= a < b < m.indices[i]@.len() ==> m.indices[i]@[a] < m.indices[i]@[b]
}

/// Some position `k` of `row_inds` and `col_inds` holds (`i`, `j`).
pub open spec fn has_triplet(row_inds: Seq<u32>, col_inds: Seq<u32>, i: int, j: int) -> bool {
    exists|k: int| 0 <= k < row_inds.len() && #[trigger] row_inds[k] == i && col_inds[k] == j
}

/// The entry list holds (`i`, `j`).
pub open spec fn has_entry(entries: Seq<(u32, u32)>, i: int, j: int) -> bool {
    exists|k: int| 0 <= k < entries.len() && (#[trigger] entries[k]).0 == i && entries[k].1 == j
}

/// `TriMatI::from_triplets` of pattern entries, then `to_csr`: a compressed
/// row matrix of the shape whose row `i` holds `j` exactly when some
/// triplet is (`i`, `j`), each row in increasing column order with every
/// column once (the triplets are sorted by (row, column) and repeats are
/// merged). The index type is `u32`, and so is the type of the row
/// pointers (the default of `CsMatI`), whose conversion panics past
/// `u32::MAX`: the shape and the number of triplets must fit one.
#[verifier::external_body]
fn csr_of_triplets(rows: usize, cols: usize, row_inds: Vec<u32>, col_inds: Vec<u32>) -> (r: CsrPattern)
    requires
        rows <= u32::MAX,
        cols <= u32::MAX,
        row_inds.len() == col_inds.len(),
        row_inds.len() <= u32::MAX,
        forall|k: int| 0 <= k < row_inds.len() ==> (#[trigger] row_inds[k]) < rows && col_inds[k] < cols,
    ensures
        r.cols == cols,
        r.indices.len() == rows,
        forall|i: int| 0 <= i < rows ==> row_ascending(r, i),
        forall|i: int| #![trigger r.indices[i]] 0 <= i < rows ==> (forall|j: int| (#[trigger] r.indices[i]@.contains(j as u32) && 0 <= j <= u32::MAX)
            <==> has_triplet(row_inds@, col_inds@, i, j)),
{
    let n = row_inds.len();
    let data = vec![sprs::num_kinds::Pattern; n];
    let tri = sprs::TriMatI::<sprs::num_kinds::Pattern, u32>::from_triplets((rows, cols), row_inds, col_inds, data);
    let m: sprs::CsMatI<sprs::num_kinds::Pattern, u32> = tri.to_csr();
    CsrPattern { cols: m.cols(), indices: m.outer_iterator().map(|row| row.indices().to_vec()).collect() }
}

/// The graph of `entries` as a compressed row matrix of `rows` rows and
/// `cols` columns, and its transpose: row `i` of the first holds `j`, and
/// row `j` of the second holds `i`, exactly when (`i`, `j`) is an entry;
/// every row is in increasing column order without repeats. The sizes and
/// the number of entries must fit 32-bit indices.
pub fn graph_and_transpose(rows: usize, cols: usize, entries: Vec<(u32, u32)>) -> (r: (CsrPattern, CsrPattern))
    requires
        rows <= u32::MAX,
        cols <= u32::MAX,
        entries.len() <= u32::MAX,
        forall|k: int| 0 <= k < entries.len() ==> (#[trigger] entries[k]).0 < rows && entries[k].1 < cols,
    ensures
        r.0.indices.len() == rows,
        r.0.cols == cols,
        r.1.indices.len() == cols,
        r.1.cols == rows,
        r.0.wf(),
        r.1.wf(),
        forall|i: int| 0 <= i < rows ==> row_ascending(r.0, i),
        forall|j: int| 0 <= j < cols ==> row_ascending(r.1, j),
        forall|i: int, j: int| 0 <= i < rows && 0 <= j < cols ==>
            (#[trigger] r.0.indices[i]@.contains(j as u32) <==> has_entry(entries@, i, j)),
        forall|i: int, j: int| 0 <= i < rows && 0 <= j < cols ==>
            (#[trigger] r.1.indices[j]@.contains(i as u32) <==> has_entry(entries@, i, j)),
{
    let mut row_inds: Vec<u32> = Vec::new();
    let mut col_inds: Vec<u32> = Vec::new();
    let mut row_inds_t: Vec<u32> = Vec::new();
    let mut col_inds_t: Vec<u32> = Vec::new();
    let mut k: usize = 0;
    while k < entries.len()
        invariant
            k <= entries.len(),
            forall|t: int| 0 <= t < entries.len() ==> (#[trigger] entries[t]).0 < rows && entries[t].1 < cols,
            row_inds.len() == k,
            col_inds.len() == k,
            row_inds_t@ == row_inds@,
            col_inds_t@ == col_inds@,
            forall|t: int| 0 <= t < k ==> row_inds[t] == (#[trigger] entries[t]).0 && col_inds[t] == entries[t].1,
        decreases entries.len() - k,
    {
        let (i, j) = entries[k];
        row_inds.push(i);
        col_inds.push(j);
        row_inds_t.push(i);
        col_inds_t.push(j);
        k += 1;
    }
    let ghost ri = row_inds@;
    let ghost ci = col_inds@;
    assert forall|t: int| 0 <= t < ri.len() implies (#[trigger] ri[t]) < rows && ci[t] < cols by {
        assert(ri[t] == entries[t].0 && ci[t] == entries[t].1);
    }
    assert forall|t: int| 0 <= t < ci.len() implies (#[trigger] ci[t]) < cols && ri[t] < rows by {
        assert(ri[t] == entries[t].0 && ci[t] == entries[t].1);
    }
    let a = csr_of_triplets(rows, cols, row_inds, col_inds);
    let b = csr_of_triplets(cols, rows, col_inds_t, row_inds_t);
    proof {
        assert forall|i: int, j: int| 0 <= i < rows && 0 <= j < cols implies
            (#[trigger] a.indices[i]@.contains(j as u32) <==> has_entry(entries@, i, j)) by {
            assert(a.indices[i]@.contains(j as u32) <==> has_triplet(ri, ci, i, j));
            if has_triplet(ri, ci, i, j) {
                let t = choose|t: int| 0 <= t < ri.len() && #[trigger] ri[t] == i && ci[t] == j;
                assert(entries@[t].0 == i && entries@[t].1 == j);
            }
            if has_entry(entries@, i, j) {
                let t = choose|t: int| 0 <= t < entries.len() && (#[trigger] entries@[t]).0 == i && entries@[t].1 == j;
                assert(ri[t] == i);
            }
        }
        assert forall|i: int, j: int| 0 <= i < rows && 0 <= j < cols implies
            (#[trigger] b.indices[j]@.contains(i as u32) <==> has_entry(entries@, i, j)) by {
            assert(b.indices[j]@.contains(i as u32) <==> has_triplet(ci, ri, j, i));
            if has_triplet(ci, ri, j, i) {
                let t = choose|t: int| 0 <= t < ci.len() && #[trigger] ci[t] == j && ri[t] == i;
                assert(entries@[t].0 == i && entries@[t].1 == j);
            }
            if has_entry(entries@, i, j) {
                let t = choose|t: int| 0 <= t < entries.len() && (#[trigger] entries@[t]).0 == i && entries@[t].1 == j;
                assert(ci[t] == j);
            }
        }
        assert forall|i: int, q: int| 0 <= i < a.indices.len() && 0 <= q < a.indices[i].len()
            implies (#[trigger] a.indices[i][q]) < a.cols by {
            let j = a.indices[i]@[q];
            assert(a.indices[i]@.contains(j as int as u32));
            let t = choose|t: int| 0 <= t < ri.len() && #[trigger] ri[t] == i && ci[t] == j as int;
        }
        assert forall|j: int, q: int| 0 <= j < b.indices.len() && 0 <= q < b.indices[j].len()
            implies (#[trigger] b.indices[j][q]) < b.cols by {
            let i = b.indices[j]@[q];
            assert(b.indices[j]@.contains(i as int as u32));
            let t = choose|t: int| 0 <= t < ci.len() && #[trigger] ci[t] == j && ri[t] == i as int;
        }
    }
    (a, b)
}

} // verus!
