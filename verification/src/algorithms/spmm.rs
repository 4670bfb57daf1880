//! Sparse matrix-matrix multiplication as a sequence of frontiers: step
//! `i` reads row `i` of the matrix.
use vstd::prelude::*;
use crate::sparse::CsrPattern;
use crate::algorithms::{FrontierType, SparseFrontier, SpmvAlgorithm, rows_sorted};

verus! {

/// Row-by-row multiplication of a matrix with itself.
pub struct Spmm<'a> {
    current_frontier: usize,
    matrix: &'a CsrPattern,
}

impl<'a> Spmm<'a> {
    /// The row that the next step hands out.
    pub closed spec fn next_row(&self) -> nat {
        self.current_frontier as nat
    }

    /// The matrix that is walked.
    pub closed spec fn matrix(&self) -> CsrPattern {
        *self.matrix
    }

    /// Starts at the first row of `matrix`.
    pub fn new(matrix: &'a CsrPattern) -> (r: Self)
        ensures
            r.next_row() == 0,
            r.matrix() == *matrix,
    {
        Spmm { current_frontier: 0, matrix }
    }
}

impl<'a> SpmvAlgorithm for Spmm<'a> {
    open spec fn inv(&self) -> bool {
        self.matrix().wf() && rows_sorted(self.matrix())
    }

    open spec fn can_advance(&self) -> bool {
        true
    }

    /// Hands out the next row as a sparse vector as long as there is one.
    fn next_frontier(&mut self) -> (r: Option<FrontierType>)
        ensures
            final(self).matrix() == old(self).matrix(),
            old(self).next_row() < old(self).matrix().indices.len() ==> {
                &&& r matches Some(FrontierType::Sparse(f))
                &&& f.wf()
                &&& f.dim == old(self).matrix().cols
                &&& f.indices@ == old(self).matrix().indices[old(self).next_row() as int]@
                &&& final(self).next_row() == old(self).next_row() + 1
            },
            old(self).next_row() >= old(self).matrix().indices.len() ==> {
                &&& r is None
                &&& final(self).next_row() == old(self).next_row()
            },
    {
        if self.current_frontier < self.matrix.indices.len() {
            let row = &self.matrix.indices[self.current_frontier];
            let indices = row.clone();
            assert(indices@ =~= self.matrix.indices[self.current_frontier as int]@);
            let f = SparseFrontier { dim: self.matrix.cols, indices };
            assert(rows_sorted(*self.matrix));
            assert(crate::algorithms::strictly_increasing(self.matrix.indices[self.current_frontier as int]@));
            self.current_frontier = self.current_frontier + 1;
            Some(FrontierType::Sparse(f))
        } else {
            None
        }
    }
}

} // verus!
