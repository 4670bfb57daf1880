//! Filters that pick the "evil" rows and columns: those handled apart
//! from the regular distribution.
use vstd::prelude::*;
use crate::row_cycle::{LogicColId, LogicRowId};

verus! {

/// the trait for filter evil rows and evil columns
pub trait EvilFilter {
    /// Whether row `row_id` is evil.
    spec fn evil_row(&self, row_id: LogicRowId) -> bool;

    /// Whether column `col_id` is evil.
    spec fn evil_col(&self, col_id: LogicColId) -> bool;

    fn is_evil_row(&self, row_id: LogicRowId) -> (r: bool)
        ensures
            r == self.evil_row(row_id);

    fn is_evil_col(&self, col_id: LogicColId) -> (r: bool)
        ensures
            r == self.evil_col(col_id);
}

/// Every row and column is evil.
pub struct AllEvilFilter;

impl EvilFilter for AllEvilFilter {
    open spec fn evil_row(&self, row_id: LogicRowId) -> bool {
        true
    }

    open spec fn evil_col(&self, col_id: LogicColId) -> bool {
        true
    }

    fn is_evil_row(&self, _row_id: LogicRowId) -> bool {
        true
    }

    fn is_evil_col(&self, _col_id: LogicColId) -> bool {
        true
    }
}

/// No row or column is evil.
pub struct NoEvilFilter;

impl EvilFilter for NoEvilFilter {
    open spec fn evil_row(&self, row_id: LogicRowId) -> bool {
        false
    }

    open spec fn evil_col(&self, col_id: LogicColId) -> bool {
        false
    }

    fn is_evil_row(&self, _row_id: LogicRowId) -> bool {
        false
    }

    fn is_evil_col(&self, _col_id: LogicColId) -> bool {
        false
    }
}

/// The rows and columns below a threshold are evil (ids are ordered by
/// weight, heaviest first).
pub struct PercentEvilFilter {
    pub row_evil_threshold: usize,
    pub col_evil_threshold: usize,
}

impl PercentEvilFilter {
    /// A filter with the given row and column thresholds.
    pub fn new(row_evil_threshold: usize, col_evil_threshold: usize) -> (r: Self)
        ensures
            r.row_evil_threshold == row_evil_threshold,
            r.col_evil_threshold == col_evil_threshold,
    {
        Self { row_evil_threshold, col_evil_threshold }
    }
}

impl EvilFilter for PercentEvilFilter {
    open spec fn evil_row(&self, row_id: LogicRowId) -> bool {
        row_id.0 < self.row_evil_threshold
    }

    open spec fn evil_col(&self, col_id: LogicColId) -> bool {
        col_id.0 < self.col_evil_threshold
    }

    fn is_evil_row(&self, row_id: LogicRowId) -> bool {
        let row_id = row_id.0;
        row_id < self.row_evil_threshold
    }

    fn is_evil_col(&self, col_id: LogicColId) -> bool {
        let col_id = col_id.0;
        col_id < self.col_evil_threshold
    }
}

} // verus!
