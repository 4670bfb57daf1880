//! PageRank reads every row at every step.
use vstd::prelude::*;
use crate::algorithms::{FrontierType, SpmvAlgorithm};

verus! {

/// PageRank: every step multiplies by the whole matrix.
pub struct PageRank;

impl SpmvAlgorithm for PageRank {
    open spec fn inv(&self) -> bool {
        true
    }

    open spec fn can_advance(&self) -> bool {
        true
    }

    /// Every step reads all rows; PageRank never ends by itself.
    fn next_frontier(&mut self) -> (r: Option<FrontierType>)
        ensures
            r == Some(FrontierType::All),
    {
        Some(FrontierType::All)
    }
}

} // verus!
