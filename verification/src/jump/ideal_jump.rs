//! The ideal model: every access costs one cycle to reach its word inside
//! the walker (hidden by a row open), then one cycle per word streamed.
use vstd::prelude::*;
use crate::row_cycle::{RowIdWordId, RowLocation, WordId};
use crate::jump::{
    access_ok, extra_walkers, first_row_miss, get_total_row_cycle, max_nat, AddableJumpCycle,
    JumpCycle, UpdatableJumpCycle, ROW_OPEN_CYCLE,
};

verus! {

/// The ideal jump model: the cycles of `ideal_cost` for every access.
#[derive(Debug, Clone, Copy)]
pub struct IdealJumpCycle<const WALKER_SIZE: usize> {
    pub total_cycle: usize,
}

/// The cycles the ideal model charges for one access.
pub open spec fn ideal_cost(walker_size: nat, row_status: RowIdWordId, loc: RowLocation, size: WordId) -> nat {
    let words = walker_size / 4;
    let first_row = first_row_miss(walker_size, row_status, loc) * (ROW_OPEN_CYCLE as nat);
    let remaining = extra_walkers(walker_size, loc.row_id_word_id.word_id.0 as nat, size.0 as nat) * (ROW_OPEN_CYCLE as nat);
    let reach = if (loc.row_id_word_id.word_id.0 as nat) % words != (row_status.word_id.0 as nat) % words {
        max_nat(1, first_row)
    } else {
        first_row
    };
    reach + size.0 as nat + remaining
}

impl<const WALKER_SIZE: usize> IdealJumpCycle<WALKER_SIZE> {
    /// A model with no cycle counted.
    pub fn new() -> (r: Self)
        ensures
            r.total_cycle == 0,
    {
        IdealJumpCycle { total_cycle: 0 }
    }
}

impl<const WALKER_SIZE: usize> Default for IdealJumpCycle<WALKER_SIZE> {
    fn default() -> (r: Self)
        ensures
            r.total_cycle == 0,
    {
        Self::new()
    }
}

impl<const WALKER_SIZE: usize> UpdatableJumpCycle for IdealJumpCycle<WALKER_SIZE> {
    open spec fn can_update(&self, row_status: RowIdWordId, loc: RowLocation, size: WordId, remap_cycle: usize) -> bool {
        &&& access_ok(WALKER_SIZE as nat, row_status, loc, size)
        &&& self.total_cycle + ideal_cost(WALKER_SIZE as nat, row_status, loc, size) <= usize::MAX
    }

    open spec fn updated(&self, row_status: RowIdWordId, loc: RowLocation, size: WordId, remap_cycle: usize) -> Self {
        IdealJumpCycle {
            total_cycle: (self.total_cycle + ideal_cost(WALKER_SIZE as nat, row_status, loc, size)) as usize,
        }
    }

    fn update(&mut self, row_status: &RowIdWordId, loc: &RowLocation, size: WordId, _remap_cycle: usize) {
        let words_per_waler = WALKER_SIZE / 4;
        let real_loc_word_id = loc.row_id_word_id.word_id.0 % words_per_waler;
        let real_row_status_word_id = row_status.word_id.0 % words_per_waler;
        let (first_row, remaining_row) = get_total_row_cycle::<WALKER_SIZE>(row_status, loc, size);
        proof {
            vstd::arithmetic::div_mod::lemma_div_is_ordered(
                (loc.row_id_word_id.word_id.0 + size.0 - 1) as int,
                usize::MAX as int,
                words_per_waler as int,
            );
        }
        if real_loc_word_id != real_row_status_word_id {
            let first = first_row * ROW_OPEN_CYCLE;
            self.total_cycle += if first >= 1 { first } else { 1 };
        } else {
            self.total_cycle += first_row * ROW_OPEN_CYCLE;
        }
        self.total_cycle += size.0 + remaining_row * ROW_OPEN_CYCLE;
    }
}

impl<const WALKER_SIZE: usize> JumpCycle for IdealJumpCycle<WALKER_SIZE> {
    open spec fn total_spec(&self) -> nat {
        self.total_cycle as nat
    }

    open spec fn one_jump_spec(&self) -> nat {
        self.total_cycle as nat
    }

    open spec fn multi_jump_spec(&self) -> nat {
        0
    }

    fn total(&self) -> usize {
        self.total_cycle
    }

    fn get_one_jump(&self) -> usize {
        self.total_cycle
    }

    fn get_multi_jump(&self) -> usize {
        0
    }
}

impl<const WALKER_SIZE: usize> AddableJumpCycle for IdealJumpCycle<WALKER_SIZE> {
    open spec fn can_add(&self, other: &Self) -> bool {
        self.total_cycle + other.total_cycle <= usize::MAX
    }

    open spec fn added(&self, other: &Self) -> Self {
        IdealJumpCycle::<WALKER_SIZE> {
            total_cycle: (self.total_cycle + other.total_cycle) as usize
        }
    }

    fn add(&mut self, ideal_jump_cycle: &IdealJumpCycle<WALKER_SIZE>) {
        self.total_cycle += ideal_jump_cycle.total_cycle;
    }
}

/// Every word of a run streams in one cycle and every further walker the
/// run reaches costs a row open: a run of `size` words costs what its first
/// word alone costs, plus `size - 1`, plus `ROW_OPEN_CYCLE` per extra walker.
pub proof fn lemma_ideal_run_cost<const WALKER_SIZE: usize>(m: IdealJumpCycle<WALKER_SIZE>, row_status: RowIdWordId,
    loc: RowLocation, size: WordId, remap_cycle: usize)
    requires
        size.0 >= 1,
        m.can_update(row_status, loc, size, remap_cycle),
        m.can_update(row_status, loc, WordId(1), remap_cycle),
    ensures
        m.updated(row_status, loc, size, remap_cycle).total_cycle == m.updated(row_status, loc, WordId(1), remap_cycle).total_cycle
            + (size.0 - 1) + (ROW_OPEN_CYCLE as nat) * extra_walkers(WALKER_SIZE as nat, loc.row_id_word_id.word_id.0 as nat, size.0 as nat),
{
}

} // verus!
