//! The remapping model without comparing against the plain route: the
//! walker always jumps to the nearest stop and then one step to the target.
use vstd::prelude::*;
use crate::row_cycle::{RowIdWordId, RowLocation, WordId};
use crate::jump::{
    access_ok, extra_walkers, first_row_miss, get_total_row_cycle, max_nat, shifts_for,
    AddableJumpCycle, JumpCycle, UpdatableJumpCycle, ROW_OPEN_CYCLE,
};
use crate::jump::myjump::{remap_distance, remap_times};

verus! {

/// only jump, not compare and shifting
#[derive(Debug, Clone, Copy)]
pub struct MyJumpOnly<const GAP: usize, const WALKER_SIZE: usize> {
    /// the cycle to calculate the remap location(0xgap or 1xgap...)
    pub calculate_remap_cycle: usize,
    /// the cycle that jump to the target location
    pub multi_jump_cycle: usize,
    /// the cycle that perform stream data read(one jump)
    pub one_jump_cycle: usize,
}

/// The jump cycles of the jump-only model for one access.
pub open spec fn jump_only_cost(gap: nat, walker_size: nat, row_status: RowIdWordId, loc: RowLocation, size: WordId) -> nat {
    let target = loc.row_id_word_id.word_id.0 as nat;
    let real_loc = target % (walker_size / 4);
    let first_row_cycle = first_row_miss(walker_size, row_status, loc) * (ROW_OPEN_CYCLE as nat);
    let remaining_cycle = extra_walkers(walker_size, target, size.0 as nat) * (ROW_OPEN_CYCLE as nat);
    let remap_cycles = shifts_for(remap_distance(gap, real_loc)) + 1;
    max_nat(remap_cycles, first_row_cycle) + remaining_cycle
}

impl<const GAP: usize, const WALKER_SIZE: usize> MyJumpOnly<GAP, WALKER_SIZE> {
    /// A model with its counters at zero.
    pub fn new() -> (r: Self)
        ensures
            r.calculate_remap_cycle == 0,
            r.multi_jump_cycle == 0,
            r.one_jump_cycle == 0,
    {
        MyJumpOnly { calculate_remap_cycle: 0, multi_jump_cycle: 0, one_jump_cycle: 0 }
    }
}

impl<const GAP: usize, const WALKER_SIZE: usize> Default for MyJumpOnly<GAP, WALKER_SIZE> {
    fn default() -> (r: Self)
        ensures
            r.calculate_remap_cycle == 0,
            r.multi_jump_cycle == 0,
            r.one_jump_cycle == 0,
    {
        Self::new()
    }
}

impl<const GAP: usize, const WALKER_SIZE: usize> UpdatableJumpCycle for MyJumpOnly<GAP, WALKER_SIZE> {
    open spec fn can_update(&self, row_status: RowIdWordId, loc: RowLocation, size: WordId, remap_cycle: usize) -> bool {
        &&& GAP > 0
        &&& access_ok(WALKER_SIZE as nat, row_status, loc, size)
        &&& self.calculate_remap_cycle + remap_cycle <= usize::MAX
        &&& self.multi_jump_cycle + jump_only_cost(GAP as nat, WALKER_SIZE as nat, row_status, loc, size) <= usize::MAX
        &&& self.one_jump_cycle + size.0 <= usize::MAX
    }

    open spec fn updated(&self, row_status: RowIdWordId, loc: RowLocation, size: WordId, remap_cycle: usize) -> Self {
        MyJumpOnly {
            calculate_remap_cycle: (self.calculate_remap_cycle + remap_cycle) as usize,
            multi_jump_cycle: (self.multi_jump_cycle + jump_only_cost(GAP as nat, WALKER_SIZE as nat, row_status, loc, size)) as usize,
            one_jump_cycle: (self.one_jump_cycle + size.0) as usize,
        }
    }

    fn update(&mut self, row_status: &RowIdWordId, loc: &RowLocation, size: WordId, remap_unit: usize) {
        let gap = GAP;
        let words_per_waler = WALKER_SIZE / 4;
        let real_loc_word_id = loc.row_id_word_id.word_id.0 % words_per_waler;
        let (first_row, remaining_row) = get_total_row_cycle::<WALKER_SIZE>(row_status, loc, size);
        let first_row_cycle = first_row * ROW_OPEN_CYCLE;
        let remaining_row_cycle = remaining_row * ROW_OPEN_CYCLE;
        self.calculate_remap_cycle += remap_unit;
        let re_map_times = remap_times(gap, real_loc_word_id);
        let remap_cycles = (re_map_times + 6) / 7 + 1;
        let min_jump_and_row_cycle = if remap_cycles >= first_row_cycle { remap_cycles } else { first_row_cycle };
        self.multi_jump_cycle += min_jump_and_row_cycle + remaining_row_cycle;
        self.one_jump_cycle += size.0;
    }
}

impl<const GAP: usize, const WALKER_SIZE: usize> JumpCycle for MyJumpOnly<GAP, WALKER_SIZE> {
    open spec fn total_spec(&self) -> nat {
        self.calculate_remap_cycle as nat + self.multi_jump_cycle as nat + self.one_jump_cycle as nat
    }

    open spec fn one_jump_spec(&self) -> nat {
        self.one_jump_cycle as nat
    }

    open spec fn multi_jump_spec(&self) -> nat {
        self.multi_jump_cycle as nat
    }

    fn total(&self) -> usize {
        self.calculate_remap_cycle + self.multi_jump_cycle + self.one_jump_cycle
    }

    fn get_one_jump(&self) -> usize {
        self.one_jump_cycle
    }

    fn get_multi_jump(&self) -> usize {
        self.multi_jump_cycle
    }
}

impl<const GAP: usize, const WALKER_SIZE: usize> AddableJumpCycle for MyJumpOnly<GAP, WALKER_SIZE> {
    open spec fn can_add(&self, other: &Self) -> bool {
        &&& self.calculate_remap_cycle + other.calculate_remap_cycle <= usize::MAX
        &&& self.multi_jump_cycle + other.multi_jump_cycle <= usize::MAX
        &&& self.one_jump_cycle + other.one_jump_cycle <= usize::MAX
    }

    open spec fn added(&self, other: &Self) -> Self {
        MyJumpOnly::<GAP, WALKER_SIZE> {
            calculate_remap_cycle: (self.calculate_remap_cycle + other.calculate_remap_cycle) as usize,
            multi_jump_cycle: (self.multi_jump_cycle + other.multi_jump_cycle) as usize,
            one_jump_cycle: (self.one_jump_cycle + other.one_jump_cycle) as usize
        }
    }

    fn add(&mut self, other: &Self) {
        self.calculate_remap_cycle += other.calculate_remap_cycle;
        self.multi_jump_cycle += other.multi_jump_cycle;
        self.one_jump_cycle += other.one_jump_cycle;
    }
}

/// Every further walker a run reaches costs a row open: the jump cycles of
/// a run of `size` words are those of its first word alone plus
/// `ROW_OPEN_CYCLE` per extra walker.
pub proof fn lemma_jump_only_run_cost<const GAP: usize, const WALKER_SIZE: usize>(m: MyJumpOnly<GAP, WALKER_SIZE>,
    row_status: RowIdWordId, loc: RowLocation, size: WordId, remap_cycle: usize)
    requires
        m.can_update(row_status, loc, size, remap_cycle),
        m.can_update(row_status, loc, WordId(1), remap_cycle),
    ensures
        m.updated(row_status, loc, size, remap_cycle).multi_jump_cycle
            == m.updated(row_status, loc, WordId(1), remap_cycle).multi_jump_cycle
            + (ROW_OPEN_CYCLE as nat) * extra_walkers(WALKER_SIZE as nat, loc.row_id_word_id.word_id.0 as nat, size.0 as nat),
{
}

} // verus!
