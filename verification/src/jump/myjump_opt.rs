//! The optimized remapping model: the remap computation overlaps the plain
//! shifts, and the model keeps row-hit and jump-distance statistics.
use vstd::prelude::*;
use crate::row_cycle::{RowIdWordId, RowLocation, WordId};
use crate::jump::{
    abs_diff, access_ok, extra_walkers, first_row_miss, get_num_extra_walkers_to_load,
    get_total_row_cycle, max_nat, min_nat, shifts_for, word_distance, AddableJumpCycle, JumpCycle,
    UpdatableJumpCycle, ROW_OPEN_CYCLE,
};
use crate::jump::myjump::{remap_distance, remap_times};

verus! {

/// the optimized jump cycle, the normal jump and the calculation is overlapped
#[derive(Debug, Clone, Copy)]
pub struct MyJumpOpt<const GAP: usize, const WALKER_SIZE: usize> {
    /// the cycle that jump to the target location
    pub multi_jump_cycle: usize,
    /// the cycle that perform stream data read(one jump)
    pub one_jump_cycle: usize,
    /// the row open cycle for the request
    pub row_cycle_total: usize,
    pub total_accesses: usize,
    pub row_hits: usize,
    pub row_misses: usize,
    // global row for all sequential accesses
    pub gloabl_row_accesses: usize,
    pub global_row_hits: usize,
    pub global_row_miss: usize,
    pub global_row_cycles: usize,
    /// histogram
    pub opt_saved_times: usize,
    pub opt_saved_cycles: usize,
    pub all_cycle_hist_0: usize,
    pub all_cycle_hist_1_2: usize,
    pub all_cycle_hist_3_4: usize,
    pub all_cycle_hist_5_8: usize,
    pub all_cycle_hist_9_and_more: usize,
}

/// The shifts of the optimized route: the remapped route (stop distance,
/// one step, and the remap computation) or the plain route, whichever is shorter.
pub open spec fn opt_min_jump(gap: nat, row_status: RowIdWordId, loc: RowLocation, remap_unit: nat) -> nat {
    let target = loc.row_id_word_id.word_id.0 as nat;
    shifts_for(min_nat(remap_distance(gap, target) + 1 + remap_unit, abs_diff(row_status.word_id.0 as nat, target)))
}

/// The jump cycles of the optimized model for one access.
pub open spec fn opt_jump_cost(gap: nat, walker_size: nat, row_status: RowIdWordId, loc: RowLocation, size: WordId, remap_unit: nat) -> nat {
    let first_row_cycle = first_row_miss(walker_size, row_status, loc) * (ROW_OPEN_CYCLE as nat);
    let remaining_cycle = extra_walkers(walker_size, loc.row_id_word_id.word_id.0 as nat, size.0 as nat) * (ROW_OPEN_CYCLE as nat);
    max_nat(opt_min_jump(gap, row_status, loc, remap_unit), first_row_cycle) + remaining_cycle
}

/// Whether the access counts as one the overlap saved (the shorter route's
/// shifts are fewer than the remapped route's words).
pub open spec fn opt_saved(gap: nat, row_status: RowIdWordId, loc: RowLocation, remap_unit: nat) -> bool {
    opt_min_jump(gap, row_status, loc, remap_unit) < remap_distance(gap, loc.row_id_word_id.word_id.0 as nat) + 1 + remap_unit
}

/// `1` when `b` holds, else `0`.
pub open spec fn one_if(b: bool) -> nat {
    if b { 1 } else { 0 }
}

impl<const GAP: usize, const WALKER_SIZE: usize> MyJumpOpt<GAP, WALKER_SIZE> {
    /// The model with every counter at zero.
    pub open spec fn zero() -> Self {
        MyJumpOpt {
            multi_jump_cycle: 0,
            one_jump_cycle: 0,
            row_cycle_total: 0,
            total_accesses: 0,
            row_hits: 0,
            row_misses: 0,
            gloabl_row_accesses: 0,
            global_row_hits: 0,
            global_row_miss: 0,
            global_row_cycles: 0,
            opt_saved_times: 0,
            opt_saved_cycles: 0,
            all_cycle_hist_0: 0,
            all_cycle_hist_1_2: 0,
            all_cycle_hist_3_4: 0,
            all_cycle_hist_5_8: 0,
            all_cycle_hist_9_and_more: 0,
        }
    }

    pub fn new() -> (r: Self)
        ensures
            r == Self::zero(),
    {
        MyJumpOpt {
            multi_jump_cycle: 0,
            one_jump_cycle: 0,
            row_cycle_total: 0,
            total_accesses: 0,
            row_hits: 0,
            row_misses: 0,
            gloabl_row_accesses: 0,
            global_row_hits: 0,
            global_row_miss: 0,
            global_row_cycles: 0,
            opt_saved_times: 0,
            opt_saved_cycles: 0,
            all_cycle_hist_0: 0,
            all_cycle_hist_1_2: 0,
            all_cycle_hist_3_4: 0,
            all_cycle_hist_5_8: 0,
            all_cycle_hist_9_and_more: 0,
        }
    }

    /// Every counter stays in range after one access.
    pub open spec fn fits(self, row_status: RowIdWordId, loc: RowLocation, size: WordId, remap_unit: nat) -> bool {
        let miss = row_status.row_id != loc.row_id_word_id.row_id;
        let extra = extra_walkers(WALKER_SIZE as nat, loc.row_id_word_id.word_id.0 as nat, size.0 as nat);
        let normal = abs_diff(row_status.word_id.0 as nat, loc.row_id_word_id.word_id.0 as nat);
        &&& self.multi_jump_cycle + opt_jump_cost(GAP as nat, WALKER_SIZE as nat, row_status, loc, size, remap_unit) <= usize::MAX
        &&& self.one_jump_cycle + size.0 <= usize::MAX
        &&& self.row_cycle_total + one_if(miss) * (ROW_OPEN_CYCLE as nat) <= usize::MAX
        &&& self.total_accesses + 1 <= usize::MAX
        &&& self.row_hits + one_if(!miss) <= usize::MAX
        &&& self.row_misses + one_if(miss) <= usize::MAX
        &&& self.gloabl_row_accesses + 1 + extra <= usize::MAX
        &&& self.global_row_hits + one_if(!miss) <= usize::MAX
        &&& self.global_row_miss + one_if(miss) + extra <= usize::MAX
        &&& self.global_row_cycles + (one_if(miss) + extra) * (ROW_OPEN_CYCLE as nat) <= usize::MAX
        &&& self.opt_saved_times + one_if(opt_saved(GAP as nat, row_status, loc, remap_unit)) <= usize::MAX
        &&& self.all_cycle_hist_0 + one_if(normal == 0) <= usize::MAX
        &&& self.all_cycle_hist_1_2 + one_if(1 <= normal <= 2) <= usize::MAX
        &&& self.all_cycle_hist_3_4 + one_if(3 <= normal <= 4) <= usize::MAX
        &&& self.all_cycle_hist_5_8 + one_if(5 <= normal <= 8) <= usize::MAX
        &&& self.all_cycle_hist_9_and_more + one_if(normal >= 9) <= usize::MAX
    }
}

impl<const GAP: usize, const WALKER_SIZE: usize> Default for MyJumpOpt<GAP, WALKER_SIZE> {
    fn default() -> (r: Self)
        ensures
            r == Self::zero(),
    {
        Self::new()
    }
}

impl<const GAP: usize, const WALKER_SIZE: usize> UpdatableJumpCycle for MyJumpOpt<GAP, WALKER_SIZE> {
    open spec fn can_update(&self, row_status: RowIdWordId, loc: RowLocation, size: WordId, remap_cycle: usize) -> bool {
        &&& GAP > 0
        &&& access_ok(WALKER_SIZE as nat, row_status, loc, size)
        &&& remap_distance(GAP as nat, loc.row_id_word_id.word_id.0 as nat) + 1 + remap_cycle <= usize::MAX
        &&& self.fits(row_status, loc, size, remap_cycle as nat)
    }

    open spec fn updated(&self, row_status: RowIdWordId, loc: RowLocation, size: WordId, remap_cycle: usize) -> Self {
        let miss = row_status.row_id != loc.row_id_word_id.row_id;
        let extra = extra_walkers(WALKER_SIZE as nat, loc.row_id_word_id.word_id.0 as nat, size.0 as nat);
        let normal = abs_diff(row_status.word_id.0 as nat, loc.row_id_word_id.word_id.0 as nat);
        MyJumpOpt {
            multi_jump_cycle: (self.multi_jump_cycle + opt_jump_cost(GAP as nat, WALKER_SIZE as nat, row_status, loc, size, remap_cycle as nat)) as usize,
            one_jump_cycle: (self.one_jump_cycle + size.0) as usize,
            row_cycle_total: (self.row_cycle_total + one_if(miss) * (ROW_OPEN_CYCLE as nat)) as usize,
            total_accesses: (self.total_accesses + 1) as usize,
            row_hits: (self.row_hits + one_if(!miss)) as usize,
            row_misses: (self.row_misses + one_if(miss)) as usize,
            gloabl_row_accesses: (self.gloabl_row_accesses + 1 + extra) as usize,
            global_row_hits: (self.global_row_hits + one_if(!miss)) as usize,
            global_row_miss: (self.global_row_miss + one_if(miss) + extra) as usize,
            global_row_cycles: (self.global_row_cycles + (one_if(miss) + extra) * (ROW_OPEN_CYCLE as nat)) as usize,
            opt_saved_times: (self.opt_saved_times + one_if(opt_saved(GAP as nat, row_status, loc, remap_cycle as nat))) as usize,
            opt_saved_cycles: self.opt_saved_cycles,
            all_cycle_hist_0: (self.all_cycle_hist_0 + one_if(normal == 0)) as usize,
            all_cycle_hist_1_2: (self.all_cycle_hist_1_2 + one_if(1 <= normal <= 2)) as usize,
            all_cycle_hist_3_4: (self.all_cycle_hist_3_4 + one_if(3 <= normal <= 4)) as usize,
            all_cycle_hist_5_8: (self.all_cycle_hist_5_8 + one_if(5 <= normal <= 8)) as usize,
            all_cycle_hist_9_and_more: (self.all_cycle_hist_9_and_more + one_if(normal >= 9)) as usize,
        }
    }

    fn update(&mut self, row_status: &RowIdWordId, loc: &RowLocation, size: WordId, remap_unit: usize) {
        let gap = GAP;
        self.total_accesses += 1;
        self.gloabl_row_accesses += 1;
        if row_status.row_id != loc.row_id_word_id.row_id {
            self.row_misses += 1;
            self.global_row_miss += 1;
            self.row_cycle_total += ROW_OPEN_CYCLE;
            self.global_row_cycles += ROW_OPEN_CYCLE;
        } else {
            self.row_hits += 1;
            self.global_row_hits += 1;
        }
        let (first_row, remaining_row) = get_total_row_cycle::<WALKER_SIZE>(row_status, loc, size);
        let first_row_cycle = first_row * ROW_OPEN_CYCLE;
        let remaining_row_cycle = remaining_row * ROW_OPEN_CYCLE;
        let extra_walkers_to_read = get_num_extra_walkers_to_load::<WALKER_SIZE>(loc.row_id_word_id.word_id, size);
        self.gloabl_row_accesses += extra_walkers_to_read;
        self.global_row_miss += extra_walkers_to_read;
        self.global_row_cycles += extra_walkers_to_read * ROW_OPEN_CYCLE;

        let re_map_times = remap_times(gap, loc.row_id_word_id.word_id.0);
        let normal_cycle = word_distance(row_status.word_id.0, loc.row_id_word_id.word_id.0);
        let remap_route = re_map_times + 1 + remap_unit;
        let min_jump_cycle = if remap_route <= normal_cycle { remap_route } else { normal_cycle };
        let min_jump_cycle = (min_jump_cycle + 6) / 7;
        let min_jump_and_row_cycle = if min_jump_cycle >= first_row_cycle { min_jump_cycle } else { first_row_cycle };
        self.multi_jump_cycle += min_jump_and_row_cycle + remaining_row_cycle;
        self.one_jump_cycle += size.0;

        if min_jump_cycle < remap_route {
            self.opt_saved_times += 1;
            let new_min_jump_and_row_cycle = if min_jump_cycle >= first_row_cycle { min_jump_cycle } else { first_row_cycle };
            let saved_cycle = new_min_jump_and_row_cycle - min_jump_and_row_cycle;
            self.opt_saved_cycles += saved_cycle;
        }
        if normal_cycle == 0 {
            self.all_cycle_hist_0 += 1;
        } else if normal_cycle <= 2 {
            self.all_cycle_hist_1_2 += 1;
        } else if normal_cycle <= 4 {
            self.all_cycle_hist_3_4 += 1;
        } else if normal_cycle <= 8 {
            self.all_cycle_hist_5_8 += 1;
        } else {
            self.all_cycle_hist_9_and_more += 1;
        }
    }
}

impl<const GAP: usize, const WALKER_SIZE: usize> JumpCycle for MyJumpOpt<GAP, WALKER_SIZE> {
    open spec fn total_spec(&self) -> nat {
        self.multi_jump_cycle as nat + self.one_jump_cycle as nat
    }

    open spec fn one_jump_spec(&self) -> nat {
        self.one_jump_cycle as nat
    }

    open spec fn multi_jump_spec(&self) -> nat {
        self.multi_jump_cycle as nat
    }

    fn total(&self) -> usize {
        self.multi_jump_cycle + self.one_jump_cycle
    }

    fn get_one_jump(&self) -> usize {
        self.one_jump_cycle
    }

    fn get_multi_jump(&self) -> usize {
        self.multi_jump_cycle
    }
}

impl<const GAP: usize, const WALKER_SIZE: usize> AddableJumpCycle for MyJumpOpt<GAP, WALKER_SIZE> {
    open spec fn can_add(&self, other: &Self) -> bool {
        &&& self.multi_jump_cycle + other.multi_jump_cycle <= usize::MAX
        &&& self.one_jump_cycle + other.one_jump_cycle <= usize::MAX
        &&& self.opt_saved_times + other.opt_saved_times <= usize::MAX
        &&& self.opt_saved_cycles + other.opt_saved_cycles <= usize::MAX
        &&& self.all_cycle_hist_0 + other.all_cycle_hist_0 <= usize::MAX
        &&& self.all_cycle_hist_1_2 + other.all_cycle_hist_1_2 <= usize::MAX
        &&& self.all_cycle_hist_3_4 + other.all_cycle_hist_3_4 <= usize::MAX
        &&& self.all_cycle_hist_5_8 + other.all_cycle_hist_5_8 <= usize::MAX
        &&& self.all_cycle_hist_9_and_more + other.all_cycle_hist_9_and_more <= usize::MAX
    }

    /// Adds the jump cycles and the histograms; the row-hit counters of
    /// `other` are not added.
    open spec fn added(&self, other: &Self) -> Self {
        MyJumpOpt::<GAP, WALKER_SIZE> {
            multi_jump_cycle: (self.multi_jump_cycle + other.multi_jump_cycle) as usize,
            one_jump_cycle: (self.one_jump_cycle + other.one_jump_cycle) as usize,
            opt_saved_times: (self.opt_saved_times + other.opt_saved_times) as usize,
            opt_saved_cycles: (self.opt_saved_cycles + other.opt_saved_cycles) as usize,
            all_cycle_hist_0: (self.all_cycle_hist_0 + other.all_cycle_hist_0) as usize,
            all_cycle_hist_1_2: (self.all_cycle_hist_1_2 + other.all_cycle_hist_1_2) as usize,
            all_cycle_hist_3_4: (self.all_cycle_hist_3_4 + other.all_cycle_hist_3_4) as usize,
            all_cycle_hist_5_8: (self.all_cycle_hist_5_8 + other.all_cycle_hist_5_8) as usize,
            all_cycle_hist_9_and_more: (self.all_cycle_hist_9_and_more + other.all_cycle_hist_9_and_more) as usize,
            ..*self
        }
    }

    fn add(&mut self, other: &Self) {
        self.multi_jump_cycle += other.multi_jump_cycle;
        self.one_jump_cycle += other.one_jump_cycle;
        self.opt_saved_times += other.opt_saved_times;
        self.opt_saved_cycles += other.opt_saved_cycles;
        self.all_cycle_hist_0 += other.all_cycle_hist_0;
        self.all_cycle_hist_1_2 += other.all_cycle_hist_1_2;
        self.all_cycle_hist_3_4 += other.all_cycle_hist_3_4;
        self.all_cycle_hist_5_8 += other.all_cycle_hist_5_8;
        self.all_cycle_hist_9_and_more += other.all_cycle_hist_9_and_more;
    }
}

} // verus!
