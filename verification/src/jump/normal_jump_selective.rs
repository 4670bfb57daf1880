//! The plain model measured inside a walker, whose batches are reordered
//! walker by walker before they are counted.
use vstd::prelude::*;
use crate::row_cycle::{RowIdWordId, RowLocation, WordId};
use crate::remote_updator::{run_updates, selective_order, selective_scan, updates_ok, SelectiveUpdator};
use crate::jump::{
    word_in_range, abs_diff, access_ok, extra_walkers, first_row_miss, get_total_row_cycle, max_nat, shifts_for,
    word_distance, AddableJumpCycle, JumpCycle, UpdatableJumpCycle, ROW_OPEN_CYCLE,
};

verus! {

/// The plain jump model whose walker picks the order of a batch of
/// accesses.
#[derive(Debug, Clone, Copy)]
pub struct NormalJumpCycleSelective<const WALKER_SIZE: usize> {
    pub jump_one_cycle: usize,
    pub jump_multiple_cycle: usize,
    // the statistics
    pub total_jumps_all: usize,
    pub total_jumps_covered_by_row_open: usize,
    pub jumps_not_covered_when_no_row_open: usize,
    pub jumps_not_covered_when_more_shift: usize,
    pub extra_scan_cycles: usize,
}

/// Shifts inside the walker from the open word to the target word.
pub open spec fn selective_jumps(walker_size: nat, row_status: RowIdWordId, loc: RowLocation) -> nat {
    let words = walker_size / 4;
    shifts_for(abs_diff((loc.row_id_word_id.word_id.0 as nat) % words, (row_status.word_id.0 as nat) % words))
}

impl<const WALKER_SIZE: usize> NormalJumpCycleSelective<WALKER_SIZE> {
    pub open spec fn zero() -> Self {
        NormalJumpCycleSelective {
            jump_one_cycle: 0,
            jump_multiple_cycle: 0,
            total_jumps_all: 0,
            total_jumps_covered_by_row_open: 0,
            jumps_not_covered_when_no_row_open: 0,
            jumps_not_covered_when_more_shift: 0,
            extra_scan_cycles: 0,
        }
    }

    /// A model with every counter at zero.
    pub fn new() -> (r: Self)
        ensures
            r == Self::zero(),
    {
        NormalJumpCycleSelective {
            jump_one_cycle: 0,
            jump_multiple_cycle: 0,
            total_jumps_all: 0,
            total_jumps_covered_by_row_open: 0,
            jumps_not_covered_when_no_row_open: 0,
            jumps_not_covered_when_more_shift: 0,
            extra_scan_cycles: 0,
        }
    }

    /// The counters after one access, as unbounded numbers:
    /// `(one, multiple, all, covered, not_covered_no_row, not_covered_more_shift)`.
    pub open spec fn next_counts(self, row_status: RowIdWordId, loc: RowLocation, size: WordId) -> (nat, nat, nat, nat, nat, nat) {
        let first_row = first_row_miss(WALKER_SIZE as nat, row_status, loc);
        let first_row_cycle = first_row * (ROW_OPEN_CYCLE as nat);
        let remaining_cycle = extra_walkers(WALKER_SIZE as nat, loc.row_id_word_id.word_id.0 as nat, size.0 as nat) * (ROW_OPEN_CYCLE as nat);
        let jumps = selective_jumps(WALKER_SIZE as nat, row_status, loc);
        let step = max_nat(jumps, first_row_cycle) + remaining_cycle;
        let covered = if jumps <= first_row_cycle { jumps } else if first_row == 0 { 0 } else { first_row_cycle };
        let no_row = if jumps > first_row_cycle && first_row == 0 { jumps } else { 0 };
        let more_shift = if jumps > first_row_cycle && first_row != 0 { (jumps - first_row_cycle) as nat } else { 0 };
        (
            self.jump_one_cycle as nat + (if jumps > 1 { 0 } else { step }) + size.0 as nat,
            self.jump_multiple_cycle as nat + (if jumps > 1 { step } else { 0 }),
            self.total_jumps_all as nat + jumps,
            self.total_jumps_covered_by_row_open as nat + covered,
            self.jumps_not_covered_when_no_row_open as nat + no_row,
            self.jumps_not_covered_when_more_shift as nat + more_shift,
        )
    }
}

impl<const WALKER_SIZE: usize> NormalJumpCycleSelective<WALKER_SIZE> {
    /// Counts a batch of writes in the selective order and adds the scan
    /// cycles that the reordering costs.
    pub fn batch_update(&mut self, row_status: &RowIdWordId, loc: &[RowLocation], size: WordId, remap_cycle: usize)
        requires
            WALKER_SIZE >= 8,
            ((WALKER_SIZE / 8 - 1) as nat) * (WALKER_SIZE as nat) <= usize::MAX,
            forall|i: int| 0 <= i < loc@.len() ==> word_in_range(#[trigger] loc@[i].row_id_word_id.word_id),
            updates_ok(*old(self), *row_status, selective_order(WALKER_SIZE as nat, loc@), size, remap_cycle),
            old(self).extra_scan_cycles + selective_scan(WALKER_SIZE as nat, loc@) <= usize::MAX,
        ensures
            ({
                let r = run_updates(*old(self), *row_status, selective_order(WALKER_SIZE as nat, loc@), size, remap_cycle).0;
                *final(self) == NormalJumpCycleSelective::<WALKER_SIZE> {
                    extra_scan_cycles: (old(self).extra_scan_cycles + selective_scan(WALKER_SIZE as nat, loc@)) as usize,
                    ..r
                }
            }),
    {
        let ghost s0 = *self;
        let ghost ord = selective_order(WALKER_SIZE as nat, loc@);
        let data = vstd::slice::slice_to_vec(loc);
        let mut selective_updator = SelectiveUpdator::<WALKER_SIZE, Self>::new(self, *row_status, size, remap_cycle);
        selective_updator.update(data);
        let extra_cycle = selective_updator.extra_scan_cycles;
        proof {
            lemma_run_updates_keeps_scan(s0, *row_status, ord, size, remap_cycle);
        }
        self.extra_scan_cycles += extra_cycle;
    }
}

/// Counting accesses leaves the scan cycles as they were.
pub proof fn lemma_run_updates_keeps_scan<const WALKER_SIZE: usize>(
    t: NormalJumpCycleSelective<WALKER_SIZE>,
    status: RowIdWordId,
    s: Seq<RowLocation>,
    size: WordId,
    remap_cycle: usize,
)
    ensures
        run_updates(t, status, s, size, remap_cycle).0.extra_scan_cycles == t.extra_scan_cycles,
    decreases s.len(),
{
    if s.len() > 0 {
        lemma_run_updates_keeps_scan(t, status, s.drop_last(), size, remap_cycle);
    }
}

impl<const WALKER_SIZE: usize> Default for NormalJumpCycleSelective<WALKER_SIZE> {
    fn default() -> (r: Self)
        ensures
            r == Self::zero(),
    {
        Self::new()
    }
}

impl<const WALKER_SIZE: usize> UpdatableJumpCycle for NormalJumpCycleSelective<WALKER_SIZE> {
    open spec fn can_update(&self, row_status: RowIdWordId, loc: RowLocation, size: WordId, remap_cycle: usize) -> bool {
        let c = self.next_counts(row_status, loc, size);
        &&& access_ok(WALKER_SIZE as nat, row_status, loc, size)
        &&& c.0 <= usize::MAX
        &&& c.1 <= usize::MAX
        &&& c.2 <= usize::MAX
        &&& c.3 <= usize::MAX
        &&& c.4 <= usize::MAX
        &&& c.5 <= usize::MAX
    }

    open spec fn updated(&self, row_status: RowIdWordId, loc: RowLocation, size: WordId, remap_cycle: usize) -> Self {
        let c = self.next_counts(row_status, loc, size);
        NormalJumpCycleSelective {
            jump_one_cycle: c.0 as usize,
            jump_multiple_cycle: c.1 as usize,
            total_jumps_all: c.2 as usize,
            total_jumps_covered_by_row_open: c.3 as usize,
            jumps_not_covered_when_no_row_open: c.4 as usize,
            jumps_not_covered_when_more_shift: c.5 as usize,
            extra_scan_cycles: self.extra_scan_cycles,
        }
    }

    fn update(&mut self, row_status: &RowIdWordId, location: &RowLocation, size: WordId, _remap_cycle: usize) {
        let words_per_waler = WALKER_SIZE / 4;
        let real_loc_word_id = location.row_id_word_id.word_id.0 % words_per_waler;
        let real_row_status_word_id = row_status.word_id.0 % words_per_waler;
        let (first_row, remaining_row) = get_total_row_cycle::<WALKER_SIZE>(row_status, location, size);
        let first_row_cycle = first_row * ROW_OPEN_CYCLE;
        let remaining_row_cycle = remaining_row * ROW_OPEN_CYCLE;
        let jumps = word_distance(real_loc_word_id, real_row_status_word_id);
        let jumps = (jumps + 6) / 7;
        self.total_jumps_all += jumps;
        if jumps <= first_row_cycle {
            self.total_jumps_covered_by_row_open += jumps;
        } else {
            if first_row == 0 {
                self.jumps_not_covered_when_no_row_open += jumps;
            } else {
                self.jumps_not_covered_when_more_shift += jumps - first_row_cycle;
                self.total_jumps_covered_by_row_open += first_row_cycle;
            }
        }
        let step = if jumps >= first_row_cycle { jumps } else { first_row_cycle };
        if jumps > 1 {
            self.jump_multiple_cycle += step + remaining_row_cycle;
        } else {
            self.jump_one_cycle += step + remaining_row_cycle;
        }
        self.jump_one_cycle += size.0;
    }
}

impl<const WALKER_SIZE: usize> JumpCycle for NormalJumpCycleSelective<WALKER_SIZE> {
    open spec fn total_spec(&self) -> nat {
        self.jump_multiple_cycle as nat + self.jump_one_cycle as nat + self.extra_scan_cycles as nat
    }

    open spec fn one_jump_spec(&self) -> nat {
        self.jump_one_cycle as nat
    }

    open spec fn multi_jump_spec(&self) -> nat {
        self.jump_multiple_cycle as nat
    }

    fn total(&self) -> usize {
        self.jump_multiple_cycle + self.jump_one_cycle + self.extra_scan_cycles
    }

    fn get_one_jump(&self) -> usize {
        self.jump_one_cycle
    }

    fn get_multi_jump(&self) -> usize {
        self.jump_multiple_cycle
    }
}

impl<const WALKER_SIZE: usize> AddableJumpCycle for NormalJumpCycleSelective<WALKER_SIZE> {
    open spec fn can_add(&self, other: &Self) -> bool {
        &&& self.jump_one_cycle + other.jump_one_cycle <= usize::MAX
        &&& self.jump_multiple_cycle + other.jump_multiple_cycle <= usize::MAX
        &&& self.extra_scan_cycles + other.extra_scan_cycles <= usize::MAX
        &&& self.total_jumps_all + other.total_jumps_all <= usize::MAX
        &&& self.total_jumps_covered_by_row_open + other.total_jumps_covered_by_row_open <= usize::MAX
        &&& self.jumps_not_covered_when_no_row_open + other.jumps_not_covered_when_no_row_open <= usize::MAX
        &&& self.jumps_not_covered_when_more_shift + other.jumps_not_covered_when_more_shift <= usize::MAX
    }

    open spec fn added(&self, other: &Self) -> Self {
        NormalJumpCycleSelective::<WALKER_SIZE> {
            jump_one_cycle: (self.jump_one_cycle + other.jump_one_cycle) as usize,
            jump_multiple_cycle: (self.jump_multiple_cycle + other.jump_multiple_cycle) as usize,
            extra_scan_cycles: (self.extra_scan_cycles + other.extra_scan_cycles) as usize,
            total_jumps_all: (self.total_jumps_all + other.total_jumps_all) as usize,
            total_jumps_covered_by_row_open: (self.total_jumps_covered_by_row_open + other.total_jumps_covered_by_row_open) as usize,
            jumps_not_covered_when_no_row_open: (self.jumps_not_covered_when_no_row_open + other.jumps_not_covered_when_no_row_open) as usize,
            jumps_not_covered_when_more_shift: (self.jumps_not_covered_when_more_shift + other.jumps_not_covered_when_more_shift) as usize
        }
    }

    fn add(&mut self, normal_jump_cycle: &NormalJumpCycleSelective<WALKER_SIZE>) {
        self.jump_one_cycle += normal_jump_cycle.jump_one_cycle;
        self.jump_multiple_cycle += normal_jump_cycle.jump_multiple_cycle;
        self.extra_scan_cycles += normal_jump_cycle.extra_scan_cycles;
        self.total_jumps_all += normal_jump_cycle.total_jumps_all;
        self.total_jumps_covered_by_row_open += normal_jump_cycle.total_jumps_covered_by_row_open;
        self.jumps_not_covered_when_no_row_open += normal_jump_cycle.jumps_not_covered_when_no_row_open;
        self.jumps_not_covered_when_more_shift += normal_jump_cycle.jumps_not_covered_when_more_shift;
    }
}

} // verus!
