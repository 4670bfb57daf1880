//! The remapping model: stops every `GAP` words let the walker land near
//! the target, and it takes the cheaper of the remapped and the plain route.
use vstd::prelude::*;
use crate::row_cycle::{RowIdWordId, RowLocation, WordId};
use crate::jump::{
    abs_diff, access_ok, extra_walkers, first_row_miss, same_walker, get_total_row_cycle, max_nat, min_nat,
    shifts_for, word_distance, AddableJumpCycle, JumpCycle, UpdatableJumpCycle, ROW_OPEN_CYCLE,
};

verus! {

/// The remapping jump model with a gap of `GAP` words.
#[derive(Debug, Clone, Copy)]
pub struct MyJumpCycle<const GAP: usize, const WALKER_SIZE: usize> {
    /// the cycle to calculate the remap location(0xgap or 1xgap...)
    pub calculate_remap_cycle: usize,
    /// the cycle that jump to the target location
    pub multi_jump_cycle: usize,
    /// the cycle that perform stream data read(one jump)
    pub one_jump_cycle: usize,
}

/// The distance from word `w` to the nearest stop, stops lying every `gap` words.
pub open spec fn remap_distance(gap: nat, w: nat) -> nat {
    min_nat(w % gap, (gap - w % gap) as nat)
}

/// The jump cycles of the remapping model for one access.
pub open spec fn my_jump_cost(gap: nat, walker_size: nat, row_status: RowIdWordId, loc: RowLocation, size: WordId) -> nat {
    let target = loc.row_id_word_id.word_id.0 as nat;
    let first_row_cycle = first_row_miss(walker_size, row_status, loc) * (ROW_OPEN_CYCLE as nat);
    let remaining_cycle = extra_walkers(walker_size, target, size.0 as nat) * (ROW_OPEN_CYCLE as nat);
    let normal = abs_diff(row_status.word_id.0 as nat, target);
    let min_jump = shifts_for(min_nat(remap_distance(gap, target) + 1, normal));
    max_nat(min_jump, first_row_cycle) + remaining_cycle
}

/// `min(w % gap, gap - w % gap)` computed on `usize`.
pub fn remap_times(gap: usize, w: usize) -> (r: usize)
    requires
        gap > 0,
    ensures
        r == remap_distance(gap as nat, w as nat),
{
    let m = w % gap;
    let other = gap - m;
    if m <= other { m } else { other }
}

impl<const GAP: usize, const WALKER_SIZE: usize> MyJumpCycle<GAP, WALKER_SIZE> {
    /// A model with its counters at zero.
    pub fn new() -> (r: Self)
        ensures
            r.calculate_remap_cycle == 0,
            r.multi_jump_cycle == 0,
            r.one_jump_cycle == 0,
    {
        MyJumpCycle { calculate_remap_cycle: 0, multi_jump_cycle: 0, one_jump_cycle: 0 }
    }
}

impl<const GAP: usize, const WALKER_SIZE: usize> Default for MyJumpCycle<GAP, WALKER_SIZE> {
    fn default() -> (r: Self)
        ensures
            r.calculate_remap_cycle == 0,
            r.multi_jump_cycle == 0,
            r.one_jump_cycle == 0,
    {
        Self::new()
    }
}

impl<const GAP: usize, const WALKER_SIZE: usize> UpdatableJumpCycle for MyJumpCycle<GAP, WALKER_SIZE> {
    open spec fn can_update(&self, row_status: RowIdWordId, loc: RowLocation, size: WordId, remap_cycle: usize) -> bool {
        &&& GAP > 0
        &&& access_ok(WALKER_SIZE as nat, row_status, loc, size)
        &&& self.calculate_remap_cycle + remap_cycle <= usize::MAX
        &&& self.multi_jump_cycle + my_jump_cost(GAP as nat, WALKER_SIZE as nat, row_status, loc, size) <= usize::MAX
        &&& self.one_jump_cycle + size.0 <= usize::MAX
    }

    open spec fn updated(&self, row_status: RowIdWordId, loc: RowLocation, size: WordId, remap_cycle: usize) -> Self {
        MyJumpCycle {
            calculate_remap_cycle: (self.calculate_remap_cycle + remap_cycle) as usize,
            multi_jump_cycle: (self.multi_jump_cycle + my_jump_cost(GAP as nat, WALKER_SIZE as nat, row_status, loc, size)) as usize,
            one_jump_cycle: (self.one_jump_cycle + size.0) as usize,
        }
    }

    fn update(&mut self, row_status: &RowIdWordId, loc: &RowLocation, size: WordId, remap_unit: usize) {
        let gap = GAP;
        let (first_row, remaining_row) = get_total_row_cycle::<WALKER_SIZE>(row_status, loc, size);
        let first_row_cycle = first_row * ROW_OPEN_CYCLE;
        let remaining_row_cycle = remaining_row * ROW_OPEN_CYCLE;
        self.calculate_remap_cycle += remap_unit;
        let re_map_times = remap_times(gap, loc.row_id_word_id.word_id.0);
        let normal_cycle = word_distance(row_status.word_id.0, loc.row_id_word_id.word_id.0);
        let candidate = re_map_times + 1;
        let min_jump_cycle = if candidate <= normal_cycle { candidate } else { normal_cycle };
        let min_jump_cycle = (min_jump_cycle + 6) / 7;
        let min_jump_and_row_cycle = if min_jump_cycle >= first_row_cycle { min_jump_cycle } else { first_row_cycle };
        self.multi_jump_cycle += min_jump_and_row_cycle + remaining_row_cycle;
        self.one_jump_cycle += size.0;
    }
}

impl<const GAP: usize, const WALKER_SIZE: usize> JumpCycle for MyJumpCycle<GAP, WALKER_SIZE> {
    open spec fn total_spec(&self) -> nat {
        self.calculate_remap_cycle as nat + self.multi_jump_cycle as nat + self.one_jump_cycle as nat
    }

    open spec fn one_jump_spec(&self) -> nat {
        self.one_jump_cycle as nat
    }

    open spec fn multi_jump_spec(&self) -> nat {
        self.multi_jump_cycle as nat
    }

    fn total(&self) -> usize {
        self.calculate_remap_cycle + self.multi_jump_cycle + self.one_jump_cycle
    }

    fn get_one_jump(&self) -> usize {
        self.one_jump_cycle
    }

    fn get_multi_jump(&self) -> usize {
        self.multi_jump_cycle
    }
}

impl<const GAP: usize, const WALKER_SIZE: usize> AddableJumpCycle for MyJumpCycle<GAP, WALKER_SIZE> {
    open spec fn can_add(&self, other: &Self) -> bool {
        &&& self.calculate_remap_cycle + other.calculate_remap_cycle <= usize::MAX
        &&& self.multi_jump_cycle + other.multi_jump_cycle <= usize::MAX
        &&& self.one_jump_cycle + other.one_jump_cycle <= usize::MAX
    }

    open spec fn added(&self, other: &Self) -> Self {
        MyJumpCycle::<GAP, WALKER_SIZE> {
            calculate_remap_cycle: (self.calculate_remap_cycle + other.calculate_remap_cycle) as usize,
            multi_jump_cycle: (self.multi_jump_cycle + other.multi_jump_cycle) as usize,
            one_jump_cycle: (self.one_jump_cycle + other.one_jump_cycle) as usize
        }
    }

    fn add(&mut self, other: &Self) {
        self.calculate_remap_cycle += other.calculate_remap_cycle;
        self.multi_jump_cycle += other.multi_jump_cycle;
        self.one_jump_cycle += other.one_jump_cycle;
    }
}

/// A run loads one walker after the first for every further walker its
/// words reach, each costing a row open: the jump cycles of a run of `size`
/// words are those of its first word alone plus `ROW_OPEN_CYCLE` per extra
/// walker.
pub proof fn lemma_my_jump_run_cost<const GAP: usize, const WALKER_SIZE: usize>(m: MyJumpCycle<GAP, WALKER_SIZE>,
    row_status: RowIdWordId, loc: RowLocation, size: WordId, remap_cycle: usize)
    requires
        m.can_update(row_status, loc, size, remap_cycle),
        m.can_update(row_status, loc, WordId(1), remap_cycle),
    ensures
        m.updated(row_status, loc, size, remap_cycle).multi_jump_cycle
            == m.updated(row_status, loc, WordId(1), remap_cycle).multi_jump_cycle
            + (ROW_OPEN_CYCLE as nat) * extra_walkers(WALKER_SIZE as nat, loc.row_id_word_id.word_id.0 as nat, size.0 as nat),
        m.updated(row_status, loc, size, remap_cycle).one_jump_cycle == m.one_jump_cycle + size.0,
{
}

/// Reaching one word costs a row open when it lies outside the open walker;
/// inside it, the walker takes the shorter of the plain route and the one
/// through the nearest stop, seven words a shift.
pub proof fn lemma_my_jump_reach<const GAP: usize, const WALKER_SIZE: usize>(m: MyJumpCycle<GAP, WALKER_SIZE>,
    row_status: RowIdWordId, loc: RowLocation, remap_cycle: usize)
    requires
        m.can_update(row_status, loc, WordId(1), remap_cycle),
    ensures
        ({
            let c = m.updated(row_status, loc, WordId(1), remap_cycle).multi_jump_cycle - m.multi_jump_cycle;
            let d = abs_diff(row_status.word_id.0 as nat, loc.row_id_word_id.word_id.0 as nat);
            let w = loc.row_id_word_id.word_id.0 as nat;
            &&& !same_walker(WALKER_SIZE as nat, row_status, loc.row_id_word_id) ==> c >= ROW_OPEN_CYCLE
            &&& same_walker(WALKER_SIZE as nat, row_status, loc.row_id_word_id) ==> 7 * c < d + 7 && 7 * c < w % (GAP as nat) + 8
        }),
{
    let d = abs_diff(row_status.word_id.0 as nat, loc.row_id_word_id.word_id.0 as nat);
    let w = loc.row_id_word_id.word_id.0 as nat;
    let x = min_nat(remap_distance(GAP as nat, w) + 1, d);
    vstd::arithmetic::div_mod::lemma_fundamental_div_mod((x + 6) as int, 7);
}

} // verus!
