//! Actions applied to every row-cycle model of a round: read the totals,
//! accumulate the slowest subarray, count an access.
use vstd::prelude::*;
use crate::row_cycle::{RowIdWordId, RowLocation, WordId, TOTAL_TYPES_COUNT};
use crate::jump::{AddableJumpCycle, JumpCycle, UpdatableJumpCycle};
use crate::jump::normal_jump_selective::NormalJumpCycleSelective;
use crate::remote_updator::{run_updates, selective_order, selective_scan, updates_ok};

verus! {

/// `m` is the last index of `s` with the largest total.
pub open spec fn is_last_max<T: JumpCycle>(s: Seq<T>, m: int) -> bool {
    &&& 0 <= m < s.len()
    &&& forall|i: int| 0 <= i < s.len() ==> (#[trigger] s[i]).total_spec() <= s[m].total_spec()
    &&& forall|i: int| m < i < s.len() ==> (#[trigger] s[i]).total_spec() < s[m].total_spec()
}

/// The last of the slowest models (the one `Iterator::max_by_key` picks).
pub fn slowest_index<T: JumpCycle>(source: &Vec<T>) -> (m: usize)
    requires
        source.len() > 0,
        forall|i: int| 0 <= i < source.len() ==> (#[trigger] source[i]).total_spec() <= usize::MAX,
    ensures
        is_last_max(source@, m as int),
{
    let mut m: usize = 0;
    let mut best = source[0].total();
    let mut i: usize = 1;
    while i < source.len()
        invariant
            0 <= m < i <= source.len(),
            best == source[m as int].total_spec(),
            forall|t: int| 0 <= t < source.len() ==> (#[trigger] source[t]).total_spec() <= usize::MAX,
            forall|t: int| 0 <= t < i ==> (#[trigger] source[t]).total_spec() <= source[m as int].total_spec(),
            forall|t: int| m < t < i ==> (#[trigger] source[t]).total_spec() < source[m as int].total_spec(),
        decreases source.len() - i,
    {
        let t = source[i].total();
        if t >= best {
            m = i;
            best = t;
        }
        i += 1;
    }
    m
}

/// Reads the total of every model, one after another.
pub struct TotalAction {
    pub index: usize,
    pub total: [usize; 24],
}

impl TotalAction {
    /// A total with every model at zero, starting at the first.
    pub fn new() -> (r: Self)
        ensures
            r.index == 0,
            forall|i: int| 0 <= i < 24 ==> r.total@[i] == 0,
    {
        TotalAction { index: 0, total: [0; 24] }
    }

    /// Records the total of the next model.
    pub fn apply<T: JumpCycle>(&mut self, item: &T)
        requires
            old(self).index < TOTAL_TYPES_COUNT,
            item.total_spec() <= usize::MAX,
        ensures
            final(self).index == old(self).index + 1,
            final(self).total@ == old(self).total@.update(old(self).index as int, item.total_spec() as usize),
    {
        let t = item.total();
        self.total.set(self.index, t);
        self.index += 1;
    }
}

/// Accumulates, model by model, the slowest subarray of a round.
pub struct ReduceAction {
    pub total_cycles: [usize; 24],
    pub index: usize,
}

impl ReduceAction {
    /// A reduction with every model at zero, starting at the first.
    pub fn new() -> (r: Self)
        ensures
            r.index == 0,
            forall|i: int| 0 <= i < 24 ==> r.total_cycles@[i] == 0,
    {
        ReduceAction { total_cycles: [0; 24], index: 0 }
    }

    /// Adds every counter of the slowest model of `source` (the last one of
    /// largest total) into `target` and records its total at the current
    /// index.
    pub fn apply_reduce<T: JumpCycle + AddableJumpCycle>(&mut self, source: &Vec<T>, target: &mut T)
        requires
            source.len() > 0,
            old(self).index < TOTAL_TYPES_COUNT,
            forall|i: int| 0 <= i < source.len() ==> (#[trigger] source[i]).total_spec() <= usize::MAX,
            forall|m: int| is_last_max(source@, m) ==> old(target).can_add(&source[m]),
        ensures
            exists|m: int| {
                &&& is_last_max(source@, m)
                &&& *final(target) == old(target).added(&source[m])
                &&& final(target).total_spec() == old(target).total_spec() + source[m].total_spec()
                &&& final(self).total_cycles@ == old(self).total_cycles@.update(old(self).index as int, source[m].total_spec() as usize)
            },
            final(self).index == old(self).index,
    {
        let m = slowest_index(source);
        target.add(&source[m]);
        let total = source[m].total();
        self.total_cycles.set(self.index, total);
    }
}

/// Adds every counter of the slowest model of a round (the last one of
/// largest total) into the running model; returns the slowest model's total.
pub fn update_jump_cycle<T: JumpCycle + AddableJumpCycle>(current_round_cycle: &Vec<T>, final_jump_cycle: &mut T) -> (r: usize)
    requires
        current_round_cycle.len() > 0,
        forall|i: int| 0 <= i < current_round_cycle.len() ==> (#[trigger] current_round_cycle[i]).total_spec() <= usize::MAX,
        forall|m: int| is_last_max(current_round_cycle@, m) ==> old(final_jump_cycle).can_add(&current_round_cycle[m]),
    ensures
        exists|m: int| {
            &&& is_last_max(current_round_cycle@, m)
            &&& r == current_round_cycle[m].total_spec()
            &&& *final(final_jump_cycle) == old(final_jump_cycle).added(&current_round_cycle[m])
            &&& final(final_jump_cycle).total_spec() == old(final_jump_cycle).total_spec() + r
        },
{
    let m = slowest_index(current_round_cycle);
    final_jump_cycle.add(&current_round_cycle[m]);
    current_round_cycle[m].total()
}

/// Counts one access in a model.
pub struct UpdateAction<'a> {
    pub row_status: &'a RowIdWordId,
    pub loc: &'a RowLocation,
    pub size: WordId,
    pub remap_cycle: usize,
}

impl<'a> UpdateAction<'a> {
    /// Applies the update to one model.
    pub fn apply_mut<T: UpdatableJumpCycle>(&mut self, item: &mut T)
        requires
            old(item).can_update(*old(self).row_status, *old(self).loc, old(self).size, old(self).remap_cycle),
        ensures
            *final(item) == old(item).updated(*old(self).row_status, *old(self).loc, old(self).size, old(self).remap_cycle),
    {
        item.update(self.row_status, self.loc, self.size, self.remap_cycle);
    }
}

/// Counts a batch of writes in a selective model.
pub struct UpdateBatchAction<'a> {
    pub row_status: &'a RowIdWordId,
    pub loc: &'a [RowLocation],
    pub size: WordId,
    pub remap_cycle: usize,
}

impl<'a> UpdateBatchAction<'a> {
    /// Applies the batch of updates to one selective model, in the
    /// selective order.
    pub fn apply_mut<const WALKER_SIZE: usize>(&mut self, item: &mut NormalJumpCycleSelective<WALKER_SIZE>)
        requires
            WALKER_SIZE >= 8,
            ((WALKER_SIZE / 8 - 1) as nat) * (WALKER_SIZE as nat) <= usize::MAX,
            forall|i: int| 0 <= i < old(self).loc@.len() ==> crate::jump::word_in_range(#[trigger] old(self).loc@[i].row_id_word_id.word_id),
            updates_ok(*old(item), *old(self).row_status, selective_order(WALKER_SIZE as nat, old(self).loc@), old(self).size, old(self).remap_cycle),
            old(item).extra_scan_cycles + selective_scan(WALKER_SIZE as nat, old(self).loc@) <= usize::MAX,
        ensures
            ({
                let r = run_updates(*old(item), *old(self).row_status, selective_order(WALKER_SIZE as nat, old(self).loc@), old(self).size, old(self).remap_cycle).0;
                *final(item) == NormalJumpCycleSelective::<WALKER_SIZE> {
                    extra_scan_cycles: (old(item).extra_scan_cycles + selective_scan(WALKER_SIZE as nat, old(self).loc@)) as usize,
                    ..r
                }
            }),
    {
        item.batch_update(self.row_status, self.loc, self.size, self.remap_cycle);
    }
}

} // verus!
