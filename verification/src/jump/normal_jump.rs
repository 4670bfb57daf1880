//! The plain model: the walker shifts word by word to the target, and a
//! row open can hide up to `ROW_OPEN_CYCLE` of those shifts.
use vstd::prelude::*;
use crate::row_cycle::{RowIdWordId, RowLocation, WordId};
use crate::jump::{
    access_ok, check_same_walker, max_nat, same_walker, shifts_for, abs_diff, word_distance,
    AddableJumpCycle, JumpCycle, UpdatableJumpCycle, ROW_OPEN_CYCLE,
};

verus! {

/// The plain jump model: the walker shifts from the open word straight to
/// the target word, seven words a shift.
#[derive(Debug, Clone, Copy)]
pub struct NormalJumpCycle<const WALKER_SIZE: usize> {
    pub jump_one_cycle: usize,
    pub jump_multiple_cycle: usize,
    // the statistics
    pub total_jumps_all: usize,
    pub total_jumps_covered_by_row_open: usize,
    pub jumps_not_covered_when_no_row_open: usize,
    pub jumps_not_covered_when_more_shift: usize,
}

/// Row-open cycles of the plain model: none when the target is in the open walker.
pub open spec fn normal_row_cycle(walker_size: nat, row_status: RowIdWordId, loc: RowLocation) -> nat {
    if same_walker(walker_size, row_status, loc.row_id_word_id) { 0 } else { ROW_OPEN_CYCLE as nat }
}

/// Shifts of the plain model: from the open word straight to the target word.
pub open spec fn normal_jumps(row_status: RowIdWordId, loc: RowLocation) -> nat {
    shifts_for(abs_diff(loc.row_id_word_id.word_id.0 as nat, row_status.word_id.0 as nat))
}

impl<const WALKER_SIZE: usize> NormalJumpCycle<WALKER_SIZE> {
    /// A model with every counter at zero.
    pub fn new() -> (r: Self)
        ensures
            r == Self::zero(),
    {
        NormalJumpCycle {
            jump_one_cycle: 0,
            jump_multiple_cycle: 0,
            total_jumps_all: 0,
            total_jumps_covered_by_row_open: 0,
            jumps_not_covered_when_no_row_open: 0,
            jumps_not_covered_when_more_shift: 0,
        }
    }

    /// The model with every counter at zero.
    pub open spec fn zero() -> Self {
        NormalJumpCycle {
            jump_one_cycle: 0,
            jump_multiple_cycle: 0,
            total_jumps_all: 0,
            total_jumps_covered_by_row_open: 0,
            jumps_not_covered_when_no_row_open: 0,
            jumps_not_covered_when_more_shift: 0,
        }
    }

    /// The counters after one access, as unbounded numbers:
    /// `(one, multiple, all, covered, not_covered_no_row, not_covered_more_shift)`.
    pub open spec fn next_counts(self, row_status: RowIdWordId, loc: RowLocation, size: WordId) -> (nat, nat, nat, nat, nat, nat) {
        let row_cycle = normal_row_cycle(WALKER_SIZE as nat, row_status, loc);
        let jumps = normal_jumps(row_status, loc);
        let step = max_nat(jumps, row_cycle);
        let covered = if jumps <= row_cycle { jumps } else if row_cycle == 0 { 0 } else { row_cycle };
        let no_row = if jumps > row_cycle && row_cycle == 0 { jumps } else { 0 };
        let more_shift = if jumps > row_cycle && row_cycle != 0 { (jumps - row_cycle) as nat } else { 0 };
        (
            self.jump_one_cycle as nat + (if jumps > 1 { 0 } else { step }) + size.0 as nat,
            self.jump_multiple_cycle as nat + (if jumps > 1 { step } else { 0 }),
            self.total_jumps_all as nat + jumps,
            self.total_jumps_covered_by_row_open as nat + covered,
            self.jumps_not_covered_when_no_row_open as nat + no_row,
            self.jumps_not_covered_when_more_shift as nat + more_shift,
        )
    }
}

impl<const WALKER_SIZE: usize> Default for NormalJumpCycle<WALKER_SIZE> {
    fn default() -> (r: Self)
        ensures
            r == Self::zero(),
    {
        Self::new()
    }
}

impl<const WALKER_SIZE: usize> UpdatableJumpCycle for NormalJumpCycle<WALKER_SIZE> {
    open spec fn can_update(&self, row_status: RowIdWordId, loc: RowLocation, size: WordId, remap_cycle: usize) -> bool {
        let c = self.next_counts(row_status, loc, size);
        &&& access_ok(WALKER_SIZE as nat, row_status, loc, size)
        &&& c.0 <= usize::MAX
        &&& c.1 <= usize::MAX
        &&& c.2 <= usize::MAX
        &&& c.3 <= usize::MAX
        &&& c.4 <= usize::MAX
        &&& c.5 <= usize::MAX
    }

    open spec fn updated(&self, row_status: RowIdWordId, loc: RowLocation, size: WordId, remap_cycle: usize) -> Self {
        let c = self.next_counts(row_status, loc, size);
        NormalJumpCycle {
            jump_one_cycle: c.0 as usize,
            jump_multiple_cycle: c.1 as usize,
            total_jumps_all: c.2 as usize,
            total_jumps_covered_by_row_open: c.3 as usize,
            jumps_not_covered_when_no_row_open: c.4 as usize,
            jumps_not_covered_when_more_shift: c.5 as usize,
        }
    }

    fn update(&mut self, evil_row_status: &RowIdWordId, location: &RowLocation, size: WordId, _remap_cycle: usize) {
        let row_cycle: usize = if check_same_walker::<WALKER_SIZE>(evil_row_status, &location.row_id_word_id) {
            0
        } else {
            ROW_OPEN_CYCLE
        };
        let jumps = word_distance(location.row_id_word_id.word_id.0, evil_row_status.word_id.0);
        let jumps = (jumps + 6) / 7;
        self.total_jumps_all += jumps;
        if jumps <= row_cycle {
            self.total_jumps_covered_by_row_open += jumps;
        } else {
            if row_cycle == 0 {
                self.jumps_not_covered_when_no_row_open += jumps;
            } else {
                self.jumps_not_covered_when_more_shift += jumps - row_cycle;
                self.total_jumps_covered_by_row_open += row_cycle;
            }
        }
        let step = if jumps >= row_cycle { jumps } else { row_cycle };
        if jumps > 1 {
            self.jump_multiple_cycle += step;
        } else {
            self.jump_one_cycle += step;
        }
        self.jump_one_cycle += size.0;
    }
}

impl<const WALKER_SIZE: usize> JumpCycle for NormalJumpCycle<WALKER_SIZE> {
    open spec fn total_spec(&self) -> nat {
        self.jump_multiple_cycle as nat + self.jump_one_cycle as nat
    }

    open spec fn one_jump_spec(&self) -> nat {
        self.jump_one_cycle as nat
    }

    open spec fn multi_jump_spec(&self) -> nat {
        self.jump_multiple_cycle as nat
    }

    fn total(&self) -> usize {
        self.jump_multiple_cycle + self.jump_one_cycle
    }

    fn get_one_jump(&self) -> usize {
        self.jump_one_cycle
    }

    fn get_multi_jump(&self) -> usize {
        self.jump_multiple_cycle
    }
}

impl<const WALKER_SIZE: usize> AddableJumpCycle for NormalJumpCycle<WALKER_SIZE> {
    open spec fn can_add(&self, other: &Self) -> bool {
        &&& self.jump_one_cycle + other.jump_one_cycle <= usize::MAX
        &&& self.jump_multiple_cycle + other.jump_multiple_cycle <= usize::MAX
        &&& self.total_jumps_all + other.total_jumps_all <= usize::MAX
        &&& self.total_jumps_covered_by_row_open + other.total_jumps_covered_by_row_open <= usize::MAX
        &&& self.jumps_not_covered_when_no_row_open + other.jumps_not_covered_when_no_row_open <= usize::MAX
        &&& self.jumps_not_covered_when_more_shift + other.jumps_not_covered_when_more_shift <= usize::MAX
    }

    open spec fn added(&self, other: &Self) -> Self {
        NormalJumpCycle::<WALKER_SIZE> {
            jump_one_cycle: (self.jump_one_cycle + other.jump_one_cycle) as usize,
            jump_multiple_cycle: (self.jump_multiple_cycle + other.jump_multiple_cycle) as usize,
            total_jumps_all: (self.total_jumps_all + other.total_jumps_all) as usize,
            total_jumps_covered_by_row_open: (self.total_jumps_covered_by_row_open + other.total_jumps_covered_by_row_open) as usize,
            jumps_not_covered_when_no_row_open: (self.jumps_not_covered_when_no_row_open + other.jumps_not_covered_when_no_row_open) as usize,
            jumps_not_covered_when_more_shift: (self.jumps_not_covered_when_more_shift + other.jumps_not_covered_when_more_shift) as usize
        }
    }

    fn add(&mut self, normal_jump_cycle: &NormalJumpCycle<WALKER_SIZE>) {
        self.jump_one_cycle += normal_jump_cycle.jump_one_cycle;
        self.jump_multiple_cycle += normal_jump_cycle.jump_multiple_cycle;
        self.total_jumps_all += normal_jump_cycle.total_jumps_all;
        self.total_jumps_covered_by_row_open += normal_jump_cycle.total_jumps_covered_by_row_open;
        self.jumps_not_covered_when_no_row_open += normal_jump_cycle.jumps_not_covered_when_no_row_open;
        self.jumps_not_covered_when_more_shift += normal_jump_cycle.jumps_not_covered_when_more_shift;
    }
}

/// One access keeps the jumps balanced: every jump counted is either
/// covered by a row open, or not covered with no row open, or not covered
/// for a longer shift. It adds its jumps to the count of all jumps, and the
/// larger of its jumps and its row-open cycles, plus its size, to the
/// cycles.
pub proof fn lemma_normal_jump_balance<const WALKER_SIZE: usize>(
    n: NormalJumpCycle<WALKER_SIZE>,
    row_status: RowIdWordId,
    loc: RowLocation,
    size: WordId,
)
    requires
        n.total_jumps_all == n.total_jumps_covered_by_row_open + n.jumps_not_covered_when_no_row_open
            + n.jumps_not_covered_when_more_shift,
    ensures
        ({
            let c = n.next_counts(row_status, loc, size);
            let jumps = normal_jumps(row_status, loc);
            let rc = normal_row_cycle(WALKER_SIZE as nat, row_status, loc);
            &&& c.2 == c.3 + c.4 + c.5
            &&& c.2 == n.total_jumps_all + jumps
            &&& c.0 + c.1 == n.jump_one_cycle + n.jump_multiple_cycle + max_nat(jumps, rc) + size.0
        }),
{
}

/// A shift moves the walker up to 7 words: the shifts that one access
/// counts are the fewest that cover the word distance from the open word
/// to the target, so a move of 7 words costs one shift and a move of 8 two;
/// the cycles grow by the streamed words plus the larger of the shifts and
/// the row open that leaving the open walker takes.
pub proof fn lemma_normal_jumps_cover_distance<const WALKER_SIZE: usize>(m: NormalJumpCycle<WALKER_SIZE>, row_status: RowIdWordId,
    loc: RowLocation, size: WordId, remap_cycle: usize)
    requires
        m.can_update(row_status, loc, size, remap_cycle),
    ensures
        ({
            let d = abs_diff(loc.row_id_word_id.word_id.0 as nat, row_status.word_id.0 as nat);
            let j = m.updated(row_status, loc, size, remap_cycle).total_jumps_all - m.total_jumps_all;
            let r: nat = if same_walker(WALKER_SIZE as nat, row_status, loc.row_id_word_id) { 0 } else { ROW_OPEN_CYCLE as nat };
            &&& d <= 7 * j
            &&& 7 * j < d + 7
            &&& m.updated(row_status, loc, size, remap_cycle).total_spec() == m.total_spec() + size.0 + (if j >= r { j } else { r as int })
        }),
{
    let d = abs_diff(loc.row_id_word_id.word_id.0 as nat, row_status.word_id.0 as nat);
    vstd::arithmetic::div_mod::lemma_fundamental_div_mod((d + 6) as int, 7);
}

} // verus!
