//! The from-source model: every access walks from the start of its row to
//! its word, and streams 4 cycles per word.
use vstd::prelude::*;
use crate::row_cycle::{RowIdWordId, RowLocation, WordId};
use crate::jump::{max_nat, AddableJumpCycle, JumpCycle, UpdatableJumpCycle, ROW_OPEN_CYCLE};

verus! {

/// The from-source jump model: the walker walks to the target word from
/// the start of the row.
#[derive(Debug, Clone, Copy)]
pub struct FromSourceJumpCycle {
    pub jump_one_cycle: usize,
    pub jump_multiple_cycle: usize,
}

/// The walk of the from-source model: to the word from the row start,
/// hidden by a row open when the row changes.
pub open spec fn from_source_walk(row_status: RowIdWordId, loc: RowLocation) -> nat {
    let row_cycle: nat = if loc.row_id_word_id.row_id == row_status.row_id { 0 } else { ROW_OPEN_CYCLE as nat };
    max_nat(loc.row_id_word_id.word_id.0 as nat + 1, row_cycle)
}

impl FromSourceJumpCycle {
    /// A model with its counters at zero.
    pub fn new() -> (r: Self)
        ensures
            r.jump_one_cycle == 0,
            r.jump_multiple_cycle == 0,
    {
        FromSourceJumpCycle { jump_one_cycle: 0, jump_multiple_cycle: 0 }
    }
}

impl Default for FromSourceJumpCycle {
    fn default() -> (r: Self)
        ensures
            r.jump_one_cycle == 0,
            r.jump_multiple_cycle == 0,
    {
        Self::new()
    }
}

impl UpdatableJumpCycle for FromSourceJumpCycle {
    open spec fn can_update(&self, row_status: RowIdWordId, loc: RowLocation, size: WordId, remap_cycle: usize) -> bool {
        let multi = loc.row_id_word_id.word_id.0 > 4;
        &&& loc.row_id_word_id.word_id.0 < usize::MAX
        &&& size.0 * 4 <= usize::MAX
        &&& multi ==> self.jump_multiple_cycle + from_source_walk(row_status, loc) <= usize::MAX
        &&& multi ==> self.jump_one_cycle + size.0 * 4 <= usize::MAX
        &&& !multi ==> self.jump_one_cycle + from_source_walk(row_status, loc) + size.0 * 4 <= usize::MAX
    }

    open spec fn updated(&self, row_status: RowIdWordId, loc: RowLocation, size: WordId, remap_cycle: usize) -> Self {
        let walk = from_source_walk(row_status, loc);
        if loc.row_id_word_id.word_id.0 > 4 {
            FromSourceJumpCycle {
                jump_multiple_cycle: (self.jump_multiple_cycle + walk) as usize,
                jump_one_cycle: (self.jump_one_cycle + size.0 * 4) as usize,
            }
        } else {
            FromSourceJumpCycle {
                jump_multiple_cycle: self.jump_multiple_cycle,
                jump_one_cycle: (self.jump_one_cycle + walk + size.0 * 4) as usize,
            }
        }
    }

    fn update(&mut self, row_status: &RowIdWordId, location: &RowLocation, size: WordId, _remap_cycle: usize) {
        let row_cycle: usize = if location.row_id_word_id.row_id == row_status.row_id { 0 } else { ROW_OPEN_CYCLE };
        let walk = location.row_id_word_id.word_id.0 + 1;
        let walk = if walk >= row_cycle { walk } else { row_cycle };
        if location.row_id_word_id.word_id.0 > 4 {
            self.jump_multiple_cycle += walk;
        } else {
            self.jump_one_cycle += walk;
        }
        self.jump_one_cycle += size.0 * 4;
    }
}

impl JumpCycle for FromSourceJumpCycle {
    open spec fn total_spec(&self) -> nat {
        self.jump_one_cycle as nat + self.jump_multiple_cycle as nat
    }

    open spec fn one_jump_spec(&self) -> nat {
        self.jump_one_cycle as nat
    }

    open spec fn multi_jump_spec(&self) -> nat {
        self.jump_multiple_cycle as nat
    }

    fn total(&self) -> usize {
        self.jump_one_cycle + self.jump_multiple_cycle
    }

    fn get_one_jump(&self) -> usize {
        self.jump_one_cycle
    }

    fn get_multi_jump(&self) -> usize {
        self.jump_multiple_cycle
    }
}

impl AddableJumpCycle for FromSourceJumpCycle {
    open spec fn can_add(&self, other: &Self) -> bool {
        &&& self.jump_one_cycle + other.jump_one_cycle <= usize::MAX
        &&& self.jump_multiple_cycle + other.jump_multiple_cycle <= usize::MAX
    }

    open spec fn added(&self, other: &Self) -> Self {
        FromSourceJumpCycle {
            jump_one_cycle: (self.jump_one_cycle + other.jump_one_cycle) as usize,
            jump_multiple_cycle: (self.jump_multiple_cycle + other.jump_multiple_cycle) as usize
        }
    }

    fn add(&mut self, from_source_jump_cycle: &FromSourceJumpCycle) {
        self.jump_one_cycle += from_source_jump_cycle.jump_one_cycle;
        self.jump_multiple_cycle += from_source_jump_cycle.jump_multiple_cycle;
    }
}

/// A model that splits its cycles into single and multiple jumps.
#[derive(Debug, Clone, Copy)]
pub struct SmartJumpCycle {
    pub jump_one_cycle: usize,
    pub jump_multiple_cycle: usize,
}

impl SmartJumpCycle {
    /// A model with its counters at zero.
    pub fn new() -> (r: Self)
        ensures
            r.jump_one_cycle == 0,
            r.jump_multiple_cycle == 0,
    {
        SmartJumpCycle { jump_one_cycle: 0, jump_multiple_cycle: 0 }
    }
}

impl JumpCycle for SmartJumpCycle {
    open spec fn total_spec(&self) -> nat {
        self.jump_multiple_cycle as nat + self.jump_one_cycle as nat
    }

    open spec fn one_jump_spec(&self) -> nat {
        self.jump_one_cycle as nat
    }

    open spec fn multi_jump_spec(&self) -> nat {
        self.jump_multiple_cycle as nat
    }

    fn total(&self) -> usize {
        self.jump_multiple_cycle + self.jump_one_cycle
    }

    fn get_one_jump(&self) -> usize {
        self.jump_one_cycle
    }

    fn get_multi_jump(&self) -> usize {
        self.jump_multiple_cycle
    }
}

impl AddableJumpCycle for SmartJumpCycle {
    open spec fn can_add(&self, other: &Self) -> bool {
        &&& self.jump_one_cycle + other.jump_one_cycle <= usize::MAX
        &&& self.jump_multiple_cycle + other.jump_multiple_cycle <= usize::MAX
    }

    open spec fn added(&self, other: &Self) -> Self {
        SmartJumpCycle {
            jump_one_cycle: (self.jump_one_cycle + other.jump_one_cycle) as usize,
            jump_multiple_cycle: (self.jump_multiple_cycle + other.jump_multiple_cycle) as usize
        }
    }

    fn add(&mut self, smart_jump_cycle: &SmartJumpCycle) {
        self.jump_one_cycle += smart_jump_cycle.jump_one_cycle;
        self.jump_multiple_cycle += smart_jump_cycle.jump_multiple_cycle;
    }
}

/// Streaming costs 4 cycles per word on top of the walk: one more word in
/// the run adds exactly 4 one-jump cycles and leaves the walk as it is.
pub proof fn lemma_from_source_streams(m: FromSourceJumpCycle, row_status: RowIdWordId, loc: RowLocation, size: usize,
    remap_cycle: usize)
    requires
        size < usize::MAX,
        m.can_update(row_status, loc, WordId((size + 1) as usize), remap_cycle),
    ensures
        m.can_update(row_status, loc, WordId(size), remap_cycle),
        m.updated(row_status, loc, WordId((size + 1) as usize), remap_cycle).jump_one_cycle
            == m.updated(row_status, loc, WordId(size), remap_cycle).jump_one_cycle + 4,
        m.updated(row_status, loc, WordId((size + 1) as usize), remap_cycle).jump_multiple_cycle
            == m.updated(row_status, loc, WordId(size), remap_cycle).jump_multiple_cycle,
        m.updated(row_status, loc, WordId(size), remap_cycle).total_spec() >= m.total_spec() + 4 * size,
{
}

/// The walk goes from the start of the row to the word, one cycle a word
/// and the word itself, and takes at least a row open when the row changes;
/// a walk past word 4 counts as a multi-word jump.
pub proof fn lemma_from_source_walk(m: FromSourceJumpCycle, row_status: RowIdWordId, loc: RowLocation, remap_cycle: usize)
    requires
        m.can_update(row_status, loc, WordId(0), remap_cycle),
    ensures
        ({
            let t = m.updated(row_status, loc, WordId(0), remap_cycle);
            let w = t.total_spec() - m.total_spec();
            let word = loc.row_id_word_id.word_id.0 as nat;
            let changes = loc.row_id_word_id.row_id != row_status.row_id;
            &&& w >= word + 1
            &&& changes ==> w >= ROW_OPEN_CYCLE
            &&& w == word + 1 || (changes && w == ROW_OPEN_CYCLE)
            &&& word > 4 ==> t.jump_one_cycle == m.jump_one_cycle
            &&& word <= 4 ==> t.jump_multiple_cycle == m.jump_multiple_cycle
        }),
{
}

} // verus!
