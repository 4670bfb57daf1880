//! Cost models that count the cycles a subarray spends to reach and stream
//! a run of words, given where its row buffer currently points.
use vstd::prelude::*;
use crate::row_cycle::{RowIdWordId, RowLocation, WordId};

verus! {

/// Cycles needed to open a new row.
pub const ROW_OPEN_CYCLE: usize = 18;

/// The largest word id for which `word * 4` fits in a `usize`.
pub open spec fn word_in_range(w: WordId) -> bool {
    w.0 * 4 <= usize::MAX
}

/// The walker (a `walker_size`-byte slice of a row) that holds word `word`.
pub open spec fn walker_of(walker_size: nat, word: nat) -> nat {
    (word * 4) / walker_size
}

/// Two positions are in the same row and in the same walker of that row.
pub open spec fn same_walker(walker_size: nat, source: RowIdWordId, target: RowIdWordId) -> bool {
    &&& source.row_id == target.row_id
    &&& walker_of(walker_size, source.word_id.0 as nat) == walker_of(walker_size, target.word_id.0 as nat)
}

/// The number of walkers beyond the first one that a run of `size` words
/// starting at word `start` touches.
pub open spec fn extra_walkers(walker_size: nat, start: nat, size: nat) -> nat {
    if size <= 1 {
        0
    } else {
        let words = walker_size / 4;
        (((start + size - 1) as nat) / words - start / words) as nat
    }
}

/// Whether `target` is in the same row and walker as `source`.
pub fn check_same_walker<const WALKER_SIZE: usize>(source: &RowIdWordId, target: &RowIdWordId) -> (r: bool)
    requires
        WALKER_SIZE > 0,
        word_in_range(source.word_id),
        word_in_range(target.word_id),
    ensures
        r == same_walker(WALKER_SIZE as nat, *source, *target),
{
    source.row_id == target.row_id
        && (source.word_id.0 * 4 / WALKER_SIZE == target.word_id.0 * 4 / WALKER_SIZE)
}

/// The number of walkers beyond the first one that a run of `size` words
/// starting at word `start_world_id` has to load.
pub fn get_num_extra_walkers_to_load<const WALKER_SIZE: usize>(start_world_id: WordId, size: WordId) -> (r: usize)
    requires
        WALKER_SIZE >= 4,
        start_world_id.0 + size.0 <= usize::MAX,
    ensures
        r == extra_walkers(WALKER_SIZE as nat, start_world_id.0 as nat, size.0 as nat),
{
    if size.0 == 0 || size.0 == 1 {
        return 0;
    }
    let end_world_id = start_world_id.0 + size.0 - 1;
    let start_partiton = start_world_id.0 / (WALKER_SIZE / 4);
    let end_partiton = end_world_id / (WALKER_SIZE / 4);
    proof {
        vstd::arithmetic::div_mod::lemma_div_is_ordered(
            start_world_id.0 as int,
            end_world_id as int,
            (WALKER_SIZE / 4) as int,
        );
    }
    end_partiton - start_partiton
}

/// The preconditions shared by every row-cycle model: the walker holds at
/// least one word and the word ids and run length are in range.
pub open spec fn access_ok(walker_size: nat, row_status: RowIdWordId, loc: RowLocation, size: WordId) -> bool {
    &&& walker_size >= 4
    &&& word_in_range(row_status.word_id)
    &&& word_in_range(loc.row_id_word_id.word_id)
    &&& loc.row_id_word_id.word_id.0 + size.0 <= usize::MAX
}

/// 1 when the access has to open a new row or walker first, else 0.
pub open spec fn first_row_miss(walker_size: nat, row_status: RowIdWordId, loc: RowLocation) -> nat {
    if same_walker(walker_size, row_status, loc.row_id_word_id) { 0 } else { 1 }
}

/// Returns `(first_row_miss, extra_walkers)`: whether reaching `loc` from
/// `row_status` misses the open row or walker, and how many more walkers a
/// run of `size` words from `loc` loads.
pub fn get_total_row_cycle<const WALKER_SIZE: usize>(
    row_status: &RowIdWordId,
    loc: &RowLocation,
    size: WordId,
) -> (r: (usize, usize))
    requires
        access_ok(WALKER_SIZE as nat, *row_status, *loc, size),
    ensures
        r.0 == first_row_miss(WALKER_SIZE as nat, *row_status, *loc),
        r.1 == extra_walkers(WALKER_SIZE as nat, loc.row_id_word_id.word_id.0 as nat, size.0 as nat),
{
    let first_row_miss = if check_same_walker::<WALKER_SIZE>(row_status, &loc.row_id_word_id) {
        0
    } else {
        1
    };
    let walkers_to_load = get_num_extra_walkers_to_load::<WALKER_SIZE>(
        loc.row_id_word_id.word_id,
        size,
    );
    (first_row_miss, walkers_to_load)
}

/// `|a - b|`.
pub open spec fn abs_diff(a: nat, b: nat) -> nat {
    if a >= b { (a - b) as nat } else { (b - a) as nat }
}

/// A shift moves the walker by up to 7 words: the shifts needed to move `n` words.
pub open spec fn shifts_for(n: nat) -> nat {
    (n + 6) / 7
}

/// The larger of `a` and `b`.
pub open spec fn max_nat(a: nat, b: nat) -> nat {
    if a >= b { a } else { b }
}

/// The smaller of `a` and `b`.
pub open spec fn min_nat(a: nat, b: nat) -> nat {
    if a <= b { a } else { b }
}

/// `|a - b|` on words whose ids are in range.
pub fn word_distance(a: usize, b: usize) -> (r: usize)
    ensures
        r == abs_diff(a as nat, b as nat),
{
    if a >= b { a - b } else { b - a }
}

/// A model that counts the total cycles of the accesses it is told about.
pub trait JumpCycle {
    /// The total cycles counted so far.
    spec fn total_spec(&self) -> nat;

    /// The cycles counted as single-word steps and streaming.
    spec fn one_jump_spec(&self) -> nat;

    /// The cycles counted as multi-word jumps.
    spec fn multi_jump_spec(&self) -> nat;

    fn total(&self) -> (r: usize)
        requires
            self.total_spec() <= usize::MAX,
        ensures
            r == self.total_spec();

    fn get_one_jump(&self) -> (r: usize)
        ensures
            r == self.one_jump_spec();

    fn get_multi_jump(&self) -> (r: usize)
        ensures
            r == self.multi_jump_spec();
}

/// A model that accumulates another model of the same kind into itself.
pub trait AddableJumpCycle: JumpCycle + Sized {
    /// Adding `other` overflows no counter.
    spec fn can_add(&self, other: &Self) -> bool;

    /// The model with the counters of `other` added to its own.
    spec fn added(&self, other: &Self) -> Self;

    /// Adds the counters of `other`: the model becomes `added`, and the
    /// total grows by `other`'s total.
    fn add(&mut self, other: &Self)
        requires
            old(self).can_add(other),
        ensures
            *final(self) == old(self).added(other),
            final(self).total_spec() == old(self).total_spec() + other.total_spec();
}

/// A model that is told about one access at a time.
pub trait UpdatableJumpCycle: Sized {
    /// The access is in range and no counter overflows.
    spec fn can_update(&self, row_status: RowIdWordId, loc: RowLocation, size: WordId, remap_cycle: usize) -> bool;

    /// The model after counting an access of `size` words at `loc`, with the
    /// row buffer at `row_status` and a remap computation of `remap_cycle` cycles.
    spec fn updated(&self, row_status: RowIdWordId, loc: RowLocation, size: WordId, remap_cycle: usize) -> Self;

    fn update(&mut self, row_status: &RowIdWordId, loc: &RowLocation, size: WordId, remap_cycle: usize)
        requires
            old(self).can_update(*row_status, *loc, size, remap_cycle),
        ensures
            *final(self) == old(self).updated(*row_status, *loc, size, remap_cycle);
}

} // verus!

pub mod normal_jump;
pub mod ideal_jump;
pub mod myjump;
pub mod myjump_only;
pub mod myjump_opt;
pub mod normal_jump_selective;
pub mod from_source;
