//! The subarray of the refined gearbox model: a write that hits the open
//! row costs the distance the column pointer moves along the row, instead
//! of a fixed cycle.
use vstd::prelude::*;
use crate::gearbox_rounds::{bump, bump_field, read_step};
use crate::results::SubArrayResult;
use crate::row_cycle::PhysicRowId;

verus! {

/// The distance between columns `a` and `b`.
pub open spec fn col_distance(a: usize, b: usize) -> int {
    if a > b { a - b } else { b - a }
}

/// The cost of opening row `row` for writing when `open` (a row and a
/// column) is open: a precharge and an activation (19), or an activation
/// with nothing open (9).
pub open spec fn write_open_cost(open: Option<(usize, usize)>) -> int {
    match open {
        Some(_) => 19,
        None => 9,
    }
}

/// A write of column `col` of row `row`: on the open row it costs the
/// column distance, at `hit` and in the total at `total`; otherwise the
/// open costs at `open_at` and in the total.
pub open spec fn col_write_step(f: Seq<int>, open: Option<(usize, usize)>, row: usize, col: usize,
    open_at: int, hit: int, total: int) -> Seq<int> {
    match open {
        Some((r, c)) if r == row => bump(bump(f, hit, col_distance(c, col)), total, col_distance(c, col)),
        _ => bump(bump(f, open_at, write_open_cost(open)), total, write_open_cost(open)),
    }
}

/// A subarray as plain values: the rows open for reading, for writing and
/// for remote writing (with their columns), the counters of the round and
/// the totals of the rounds before.
pub type RefinedState = (Option<usize>, Option<(usize, usize)>, Option<(usize, usize)>, Seq<int>, Seq<int>);

/// A local product: a read of `read` and a write of column `col` of
/// `write`, counted with the evil counters for an evil row.
pub open spec fn add_task_col_spec(s: RefinedState, read: usize, write: usize, evil: bool, col: usize) -> RefinedState {
    let (open_at, read_at, write_at) = if evil { (5int, 6int, 7int) } else { (1int, 2int, 3int) };
    let f1 = read_step(s.3, s.0, read, open_at, read_at);
    let f2 = col_write_step(f1, s.1, write, col, open_at, write_at, 0);
    (Some(read), Some((write, col)), s.2, f2, s.4)
}

/// The read of a row whose product goes to another subarray.
pub open spec fn add_remote_read_spec(s: RefinedState, read: usize) -> RefinedState {
    (Some(read), s.1, s.2, read_step(s.3, s.0, read, 8, 8), s.4)
}

/// The write of column `col` of `write` for a product from another
/// subarray, counted apart in the remote counters.
pub open spec fn add_remote_col_spec(s: RefinedState, write: usize, col: usize) -> RefinedState {
    (s.0, s.1, Some((write, col)), col_write_step(s.3, s.2, write, col, 9, 9, 10), s.4)
}

/// Every counter of `f` fits a word.
pub open spec fn counters_fit(f: Seq<int>) -> bool {
    forall|i: int| 0 <= i < 11 ==> #[trigger] f[i] <= usize::MAX
}

/// The subarray of the refined model.
#[derive(Clone)]
pub struct SubArray {
    pub read_open: Option<usize>,
    pub write_open: Option<(usize, usize)>,
    pub remote_write: Option<(usize, usize)>,
    pub sub_array_result: SubArrayResult,
    pub final_subarry_result: SubArrayResult,
}

/// Two bumps by `d`, at `a` then at `b`, whose result fits: each step fits.
proof fn lemma_two_bumps_fit(f: Seq<int>, a: int, b: int, d: int)
    requires
        f.len() == 11,
        0 <= a < 11,
        0 <= b < 11,
        a != b,
        d >= 0,
        counters_fit(bump(bump(f, a, d), b, d)),
    ensures
        f[a] + d <= usize::MAX,
        bump(f, a, d)[b] + d <= usize::MAX,
{
    let h = bump(bump(f, a, d), b, d);
    assert(h[a] <= usize::MAX);
    assert(h[b] <= usize::MAX);
}

proof fn lemma_bump_grows(f: Seq<int>, i: int, d: int)
    requires
        f.len() == 11,
        0 <= i < 11,
        d >= 0,
    ensures
        bump(f, i, d).len() == 11,
        forall|j: int| 0 <= j < 11 ==> f[j] <= #[trigger] bump(f, i, d)[j],
{
}

impl SubArray {
    /// The subarray as plain values.
    pub open spec fn state(&self) -> RefinedState {
        (self.read_open, self.write_open, self.remote_write,
            SubArrayResult::fields(self.sub_array_result), SubArrayResult::fields(self.final_subarry_result))
    }

    /// A subarray with nothing open and every counter zero.
    pub fn new() -> (r: Self)
        ensures
            r.state() == (None::<usize>, None::<(usize, usize)>, None::<(usize, usize)>,
                Seq::new(11, |_i: int| 0int), Seq::new(11, |_i: int| 0int)),
    {
        let r = SubArray {
            read_open: None,
            write_open: None,
            remote_write: None,
            sub_array_result: SubArrayResult::default(),
            final_subarry_result: SubArrayResult::default(),
        };
        assert(SubArrayResult::fields(r.sub_array_result) =~= Seq::new(11, |_i: int| 0int));
        assert(SubArrayResult::fields(r.final_subarry_result) =~= Seq::new(11, |_i: int| 0int));
        r
    }

    /// Counts a read of `row`: a hit counts one cycle at `hit`, a miss opens
    /// the row at `open_at`; both count in the total.
    fn count_read(&mut self, row: usize, open_at: usize, hit: usize)
        requires
            open_at < 11,
            hit < 11,
            open_at != 0,
            hit != 0,
            counters_fit(read_step(old(self).state().3, old(self).read_open, row, open_at as int, hit as int)),
        ensures
            final(self).state() == (Some(row), old(self).write_open, old(self).remote_write,
                read_step(old(self).state().3, old(self).read_open, row, open_at as int, hit as int), old(self).state().4),
    {
        let ghost f = self.state().3;
        match self.read_open {
            Some(last) if last == row => {
                proof {
                    lemma_two_bumps_fit(f, hit as int, 0, 1);
                }
                bump_field(&mut self.sub_array_result, hit, 1);
                bump_field(&mut self.sub_array_result, 0, 1);
            },
            Some(_) => {
                proof {
                    lemma_two_bumps_fit(f, open_at as int, 0, 19);
                }
                bump_field(&mut self.sub_array_result, open_at, 19);
                bump_field(&mut self.sub_array_result, 0, 19);
            },
            None => {
                proof {
                    lemma_two_bumps_fit(f, open_at as int, 0, 9);
                }
                bump_field(&mut self.sub_array_result, open_at, 9);
                bump_field(&mut self.sub_array_result, 0, 9);
            },
        }
        self.read_open = Some(row);
    }

    /// Counts a write of column `col` of `row` against `open`, returns what
    /// is open afterwards.
    fn count_write(r: &mut SubArrayResult, open: Option<(usize, usize)>, row: usize, col: usize,
        open_at: usize, hit: usize, total: usize)
        requires
            open_at < 11,
            hit < 11,
            total < 11,
            open_at != total,
            hit != total,
            counters_fit(col_write_step(SubArrayResult::fields(*old(r)), open, row, col, open_at as int, hit as int, total as int)),
        ensures
            SubArrayResult::fields(*final(r))
                == col_write_step(SubArrayResult::fields(*old(r)), open, row, col, open_at as int, hit as int, total as int),
    {
        let ghost f = SubArrayResult::fields(*r);
        match open {
            Some((last_row, last_col)) if last_row == row => {
                let d = if last_col > col { last_col - col } else { col - last_col };
                proof {
                    lemma_two_bumps_fit(f, hit as int, total as int, d as int);
                }
                bump_field(r, hit, d);
                bump_field(r, total, d);
            },
            Some(_) => {
                proof {
                    lemma_two_bumps_fit(f, open_at as int, total as int, 19);
                }
                bump_field(r, open_at, 19);
                bump_field(r, total, 19);
            },
            None => {
                proof {
                    lemma_two_bumps_fit(f, open_at as int, total as int, 9);
                }
                bump_field(r, open_at, 9);
                bump_field(r, total, 9);
            },
        }
    }

    /// A local read and write task (local accumulate), counted with the evil
    /// counters when the row is evil; a write on the open row costs the
    /// distance the column pointer moves.
    pub fn add_task(&mut self, local_read: PhysicRowId, local_write: PhysicRowId, evil: bool, col_id: usize)
        requires
            counters_fit(add_task_col_spec(old(self).state(), local_read.0, local_write.0, evil, col_id).3),
        ensures
            final(self).state() == add_task_col_spec(old(self).state(), local_read.0, local_write.0, evil, col_id),
    {
        let ghost s = self.state();
        let (open_at, read_at, write_at): (usize, usize, usize) = if evil { (5, 6, 7) } else { (1, 2, 3) };
        let ghost f1 = read_step(s.3, s.0, local_read.0, open_at as int, read_at as int);
        proof {
            let f2 = col_write_step(f1, s.1, local_write.0, col_id, open_at as int, write_at as int, 0);
            assert(f1.len() == 11) by {
                if s.0 == Some(local_read.0) {
                    lemma_bump_grows(s.3, read_at as int, 1);
                    lemma_bump_grows(bump(s.3, read_at as int, 1), 0, 1);
                } else {
                    let c = crate::gearbox_rounds::open_cost(s.0, local_read.0);
                    lemma_bump_grows(s.3, open_at as int, c);
                    lemma_bump_grows(bump(s.3, open_at as int, c), 0, c);
                }
            }
            match s.1 {
                Some((r, c)) => {
                    if r == local_write.0 {
                        let d = col_distance(c, col_id);
                        lemma_bump_grows(f1, write_at as int, d);
                        lemma_bump_grows(bump(f1, write_at as int, d), 0, d);
                    } else {
                        lemma_bump_grows(f1, open_at as int, 19);
                        lemma_bump_grows(bump(f1, open_at as int, 19), 0, 19);
                    }
                },
                None => {
                    lemma_bump_grows(f1, open_at as int, 9);
                    lemma_bump_grows(bump(f1, open_at as int, 9), 0, 9);
                },
            }
            assert forall|i: int| 0 <= i < 11 implies #[trigger] f1[i] <= usize::MAX by {
                assert(f1[i] <= f2[i]);
            }
        }
        self.count_read(local_read.0, open_at, read_at);
        let open = self.write_open;
        Self::count_write(&mut self.sub_array_result, open, local_write.0, col_id, open_at, write_at, 0);
        self.write_open = Some((local_write.0, col_id));
    }

    /// The row of a product that goes to another subarray is read locally
    /// first.
    pub fn add_remote_read_task(&mut self, local_read: PhysicRowId)
        requires
            counters_fit(add_remote_read_spec(old(self).state(), local_read.0).3),
        ensures
            final(self).state() == add_remote_read_spec(old(self).state(), local_read.0),
    {
        self.count_read(local_read.0, 8, 8);
    }

    /// After a remote task arrives, the local dense result is updated at
    /// column `col_id` of `local_write`.
    pub fn add_remote_task(&mut self, local_write: PhysicRowId, col_id: usize)
        requires
            counters_fit(add_remote_col_spec(old(self).state(), local_write.0, col_id).3),
        ensures
            final(self).state() == add_remote_col_spec(old(self).state(), local_write.0, col_id),
    {
        let open = self.remote_write;
        Self::count_write(&mut self.sub_array_result, open, local_write.0, col_id, 9, 9, 10);
        self.remote_write = Some((local_write.0, col_id));
    }
}

impl SubArray {
    /// The counters of the rounds that are closed.
    pub fn report(&self) -> (r: SubArrayResult)
        ensures
            SubArrayResult::fields(r) == self.state().4,
    {
        let f = &self.final_subarry_result;
        SubArrayResult {
            cycle: f.cycle,
            local_row_open_cycle: f.local_row_open_cycle,
            local_row_read_cycle: f.local_row_read_cycle,
            local_row_write_cycle: f.local_row_write_cycle,
            comp_cycle: f.comp_cycle,
            local_row_open_cycle_evil: f.local_row_open_cycle_evil,
            local_row_read_cycle_evil: f.local_row_read_cycle_evil,
            local_row_write_cycle_evil: f.local_row_write_cycle_evil,
            remote_row_read_cycle: f.remote_row_read_cycle,
            remote_row_write_cycle: f.remote_row_write_cycle,
            cycle_remote: f.cycle_remote,
        }
    }

    /// Closes the round: adds its counters into the totals, clears them,
    /// and returns the local and the remote cycles of the round.
    pub fn report_current_round(&mut self) -> (r: (usize, usize))
        requires
            counters_fit(SubArrayResult::sum_fields(old(self).sub_array_result, old(self).final_subarry_result)),
        ensures
            r.0 == old(self).state().3[0],
            r.1 == old(self).state().3[10],
            final(self).state() == (old(self).read_open, old(self).write_open, old(self).remote_write,
                Seq::new(11, |_i: int| 0int), SubArrayResult::sum_fields(old(self).sub_array_result, old(self).final_subarry_result)),
    {
        let local_cycle = self.sub_array_result.cycle;
        let remote_cycle = self.sub_array_result.cycle_remote;
        self.sub_array_result.accumulate(&mut self.final_subarry_result);
        self.sub_array_result.reset();
        proof {
            assert(SubArrayResult::fields(self.sub_array_result) =~= Seq::new(11, |_i: int| 0int));
        }
        (local_cycle, remote_cycle)
    }
}

} // verus!
