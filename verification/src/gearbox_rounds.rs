//! The gearbox cycle model in rounds: the products of a batch of input rows
//! are distributed, then every component reports the cycles of the round,
//! and the slowest of each kind adds up over the rounds. Subarrays count
//! their row opens and hits as the accesses arrive.
use vstd::prelude::*;
use crate::gearbox::{HardwareConfig, HardwareShape, RingResult, TsvResult, max_ring_load, ring_task_ok,
    row_partition, col_partition, ring_of, port_of, dispatcher_of, evil_col_remote_set, in_order, increasing,
    insert_sorted, lemma_increasing_unique, evil_pairs, lemma_evil_pairs_from, row_work, input_work,
    IdSet, id_set_contents, id_set_contains, collect_ids, per_partition, lemma_row_work_prefix, lemma_input_work_prefix};
use crate::sparse::CsrPattern;
use crate::row_cycle::{LogicColId, LogicRowId, RingBufferId, RingId, SubarrayId, TsvId};
use crate::results::SubArrayResult;
use crate::row_cycle::{PhysicRowId, RingPort};

verus! {

// ---------------------------------------------------------------------------
// Counters
// ---------------------------------------------------------------------------

/// `f` with `d` more at `i`.
pub open spec fn bump(f: Seq<int>, i: int, d: int) -> Seq<int> {
    f.update(i, f[i] + d)
}

// The counters of a subarray result, by position: 0 the total cycles,
// 1 the row opens, 2 the read hits, 3 the write hits, 4 the compute cycles,
// 5..=7 the same three for evil rows, 8 the reads for remote products,
// 9 the writes of remote products, 10 the total remote cycles.

/// Adds `d` to counter `i` of `r`.
pub(crate) fn bump_field(r: &mut SubArrayResult, i: usize, d: usize)
    requires
        i < 11,
        SubArrayResult::fields(*old(r))[i as int] + d <= usize::MAX,
    ensures
        SubArrayResult::fields(*final(r)) == bump(SubArrayResult::fields(*old(r)), i as int, d as int),
{
    match i {
        0 => r.cycle = r.cycle + d,
        1 => r.local_row_open_cycle = r.local_row_open_cycle + d,
        2 => r.local_row_read_cycle = r.local_row_read_cycle + d,
        3 => r.local_row_write_cycle = r.local_row_write_cycle + d,
        4 => r.comp_cycle = r.comp_cycle + d,
        5 => r.local_row_open_cycle_evil = r.local_row_open_cycle_evil + d,
        6 => r.local_row_read_cycle_evil = r.local_row_read_cycle_evil + d,
        7 => r.local_row_write_cycle_evil = r.local_row_write_cycle_evil + d,
        8 => r.remote_row_read_cycle = r.remote_row_read_cycle + d,
        9 => r.remote_row_write_cycle = r.remote_row_write_cycle + d,
        _ => r.cycle_remote = r.cycle_remote + d,
    }
    assert(SubArrayResult::fields(*r) =~= bump(SubArrayResult::fields(*old(r)), i as int, d as int));
}

/// The cost of opening `row` when `open` is open: none on a hit (the hit
/// itself is counted apart), a precharge and an activation otherwise (19),
/// an activation with nothing open (9).
pub open spec fn open_cost(open: Option<usize>, row: usize) -> int {
    match open {
        Some(r) => if r == row { 0 } else { 19 },
        None => 9,
    }
}

/// A read of `row`: a hit counts one cycle at `hit`, a miss counts the open
/// at `open_at`; both count in the total.
pub open spec fn read_step(f: Seq<int>, open: Option<usize>, row: usize, open_at: int, hit: int) -> Seq<int> {
    if open == Some(row) {
        bump(bump(f, hit, 1), 0, 1)
    } else {
        bump(bump(f, open_at, open_cost(open, row)), 0, open_cost(open, row))
    }
}

/// A write of `row`: a hit counts one at `hit` but no cycle, a miss counts
/// the open at `open_at` and in the total.
pub open spec fn write_step(f: Seq<int>, open: Option<usize>, row: usize, open_at: int, hit: int) -> Seq<int> {
    if open == Some(row) {
        bump(f, hit, 1)
    } else {
        bump(bump(f, open_at, open_cost(open, row)), 0, open_cost(open, row))
    }
}

/// A write of a remote result to `row`: counted apart, in the remote total.
pub open spec fn remote_write_step(f: Seq<int>, open: Option<usize>, row: usize) -> Seq<int> {
    if open == Some(row) {
        bump(f, 9, 1)
    } else {
        bump(bump(f, 9, open_cost(open, row)), 10, open_cost(open, row))
    }
}

// ---------------------------------------------------------------------------
// Subarrays
// ---------------------------------------------------------------------------

/// A subarray: the rows left open for reading, writing and remote writing,
/// the counters of the current round, and the counters of the rounds
/// before.
#[derive(Clone)]
pub struct SubArray {
    pub read_open: Option<usize>,
    pub write_open: Option<usize>,
    pub remote_write: Option<usize>,
    pub sub_array_result: SubArrayResult,
    pub final_subarry_result: SubArrayResult,
}

/// A subarray as plain values.
pub type SubArrayState = (Option<usize>, Option<usize>, Option<usize>, Seq<int>, Seq<int>);

/// A subarray with nothing open and every counter zero.
pub open spec fn fresh_subarray() -> SubArrayState {
    (None, None, None, Seq::new(11, |_i: int| 0int), Seq::new(11, |_i: int| 0int))
}

/// A local product: a read of `read` and a write of `write`, counted with
/// the evil counters for an evil row.
pub open spec fn add_task_spec(s: SubArrayState, read: usize, write: usize, evil: bool) -> SubArrayState {
    let (open_at, read_at, write_at) = if evil { (5, 6, 7) } else { (1, 2, 3) };
    let f1 = read_step(s.3, s.0, read, open_at, read_at);
    let f2 = write_step(f1, s.1, write, open_at, write_at);
    (Some(read), Some(write), s.2, f2, s.4)
}

/// The read of a row whose product goes to another subarray.
pub open spec fn add_remote_read_spec(s: SubArrayState, read: usize) -> SubArrayState {
    (Some(read), s.1, s.2, read_step(s.3, s.0, read, 8, 8), s.4)
}

/// The write of a product that came from another subarray.
pub open spec fn add_remote_spec(s: SubArrayState, write: usize) -> SubArrayState {
    (s.0, s.1, Some(write), remote_write_step(s.3, s.2, write), s.4)
}

/// The end of a round: the counters of the round move into the totals.
pub open spec fn close_round_spec(s: SubArrayState) -> SubArrayState {
    (s.0, s.1, s.2, Seq::new(11, |_i: int| 0int), Seq::new(11, |i: int| s.4[i] + s.3[i]))
}

/// Every counter of the round plus its total is at most `k`.
pub open spec fn subarray_bounded(s: SubArrayState, k: int) -> bool {
    &&& s.3.len() == 11
    &&& s.4.len() == 11
    &&& forall|i: int| 0 <= i < 11 ==> 0 <= #[trigger] s.3[i] && 0 <= s.4[i] && s.3[i] + s.4[i] <= k
}

impl SubArray {
    /// The subarray as plain values.
    pub open spec fn state(&self) -> SubArrayState {
        (self.read_open, self.write_open, self.remote_write,
            SubArrayResult::fields(self.sub_array_result), SubArrayResult::fields(self.final_subarry_result))
    }

    /// A subarray with nothing open and every counter zero.
    pub fn new() -> (r: Self)
        ensures
            r.state() == fresh_subarray(),
    {
        let r = SubArray {
            read_open: None,
            write_open: None,
            remote_write: None,
            sub_array_result: SubArrayResult::default(),
            final_subarry_result: SubArrayResult::default(),
        };
        assert(SubArrayResult::fields(r.sub_array_result) =~= Seq::new(11, |_i: int| 0int));
        assert(SubArrayResult::fields(r.final_subarry_result) =~= Seq::new(11, |_i: int| 0int));
        r
    }

    fn count_read(&mut self, row: usize, open_at: usize, hit: usize)
        requires
            open_at < 11,
            hit < 11,
            open_at != 0,
            hit != 0,
            subarray_bounded(old(self).state(), usize::MAX - 19),
        ensures
            final(self).state() == (Some(row), old(self).write_open, old(self).remote_write,
                read_step(old(self).state().3, old(self).read_open, row, open_at as int, hit as int), old(self).state().4),
    {
        match self.read_open {
            Some(last) if last == row => {
                bump_field(&mut self.sub_array_result, hit, 1);
                bump_field(&mut self.sub_array_result, 0, 1);
            },
            Some(_) => {
                bump_field(&mut self.sub_array_result, open_at, 19);
                bump_field(&mut self.sub_array_result, 0, 19);
            },
            None => {
                bump_field(&mut self.sub_array_result, open_at, 9);
                bump_field(&mut self.sub_array_result, 0, 9);
            },
        }
        self.read_open = Some(row);
    }

    fn count_write(&mut self, row: usize, open_at: usize, hit: usize)
        requires
            open_at < 11,
            hit < 11,
            open_at != 0,
            hit != 0,
            forall|i: int| 0 <= i < 11 ==> #[trigger] old(self).state().3[i] <= usize::MAX - 19,
            old(self).state().3.len() == 11,
        ensures
            final(self).state() == (old(self).read_open, Some(row), old(self).remote_write,
                write_step(old(self).state().3, old(self).write_open, row, open_at as int, hit as int), old(self).state().4),
    {
        match self.write_open {
            Some(last) if last == row => {
                bump_field(&mut self.sub_array_result, hit, 1);
            },
            Some(_) => {
                bump_field(&mut self.sub_array_result, open_at, 19);
                bump_field(&mut self.sub_array_result, 0, 19);
            },
            None => {
                bump_field(&mut self.sub_array_result, open_at, 9);
                bump_field(&mut self.sub_array_result, 0, 9);
            },
        }
        self.write_open = Some(row);
    }

    /// A local read and write task (local accumulate), counted with the evil
    /// counters when the row is evil.
    pub fn add_task(&mut self, local_read: PhysicRowId, local_write: PhysicRowId, evil: bool)
        requires
            subarray_bounded(old(self).state(), usize::MAX - 38),
        ensures
            final(self).state() == add_task_spec(old(self).state(), local_read.0, local_write.0, evil),
    {
        let (open_at, read_at, write_at): (usize, usize, usize) = if evil { (5, 6, 7) } else { (1, 2, 3) };
        self.count_read(local_read.0, open_at, read_at);
        self.count_write(local_write.0, open_at, write_at);
    }

    /// The row of a product that goes to another subarray is read locally
    /// first.
    pub fn add_remote_read_task(&mut self, local_read: PhysicRowId)
        requires
            subarray_bounded(old(self).state(), usize::MAX - 19),
        ensures
            final(self).state() == add_remote_read_spec(old(self).state(), local_read.0),
    {
        self.count_read(local_read.0, 8, 8);
    }

    /// After a remote task arrives, the local dense result is updated.
    pub fn add_remote_task(&mut self, local_write: PhysicRowId)
        requires
            subarray_bounded(old(self).state(), usize::MAX - 19),
        ensures
            final(self).state() == add_remote_spec(old(self).state(), local_write.0),
    {
        let row = local_write.0;
        match self.remote_write {
            Some(last) if last == row => {
                bump_field(&mut self.sub_array_result, 9, 1);
            },
            Some(_) => {
                bump_field(&mut self.sub_array_result, 9, 19);
                bump_field(&mut self.sub_array_result, 10, 19);
            },
            None => {
                bump_field(&mut self.sub_array_result, 9, 9);
                bump_field(&mut self.sub_array_result, 10, 9);
            },
        }
        self.remote_write = Some(row);
    }

    /// The counters of the rounds that are closed.
    pub fn report(&self) -> (r: SubArrayResult)
        ensures
            SubArrayResult::fields(r) == self.state().4,
    {
        let f = &self.final_subarry_result;
        SubArrayResult {
            cycle: f.cycle,
            local_row_open_cycle: f.local_row_open_cycle,
            local_row_read_cycle: f.local_row_read_cycle,
            local_row_write_cycle: f.local_row_write_cycle,
            comp_cycle: f.comp_cycle,
            local_row_open_cycle_evil: f.local_row_open_cycle_evil,
            local_row_read_cycle_evil: f.local_row_read_cycle_evil,
            local_row_write_cycle_evil: f.local_row_write_cycle_evil,
            remote_row_read_cycle: f.remote_row_read_cycle,
            remote_row_write_cycle: f.remote_row_write_cycle,
            cycle_remote: f.cycle_remote,
        }
    }

    /// Closes the round: adds its counters into the totals, clears them,
    /// and returns the local and the remote cycles of the round.
    pub fn report_current_round(&mut self) -> (r: (usize, usize))
        requires
            subarray_bounded(old(self).state(), usize::MAX as int),
        ensures
            r.0 == old(self).state().3[0],
            r.1 == old(self).state().3[10],
            final(self).state() == close_round_spec(old(self).state()),
    {
        let local_cycle = self.sub_array_result.cycle;
        let remote_cycle = self.sub_array_result.cycle_remote;
        proof {
            let s = self.state();
            assert forall|i: int| 0 <= i < 11 implies #[trigger] SubArrayResult::sum_fields(self.sub_array_result, self.final_subarry_result)[i] <= usize::MAX by {
                assert(s.3[i] + s.4[i] <= usize::MAX);
            }
        }
        self.sub_array_result.accumulate(&mut self.final_subarry_result);
        self.sub_array_result.reset();
        proof {
            assert(SubArrayResult::fields(self.sub_array_result) =~= Seq::new(11, |_i: int| 0int));
            assert(SubArrayResult::fields(self.final_subarry_result) =~= Seq::new(11, |i: int| old(self).state().4[i] + old(self).state().3[i]));
        }
        (local_cycle, remote_cycle)
    }
}

// ---------------------------------------------------------------------------
// Rings, TSVs and ring buffers
// ---------------------------------------------------------------------------

/// The ring of one layer: the transfers of the current round, and the
/// totals of the rounds before.
#[derive(Clone)]
pub struct Ring {
    pub tasks: Vec<(RingPort, RingPort)>,
    pub ports: u8,
    pub ring_result: RingResult,
}

impl Ring {
    /// A ring of `ports` ports with no transfer.
    pub fn new(ports: u8) -> (r: Self)
        ensures
            r.ports == ports,
            r.tasks@ == Seq::<(RingPort, RingPort)>::empty(),
            r.ring_result == (RingResult { cycle: 0, traffic: 0 }),
    {
        Ring { tasks: Vec::new(), ports, ring_result: RingResult { cycle: 0, traffic: 0 } }
    }

    /// Records a transfer from `source` to `target`.
    pub fn add_task(&mut self, source: RingPort, target: RingPort)
        ensures
            final(self).ports == old(self).ports,
            final(self).ring_result == old(self).ring_result,
            final(self).tasks@ == old(self).tasks@.push((source, target)),
    {
        self.tasks.push((source, target));
    }

    /// The totals of the rounds that are closed.
    pub fn report(&self) -> (r: RingResult)
        ensures
            r == self.ring_result,
    {
        self.ring_result
    }

    /// Closes the round: the round takes as many cycles as its busiest
    /// segment is held; the cycles and the transfers add to the totals and
    /// the transfers are cleared. Returns the cycles of the round.
    pub fn report_current_round(&mut self) -> (r: usize)
        requires
            forall|i: int| 0 <= i < old(self).tasks.len() ==> ring_task_ok(old(self).ports, #[trigger] old(self).tasks[i]),
            old(self).ring_result.cycle + old(self).tasks.len() <= usize::MAX,
            old(self).ring_result.traffic + old(self).tasks.len() <= usize::MAX,
        ensures
            r == max_ring_load(old(self).ports as int, old(self).tasks@, old(self).ports as int),
            r <= old(self).tasks.len(),
            final(self).ports == old(self).ports,
            final(self).tasks@ == Seq::<(RingPort, RingPort)>::empty(),
            final(self).ring_result.cycle == old(self).ring_result.cycle + r,
            final(self).ring_result.traffic == old(self).ring_result.traffic + old(self).tasks.len(),
    {
        let mut tasks: Vec<(RingPort, RingPort)> = Vec::new();
        std::mem::swap(&mut tasks, &mut self.tasks);
        let n = tasks.len();
        let ring = crate::gearbox::Ring { tasks, ports: self.ports };
        let round = ring.report();
        proof {
            lemma_max_ring_load_bound(self.ports as int, ring.tasks@, self.ports as int);
        }
        self.ring_result.cycle = self.ring_result.cycle + round.cycle;
        self.ring_result.traffic = self.ring_result.traffic + n;
        round.cycle
    }
}

/// No segment is held more often than there are transfers.
pub proof fn lemma_max_ring_load_bound(ports: int, tasks: Seq<(RingPort, RingPort)>, k: int)
    ensures
        max_ring_load(ports, tasks, k) <= tasks.len(),
    decreases k,
{
    if k > 0 {
        lemma_max_ring_load_bound(ports, tasks, k - 1);
        crate::gearbox::lemma_ring_load_bound(ports, tasks, k - 1);
    }
}

/// A TSV: the transfers of the current round, and the totals of the rounds
/// before.
#[derive(Clone, Copy)]
pub struct Tsv {
    pub traffic: usize,
    pub tsv_result: TsvResult,
}

impl Tsv {
    /// A TSV with no transfer.
    pub fn new() -> (r: Self)
        ensures
            r.traffic == 0,
            r.tsv_result == (TsvResult { cycle: 0, traffic: 0 }),
    {
        Tsv { traffic: 0, tsv_result: TsvResult { cycle: 0, traffic: 0 } }
    }

    /// Records one transfer.
    pub fn add_task(&mut self)
        requires
            old(self).traffic < usize::MAX,
        ensures
            final(self).traffic == old(self).traffic + 1,
            final(self).tsv_result == old(self).tsv_result,
    {
        self.traffic += 1;
    }

    /// The totals of the rounds that are closed.
    pub fn report(&self) -> (r: TsvResult)
        ensures
            r == self.tsv_result,
    {
        self.tsv_result
    }

    /// Closes the round: one cycle per transfer; the transfers add to the
    /// totals and are cleared. Returns the cycles of the round.
    pub fn report_current_round(&mut self) -> (r: usize)
        requires
            old(self).tsv_result.cycle + old(self).traffic <= usize::MAX,
            old(self).tsv_result.traffic + old(self).traffic <= usize::MAX,
        ensures
            r == old(self).traffic,
            final(self).traffic == 0,
            final(self).tsv_result.cycle == old(self).tsv_result.cycle + old(self).traffic,
            final(self).tsv_result.traffic == old(self).tsv_result.traffic + old(self).traffic,
    {
        self.tsv_result.cycle = self.tsv_result.cycle + self.traffic;
        self.tsv_result.traffic = self.tsv_result.traffic + self.traffic;
        let cycle = self.traffic;
        self.traffic = 0;
        cycle
    }
}

/// The buffer of a bank that collects the products it sends away.
pub struct RingBuffer {
    pub tasks: usize,
}

impl Default for RingBuffer {
    fn default() -> (r: Self)
        ensures
            r.tasks == 0,
    {
        RingBuffer { tasks: 0 }
    }
}

impl RingBuffer {
    /// Records one product sent away.
    pub fn add_remote_task(&mut self)
        requires
            old(self).tasks < usize::MAX,
        ensures
            final(self).tasks == old(self).tasks + 1,
    {
        self.tasks += 1;
    }

    /// Returns the products of the round and clears them.
    pub fn report_and_reset(&mut self) -> (r: usize)
        ensures
            r == old(self).tasks,
            final(self).tasks == 0,
    {
        let ret = self.tasks;
        self.tasks = 0;
        ret
    }
}

// ---------------------------------------------------------------------------
// The hardware
// ---------------------------------------------------------------------------

/// A ring as plain values: the transfers of the round and the totals.
pub type RingState = (Seq<(RingPort, RingPort)>, RingResult);

/// A TSV as plain values: the transfers of the round and the totals.
pub type TsvState = (usize, TsvResult);

/// The hardware as plain values: subarrays, rings, TSVs, ring buffers.
pub type HardwareState = (Seq<SubArrayState>, Seq<RingState>, Seq<TsvState>, Seq<usize>);

/// The dense-result row that product (`target`, `col`) writes: the column
/// is taken inside its partition.
pub open spec fn dense_row(sh: HardwareShape, target: nat, col: nat) -> nat {
    (target * (sh.dense_dim as nat) + col % (sh.col_per_partition as nat)) / 256
}

/// Inside a partition the dense result is laid out row-major, `dense_dim`
/// places per target row, 256 places per dense row: product (`target`,
/// `col`) writes the dense row whose 256 places hold place
/// `target * dense_dim + col % col_per_partition`, so columns of one
/// partition 256 or more apart write different dense rows.
pub proof fn lemma_dense_row_holds_place(sh: HardwareShape, target: nat, col: nat, col2: nat)
    requires
        sh.col_per_partition > 0,
    ensures
        256 * dense_row(sh, target, col) <= target * sh.dense_dim + col % (sh.col_per_partition as nat)
            < 256 * dense_row(sh, target, col) + 256,
        col % (sh.col_per_partition as nat) < sh.col_per_partition,
        col / (sh.col_per_partition as nat) == col2 / (sh.col_per_partition as nat) && col + 256 <= col2
            ==> dense_row(sh, target, col) < dense_row(sh, target, col2),
{
    let c = sh.col_per_partition as int;
    let p = target * sh.dense_dim + col % (c as nat);
    let p2 = target * sh.dense_dim + col2 % (c as nat);
    vstd::arithmetic::div_mod::lemma_fundamental_div_mod(p as int, 256);
    vstd::arithmetic::div_mod::lemma_fundamental_div_mod(p2 as int, 256);
    vstd::arithmetic::div_mod::lemma_fundamental_div_mod(col as int, c);
    vstd::arithmetic::div_mod::lemma_fundamental_div_mod(col2 as int, c);
    vstd::arithmetic::div_mod::lemma_mod_bound(col as int, c);
}

/// The bank (and ring buffer) of subarray `sub`.
pub open spec fn bank_of(c: HardwareConfig, sub: nat) -> nat {
    sub / (c.subarrays as nat)
}

/// Every counter of the round plus its total is at most `k`.
pub open spec fn hw_bounded(st: HardwareState, k: int) -> bool {
    &&& forall|p: int| 0 <= p < st.0.len() ==> subarray_bounded(#[trigger] st.0[p], k)
    &&& forall|r: int| 0 <= r < st.1.len() ==> (#[trigger] st.1[r]).1.cycle + st.1[r].0.len() <= k
        && st.1[r].1.traffic + st.1[r].0.len() <= k
    &&& forall|v: int| 0 <= v < st.2.len() ==> (#[trigger] st.2[v]).1.cycle + st.2[v].0 <= k
        && st.2[v].1.traffic + st.2[v].0 <= k
    &&& forall|b: int| 0 <= b < st.3.len() ==> #[trigger] st.3[b] <= k
}

/// The layout divides by no zero, keeps every subarray on an existing
/// ring, TSV and ring buffer, and every ring port fits its counter.
pub open spec fn shape_ok(sh: HardwareShape, st: HardwareState) -> bool {
    &&& sh.config.subarrays > 0
    &&& sh.config.banks > 0
    &&& sh.config.banks <= 128
    &&& sh.row_per_partition > 0
    &&& sh.col_per_partition > 0
    &&& forall|p: nat| p < st.0.len() ==> #[trigger] ring_of(sh.config, p) < st.1.len()
        && ring_of(sh.config, p) < st.2.len()
        && bank_of(sh.config, p) < st.3.len()
}

/// Every counter of the round of every unit is at most `d`.
pub open spec fn hw_round_at_most(st: HardwareState, d: int) -> bool {
    &&& forall|p: int| 0 <= p < st.0.len() ==> round_at_most(#[trigger] st.0[p], d)
    &&& forall|r: int| 0 <= r < st.1.len() ==> (#[trigger] st.1[r]).0.len() <= d
    &&& forall|v: int| 0 <= v < st.2.len() ==> (#[trigger] st.2[v]).0 <= d
    &&& forall|b: int| 0 <= b < st.3.len() ==> #[trigger] st.3[b] <= d
}

/// Every transfer on every ring is between two of its `ports` ports.
pub open spec fn tasks_ok(st: HardwareState, ports: u8) -> bool {
    forall|r: int, i: int| 0 <= r < st.1.len() && 0 <= i < st.1[r].0.len() ==> ring_task_ok(ports, #[trigger] st.1[r].0[i])
}

/// No counter overflows: every counter with its total is at most `k`, every
/// counter of the round at most `d`, and the rings carry valid transfers.
pub open spec fn counted(st: HardwareState, sh: HardwareShape, k: int, d: int) -> bool {
    &&& 0 <= d <= k
    &&& hw_bounded(st, k)
    &&& hw_round_at_most(st, d)
    &&& tasks_ok(st, sh.config.banks as u8)
}

/// Every part of the hardware keeps its number of units.
pub open spec fn same_units(a: HardwareState, b: HardwareState) -> bool {
    &&& a.0.len() == b.0.len()
    &&& a.1.len() == b.1.len()
    &&& a.2.len() == b.2.len()
    &&& a.3.len() == b.3.len()
}

/// A subarray of the state after `f`.
pub open spec fn with_subarray(st: HardwareState, p: nat, s: SubArrayState) -> HardwareState {
    (st.0.update(p as int, s), st.1, st.2, st.3)
}

/// One local product of row `mat_b_row` in subarray `p`.
pub open spec fn local_spec(st: HardwareState, sh: HardwareShape, p: nat, target: nat, mat_b_row: nat, col: nat, evil: bool) -> HardwareState {
    with_subarray(st, p, add_task_spec(st.0[p as int], mat_b_row as usize, dense_row(sh, target, col) as usize, evil))
}

/// The read, in subarray `p`, of row `row` whose product goes elsewhere.
pub open spec fn remote_read_state(st: HardwareState, p: nat, row: nat) -> HardwareState {
    with_subarray(st, p, add_remote_read_spec(st.0[p as int], row as usize))
}

/// A product sent from subarray `dispatcher` to the subarray of column
/// `col`: counted in the dispatcher's ring buffer, then as in the model
/// without rounds.
pub open spec fn remote_spec(st: HardwareState, sh: HardwareShape, target: nat, dispatcher: nat, col: nat) -> HardwareState {
    let c = sh.config;
    let b = bank_of(c, dispatcher);
    let st0 = (st.0, st.1, st.2, st.3.update(b as int, (st.3[b as int] + 1) as usize));
    let source_layer = ring_of(c, dispatcher);
    let tp = col_partition(sh, col);
    let target_layer = ring_of(c, tp);
    let push = |rs: Seq<RingState>, r: nat, t: (RingPort, RingPort)| rs.update(r as int, (rs[r as int].0.push(t), rs[r as int].1));
    let tick = |ts: Seq<TsvState>, v: nat| ts.update(v as int, ((ts[v as int].0 + 1) as usize, ts[v as int].1));
    if source_layer == target_layer {
        (st0.0, push(st0.1, source_layer, (RingPort(port_of(c, dispatcher)), RingPort(port_of(c, tp)))), st0.2, st0.3)
    } else {
        let rings1 = push(st0.1, source_layer, (RingPort(port_of(c, dispatcher)), RingPort(0)));
        let tsvs = tick(tick(st0.2, ring_of(c, dispatcher)), ring_of(c, tp));
        let rings2 = push(rings1, target_layer, (RingPort(0), RingPort(port_of(c, tp))));
        let subs = st0.0.update(tp as int, add_remote_spec(st0.0[tp as int], dense_row(sh, target, col) as usize));
        (subs, rings2, tsvs, st0.3)
    }
}

/// The hardware of the model in rounds.
pub struct Hardware {
    sub_array: Vec<SubArray>,
    ring: Vec<Ring>,
    tsv: Vec<Tsv>,
    ring_buffer: Vec<RingBuffer>,
    shape: HardwareShape,
}

impl Hardware {
    /// The hardware as plain values.
    pub closed spec fn state(&self) -> HardwareState {
        (self.sub_array@.map_values(|s: SubArray| s.state()),
            self.ring@.map_values(|r: Ring| (r.tasks@, r.ring_result)),
            self.tsv@.map_values(|t: Tsv| (t.traffic, t.tsv_result)),
            self.ring_buffer@.map_values(|b: RingBuffer| b.tasks))
    }

    /// How the work is laid out.
    pub closed spec fn shape_spec(&self) -> HardwareShape {
        self.shape
    }

    /// The number of ports of every ring.
    pub closed spec fn ring_ports(&self) -> Seq<u8> {
        self.ring@.map_values(|r: Ring| r.ports)
    }

    /// Every ring has one port per bank of a channel.
    pub open spec fn wf(&self) -> bool {
        &&& self.ring_ports().len() == self.state().1.len()
        &&& forall|r: int| 0 <= r < self.ring_ports().len() ==> #[trigger] self.ring_ports()[r] == self.shape_spec().config.banks as u8
    }

    /// The hardware of a configuration: a ring and a TSV per channel, a
    /// ring buffer per bank, and the subarrays of every bank; everything idle.
    pub fn new(dense_dim: usize, config: HardwareConfig, row_per_partition: usize, col_per_partition: usize) -> (r: Self)
        requires
            config.channels * config.banks <= usize::MAX,
            config.channels * config.banks * config.subarrays <= usize::MAX,
        ensures
            r.wf(),
            r.state().0 == Seq::new((config.channels * config.banks * config.subarrays) as nat, |_i: int| fresh_subarray()),
            r.state().1 == Seq::new(config.channels as nat, |_i: int| (Seq::<(RingPort, RingPort)>::empty(), RingResult { cycle: 0, traffic: 0 })),
            r.state().2 == Seq::new(config.channels as nat, |_i: int| (0usize, TsvResult { cycle: 0, traffic: 0 })),
            r.state().3 == Seq::new((config.channels * config.banks) as nat, |_i: int| 0usize),
            r.shape_spec() == (HardwareShape { config, dense_dim, row_per_partition, col_per_partition }),
    {
        let banks = config.channels * config.banks;
        let num_subarray = banks * config.subarrays;
        let num_rings = config.channels;
        let num_tsvs = config.channels;
        let mut sub_array: Vec<SubArray> = Vec::new();
        while sub_array.len() < num_subarray
            invariant
                sub_array.len() <= num_subarray,
                forall|i: int| 0 <= i < sub_array.len() ==> (#[trigger] sub_array[i]).state() == fresh_subarray(),
            decreases num_subarray - sub_array.len(),
        {
            sub_array.push(SubArray::new());
        }
        let ports = #[verifier::truncate] (config.banks as u8);
        let mut ring: Vec<Ring> = Vec::new();
        while ring.len() < num_rings
            invariant
                ring.len() <= num_rings,
                ports == config.banks as u8,
                forall|i: int| 0 <= i < ring.len() ==> (#[trigger] ring[i]).tasks@ == Seq::<(RingPort, RingPort)>::empty()
                    && ring[i].ports == ports && ring[i].ring_result == (RingResult { cycle: 0, traffic: 0 }),
            decreases num_rings - ring.len(),
        {
            ring.push(Ring::new(ports));
        }
        let mut tsv: Vec<Tsv> = Vec::new();
        while tsv.len() < num_tsvs
            invariant
                tsv.len() <= num_tsvs,
                forall|i: int| 0 <= i < tsv.len() ==> (#[trigger] tsv[i]).traffic == 0 && tsv[i].tsv_result == (TsvResult { cycle: 0, traffic: 0 }),
            decreases num_tsvs - tsv.len(),
        {
            tsv.push(Tsv::new());
        }
        let mut ring_buffer: Vec<RingBuffer> = Vec::new();
        while ring_buffer.len() < banks
            invariant
                ring_buffer.len() <= banks,
                forall|i: int| 0 <= i < ring_buffer.len() ==> (#[trigger] ring_buffer[i]).tasks == 0,
            decreases banks - ring_buffer.len(),
        {
            ring_buffer.push(RingBuffer::default());
        }
        let shape = HardwareShape { config, dense_dim, row_per_partition, col_per_partition };
        let r = Hardware { sub_array, ring, tsv, ring_buffer, shape };
        assert(r.state().0 =~= Seq::new((config.channels * config.banks * config.subarrays) as nat, |_i: int| fresh_subarray()));
        assert(r.state().1 =~= Seq::new(config.channels as nat, |_i: int| (Seq::<(RingPort, RingPort)>::empty(), RingResult { cycle: 0, traffic: 0 })));
        assert(r.state().2 =~= Seq::new(config.channels as nat, |_i: int| (0usize, TsvResult { cycle: 0, traffic: 0 })));
        assert(r.state().3 =~= Seq::new((config.channels * config.banks) as nat, |_i: int| 0usize));
        r
    }

    /// The number of subarrays.
    pub fn subarrays(&self) -> (r: usize)
        ensures
            r == self.state().0.len(),
    {
        self.sub_array.len()
    }

    /// The number of banks over every level.
    pub fn banks(&self) -> (r: usize)
        requires
            ({
                let c = self.shape_spec().config;
                c.channels * c.ranks * c.chips * c.bank_groups * c.banks <= usize::MAX
            }),
        ensures
            ({
                let c = self.shape_spec().config;
                r == c.channels * c.ranks * c.chips * c.bank_groups * c.banks
            }),
    {
        let c = self.shape.config;
        if c.banks == 0 || c.bank_groups == 0 || c.chips == 0 || c.ranks == 0 || c.channels == 0 {
            proof {
                assert(c.channels * c.ranks * c.chips * c.bank_groups * c.banks == 0) by (nonlinear_arith)
                    requires c.banks == 0 || c.bank_groups == 0 || c.chips == 0 || c.ranks == 0 || c.channels == 0;
            }
            return 0;
        }
        proof {
            let a = c.channels * c.ranks;
            let b = a * c.chips;
            let d = b * c.bank_groups;
            assert(a <= b && b <= d && d <= d * c.banks) by (nonlinear_arith)
                requires a == c.channels * c.ranks, c.channels >= 1, c.ranks >= 1, b == a * c.chips, d == b * c.bank_groups, c.chips >= 1, c.bank_groups >= 1, c.banks >= 1;
            assert(c.channels * c.ranks * c.chips * c.bank_groups * c.banks == d * c.banks);
        }
        c.channels * c.ranks * c.chips * c.bank_groups * c.banks
    }

    /// The number of rings.
    pub fn rings(&self) -> (r: usize)
        ensures
            r == self.state().1.len(),
    {
        self.ring.len()
    }

    /// The number of TSVs.
    pub fn tsvs(&self) -> (r: usize)
        ensures
            r == self.state().2.len(),
    {
        self.tsv.len()
    }

    /// An evil row is copied everywhere: its row id is the row id.
    pub fn get_row_id_evil(&self, mat_b_row_id: LogicRowId, _col_id: LogicColId) -> (r: PhysicRowId)
        ensures
            r.0 == mat_b_row_id.0,
    {
        PhysicRowId(mat_b_row_id.0)
    }

    /// The dispatcher of a subarray: the first subarray of its bank.
    pub fn get_dispatcher_id(&self, sub_array_id: SubarrayId) -> (r: SubarrayId)
        requires
            self.shape_spec().config.subarrays > 0,
        ensures
            r.0 == dispatcher_of(self.shape_spec().config, sub_array_id.0 as nat),
    {
        let m = self.shape.config.subarrays;
        let x = sub_array_id.0;
        assert(x % m <= x) by (nonlinear_arith) requires m > 0;
        SubarrayId(x - x % m)
    }

    /// The TSV below subarray `sub_array_id`: the one of its channel.
    pub fn get_tsv_id_from_subarray(&self, sub_array_id: SubarrayId) -> (r: TsvId)
        requires
            self.shape_spec().config.subarrays > 0,
            self.shape_spec().config.banks > 0,
        ensures
            r.0 == ring_of(self.shape_spec().config, sub_array_id.0 as nat),
    {
        TsvId(sub_array_id.0 / self.shape.config.subarrays / self.shape.config.banks)
    }

    /// The TSV of a ring: they share their id.
    pub fn get_tsv_id_from_ring(&self, ring_id: RingId) -> (r: TsvId)
        ensures
            r.0 == ring_id.0,
    {
        TsvId(ring_id.0)
    }

    /// The port of subarray `subarray_id` on its ring: its bank in the channel.
    pub fn ring_port_from_subarray(&self, subarray_id: SubarrayId) -> (r: RingPort)
        requires
            self.shape_spec().config.subarrays > 0,
            self.shape_spec().config.banks > 0,
        ensures
            r.0 == port_of(self.shape_spec().config, subarray_id.0 as nat),
    {
        RingPort(((subarray_id.0 / self.shape.config.subarrays) % self.shape.config.banks) as u8)
    }

    /// The ring buffer of subarray `subarray_id`: the one of its bank.
    pub fn ring_buffer_id(&self, subarray_id: SubarrayId) -> (r: RingBufferId)
        requires
            self.shape_spec().config.subarrays > 0,
        ensures
            r.0 == bank_of(self.shape_spec().config, subarray_id.0 as nat),
    {
        RingBufferId(subarray_id.0 / self.shape.config.subarrays)
    }

    /// The ring of the channel of subarray `partition_id`.
    pub fn ring_id_from_subarray(&self, partition_id: SubarrayId) -> (r: RingId)
        requires
            self.shape_spec().config.subarrays > 0,
            self.shape_spec().config.banks > 0,
        ensures
            r.0 == ring_of(self.shape_spec().config, partition_id.0 as nat),
    {
        let bank_id = partition_id.0 / self.shape.config.subarrays;
        RingId(bank_id / self.shape.config.banks)
    }

    /// A row of matrix B keeps its row id.
    pub fn get_row_id(&self, mat_b_row_id: LogicRowId, _col_id: LogicColId) -> (r: PhysicRowId)
        ensures
            r.0 == mat_b_row_id.0,
    {
        PhysicRowId(mat_b_row_id.0)
    }

    /// The dense-result row that product (`target_row_id`, `col_id`) writes.
    pub fn get_row_id_dense(&self, target_row_id: LogicRowId, col_id: LogicColId) -> (r: PhysicRowId)
        requires
            self.shape_spec().col_per_partition > 0,
            target_row_id.0 * self.shape_spec().dense_dim + self.shape_spec().col_per_partition <= usize::MAX,
        ensures
            r.0 == dense_row(self.shape_spec(), target_row_id.0 as nat, col_id.0 as nat),
            256 * r.0 <= target_row_id.0 * self.shape_spec().dense_dim + col_id.0 % self.shape_spec().col_per_partition < 256 * r.0 + 256,
    {
        proof {
            lemma_dense_row_holds_place(self.shape_spec(), target_row_id.0 as nat, col_id.0 as nat, 0);
        }
        let m = col_id.0 % self.shape.col_per_partition;
        PhysicRowId((target_row_id.0 * self.shape.dense_dim + m) / 256)
    }

    /// The subarray that holds row `row_id` of matrix B.
    pub fn get_partition_id_row(&self, row_id: LogicRowId) -> (r: SubarrayId)
        requires
            self.shape_spec().row_per_partition > 0,
        ensures
            r.0 == row_partition(self.shape_spec(), row_id.0 as nat),
    {
        SubarrayId(row_id.0 / self.shape.row_per_partition)
    }

    /// The subarray that holds the results of column `col_id`.
    pub fn get_partition_id_col(&self, col_id: LogicColId) -> (r: SubarrayId)
        requires
            self.shape_spec().col_per_partition > 0,
        ensures
            r.0 == col_partition(self.shape_spec(), col_id.0 as nat),
    {
        SubarrayId(col_id.0 / self.shape.col_per_partition)
    }
}

// ---------------------------------------------------------------------------
// Counter bounds
// ---------------------------------------------------------------------------

/// Every counter of the round is at most `d`.
pub open spec fn round_at_most(s: SubArrayState, d: int) -> bool {
    forall|i: int| 0 <= i < 11 ==> #[trigger] s.3[i] <= d
}

proof fn lemma_bump_bounded(f: Seq<int>, g: Seq<int>, i: int, d: int, k: int, e: int)
    requires
        f.len() == 11,
        g.len() == 11,
        0 <= i < 11,
        0 <= d,
        forall|j: int| 0 <= j < 11 ==> 0 <= #[trigger] f[j] && 0 <= g[j] && f[j] + g[j] <= k && f[j] <= e,
    ensures
        bump(f, i, d).len() == 11,
        forall|j: int| 0 <= j < 11 ==> 0 <= #[trigger] bump(f, i, d)[j] && bump(f, i, d)[j] + g[j] <= k + d
            && bump(f, i, d)[j] <= e + d,
{
}

/// A local product raises a counter by at most 38.
pub proof fn lemma_add_task_bounded(s: SubArrayState, read: usize, write: usize, evil: bool, k: int, e: int)
    requires
        k >= 0,
        subarray_bounded(s, k),
        round_at_most(s, e),
    ensures
        subarray_bounded(add_task_spec(s, read, write, evil), k + 38),
        round_at_most(add_task_spec(s, read, write, evil), e + 38),
{
    let (open_at, read_at, write_at) = if evil { (5int, 6int, 7int) } else { (1int, 2int, 3int) };
    let f1 = read_step(s.3, s.0, read, open_at, read_at);
    if s.0 == Some(read) {
        lemma_bump_bounded(s.3, s.4, read_at, 1, k, e);
        lemma_bump_bounded(bump(s.3, read_at, 1), s.4, 0, 1, k + 1, e + 1);
    } else {
        lemma_bump_bounded(s.3, s.4, open_at, open_cost(s.0, read), k, e);
        lemma_bump_bounded(bump(s.3, open_at, open_cost(s.0, read)), s.4, 0, open_cost(s.0, read),
            k + open_cost(s.0, read), e + open_cost(s.0, read));
    }
    assert(forall|j: int| 0 <= j < 11 ==> 0 <= #[trigger] f1[j] && f1[j] + s.4[j] <= k + 19 && f1[j] <= e + 19);
    let f2 = write_step(f1, s.1, write, open_at, write_at);
    if s.1 == Some(write) {
        lemma_bump_bounded(f1, s.4, write_at, 1, k + 19, e + 19);
    } else {
        lemma_bump_bounded(f1, s.4, open_at, open_cost(s.1, write), k + 19, e + 19);
        lemma_bump_bounded(bump(f1, open_at, open_cost(s.1, write)), s.4, 0, open_cost(s.1, write),
            k + 19 + open_cost(s.1, write), e + 19 + open_cost(s.1, write));
    }
    assert(add_task_spec(s, read, write, evil).3 == f2);
    assert(forall|j: int| 0 <= j < 11 ==> 0 <= #[trigger] f2[j] && f2[j] + s.4[j] <= k + 38 && f2[j] <= e + 38);
}

/// The read for a remote product raises a counter by at most 19.
pub proof fn lemma_remote_read_bounded(s: SubArrayState, read: usize, k: int, e: int)
    requires
        k >= 0,
        subarray_bounded(s, k),
        round_at_most(s, e),
    ensures
        subarray_bounded(add_remote_read_spec(s, read), k + 19),
        round_at_most(add_remote_read_spec(s, read), e + 19),
{
    if s.0 == Some(read) {
        lemma_bump_bounded(s.3, s.4, 8, 1, k, e);
        lemma_bump_bounded(bump(s.3, 8, 1), s.4, 0, 1, k + 1, e + 1);
    } else {
        lemma_bump_bounded(s.3, s.4, 8, open_cost(s.0, read), k, e);
        lemma_bump_bounded(bump(s.3, 8, open_cost(s.0, read)), s.4, 0, open_cost(s.0, read),
            k + open_cost(s.0, read), e + open_cost(s.0, read));
    }
}

/// The write of a remote product raises a counter by at most 19.
pub proof fn lemma_remote_bounded(s: SubArrayState, write: usize, k: int, e: int)
    requires
        k >= 0,
        subarray_bounded(s, k),
        round_at_most(s, e),
    ensures
        subarray_bounded(add_remote_spec(s, write), k + 19),
        round_at_most(add_remote_spec(s, write), e + 19),
{
    if s.2 == Some(write) {
        lemma_bump_bounded(s.3, s.4, 9, 1, k, e);
    } else {
        lemma_bump_bounded(s.3, s.4, 9, open_cost(s.2, write), k, e);
        lemma_bump_bounded(bump(s.3, 9, open_cost(s.2, write)), s.4, 10, open_cost(s.2, write),
            k + open_cost(s.2, write), e + open_cost(s.2, write));
    }
}


/// A local product keeps the units and raises every count by at most 40.
pub proof fn lemma_local_counted(st: HardwareState, sh: HardwareShape, p: nat, target: nat, b: nat, col: nat, evil: bool, k: int, d: int)
    requires
        counted(st, sh, k, d),
        p < st.0.len(),
    ensures
        counted(local_spec(st, sh, p, target, b, col, evil), sh, k + 40, d + 40),
        same_units(local_spec(st, sh, p, target, b, col, evil), st),
{
    let s = st.0[p as int];
    lemma_add_task_bounded(s, b as usize, dense_row(sh, target, col) as usize, evil, k, d);
    let next = local_spec(st, sh, p, target, b, col, evil);
    assert forall|q: int| 0 <= q < next.0.len() implies subarray_bounded(#[trigger] next.0[q], k + 40)
        && round_at_most(next.0[q], d + 40) by {
        if q != p {
            assert(next.0[q] == st.0[q]);
            assert(subarray_bounded(st.0[q], k));
            assert(round_at_most(st.0[q], d));
        }
    }
}

/// The read for a remote product keeps the units and raises every count
/// by at most 40.
pub proof fn lemma_remote_read_counted(st: HardwareState, sh: HardwareShape, p: nat, row: nat, k: int, d: int)
    requires
        counted(st, sh, k, d),
        p < st.0.len(),
    ensures
        counted(remote_read_state(st, p, row), sh, k + 40, d + 40),
        same_units(remote_read_state(st, p, row), st),
{
    let s = st.0[p as int];
    lemma_remote_read_bounded(s, row as usize, k, d);
    let next = remote_read_state(st, p, row);
    assert forall|q: int| 0 <= q < next.0.len() implies subarray_bounded(#[trigger] next.0[q], k + 40)
        && round_at_most(next.0[q], d + 40) by {
        if q != p {
            assert(next.0[q] == st.0[q]);
            assert(subarray_bounded(st.0[q], k));
            assert(round_at_most(st.0[q], d));
        }
    }
}

/// The port of every subarray is a port of its ring, and a transfer
/// between two such ports (or port 0) is valid.
pub proof fn lemma_port_ok(c: HardwareConfig, a: nat, b: nat)
    requires
        c.subarrays > 0,
        0 < c.banks <= 128,
    ensures
        ring_task_ok(c.banks as u8, (RingPort(port_of(c, a)), RingPort(port_of(c, b)))),
        ring_task_ok(c.banks as u8, (RingPort(port_of(c, a)), RingPort(0))),
        ring_task_ok(c.banks as u8, (RingPort(0), RingPort(port_of(c, b)))),
{
    let x = a / (c.subarrays as nat);
    let y = b / (c.subarrays as nat);
    assert(x % (c.banks as nat) < c.banks) by (nonlinear_arith) requires c.banks > 0;
    assert(y % (c.banks as nat) < c.banks) by (nonlinear_arith) requires c.banks > 0;
}

/// A remote product keeps the units and raises every count by at most 40.
pub proof fn lemma_remote_counted(st: HardwareState, sh: HardwareShape, target: nat, dispatcher: nat, col: nat, k: int, d: int)
    requires
        counted(st, sh, k, d),
        k + 40 <= usize::MAX,
        shape_ok(sh, st),
        dispatcher < st.0.len(),
        col_partition(sh, col) < st.0.len(),
    ensures
        counted(remote_spec(st, sh, target, dispatcher, col), sh, k + 40, d + 40),
        same_units(remote_spec(st, sh, target, dispatcher, col), st),
{
    let c = sh.config;
    let tp = col_partition(sh, col);
    let b = bank_of(c, dispatcher);
    let sl = ring_of(c, dispatcher);
    let tl = ring_of(c, tp);
    assert(b < st.3.len() && sl < st.1.len() && sl < st.2.len());
    assert(tl < st.1.len() && tl < st.2.len());
    lemma_port_ok(c, dispatcher, tp);
    let next = remote_spec(st, sh, target, dispatcher, col);
    assert forall|r: int| 0 <= r < next.1.len() implies (#[trigger] next.1[r]).1.cycle + next.1[r].0.len() <= k + 40
        && next.1[r].1.traffic + next.1[r].0.len() <= k + 40 && next.1[r].0.len() <= d + 40 by {
        assert(st.1[r].1.cycle + st.1[r].0.len() <= k);
        assert(st.1[r].0.len() <= d);
    }
    assert forall|v: int| 0 <= v < next.2.len() implies (#[trigger] next.2[v]).1.cycle + next.2[v].0 <= k + 40
        && next.2[v].1.traffic + next.2[v].0 <= k + 40 && next.2[v].0 <= d + 40 by {
        assert(st.2[v].1.cycle + st.2[v].0 <= k);
        assert(st.2[v].0 <= d);
    }
    assert forall|x: int| 0 <= x < next.3.len() implies #[trigger] next.3[x] <= k + 40 && next.3[x] <= d + 40 by {
        assert(st.3[x] <= k && st.3[x] <= d);
    }
    assert forall|r: int, i: int| 0 <= r < next.1.len() && 0 <= i < next.1[r].0.len()
        implies ring_task_ok(c.banks as u8, #[trigger] next.1[r].0[i]) by {
        if i < st.1[r].0.len() {
            assert(next.1[r].0[i] == st.1[r].0[i]);
        }
    }
    if sl != tl {
        let s = st.0[tp as int];
        lemma_remote_bounded(s, dense_row(sh, target, col) as usize, k, d);
        assert forall|q: int| 0 <= q < next.0.len() implies subarray_bounded(#[trigger] next.0[q], k + 40)
            && round_at_most(next.0[q], d + 40) by {
            if q != tp {
                assert(next.0[q] == st.0[q]);
                assert(subarray_bounded(st.0[q], k));
                assert(round_at_most(st.0[q], d));
            }
        }
    } else {
        assert forall|q: int| 0 <= q < next.0.len() implies subarray_bounded(#[trigger] next.0[q], k + 40)
            && round_at_most(next.0[q], d + 40) by {
            assert(next.0[q] == st.0[q]);
            assert(subarray_bounded(st.0[q], k));
            assert(round_at_most(st.0[q], d));
        }
    }
}

// ---------------------------------------------------------------------------
// Distributing products
// ---------------------------------------------------------------------------

/// Product (`target`, `col`) of row `b` of matrix B, computed where the
/// row is stored.
pub open spec fn distribute_local_spec(st: HardwareState, sh: HardwareShape, target: nat, b: nat, col: nat) -> HardwareState {
    local_spec(st, sh, row_partition(sh, b), target, b, col, false)
}

/// Product (`target`, `col`) of an evil row: the row is copied to every
/// subarray, so it is computed where column `col` is stored, and counted
/// with the evil counters.
pub open spec fn evil_row_local_spec(st: HardwareState, sh: HardwareShape, target: nat, b: nat, col: nat) -> HardwareState {
    local_spec(st, sh, col_partition(sh, col), target, b, col, true)
}

/// Product (`target`, `col`) of row `b`, read in subarray `src` and sent
/// from `dispatcher`.
pub open spec fn read_remote_spec(st: HardwareState, sh: HardwareShape, target: nat, dispatcher: nat, src: nat, b: nat, col: nat) -> HardwareState {
    remote_spec(remote_read_state(st, src, b), sh, target, dispatcher, col)
}

impl Hardware {
    fn distribute_local(&mut self, target_row_id: LogicRowId, mat_b_row_id: LogicRowId, col_id: LogicColId,
        Ghost(k): Ghost<int>, Ghost(d): Ghost<int>)
        requires
            counted(old(self).state(), old(self).shape_spec(), k, d),
            k + 40 <= usize::MAX,
            old(self).shape_spec().row_per_partition > 0,
            old(self).shape_spec().col_per_partition > 0,
            row_partition(old(self).shape_spec(), mat_b_row_id.0 as nat) < old(self).state().0.len(),
            target_row_id.0 * old(self).shape_spec().dense_dim + old(self).shape_spec().col_per_partition <= usize::MAX,
        ensures
            final(self).state() == distribute_local_spec(old(self).state(), old(self).shape_spec(),
                target_row_id.0 as nat, mat_b_row_id.0 as nat, col_id.0 as nat),
            counted(final(self).state(), old(self).shape_spec(), k + 40, d + 40),
            same_units(final(self).state(), old(self).state()),
            final(self).shape_spec() == old(self).shape_spec(),
            final(self).ring_ports() == old(self).ring_ports(),
    {
        let partition_id = self.get_partition_id_row(mat_b_row_id);
        let local_read = self.get_row_id(mat_b_row_id, col_id);
        let local_write = self.get_row_id_dense(target_row_id, col_id);
        let ghost before = self.state();
        proof {
            lemma_local_counted(before, self.shape, partition_id.0 as nat, target_row_id.0 as nat, mat_b_row_id.0 as nat,
                col_id.0 as nat, false, k, d);
            assert(subarray_bounded(before.0[partition_id.0 as int], k));
        }
        self.sub_array[partition_id.0].add_task(local_read, local_write, false);
        proof {
            let want = distribute_local_spec(before, self.shape, target_row_id.0 as nat, mat_b_row_id.0 as nat, col_id.0 as nat);
            assert(self.state().0 =~= want.0);
            assert(self.state().1 =~= want.1);
            assert(self.state().2 =~= want.2);
            assert(self.state().3 =~= want.3);
            assert(self.ring_ports() =~= old(self).ring_ports());
        }
    }

    fn distribute_local_evil_row(&mut self, target_row_id: LogicRowId, mat_b_row_id: LogicRowId, col_id: LogicColId,
        Ghost(k): Ghost<int>, Ghost(d): Ghost<int>)
        requires
            counted(old(self).state(), old(self).shape_spec(), k, d),
            k + 40 <= usize::MAX,
            old(self).shape_spec().col_per_partition > 0,
            col_partition(old(self).shape_spec(), col_id.0 as nat) < old(self).state().0.len(),
            target_row_id.0 * old(self).shape_spec().dense_dim + old(self).shape_spec().col_per_partition <= usize::MAX,
        ensures
            final(self).state() == evil_row_local_spec(old(self).state(), old(self).shape_spec(),
                target_row_id.0 as nat, mat_b_row_id.0 as nat, col_id.0 as nat),
            counted(final(self).state(), old(self).shape_spec(), k + 40, d + 40),
            same_units(final(self).state(), old(self).state()),
            final(self).shape_spec() == old(self).shape_spec(),
            final(self).ring_ports() == old(self).ring_ports(),
    {
        let partition_id = self.get_partition_id_col(col_id);
        let local_read = self.get_row_id_evil(mat_b_row_id, col_id);
        let local_write = self.get_row_id_dense(target_row_id, col_id);
        let ghost before = self.state();
        proof {
            lemma_local_counted(before, self.shape, partition_id.0 as nat, target_row_id.0 as nat, mat_b_row_id.0 as nat,
                col_id.0 as nat, true, k, d);
            assert(subarray_bounded(before.0[partition_id.0 as int], k));
        }
        self.sub_array[partition_id.0].add_task(local_read, local_write, true);
        proof {
            let want = evil_row_local_spec(before, self.shape, target_row_id.0 as nat, mat_b_row_id.0 as nat, col_id.0 as nat);
            assert(self.state().0 =~= want.0);
            assert(self.state().1 =~= want.1);
            assert(self.state().2 =~= want.2);
            assert(self.state().3 =~= want.3);
            assert(self.ring_ports() =~= old(self).ring_ports());
        }
    }

    fn remote_read(&mut self, local_subarray: SubarrayId, matrix_b_row_id: LogicRowId, col_id: LogicColId,
        Ghost(k): Ghost<int>, Ghost(d): Ghost<int>)
        requires
            counted(old(self).state(), old(self).shape_spec(), k, d),
            k + 40 <= usize::MAX,
            local_subarray.0 < old(self).state().0.len(),
        ensures
            final(self).state() == remote_read_state(old(self).state(), local_subarray.0 as nat, matrix_b_row_id.0 as nat),
            counted(final(self).state(), old(self).shape_spec(), k + 40, d + 40),
            same_units(final(self).state(), old(self).state()),
            final(self).shape_spec() == old(self).shape_spec(),
            final(self).ring_ports() == old(self).ring_ports(),
    {
        let local_read_row_id = self.get_row_id(matrix_b_row_id, col_id);
        let ghost before = self.state();
        proof {
            lemma_remote_read_counted(before, self.shape, local_subarray.0 as nat, matrix_b_row_id.0 as nat, k, d);
            assert(subarray_bounded(before.0[local_subarray.0 as int], k));
        }
        self.sub_array[local_subarray.0].add_remote_read_task(local_read_row_id);
        proof {
            let want = remote_read_state(before, local_subarray.0 as nat, matrix_b_row_id.0 as nat);
            assert(self.state().0 =~= want.0);
            assert(self.state().1 =~= want.1);
            assert(self.state().2 =~= want.2);
            assert(self.state().3 =~= want.3);
            assert(self.ring_ports() =~= old(self).ring_ports());
        }
    }
}

impl Hardware {
    /// Sends product (`target_row_id`, `col_id`) from subarray
    /// `dispatcher_id` to the subarray of the column: the dispatcher's ring
    /// buffer counts it; on one layer it takes one ring, else it goes to
    /// port 0 of the source ring, down a TSV, up a TSV, from port 0 of the
    /// target ring, and the target subarray writes it.
    fn distribute_remote(&mut self, target_row_id: LogicRowId, dispatcher_id: SubarrayId, col_id: LogicColId,
        Ghost(k): Ghost<int>, Ghost(d): Ghost<int>)
        requires
            counted(old(self).state(), old(self).shape_spec(), k, d),
            k + 40 <= usize::MAX,
            shape_ok(old(self).shape_spec(), old(self).state()),
            dispatcher_id.0 < old(self).state().0.len(),
            col_partition(old(self).shape_spec(), col_id.0 as nat) < old(self).state().0.len(),
            target_row_id.0 * old(self).shape_spec().dense_dim + old(self).shape_spec().col_per_partition <= usize::MAX,
        ensures
            final(self).state() == remote_spec(old(self).state(), old(self).shape_spec(),
                target_row_id.0 as nat, dispatcher_id.0 as nat, col_id.0 as nat),
            counted(final(self).state(), old(self).shape_spec(), k + 40, d + 40),
            same_units(final(self).state(), old(self).state()),
            final(self).shape_spec() == old(self).shape_spec(),
            final(self).ring_ports() == old(self).ring_ports(),
    {
        let ghost st0 = self.state();
        let ghost sh = self.shape;
        let ghost c = sh.config;
        let ghost want = remote_spec(st0, sh, target_row_id.0 as nat, dispatcher_id.0 as nat, col_id.0 as nat);
        proof {
            lemma_remote_counted(st0, sh, target_row_id.0 as nat, dispatcher_id.0 as nat, col_id.0 as nat, k, d);
        }
        let ring_buffer_id = self.ring_buffer_id(dispatcher_id);
        assert(ring_buffer_id.0 < st0.3.len());
        assert(st0.3[ring_buffer_id.0 as int] <= k);
        self.ring_buffer[ring_buffer_id.0].add_remote_task();
        let ghost st1 = self.state();
        assert(st1.0 =~= st0.0);
        assert(st1.1 =~= st0.1);
        assert(st1.2 =~= st0.2);
        assert(st1.3 =~= st0.3.update(ring_buffer_id.0 as int, (st0.3[ring_buffer_id.0 as int] + 1) as usize));
        let source_layer = self.ring_id_from_subarray(dispatcher_id);
        let target_partition_id = self.get_partition_id_col(col_id);
        let target_layer = self.ring_id_from_subarray(target_partition_id);
        assert(source_layer.0 < st0.1.len() && source_layer.0 < st0.2.len());
        assert(target_layer.0 < st0.1.len() && target_layer.0 < st0.2.len());
        if source_layer.0 == target_layer.0 {
            let source = self.ring_port_from_subarray(dispatcher_id);
            let target = self.ring_port_from_subarray(target_partition_id);
            self.ring[source_layer.0].add_task(source, target);
            proof {
                assert(self.state().0 =~= want.0);
                assert(self.state().1 =~= want.1);
                assert(self.state().2 =~= want.2);
                assert(self.state().3 =~= want.3);
                assert(self.ring_ports() =~= old(self).ring_ports());
            }
        } else {
            let source_bank = self.ring_port_from_subarray(dispatcher_id);
            self.ring[source_layer.0].add_task(source_bank, RingPort(0));
            let tsv_id = self.get_tsv_id_from_subarray(dispatcher_id);
            assert(st0.2[tsv_id.0 as int].0 <= k);
            self.tsv[tsv_id.0].add_task();
            let tsv_id2 = self.get_tsv_id_from_subarray(target_partition_id);
            assert(tsv_id2.0 != tsv_id.0);
            assert(st0.2[tsv_id2.0 as int].0 <= k);
            assert(self.tsv[tsv_id2.0 as int].traffic == st0.2[tsv_id2.0 as int].0);
            self.tsv[tsv_id2.0].add_task();
            let target_bank = self.ring_port_from_subarray(target_partition_id);
            assert(self.ring[target_layer.0 as int].tasks@ == st0.1[target_layer.0 as int].0);
            self.ring[target_layer.0].add_task(RingPort(0), target_bank);
            let remote_dense_row_write = self.get_row_id_dense(target_row_id, col_id);
            proof {
                assert(subarray_bounded(st0.0[target_partition_id.0 as int], k));
                assert(self.sub_array[target_partition_id.0 as int].state() == st0.0[target_partition_id.0 as int]);
            }
            self.sub_array[target_partition_id.0].add_remote_task(remote_dense_row_write);
            proof {
                assert(self.state().0 =~= want.0);
                assert(self.state().1 =~= want.1);
                assert(self.state().2 =~= want.2);
                assert(self.state().3 =~= want.3);
                assert(self.ring_ports() =~= old(self).ring_ports());
            }
        }
    }

    /// Reads row `matrix_b_row_id` in `local_subarray` and sends its
    /// product (`target_row_id`, `col_id`) from `dispatcher_id`.
    fn read_local_and_distribute_remote(&mut self, target_row_id: LogicRowId, dispatcher_id: SubarrayId,
        local_subarray: SubarrayId, matrix_b_row_id: LogicRowId, col_id: LogicColId,
        Ghost(k): Ghost<int>, Ghost(d): Ghost<int>)
        requires
            counted(old(self).state(), old(self).shape_spec(), k, d),
            k + 80 <= usize::MAX,
            shape_ok(old(self).shape_spec(), old(self).state()),
            dispatcher_id.0 < old(self).state().0.len(),
            local_subarray.0 < old(self).state().0.len(),
            col_partition(old(self).shape_spec(), col_id.0 as nat) < old(self).state().0.len(),
            target_row_id.0 * old(self).shape_spec().dense_dim + old(self).shape_spec().col_per_partition <= usize::MAX,
        ensures
            final(self).state() == read_remote_spec(old(self).state(), old(self).shape_spec(), target_row_id.0 as nat,
                dispatcher_id.0 as nat, local_subarray.0 as nat, matrix_b_row_id.0 as nat, col_id.0 as nat),
            counted(final(self).state(), old(self).shape_spec(), k + 80, d + 80),
            same_units(final(self).state(), old(self).state()),
            final(self).shape_spec() == old(self).shape_spec(),
            final(self).ring_ports() == old(self).ring_ports(),
    {
        self.remote_read(local_subarray, matrix_b_row_id, col_id, Ghost(k), Ghost(d));
        self.distribute_remote(target_row_id, dispatcher_id, col_id, Ghost(k + 40), Ghost(d + 40));
    }
}

/// A bound holds of every larger bound.
pub proof fn lemma_counted_weaken(st: HardwareState, sh: HardwareShape, k: int, d: int, k2: int, d2: int)
    requires
        counted(st, sh, k, d),
        k <= k2,
        d <= d2 <= k2,
    ensures
        counted(st, sh, k2, d2),
{
    assert forall|p: int| 0 <= p < st.0.len() implies subarray_bounded(#[trigger] st.0[p], k2) && round_at_most(st.0[p], d2) by {
        assert(subarray_bounded(st.0[p], k));
        assert(round_at_most(st.0[p], d));
    }
}

/// Everything product (`target`, `col`) of row `b` can touch exists, and
/// its dense-result address fits a word.
pub open spec fn product_fits(st: HardwareState, sh: HardwareShape, target: nat, b: nat, col: nat) -> bool {
    &&& row_partition(sh, b) < st.0.len()
    &&& row_partition(sh, target) < st.0.len()
    &&& col_partition(sh, col) < st.0.len()
    &&& target * sh.dense_dim + sh.col_per_partition <= usize::MAX
}

/// The products of evil row `b` for the columns `cols`, in order.
pub open spec fn evil_row_spec(st: HardwareState, sh: HardwareShape, target: nat, b: nat, cols: Seq<u32>) -> HardwareState
    decreases cols.len(),
{
    if cols.len() == 0 {
        st
    } else {
        evil_row_local_spec(evil_row_spec(st, sh, target, b, cols.drop_last()), sh, target, b, cols.last() as nat)
    }
}

/// The first pass over the evil-column products `pairs` of one target row:
/// a product whose column lives with the target row is computed in place;
/// for the others the row is read in the target row's subarray.
pub open spec fn evil_col_local_spec(st: HardwareState, sh: HardwareShape, target: nat, pairs: Seq<(LogicRowId, LogicColId)>) -> HardwareState
    decreases pairs.len(),
{
    if pairs.len() == 0 {
        st
    } else {
        let prev = evil_col_local_spec(st, sh, target, pairs.drop_last());
        let (r, c) = pairs.last();
        if row_partition(sh, target) == col_partition(sh, c.0 as nat) {
            distribute_local_spec(prev, sh, target, r.0 as nat, c.0 as nat)
        } else {
            remote_read_state(prev, row_partition(sh, target), r.0 as nat)
        }
    }
}

/// The remote products of one target row, one per column, from `dispatcher`.
pub open spec fn remote_cols_spec(st: HardwareState, sh: HardwareShape, target: nat, dispatcher: nat, cols: Seq<usize>) -> HardwareState
    decreases cols.len(),
{
    if cols.len() == 0 {
        st
    } else {
        remote_spec(remote_cols_spec(st, sh, target, dispatcher, cols.drop_last()), sh, target, dispatcher, cols.last() as nat)
    }
}

/// The products of one target row with evil columns: the first pass, then
/// one remote product per column that lives elsewhere, in increasing
/// column order, from the dispatcher of the target row's subarray.
pub open spec fn evil_col_spec(st: HardwareState, sh: HardwareShape, target: nat, pairs: Seq<(LogicRowId, LogicColId)>) -> HardwareState {
    remote_cols_spec(evil_col_local_spec(st, sh, target, pairs), sh, target,
        dispatcher_of(sh.config, row_partition(sh, target)), in_order(evil_col_remote_set(sh, target, pairs)))
}

/// The dispatcher of a subarray comes no later than the subarray.
pub proof fn lemma_dispatcher_before(c: HardwareConfig, p: nat)
    requires
        c.subarrays > 0,
    ensures
        dispatcher_of(c, p) <= p,
{
    assert(p % (c.subarrays as nat) <= p) by (nonlinear_arith) requires c.subarrays > 0;
}

impl Hardware {
    /// The products of evil row `mat_b_row_id` for each column of `cols`:
    /// every product is local to the subarray of its column.
    fn distribute_evil_row(&mut self, target_row_id: LogicRowId, mat_b_row_id: LogicRowId, cols: &Vec<u32>,
        Ghost(k): Ghost<int>, Ghost(d): Ghost<int>)
        requires
            counted(old(self).state(), old(self).shape_spec(), k, d),
            k + 40 * cols.len() + 40 <= usize::MAX,
            old(self).shape_spec().col_per_partition > 0,
            forall|i: int| 0 <= i < cols.len() ==> col_partition(old(self).shape_spec(), #[trigger] cols[i] as nat) < old(self).state().0.len()
                && target_row_id.0 * old(self).shape_spec().dense_dim + old(self).shape_spec().col_per_partition <= usize::MAX,
        ensures
            final(self).state() == evil_row_spec(old(self).state(), old(self).shape_spec(), target_row_id.0 as nat,
                mat_b_row_id.0 as nat, cols@),
            counted(final(self).state(), old(self).shape_spec(), k + 40 * cols.len(), d + 40 * cols.len()),
            same_units(final(self).state(), old(self).state()),
            final(self).shape_spec() == old(self).shape_spec(),
            final(self).ring_ports() == old(self).ring_ports(),
    {
        let ghost st0 = self.state();
        let ghost sh = self.shape;
        let mut i: usize = 0;
        while i < cols.len()
            invariant
                st0 == old(self).state(),
                sh == old(self).shape_spec(),
                i <= cols.len(),
                self.shape_spec() == sh,
                sh.col_per_partition > 0,
                self.ring_ports() == old(self).ring_ports(),
                forall|q: int| 0 <= q < cols.len() ==> col_partition(sh, #[trigger] cols[q] as nat) < st0.0.len()
                    && target_row_id.0 * sh.dense_dim + sh.col_per_partition <= usize::MAX,
                self.state() == evil_row_spec(st0, sh, target_row_id.0 as nat, mat_b_row_id.0 as nat, cols@.take(i as int)),
                counted(self.state(), sh, k + 40 * i, d + 40 * i),
                same_units(self.state(), st0),
                k + 40 * cols.len() + 40 <= usize::MAX,
            decreases cols.len() - i,
        {
            let col = cols[i];
            proof {
                assert(cols@.take(i + 1).drop_last() == cols@.take(i as int));
                assert(col_partition(sh, cols[i as int] as nat) < st0.0.len());
            }
            self.distribute_local_evil_row(target_row_id, mat_b_row_id, LogicColId(col as usize), Ghost(k + 40 * i), Ghost(d + 40 * i));
            i += 1;
        }
        proof {
            assert(cols@.take(i as int) == cols@);
        }
    }

    /// The products of one target row with evil columns, given as (row of
    /// matrix B, column) pairs: a product whose column lives with the target
    /// row is computed in place; for the others the row is read in the
    /// target row's subarray, and once every pair is seen one product per
    /// such column is sent, in increasing column order, from the dispatcher
    /// of that subarray.
    fn distribute_evil_col(&mut self, target_row_id: LogicRowId, row_id_col_id: &Vec<(LogicRowId, LogicColId)>,
        Ghost(k): Ghost<int>, Ghost(d): Ghost<int>)
        requires
            counted(old(self).state(), old(self).shape_spec(), k, d),
            k + 80 * row_id_col_id.len() + 80 <= usize::MAX,
            shape_ok(old(self).shape_spec(), old(self).state()),
            forall|i: int| 0 <= i < row_id_col_id.len() ==> product_fits(old(self).state(), old(self).shape_spec(),
                target_row_id.0 as nat, (#[trigger] row_id_col_id[i]).0.0 as nat, row_id_col_id[i].1.0 as nat),
        ensures
            final(self).state() == evil_col_spec(old(self).state(), old(self).shape_spec(), target_row_id.0 as nat, row_id_col_id@),
            counted(final(self).state(), old(self).shape_spec(), k + 80 * row_id_col_id.len(), d + 80 * row_id_col_id.len()),
            same_units(final(self).state(), old(self).state()),
            final(self).shape_spec() == old(self).shape_spec(),
            final(self).ring_ports() == old(self).ring_ports(),
    {
        let ghost st0 = self.state();
        let ghost sh = self.shape;
        let ghost target = target_row_id.0 as nat;
        let ghost pairs = row_id_col_id@;
        let n = row_id_col_id.len();
        let mut remote: Vec<usize> = Vec::new();
        let mut local_subarray_id: Option<SubarrayId> = None;
        let mut i: usize = 0;
        while i < n
            invariant
                st0 == old(self).state(),
                sh == old(self).shape_spec(),
                target == target_row_id.0 as nat,
                i <= n,
                n == pairs.len(),
                pairs == row_id_col_id@,
                self.shape_spec() == sh,
                self.ring_ports() == old(self).ring_ports(),
                shape_ok(sh, st0),
                forall|q: int| 0 <= q < n ==> product_fits(st0, sh, target, (#[trigger] pairs[q]).0.0 as nat, pairs[q].1.0 as nat),
                self.state() == evil_col_local_spec(st0, sh, target, pairs.take(i as int)),
                increasing(remote@),
                remote@.to_set() == evil_col_remote_set(sh, target, pairs.take(i as int)),
                remote.len() <= i,
                remote.len() > 0 ==> local_subarray_id is Some,
                local_subarray_id is Some ==> local_subarray_id == Some(SubarrayId(row_partition(sh, target) as usize)),
                counted(self.state(), sh, k + 40 * i, d + 40 * i),
                same_units(self.state(), st0),
                k + 80 * n + 80 <= usize::MAX,
            decreases n - i,
        {
            let (mat_b_row_id, col_id) = row_id_col_id[i];
            assert(pairs[i as int] == (mat_b_row_id, col_id));
            proof {
                assert(pairs.take(i + 1).drop_last() == pairs.take(i as int));
                assert(pairs.take(i + 1).last() == pairs[i as int]);
                assert(product_fits(st0, sh, target, pairs[i as int].0.0 as nat, pairs[i as int].1.0 as nat));
            }
            let partition_id = self.get_partition_id_row(target_row_id);
            let target_partition_id = self.get_partition_id_col(col_id);
            if partition_id.0 == target_partition_id.0 {
                self.distribute_local(target_row_id, mat_b_row_id, col_id, Ghost(k + 40 * i), Ghost(d + 40 * i));
                proof {
                    assert(evil_col_remote_set(sh, target, pairs.take(i + 1)) =~= evil_col_remote_set(sh, target, pairs.take(i as int))) by {
                        assert forall|c: usize| evil_col_remote_set(sh, target, pairs.take(i + 1)).contains(c)
                            implies evil_col_remote_set(sh, target, pairs.take(i as int)).contains(c) by {
                            let q = choose|q: int| 0 <= q < pairs.take(i + 1).len() && (#[trigger] pairs.take(i + 1)[q]).1.0 == c
                                && row_partition(sh, target) != col_partition(sh, c as nat);
                            assert(q != i);
                            assert(pairs.take(i as int)[q] == pairs.take(i + 1)[q]);
                        }
                        assert forall|c: usize| evil_col_remote_set(sh, target, pairs.take(i as int)).contains(c)
                            implies evil_col_remote_set(sh, target, pairs.take(i + 1)).contains(c) by {
                            let q = choose|q: int| 0 <= q < pairs.take(i as int).len() && (#[trigger] pairs.take(i as int)[q]).1.0 == c
                                && row_partition(sh, target) != col_partition(sh, c as nat);
                            assert(pairs.take(i + 1)[q] == pairs.take(i as int)[q]);
                        }
                    }
                }
            } else {
                self.remote_read(partition_id, mat_b_row_id, col_id, Ghost(k + 40 * i), Ghost(d + 40 * i));
                insert_sorted(&mut remote, col_id.0);
                match local_subarray_id {
                    Some(_) => {},
                    None => {
                        local_subarray_id = Some(partition_id);
                    },
                }
                proof {
                    assert(evil_col_remote_set(sh, target, pairs.take(i + 1)) =~= evil_col_remote_set(sh, target, pairs.take(i as int)).insert(col_id.0)) by {
                        assert forall|c: usize| evil_col_remote_set(sh, target, pairs.take(i + 1)).contains(c)
                            implies evil_col_remote_set(sh, target, pairs.take(i as int)).insert(col_id.0).contains(c) by {
                            let q = choose|q: int| 0 <= q < pairs.take(i + 1).len() && (#[trigger] pairs.take(i + 1)[q]).1.0 == c
                                && row_partition(sh, target) != col_partition(sh, c as nat);
                            if q != i {
                                assert(pairs.take(i as int)[q] == pairs.take(i + 1)[q]);
                            }
                        }
                        assert forall|c: usize| evil_col_remote_set(sh, target, pairs.take(i as int)).insert(col_id.0).contains(c)
                            implies evil_col_remote_set(sh, target, pairs.take(i + 1)).contains(c) by {
                            if c == col_id.0 {
                                assert(pairs.take(i + 1)[i as int].1.0 == c);
                            } else {
                                let q = choose|q: int| 0 <= q < pairs.take(i as int).len() && (#[trigger] pairs.take(i as int)[q]).1.0 == c
                                    && row_partition(sh, target) != col_partition(sh, c as nat);
                                assert(pairs.take(i + 1)[q] == pairs.take(i as int)[q]);
                            }
                        }
                    }
                }
            }
            i += 1;
        }
        proof {
            assert(pairs.take(n as int) == pairs);
        }
        let dispatcher_id = match local_subarray_id {
            Some(subarray_id) => Some(self.get_dispatcher_id(subarray_id)),
            None => None,
        };
        let ghost st1 = self.state();
        let ghost set = evil_col_remote_set(sh, target, pairs);
        let ghost disp = dispatcher_of(sh.config, row_partition(sh, target));
        proof {
            let q = in_order(set);
            assert(increasing(q) && q.to_set() == set);
            lemma_increasing_unique(remote@, q);
            lemma_dispatcher_before(sh.config, row_partition(sh, target));
        }
        let m = remote.len();
        let mut j: usize = 0;
        while j < m
            invariant
                st0 == old(self).state(),
                sh == old(self).shape_spec(),
                target == target_row_id.0 as nat,
                j <= m,
                m == remote.len(),
                m <= n,
                n == pairs.len(),
                self.shape_spec() == sh,
                self.ring_ports() == old(self).ring_ports(),
                shape_ok(sh, st0),
                forall|q: int| 0 <= q < n ==> product_fits(st0, sh, target, (#[trigger] pairs[q]).0.0 as nat, pairs[q].1.0 as nat),
                remote@ == in_order(set),
                remote@.to_set() == set,
                set == evil_col_remote_set(sh, target, pairs),
                disp == dispatcher_of(sh.config, row_partition(sh, target)),
                disp <= row_partition(sh, target),
                m > 0 ==> dispatcher_id == Some(SubarrayId(disp as usize)),
                self.state() == remote_cols_spec(st1, sh, target, disp, remote@.take(j as int)),
                counted(self.state(), sh, k + 40 * n + 40 * j, d + 40 * n + 40 * j),
                same_units(self.state(), st0),
                k + 80 * n + 80 <= usize::MAX,
            decreases m - j,
        {
            let col = remote[j];
            proof {
                assert(remote@.take(j + 1).drop_last() == remote@.take(j as int));
                assert(remote@.to_set().contains(col));
                let q = choose|q: int| 0 <= q < pairs.len() && (#[trigger] pairs[q]).1.0 == col
                    && row_partition(sh, target) != col_partition(sh, col as nat);
                assert(product_fits(st0, sh, target, pairs[q].0.0 as nat, pairs[q].1.0 as nat));
            }
            let dispatcher = match dispatcher_id {
                Some(x) => x,
                None => {
                    assert(false);
                    SubarrayId(0)
                },
            };
            self.distribute_remote(target_row_id, dispatcher, LogicColId(col), Ghost(k + 40 * n + 40 * j), Ghost(d + 40 * n + 40 * j));
            j += 1;
        }
        proof {
            assert(remote@.take(m as int) == remote@);
            lemma_counted_weaken(self.state(), sh, k + 40 * n + 40 * m, d + 40 * n + 40 * m, k + 80 * n, d + 80 * n);
        }
    }
}

// ---------------------------------------------------------------------------
// Closing a round
// ---------------------------------------------------------------------------

/// The largest value of `s`, zero for none.
pub open spec fn seq_max(s: Seq<int>) -> int
    decreases s.len(),
{
    if s.len() == 0 {
        0
    } else {
        let m = seq_max(s.drop_last());
        if s.last() > m { s.last() } else { m }
    }
}

/// The largest value is at least zero and at most any bound of the values.
pub proof fn lemma_seq_max_bound(s: Seq<int>, d: int)
    requires
        d >= 0,
        forall|i: int| 0 <= i < s.len() ==> #[trigger] s[i] <= d,
    ensures
        0 <= seq_max(s) <= d,
    decreases s.len(),
{
    if s.len() > 0 {
        lemma_seq_max_bound(s.drop_last(), d);
    }
}

/// The cycles of the round of every ring: those of its busiest segment.
pub open spec fn ring_round_cycles(st: HardwareState, ports: int) -> Seq<int> {
    Seq::new(st.1.len(), |r: int| max_ring_load(ports, st.1[r].0, ports) as int)
}

/// The cycles of the round of every TSV: one per transfer.
pub open spec fn tsv_round_cycles(st: HardwareState) -> Seq<int> {
    Seq::new(st.2.len(), |v: int| st.2[v].0 as int)
}

/// The products of the round that every ring buffer collected.
pub open spec fn buffer_round_tasks(st: HardwareState) -> Seq<int> {
    Seq::new(st.3.len(), |b: int| st.3[b] as int)
}

/// The local cycles of the round of every subarray.
pub open spec fn local_round_cycles(st: HardwareState) -> Seq<int> {
    Seq::new(st.0.len(), |p: int| st.0[p].3[0])
}

/// The remote cycles of the round of every subarray.
pub open spec fn remote_round_cycles(st: HardwareState) -> Seq<int> {
    Seq::new(st.0.len(), |p: int| st.0[p].3[10])
}

/// The hardware after a round closes: every ring adds the cycles of its
/// busiest segment and its transfers, every TSV one cycle and one transfer
/// per transfer, every subarray its counters, and everything of the round
/// is cleared.
pub open spec fn close_spec(st: HardwareState, ports: int) -> HardwareState {
    (Seq::new(st.0.len(), |p: int| close_round_spec(st.0[p])),
        Seq::new(st.1.len(), |r: int| (Seq::<(RingPort, RingPort)>::empty(), RingResult {
            cycle: (st.1[r].1.cycle + max_ring_load(ports, st.1[r].0, ports)) as usize,
            traffic: (st.1[r].1.traffic + st.1[r].0.len()) as usize,
        })),
        Seq::new(st.2.len(), |v: int| (0usize, TsvResult {
            cycle: (st.2[v].1.cycle + st.2[v].0) as usize,
            traffic: (st.2[v].1.traffic + st.2[v].0) as usize,
        })),
        Seq::new(st.3.len(), |b: int| 0usize))
}

/// The slowest of each kind in the round: ring, TSV, ring buffer, local
/// subarray work, remote subarray work.
pub open spec fn round_maxes(st: HardwareState, ports: int) -> (int, int, int, int, int) {
    (seq_max(ring_round_cycles(st, ports)), seq_max(tsv_round_cycles(st)), seq_max(buffer_round_tasks(st)),
        seq_max(local_round_cycles(st)), seq_max(remote_round_cycles(st)))
}

/// Closing a round keeps the units and the bound of the totals, clears the
/// round, and its slowest units took at most the bound of the round.
pub proof fn lemma_close_counted(st: HardwareState, sh: HardwareShape, k: int, d: int)
    requires
        counted(st, sh, k, d),
    ensures
        counted(close_spec(st, (sh.config.banks as u8) as int), sh, k, 0),
        same_units(close_spec(st, (sh.config.banks as u8) as int), st),
        ({
            let m = round_maxes(st, (sh.config.banks as u8) as int);
            &&& 0 <= m.0 <= d
            &&& 0 <= m.1 <= d
            &&& 0 <= m.2 <= d
            &&& 0 <= m.3 <= d
            &&& 0 <= m.4 <= d
        }),
{
    let ports = (sh.config.banks as u8) as int;
    let next = close_spec(st, ports);
    assert forall|p: int| 0 <= p < next.0.len() implies subarray_bounded(#[trigger] next.0[p], k) && round_at_most(next.0[p], 0) by {
        assert(subarray_bounded(st.0[p], k));
        assert(round_at_most(st.0[p], d));
    }
    assert forall|r: int| 0 <= r < next.1.len() implies (#[trigger] next.1[r]).1.cycle + next.1[r].0.len() <= k
        && next.1[r].1.traffic + next.1[r].0.len() <= k by {
        lemma_max_ring_load_bound(ports, st.1[r].0, ports);
        assert(st.1[r].1.cycle + st.1[r].0.len() <= k);
        assert(st.1[r].1.traffic + st.1[r].0.len() <= k);
    }
    assert forall|i: int| 0 <= i < ring_round_cycles(st, ports).len() implies #[trigger] ring_round_cycles(st, ports)[i] <= d by {
        lemma_max_ring_load_bound(ports, st.1[i].0, ports);
        assert(st.1[i].0.len() <= d);
    }
    lemma_seq_max_bound(ring_round_cycles(st, ports), d);
    assert forall|i: int| 0 <= i < tsv_round_cycles(st).len() implies #[trigger] tsv_round_cycles(st)[i] <= d by {
        assert(st.2[i].0 <= d);
    }
    lemma_seq_max_bound(tsv_round_cycles(st), d);
    assert forall|i: int| 0 <= i < buffer_round_tasks(st).len() implies #[trigger] buffer_round_tasks(st)[i] <= d by {
        assert(st.3[i] <= d);
    }
    lemma_seq_max_bound(buffer_round_tasks(st), d);
    assert forall|i: int| 0 <= i < local_round_cycles(st).len() implies #[trigger] local_round_cycles(st)[i] <= d by {
        assert(round_at_most(st.0[i], d));
        assert(st.0[i].3[0] <= d);
    }
    lemma_seq_max_bound(local_round_cycles(st), d);
    assert forall|i: int| 0 <= i < remote_round_cycles(st).len() implies #[trigger] remote_round_cycles(st)[i] <= d by {
        assert(round_at_most(st.0[i], d));
        assert(st.0[i].3[10] <= d);
    }
    lemma_seq_max_bound(remote_round_cycles(st), d);
}

impl Hardware {
    /// Closes the round of every unit and returns the slowest of each kind:
    /// (ring, TSV, ring buffer, local subarray, remote subarray).
    fn close_round(&mut self, Ghost(k): Ghost<int>, Ghost(d): Ghost<int>) -> (r: (usize, usize, usize, usize, usize))
        requires
            old(self).wf(),
            counted(old(self).state(), old(self).shape_spec(), k, d),
            k <= usize::MAX,
        ensures
            final(self).state() == close_spec(old(self).state(), (old(self).shape_spec().config.banks as u8) as int),
            (r.0 as int, r.1 as int, r.2 as int, r.3 as int, r.4 as int)
                == round_maxes(old(self).state(), (old(self).shape_spec().config.banks as u8) as int),
            r.0 <= d && r.1 <= d && r.2 <= d && r.3 <= d && r.4 <= d,
            counted(final(self).state(), old(self).shape_spec(), k, 0),
            same_units(final(self).state(), old(self).state()),
            final(self).wf(),
            final(self).shape_spec() == old(self).shape_spec(),
    {
        let ghost st0 = self.state();
        let ghost sh = self.shape;
        let ghost ports: int = (sh.config.banks as u8) as int;
        let ghost want = close_spec(st0, ports);
        // rings
        let ghost rv = ring_round_cycles(st0, ports);
        let nr = self.ring.len();
        let mut ring_max: usize = 0;
        let mut i: usize = 0;
        while i < nr
            invariant
                i <= nr,
                nr == st0.1.len(),
                self.shape == sh,
                ports == (sh.config.banks as u8) as int,
                want == close_spec(st0, ports),
                rv == ring_round_cycles(st0, ports),
                self.ring@.len() == nr,
                self.state().0 == st0.0,
                self.state().2 == st0.2,
                self.state().3 == st0.3,
                self.ring_ports() == old(self).ring_ports(),
                old(self).wf(),
                sh == old(self).shape_spec(),
                st0 == old(self).state(),
                counted(st0, sh, k, d),
                k <= usize::MAX,
                forall|q: int| 0 <= q < i ==> #[trigger] self.state().1[q] == want.1[q],
                forall|q: int| i <= q < nr ==> #[trigger] self.state().1[q] == st0.1[q],
                ring_max == seq_max(rv.take(i as int)),
            decreases nr - i,
        {
            proof {
                assert(old(self).ring_ports().len() == nr);
                assert(old(self).ring_ports()[i as int] == sh.config.banks as u8);
                assert(self.ring_ports()[i as int] == sh.config.banks as u8);
                assert(self.state().1[i as int] == st0.1[i as int]);
                assert forall|t: int| 0 <= t < self.ring[i as int].tasks.len()
                    implies ring_task_ok(self.ring[i as int].ports, #[trigger] self.ring[i as int].tasks[t]) by {
                    assert(ring_task_ok(sh.config.banks as u8, st0.1[i as int].0[t]));
                }
                assert(st0.1[i as int].1.cycle + st0.1[i as int].0.len() <= k);
                assert(rv.take(i + 1).drop_last() == rv.take(i as int));
            }
            let ghost prev = self.state();
            let ghost prev_v = self.ring@;
            let c = self.ring[i].report_current_round();
            proof {
                assert forall|q: int| 0 <= q < nr && q != i implies #[trigger] self.state().1[q] == prev.1[q] by {
                    assert(self.ring@[q] == prev_v[q]);
                }
            }
            if c > ring_max {
                ring_max = c;
            }
            proof {
                assert(self.state().1[i as int] == want.1[i as int]);
                assert(self.state().0 =~= st0.0);
                assert(self.state().2 =~= st0.2);
                assert(self.state().3 =~= st0.3);
                assert(self.ring_ports() =~= old(self).ring_ports());
            }
            i += 1;
        }
        proof {
            assert(rv.take(nr as int) == rv);
            assert(self.state().1 =~= want.1);
        }
        // TSVs
        let ghost st1 = self.state();
        let ghost tv = tsv_round_cycles(st0);
        let nt = self.tsv.len();
        let mut tsv_max: usize = 0;
        let mut i: usize = 0;
        while i < nt
            invariant
                i <= nt,
                nt == st0.2.len(),
                self.shape == sh,
                want == close_spec(st0, ports),
                tv == tsv_round_cycles(st0),
                self.tsv@.len() == nt,
                st1.0 == st0.0,
                st1.1 == want.1,
                st1.2 == st0.2,
                st1.3 == st0.3,
                self.state().0 == st1.0,
                self.state().1 == st1.1,
                self.state().3 == st1.3,
                self.ring_ports() == old(self).ring_ports(),
                counted(st0, sh, k, d),
                k <= usize::MAX,
                forall|q: int| 0 <= q < i ==> #[trigger] self.state().2[q] == want.2[q],
                forall|q: int| i <= q < nt ==> #[trigger] self.state().2[q] == st0.2[q],
                tsv_max == seq_max(tv.take(i as int)),
            decreases nt - i,
        {
            proof {
                assert(self.state().2[i as int] == st0.2[i as int]);
                assert(st0.2[i as int].1.cycle + st0.2[i as int].0 <= k);
                assert(tv.take(i + 1).drop_last() == tv.take(i as int));
            }
            let ghost prev = self.state();
            let ghost prev_v = self.tsv@;
            let c = self.tsv[i].report_current_round();
            proof {
                assert forall|q: int| 0 <= q < nt && q != i implies #[trigger] self.state().2[q] == prev.2[q] by {
                    assert(self.tsv@[q] == prev_v[q]);
                }
            }
            if c > tsv_max {
                tsv_max = c;
            }
            proof {
                assert(self.state().2[i as int] == want.2[i as int]);
                assert(self.state().0 =~= st1.0);
                assert(self.state().1 =~= st1.1);
                assert(self.state().3 =~= st1.3);
                assert(self.ring_ports() =~= old(self).ring_ports());
            }
            i += 1;
        }
        proof {
            assert(tv.take(nt as int) == tv);
            assert(self.state().2 =~= want.2);
        }
        // ring buffers
        let ghost st2 = self.state();
        let ghost bv = buffer_round_tasks(st0);
        let nb = self.ring_buffer.len();
        let mut buffer_max: usize = 0;
        let mut i: usize = 0;
        while i < nb
            invariant
                i <= nb,
                nb == st0.3.len(),
                self.shape == sh,
                want == close_spec(st0, ports),
                bv == buffer_round_tasks(st0),
                self.ring_buffer@.len() == nb,
                st2.0 == st0.0,
                st2.1 == want.1,
                st2.2 == want.2,
                st2.3 == st0.3,
                self.state().0 == st2.0,
                self.state().1 == st2.1,
                self.state().2 == st2.2,
                self.ring_ports() == old(self).ring_ports(),
                forall|q: int| 0 <= q < i ==> #[trigger] self.state().3[q] == want.3[q],
                forall|q: int| i <= q < nb ==> #[trigger] self.state().3[q] == st0.3[q],
                buffer_max == seq_max(bv.take(i as int)),
            decreases nb - i,
        {
            proof {
                assert(self.state().3[i as int] == st0.3[i as int]);
                assert(bv.take(i + 1).drop_last() == bv.take(i as int));
            }
            let ghost prev = self.state();
            let ghost prev_v = self.ring_buffer@;
            let c = self.ring_buffer[i].report_and_reset();
            proof {
                assert forall|q: int| 0 <= q < nb && q != i implies #[trigger] self.state().3[q] == prev.3[q] by {
                    assert(self.ring_buffer@[q] == prev_v[q]);
                }
            }
            if c > buffer_max {
                buffer_max = c;
            }
            proof {
                assert(self.state().3[i as int] == want.3[i as int]);
                assert(self.state().0 =~= st2.0);
                assert(self.state().1 =~= st2.1);
                assert(self.state().2 =~= st2.2);
                assert(self.ring_ports() =~= old(self).ring_ports());
            }
            i += 1;
        }
        proof {
            assert(bv.take(nb as int) == bv);
            assert(self.state().3 =~= want.3);
        }
        // subarrays
        let ghost st3 = self.state();
        let ghost lv = local_round_cycles(st0);
        let ghost mv = remote_round_cycles(st0);
        let ns = self.sub_array.len();
        let mut local_max: usize = 0;
        let mut remote_max: usize = 0;
        let mut i: usize = 0;
        while i < ns
            invariant
                i <= ns,
                ns == st0.0.len(),
                self.shape == sh,
                want == close_spec(st0, ports),
                lv == local_round_cycles(st0),
                mv == remote_round_cycles(st0),
                self.sub_array@.len() == ns,
                st3.0 == st0.0,
                st3.1 == want.1,
                st3.2 == want.2,
                st3.3 == want.3,
                self.state().1 == st3.1,
                self.state().2 == st3.2,
                self.state().3 == st3.3,
                self.ring_ports() == old(self).ring_ports(),
                counted(st0, sh, k, d),
                k <= usize::MAX,
                forall|q: int| 0 <= q < i ==> #[trigger] self.state().0[q] == want.0[q],
                forall|q: int| i <= q < ns ==> #[trigger] self.state().0[q] == st0.0[q],
                local_max == seq_max(lv.take(i as int)),
                remote_max == seq_max(mv.take(i as int)),
            decreases ns - i,
        {
            proof {
                assert(self.state().0[i as int] == st0.0[i as int]);
                assert(subarray_bounded(st0.0[i as int], k));
                assert(lv.take(i + 1).drop_last() == lv.take(i as int));
                assert(mv.take(i + 1).drop_last() == mv.take(i as int));
            }
            let ghost prev = self.state();
            let ghost prev_v = self.sub_array@;
            let (l, m) = self.sub_array[i].report_current_round();
            proof {
                assert forall|q: int| 0 <= q < ns && q != i implies #[trigger] self.state().0[q] == prev.0[q] by {
                    assert(self.sub_array@[q] == prev_v[q]);
                }
            }
            if l > local_max {
                local_max = l;
            }
            if m > remote_max {
                remote_max = m;
            }
            proof {
                assert(self.state().0[i as int] == want.0[i as int]);
                assert(self.state().1 =~= st3.1);
                assert(self.state().2 =~= st3.2);
                assert(self.state().3 =~= st3.3);
                assert(self.ring_ports() =~= old(self).ring_ports());
            }
            i += 1;
        }
        proof {
            assert(lv.take(ns as int) == lv);
            assert(mv.take(ns as int) == mv);
            assert(self.state().0 =~= want.0);
            assert(self.state() == want);
            lemma_close_counted(st0, sh, k, d);
        }
        (ring_max, tsv_max, buffer_max, local_max, remote_max)
    }
}

// ---------------------------------------------------------------------------
// The simulation
// ---------------------------------------------------------------------------

/// The products of row `b` with its columns that are not evil, in order:
/// local when the column lives with the row, else read where the row lives
/// and sent from the dispatcher of that subarray.
pub open spec fn plain_cols_spec(st: HardwareState, sh: HardwareShape, evil_cols: Set<usize>, target: nat, b: nat, cols: Seq<u32>) -> HardwareState
    decreases cols.len(),
{
    if cols.len() == 0 {
        st
    } else {
        let prev = plain_cols_spec(st, sh, evil_cols, target, b, cols.drop_last());
        let c = cols.last() as nat;
        let src = row_partition(sh, b);
        if evil_cols.contains(c as usize) {
            prev
        } else if col_partition(sh, c) == src {
            distribute_local_spec(prev, sh, target, b, c)
        } else {
            read_remote_spec(prev, sh, target, dispatcher_of(sh.config, src), src, b, c)
        }
    }
}

/// The products of nonzero (`target`, `b`) of the input made as its row
/// of matrix B is walked: every column of an evil row in place, else each
/// column that is not evil.
pub open spec fn entry_spec(st: HardwareState, sh: HardwareShape, evil_rows: Set<usize>, evil_cols: Set<usize>, mb: CsrPattern, target: nat, b: nat) -> HardwareState {
    let row = mb.indices[b as int]@;
    if evil_rows.contains(b as usize) {
        evil_row_spec(st, sh, target, b, row)
    } else {
        plain_cols_spec(st, sh, evil_cols, target, b, row)
    }
}

/// The evil-column products that nonzero `b` of the input leaves for the
/// end of its input row: none for an evil row, else one (row, column) pair
/// per evil column of row `b` of matrix B, in order.
pub open spec fn entry_pairs(evil_rows: Set<usize>, evil_cols: Set<usize>, mb: CsrPattern, b: nat) -> Seq<(LogicRowId, LogicColId)> {
    if evil_rows.contains(b as usize) {
        Seq::empty()
    } else {
        evil_pairs(evil_cols, b, mb.indices[b as int]@)
    }
}

/// The evil-column products of the nonzeros `bs` of one input row, in order.
pub open spec fn row_pairs(evil_rows: Set<usize>, evil_cols: Set<usize>, mb: CsrPattern, bs: Seq<u32>) -> Seq<(LogicRowId, LogicColId)>
    decreases bs.len(),
{
    if bs.len() == 0 {
        Seq::empty()
    } else {
        row_pairs(evil_rows, evil_cols, mb, bs.drop_last()) + entry_pairs(evil_rows, evil_cols, mb, bs.last() as nat)
    }
}

/// The products of the nonzeros `bs` of input row `target` as they are
/// walked, in order, without the evil-column products.
pub open spec fn entries_spec(st: HardwareState, sh: HardwareShape, evil_rows: Set<usize>, evil_cols: Set<usize>, mb: CsrPattern, target: nat, bs: Seq<u32>) -> HardwareState
    decreases bs.len(),
{
    if bs.len() == 0 {
        st
    } else {
        entry_spec(entries_spec(st, sh, evil_rows, evil_cols, mb, target, bs.drop_last()), sh, evil_rows, evil_cols, mb, target, bs.last() as nat)
    }
}

/// The products of input row `target` with nonzeros `bs`: the walk over the
/// nonzeros, then the evil-column products of the whole row at once.
pub open spec fn input_row_spec(st: HardwareState, sh: HardwareShape, evil_rows: Set<usize>, evil_cols: Set<usize>, mb: CsrPattern, target: nat, bs: Seq<u32>) -> HardwareState {
    evil_col_spec(entries_spec(st, sh, evil_rows, evil_cols, mb, target, bs), sh, target, row_pairs(evil_rows, evil_cols, mb, bs))
}

/// Nonzero `j` of input row `r` names a row of matrix B, and each of its
/// products fits the hardware.
pub open spec fn entry_fits(st: HardwareState, sh: HardwareShape, mb: CsrPattern, input: CsrPattern, r: int, j: int) -> bool {
    let b = input.indices[r]@[j] as int;
    &&& b < mb.indices.len()
    &&& forall|q: int| 0 <= q < mb.indices[b]@.len() ==> product_fits(st, sh, r as nat, b as nat, #[trigger] mb.indices[b]@[q] as nat)
}

/// Every nonzero of the input names a row of matrix B, and each of its
/// products fits the hardware.
pub open spec fn input_fits(st: HardwareState, sh: HardwareShape, mb: CsrPattern, input: CsrPattern) -> bool {
    forall|r: int, j: int| 0 <= r < input.indices.len() && 0 <= j < input.indices[r]@.len()
        ==> #[trigger] entry_fits(st, sh, mb, input, r, j)
}

/// The sums of the slowest units over the rounds: local subarray cycles,
/// remote subarray cycles, ring cycles, TSV cycles, local cycles counting
/// the ring buffers, ring-buffer products.
pub type Totals = (int, int, int, int, int, int);

/// The totals after one more round whose slowest units are `m` (ring, TSV,
/// ring buffer, local, remote).
pub open spec fn add_round(t: Totals, m: (int, int, int, int, int)) -> Totals {
    (t.0 + m.3, t.1 + m.4, t.2 + m.0, t.3 + m.1, t.4 + (if m.3 >= m.2 { m.3 } else { m.2 }), t.5 + m.2)
}

/// The hardware and the totals after the first `r` rows of the input, a
/// round closing after every `batch` rows.
pub open spec fn rounds_spec(st: HardwareState, sh: HardwareShape, evil_rows: Set<usize>, evil_cols: Set<usize>, mb: CsrPattern,
    input: CsrPattern, batch: nat, r: int) -> (HardwareState, Totals)
    decreases r,
{
    if r <= 0 {
        (st, (0, 0, 0, 0, 0, 0))
    } else {
        let (prev, t) = rounds_spec(st, sh, evil_rows, evil_cols, mb, input, batch, r - 1);
        let s1 = input_row_spec(prev, sh, evil_rows, evil_cols, mb, (r - 1) as nat, input.indices[r - 1]@);
        if r % (batch as int) == 0 {
            let ports = (sh.config.banks as u8) as int;
            (close_spec(s1, ports), add_round(t, round_maxes(s1, ports)))
        } else {
            (s1, t)
        }
    }
}

/// The sums of the slowest units over the rounds of a run.
#[derive(Debug, Clone, Copy, PartialEq, Eq, Structural)]
pub struct TotalResult {
    pub global_max_acc_cycle: usize,
    pub global_max_acc_cycle_remote: usize,
    pub gloabl_max_acc_ring: usize,
    pub global_max_acc_tsv: usize,
    pub global_max_real_local: usize,
    pub global_max_ring_buffer: usize,
}

impl TotalResult {
    /// The totals as numbers.
    pub open spec fn fields(t: Self) -> Totals {
        (t.global_max_acc_cycle as int, t.global_max_acc_cycle_remote as int, t.gloabl_max_acc_ring as int,
            t.global_max_acc_tsv as int, t.global_max_real_local as int, t.global_max_ring_buffer as int)
    }
}

/// The statistics of one graph under one batch size.
pub struct SingleResult {
    pub name: String,
    pub batch: usize,
    pub subarray_result: Vec<SubArrayResult>,
    pub ring_result: Vec<RingResult>,
    pub tsv_result: Vec<TsvResult>,
    pub total_result: TotalResult,
}

/// The gearbox simulation in rounds.
pub struct GearboxSim {
    pub row_per_partition: usize,
    pub col_per_partition: usize,
    /// The evil columns: they have a copy in every partition.
    pub evil_col_ids: IdSet,
    /// The evil rows: they are spread over every partition, so no remote
    /// access is needed for them.
    pub evil_row_ids: IdSet,
    pub matrix_b: CsrPattern,
    pub hardware: Hardware,
}

impl GearboxSim {
    /// A simulation over every subarray of every bank of every channel:
    /// the rows and the columns of matrix B are split into blocks of equal
    /// size (rounded up, at least one).
    pub fn new(evil_col_ids: Vec<usize>, evil_row_ids: Vec<usize>, matrix_b: CsrPattern, config: &HardwareConfig) -> (r: Self)
        requires
            config.channels * config.banks * config.subarrays > 0,
            config.channels * config.banks * config.subarrays + matrix_b.indices.len() <= usize::MAX,
            config.channels * config.banks * config.subarrays + matrix_b.cols <= usize::MAX,
        ensures
            r.row_per_partition == per_partition(matrix_b.indices.len() as nat, (config.channels * config.banks * config.subarrays) as nat),
            r.col_per_partition == per_partition(matrix_b.cols as nat, (config.channels * config.banks * config.subarrays) as nat),
            id_set_contents(r.evil_col_ids) == evil_col_ids@.to_set(),
            id_set_contents(r.evil_row_ids) == evil_row_ids@.to_set(),
            r.matrix_b == matrix_b,
            r.hardware.wf(),
            r.hardware.state().0 == Seq::new((config.channels * config.banks * config.subarrays) as nat, |_i: int| fresh_subarray()),
            r.hardware.state().1 == Seq::new(config.channels as nat, |_i: int| (Seq::<(RingPort, RingPort)>::empty(), RingResult { cycle: 0, traffic: 0 })),
            r.hardware.state().2 == Seq::new(config.channels as nat, |_i: int| (0usize, TsvResult { cycle: 0, traffic: 0 })),
            r.hardware.state().3 == Seq::new((config.channels * config.banks) as nat, |_i: int| 0usize),
            r.hardware.shape_spec() == (HardwareShape {
                config: *config,
                dense_dim: if (matrix_b.cols as nat) / ((config.channels * config.banks * config.subarrays) as nat) == 0 { 1 }
                    else { ((matrix_b.cols as nat) / ((config.channels * config.banks * config.subarrays) as nat)) as usize },
                row_per_partition: r.row_per_partition,
                col_per_partition: r.col_per_partition,
            }),
    {
        proof {
            assert(config.channels * config.banks <= config.channels * config.banks * config.subarrays) by (nonlinear_arith)
                requires config.channels * config.banks * config.subarrays > 0;
        }
        let num_partitions = config.channels * config.banks * config.subarrays;
        let num_rows = matrix_b.rows();
        let num_cols = matrix_b.cols;
        let mut row_per_partition = (num_rows + num_partitions - 1) / num_partitions;
        let mut col_per_partition = (num_cols + num_partitions - 1) / num_partitions;
        if row_per_partition == 0 {
            row_per_partition = 1;
        }
        if col_per_partition == 0 {
            col_per_partition = 1;
        }
        let mut dense_dim = num_cols / num_partitions;
        if dense_dim == 0 {
            dense_dim = 1;
        }
        let hardware = Hardware::new(dense_dim, *config, row_per_partition, col_per_partition);
        GearboxSim {
            row_per_partition,
            col_per_partition,
            evil_col_ids: collect_ids(evil_col_ids),
            evil_row_ids: collect_ids(evil_row_ids),
            matrix_b,
            hardware,
        }
    }

    /// The subarray that holds row `row_id` of matrix B.
    pub fn get_partition_id_row(&self, row_id: LogicRowId) -> (r: SubarrayId)
        requires
            self.hardware.shape_spec().row_per_partition > 0,
        ensures
            r.0 == row_partition(self.hardware.shape_spec(), row_id.0 as nat),
    {
        self.hardware.get_partition_id_row(row_id)
    }

    /// The subarray that holds the results of column `col_id`.
    pub fn get_partition_id_col(&self, col_id: LogicColId) -> (r: SubarrayId)
        requires
            self.hardware.shape_spec().col_per_partition > 0,
        ensures
            r.0 == col_partition(self.hardware.shape_spec(), col_id.0 as nat),
    {
        self.hardware.get_partition_id_col(col_id)
    }
}

impl GearboxSim {
    /// The products of nonzero (`target_id`, `mat_b_row_id`) of the input;
    /// its evil-column products are added to `pairs`, left for the end of
    /// the input row.
    fn process_entry(&mut self, target_id: usize, mat_b_row_id: usize, pairs: &mut Vec<(LogicRowId, LogicColId)>,
        Ghost(k): Ghost<int>, Ghost(d): Ghost<int>)
        requires
            ({
                let st = old(self).hardware.state();
                let sh = old(self).hardware.shape_spec();
                let mb = old(self).matrix_b;
                &&& shape_ok(sh, st)
                &&& sh.row_per_partition > 0
                &&& sh.col_per_partition > 0
                &&& mat_b_row_id < mb.indices.len()
                &&& forall|q: int| 0 <= q < mb.indices[mat_b_row_id as int]@.len()
                    ==> product_fits(st, sh, target_id as nat, mat_b_row_id as nat, #[trigger] mb.indices[mat_b_row_id as int]@[q] as nat)
                &&& counted(st, sh, k, d)
                &&& k + 80 * mb.indices[mat_b_row_id as int]@.len() + 80 <= usize::MAX
            }),
        ensures
            final(self).hardware.state() == entry_spec(old(self).hardware.state(), old(self).hardware.shape_spec(),
                id_set_contents(old(self).evil_row_ids), id_set_contents(old(self).evil_col_ids), old(self).matrix_b,
                target_id as nat, mat_b_row_id as nat),
            final(pairs)@ == old(pairs)@ + entry_pairs(id_set_contents(old(self).evil_row_ids), id_set_contents(old(self).evil_col_ids),
                old(self).matrix_b, mat_b_row_id as nat),
            entry_pairs(id_set_contents(old(self).evil_row_ids), id_set_contents(old(self).evil_col_ids),
                old(self).matrix_b, mat_b_row_id as nat).len() <= old(self).matrix_b.indices[mat_b_row_id as int]@.len(),
            forall|q: int| 0 <= q < final(pairs).len() - old(pairs).len() ==> product_fits(old(self).hardware.state(),
                old(self).hardware.shape_spec(), target_id as nat,
                (#[trigger] final(pairs)[old(pairs).len() + q]).0.0 as nat, final(pairs)[old(pairs).len() + q].1.0 as nat),
            counted(final(self).hardware.state(), old(self).hardware.shape_spec(),
                k + 80 * old(self).matrix_b.indices[mat_b_row_id as int]@.len(),
                d + 80 * old(self).matrix_b.indices[mat_b_row_id as int]@.len()),
            same_units(final(self).hardware.state(), old(self).hardware.state()),
            final(self).hardware.shape_spec() == old(self).hardware.shape_spec(),
            final(self).hardware.ring_ports() == old(self).hardware.ring_ports(),
            final(self).row_per_partition == old(self).row_per_partition,
            final(self).col_per_partition == old(self).col_per_partition,
            final(self).evil_row_ids == old(self).evil_row_ids,
            final(self).evil_col_ids == old(self).evil_col_ids,
            final(self).matrix_b == old(self).matrix_b,
    {
        let ghost st0 = self.hardware.state();
        let ghost sh = self.hardware.shape_spec();
        let ghost ecs = id_set_contents(self.evil_col_ids);
        let ghost before = pairs@;
        let row = &self.matrix_b.indices[mat_b_row_id];
        let ghost cols = row@;
        if id_set_contains(&self.evil_row_ids, mat_b_row_id) {
            self.hardware.distribute_evil_row(LogicRowId(target_id), LogicRowId(mat_b_row_id), row, Ghost(k), Ghost(d));
            proof {
                lemma_counted_weaken(self.hardware.state(), sh, k + 40 * cols.len(), d + 40 * cols.len(),
                    k + 80 * cols.len(), d + 80 * cols.len());
                assert(before + Seq::<(LogicRowId, LogicColId)>::empty() =~= before);
            }
            return;
        }
        let n = row.len();
        let mut i: usize = 0;
        while i < n
            invariant
                i <= n,
                n == cols.len(),
                *row == self.matrix_b.indices[mat_b_row_id as int],
                cols == row@,
                st0 == old(self).hardware.state(),
                sh == old(self).hardware.shape_spec(),
                ecs == id_set_contents(self.evil_col_ids),
                self.row_per_partition == old(self).row_per_partition,
                self.col_per_partition == old(self).col_per_partition,
                self.evil_row_ids == old(self).evil_row_ids,
                self.evil_col_ids == old(self).evil_col_ids,
                self.matrix_b == old(self).matrix_b,
                mat_b_row_id < self.matrix_b.indices.len(),
                self.hardware.shape_spec() == sh,
                self.hardware.ring_ports() == old(self).hardware.ring_ports(),
                shape_ok(sh, st0),
                sh.row_per_partition > 0,
                sh.col_per_partition > 0,
                forall|q: int| 0 <= q < n ==> product_fits(st0, sh, target_id as nat, mat_b_row_id as nat, #[trigger] cols[q] as nat),
                self.hardware.state() == plain_cols_spec(st0, sh, ecs, target_id as nat, mat_b_row_id as nat, cols.take(i as int)),
                pairs@ == before + evil_pairs(ecs, mat_b_row_id as nat, cols.take(i as int)),
                evil_pairs(ecs, mat_b_row_id as nat, cols.take(i as int)).len() <= i,
                counted(self.hardware.state(), sh, k + 80 * i, d + 80 * i),
                same_units(self.hardware.state(), st0),
                k + 80 * n + 80 <= usize::MAX,
            decreases n - i,
        {
            let col = row[i];
            proof {
                assert(cols.take(i + 1).drop_last() == cols.take(i as int));
                assert(cols.take(i + 1).last() == col);
                assert(product_fits(st0, sh, target_id as nat, mat_b_row_id as nat, cols[i as int] as nat));
            }
            if id_set_contains(&self.evil_col_ids, col as usize) {
                pairs.push((LogicRowId(mat_b_row_id), LogicColId(col as usize)));
                proof {
                    assert(pairs@ =~= before + evil_pairs(ecs, mat_b_row_id as nat, cols.take(i + 1)));
                    lemma_counted_weaken(self.hardware.state(), sh, k + 80 * i, d + 80 * i, k + 80 * (i + 1), d + 80 * (i + 1));
                }
            } else {
                let target_partition = self.get_partition_id_col(LogicColId(col as usize));
                let source_partition = self.get_partition_id_row(LogicRowId(mat_b_row_id));
                if target_partition.0 == source_partition.0 {
                    self.hardware.distribute_local(LogicRowId(target_id), LogicRowId(mat_b_row_id), LogicColId(col as usize),
                        Ghost(k + 80 * i), Ghost(d + 80 * i));
                    proof {
                        lemma_counted_weaken(self.hardware.state(), sh, k + 80 * i + 40, d + 80 * i + 40, k + 80 * (i + 1), d + 80 * (i + 1));
                    }
                } else {
                    let dispatcher = self.hardware.get_dispatcher_id(source_partition);
                    proof {
                        lemma_dispatcher_before(sh.config, source_partition.0 as nat);
                    }
                    self.hardware.read_local_and_distribute_remote(LogicRowId(target_id), dispatcher, source_partition,
                        LogicRowId(mat_b_row_id), LogicColId(col as usize), Ghost(k + 80 * i), Ghost(d + 80 * i));
                }
            }
            i += 1;
        }
        proof {
            assert(cols.take(n as int) == cols);
            let added = evil_pairs(ecs, mat_b_row_id as nat, cols);
            assert forall|q: int| 0 <= q < pairs.len() - before.len() implies product_fits(st0, sh, target_id as nat,
                (#[trigger] pairs[before.len() + q]).0.0 as nat, pairs[before.len() + q].1.0 as nat) by {
                assert(pairs[before.len() + q] == added[q]);
                lemma_evil_pairs_from(ecs, mat_b_row_id as nat, cols, q);
                let t = choose|t: int| 0 <= t < cols.len() && cols[t] as usize == added[q].1.0;
                assert(product_fits(st0, sh, target_id as nat, mat_b_row_id as nat, cols[t] as nat));
            }
        }
    }
}

impl GearboxSim {
    /// A run of `input` in rounds of `batch` rows can go: the batch is not
    /// zero, the layout keeps every subarray on a ring, a TSV and a ring
    /// buffer with ports that fit their counters, every product of the input
    /// fits the hardware, no counter can overflow (each product raises one
    /// by at most 160), and when a round closes every kind of unit exists.
    pub open spec fn run_ok(&self, input: CsrPattern, batch: usize) -> bool {
        let st = self.hardware.state();
        let sh = self.hardware.shape_spec();
        let mb = self.matrix_b;
        let work = input_work(mb, input, input.indices.len() as int);
        let k0 = usize::MAX - 160 * work - 160;
        &&& batch > 0
        &&& self.hardware.wf()
        &&& shape_ok(sh, st)
        &&& input_fits(st, sh, mb, input)
        &&& 160 * work + 160 <= usize::MAX
        &&& counted(st, sh, k0, k0)
        &&& input.indices.len() >= batch ==> st.0.len() > 0 && st.1.len() > 0 && st.2.len() > 0 && st.3.len() > 0
    }

    /// Distributes the products of `input_mat` times matrix B row by row of
    /// the input, nonzero by nonzero, and for each, column by column of its
    /// row of matrix B; the evil-column products of an input row are
    /// gathered and reduced once, after its last nonzero. After every
    /// `current_batch` rows the round closes, and the slowest unit of each
    /// kind adds to the totals returned.
    pub fn run(&mut self, input_mat: &CsrPattern, current_batch: usize) -> (r: TotalResult)
        requires
            old(self).run_ok(*input_mat, current_batch),
        ensures
            (final(self).hardware.state(), TotalResult::fields(r)) == rounds_spec(old(self).hardware.state(),
                old(self).hardware.shape_spec(), id_set_contents(old(self).evil_row_ids), id_set_contents(old(self).evil_col_ids),
                old(self).matrix_b, *input_mat, current_batch as nat, input_mat.indices.len() as int),
            final(self).hardware.shape_spec() == old(self).hardware.shape_spec(),
            final(self).hardware.wf(),
            final(self).row_per_partition == old(self).row_per_partition,
            final(self).col_per_partition == old(self).col_per_partition,
            final(self).evil_row_ids == old(self).evil_row_ids,
            final(self).evil_col_ids == old(self).evil_col_ids,
            final(self).matrix_b == old(self).matrix_b,
    {
        let ghost st0 = self.hardware.state();
        let ghost sh = self.hardware.shape_spec();
        let ghost mb = self.matrix_b;
        let ghost ers = id_set_contents(self.evil_row_ids);
        let ghost ecs = id_set_contents(self.evil_col_ids);
        let ghost input = *input_mat;
        let ghost total = input_mat.indices.len() as int;
        let ghost work = input_work(mb, input, total);
        let ghost k0: int = usize::MAX - 160 * work - 160;
        let ghost batch = current_batch as nat;
        let ghost mut t: int = 0;
        let ghost mut e: int = k0;
        let mut global_max_acc_cycle: usize = 0;
        let mut global_max_acc_cycle_remote: usize = 0;
        let mut gloabl_max_acc_ring: usize = 0;
        let mut global_max_acc_tsv: usize = 0;
        let mut global_max_real_local: usize = 0;
        let mut global_max_ring_buffer: usize = 0;
        let rows = input_mat.indices.len();
        let mut r: usize = 0;
        while r < rows
            invariant
                r <= rows,
                rows == total,
                total == input_mat.indices.len(),
                input == *input_mat,
                batch == current_batch,
                batch > 0,
                st0 == old(self).hardware.state(),
                sh == old(self).hardware.shape_spec(),
                mb == self.matrix_b,
                ers == id_set_contents(self.evil_row_ids),
                ecs == id_set_contents(self.evil_col_ids),
                self.hardware.shape_spec() == sh,
                self.hardware.wf(),
                self.row_per_partition == old(self).row_per_partition,
                self.col_per_partition == old(self).col_per_partition,
                self.evil_row_ids == old(self).evil_row_ids,
                self.evil_col_ids == old(self).evil_col_ids,
                self.matrix_b == old(self).matrix_b,
                work == input_work(mb, input, total),
                160 * work + 160 <= usize::MAX,
                k0 == usize::MAX - 160 * work - 160,
                shape_ok(sh, st0),
                input_fits(st0, sh, mb, input),
                total >= batch ==> st0.0.len() > 0 && st0.1.len() > 0 && st0.2.len() > 0 && st0.3.len() > 0,
                (self.hardware.state(), (global_max_acc_cycle as int, global_max_acc_cycle_remote as int, gloabl_max_acc_ring as int,
                    global_max_acc_tsv as int, global_max_real_local as int, global_max_ring_buffer as int))
                    == rounds_spec(st0, sh, ers, ecs, mb, input, batch, r as int),
                0 <= t,
                0 <= e,
                t + e <= k0 + 160 * input_work(mb, input, r as int),
                counted(self.hardware.state(), sh, k0 + 160 * input_work(mb, input, r as int), e),
                global_max_acc_cycle <= t,
                global_max_acc_cycle_remote <= t,
                gloabl_max_acc_ring <= t,
                global_max_acc_tsv <= t,
                global_max_real_local <= t,
                global_max_ring_buffer <= t,
                same_units(self.hardware.state(), st0),
            decreases rows - r,
        {
            let row = &input_mat.indices[r];
            let ghost bs = row@;
            let ghost start = self.hardware.state();
            let ghost w0 = 160 * input_work(mb, input, r as int);
            proof {
                lemma_input_work_prefix(mb, input, r + 1, total);
            }
            let mut pairs: Vec<(LogicRowId, LogicColId)> = Vec::new();
            let n = row.len();
            let mut j: usize = 0;
            while j < n
                invariant
                    r < rows,
                    j <= n,
                    n == bs.len(),
                    *row == input.indices[r as int],
                    bs == row@,
                    rows == total,
                    total == input_mat.indices.len(),
                    input == *input_mat,
                    st0 == old(self).hardware.state(),
                    sh == old(self).hardware.shape_spec(),
                    mb == self.matrix_b,
                    ers == id_set_contents(self.evil_row_ids),
                    ecs == id_set_contents(self.evil_col_ids),
                    self.hardware.shape_spec() == sh,
                    self.hardware.wf(),
                    self.row_per_partition == old(self).row_per_partition,
                    self.col_per_partition == old(self).col_per_partition,
                    self.evil_row_ids == old(self).evil_row_ids,
                    self.evil_col_ids == old(self).evil_col_ids,
                    self.matrix_b == old(self).matrix_b,
                    work == input_work(mb, input, total),
                    160 * work + 160 <= usize::MAX,
                    k0 == usize::MAX - 160 * work - 160,
                    w0 == 160 * input_work(mb, input, r as int),
                    input_work(mb, input, r + 1) <= work,
                    shape_ok(sh, st0),
                    input_fits(st0, sh, mb, input),
                    0 <= e,
                    self.hardware.state() == entries_spec(start, sh, ers, ecs, mb, r as nat, bs.take(j as int)),
                    pairs@ == row_pairs(ers, ecs, mb, bs.take(j as int)),
                    pairs.len() <= row_work(mb, bs.take(j as int)),
                    forall|q: int| 0 <= q < pairs.len() ==> product_fits(st0, sh, r as nat,
                        (#[trigger] pairs[q]).0.0 as nat, pairs[q].1.0 as nat),
                    counted(self.hardware.state(), sh, k0 + w0 + 80 * row_work(mb, bs.take(j as int)),
                        e + 80 * row_work(mb, bs.take(j as int))),
                    same_units(self.hardware.state(), st0),
                decreases n - j,
            {
                let b = row[j] as usize;
                let ghost p0 = pairs@;
                proof {
                    assert(bs.take(j + 1).drop_last() == bs.take(j as int));
                    assert(bs.take(j + 1).last() == bs[j as int]);
                    lemma_row_work_prefix(mb, bs, j as int);
                    lemma_row_work_prefix(mb, bs, j + 1);
                    assert(input.indices[r as int]@[j as int] == bs[j as int]);
                    assert(entry_fits(st0, sh, mb, input, r as int, j as int));
                    assert((b as int) < mb.indices.len());
                    assert forall|q: int| 0 <= q < mb.indices[b as int]@.len() implies product_fits(self.hardware.state(), sh,
                        r as nat, b as nat, #[trigger] mb.indices[b as int]@[q] as nat) by {
                        assert(product_fits(st0, sh, r as nat, b as nat, mb.indices[b as int]@[q] as nat));
                    }
                }
                self.process_entry(r, b, &mut pairs, Ghost(k0 + w0 + 80 * row_work(mb, bs.take(j as int))),
                    Ghost(e + 80 * row_work(mb, bs.take(j as int))));
                proof {
                    assert forall|q: int| 0 <= q < pairs.len() implies product_fits(st0, sh, r as nat,
                        (#[trigger] pairs[q]).0.0 as nat, pairs[q].1.0 as nat) by {
                        if q < p0.len() {
                            assert(pairs[q] == p0[q]);
                        } else {
                            let q2 = q - p0.len();
                            assert(pairs[p0.len() + q2] == pairs[q]);
                        }
                    }
                }
                j += 1;
            }
            proof {
                assert(bs.take(n as int) == bs);
                lemma_row_work_prefix(mb, bs, n as int);
                assert(input_work(mb, input, r + 1) == input_work(mb, input, r as int) + row_work(mb, bs));
            }
            self.hardware.distribute_evil_col(LogicRowId(r), &pairs, Ghost(k0 + w0 + 80 * row_work(mb, bs)),
                Ghost(e + 80 * row_work(mb, bs)));
            proof {
                lemma_counted_weaken(self.hardware.state(), sh, k0 + w0 + 80 * row_work(mb, bs) + 80 * pairs.len(),
                    e + 80 * row_work(mb, bs) + 80 * pairs.len(), k0 + w0 + 160 * row_work(mb, bs), e + 160 * row_work(mb, bs));
                e = e + 160 * row_work(mb, bs);
            }
            if (r + 1) % current_batch == 0 {
                proof {
                    assert(r + 1 >= batch) by (nonlinear_arith) requires (r + 1) % (batch as int) == 0, r + 1 > 0, batch > 0;
                }
                let (ring_max_cycle, tsv_max_cycle, ring_buffer_max, max_local_cycle, max_remote_cycle) =
                    self.hardware.close_round(Ghost(k0 + 160 * input_work(mb, input, r + 1)), Ghost(e));
                let max_real_local_cycle = if max_local_cycle >= ring_buffer_max { max_local_cycle } else { ring_buffer_max };
                global_max_acc_cycle += max_local_cycle;
                global_max_acc_cycle_remote += max_remote_cycle;
                gloabl_max_acc_ring += ring_max_cycle;
                global_max_acc_tsv += tsv_max_cycle;
                global_max_real_local += max_real_local_cycle;
                global_max_ring_buffer += ring_buffer_max;
                proof {
                    t = t + e;
                    e = 0;
                }
            }
            r += 1;
        }
        TotalResult {
            global_max_acc_cycle,
            global_max_acc_cycle_remote,
            gloabl_max_acc_ring,
            global_max_acc_tsv,
            global_max_real_local,
            global_max_ring_buffer,
        }
    }
}

impl Hardware {
    /// The totals of every unit over the closed rounds, with the totals of
    /// the slowest units.
    pub fn report(&self, name: String, total_result: TotalResult, batch: usize) -> (r: SingleResult)
        ensures
            r.name@ == name@,
            r.batch == batch,
            r.total_result == total_result,
            r.subarray_result.len() == self.state().0.len(),
            forall|p: int| 0 <= p < r.subarray_result.len() ==> SubArrayResult::fields(#[trigger] r.subarray_result[p]) == self.state().0[p].4,
            r.ring_result@ == self.state().1.map_values(|x: RingState| x.1),
            r.tsv_result@ == self.state().2.map_values(|x: TsvState| x.1),
    {
        let ghost st = self.state();
        let mut subarray_result: Vec<SubArrayResult> = Vec::new();
        let mut i: usize = 0;
        while i < self.sub_array.len()
            invariant
                st == self.state(),
                i <= st.0.len(),
                subarray_result.len() == i,
                forall|p: int| 0 <= p < i ==> SubArrayResult::fields(#[trigger] subarray_result[p]) == st.0[p].4,
            decreases st.0.len() - i,
        {
            subarray_result.push(self.sub_array[i].report());
            i += 1;
        }
        let mut ring_result: Vec<RingResult> = Vec::new();
        let mut i: usize = 0;
        while i < self.ring.len()
            invariant
                st == self.state(),
                i <= st.1.len(),
                ring_result@ == st.1.take(i as int).map_values(|x: RingState| x.1),
            decreases st.1.len() - i,
        {
            ring_result.push(self.ring[i].report());
            proof {
                assert(st.1.take(i + 1).map_values(|x: RingState| x.1) =~= st.1.take(i as int).map_values(|x: RingState| x.1).push(st.1[i as int].1));
            }
            i += 1;
        }
        let mut tsv_result: Vec<TsvResult> = Vec::new();
        let mut i: usize = 0;
        while i < self.tsv.len()
            invariant
                st == self.state(),
                i <= st.2.len(),
                tsv_result@ == st.2.take(i as int).map_values(|x: TsvState| x.1),
            decreases st.2.len() - i,
        {
            tsv_result.push(self.tsv[i].report());
            proof {
                assert(st.2.take(i + 1).map_values(|x: TsvState| x.1) =~= st.2.take(i as int).map_values(|x: TsvState| x.1).push(st.2[i as int].1));
            }
            i += 1;
        }
        proof {
            assert(st.1.take(st.1.len() as int) == st.1);
            assert(st.2.take(st.2.len() as int) == st.2);
        }
        SingleResult { name, batch, subarray_result, ring_result, tsv_result, total_result }
    }
}

impl GearboxSim {
    /// The totals of every unit over the closed rounds, with the totals of
    /// the slowest units.
    pub fn report(&self, name: String, total_result: TotalResult, batch: usize) -> (r: SingleResult)
        ensures
            r.name@ == name@,
            r.batch == batch,
            r.total_result == total_result,
            r.subarray_result.len() == self.hardware.state().0.len(),
            forall|p: int| 0 <= p < r.subarray_result.len() ==> SubArrayResult::fields(#[trigger] r.subarray_result[p]) == self.hardware.state().0[p].4,
            r.ring_result@ == self.hardware.state().1.map_values(|x: RingState| x.1),
            r.tsv_result@ == self.hardware.state().2.map_values(|x: TsvState| x.1),
    {
        self.hardware.report(name, total_result, batch)
    }
}

// ---------------------------------------------------------------------------
// Checking a run before it starts
// ---------------------------------------------------------------------------

/// Whether `a + b` is at most `k`.
fn sum_at_most(a: usize, b: usize, k: usize) -> (r: bool)
    ensures
        r == (a + b <= k),
{
    a <= k && b <= k - a
}

impl SubArray {
    /// Whether every counter of the round plus its total is at most `k`.
    pub fn counters_fit(&self, k: usize) -> (b: bool)
        ensures
            b == subarray_bounded(self.state(), k as int),
    {
        let r = &self.sub_array_result;
        let t = &self.final_subarry_result;
        let b = sum_at_most(r.cycle, t.cycle, k) &&
            sum_at_most(r.local_row_open_cycle, t.local_row_open_cycle, k) &&
            sum_at_most(r.local_row_read_cycle, t.local_row_read_cycle, k) &&
            sum_at_most(r.local_row_write_cycle, t.local_row_write_cycle, k) &&
            sum_at_most(r.comp_cycle, t.comp_cycle, k) &&
            sum_at_most(r.local_row_open_cycle_evil, t.local_row_open_cycle_evil, k) &&
            sum_at_most(r.local_row_read_cycle_evil, t.local_row_read_cycle_evil, k) &&
            sum_at_most(r.local_row_write_cycle_evil, t.local_row_write_cycle_evil, k) &&
            sum_at_most(r.remote_row_read_cycle, t.remote_row_read_cycle, k) &&
            sum_at_most(r.remote_row_write_cycle, t.remote_row_write_cycle, k) &&
            sum_at_most(r.cycle_remote, t.cycle_remote, k);
        proof {
            let st = self.state();
            assert(b == (st.3[0] + st.4[0] <= k && st.3[1] + st.4[1] <= k && st.3[2] + st.4[2] <= k
                && st.3[3] + st.4[3] <= k && st.3[4] + st.4[4] <= k && st.3[5] + st.4[5] <= k
                && st.3[6] + st.4[6] <= k && st.3[7] + st.4[7] <= k && st.3[8] + st.4[8] <= k
                && st.3[9] + st.4[9] <= k && st.3[10] + st.4[10] <= k));
            if b {
                assert forall|i: int| 0 <= i < 11 implies 0 <= #[trigger] st.3[i] && 0 <= st.4[i] && st.3[i] + st.4[i] <= k by {
                    if i == 0 {} else if i == 1 {} else if i == 2 {} else if i == 3 {} else if i == 4 {}
                    else if i == 5 {} else if i == 6 {} else if i == 7 {} else if i == 8 {} else if i == 9 {} else {}
                }
            }
        }
        b
    }
}

impl Ring {
    /// Whether the totals plus the transfers of the round stay at most `k`
    /// and every transfer is between two of `ports` ports.
    pub fn fits(&self, k: usize, ports: u8) -> (b: bool)
        ensures
            b == (self.ring_result.cycle + self.tasks.len() <= k && self.ring_result.traffic + self.tasks.len() <= k
                && forall|i: int| 0 <= i < self.tasks.len() ==> ring_task_ok(ports, #[trigger] self.tasks[i])),
    {
        if !sum_at_most(self.ring_result.cycle, self.tasks.len(), k) || !sum_at_most(self.ring_result.traffic, self.tasks.len(), k) {
            return false;
        }
        let mut i: usize = 0;
        while i < self.tasks.len()
            invariant
                i <= self.tasks.len(),
                forall|q: int| 0 <= q < i ==> ring_task_ok(ports, #[trigger] self.tasks[q]),
            decreases self.tasks.len() - i,
        {
            let (s, t) = self.tasks[i];
            if !(s.0 < ports && t.0 < ports && s.0 <= 255 - ports && t.0 <= 255 - ports) {
                assert(!ring_task_ok(ports, self.tasks[i as int]));
                return false;
            }
            i += 1;
        }
        true
    }
}

impl Hardware {
    /// Whether the layout divides by no zero, keeps every subarray on an
    /// existing ring, TSV and ring buffer, and has at most 128 banks a
    /// channel: see `shape_ok`.
    pub fn shape_fits(&self) -> (b: bool)
        ensures
            b == shape_ok(self.shape_spec(), self.state()),
    {
        let sh = self.shape;
        let c = sh.config;
        if c.subarrays == 0 || c.banks == 0 || c.banks > 128 || sh.row_per_partition == 0 || sh.col_per_partition == 0 {
            return false;
        }
        let n = self.sub_array.len();
        let rings = self.ring.len();
        let tsvs = self.tsv.len();
        let buffers = self.ring_buffer.len();
        let mut p: usize = 0;
        while p < n
            invariant
                p <= n,
                n == self.state().0.len(),
                rings == self.state().1.len(),
                tsvs == self.state().2.len(),
                buffers == self.state().3.len(),
                c == self.shape_spec().config,
                c.subarrays > 0,
                c.banks > 0,
                forall|q: nat| q < p ==> #[trigger] ring_of(c, q) < rings && ring_of(c, q) < tsvs && bank_of(c, q) < buffers,
            decreases n - p,
        {
            let bank = p / c.subarrays;
            let r = bank / c.banks;
            if r >= rings || r >= tsvs || bank >= buffers {
                assert(ring_of(c, p as nat) == r && bank_of(c, p as nat) == bank);
                return false;
            }
            p += 1;
        }
        true
    }

    /// Whether every ring has one port per bank of a channel.
    pub fn ports_fit(&self) -> (b: bool)
        ensures
            b == self.wf(),
    {
        let ports = #[verifier::truncate] (self.shape.config.banks as u8);
        let mut i: usize = 0;
        while i < self.ring.len()
            invariant
                i <= self.ring.len(),
                ports == self.shape_spec().config.banks as u8,
                forall|q: int| 0 <= q < i ==> #[trigger] self.ring_ports()[q] == ports,
            decreases self.ring.len() - i,
        {
            if self.ring[i].ports != ports {
                assert(self.ring_ports()[i as int] != ports);
                return false;
            }
            i += 1;
        }
        true
    }

    /// Whether no counter can pass `k`: every counter with its total, every
    /// ring and TSV total with the transfers of the round, and every ring
    /// buffer is at most `k`, and every ring transfer is valid.
    pub fn counts_fit(&self, k: usize) -> (b: bool)
        ensures
            b == counted(self.state(), self.shape_spec(), k as int, k as int),
    {
        let ghost st = self.state();
        let ports = #[verifier::truncate] (self.shape.config.banks as u8);
        let mut p: usize = 0;
        while p < self.sub_array.len()
            invariant
                st == self.state(),
                p <= st.0.len(),
                forall|q: int| 0 <= q < p ==> subarray_bounded(#[trigger] st.0[q], k as int),
            decreases st.0.len() - p,
        {
            if !self.sub_array[p].counters_fit(k) {
                assert(st.0[p as int] == self.sub_array[p as int].state());
                assert(!hw_bounded(st, k as int));
                return false;
            }
            p += 1;
        }
        let mut r: usize = 0;
        while r < self.ring.len()
            invariant
                st == self.state(),
                ports == self.shape_spec().config.banks as u8,
                r <= st.1.len(),
                forall|q: int| 0 <= q < st.0.len() ==> subarray_bounded(#[trigger] st.0[q], k as int),
                forall|q: int| 0 <= q < r ==> (#[trigger] st.1[q]).1.cycle + st.1[q].0.len() <= k
                    && st.1[q].1.traffic + st.1[q].0.len() <= k,
                forall|q: int, i: int| 0 <= q < r && 0 <= i < st.1[q].0.len() ==> ring_task_ok(ports, #[trigger] st.1[q].0[i]),
            decreases st.1.len() - r,
        {
            let ok = self.ring[r].fits(k, ports);
            if !ok {
                proof {
                    if forall|i: int| 0 <= i < self.ring[r as int].tasks.len() ==> ring_task_ok(ports, #[trigger] self.ring[r as int].tasks[i]) {
                        assert(!(st.1[r as int].1.cycle + st.1[r as int].0.len() <= k && st.1[r as int].1.traffic + st.1[r as int].0.len() <= k));
                    } else {
                        let i = choose|i: int| 0 <= i < self.ring[r as int].tasks.len() && !ring_task_ok(ports, #[trigger] self.ring[r as int].tasks[i]);
                        assert(st.1[r as int].0[i] == self.ring[r as int].tasks[i]);
                        assert(!tasks_ok(st, ports));
                    }
                }
                return false;
            }
            proof {
                assert forall|q: int, i: int| 0 <= q < r + 1 && 0 <= i < st.1[q].0.len() implies ring_task_ok(ports, #[trigger] st.1[q].0[i]) by {
                    if q == r {
                        assert(st.1[q].0[i] == self.ring[r as int].tasks[i]);
                    }
                }
            }
            r += 1;
        }
        let mut v: usize = 0;
        while v < self.tsv.len()
            invariant
                st == self.state(),
                v <= st.2.len(),
                forall|q: int| 0 <= q < v ==> (#[trigger] st.2[q]).1.cycle + st.2[q].0 <= k && st.2[q].1.traffic + st.2[q].0 <= k,
            decreases st.2.len() - v,
        {
            let t = &self.tsv[v];
            if !sum_at_most(t.tsv_result.cycle, t.traffic, k) || !sum_at_most(t.tsv_result.traffic, t.traffic, k) {
                assert(st.2[v as int] == (t.traffic, t.tsv_result));
                assert(!hw_bounded(st, k as int));
                return false;
            }
            v += 1;
        }
        let mut b: usize = 0;
        while b < self.ring_buffer.len()
            invariant
                st == self.state(),
                b <= st.3.len(),
                forall|q: int| 0 <= q < b ==> #[trigger] st.3[q] <= k,
            decreases st.3.len() - b,
        {
            if self.ring_buffer[b].tasks > k {
                assert(st.3[b as int] == self.ring_buffer[b as int].tasks);
                assert(!hw_bounded(st, k as int));
                return false;
            }
            b += 1;
        }
        proof {
            assert forall|q: int| 0 <= q < st.0.len() implies round_at_most(#[trigger] st.0[q], k as int) by {
                assert(subarray_bounded(st.0[q], k as int));
            }
        }
        true
    }
}

impl GearboxSim {
    /// Whether `input_mat` can be run in rounds of `batch` rows: see
    /// `run_ok`.
    pub fn can_run(&self, input_mat: &CsrPattern, batch: usize) -> (b: bool)
        ensures
            b == self.run_ok(*input_mat, batch),
    {
        let ghost st = self.hardware.state();
        let ghost sh = self.hardware.shape_spec();
        let ghost mb = self.matrix_b;
        let ghost input = *input_mat;
        let ghost total = input_mat.indices.len() as int;
        if batch == 0 || !self.hardware.ports_fit() || !self.hardware.shape_fits() {
            return false;
        }
        let nsub = self.hardware.subarrays();
        let rpp = self.hardware.shape.row_per_partition;
        let cpp = self.hardware.shape.col_per_partition;
        let dense_dim = self.hardware.shape.dense_dim;
        let limit: usize = (usize::MAX - 160) / 160;
        let mut work: usize = 0;
        let rows = input_mat.indices.len();
        let mut r: usize = 0;
        while r < rows
            invariant
                r <= rows,
                rows == total,
                total == input_mat.indices.len(),
                input == *input_mat,
                st == self.hardware.state(),
                sh == self.hardware.shape_spec(),
                mb == self.matrix_b,
                nsub == st.0.len(),
                rpp == sh.row_per_partition,
                cpp == sh.col_per_partition,
                dense_dim == sh.dense_dim,
                rpp > 0,
                cpp > 0,
                limit == (usize::MAX - 160) / 160,
                shape_ok(sh, st),
                work == input_work(mb, input, r as int),
                work <= limit,
                forall|r2: int, j2: int| 0 <= r2 < r && 0 <= j2 < input.indices[r2]@.len()
                    ==> #[trigger] entry_fits(st, sh, mb, input, r2, j2),
            decreases rows - r,
        {
            let row = &input_mat.indices[r];
            let ghost bs = row@;
            proof {
                lemma_input_work_prefix(mb, input, r + 1, total);
            }
            let fits_dense = match r.checked_mul(dense_dim) {
                Some(x) => x <= usize::MAX - cpp,
                None => false,
            };
            let n = row.len();
            let mut j: usize = 0;
            while j < n
                invariant
                    r < rows,
                    j <= n,
                    n == bs.len(),
                    bs == row@,
                    *row == input.indices[r as int],
                    rows == total,
                    total == input_mat.indices.len(),
                    input == *input_mat,
                    st == self.hardware.state(),
                    sh == self.hardware.shape_spec(),
                    mb == self.matrix_b,
                    nsub == st.0.len(),
                    rpp == sh.row_per_partition,
                    cpp == sh.col_per_partition,
                    dense_dim == sh.dense_dim,
                    rpp > 0,
                    cpp > 0,
                    fits_dense == (r * dense_dim + cpp <= usize::MAX),
                    limit == (usize::MAX - 160) / 160,
                    shape_ok(sh, st),
                    work == input_work(mb, input, r as int) + row_work(mb, bs.take(j as int)),
                    work <= limit,
                    input_work(mb, input, r + 1) <= input_work(mb, input, total),
                    forall|r2: int, j2: int| 0 <= r2 < r && 0 <= j2 < input.indices[r2]@.len()
                        ==> #[trigger] entry_fits(st, sh, mb, input, r2, j2),
                    forall|j2: int| 0 <= j2 < j ==> #[trigger] entry_fits(st, sh, mb, input, r as int, j2),
                decreases n - j,
            {
                let b = row[j] as usize;
                proof {
                    assert(input.indices[r as int]@[j as int] == bs[j as int]);
                    lemma_row_work_prefix(mb, bs, j as int);
                    lemma_row_work_prefix(mb, bs, j + 1);
                }
                if b >= self.matrix_b.indices.len() {
                    assert(!entry_fits(st, sh, mb, input, r as int, j as int));
                    return false;
                }
                let brow = &self.matrix_b.indices[b];
                let mut q: usize = 0;
                while q < brow.len()
                    invariant
                        q <= brow.len(),
                        input == *input_mat,
                        mb == self.matrix_b,
                        0 <= r < input.indices.len(),
                        0 <= j < input.indices[r as int]@.len(),
                        b as int == input.indices[r as int]@[j as int] as int,
                        (b as int) < mb.indices.len(),
                        *brow == mb.indices[b as int],
                        st == self.hardware.state(),
                        sh == self.hardware.shape_spec(),
                        nsub == st.0.len(),
                        rpp == sh.row_per_partition,
                        cpp == sh.col_per_partition,
                        dense_dim == sh.dense_dim,
                        rpp > 0,
                        cpp > 0,
                        fits_dense == (r * dense_dim + cpp <= usize::MAX),
                        forall|t: int| 0 <= t < q ==> product_fits(st, sh, r as nat, b as nat, #[trigger] mb.indices[b as int]@[t] as nat),
                    decreases brow.len() - q,
                {
                    let c = brow[q] as usize;
                    let ok = b / rpp < nsub && r / rpp < nsub && c / cpp < nsub && fits_dense;
                    if !ok {
                        proof {
                            assert(!product_fits(st, sh, r as nat, b as nat, mb.indices[b as int]@[q as int] as nat));
                            assert(input.indices[r as int]@[j as int] as int == b as int);
                            assert(mb.indices[input.indices[r as int]@[j as int] as int]@[q as int] == mb.indices[b as int]@[q as int]);
                            assert(!entry_fits(st, sh, mb, input, r as int, j as int));
                        }
                        return false;
                    }
                    q += 1;
                }
                assert(entry_fits(st, sh, mb, input, r as int, j as int));
                let len = brow.len();
                if len > limit - work {
                    proof {
                        let w = input_work(mb, input, total);
                        assert(w >= work + len);
                        assert(160 * w + 160 > usize::MAX) by (nonlinear_arith)
                            requires
                                w > limit,
                                limit == (usize::MAX - 160) / 160;
                    }
                    return false;
                }
                work = work + len;
                j += 1;
            }
            proof {
                assert(bs.take(n as int) == bs);
            }
            r += 1;
        }
        assert(work == input_work(mb, input, total));
        assert(input_fits(st, sh, mb, input));
        if rows >= batch && (self.hardware.subarrays() == 0 || self.hardware.rings() == 0 || self.hardware.tsvs() == 0
            || self.hardware.ring_buffer.len() == 0) {
            return false;
        }
        self.hardware.counts_fit(usize::MAX - 160 * work - 160)
    }
}

} // verus!
