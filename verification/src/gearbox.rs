//! A cycle model of the gearbox design: the products of a sparse matrix
//! multiplication are distributed over subarrays, the rings that link the
//! banks of a layer, and the TSVs between layers; each component then
//! reports the cycles its share of the work takes.
use vstd::prelude::*;
use crate::row_cycle::{LogicColId, LogicRowId, PhysicRowId, RingId, RingPort, SubarrayId, TsvId};
use crate::sparse::CsrPattern;

verus! {

// ---------------------------------------------------------------------------
// Run lists: the accesses of a subarray, consecutive accesses to one row
// kept as one run
// ---------------------------------------------------------------------------

/// The run list after one more access to `row`: the last run grows when
/// it is for the same row, else a run of one access is appended.
pub open spec fn push_run(runs: Seq<(PhysicRowId, usize)>, row: PhysicRowId) -> Seq<(PhysicRowId, usize)> {
    if runs.len() > 0 && runs.last().0 == row {
        runs.update(runs.len() - 1, (row, (runs.last().1 + 1) as usize))
    } else {
        runs.push((row, 1))
    }
}

/// One more access to `row` can be counted without overflow.
pub open spec fn can_push_run(runs: Seq<(PhysicRowId, usize)>, row: PhysicRowId) -> bool {
    runs.len() > 0 && runs.last().0 == row ==> runs.last().1 < usize::MAX
}

/// The accesses that a run list stands for, in order.
pub open spec fn expand_runs(runs: Seq<(PhysicRowId, usize)>) -> Seq<PhysicRowId>
    decreases runs.len(),
{
    if runs.len() == 0 {
        Seq::empty()
    } else {
        expand_runs(runs.drop_last()) + Seq::new(runs.last().1 as nat, |_i: int| runs.last().0)
    }
}

/// Counting an access in a run list keeps every access: the list stands
/// for the same accesses followed by the new one.
pub proof fn lemma_push_run_expands(runs: Seq<(PhysicRowId, usize)>, row: PhysicRowId)
    requires
        can_push_run(runs, row),
    ensures
        expand_runs(push_run(runs, row)) == expand_runs(runs).push(row),
{
    let next = push_run(runs, row);
    if runs.len() > 0 && runs.last().0 == row {
        assert(next.drop_last() == runs.drop_last());
        let c = runs.last().1 as nat;
        assert(Seq::new(c + 1, |_i: int| row) == Seq::new(c, |_i: int| row).push(row));
        assert(expand_runs(next) == expand_runs(runs.drop_last()) + Seq::new(c + 1, |_i: int| row));
        assert(expand_runs(runs) == expand_runs(runs.drop_last()) + Seq::new(c, |_i: int| row));
        assert((expand_runs(runs.drop_last()) + Seq::new(c, |_i: int| row)).push(row)
            == expand_runs(runs.drop_last()) + Seq::new(c, |_i: int| row).push(row));
    } else {
        assert(next.drop_last() == runs);
        assert(Seq::new(1, |_i: int| row) == seq![row]);
    }
}

/// The row-open cycles of a run list: a run of the row left open costs
/// nothing, another row costs a precharge and an activation (18 cycles),
/// and with no row open an activation (9 cycles).
pub open spec fn open_cost(open: Option<usize>, row: PhysicRowId) -> nat {
    match open {
        Some(r) => if r == row.0 { 0 } else { 18 },
        None => 9,
    }
}

/// The row-open cycles of all the runs.
pub open spec fn runs_open_cycles(open: Option<usize>, runs: Seq<(PhysicRowId, usize)>) -> nat
    decreases runs.len(),
{
    if runs.len() == 0 {
        0
    } else {
        runs_open_cycles(open, runs.drop_last()) + open_cost(open, runs.last().0)
    }
}

/// The number of accesses of all the runs.
pub open spec fn runs_accesses(runs: Seq<(PhysicRowId, usize)>) -> nat
    decreases runs.len(),
{
    if runs.len() == 0 {
        0
    } else {
        runs_accesses(runs.drop_last()) + runs.last().1 as nat
    }
}

/// The accesses of a run list are as many as the accesses it stands for.
pub proof fn lemma_runs_accesses_expand(runs: Seq<(PhysicRowId, usize)>)
    ensures
        runs_accesses(runs) == expand_runs(runs).len(),
    decreases runs.len(),
{
    if runs.len() > 0 {
        lemma_runs_accesses_expand(runs.drop_last());
    }
}

proof fn lemma_runs_sums_monotone(open: Option<usize>, runs: Seq<(PhysicRowId, usize)>, k: int)
    requires
        0 <= k <= runs.len(),
    ensures
        runs_open_cycles(open, runs.take(k)) <= runs_open_cycles(open, runs),
        runs_accesses(runs.take(k)) <= runs_accesses(runs),
    decreases runs.len() - k,
{
    if k < runs.len() {
        lemma_runs_sums_monotone(open, runs, k + 1);
        assert(runs.take(k + 1).drop_last() == runs.take(k));
    } else {
        assert(runs.take(k) == runs);
    }
}

// ---------------------------------------------------------------------------
// Subarrays
// ---------------------------------------------------------------------------

/// The work of one subarray: the rows it reads from and writes to, in
/// order, as run lists, and the rows left open when its share starts.
#[derive(Clone)]
pub struct SubArray {
    pub read_open: Option<usize>,
    pub write_open: Option<usize>,
    pub local_read_rows: Vec<(PhysicRowId, usize)>,
    pub local_write_rows: Vec<(PhysicRowId, usize)>,
}

/// The cycles one subarray takes.
#[derive(Debug, Clone, Copy, PartialEq, Eq, Structural)]
pub struct SubArrayResult {
    pub cycle: usize,
    pub row_open_cycle: usize,
    pub row_read_cycle: usize,
    pub row_write_cycle: usize,
    pub comp_cycle: usize,
}

/// A subarray as plain values: the open rows and the two run lists.
pub type SubArrayState = (Option<usize>, Option<usize>, Seq<(PhysicRowId, usize)>, Seq<(PhysicRowId, usize)>);

/// A subarray with no work and no row open.
pub open spec fn empty_subarray() -> SubArrayState {
    (None, None, Seq::empty(), Seq::empty())
}

/// The cycles of a subarray: every row-open run and every access costs.
pub open spec fn subarray_cycle(s: SubArrayState) -> nat {
    runs_open_cycles(s.0, s.2) + runs_accesses(s.2) + runs_open_cycles(s.1, s.3) + runs_accesses(s.3)
}

impl SubArray {
    /// The subarray as plain values.
    pub open spec fn state(&self) -> SubArrayState {
        (self.read_open, self.write_open, self.local_read_rows@, self.local_write_rows@)
    }

    /// A subarray with no work and no row open.
    pub fn new() -> (r: Self)
        ensures
            r.state() == empty_subarray(),
    {
        SubArray { read_open: None, write_open: None, local_read_rows: Vec::new(), local_write_rows: Vec::new() }
    }

    fn push_row(runs: &mut Vec<(PhysicRowId, usize)>, row: PhysicRowId)
        requires
            can_push_run(old(runs)@, row),
        ensures
            final(runs)@ == push_run(old(runs)@, row),
    {
        let n = runs.len();
        if n > 0 && runs[n - 1].0 == row {
            let count = runs[n - 1].1;
            runs.set(n - 1, (row, count + 1));
        } else {
            runs.push((row, 1));
        }
    }

    /// A local read and write task (local accumulate): one read of
    /// `local_read` and one write of `local_write`.
    pub fn add_task(&mut self, local_read: PhysicRowId, local_write: PhysicRowId)
        requires
            can_push_run(old(self).local_read_rows@, local_read),
            can_push_run(old(self).local_write_rows@, local_write),
        ensures
            final(self).state() == (old(self).read_open, old(self).write_open,
                push_run(old(self).local_read_rows@, local_read), push_run(old(self).local_write_rows@, local_write)),
    {
        Self::push_row(&mut self.local_read_rows, local_read);
        Self::push_row(&mut self.local_write_rows, local_write);
    }

    /// After a remote task arrives, the local dense result is updated: one
    /// write of `local_write`.
    pub fn add_remote_task(&mut self, local_write: PhysicRowId)
        requires
            can_push_run(old(self).local_write_rows@, local_write),
        ensures
            final(self).state() == (old(self).read_open, old(self).write_open,
                old(self).local_read_rows@, push_run(old(self).local_write_rows@, local_write)),
    {
        Self::push_row(&mut self.local_write_rows, local_write);
    }

    /// The cycles of the subarray: the row opens of the read and the write
    /// runs, one cycle per access, and one compute cycle per read.
    pub fn report(&self) -> (r: SubArrayResult)
        requires
            subarray_cycle(self.state()) <= usize::MAX,
        ensures
            r.row_read_cycle == runs_open_cycles(self.read_open, self.local_read_rows@),
            r.row_write_cycle == runs_open_cycles(self.write_open, self.local_write_rows@),
            r.row_open_cycle == r.row_read_cycle + r.row_write_cycle,
            r.comp_cycle == runs_accesses(self.local_read_rows@),
            r.cycle == subarray_cycle(self.state()),
    {
        let ghost reads = self.local_read_rows@;
        let ghost writes = self.local_write_rows@;
        let mut row_open_cycle: usize = 0;
        let mut row_read_cycle: usize = 0;
        let mut row_write_cycle: usize = 0;
        let mut comp_cycle: usize = 0;
        let mut cycle: usize = 0;
        let mut i: usize = 0;
        proof {
            lemma_runs_sums_monotone(self.write_open, writes, 0);
            assert(writes.take(0) == Seq::<(PhysicRowId, usize)>::empty());
        }
        while i < self.local_read_rows.len()
            invariant
                i <= reads.len(),
                reads == self.local_read_rows@,
                writes == self.local_write_rows@,
                subarray_cycle(self.state()) <= usize::MAX,
                row_read_cycle == runs_open_cycles(self.read_open, reads.take(i as int)),
                row_open_cycle == row_read_cycle,
                comp_cycle == runs_accesses(reads.take(i as int)),
                row_write_cycle == 0,
                cycle == row_read_cycle + comp_cycle,
            decreases reads.len() - i,
        {
            proof {
                assert(reads.take(i + 1).drop_last() == reads.take(i as int));
                lemma_runs_sums_monotone(self.read_open, reads, i + 1);
            }
            let (row_id, read_times) = self.local_read_rows[i];
            let cost: usize = match self.read_open {
                Some(row) => if row == row_id.0 { 0 } else { 18 },
                None => 9,
            };
            cycle = cycle + cost;
            row_open_cycle = row_open_cycle + cost;
            row_read_cycle = row_read_cycle + cost;
            cycle = cycle + read_times;
            comp_cycle = comp_cycle + read_times;
            i += 1;
        }
        proof {
            assert(reads.take(i as int) == reads);
        }
        let mut j: usize = 0;
        while j < self.local_write_rows.len()
            invariant
                j <= writes.len(),
                reads == self.local_read_rows@,
                writes == self.local_write_rows@,
                subarray_cycle(self.state()) <= usize::MAX,
                row_read_cycle == runs_open_cycles(self.read_open, reads),
                comp_cycle == runs_accesses(reads),
                row_write_cycle == runs_open_cycles(self.write_open, writes.take(j as int)),
                row_open_cycle == row_read_cycle + row_write_cycle,
                cycle == row_read_cycle + comp_cycle + row_write_cycle + runs_accesses(writes.take(j as int)),
            decreases writes.len() - j,
        {
            proof {
                assert(writes.take(j + 1).drop_last() == writes.take(j as int));
                lemma_runs_sums_monotone(self.write_open, writes, j + 1);
            }
            let (row_id, write_times) = self.local_write_rows[j];
            let cost: usize = match self.write_open {
                Some(row) => if row == row_id.0 { 0 } else { 18 },
                None => 9,
            };
            cycle = cycle + cost;
            row_open_cycle = row_open_cycle + cost;
            row_write_cycle = row_write_cycle + cost;
            cycle = cycle + write_times;
            j += 1;
        }
        proof {
            assert(writes.take(j as int) == writes);
        }
        SubArrayResult { cycle, row_open_cycle, row_read_cycle, row_write_cycle, comp_cycle }
    }
}

// ---------------------------------------------------------------------------
// Rings and TSVs
// ---------------------------------------------------------------------------

/// The ring of one layer: the transfers between its ports, in order.
#[derive(Clone)]
pub struct Ring {
    pub tasks: Vec<(RingPort, RingPort)>,
    pub ports: u8,
}

/// The cycles and the number of transfers of one ring.
#[derive(Debug, Clone, Copy, PartialEq, Eq, Structural)]
pub struct RingResult {
    pub cycle: usize,
    pub traffic: usize,
}

/// The segments a transfer from `s` to `t` holds on a ring of `ports`
/// ports: it goes the shorter way round (forward on a tie loses), and it
/// holds the segments from the lower end of its direction up to the
/// other end.
pub open spec fn ring_arc(ports: int, s: int, t: int) -> (int, int) {
    let forward = (t + ports - s) % ports;
    let backward = (s + ports - t) % ports;
    if forward < backward { (s, t) } else { (t, s) }
}

/// How many of `tasks` hold segment `x`.
pub open spec fn ring_load(ports: int, tasks: Seq<(RingPort, RingPort)>, x: int) -> nat
    decreases tasks.len(),
{
    if tasks.len() == 0 {
        0
    } else {
        let a = ring_arc(ports, tasks.last().0.0 as int, tasks.last().1.0 as int);
        ring_load(ports, tasks.drop_last(), x) + if a.0 <= x < a.1 { 1nat } else { 0nat }
    }
}

/// The largest load of the segments `0..k`.
pub open spec fn max_ring_load(ports: int, tasks: Seq<(RingPort, RingPort)>, k: int) -> nat
    decreases k,
{
    if k <= 0 {
        0
    } else {
        let rest = max_ring_load(ports, tasks, k - 1);
        let here = ring_load(ports, tasks, k - 1);
        if here > rest { here } else { rest }
    }
}

/// A transfer between two ports of the ring whose lengths round the ring
/// fit the port counter.
pub open spec fn ring_task_ok(ports: u8, task: (RingPort, RingPort)) -> bool {
    &&& task.0.0 < ports
    &&& task.1.0 < ports
    &&& task.0.0 + ports <= u8::MAX
    &&& task.1.0 + ports <= u8::MAX
}

/// No segment is held by more transfers than there are.
pub proof fn lemma_ring_load_bound(ports: int, tasks: Seq<(RingPort, RingPort)>, x: int)
    ensures
        ring_load(ports, tasks, x) <= tasks.len(),
    decreases tasks.len(),
{
    if tasks.len() > 0 {
        lemma_ring_load_bound(ports, tasks.drop_last(), x);
    }
}

impl Ring {
    /// A ring of `ports` ports with no transfer.
    pub fn new(ports: u8) -> (r: Self)
        ensures
            r.ports == ports,
            r.tasks@ == Seq::<(RingPort, RingPort)>::empty(),
    {
        Ring { tasks: Vec::new(), ports }
    }

    /// Records a transfer from `source` to `target`.
    pub fn add_task(&mut self, source: RingPort, target: RingPort)
        ensures
            final(self).ports == old(self).ports,
            final(self).tasks@ == old(self).tasks@.push((source, target)),
    {
        self.tasks.push((source, target));
    }

    /// The ring takes as many cycles as its busiest segment is held.
    pub fn report(&self) -> (r: RingResult)
        requires
            forall|i: int| 0 <= i < self.tasks.len() ==> ring_task_ok(self.ports, #[trigger] self.tasks[i]),
        ensures
            r.cycle == max_ring_load(self.ports as int, self.tasks@, self.ports as int),
            r.traffic == self.tasks.len(),
    {
        let ghost p = self.ports as int;
        let ghost tasks = self.tasks@;
        let n = self.ports as usize;
        let mut paths: Vec<usize> = Vec::new();
        while paths.len() < n
            invariant
                paths.len() <= n,
                forall|x: int| 0 <= x < paths.len() ==> paths[x] == 0,
            decreases n - paths.len(),
        {
            paths.push(0);
        }
        let total = self.tasks.len();
        let mut k: usize = 0;
        while k < self.tasks.len()
            invariant
                total == tasks.len(),
                k <= tasks.len(),
                tasks == self.tasks@,
                p == self.ports as int,
                n == p,
                paths.len() == n,
                forall|i: int| 0 <= i < self.tasks.len() ==> ring_task_ok(self.ports, #[trigger] self.tasks[i]),
                forall|x: int| 0 <= x < n ==> paths[x] == ring_load(p, tasks.take(k as int), x),
            decreases tasks.len() - k,
        {
            let (source, target) = self.tasks[k];
            assert(ring_task_ok(self.ports, self.tasks[k as int]));
            let forward_len = (target.0 + self.ports - source.0) % self.ports;
            let backward_len = (source.0 + self.ports - target.0) % self.ports;
            let (from, to) = if forward_len < backward_len {
                (source.0, target.0)
            } else {
                (target.0, source.0)
            };
            proof {
                assert(tasks.take(k + 1).drop_last() == tasks.take(k as int));
                assert(tasks.take(k + 1).last() == (source, target));
                assert(ring_arc(p, source.0 as int, target.0 as int) == (from as int, to as int));
            }
            let mut i: u8 = from;
            while i < to
                invariant
                    total == tasks.len(),
                    (to as int) < n,
                    (from as int) < n,
                    from <= i,
                    from < to ==> i <= to,
                    from >= to ==> i == from,
                    paths.len() == n,
                    p == self.ports as int,
                    n == p,
                    k < tasks.len(),
                    tasks == self.tasks@,
                    ring_arc(p, tasks.take(k + 1).last().0.0 as int, tasks.take(k + 1).last().1.0 as int) == (from as int, to as int),
                    tasks.take(k + 1).drop_last() == tasks.take(k as int),
                    forall|x: int| 0 <= x < n ==> paths[x] == ring_load(p, tasks.take(k as int), x)
                        + if from <= x < i { 1nat } else { 0nat },
                decreases to - i,
            {
                proof {
                    lemma_ring_load_bound(p, tasks.take(k as int), i as int);
                    assert(tasks.take(k as int).len() == k);
                    assert(paths[i as int] == ring_load(p, tasks.take(k as int), i as int));
                }
                let v = paths[i as usize];
                paths.set(i as usize, v + 1);
                i = i + 1;
            }
            proof {
                assert forall|x: int| 0 <= x < n implies paths[x] == ring_load(p, tasks.take(k + 1), x) by {
                    assert((from <= x < i) <==> (from <= x < to));
                }
            }
            k += 1;
        }
        proof {
            assert(tasks.take(k as int) == tasks);
        }
        let mut best: usize = 0;
        let mut x: usize = 0;
        while x < n
            invariant
                x <= n,
                paths.len() == n,
                n == p,
                forall|y: int| 0 <= y < n ==> paths[y] == ring_load(p, tasks, y),
                best == max_ring_load(p, tasks, x as int),
            decreases n - x,
        {
            if paths[x] > best {
                best = paths[x];
            }
            x += 1;
        }
        RingResult { cycle: best, traffic: self.tasks.len() }
    }
}

/// A TSV between two layers: the number of transfers it carries.
#[derive(Clone, Copy)]
pub struct Tsv {
    pub traffic: usize,
}

/// The cycles and the number of transfers of one TSV.
#[derive(Debug, Clone, Copy, PartialEq, Eq, Structural)]
pub struct TsvResult {
    pub cycle: usize,
    pub traffic: usize,
}

impl Tsv {
    /// A TSV with no transfer.
    pub fn new() -> (r: Self)
        ensures
            r.traffic == 0,
    {
        Tsv { traffic: 0 }
    }

    /// Records one transfer.
    pub fn add_task(&mut self)
        requires
            old(self).traffic < usize::MAX,
        ensures
            final(self).traffic == old(self).traffic + 1,
    {
        self.traffic += 1;
    }

    /// A TSV takes one cycle per transfer.
    pub fn report(&self) -> (r: TsvResult)
        ensures
            r.cycle == self.traffic,
            r.traffic == self.traffic,
    {
        TsvResult { cycle: self.traffic, traffic: self.traffic }
    }
}

// ---------------------------------------------------------------------------
// The hardware
// ---------------------------------------------------------------------------

/// The numbers of hardware units that the gearbox model reads: the DRAM
/// levels (channels down to the subarrays of a bank) and how the channels
/// are stacked (stacks of logic layers).
#[derive(Debug, Clone, Copy, PartialEq, Eq, Structural)]
pub struct HardwareConfig {
    pub channels: usize,
    pub ranks: usize,
    pub chips: usize,
    pub bank_groups: usize,
    pub banks: usize,
    pub subarrays: usize,
    pub stacks: usize,
    pub layers: usize,
}

/// How the work is laid out on the hardware.
#[derive(Debug, Clone, Copy, PartialEq, Eq, Structural)]
pub struct HardwareShape {
    pub config: HardwareConfig,
    /// The dimension of the dense matrix in one subarray.
    pub dense_dim: usize,
    /// Normal rows go to the subarrays in blocks of this many rows.
    pub row_per_partition: usize,
    /// Target columns (and evil rows, by column) go to the subarrays in
    /// blocks of this many columns.
    pub col_per_partition: usize,
}

/// The subarray that holds row `row` of matrix B.
pub open spec fn row_partition(sh: HardwareShape, row: nat) -> nat {
    row / (sh.row_per_partition as nat)
}

/// The subarray that holds the results of column `col`.
pub open spec fn col_partition(sh: HardwareShape, col: nat) -> nat {
    col / (sh.col_per_partition as nat)
}

/// The ring (and the TSV) of the layer of subarray `sub`.
pub open spec fn ring_of(c: HardwareConfig, sub: nat) -> nat {
    sub / (c.subarrays as nat) / (c.banks as nat)
}

/// The port of subarray `sub` on its ring: the bank in its layer.
pub open spec fn port_of(c: HardwareConfig, sub: nat) -> u8 {
    ((sub / (c.subarrays as nat)) % (c.banks as nat)) as u8
}

/// The dispatcher of subarray `sub`: the first subarray of its bank.
pub open spec fn dispatcher_of(c: HardwareConfig, sub: nat) -> nat {
    (sub - sub % (c.subarrays as nat)) as nat
}

/// A subarray and its dispatcher sit on the same ring, at the same port:
/// the dispatcher is a subarray of the same bank.
pub proof fn lemma_dispatcher_shares_ring_and_port(c: HardwareConfig, sub: nat)
    requires
        c.subarrays > 0,
    ensures
        ring_of(c, dispatcher_of(c, sub)) == ring_of(c, sub),
        port_of(c, dispatcher_of(c, sub)) == port_of(c, sub),
{
    let m = c.subarrays as nat;
    assert(((sub - sub % m) as nat) / m == sub / m) by (nonlinear_arith)
        requires
            m > 0,
    {
        vstd::arithmetic::div_mod::lemma_fundamental_div_mod(sub as int, m as int);
        vstd::arithmetic::div_mod::lemma_div_multiples_vanish((sub / m) as int, m as int);
    }
}

/// The row of the dense result that product (`target`, `col`) writes.
pub open spec fn dense_row(sh: HardwareShape, target: nat, col: nat) -> nat {
    (target * (sh.dense_dim as nat) + col) / 256
}

/// The dense result is laid out row-major, `dense_dim` places per target
/// row, 256 places per dense row: product (`target`, `col`) writes the dense
/// row whose 256 places hold place `target * dense_dim + col`, so columns of
/// one target row 256 or more apart write different dense rows.
pub proof fn lemma_dense_row_holds_place(sh: HardwareShape, target: nat, col: nat, col2: nat)
    ensures
        256 * dense_row(sh, target, col) <= target * sh.dense_dim + col < 256 * dense_row(sh, target, col) + 256,
        col + 256 <= col2 ==> dense_row(sh, target, col) < dense_row(sh, target, col2),
{
    let p = target * sh.dense_dim + col;
    let p2 = target * sh.dense_dim + col2;
    vstd::arithmetic::div_mod::lemma_fundamental_div_mod(p as int, 256);
    vstd::arithmetic::div_mod::lemma_fundamental_div_mod(p2 as int, 256);
}

/// The hardware as plain values: the subarrays, the transfers of every
/// ring, the traffic of every TSV.
pub type HardwareState = (Seq<SubArrayState>, Seq<Seq<(RingPort, RingPort)>>, Seq<usize>);

/// One local product in subarray `p`: a read of `read`, a write of `write`.
pub open spec fn local_step(st: HardwareState, p: nat, read: PhysicRowId, write: PhysicRowId) -> HardwareState {
    let s = st.0[p as int];
    (st.0.update(p as int, (s.0, s.1, push_run(s.2, read), push_run(s.3, write))), st.1, st.2)
}

/// A remote product arriving in subarray `p`: a write of `write`.
pub open spec fn remote_write_step(st: HardwareState, p: nat, write: PhysicRowId) -> HardwareState {
    let s = st.0[p as int];
    (st.0.update(p as int, (s.0, s.1, s.2, push_run(s.3, write))), st.1, st.2)
}

/// A transfer on ring `r` from port `s` to port `t`.
pub open spec fn ring_step(st: HardwareState, r: nat, s: RingPort, t: RingPort) -> HardwareState {
    (st.0, st.1.update(r as int, st.1[r as int].push((s, t))), st.2)
}

/// A transfer through TSV `v`.
pub open spec fn tsv_step(st: HardwareState, v: nat) -> HardwareState {
    (st.0, st.1, st.2.update(v as int, (st.2[v as int] + 1) as usize))
}

/// Product (`target`, `col`) of row `mat_b_row` of matrix B, computed where
/// the row is stored.
pub open spec fn distribute_local_spec(st: HardwareState, sh: HardwareShape, target: nat, mat_b_row: nat, col: nat) -> HardwareState {
    local_step(st, row_partition(sh, mat_b_row), PhysicRowId(mat_b_row as usize), PhysicRowId(dense_row(sh, target, col) as usize))
}

/// Product (`target`, `col`) of an evil row: the row is copied to every
/// subarray, so it is computed where column `col` is stored.
pub open spec fn distribute_local_evil_row_spec(st: HardwareState, sh: HardwareShape, target: nat, mat_b_row: nat, col: nat) -> HardwareState {
    local_step(st, col_partition(sh, col), PhysicRowId(mat_b_row as usize), PhysicRowId(dense_row(sh, target, col) as usize))
}

/// Product (`target`, `col`) sent from subarray `dispatcher` to the
/// subarray of column `col`: on one ring when both sit on the same layer,
/// else to port 0 of the source ring, down a TSV, up a TSV and from port 0
/// of the target ring, after which the target subarray writes it.
pub open spec fn distribute_remote_spec(st: HardwareState, sh: HardwareShape, target: nat, dispatcher: nat, col: nat) -> HardwareState {
    let c = sh.config;
    let source_layer = ring_of(c, dispatcher);
    let target_partition = col_partition(sh, col);
    let target_layer = ring_of(c, target_partition);
    if source_layer == target_layer {
        ring_step(st, source_layer, RingPort(port_of(c, dispatcher)), RingPort(port_of(c, target_partition)))
    } else {
        let st1 = ring_step(st, source_layer, RingPort(port_of(c, dispatcher)), RingPort(0));
        let st2 = tsv_step(st1, ring_of(c, dispatcher));
        let st3 = tsv_step(st2, ring_of(c, target_partition));
        let st4 = ring_step(st3, target_layer, RingPort(0), RingPort(port_of(c, target_partition)));
        remote_write_step(st4, target_partition, PhysicRowId(dense_row(sh, target, col) as usize))
    }
}

/// No run count and no TSV traffic of the state is above `k`.
pub open spec fn counts_below(st: HardwareState, k: int) -> bool {
    &&& forall|p: int, i: int| 0 <= p < st.0.len() && 0 <= i < st.0[p].2.len() ==> (#[trigger] st.0[p].2[i]).1 <= k
    &&& forall|p: int, i: int| 0 <= p < st.0.len() && 0 <= i < st.0[p].3.len() ==> (#[trigger] st.0[p].3[i]).1 <= k
    &&& forall|v: int| 0 <= v < st.2.len() ==> #[trigger] st.2[v] <= k
}

/// The layout keeps every subarray on an existing ring and TSV, and the
/// unit sizes that it divides by are not zero.
pub open spec fn shape_ok(sh: HardwareShape, subarrays: nat, rings: nat, tsvs: nat) -> bool {
    &&& sh.config.subarrays > 0
    &&& sh.config.banks > 0
    &&& sh.row_per_partition > 0
    &&& sh.col_per_partition > 0
    &&& forall|p: nat| p < subarrays ==> #[trigger] ring_of(sh.config, p) < rings && ring_of(sh.config, p) < tsvs
}

/// The three parts of the hardware.
pub struct Hardware {
    sub_array: Vec<SubArray>,
    ring: Vec<Ring>,
    tsv: Vec<Tsv>,
    shape: HardwareShape,
}

impl Hardware {
    /// The hardware as plain values.
    pub closed spec fn state(&self) -> HardwareState {
        (self.sub_array@.map_values(|s: SubArray| s.state()),
            self.ring@.map_values(|r: Ring| r.tasks@),
            self.tsv@.map_values(|t: Tsv| t.traffic))
    }

    /// How the work is laid out.
    pub closed spec fn shape_spec(&self) -> HardwareShape {
        self.shape
    }

    /// The number of ports of every ring.
    pub closed spec fn ring_ports(&self) -> Seq<u8> {
        self.ring@.map_values(|r: Ring| r.ports)
    }

    /// Every ring has one port per bank of a layer.
    pub open spec fn wf(&self) -> bool {
        forall|r: int| 0 <= r < self.ring_ports().len() ==> #[trigger] self.ring_ports()[r] == self.shape_spec().config.banks as u8
    }

    /// Hardware with `num_subarray` idle subarrays, `num_rings` rings of one
    /// port per bank and `num_tsvs` TSVs. Every stack layer is a channel.
    pub fn new(
        num_subarray: usize,
        num_rings: usize,
        num_tsvs: usize,
        dense_dim: usize,
        config: HardwareConfig,
        row_per_partition: usize,
        col_per_partition: usize,
    ) -> (r: Self)
        requires
            config.stacks * config.layers == config.channels,
        ensures
            r.wf(),
            r.state().0 == Seq::new(num_subarray as nat, |_i: int| empty_subarray()),
            r.state().1 == Seq::new(num_rings as nat, |_i: int| Seq::<(RingPort, RingPort)>::empty()),
            r.state().2 == Seq::new(num_tsvs as nat, |_i: int| 0usize),
            r.shape_spec() == (HardwareShape { config, dense_dim, row_per_partition, col_per_partition }),
    {
        let mut sub_array: Vec<SubArray> = Vec::new();
        while sub_array.len() < num_subarray
            invariant
                sub_array.len() <= num_subarray,
                forall|i: int| 0 <= i < sub_array.len() ==> (#[trigger] sub_array[i]).state() == empty_subarray(),
            decreases num_subarray - sub_array.len(),
        {
            sub_array.push(SubArray::new());
        }
        let ports = config.banks as u8;
        let mut ring: Vec<Ring> = Vec::new();
        while ring.len() < num_rings
            invariant
                ring.len() <= num_rings,
                ports == config.banks as u8,
                forall|i: int| 0 <= i < ring.len() ==> (#[trigger] ring[i]).tasks@ == Seq::<(RingPort, RingPort)>::empty()
                    && ring[i].ports == ports,
            decreases num_rings - ring.len(),
        {
            ring.push(Ring::new(ports));
        }
        let mut tsv: Vec<Tsv> = Vec::new();
        while tsv.len() < num_tsvs
            invariant
                tsv.len() <= num_tsvs,
                forall|i: int| 0 <= i < tsv.len() ==> (#[trigger] tsv[i]).traffic == 0,
            decreases num_tsvs - tsv.len(),
        {
            tsv.push(Tsv::new());
        }
        let shape = HardwareShape { config, dense_dim, row_per_partition, col_per_partition };
        let r = Hardware { sub_array, ring, tsv, shape };
        assert(r.state().0 =~= Seq::new(num_subarray as nat, |_i: int| empty_subarray()));
        assert(r.state().1 =~= Seq::new(num_rings as nat, |_i: int| Seq::<(RingPort, RingPort)>::empty()));
        assert(r.state().2 =~= Seq::new(num_tsvs as nat, |_i: int| 0usize));
        r
    }

    /// The number of subarrays.
    pub fn subarrays(&self) -> (r: usize)
        ensures
            r == self.state().0.len(),
    {
        self.sub_array.len()
    }

    /// The number of banks.
    pub fn banks(&self) -> (r: usize)
        requires
            ({
                let c = self.shape_spec().config;
                c.channels * c.ranks * c.chips * c.bank_groups * c.banks <= usize::MAX
            }),
        ensures
            ({
                let c = self.shape_spec().config;
                r == c.channels * c.ranks * c.chips * c.bank_groups * c.banks
            }),
    {
        let c = self.shape.config;
        proof {
            vstd::arithmetic::mul::lemma_mul_nonnegative(c.channels as int, c.ranks as int);
            let a = c.channels * c.ranks;
            let b = a * c.chips;
            let d = b * c.bank_groups;
            assert(a * c.chips * c.bank_groups * c.banks <= usize::MAX);
            if c.banks > 0 {
                vstd::arithmetic::mul::lemma_mul_inequality(1, c.banks as int, d);
                assert(d <= d * c.banks) by (nonlinear_arith) requires d >= 0, c.banks >= 1;
            }
            if c.bank_groups > 0 {
                assert(b <= b * c.bank_groups) by (nonlinear_arith) requires b >= 0, c.bank_groups >= 1;
            }
            if c.chips > 0 {
                assert(a <= a * c.chips) by (nonlinear_arith) requires a >= 0, c.chips >= 1;
            }
        }
        if c.banks == 0 || c.bank_groups == 0 || c.chips == 0 {
            proof {
                assert(c.channels * c.ranks * c.chips * c.bank_groups * c.banks == 0) by (nonlinear_arith)
                    requires c.banks == 0 || c.bank_groups == 0 || c.chips == 0;
            }
            return 0;
        }
        c.channels * c.ranks * c.chips * c.bank_groups * c.banks
    }

    /// The number of logic layers of a stack.
    pub fn layers(&self) -> (r: usize)
        ensures
            r == self.shape_spec().config.layers,
    {
        self.shape.config.layers
    }

    /// The number of stacks.
    pub fn stacks(&self) -> (r: usize)
        ensures
            r == self.shape_spec().config.stacks,
    {
        self.shape.config.stacks
    }

    /// The number of rings.
    pub fn rings(&self) -> (r: usize)
        ensures
            r == self.state().1.len(),
    {
        self.ring.len()
    }

    /// The number of TSVs.
    pub fn tsvs(&self) -> (r: usize)
        ensures
            r == self.state().2.len(),
    {
        self.tsv.len()
    }

    /// An evil row is copied everywhere: its row id is the row id.
    pub fn get_row_id_evil(&self, mat_b_row_id: LogicRowId, _col_id: LogicColId) -> (r: PhysicRowId)
        ensures
            r.0 == mat_b_row_id.0,
    {
        PhysicRowId(mat_b_row_id.0)
    }

    /// The dispatcher of a subarray: the first subarray of its bank.
    pub fn get_dispatcher_id(&self, sub_array_id: SubarrayId) -> (r: SubarrayId)
        requires
            self.shape_spec().config.subarrays > 0,
        ensures
            r.0 == dispatcher_of(self.shape_spec().config, sub_array_id.0 as nat),
    {
        let m = self.shape.config.subarrays;
        let x = sub_array_id.0;
        assert(x % m <= x) by (nonlinear_arith) requires m > 0;
        SubarrayId(x - x % m)
    }

    /// The TSV below subarray `sub_array_id`.
    pub fn get_tsv_id_from_subarray(&self, sub_array_id: SubarrayId) -> (r: TsvId)
        requires
            self.shape_spec().config.subarrays > 0,
            self.shape_spec().config.banks > 0,
        ensures
            r.0 == ring_of(self.shape_spec().config, sub_array_id.0 as nat),
    {
        TsvId(sub_array_id.0 / self.shape.config.subarrays / self.shape.config.banks)
    }

    /// The TSV of a ring: they share their id.
    pub fn get_tsv_id_from_ring(&self, ring_id: RingId) -> (r: TsvId)
        ensures
            r.0 == ring_id.0,
    {
        TsvId(ring_id.0)
    }

    /// The port of subarray `subarray_id` on its ring.
    pub fn ring_port_from_subarray(&self, subarray_id: SubarrayId) -> (r: RingPort)
        requires
            self.shape_spec().config.subarrays > 0,
            self.shape_spec().config.banks > 0,
        ensures
            r.0 == port_of(self.shape_spec().config, subarray_id.0 as nat),
    {
        RingPort(((subarray_id.0 / self.shape.config.subarrays) % self.shape.config.banks) as u8)
    }

    /// The ring of the layer of subarray `partition_id`.
    pub fn ring_id_from_subarray(&self, partition_id: SubarrayId) -> (r: RingId)
        requires
            self.shape_spec().config.subarrays > 0,
            self.shape_spec().config.banks > 0,
        ensures
            r.0 == ring_of(self.shape_spec().config, partition_id.0 as nat),
    {
        let bank_id = partition_id.0 / self.shape.config.subarrays;
        RingId(bank_id / self.shape.config.banks)
    }

    /// A row of matrix B keeps its row id.
    pub fn get_row_id(&self, mat_b_row_id: LogicRowId, _col_id: LogicColId) -> (r: PhysicRowId)
        ensures
            r.0 == mat_b_row_id.0,
    {
        PhysicRowId(mat_b_row_id.0)
    }

    /// The dense-result row that product (`target_row_id`, `col_id`) writes.
    pub fn get_row_id_dense(&self, target_row_id: LogicRowId, col_id: LogicColId) -> (r: PhysicRowId)
        requires
            target_row_id.0 * self.shape_spec().dense_dim + col_id.0 <= usize::MAX,
        ensures
            r.0 == dense_row(self.shape_spec(), target_row_id.0 as nat, col_id.0 as nat),
            256 * r.0 <= target_row_id.0 * self.shape_spec().dense_dim + col_id.0 < 256 * r.0 + 256,
    {
        proof {
            lemma_dense_row_holds_place(self.shape_spec(), target_row_id.0 as nat, col_id.0 as nat, 0);
        }
        PhysicRowId((target_row_id.0 * self.shape.dense_dim + col_id.0) / 256)
    }

    /// The subarray that holds row `row_id` of matrix B.
    pub fn get_partition_id_row(&self, row_id: LogicRowId) -> (r: SubarrayId)
        requires
            self.shape_spec().row_per_partition > 0,
        ensures
            r.0 == row_partition(self.shape_spec(), row_id.0 as nat),
    {
        SubarrayId(row_id.0 / self.shape.row_per_partition)
    }

    /// The subarray that holds the results of column `col_id`.
    pub fn get_partition_id_col(&self, col_id: LogicColId) -> (r: SubarrayId)
        requires
            self.shape_spec().col_per_partition > 0,
        ensures
            r.0 == col_partition(self.shape_spec(), col_id.0 as nat),
    {
        SubarrayId(col_id.0 / self.shape.col_per_partition)
    }
}

impl Hardware {
    /// Computes product (`target_row_id`, `col_id`) of row `mat_b_row_id`
    /// in the subarray that stores the row.
    fn distribute_local(&mut self, target_row_id: LogicRowId, mat_b_row_id: LogicRowId, col_id: LogicColId)
        requires
            old(self).shape_spec().row_per_partition > 0,
            row_partition(old(self).shape_spec(), mat_b_row_id.0 as nat) < old(self).state().0.len(),
            target_row_id.0 * old(self).shape_spec().dense_dim + col_id.0 <= usize::MAX,
            can_push_run(old(self).state().0[row_partition(old(self).shape_spec(), mat_b_row_id.0 as nat) as int].2,
                PhysicRowId(mat_b_row_id.0)),
            can_push_run(old(self).state().0[row_partition(old(self).shape_spec(), mat_b_row_id.0 as nat) as int].3,
                PhysicRowId(dense_row(old(self).shape_spec(), target_row_id.0 as nat, col_id.0 as nat) as usize)),
        ensures
            final(self).state() == distribute_local_spec(old(self).state(), old(self).shape_spec(),
                target_row_id.0 as nat, mat_b_row_id.0 as nat, col_id.0 as nat),
            final(self).shape_spec() == old(self).shape_spec(),
            final(self).ring_ports() == old(self).ring_ports(),
    {
        let partition_id = self.get_partition_id_row(mat_b_row_id);
        let local_read = self.get_row_id(mat_b_row_id, col_id);
        let local_write = self.get_row_id_dense(target_row_id, col_id);
        let ghost before = self.state();
        self.sub_array[partition_id.0].add_task(local_read, local_write);
        proof {
            assert(self.state().0 =~= distribute_local_spec(before, self.shape, target_row_id.0 as nat,
                mat_b_row_id.0 as nat, col_id.0 as nat).0);
            assert(self.state().1 =~= before.1);
            assert(self.state().2 =~= before.2);
            assert(self.ring_ports() =~= old(self).ring_ports());
        }
    }

    /// Computes product (`target_row_id`, `col_id`) of the evil row
    /// `mat_b_row_id` in the subarray of the column: it only writes the
    /// local dense result.
    fn distribute_local_evil_row(&mut self, target_row_id: LogicRowId, mat_b_row_id: LogicRowId, col_id: LogicColId)
        requires
            old(self).shape_spec().col_per_partition > 0,
            col_partition(old(self).shape_spec(), col_id.0 as nat) < old(self).state().0.len(),
            target_row_id.0 * old(self).shape_spec().dense_dim + col_id.0 <= usize::MAX,
            can_push_run(old(self).state().0[col_partition(old(self).shape_spec(), col_id.0 as nat) as int].2,
                PhysicRowId(mat_b_row_id.0)),
            can_push_run(old(self).state().0[col_partition(old(self).shape_spec(), col_id.0 as nat) as int].3,
                PhysicRowId(dense_row(old(self).shape_spec(), target_row_id.0 as nat, col_id.0 as nat) as usize)),
        ensures
            final(self).state() == distribute_local_evil_row_spec(old(self).state(), old(self).shape_spec(),
                target_row_id.0 as nat, mat_b_row_id.0 as nat, col_id.0 as nat),
            final(self).shape_spec() == old(self).shape_spec(),
            final(self).ring_ports() == old(self).ring_ports(),
    {
        let partition_id = self.get_partition_id_col(col_id);
        let local_read = self.get_row_id_evil(mat_b_row_id, col_id);
        let local_write = self.get_row_id_dense(target_row_id, col_id);
        let ghost before = self.state();
        self.sub_array[partition_id.0].add_task(local_read, local_write);
        proof {
            assert(self.state().0 =~= distribute_local_evil_row_spec(before, self.shape, target_row_id.0 as nat,
                mat_b_row_id.0 as nat, col_id.0 as nat).0);
            assert(self.state().1 =~= before.1);
            assert(self.state().2 =~= before.2);
            assert(self.ring_ports() =~= old(self).ring_ports());
        }
    }

    /// Sends product (`target_row_id`, `col_id`) from subarray
    /// `dispatcher_id` to the subarray of the column.
    fn distribute_remote(&mut self, target_row_id: LogicRowId, dispatcher_id: SubarrayId, col_id: LogicColId)
        requires
            ({
                let sh = old(self).shape_spec();
                let st = old(self).state();
                let tp = col_partition(sh, col_id.0 as nat);
                &&& sh.config.subarrays > 0
                &&& sh.config.banks > 0
                &&& sh.col_per_partition > 0
                &&& tp < st.0.len()
                &&& ring_of(sh.config, dispatcher_id.0 as nat) < st.1.len()
                &&& ring_of(sh.config, dispatcher_id.0 as nat) < st.2.len()
                &&& ring_of(sh.config, tp) < st.1.len()
                &&& ring_of(sh.config, tp) < st.2.len()
                &&& target_row_id.0 * sh.dense_dim + col_id.0 <= usize::MAX
                &&& st.2[ring_of(sh.config, dispatcher_id.0 as nat) as int] + 2 <= usize::MAX
                &&& st.2[ring_of(sh.config, tp) as int] + 2 <= usize::MAX
                &&& can_push_run(st.0[tp as int].3, PhysicRowId(dense_row(sh, target_row_id.0 as nat, col_id.0 as nat) as usize))
            }),
        ensures
            final(self).state() == distribute_remote_spec(old(self).state(), old(self).shape_spec(),
                target_row_id.0 as nat, dispatcher_id.0 as nat, col_id.0 as nat),
            final(self).shape_spec() == old(self).shape_spec(),
            final(self).ring_ports() == old(self).ring_ports(),
    {
        let ghost st0 = self.state();
        let ghost sh = self.shape;
        let source_layer = self.ring_id_from_subarray(dispatcher_id);
        let target_partition_id = self.get_partition_id_col(col_id);
        let target_layer = self.ring_id_from_subarray(target_partition_id);
        if source_layer.0 == target_layer.0 {
            let source = self.ring_port_from_subarray(dispatcher_id);
            let target = self.ring_port_from_subarray(target_partition_id);
            self.ring[source_layer.0].add_task(source, target);
            proof {
                let want = distribute_remote_spec(st0, sh, target_row_id.0 as nat, dispatcher_id.0 as nat, col_id.0 as nat);
                assert(self.state().0 =~= want.0);
                assert(self.state().1 =~= want.1);
                assert(self.state().2 =~= want.2);
                assert(self.ring_ports() =~= old(self).ring_ports());
            }
        } else {
            let ghost want = distribute_remote_spec(st0, sh, target_row_id.0 as nat, dispatcher_id.0 as nat, col_id.0 as nat);
            let source_bank = self.ring_port_from_subarray(dispatcher_id);
            self.ring[source_layer.0].add_task(source_bank, RingPort(0));
            let ghost st1 = ring_step(st0, source_layer.0 as nat, source_bank, RingPort(0));
            assert(self.state().0 =~= st1.0);
            assert(self.state().1 =~= st1.1);
            assert(self.state().2 =~= st1.2);
            let tsv_id = self.get_tsv_id_from_subarray(dispatcher_id);
            self.tsv[tsv_id.0].add_task();
            let ghost st2 = tsv_step(st1, tsv_id.0 as nat);
            assert(self.state().0 =~= st2.0);
            assert(self.state().1 =~= st2.1);
            assert(self.state().2 =~= st2.2);
            let tsv_id2 = self.get_tsv_id_from_subarray(target_partition_id);
            assert(self.tsv[tsv_id2.0 as int].traffic < usize::MAX);
            self.tsv[tsv_id2.0].add_task();
            let ghost st3 = tsv_step(st2, tsv_id2.0 as nat);
            assert(self.state().0 =~= st3.0);
            assert(self.state().1 =~= st3.1);
            assert(self.state().2 =~= st3.2);
            let target_bank = self.ring_port_from_subarray(target_partition_id);
            self.ring[target_layer.0].add_task(RingPort(0), target_bank);
            let ghost st4 = ring_step(st3, target_layer.0 as nat, RingPort(0), target_bank);
            assert(self.state().0 =~= st4.0);
            assert(self.state().1 =~= st4.1);
            assert(self.state().2 =~= st4.2);
            let remote_dense_row_write = self.get_row_id_dense(target_row_id, col_id);
            self.sub_array[target_partition_id.0].add_remote_task(remote_dense_row_write);
            proof {
                assert(self.state().0 =~= want.0);
                assert(self.state().1 =~= want.1);
                assert(self.state().2 =~= want.2);
                assert(self.ring_ports() =~= old(self).ring_ports());
            }
        }
    }
}

// ---------------------------------------------------------------------------
// Batches of products
// ---------------------------------------------------------------------------

/// Everything product (`target`, `col`) of row `b_row` can touch exists,
/// and its dense-result address fits a word.
pub open spec fn product_fits(st: HardwareState, sh: HardwareShape, target: nat, b_row: nat, col: nat) -> bool {
    &&& row_partition(sh, b_row) < st.0.len()
    &&& row_partition(sh, target) < st.0.len()
    &&& col_partition(sh, col) < st.0.len()
    &&& target * sh.dense_dim + col <= usize::MAX
}

/// Every part of the hardware keeps its number of units.
pub open spec fn same_units(a: HardwareState, b: HardwareState) -> bool {
    &&& a.0.len() == b.0.len()
    &&& a.1.len() == b.1.len()
    &&& a.2.len() == b.2.len()
}

/// One local product keeps the units and raises a count by at most one.
pub proof fn lemma_local_step_counts(st: HardwareState, p: nat, read: PhysicRowId, write: PhysicRowId, k: int)
    requires
        k >= 0,
        counts_below(st, k),
        p < st.0.len(),
    ensures
        k < usize::MAX ==> can_push_run(st.0[p as int].2, read) && can_push_run(st.0[p as int].3, write),
        counts_below(local_step(st, p, read, write), k + 1),
        same_units(local_step(st, p, read, write), st),
{
    let s = st.0[p as int];
    if s.2.len() > 0 {
        assert(s.2.last() == st.0[p as int].2[s.2.len() - 1]);
    }
    if s.3.len() > 0 {
        assert(s.3.last() == st.0[p as int].3[s.3.len() - 1]);
    }
    let next = local_step(st, p, read, write);
    assert forall|q: int, i: int| 0 <= q < next.0.len() && 0 <= i < next.0[q].2.len() implies (#[trigger] next.0[q].2[i]).1 <= k + 1 by {
        if q == p {
            if i < s.2.len() {
                assert(st.0[q].2[i] == s.2[i]);
            }
        } else {
            assert(next.0[q] == st.0[q]);
        }
    }
    assert forall|q: int, i: int| 0 <= q < next.0.len() && 0 <= i < next.0[q].3.len() implies (#[trigger] next.0[q].3[i]).1 <= k + 1 by {
        if q == p {
            if i < s.3.len() {
                assert(st.0[q].3[i] == s.3[i]);
            }
        } else {
            assert(next.0[q] == st.0[q]);
        }
    }
}

/// One remote product keeps the units and raises a count by at most two.
pub proof fn lemma_remote_step_counts(st: HardwareState, sh: HardwareShape, target: nat, dispatcher: nat, col: nat, k: int)
    requires
        k >= 0,
        counts_below(st, k),
        sh.config.subarrays > 0,
        sh.config.banks > 0,
        col_partition(sh, col) < st.0.len(),
        ring_of(sh.config, dispatcher) < st.1.len(),
        ring_of(sh.config, dispatcher) < st.2.len(),
        ring_of(sh.config, col_partition(sh, col)) < st.1.len(),
        ring_of(sh.config, col_partition(sh, col)) < st.2.len(),
    ensures
        k + 2 <= usize::MAX ==> {
            &&& st.2[ring_of(sh.config, dispatcher) as int] + 2 <= usize::MAX
            &&& st.2[ring_of(sh.config, col_partition(sh, col)) as int] + 2 <= usize::MAX
            &&& can_push_run(st.0[col_partition(sh, col) as int].3, PhysicRowId(dense_row(sh, target, col) as usize))
        },
        counts_below(distribute_remote_spec(st, sh, target, dispatcher, col), k + 2),
        same_units(distribute_remote_spec(st, sh, target, dispatcher, col), st),
{
    let c = sh.config;
    let tp = col_partition(sh, col);
    let s = st.0[tp as int];
    if s.3.len() > 0 {
        assert(s.3.last() == st.0[tp as int].3[s.3.len() - 1]);
    }
    let next = distribute_remote_spec(st, sh, target, dispatcher, col);
    if ring_of(c, dispatcher) != ring_of(c, tp) {
        let w = PhysicRowId(dense_row(sh, target, col) as usize);
        assert forall|q: int, i: int| 0 <= q < next.0.len() && 0 <= i < next.0[q].3.len() implies (#[trigger] next.0[q].3[i]).1 <= k + 2 by {
            if q == tp {
                if i < s.3.len() {
                    assert(st.0[q].3[i] == s.3[i]);
                }
            } else {
                assert(next.0[q] == st.0[q]);
            }
        }
        assert forall|q: int, i: int| 0 <= q < next.0.len() && 0 <= i < next.0[q].2.len() implies (#[trigger] next.0[q].2[i]).1 <= k + 2 by {
            if q == tp {
                assert(next.0[q].2 == st.0[q].2);
            } else {
                assert(next.0[q] == st.0[q]);
            }
        }
    }
}

/// The products of evil row `b_row` for the columns `cols`, in order.
pub open spec fn evil_row_spec(st: HardwareState, sh: HardwareShape, target: nat, b_row: nat, cols: Seq<u32>) -> HardwareState
    decreases cols.len(),
{
    if cols.len() == 0 {
        st
    } else {
        distribute_local_evil_row_spec(evil_row_spec(st, sh, target, b_row, cols.drop_last()), sh, target, b_row, cols.last() as nat)
    }
}

/// The local products among the evil-column products `pairs`: those whose
/// column is stored with the target row.
pub open spec fn evil_col_local_spec(st: HardwareState, sh: HardwareShape, target: nat, pairs: Seq<(LogicRowId, LogicColId)>) -> HardwareState
    decreases pairs.len(),
{
    if pairs.len() == 0 {
        st
    } else {
        let prev = evil_col_local_spec(st, sh, target, pairs.drop_last(), );
        let (r, c) = pairs.last();
        if row_partition(sh, target) == col_partition(sh, c.0 as nat) {
            distribute_local_spec(prev, sh, target, r.0 as nat, c.0 as nat)
        } else {
            prev
        }
    }
}

/// The columns of the evil-column products that are not stored with the
/// target row.
pub open spec fn evil_col_remote_set(sh: HardwareShape, target: nat, pairs: Seq<(LogicRowId, LogicColId)>) -> Set<usize> {
    Set::new(|c: usize| exists|i: int| 0 <= i < pairs.len() && (#[trigger] pairs[i]).1.0 == c
        && row_partition(sh, target) != col_partition(sh, c as nat))
}

/// `s` is strictly increasing.
pub open spec fn increasing(s: Seq<usize>) -> bool {
    forall|i: int, j: int| 0 <= i < j < s.len() ==> s[i] < s[j]
}

/// The values of a finite set of words in increasing order.
pub open spec fn in_order(s: Set<usize>) -> Seq<usize> {
    choose|q: Seq<usize>| increasing(q) && q.to_set() == s
}

/// Two increasing sequences with the same values are equal.
pub proof fn lemma_increasing_unique(a: Seq<usize>, b: Seq<usize>)
    requires
        increasing(a),
        increasing(b),
        a.to_set() == b.to_set(),
    ensures
        a == b,
    decreases a.len() + b.len(),
{
    if a.len() > 0 && b.len() > 0 {
        let x = a.last();
        let y = b.last();
        assert(a.to_set().contains(x));
        assert(b.to_set().contains(y));
        assert(b.contains(x));
        assert(a.contains(y));
        let i = choose|i: int| 0 <= i < b.len() && b[i] == x;
        let j = choose|j: int| 0 <= j < a.len() && a[j] == y;
        if x < y {
            assert(j < a.len() - 1 ==> a[j] < a.last());
        }
        if y < x {
            assert(i < b.len() - 1 ==> b[i] < b.last());
        }
        assert(x == y);
        assert(a.drop_last().to_set() == b.drop_last().to_set()) by {
            assert forall|z: usize| a.drop_last().to_set().contains(z) implies b.drop_last().to_set().contains(z) by {
                let k = choose|k: int| 0 <= k < a.drop_last().len() && a.drop_last()[k] == z;
                assert(a[k] == z);
                assert(a.to_set().contains(z));
                let m = choose|m: int| 0 <= m < b.len() && b[m] == z;
                assert(m != b.len() - 1);
                assert(b.drop_last()[m] == z);
            }
            assert forall|z: usize| b.drop_last().to_set().contains(z) implies a.drop_last().to_set().contains(z) by {
                let k = choose|k: int| 0 <= k < b.drop_last().len() && b.drop_last()[k] == z;
                assert(b[k] == z);
                assert(b.to_set().contains(z));
                let m = choose|m: int| 0 <= m < a.len() && a[m] == z;
                assert(m != a.len() - 1);
                assert(a.drop_last()[m] == z);
            }
        }
        lemma_increasing_unique(a.drop_last(), b.drop_last());
        assert(a == a.drop_last().push(x));
        assert(b == b.drop_last().push(y));
    } else if a.len() > 0 {
        assert(a.to_set().contains(a[0]));
        assert(b.to_set().contains(a[0]));
    } else if b.len() > 0 {
        assert(b.to_set().contains(b[0]));
        assert(a.to_set().contains(b[0]));
    }
}

/// The remote products of one target row, one per column, from the
/// dispatcher `dispatcher`.
pub open spec fn remote_cols_spec(st: HardwareState, sh: HardwareShape, target: nat, dispatcher: nat, cols: Seq<usize>) -> HardwareState
    decreases cols.len(),
{
    if cols.len() == 0 {
        st
    } else {
        distribute_remote_spec(remote_cols_spec(st, sh, target, dispatcher, cols.drop_last()), sh, target, dispatcher, cols.last() as nat)
    }
}

/// The products of one target row with evil columns: the local ones in
/// order, then one remote product per column that lives elsewhere, in
/// increasing column order, from the subarray of the target row.
pub open spec fn evil_col_spec(st: HardwareState, sh: HardwareShape, target: nat, pairs: Seq<(LogicRowId, LogicColId)>) -> HardwareState {
    remote_cols_spec(evil_col_local_spec(st, sh, target, pairs), sh, target, row_partition(sh, target),
        in_order(evil_col_remote_set(sh, target, pairs)))
}

/// Inserts `x` into the increasing sequence `v` unless it is there.
pub(crate) fn insert_sorted(v: &mut Vec<usize>, x: usize)
    requires
        increasing(old(v)@),
    ensures
        increasing(final(v)@),
        final(v)@.to_set() == old(v)@.to_set().insert(x),
        final(v)@.len() <= old(v)@.len() + 1,
{
    let mut p: usize = 0;
    while p < v.len() && v[p] < x
        invariant
            p <= v.len(),
            forall|i: int| 0 <= i < p ==> v@[i] < x,
        decreases v.len() - p,
    {
        p += 1;
    }
    if p < v.len() && v[p] == x {
        assert(v@.to_set().insert(x) =~= v@.to_set());
        return;
    }
    let ghost old_v = v@;
    v.insert(p, x);
    proof {
        assert(v@ == old_v.take(p as int).push(x) + old_v.skip(p as int));
        assert forall|i: int, j: int| 0 <= i < j < v.len() implies v@[i] < v@[j] by {
            if j < p {
            } else if j == p {
            } else if i < p {
                assert(v@[j] == old_v[j - 1]);
                assert(old_v[p as int] >= x);
                if j - 1 > p {
                    assert(old_v[p as int] < old_v[j - 1]);
                }
            } else if i == p {
                assert(v@[j] == old_v[j - 1]);
                assert(old_v[p as int] > x);
                if j - 1 > p {
                    assert(old_v[p as int] < old_v[j - 1]);
                }
            } else {
                assert(v@[i] == old_v[i - 1]);
                assert(v@[j] == old_v[j - 1]);
            }
        }
        assert forall|z: usize| v@.to_set().contains(z) <==> old_v.to_set().insert(x).contains(z) by {
            if v@.contains(z) {
                let i = choose|i: int| 0 <= i < v.len() && v@[i] == z;
                if i < p {
                    assert(old_v[i] == z);
                } else if i > p {
                    assert(old_v[i - 1] == z);
                }
            }
            if old_v.contains(z) {
                let i = choose|i: int| 0 <= i < old_v.len() && old_v[i] == z;
                if i < p {
                    assert(v@[i] == z);
                } else {
                    assert(v@[i + 1] == z);
                }
            }
            if z == x {
                assert(v@[p as int] == x);
            }
        }
    }
}

impl Hardware {
    /// The products of evil row `mat_b_row_id` for each column of `cols`:
    /// an evil row is copied everywhere, so every product is local to the
    /// subarray of its column.
    fn distribute_evil_row(&mut self, target_row_id: LogicRowId, mat_b_row_id: LogicRowId, cols: &Vec<u32>, Ghost(k): Ghost<int>)
        requires
            old(self).shape_spec().col_per_partition > 0,
            forall|i: int| 0 <= i < cols.len() ==> col_partition(old(self).shape_spec(), #[trigger] cols[i] as nat) < old(self).state().0.len()
                && target_row_id.0 * old(self).shape_spec().dense_dim + cols[i] <= usize::MAX,
            k >= 0,
            counts_below(old(self).state(), k),
            k + cols.len() < usize::MAX,
        ensures
            final(self).state() == evil_row_spec(old(self).state(), old(self).shape_spec(), target_row_id.0 as nat,
                mat_b_row_id.0 as nat, cols@),
            counts_below(final(self).state(), k + cols.len()),
            same_units(final(self).state(), old(self).state()),
            final(self).shape_spec() == old(self).shape_spec(),
            final(self).ring_ports() == old(self).ring_ports(),
    {
        let ghost st0 = self.state();
        let ghost sh = self.shape;
        let mut i: usize = 0;
        while i < cols.len()
            invariant
                k >= 0,
                st0 == old(self).state(),
                sh == old(self).shape_spec(),
                i <= cols.len(),
                self.shape_spec() == sh,
                sh.col_per_partition > 0,
                self.ring_ports() == old(self).ring_ports(),
                forall|q: int| 0 <= q < cols.len() ==> col_partition(sh, #[trigger] cols[q] as nat) < st0.0.len()
                    && target_row_id.0 * sh.dense_dim + cols[q] <= usize::MAX,
                self.state() == evil_row_spec(st0, sh, target_row_id.0 as nat, mat_b_row_id.0 as nat, cols@.take(i as int)),
                counts_below(self.state(), k + i),
                same_units(self.state(), st0),
                k + cols.len() < usize::MAX,
            decreases cols.len() - i,
        {
            let col = cols[i];
            proof {
                assert(cols@.take(i + 1).drop_last() == cols@.take(i as int));
                let p = col_partition(sh, col as nat);
                let w = PhysicRowId(dense_row(sh, target_row_id.0 as nat, col as nat) as usize);
                lemma_local_step_counts(self.state(), p, PhysicRowId(mat_b_row_id.0), w, k + i);
            }
            self.distribute_local_evil_row(target_row_id, mat_b_row_id, LogicColId(col as usize));
            i += 1;
        }
        proof {
            assert(cols@.take(i as int) == cols@);
        }
    }

    /// The products of one target row with evil columns, given as (row of
    /// matrix B, column) pairs: those whose column lives with the target
    /// row are computed in place; for the others one remote product per
    /// column is sent, in increasing column order, from the subarray of
    /// the target row.
    fn distribute_evil_col(&mut self, target_row_id: LogicRowId, row_id_col_id: &Vec<(LogicRowId, LogicColId)>, Ghost(k): Ghost<int>)
        requires
            shape_ok(old(self).shape_spec(), old(self).state().0.len(), old(self).state().1.len(), old(self).state().2.len()),
            forall|i: int| 0 <= i < row_id_col_id.len() ==> product_fits(old(self).state(), old(self).shape_spec(),
                target_row_id.0 as nat, (#[trigger] row_id_col_id[i]).0.0 as nat, row_id_col_id[i].1.0 as nat),
            k >= 0,
            counts_below(old(self).state(), k),
            k + 3 * row_id_col_id.len() + 2 <= usize::MAX,
        ensures
            final(self).state() == evil_col_spec(old(self).state(), old(self).shape_spec(), target_row_id.0 as nat, row_id_col_id@),
            counts_below(final(self).state(), k + 3 * row_id_col_id.len()),
            same_units(final(self).state(), old(self).state()),
            final(self).shape_spec() == old(self).shape_spec(),
            final(self).ring_ports() == old(self).ring_ports(),
    {
        let ghost st0 = self.state();
        let ghost sh = self.shape;
        let ghost target = target_row_id.0 as nat;
        let ghost pairs = row_id_col_id@;
        let n = row_id_col_id.len();
        let mut remote: Vec<usize> = Vec::new();
        let mut dispatcher_id: Option<SubarrayId> = None;
        let mut i: usize = 0;
        while i < n
            invariant
                k >= 0,
                st0 == old(self).state(),
                sh == old(self).shape_spec(),
                target == target_row_id.0 as nat,
                i <= n,
                n == pairs.len(),
                pairs == row_id_col_id@,
                self.shape_spec() == sh,
                self.ring_ports() == old(self).ring_ports(),
                shape_ok(sh, st0.0.len(), st0.1.len(), st0.2.len()),
                forall|q: int| 0 <= q < n ==> product_fits(st0, sh, target, (#[trigger] pairs[q]).0.0 as nat, pairs[q].1.0 as nat),
                self.state() == evil_col_local_spec(st0, sh, target, pairs.take(i as int)),
                increasing(remote@),
                remote@.to_set() == evil_col_remote_set(sh, target, pairs.take(i as int)),
                remote.len() <= i,
                remote.len() > 0 ==> dispatcher_id is Some,
                dispatcher_id is Some ==> dispatcher_id == Some(SubarrayId(row_partition(sh, target) as usize)),
                counts_below(self.state(), k + i),
                same_units(self.state(), st0),
                k + 3 * n + 2 <= usize::MAX,
            decreases n - i,
        {
            let (mat_b_row_id, col_id) = row_id_col_id[i];
            assert(pairs[i as int] == (mat_b_row_id, col_id));
            proof {
                assert(pairs.take(i + 1).drop_last() == pairs.take(i as int));
                assert(pairs.take(i + 1).last() == pairs[i as int]);
                assert(product_fits(st0, sh, target, pairs[i as int].0.0 as nat, pairs[i as int].1.0 as nat));
            }
            let partition_id = self.get_partition_id_row(target_row_id);
            let target_partition_id = self.get_partition_id_col(col_id);
            if partition_id.0 == target_partition_id.0 {
                proof {
                    let p = row_partition(sh, mat_b_row_id.0 as nat);
                    let w = PhysicRowId(dense_row(sh, target, col_id.0 as nat) as usize);
                    lemma_local_step_counts(self.state(), p, PhysicRowId(mat_b_row_id.0), w, k + i);
                }
                self.distribute_local(target_row_id, mat_b_row_id, col_id);
                proof {
                    assert(evil_col_remote_set(sh, target, pairs.take(i + 1)) =~= evil_col_remote_set(sh, target, pairs.take(i as int))) by {
                        assert forall|c: usize| evil_col_remote_set(sh, target, pairs.take(i + 1)).contains(c)
                            implies evil_col_remote_set(sh, target, pairs.take(i as int)).contains(c) by {
                            let q = choose|q: int| 0 <= q < pairs.take(i + 1).len() && (#[trigger] pairs.take(i + 1)[q]).1.0 == c
                                && row_partition(sh, target) != col_partition(sh, c as nat);
                            assert(q != i);
                            assert(pairs.take(i as int)[q] == pairs.take(i + 1)[q]);
                        }
                        assert forall|c: usize| evil_col_remote_set(sh, target, pairs.take(i as int)).contains(c)
                            implies evil_col_remote_set(sh, target, pairs.take(i + 1)).contains(c) by {
                            let q = choose|q: int| 0 <= q < pairs.take(i as int).len() && (#[trigger] pairs.take(i as int)[q]).1.0 == c
                                && row_partition(sh, target) != col_partition(sh, c as nat);
                            assert(pairs.take(i + 1)[q] == pairs.take(i as int)[q]);
                        }
                    }
                    assert(counts_below(self.state(), k + i + 1));
                }
            } else {
                let ghost before = remote@;
                assert(partition_id.0 as nat == row_partition(sh, target));
                assert(partition_id == SubarrayId(row_partition(sh, target) as usize));
                insert_sorted(&mut remote, col_id.0);
                match dispatcher_id {
                    Some(_) => {},
                    None => {
                        dispatcher_id = Some(partition_id);
                    },
                }
                proof {
                    assert(evil_col_remote_set(sh, target, pairs.take(i + 1)) =~= evil_col_remote_set(sh, target, pairs.take(i as int)).insert(col_id.0)) by {
                        assert forall|c: usize| evil_col_remote_set(sh, target, pairs.take(i + 1)).contains(c)
                            implies evil_col_remote_set(sh, target, pairs.take(i as int)).insert(col_id.0).contains(c) by {
                            let q = choose|q: int| 0 <= q < pairs.take(i + 1).len() && (#[trigger] pairs.take(i + 1)[q]).1.0 == c
                                && row_partition(sh, target) != col_partition(sh, c as nat);
                            if q != i {
                                assert(pairs.take(i as int)[q] == pairs.take(i + 1)[q]);
                            }
                        }
                        assert forall|c: usize| evil_col_remote_set(sh, target, pairs.take(i as int)).insert(col_id.0).contains(c)
                            implies evil_col_remote_set(sh, target, pairs.take(i + 1)).contains(c) by {
                            if c == col_id.0 {
                                assert(pairs.take(i + 1)[i as int].1.0 == c);
                            } else {
                                let q = choose|q: int| 0 <= q < pairs.take(i as int).len() && (#[trigger] pairs.take(i as int)[q]).1.0 == c
                                    && row_partition(sh, target) != col_partition(sh, c as nat);
                                assert(pairs.take(i + 1)[q] == pairs.take(i as int)[q]);
                            }
                        }
                    }
                    assert(counts_below(self.state(), k + i + 1));
                }
            }
            i += 1;
        }
        proof {
            assert(pairs.take(n as int) == pairs);
        }
        let ghost st1 = self.state();
        let ghost set = evil_col_remote_set(sh, target, pairs);
        let nsub = self.sub_array.len();
        assert(st0.0.len() == nsub);
        proof {
            assert(increasing(remote@) && remote@.to_set() == set);
            let q = in_order(set);
            assert(increasing(q) && q.to_set() == set);
            lemma_increasing_unique(remote@, q);
        }
        let m = remote.len();
        let mut j: usize = 0;
        while j < m
            invariant
                k >= 0,
                st0 == old(self).state(),
                sh == old(self).shape_spec(),
                target == target_row_id.0 as nat,
                j <= m,
                m == remote.len(),
                m <= n,
                n == pairs.len(),
                self.shape_spec() == sh,
                self.ring_ports() == old(self).ring_ports(),
                shape_ok(sh, st0.0.len(), st0.1.len(), st0.2.len()),
                forall|q: int| 0 <= q < n ==> product_fits(st0, sh, target, (#[trigger] pairs[q]).0.0 as nat, pairs[q].1.0 as nat),
                remote@ == in_order(set),
                remote@.to_set() == set,
                set == evil_col_remote_set(sh, target, pairs),
                m > 0 ==> dispatcher_id == Some(SubarrayId(row_partition(sh, target) as usize)),
                st0.0.len() == nsub,
                self.state() == remote_cols_spec(st1, sh, target, row_partition(sh, target), remote@.take(j as int)),
                counts_below(self.state(), k + n + 2 * j),
                same_units(self.state(), st0),
                k + 3 * n + 2 <= usize::MAX,
            decreases m - j,
        {
            let col = remote[j];
            proof {
                assert(remote@.take(j + 1).drop_last() == remote@.take(j as int));
                assert(remote@.to_set().contains(col));
                let q = choose|q: int| 0 <= q < pairs.len() && (#[trigger] pairs[q]).1.0 == col
                    && row_partition(sh, target) != col_partition(sh, col as nat);
                assert(product_fits(st0, sh, target, pairs[q].0.0 as nat, pairs[q].1.0 as nat));
                let rp = row_partition(sh, target);
                assert(ring_of(sh.config, rp) < st0.1.len());
                assert(ring_of(sh.config, col_partition(sh, col as nat)) < st0.1.len());
                lemma_remote_step_counts(self.state(), sh, target, rp, col as nat, k + n + 2 * j);
                assert(rp < nsub);
                assert((rp as usize) as nat == rp);
            }
            let dispatcher = match dispatcher_id {
                Some(d) => d,
                None => {
                    assert(false);
                    SubarrayId(0)
                },
            };
            self.distribute_remote(target_row_id, dispatcher, LogicColId(col));
            j += 1;
        }
        proof {
            assert(remote@.take(m as int) == remote@);
        }
    }
}

// ---------------------------------------------------------------------------
// Sets of evil ids
// ---------------------------------------------------------------------------

/// A set of row or column ids, kept in a `hashbrown::HashSet`.
#[verifier::external_body]
pub struct IdSet {
    set: hashbrown::HashSet<usize>,
}

/// The ids that a set holds.
pub uninterp spec fn id_set_contents(s: IdSet) -> Set<usize>;

/// Collects `ids` with `hashbrown::HashSet`'s `FromIterator`: the set holds
/// exactly the values of `ids`.
#[verifier::external_body]
pub(crate) fn collect_ids(ids: Vec<usize>) -> (r: IdSet)
    ensures
        id_set_contents(r) == ids@.to_set(),
{
    IdSet { set: ids.into_iter().collect() }
}

/// `hashbrown::HashSet::contains`: whether the set holds `id`.
#[verifier::external_body]
pub(crate) fn id_set_contains(s: &IdSet, id: usize) -> (r: bool)
    ensures
        r == id_set_contents(*s).contains(id),
{
    s.set.contains(&id)
}

impl IdSet {
    /// The set of the values of `ids`.
    pub fn from_ids(ids: Vec<usize>) -> (r: IdSet)
        ensures
            id_set_contents(r) == ids@.to_set(),
    {
        collect_ids(ids)
    }

    /// Whether the set holds `id`.
    pub fn contains(&self, id: usize) -> (r: bool)
        ensures
            r == id_set_contents(*self).contains(id),
    {
        id_set_contains(self, id)
    }
}

// ---------------------------------------------------------------------------
// The simulation
// ---------------------------------------------------------------------------

/// The evil-column products of row `b_row`: a (row, column) pair for each
/// of its columns that is evil, in order.
pub open spec fn evil_pairs(evil_cols: Set<usize>, b_row: nat, cols: Seq<u32>) -> Seq<(LogicRowId, LogicColId)>
    decreases cols.len(),
{
    if cols.len() == 0 {
        Seq::empty()
    } else {
        let prev = evil_pairs(evil_cols, b_row, cols.drop_last());
        if evil_cols.contains(cols.last() as usize) {
            prev.push((LogicRowId(b_row as usize), LogicColId(cols.last() as usize)))
        } else {
            prev
        }
    }
}

/// The products of row `b_row` with its columns that are not evil, in
/// order: local when the column lives with the row, else sent from the
/// dispatcher of the row's subarray.
pub open spec fn plain_cols_spec(st: HardwareState, sh: HardwareShape, evil_cols: Set<usize>, target: nat, b_row: nat, cols: Seq<u32>) -> HardwareState
    decreases cols.len(),
{
    if cols.len() == 0 {
        st
    } else {
        let prev = plain_cols_spec(st, sh, evil_cols, target, b_row, cols.drop_last());
        let c = cols.last() as nat;
        if evil_cols.contains(c as usize) {
            prev
        } else if col_partition(sh, c) == row_partition(sh, b_row) {
            distribute_local_spec(prev, sh, target, b_row, c)
        } else {
            distribute_remote_spec(prev, sh, target, dispatcher_of(sh.config, row_partition(sh, b_row)), c)
        }
    }
}

/// The products of nonzero (`target`, `b_row`) of the input: with every
/// column of row `b_row` of matrix B.
pub open spec fn entry_spec(st: HardwareState, sh: HardwareShape, evil_rows: Set<usize>, evil_cols: Set<usize>, mb: CsrPattern, target: nat, b_row: nat) -> HardwareState {
    let row = mb.indices[b_row as int]@;
    if evil_rows.contains(b_row as usize) {
        evil_row_spec(st, sh, target, b_row, row)
    } else {
        evil_col_spec(plain_cols_spec(st, sh, evil_cols, target, b_row, row), sh, target, evil_pairs(evil_cols, b_row, row))
    }
}

/// The products of the nonzeros `bs` of input row `target`, in order.
pub open spec fn input_row_spec(st: HardwareState, sh: HardwareShape, evil_rows: Set<usize>, evil_cols: Set<usize>, mb: CsrPattern, target: nat, bs: Seq<u32>) -> HardwareState
    decreases bs.len(),
{
    if bs.len() == 0 {
        st
    } else {
        entry_spec(input_row_spec(st, sh, evil_rows, evil_cols, mb, target, bs.drop_last()), sh, evil_rows, evil_cols, mb, target, bs.last() as nat)
    }
}

/// The products of the first `r` rows of the input, row by row.
pub open spec fn run_spec(st: HardwareState, sh: HardwareShape, evil_rows: Set<usize>, evil_cols: Set<usize>, mb: CsrPattern, input: CsrPattern, r: int) -> HardwareState
    decreases r,
{
    if r <= 0 {
        st
    } else {
        input_row_spec(run_spec(st, sh, evil_rows, evil_cols, mb, input, r - 1), sh, evil_rows, evil_cols, mb, (r - 1) as nat, input.indices[r - 1]@)
    }
}

/// The number of products of the nonzeros `bs`: the lengths of their rows
/// of matrix B.
pub open spec fn row_work(mb: CsrPattern, bs: Seq<u32>) -> nat
    decreases bs.len(),
{
    if bs.len() == 0 {
        0
    } else {
        row_work(mb, bs.drop_last()) + mb.indices[bs.last() as int]@.len()
    }
}

/// The number of products of the first `r` rows of the input.
pub open spec fn input_work(mb: CsrPattern, input: CsrPattern, r: int) -> nat
    decreases r,
{
    if r <= 0 {
        0
    } else {
        input_work(mb, input, r - 1) + row_work(mb, input.indices[r - 1]@)
    }
}

/// Every nonzero of the input names a row of matrix B, and each of its
/// products fits the hardware.
pub open spec fn input_fits(st: HardwareState, sh: HardwareShape, mb: CsrPattern, input: CsrPattern) -> bool {
    forall|r: int, j: int| 0 <= r < input.indices.len() && 0 <= j < input.indices[r]@.len()
        ==> #[trigger] entry_fits(st, sh, mb, input, r, j)
}

/// Nonzero `j` of input row `r` names a row of matrix B, and each of its
/// products fits the hardware.
pub open spec fn entry_fits(st: HardwareState, sh: HardwareShape, mb: CsrPattern, input: CsrPattern, r: int, j: int) -> bool {
    let b = input.indices[r]@[j] as int;
    &&& b < mb.indices.len()
    &&& forall|q: int| 0 <= q < mb.indices[b]@.len() ==> product_fits(st, sh, r as nat, b as nat, #[trigger] mb.indices[b]@[q] as nat)
}

/// The statistics of one graph.
pub struct SingleResult {
    pub name: String,
    pub subarray_result: Vec<SubArrayResult>,
    pub ring_result: Vec<RingResult>,
    pub tsv_result: Vec<TsvResult>,
}

/// The gearbox simulation of one multiplication.
pub struct GearboxSim {
    pub row_per_partition: usize,
    pub col_per_partition: usize,
    /// The evil columns: they have a copy in every partition.
    pub evil_col_ids: IdSet,
    /// The evil rows: they are spread over every partition, so no remote
    /// access is needed for them.
    pub evil_row_ids: IdSet,
    pub matrix_b: CsrPattern,
    pub hardware: Hardware,
}

/// `n / d` rounded up, at least one.
pub open spec fn per_partition(n: nat, d: nat) -> nat {
    let q = (n + d - 1) / (d as int);
    if q == 0 { 1 } else { q as nat }
}

impl GearboxSim {
    /// A simulation of `num_partitions` subarrays: the rows and the columns
    /// of matrix B are split into blocks of equal size (rounded up, at
    /// least one), and every layer of every stack gets a ring and a TSV.
    pub fn new(
        num_partitions: usize,
        evil_col_ids: Vec<usize>,
        evil_row_ids: Vec<usize>,
        matrix_b: CsrPattern,
        config: &HardwareConfig,
    ) -> (r: Self)
        requires
            num_partitions > 0,
            matrix_b.indices.len() + num_partitions <= usize::MAX,
            matrix_b.cols + num_partitions <= usize::MAX,
            config.stacks * config.layers == config.channels,
        ensures
            r.row_per_partition == per_partition(matrix_b.indices.len() as nat, num_partitions as nat),
            r.col_per_partition == per_partition(matrix_b.cols as nat, num_partitions as nat),
            id_set_contents(r.evil_col_ids) == evil_col_ids@.to_set(),
            id_set_contents(r.evil_row_ids) == evil_row_ids@.to_set(),
            r.matrix_b == matrix_b,
            r.hardware.wf(),
            r.hardware.state().0 == Seq::new(num_partitions as nat, |_i: int| empty_subarray()),
            r.hardware.state().1 == Seq::new(config.channels as nat, |_i: int| Seq::<(RingPort, RingPort)>::empty()),
            r.hardware.state().2 == Seq::new(config.channels as nat, |_i: int| 0usize),
            r.hardware.shape_spec() == (HardwareShape {
                config: *config,
                dense_dim: if matrix_b.cols / num_partitions == 0 { 1 } else { (matrix_b.cols / num_partitions) as usize },
                row_per_partition: r.row_per_partition,
                col_per_partition: r.col_per_partition,
            }),
    {
        let num_rows = matrix_b.rows();
        let num_cols = matrix_b.cols;
        let mut row_per_partition = (num_rows + num_partitions - 1) / num_partitions;
        let mut col_per_partition = (num_cols + num_partitions - 1) / num_partitions;
        if row_per_partition == 0 {
            row_per_partition = 1;
        }
        if col_per_partition == 0 {
            col_per_partition = 1;
        }
        let num_rings = config.stacks * config.layers;
        let mut dense_dim = num_cols / num_partitions;
        if dense_dim == 0 {
            dense_dim = 1;
        }
        let hardware = Hardware::new(num_partitions, num_rings, num_rings, dense_dim, *config, row_per_partition, col_per_partition);
        GearboxSim {
            row_per_partition,
            col_per_partition,
            evil_col_ids: collect_ids(evil_col_ids),
            evil_row_ids: collect_ids(evil_row_ids),
            matrix_b,
            hardware,
        }
    }

    /// The subarray that holds row `row_id` of matrix B.
    pub fn get_partition_id_row(&self, row_id: LogicRowId) -> (r: SubarrayId)
        requires
            self.hardware.shape_spec().row_per_partition > 0,
        ensures
            r.0 == row_partition(self.hardware.shape_spec(), row_id.0 as nat),
    {
        self.hardware.get_partition_id_row(row_id)
    }

    /// The subarray that holds the results of column `col_id`.
    pub fn get_partition_id_col(&self, col_id: LogicColId) -> (r: SubarrayId)
        requires
            self.hardware.shape_spec().col_per_partition > 0,
        ensures
            r.0 == col_partition(self.hardware.shape_spec(), col_id.0 as nat),
    {
        self.hardware.get_partition_id_col(col_id)
    }

    /// The products of nonzero (`target_id`, `mat_b_row_id`) of the input.
    fn process_entry(&mut self, target_id: usize, mat_b_row_id: usize, Ghost(k): Ghost<int>)
        requires
            ({
                let st = old(self).hardware.state();
                let sh = old(self).hardware.shape_spec();
                let mb = old(self).matrix_b;
                &&& shape_ok(sh, st.0.len(), st.1.len(), st.2.len())
                &&& mat_b_row_id < mb.indices.len()
                &&& forall|q: int| 0 <= q < mb.indices[mat_b_row_id as int]@.len()
                    ==> product_fits(st, sh, target_id as nat, mat_b_row_id as nat, #[trigger] mb.indices[mat_b_row_id as int]@[q] as nat)
                &&& k >= 0
                &&& counts_below(st, k)
                &&& k + 5 * mb.indices[mat_b_row_id as int]@.len() + 5 <= usize::MAX
            }),
        ensures
            final(self).hardware.state() == entry_spec(old(self).hardware.state(), old(self).hardware.shape_spec(),
                id_set_contents(old(self).evil_row_ids), id_set_contents(old(self).evil_col_ids), old(self).matrix_b,
                target_id as nat, mat_b_row_id as nat),
            counts_below(final(self).hardware.state(), k + 5 * old(self).matrix_b.indices[mat_b_row_id as int]@.len()),
            same_units(final(self).hardware.state(), old(self).hardware.state()),
            final(self).hardware.shape_spec() == old(self).hardware.shape_spec(),
            final(self).hardware.ring_ports() == old(self).hardware.ring_ports(),
            final(self).row_per_partition == old(self).row_per_partition,
            final(self).col_per_partition == old(self).col_per_partition,
            final(self).evil_row_ids == old(self).evil_row_ids,
            final(self).evil_col_ids == old(self).evil_col_ids,
            final(self).matrix_b == old(self).matrix_b,
    {
        let ghost st0 = self.hardware.state();
        let ghost sh = self.hardware.shape_spec();
        let ghost ecs = id_set_contents(self.evil_col_ids);
        let row = &self.matrix_b.indices[mat_b_row_id];
        let ghost cols = row@;
        if id_set_contains(&self.evil_row_ids, mat_b_row_id) {
            self.hardware.distribute_evil_row(LogicRowId(target_id), LogicRowId(mat_b_row_id), row, Ghost(k));
            return;
        }
        let mut pairs: Vec<(LogicRowId, LogicColId)> = Vec::new();
        let n = row.len();
        let mut i: usize = 0;
        while i < n
            invariant
                k >= 0,
                i <= n,
                n == cols.len(),
                *row == self.matrix_b.indices[mat_b_row_id as int],
                cols == row@,
                st0 == old(self).hardware.state(),
                sh == old(self).hardware.shape_spec(),
                ecs == id_set_contents(self.evil_col_ids),
                self.row_per_partition == old(self).row_per_partition,
                self.col_per_partition == old(self).col_per_partition,
                self.evil_row_ids == old(self).evil_row_ids,
                self.evil_col_ids == old(self).evil_col_ids,
                self.matrix_b == old(self).matrix_b,
                mat_b_row_id < self.matrix_b.indices.len(),
                self.hardware.shape_spec() == sh,
                self.hardware.ring_ports() == old(self).hardware.ring_ports(),
                shape_ok(sh, st0.0.len(), st0.1.len(), st0.2.len()),
                forall|q: int| 0 <= q < n ==> product_fits(st0, sh, target_id as nat, mat_b_row_id as nat, #[trigger] cols[q] as nat),
                self.hardware.state() == plain_cols_spec(st0, sh, ecs, target_id as nat, mat_b_row_id as nat, cols.take(i as int)),
                pairs@ == evil_pairs(ecs, mat_b_row_id as nat, cols.take(i as int)),
                pairs.len() <= i,
                counts_below(self.hardware.state(), k + 2 * i),
                same_units(self.hardware.state(), st0),
                k + 5 * n + 5 <= usize::MAX,
            decreases n - i,
        {
            let col = row[i];
            proof {
                assert(cols.take(i + 1).drop_last() == cols.take(i as int));
                assert(cols.take(i + 1).last() == col);
                assert(product_fits(st0, sh, target_id as nat, mat_b_row_id as nat, cols[i as int] as nat));
            }
            if id_set_contains(&self.evil_col_ids, col as usize) {
                pairs.push((LogicRowId(mat_b_row_id), LogicColId(col as usize)));
            } else {
                let target_partition = self.hardware.get_partition_id_col(LogicColId(col as usize));
                let source_partition = self.hardware.get_partition_id_row(LogicRowId(mat_b_row_id));
                if target_partition.0 == source_partition.0 {
                    proof {
                        let p = row_partition(sh, mat_b_row_id as nat);
                        let w = PhysicRowId(dense_row(sh, target_id as nat, col as nat) as usize);
                        lemma_local_step_counts(self.hardware.state(), p, PhysicRowId(mat_b_row_id), w, k + 2 * i);
                    }
                    self.hardware.distribute_local(LogicRowId(target_id), LogicRowId(mat_b_row_id), LogicColId(col as usize));
                } else {
                    let dispatcher = self.hardware.get_dispatcher_id(source_partition);
                    proof {
                        let d = dispatcher_of(sh.config, row_partition(sh, mat_b_row_id as nat));
                        let rp = row_partition(sh, mat_b_row_id as nat);
                        assert(d <= rp) by (nonlinear_arith) requires d == (rp - rp % (sh.config.subarrays as nat)) as nat, sh.config.subarrays > 0;
                        assert(ring_of(sh.config, d) < st0.1.len());
                        assert(ring_of(sh.config, col_partition(sh, col as nat)) < st0.1.len());
                        lemma_remote_step_counts(self.hardware.state(), sh, target_id as nat, d, col as nat, k + 2 * i);
                    }
                    self.hardware.distribute_remote(LogicRowId(target_id), dispatcher, LogicColId(col as usize));
                }
            }
            i += 1;
        }
        proof {
            assert(cols.take(n as int) == cols);
            assert forall|q: int| 0 <= q < pairs.len() implies product_fits(self.hardware.state(), sh, target_id as nat,
                (#[trigger] pairs[q]).0.0 as nat, pairs[q].1.0 as nat) by {
                lemma_evil_pairs_from(ecs, mat_b_row_id as nat, cols, q);
                let t = choose|t: int| 0 <= t < cols.len() && cols[t] as usize == pairs[q].1.0;
                assert(product_fits(st0, sh, target_id as nat, mat_b_row_id as nat, cols[t] as nat));
            }
        }
        self.hardware.distribute_evil_col(LogicRowId(target_id), &pairs, Ghost(k + 2 * n));
    }
}

/// Every evil-column pair of a row is (the row, one of its columns).
pub proof fn lemma_evil_pairs_from(evil_cols: Set<usize>, b_row: nat, cols: Seq<u32>, q: int)
    requires
        b_row <= usize::MAX,
        0 <= q < evil_pairs(evil_cols, b_row, cols).len(),
    ensures
        evil_pairs(evil_cols, b_row, cols)[q].0.0 == b_row,
        exists|t: int| 0 <= t < cols.len() && cols[t] as usize == evil_pairs(evil_cols, b_row, cols)[q].1.0,
    decreases cols.len(),
{
    let prev = evil_pairs(evil_cols, b_row, cols.drop_last());
    if q < prev.len() {
        lemma_evil_pairs_from(evil_cols, b_row, cols.drop_last(), q);
        let t = choose|t: int| 0 <= t < cols.drop_last().len() && cols.drop_last()[t] as usize == prev[q].1.0;
        assert(cols[t] == cols.drop_last()[t]);
    } else {
        assert(cols[cols.len() - 1] == cols.last());
    }
}

/// The work of a prefix of the nonzeros grows by the length of each row
/// of matrix B that it takes in, and is at most the work of all of them.
pub proof fn lemma_row_work_prefix(mb: CsrPattern, bs: Seq<u32>, j: int)
    requires
        0 <= j <= bs.len(),
    ensures
        row_work(mb, bs.take(j)) <= row_work(mb, bs),
        j < bs.len() ==> row_work(mb, bs.take(j + 1)) == row_work(mb, bs.take(j)) + mb.indices[bs[j] as int]@.len(),
    decreases bs.len() - j,
{
    if j < bs.len() {
        assert(bs.take(j + 1).drop_last() == bs.take(j));
        lemma_row_work_prefix(mb, bs, j + 1);
    } else {
        assert(bs.take(j) == bs);
    }
}

/// The work of the first rows of the input grows with the number of rows.
pub proof fn lemma_input_work_prefix(mb: CsrPattern, input: CsrPattern, r: int, total: int)
    requires
        0 <= r <= total,
    ensures
        input_work(mb, input, r) <= input_work(mb, input, total),
    decreases total - r,
{
    if r < total {
        lemma_input_work_prefix(mb, input, r + 1, total);
    }
}

impl GearboxSim {
    /// The layout keeps every subarray on a ring and a TSV, every product
    /// of `input` fits the hardware, and the run counts and TSV traffic
    /// cannot overflow: each product raises them by at most five.
    pub open spec fn run_ok(&self, input: CsrPattern) -> bool {
        let st = self.hardware.state();
        let sh = self.hardware.shape_spec();
        let mb = self.matrix_b;
        let work = input_work(mb, input, input.indices.len() as int);
        &&& shape_ok(sh, st.0.len(), st.1.len(), st.2.len())
        &&& input_fits(st, sh, mb, input)
        &&& 5 * work + 5 <= usize::MAX
        &&& counts_below(st, usize::MAX - 5 * work - 5)
    }

    /// Distributes the products of `input_mat` times matrix B: nonzero by
    /// nonzero of the input in row order, and for each, column by column
    /// of its row of matrix B.
    pub fn run(&mut self, input_mat: &CsrPattern)
        requires
            old(self).run_ok(*input_mat),
        ensures
            final(self).hardware.state() == run_spec(old(self).hardware.state(), old(self).hardware.shape_spec(),
                id_set_contents(old(self).evil_row_ids), id_set_contents(old(self).evil_col_ids), old(self).matrix_b,
                *input_mat, input_mat.indices.len() as int),
            final(self).hardware.shape_spec() == old(self).hardware.shape_spec(),
            final(self).hardware.ring_ports() == old(self).hardware.ring_ports(),
            final(self).row_per_partition == old(self).row_per_partition,
            final(self).col_per_partition == old(self).col_per_partition,
            final(self).evil_row_ids == old(self).evil_row_ids,
            final(self).evil_col_ids == old(self).evil_col_ids,
            final(self).matrix_b == old(self).matrix_b,
    {
        let ghost st0 = self.hardware.state();
        let ghost sh = self.hardware.shape_spec();
        let ghost mb = self.matrix_b;
        let ghost ers = id_set_contents(self.evil_row_ids);
        let ghost ecs = id_set_contents(self.evil_col_ids);
        let ghost input = *input_mat;
        let ghost total = input_mat.indices.len() as int;
        let ghost work = input_work(mb, input, total);
        let ghost k0: int = usize::MAX - 5 * work - 5;
        let rows = input_mat.indices.len();
        let mut r: usize = 0;
        while r < rows
            invariant
                r <= rows,
                rows == total,
                total == input_mat.indices.len(),
                input == *input_mat,
                st0 == old(self).hardware.state(),
                sh == old(self).hardware.shape_spec(),
                mb == self.matrix_b,
                ers == id_set_contents(self.evil_row_ids),
                ecs == id_set_contents(self.evil_col_ids),
                self.hardware.shape_spec() == sh,
                self.hardware.ring_ports() == old(self).hardware.ring_ports(),
                self.row_per_partition == old(self).row_per_partition,
                self.col_per_partition == old(self).col_per_partition,
                self.evil_row_ids == old(self).evil_row_ids,
                self.evil_col_ids == old(self).evil_col_ids,
                self.matrix_b == old(self).matrix_b,
                work == input_work(mb, input, total),
                k0 == usize::MAX - 5 * work - 5,
                k0 >= 0,
                shape_ok(sh, st0.0.len(), st0.1.len(), st0.2.len()),
                input_fits(st0, sh, mb, input),
                self.hardware.state() == run_spec(st0, sh, ers, ecs, mb, input, r as int),
                counts_below(self.hardware.state(), k0 + 5 * input_work(mb, input, r as int)),
                same_units(self.hardware.state(), st0),
            decreases rows - r,
        {
            let row = &input_mat.indices[r];
            let ghost bs = row@;
            let ghost start = self.hardware.state();
            proof {
                lemma_input_work_prefix(mb, input, r + 1, total);
            }
            let n = row.len();
            let mut j: usize = 0;
            while j < n
                invariant
                    r < rows,
                    j <= n,
                    n == bs.len(),
                    *row == input.indices[r as int],
                    bs == row@,
                    rows == total,
                    total == input_mat.indices.len(),
                    input == *input_mat,
                    st0 == old(self).hardware.state(),
                    sh == old(self).hardware.shape_spec(),
                    mb == self.matrix_b,
                    ers == id_set_contents(self.evil_row_ids),
                    ecs == id_set_contents(self.evil_col_ids),
                    self.hardware.shape_spec() == sh,
                    self.hardware.ring_ports() == old(self).hardware.ring_ports(),
                    self.row_per_partition == old(self).row_per_partition,
                    self.col_per_partition == old(self).col_per_partition,
                    self.evil_row_ids == old(self).evil_row_ids,
                    self.evil_col_ids == old(self).evil_col_ids,
                    self.matrix_b == old(self).matrix_b,
                    work == input_work(mb, input, total),
                    k0 == usize::MAX - 5 * work - 5,
                    k0 >= 0,
                    input_work(mb, input, r + 1) <= work,
                    shape_ok(sh, st0.0.len(), st0.1.len(), st0.2.len()),
                    input_fits(st0, sh, mb, input),
                    start == run_spec(st0, sh, ers, ecs, mb, input, r as int),
                    self.hardware.state() == input_row_spec(start, sh, ers, ecs, mb, r as nat, bs.take(j as int)),
                    counts_below(self.hardware.state(), k0 + 5 * input_work(mb, input, r as int) + 5 * row_work(mb, bs.take(j as int))),
                    same_units(self.hardware.state(), st0),
                decreases n - j,
            {
                let b = row[j] as usize;
                proof {
                    assert(bs.take(j + 1).drop_last() == bs.take(j as int));
                    assert(bs.take(j + 1).last() == bs[j as int]);
                    lemma_row_work_prefix(mb, bs, j as int);
                    lemma_row_work_prefix(mb, bs, j + 1);
                    assert(input.indices[r as int]@[j as int] == bs[j as int]);
                    assert(entry_fits(st0, sh, mb, input, r as int, j as int));
                    assert((b as int) < mb.indices.len());
                    assert forall|q: int| 0 <= q < mb.indices[b as int]@.len() implies product_fits(self.hardware.state(), sh,
                        r as nat, b as nat, #[trigger] mb.indices[b as int]@[q] as nat) by {
                        assert(product_fits(st0, sh, r as nat, b as nat, mb.indices[b as int]@[q] as nat));
                    }
                }
                self.process_entry(r, b, Ghost(k0 + 5 * input_work(mb, input, r as int) + 5 * row_work(mb, bs.take(j as int))));
                j += 1;
            }
            proof {
                assert(bs.take(n as int) == bs);
            }
            r += 1;
        }
    }
}

impl SubArray {
    /// Whether the cycles of the subarray fit a word.
    pub fn cycle_fits(&self) -> (b: bool)
        ensures
            b == (subarray_cycle(self.state()) <= usize::MAX),
    {
        let ghost reads = self.local_read_rows@;
        let ghost writes = self.local_write_rows@;
        let ghost total = subarray_cycle(self.state());
        proof {
            lemma_runs_sums_monotone(self.read_open, reads, 0);
            lemma_runs_sums_monotone(self.write_open, writes, 0);
        }
        let mut acc: usize = 0;
        let mut i: usize = 0;
        while i < self.local_read_rows.len()
            invariant
                i <= reads.len(),
                reads == self.local_read_rows@,
                writes == self.local_write_rows@,
                total == subarray_cycle(self.state()),
                acc == runs_open_cycles(self.read_open, reads.take(i as int)) + runs_accesses(reads.take(i as int)),
            decreases reads.len() - i,
        {
            proof {
                assert(reads.take(i + 1).drop_last() == reads.take(i as int));
                lemma_runs_sums_monotone(self.read_open, reads, i + 1);
                lemma_runs_sums_monotone(self.read_open, reads, i as int);
            }
            let (row_id, times) = self.local_read_rows[i];
            let cost: usize = match self.read_open {
                Some(row) => if row == row_id.0 { 0 } else { 18 },
                None => 9,
            };
            if acc > usize::MAX - cost {
                return false;
            }
            acc = acc + cost;
            if acc > usize::MAX - times {
                return false;
            }
            acc = acc + times;
            i += 1;
        }
        proof {
            assert(reads.take(i as int) == reads);
        }
        let mut j: usize = 0;
        while j < self.local_write_rows.len()
            invariant
                j <= writes.len(),
                reads == self.local_read_rows@,
                writes == self.local_write_rows@,
                total == subarray_cycle(self.state()),
                acc == runs_open_cycles(self.read_open, reads) + runs_accesses(reads)
                    + runs_open_cycles(self.write_open, writes.take(j as int)) + runs_accesses(writes.take(j as int)),
            decreases writes.len() - j,
        {
            proof {
                assert(writes.take(j + 1).drop_last() == writes.take(j as int));
                lemma_runs_sums_monotone(self.write_open, writes, j + 1);
                lemma_runs_sums_monotone(self.write_open, writes, j as int);
            }
            let (row_id, times) = self.local_write_rows[j];
            let cost: usize = match self.write_open {
                Some(row) => if row == row_id.0 { 0 } else { 18 },
                None => 9,
            };
            if acc > usize::MAX - cost {
                return false;
            }
            acc = acc + cost;
            if acc > usize::MAX - times {
                return false;
            }
            acc = acc + times;
            j += 1;
        }
        proof {
            assert(writes.take(j as int) == writes);
        }
        true
    }
}

impl Ring {
    /// Whether every transfer of the ring is between two of its ports and
    /// fits the port counter.
    pub fn tasks_fit(&self) -> (b: bool)
        ensures
            b == forall|i: int| 0 <= i < self.tasks.len() ==> ring_task_ok(self.ports, #[trigger] self.tasks[i]),
    {
        let mut i: usize = 0;
        while i < self.tasks.len()
            invariant
                i <= self.tasks.len(),
                forall|q: int| 0 <= q < i ==> ring_task_ok(self.ports, #[trigger] self.tasks[q]),
            decreases self.tasks.len() - i,
        {
            let (s, t) = self.tasks[i];
            let ok = s.0 < self.ports && t.0 < self.ports && s.0 <= u8::MAX - self.ports && t.0 <= u8::MAX - self.ports;
            if !ok {
                assert(!ring_task_ok(self.ports, self.tasks[i as int]));
                return false;
            }
            i += 1;
        }
        true
    }
}

impl Hardware {
    /// Every subarray's cycles fit a word and every ring transfer fits its
    /// ring.
    pub open spec fn reportable(&self) -> bool {
        &&& forall|p: int| 0 <= p < self.state().0.len() ==> subarray_cycle(#[trigger] self.state().0[p]) <= usize::MAX
        &&& forall|r: int, i: int| 0 <= r < self.state().1.len() && 0 <= i < self.state().1[r].len()
            ==> ring_task_ok(self.ring_ports()[r], #[trigger] self.state().1[r][i])
    }

    /// Whether the hardware can report.
    pub fn can_report(&self) -> (b: bool)
        ensures
            b == self.reportable(),
    {
        let mut p: usize = 0;
        while p < self.sub_array.len()
            invariant
                p <= self.sub_array.len(),
                forall|q: int| 0 <= q < p ==> subarray_cycle(#[trigger] self.state().0[q]) <= usize::MAX,
            decreases self.sub_array.len() - p,
        {
            if !self.sub_array[p].cycle_fits() {
                assert(subarray_cycle(self.state().0[p as int]) > usize::MAX);
                return false;
            }
            p += 1;
        }
        let mut r: usize = 0;
        while r < self.ring.len()
            invariant
                r <= self.ring.len(),
                forall|q: int| 0 <= q < self.sub_array.len() ==> subarray_cycle(#[trigger] self.state().0[q]) <= usize::MAX,
                forall|q: int, i: int| 0 <= q < r && 0 <= i < self.state().1[q].len()
                    ==> ring_task_ok(self.ring_ports()[q], #[trigger] self.state().1[q][i]),
            decreases self.ring.len() - r,
        {
            if !self.ring[r].tasks_fit() {
                proof {
                    let i = choose|i: int| 0 <= i < self.ring[r as int].tasks.len() && !ring_task_ok(self.ring[r as int].ports, #[trigger] self.ring[r as int].tasks[i]);
                    assert(self.state().1[r as int][i] == self.ring[r as int].tasks[i]);
                    assert(self.ring_ports()[r as int] == self.ring[r as int].ports);
                }
                return false;
            }
            proof {
                assert forall|q: int, i: int| 0 <= q < r + 1 && 0 <= i < self.state().1[q].len()
                    implies ring_task_ok(self.ring_ports()[q], #[trigger] self.state().1[q][i]) by {
                    if q == r {
                        assert(self.state().1[q][i] == self.ring[q].tasks[i]);
                        assert(self.ring_ports()[q] == self.ring[q].ports);
                    }
                }
            }
            r += 1;
        }
        true
    }

    /// Every component reports: the subarrays, the rings and the TSVs, in
    /// order.
    pub fn report(&self, name: String) -> (r: SingleResult)
        requires
            self.reportable(),
        ensures
            r.name == name,
            r.subarray_result.len() == self.state().0.len(),
            forall|p: int| 0 <= p < r.subarray_result.len() ==> {
                let s = #[trigger] self.state().0[p];
                let x = r.subarray_result[p];
                &&& x.row_read_cycle == runs_open_cycles(s.0, s.2)
                &&& x.row_write_cycle == runs_open_cycles(s.1, s.3)
                &&& x.row_open_cycle == x.row_read_cycle + x.row_write_cycle
                &&& x.comp_cycle == runs_accesses(s.2)
                &&& x.cycle == subarray_cycle(s)
            },
            r.ring_result.len() == self.state().1.len(),
            forall|q: int| 0 <= q < r.ring_result.len() ==> {
                let ports = self.ring_ports()[q] as int;
                &&& (#[trigger] r.ring_result[q]).cycle == max_ring_load(ports, self.state().1[q], ports)
                &&& r.ring_result[q].traffic == self.state().1[q].len()
            },
            r.tsv_result.len() == self.state().2.len(),
            forall|v: int| 0 <= v < r.tsv_result.len() ==> (#[trigger] r.tsv_result[v]).cycle == self.state().2[v]
                && r.tsv_result[v].traffic == self.state().2[v],
    {
        let mut subarray_result: Vec<SubArrayResult> = Vec::new();
        let mut p: usize = 0;
        while p < self.sub_array.len()
            invariant
                p <= self.sub_array.len(),
                self.reportable(),
                subarray_result.len() == p,
                forall|q: int| 0 <= q < p ==> {
                    let s = #[trigger] self.state().0[q];
                    let x = subarray_result[q];
                    &&& x.row_read_cycle == runs_open_cycles(s.0, s.2)
                    &&& x.row_write_cycle == runs_open_cycles(s.1, s.3)
                    &&& x.row_open_cycle == x.row_read_cycle + x.row_write_cycle
                    &&& x.comp_cycle == runs_accesses(s.2)
                    &&& x.cycle == subarray_cycle(s)
                },
            decreases self.sub_array.len() - p,
        {
            assert(self.state().0[p as int] == self.sub_array[p as int].state());
            subarray_result.push(self.sub_array[p].report());
            p += 1;
        }
        let mut ring_result: Vec<RingResult> = Vec::new();
        let mut q: usize = 0;
        while q < self.ring.len()
            invariant
                q <= self.ring.len(),
                self.reportable(),
                ring_result.len() == q,
                forall|t: int| 0 <= t < q ==> {
                    let ports = self.ring_ports()[t] as int;
                    &&& (#[trigger] ring_result[t]).cycle == max_ring_load(ports, self.state().1[t], ports)
                    &&& ring_result[t].traffic == self.state().1[t].len()
                },
            decreases self.ring.len() - q,
        {
            proof {
                assert(self.state().1[q as int] == self.ring[q as int].tasks@);
                assert(self.ring_ports()[q as int] == self.ring[q as int].ports);
                assert forall|i: int| 0 <= i < self.ring[q as int].tasks.len()
                    implies ring_task_ok(self.ring[q as int].ports, #[trigger] self.ring[q as int].tasks[i]) by {
                    assert(self.state().1[q as int][i] == self.ring[q as int].tasks[i]);
                }
            }
            ring_result.push(self.ring[q].report());
            q += 1;
        }
        let mut tsv_result: Vec<TsvResult> = Vec::new();
        let mut v: usize = 0;
        while v < self.tsv.len()
            invariant
                v <= self.tsv.len(),
                tsv_result.len() == v,
                forall|t: int| 0 <= t < v ==> (#[trigger] tsv_result[t]).cycle == self.state().2[t]
                    && tsv_result[t].traffic == self.state().2[t],
            decreases self.tsv.len() - v,
        {
            tsv_result.push(self.tsv[v].report());
            v += 1;
        }
        SingleResult { name, subarray_result, ring_result, tsv_result }
    }
}

impl GearboxSim {
    /// Whether the hardware can report.
    pub fn can_report(&self) -> (b: bool)
        ensures
            b == self.hardware.reportable(),
    {
        self.hardware.can_report()
    }

    /// Reduces the work of every component into the statistics of graph
    /// `name`.
    pub fn report(&self, name: String) -> (r: SingleResult)
        requires
            self.hardware.reportable(),
        ensures
            r.name == name,
            r.subarray_result.len() == self.hardware.state().0.len(),
            forall|p: int| 0 <= p < r.subarray_result.len() ==>
                (#[trigger] r.subarray_result[p]).cycle == subarray_cycle(self.hardware.state().0[p]),
            r.ring_result.len() == self.hardware.state().1.len(),
            forall|q: int| 0 <= q < r.ring_result.len() ==> {
                let ports = self.hardware.ring_ports()[q] as int;
                &&& (#[trigger] r.ring_result[q]).cycle == max_ring_load(ports, self.hardware.state().1[q], ports)
                &&& r.ring_result[q].traffic == self.hardware.state().1[q].len()
            },
            r.tsv_result.len() == self.hardware.state().2.len(),
            forall|v: int| 0 <= v < r.tsv_result.len() ==> (#[trigger] r.tsv_result[v]).cycle == self.hardware.state().2[v],
    {
        let r = self.hardware.report(name);
        assert forall|p: int| 0 <= p < r.subarray_result.len() implies
            (#[trigger] r.subarray_result[p]).cycle == subarray_cycle(self.hardware.state().0[p]) by {
            let s = self.hardware.state().0[p];
        }
        r
    }
}

impl Hardware {
    /// Whether the layout divides by no zero and keeps every subarray on an
    /// existing ring and TSV.
    pub fn shape_fits(&self) -> (b: bool)
        ensures
            b == shape_ok(self.shape_spec(), self.state().0.len(), self.state().1.len(), self.state().2.len()),
    {
        let sh = self.shape;
        let c = sh.config;
        if c.subarrays == 0 || c.banks == 0 || sh.row_per_partition == 0 || sh.col_per_partition == 0 {
            return false;
        }
        let n = self.sub_array.len();
        let rings = self.ring.len();
        let tsvs = self.tsv.len();
        let mut p: usize = 0;
        while p < n
            invariant
                p <= n,
                n == self.state().0.len(),
                rings == self.state().1.len(),
                tsvs == self.state().2.len(),
                c == self.shape_spec().config,
                c.subarrays > 0,
                c.banks > 0,
                forall|q: nat| q < p ==> #[trigger] ring_of(c, q) < rings && ring_of(c, q) < tsvs,
            decreases n - p,
        {
            let r = p / c.subarrays / c.banks;
            if r >= rings || r >= tsvs {
                assert(ring_of(c, p as nat) == r);
                return false;
            }
            p += 1;
        }
        true
    }

    /// Whether no run count and no TSV traffic exceeds `k`.
    pub fn counts_at_most(&self, k: usize) -> (b: bool)
        ensures
            b == counts_below(self.state(), k as int),
    {
        let ghost st = self.state();
        let mut p: usize = 0;
        while p < self.sub_array.len()
            invariant
                st == self.state(),
                p <= st.0.len(),
                forall|q: int, i: int| 0 <= q < p && 0 <= i < st.0[q].2.len() ==> (#[trigger] st.0[q].2[i]).1 <= k,
                forall|q: int, i: int| 0 <= q < p && 0 <= i < st.0[q].3.len() ==> (#[trigger] st.0[q].3[i]).1 <= k,
            decreases st.0.len() - p,
        {
            let s = &self.sub_array[p];
            assert(st.0[p as int] == s.state());
            let mut i: usize = 0;
            while i < s.local_read_rows.len()
                invariant
                    st == self.state(),
                    p < st.0.len(),
                    i <= s.local_read_rows.len(),
                    st.0[p as int] == s.state(),
                    forall|t: int| 0 <= t < i ==> (#[trigger] s.local_read_rows[t]).1 <= k,
                decreases s.local_read_rows.len() - i,
            {
                if s.local_read_rows[i].1 > k {
                    assert(st.0[p as int].2[i as int] == s.local_read_rows[i as int]);
                    return false;
                }
                i += 1;
            }
            let mut j: usize = 0;
            while j < s.local_write_rows.len()
                invariant
                    st == self.state(),
                    p < st.0.len(),
                    j <= s.local_write_rows.len(),
                    st.0[p as int] == s.state(),
                    forall|t: int| 0 <= t < j ==> (#[trigger] s.local_write_rows[t]).1 <= k,
                decreases s.local_write_rows.len() - j,
            {
                if s.local_write_rows[j].1 > k {
                    assert(st.0[p as int].3[j as int] == s.local_write_rows[j as int]);
                    return false;
                }
                j += 1;
            }
            proof {
                assert forall|q: int, t: int| 0 <= q < p + 1 && 0 <= t < st.0[q].2.len() implies (#[trigger] st.0[q].2[t]).1 <= k by {
                    if q == p {
                        assert(st.0[q].2[t] == s.local_read_rows[t]);
                    }
                }
                assert forall|q: int, t: int| 0 <= q < p + 1 && 0 <= t < st.0[q].3.len() implies (#[trigger] st.0[q].3[t]).1 <= k by {
                    if q == p {
                        assert(st.0[q].3[t] == s.local_write_rows[t]);
                    }
                }
            }
            p += 1;
        }
        let mut v: usize = 0;
        while v < self.tsv.len()
            invariant
                st == self.state(),
                v <= st.2.len(),
                forall|q: int, i: int| 0 <= q < st.0.len() && 0 <= i < st.0[q].2.len() ==> (#[trigger] st.0[q].2[i]).1 <= k,
                forall|q: int, i: int| 0 <= q < st.0.len() && 0 <= i < st.0[q].3.len() ==> (#[trigger] st.0[q].3[i]).1 <= k,
                forall|t: int| 0 <= t < v ==> #[trigger] st.2[t] <= k,
            decreases st.2.len() - v,
        {
            if self.tsv[v].traffic > k {
                assert(st.2[v as int] == self.tsv[v as int].traffic);
                return false;
            }
            v += 1;
        }
        true
    }
}

impl GearboxSim {
    /// Whether `input_mat` can be run: see `run_ok`.
    pub fn can_run(&self, input_mat: &CsrPattern) -> (b: bool)
        ensures
            b == self.run_ok(*input_mat),
    {
        let ghost st = self.hardware.state();
        let ghost sh = self.hardware.shape_spec();
        let ghost mb = self.matrix_b;
        let ghost input = *input_mat;
        let ghost total = input_mat.indices.len() as int;
        if !self.hardware.shape_fits() {
            return false;
        }
        let nsub = self.hardware.subarrays();
        let rpp = self.hardware.shape.row_per_partition;
        let cpp = self.hardware.shape.col_per_partition;
        let dense_dim = self.hardware.shape.dense_dim;
        let limit: usize = (usize::MAX - 5) / 5;
        let mut work: usize = 0;
        let rows = input_mat.indices.len();
        let mut r: usize = 0;
        while r < rows
            invariant
                r <= rows,
                rows == total,
                total == input_mat.indices.len(),
                input == *input_mat,
                st == self.hardware.state(),
                sh == self.hardware.shape_spec(),
                mb == self.matrix_b,
                nsub == st.0.len(),
                rpp == sh.row_per_partition,
                cpp == sh.col_per_partition,
                dense_dim == sh.dense_dim,
                rpp > 0,
                cpp > 0,
                limit == (usize::MAX - 5) / 5,
                shape_ok(sh, st.0.len(), st.1.len(), st.2.len()),
                work == input_work(mb, input, r as int),
                work <= limit,
                forall|r2: int, j2: int| 0 <= r2 < r && 0 <= j2 < input.indices[r2]@.len()
                    ==> #[trigger] entry_fits(st, sh, mb, input, r2, j2),
            decreases rows - r,
        {
            let row = &input_mat.indices[r];
            let ghost bs = row@;
            proof {
                lemma_input_work_prefix(mb, input, r + 1, total);
            }
            let n = row.len();
            let mut j: usize = 0;
            while j < n
                invariant
                    r < rows,
                    j <= n,
                    n == bs.len(),
                    bs == row@,
                    *row == input.indices[r as int],
                    rows == total,
                    total == input_mat.indices.len(),
                    input == *input_mat,
                    st == self.hardware.state(),
                    sh == self.hardware.shape_spec(),
                    mb == self.matrix_b,
                    nsub == st.0.len(),
                    rpp == sh.row_per_partition,
                    cpp == sh.col_per_partition,
                    dense_dim == sh.dense_dim,
                    rpp > 0,
                    cpp > 0,
                    limit == (usize::MAX - 5) / 5,
                    shape_ok(sh, st.0.len(), st.1.len(), st.2.len()),
                    work == input_work(mb, input, r as int) + row_work(mb, bs.take(j as int)),
                    work <= limit,
                    input_work(mb, input, r + 1) <= input_work(mb, input, total),
                    forall|r2: int, j2: int| 0 <= r2 < r && 0 <= j2 < input.indices[r2]@.len()
                        ==> #[trigger] entry_fits(st, sh, mb, input, r2, j2),
                    forall|j2: int| 0 <= j2 < j ==> #[trigger] entry_fits(st, sh, mb, input, r as int, j2),
                decreases n - j,
            {
                let b = row[j] as usize;
                proof {
                    assert(input.indices[r as int]@[j as int] == bs[j as int]);
                    lemma_row_work_prefix(mb, bs, j as int);
                    lemma_row_work_prefix(mb, bs, j + 1);
                }
                if b >= self.matrix_b.indices.len() {
                    assert(!entry_fits(st, sh, mb, input, r as int, j as int));
                    return false;
                }
                let brow = &self.matrix_b.indices[b];
                let mut q: usize = 0;
                while q < brow.len()
                    invariant
                        q <= brow.len(),
                        input == *input_mat,
                        mb == self.matrix_b,
                        0 <= r < input.indices.len(),
                        0 <= j < input.indices[r as int]@.len(),
                        b as int == input.indices[r as int]@[j as int] as int,
                        (b as int) < mb.indices.len(),
                        *brow == mb.indices[b as int],
                        st == self.hardware.state(),
                        sh == self.hardware.shape_spec(),
                        nsub == st.0.len(),
                        rpp == sh.row_per_partition,
                        cpp == sh.col_per_partition,
                        dense_dim == sh.dense_dim,
                        rpp > 0,
                        cpp > 0,
                        forall|t: int| 0 <= t < q ==> product_fits(st, sh, r as nat, b as nat, #[trigger] mb.indices[b as int]@[t] as nat),
                    decreases brow.len() - q,
                {
                    let c = brow[q] as usize;
                    let fits_dense = match r.checked_mul(dense_dim) {
                        Some(x) => x <= usize::MAX - c,
                        None => false,
                    };
                    let ok = b / rpp < nsub && r / rpp < nsub && c / cpp < nsub && fits_dense;
                    if !ok {
                        proof {
                            if !fits_dense {
                                assert(r * dense_dim + c > usize::MAX) by (nonlinear_arith)
                                    requires
                                        r * dense_dim > usize::MAX || r * dense_dim + c > usize::MAX;
                            }
                            assert(!product_fits(st, sh, r as nat, b as nat, mb.indices[b as int]@[q as int] as nat));
                            assert(input.indices[r as int]@[j as int] as int == b as int);
                            assert(mb.indices[input.indices[r as int]@[j as int] as int]@[q as int] == mb.indices[b as int]@[q as int]);
                            assert(!entry_fits(st, sh, mb, input, r as int, j as int));
                        }
                        return false;
                    }
                    q += 1;
                }
                assert(entry_fits(st, sh, mb, input, r as int, j as int));
                let len = brow.len();
                if len > limit - work {
                    proof {
                        let w = input_work(mb, input, total);
                        assert(w >= work + len);
                        assert(5 * w + 5 > usize::MAX) by (nonlinear_arith)
                            requires
                                w > limit,
                                limit == (usize::MAX - 5) / 5;
                    }
                    return false;
                }
                work = work + len;
                j += 1;
            }
            proof {
                assert(bs.take(n as int) == bs);
            }
            r += 1;
        }
        assert(work == input_work(mb, input, total));
        assert(input_fits(st, sh, mb, input));
        self.hardware.counts_at_most(usize::MAX - 5 * work - 5)
    }
}

/// Id `a` comes before id `b` when ranked by weight, heaviest first, ties
/// in id order.
pub open spec fn ranks_before(weights: Seq<usize>, a: usize, b: usize) -> bool {
    weights[a as int] > weights[b as int] || (weights[a as int] == weights[b as int] && a < b)
}

/// The ids `0..weights.len()`, heaviest first, ties in id order (the order
/// a stable sort by decreasing weight gives).
pub fn ids_by_weight(weights: &Vec<usize>) -> (r: Vec<usize>)
    ensures
        r.len() == weights.len(),
        forall|i: int, j: int| 0 <= i < j < r.len() ==> ranks_before(weights@, r[i], r[j]),
        forall|id: usize| r@.contains(id) <==> id < weights.len(),
{
    let mut r: Vec<usize> = Vec::new();
    let n = weights.len();
    let mut k: usize = 0;
    while k < n
        invariant
            k <= n,
            n == weights.len(),
            r.len() == k,
            forall|i: int| 0 <= i < r.len() ==> #[trigger] r[i] < k,
            forall|i: int, j: int| 0 <= i < j < r.len() ==> ranks_before(weights@, r[i], r[j]),
            forall|id: usize| r@.contains(id) <==> id < k,
        decreases n - k,
    {
        let w = weights[k];
        let mut p: usize = 0;
        while p < r.len() && weights[r[p]] >= w
            invariant
                p <= r.len(),
                k < n,
                n == weights.len(),
                w == weights[k as int],
                forall|i: int| 0 <= i < r.len() ==> #[trigger] r[i] < k,
                forall|i: int| 0 <= i < p ==> weights[#[trigger] r[i] as int] >= w,
            decreases r.len() - p,
        {
            p += 1;
        }
        let ghost old_r = r@;
        r.insert(p, k);
        proof {
            assert(r@ == old_r.take(p as int).push(k) + old_r.skip(p as int));
            assert forall|i: int, j: int| 0 <= i < j < r.len() implies ranks_before(weights@, r[i], r[j]) by {
                if j < p {
                    assert(r[i] == old_r[i] && r[j] == old_r[j]);
                } else if j == p {
                    assert(r[i] == old_r[i]);
                    assert(weights[old_r[i] as int] >= w);
                } else if i < p {
                    assert(r[i] == old_r[i] && r[j] == old_r[j - 1]);
                } else if i == p {
                    assert(r[j] == old_r[j - 1]);
                    assert(weights[old_r[p as int] as int] < w);
                    if j - 1 > p {
                        assert(ranks_before(weights@, old_r[p as int], old_r[j - 1]));
                    }
                } else {
                    assert(r[i] == old_r[i - 1] && r[j] == old_r[j - 1]);
                }
            }
            assert forall|i: int| 0 <= i < r.len() implies #[trigger] r[i] < k + 1 by {
                if i < p {
                    assert(r[i] == old_r[i]);
                } else if i > p {
                    assert(r[i] == old_r[i - 1]);
                }
            }
            assert forall|id: usize| r@.contains(id) <==> id < k + 1 by {
                if r@.contains(id) {
                    let i = choose|i: int| 0 <= i < r.len() && r[i] == id;
                    assert(r[i] < k + 1);
                }
                if id < k + 1 {
                    if id == k {
                        assert(r[p as int] == k);
                    } else {
                        assert(old_r.contains(id));
                        let i = choose|i: int| 0 <= i < old_r.len() && old_r[i] == id;
                        if i < p {
                            assert(r[i] == id);
                        } else {
                            assert(r[i + 1] == id);
                        }
                    }
                }
            }
        }
        k += 1;
    }
    r
}

} // verus!
