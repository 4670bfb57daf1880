//! The subarrays that running tasks hold, and the merged-stream schedule
//! that hands them out.
use vstd::prelude::*;
use std::collections::BTreeSet;
use crate::event::Event;

verus! {

broadcast use vstd::laws_cmp::group_laws_cmp, vstd::std_specs::btree::group_btree_axioms;

/// One piece of a round: the subarray it runs on and its size in bytes.
#[derive(Debug, Clone, Copy, PartialEq, Eq, Structural)]
pub struct RoundTask {
    pub sub_array_id: usize,
    pub size: usize,
}

/// The cycles of a round: a cycle per 4 bytes of every piece.
pub open spec fn round_cycles(tasks: Seq<RoundTask>) -> nat
    decreases tasks.len(),
{
    if tasks.len() == 0 { 0 } else { round_cycles(tasks.drop_last()) + (tasks.last().size / 4) as nat }
}

/// Some piece of `tasks` runs on a subarray of `occupied`.
pub open spec fn conflicts(occupied: Set<usize>, tasks: Seq<RoundTask>) -> bool {
    exists|i: int| 0 <= i < tasks.len() && occupied.contains(#[trigger] tasks[i].sub_array_id)
}

/// The subarrays that the pieces of `tasks` run on.
pub open spec fn task_subarrays(tasks: Seq<RoundTask>) -> Set<usize> {
    Set::new(|id: usize| exists|i: int| 0 <= i < tasks.len() && #[trigger] tasks[i].sub_array_id == id)
}

/// The statistics of a merged-stream schedule of one graph; the schedule
/// records none.
pub struct MergeredStreamStat {}

/// One statistics record per graph: the merged-stream schedule hands no
/// task to the subarrays, so every record is empty.
pub fn mergered_stream(graph_path: &Vec<String>) -> (r: Vec<MergeredStreamStat>)
    ensures
        r.len() == graph_path.len(),
{
    let mut stat: Vec<MergeredStreamStat> = Vec::new();
    let mut i: usize = 0;
    while i < graph_path.len()
        invariant
            0 <= i <= graph_path.len(),
            stat.len() == i,
        decreases graph_path.len() - i,
    {
        stat.push(MergeredStreamStat {});
        i += 1;
    }
    stat
}

/// the dram resource that allocated by tasks
pub struct ResourceConstraint {
    pub total_size: usize,
    pub sub_array_occupied: BTreeSet<usize>,
}

impl ResourceConstraint {
    /// A resource of `total_size` with no subarray held.
    pub fn new(total_size: usize) -> (r: Self)
        ensures
            r.total_size == total_size,
            r.sub_array_occupied@ == Set::<usize>::empty(),
    {
        let sub_array_occupied = BTreeSet::new();
        Self { total_size, sub_array_occupied }
    }

    /// allocate the resource for a task: when none of its subarrays is
    /// held, hold them all and return the event of the round finishing
    /// (a cycle per 4 bytes after `current_time`); else hand the task back.
    pub fn allocate(&mut self, task: Vec<RoundTask>, current_time: u64) -> (r: Result<Event<Vec<RoundTask>>, Vec<RoundTask>>)
        requires
            current_time + round_cycles(task@) <= u64::MAX,
        ensures
            conflicts(old(self).sub_array_occupied@, task@) ==> r is Err && final(self).sub_array_occupied@ == old(self).sub_array_occupied@,
            !conflicts(old(self).sub_array_occupied@, task@) ==> r is Ok
                && final(self).sub_array_occupied@ == old(self).sub_array_occupied@.union(task_subarrays(task@)),
            r matches Err(t) ==> t@ == task@,
            r matches Ok(e) ==> e.event@ == task@ && e.finished_time == current_time + round_cycles(task@),
            final(self).total_size == old(self).total_size,
    {
        let mut i: usize = 0;
        while i < task.len()
            invariant
                0 <= i <= task.len(),
                forall|t: int| 0 <= t < i ==> !self.sub_array_occupied@.contains(#[trigger] task[t].sub_array_id),
            decreases task.len() - i,
        {
            if self.sub_array_occupied.contains(&task[i].sub_array_id) {
                return Err(task);
            }
            i += 1;
        }
        let ghost before = self.sub_array_occupied@;
        let mut j: usize = 0;
        let mut cycle: u64 = 0;
        while j < task.len()
            invariant
                0 <= j <= task.len(),
                self.sub_array_occupied@ == before.union(task_subarrays(task@.take(j as int))),
                cycle == round_cycles(task@.take(j as int)),
                current_time + round_cycles(task@) <= u64::MAX,
                self.total_size == old(self).total_size,
            decreases task.len() - j,
        {
            proof {
                assert(task@.take(j + 1).drop_last() =~= task@.take(j as int));
                lemma_round_cycles_prefix(task@, j + 1);
                assert(task_subarrays(task@.take(j + 1)) =~= task_subarrays(task@.take(j as int)).insert(task[j as int].sub_array_id)) by {
                    assert forall|id: usize| task_subarrays(task@.take(j + 1)).contains(id) implies
                        task_subarrays(task@.take(j as int)).insert(task[j as int].sub_array_id).contains(id) by {
                        let t = choose|t: int| 0 <= t < j + 1 && #[trigger] task@.take(j + 1)[t].sub_array_id == id;
                        if t < j {
                            assert(task@.take(j as int)[t].sub_array_id == id);
                        }
                    }
                    assert forall|id: usize| task_subarrays(task@.take(j as int)).insert(task[j as int].sub_array_id).contains(id) implies
                        task_subarrays(task@.take(j + 1)).contains(id) by {
                        if id == task[j as int].sub_array_id {
                            assert(task@.take(j + 1)[j as int].sub_array_id == id);
                        } else {
                            let t = choose|t: int| 0 <= t < j && #[trigger] task@.take(j as int)[t].sub_array_id == id;
                            assert(task@.take(j + 1)[t].sub_array_id == id);
                        }
                    }
                }
            }
            self.sub_array_occupied.insert(task[j].sub_array_id);
            cycle = cycle + (task[j].size / 4) as u64;
            j += 1;
        }
        proof {
            assert(task@.take(j as int) =~= task@);
        }
        let finished_time = current_time + cycle;
        Ok(Event { finished_time, event: task })
    }

    /// free the resource for a task
    pub fn deallocate(&mut self, task: Vec<RoundTask>)
        ensures
            final(self).sub_array_occupied@ == old(self).sub_array_occupied@.difference(task_subarrays(task@)),
            final(self).total_size == old(self).total_size,
    {
        let ghost before = self.sub_array_occupied@;
        let mut j: usize = 0;
        while j < task.len()
            invariant
                0 <= j <= task.len(),
                self.sub_array_occupied@ == before.difference(task_subarrays(task@.take(j as int))),
                self.total_size == old(self).total_size,
            decreases task.len() - j,
        {
            proof {
                assert(task_subarrays(task@.take(j + 1)) =~= task_subarrays(task@.take(j as int)).insert(task[j as int].sub_array_id)) by {
                    assert forall|id: usize| task_subarrays(task@.take(j + 1)).contains(id) implies
                        task_subarrays(task@.take(j as int)).insert(task[j as int].sub_array_id).contains(id) by {
                        let t = choose|t: int| 0 <= t < j + 1 && #[trigger] task@.take(j + 1)[t].sub_array_id == id;
                        if t < j {
                            assert(task@.take(j as int)[t].sub_array_id == id);
                        }
                    }
                    assert forall|id: usize| task_subarrays(task@.take(j as int)).insert(task[j as int].sub_array_id).contains(id) implies
                        task_subarrays(task@.take(j + 1)).contains(id) by {
                        if id == task[j as int].sub_array_id {
                            assert(task@.take(j + 1)[j as int].sub_array_id == id);
                        } else {
                            let t = choose|t: int| 0 <= t < j && #[trigger] task@.take(j as int)[t].sub_array_id == id;
                            assert(task@.take(j + 1)[t].sub_array_id == id);
                        }
                    }
                }
            }
            self.sub_array_occupied.remove(&task[j].sub_array_id);
            j += 1;
        }
        proof {
            assert(task@.take(j as int) =~= task@);
        }
    }
}

/// The cycles of a prefix of a round are at most those of the round.
proof fn lemma_round_cycles_prefix(tasks: Seq<RoundTask>, k: int)
    requires
        0 <= k <= tasks.len(),
    ensures
        round_cycles(tasks.take(k)) <= round_cycles(tasks),
    decreases tasks.len(),
{
    if k < tasks.len() {
        assert(tasks.drop_last().take(k) =~= tasks.take(k));
        lemma_round_cycles_prefix(tasks.drop_last(), k);
    } else {
        assert(tasks.take(k) =~= tasks);
    }
}

} // verus!
