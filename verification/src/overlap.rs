//! # the tools to compute the overlap between each tasks
use vstd::prelude::*;

verus! {

/// A histogram of how many rounds each task of a graph takes.
#[derive(Debug)]
pub struct SingleTaskOverlapStat {
    pub graph: String,
    pub overlap_histogram: Vec<usize>,
}

/// The bucket of `overlap` in a histogram of `len` buckets: the last
/// bucket takes every overlap that does not fit.
pub open spec fn bucket(overlap: nat, len: nat) -> nat {
    if overlap >= len { (len - 1) as nat } else { overlap }
}

/// How many of `overlaps` fall in bucket `k` of a `len`-bucket histogram.
pub open spec fn bucket_count(overlaps: Seq<usize>, len: nat, k: nat) -> nat
    decreases overlaps.len(),
{
    if overlaps.len() == 0 {
        0
    } else {
        bucket_count(overlaps.drop_last(), len, k) + if bucket(overlaps.last() as nat, len) == k { 1nat } else { 0nat }
    }
}

impl SingleTaskOverlapStat {
    /// An empty histogram with buckets `0..=max`.
    pub fn new(graph: String, max: usize) -> (r: Self)
        requires
            max < usize::MAX,
        ensures
            r.graph == graph,
            r.overlap_histogram.len() == max + 1,
            forall|i: int| 0 <= i <= max ==> r.overlap_histogram[i] == 0,
    {
        let mut overlap_histogram: Vec<usize> = Vec::new();
        while overlap_histogram.len() < max + 1
            invariant
                max < usize::MAX,
                overlap_histogram.len() <= max + 1,
                forall|i: int| 0 <= i < overlap_histogram.len() ==> overlap_histogram[i] == 0,
            decreases max + 1 - overlap_histogram.len(),
        {
            overlap_histogram.push(0);
        }
        Self { graph, overlap_histogram }
    }

    /// Counts one task of `overlap` rounds.
    pub fn add(&mut self, overlap: usize)
        requires
            old(self).overlap_histogram.len() > 0,
            old(self).overlap_histogram[bucket(overlap as nat, old(self).overlap_histogram.len() as nat) as int] < usize::MAX,
        ensures
            final(self).graph == old(self).graph,
            final(self).overlap_histogram@ == old(self).overlap_histogram@.update(
                bucket(overlap as nat, old(self).overlap_histogram.len() as nat) as int,
                (old(self).overlap_histogram[bucket(overlap as nat, old(self).overlap_histogram.len() as nat) as int] + 1) as usize,
            ),
    {
        let length = self.overlap_histogram.len();
        if overlap >= length {
            let v = self.overlap_histogram[length - 1];
            self.overlap_histogram.set(length - 1, v + 1);
        } else {
            let v = self.overlap_histogram[overlap];
            self.overlap_histogram.set(overlap, v + 1);
        }
    }
}

/// The histogram of one graph: `rounds[t]` is the number of rounds of task
/// `t`, bucketed into `0..=1024`.
pub fn compute_single_task_overlap_stat_for(graph: String, rounds: &Vec<usize>) -> (r: SingleTaskOverlapStat)
    ensures
        r.graph == graph,
        r.overlap_histogram.len() == 1025,
        forall|k: int| 0 <= k < 1025 ==> r.overlap_histogram[k] == bucket_count(rounds@, 1025, k as nat),
{
    let mut stat = SingleTaskOverlapStat::new(graph, 1024);
    let mut t: usize = 0;
    while t < rounds.len()
        invariant
            0 <= t <= rounds.len(),
            stat.graph == graph,
            stat.overlap_histogram.len() == 1025,
            forall|k: int| 0 <= k < 1025 ==> stat.overlap_histogram[k] == bucket_count(rounds@.take(t as int), 1025, k as nat),
        decreases rounds.len() - t,
    {
        proof {
            assert(rounds@.take(t + 1).drop_last() =~= rounds@.take(t as int));
            lemma_bucket_count_le(rounds@.take(t as int), 1025, bucket(rounds[t as int] as nat, 1025));
        }
        stat.add(rounds[t]);
        t += 1;
    }
    proof {
        assert(rounds@.take(t as int) =~= rounds@);
    }
    stat
}

/// A bucket never counts more than the tasks.
proof fn lemma_bucket_count_le(overlaps: Seq<usize>, len: nat, k: nat)
    ensures
        bucket_count(overlaps, len, k) <= overlaps.len(),
    decreases overlaps.len(),
{
    if overlaps.len() > 0 {
        lemma_bucket_count_le(overlaps.drop_last(), len, k);
    }
}

/// The histograms of several graphs: each graph with the round counts of its tasks.
pub fn compute_single_task_overlap_stat(graphs: Vec<(String, Vec<usize>)>) -> (r: Vec<SingleTaskOverlapStat>)
    ensures
        r.len() == graphs.len(),
        forall|g: int| 0 <= g < graphs.len() ==> {
            &&& (#[trigger] r[g]).graph == graphs[g].0
            &&& r[g].overlap_histogram.len() == 1025
            &&& forall|k: int| 0 <= k < 1025 ==> r[g].overlap_histogram[k] == bucket_count(graphs[g].1@, 1025, k as nat)
        },
{
    let mut total_stat: Vec<SingleTaskOverlapStat> = Vec::new();
    let mut g: usize = 0;
    while g < graphs.len()
        invariant
            0 <= g <= graphs.len(),
            total_stat.len() == g,
            forall|i: int| 0 <= i < g ==> {
                &&& (#[trigger] total_stat[i]).graph == graphs[i].0
                &&& total_stat[i].overlap_histogram.len() == 1025
                &&& forall|k: int| 0 <= k < 1025 ==> total_stat[i].overlap_histogram[k] == bucket_count(graphs[i].1@, 1025, k as nat)
            },
        decreases graphs.len() - g,
    {
        let stat = compute_single_task_overlap_stat_for(graphs[g].0.clone(), &graphs[g].1);
        total_stat.push(stat);
        g += 1;
    }
    total_stat
}

} // verus!
