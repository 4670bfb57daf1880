//! Single-source shortest paths from vertex 0 with unit edge lengths, as a
//! sequence of frontiers: each step relaxes the edges that leave the last
//! frontier and hands out the vertices whose length went down.
use vstd::prelude::*;
use crate::sparse::CsrPattern;
use crate::algorithms::{FrontierType, SparseFrontier, SpmvAlgorithm, strictly_increasing};

verus! {

/// The state of one relaxation pass: whether it can go on (no overflow
/// and no out-of-order append so far), the current lengths, and the
/// vertices appended to the next frontier so far.
pub type RelaxState = (bool, Seq<u32>, Seq<u32>);

/// Relaxes the edge from `r` to `c`. The length of `c` becomes that of `r`
/// plus one when `c` is unreached (`u32::MAX`) or longer; `c` is then
/// appended to the next frontier. The pass cannot go on when the length of
/// `r` is `u32::MAX` (its successor does not fit) or when `c` would be
/// appended after a vertex that is not smaller.
pub open spec fn relax_step(st: RelaxState, r: u32, c: u32) -> RelaxState {
    let lr = st.1[r as int];
    let lc = st.1[c as int];
    if !st.0 {
        st
    } else if lr == u32::MAX {
        (false, st.1, st.2)
    } else if lc == u32::MAX || lc > lr + 1 {
        if st.2.len() > 0 && c <= st.2.last() {
            (false, st.1, st.2)
        } else {
            (true, st.1.update(c as int, (lr + 1) as u32), st.2.push(c))
        }
    } else {
        st
    }
}

/// Relaxes the edges from `r` to each of `cs`, in order.
pub open spec fn relax_row(st: RelaxState, r: u32, cs: Seq<u32>) -> RelaxState
    decreases cs.len(),
{
    if cs.len() == 0 {
        st
    } else {
        relax_step(relax_row(st, r, cs.drop_last()), r, cs.last())
    }
}

/// Relaxes the edges leaving each vertex of `f`, in order; a vertex that
/// has no row in `m` stops the pass.
pub open spec fn relax_frontier(st: RelaxState, m: CsrPattern, f: Seq<u32>) -> RelaxState
    decreases f.len(),
{
    if f.len() == 0 {
        st
    } else {
        let prev = relax_frontier(st, m, f.drop_last());
        if f.last() as int >= m.indices.len() {
            (false, prev.1, prev.2)
        } else {
            relax_row(prev, f.last(), m.indices[f.last() as int]@)
        }
    }
}

/// A stopped pass stays stopped.
proof fn lemma_relax_row_stopped(st: RelaxState, r: u32, cs: Seq<u32>)
    requires
        !st.0,
    ensures
        relax_row(st, r, cs) == st,
    decreases cs.len(),
{
    if cs.len() > 0 {
        lemma_relax_row_stopped(st, r, cs.drop_last());
    }
}

/// A pass over a row that can go on to the end can go on over each prefix.
proof fn lemma_relax_row_prefix(st: RelaxState, r: u32, cs: Seq<u32>, j: int)
    requires
        0 <= j <= cs.len(),
        relax_row(st, r, cs).0,
    ensures
        relax_row(st, r, cs.take(j)).0,
    decreases cs.len(),
{
    if j == cs.len() {
        assert(cs.take(j) == cs);
    } else {
        let prev = relax_row(st, r, cs.drop_last());
        if !prev.0 {
            assert(relax_step(prev, r, cs.last()) == prev);
        }
        assert(cs.drop_last().take(j) == cs.take(j));
        lemma_relax_row_prefix(st, r, cs.drop_last(), j);
    }
}

/// A pass over a frontier that can go on to the end can go on over each
/// prefix of the frontier, and over each prefix of the next row.
proof fn lemma_relax_frontier_prefix(st: RelaxState, m: CsrPattern, f: Seq<u32>, i: int)
    requires
        0 <= i <= f.len(),
        relax_frontier(st, m, f).0,
    ensures
        relax_frontier(st, m, f.take(i)).0,
        i < f.len() ==> (f[i] as int) < m.indices.len(),
    decreases f.len(),
{
    if i == f.len() {
        assert(f.take(i) == f);
    } else {
        let prev = relax_frontier(st, m, f.drop_last());
        if !prev.0 {
            if (f.last() as int) < m.indices.len() {
                lemma_relax_row_stopped(prev, f.last(), m.indices[f.last() as int]@);
            }
        }
        assert(prev.0);
        assert(f.drop_last().take(i) == f.take(i));
        if i < f.len() - 1 {
            assert(f.drop_last()[i] == f[i]);
        }
        lemma_relax_frontier_prefix(st, m, f.drop_last(), i);
    }
}

/// What every pass keeps: the length vector keeps its size, and the
/// appended vertices are in range and strictly increasing.
pub open spec fn relax_state_ok(st: RelaxState, cols: nat) -> bool {
    &&& st.1.len() == cols
    &&& strictly_increasing(st.2)
    &&& forall|k: int| 0 <= k < st.2.len() ==> (#[trigger] st.2[k] as int) < cols
}

proof fn lemma_relax_row_ok(st: RelaxState, m: CsrPattern, r: u32, cs: Seq<u32>)
    requires
        relax_state_ok(st, m.cols as nat),
        (r as int) < m.cols,
        forall|k: int| 0 <= k < cs.len() ==> (#[trigger] cs[k] as int) < m.cols,
    ensures
        relax_state_ok(relax_row(st, r, cs), m.cols as nat),
    decreases cs.len(),
{
    if cs.len() > 0 {
        lemma_relax_row_ok(st, m, r, cs.drop_last());
        let prev = relax_row(st, r, cs.drop_last());
        let c = cs.last();
        assert((c as int) < m.cols);
        let next = relax_step(prev, r, c);
        if next.2.len() > prev.2.len() {
            assert(next.2 == prev.2.push(c));
            assert forall|a: int, b: int| 0 <= a < b < next.2.len() implies next.2[a] < next.2[b] by {
                if b == next.2.len() - 1 && a < prev.2.len() {
                    if a < prev.2.len() - 1 {
                        assert(prev.2[a] < prev.2.last());
                    }
                }
            }
        }
    }
}

proof fn lemma_relax_frontier_ok(st: RelaxState, m: CsrPattern, f: Seq<u32>)
    requires
        m.wf(),
        relax_state_ok(st, m.cols as nat),
        forall|k: int| 0 <= k < f.len() ==> (#[trigger] f[k] as int) < m.cols,
    ensures
        relax_state_ok(relax_frontier(st, m, f), m.cols as nat),
    decreases f.len(),
{
    if f.len() > 0 {
        lemma_relax_frontier_ok(st, m, f.drop_last());
        let prev = relax_frontier(st, m, f.drop_last());
        let r = f.last();
        assert((r as int) < m.cols);
        if (r as int) < m.indices.len() {
            let row = m.indices[r as int]@;
            assert forall|k: int| 0 <= k < row.len() implies (#[trigger] row[k] as int) < m.cols by {
                assert(m.indices[r as int][k] == row[k]);
            }
            lemma_relax_row_ok(prev, m, r, row);
        }
    }
}

/// Relaxes the edges that leave the frontier `f` and returns the vertices
/// whose length went down, in the order met; `None` as soon as the pass
/// cannot go on (the lengths are then left part way).
fn relax(m: &CsrPattern, lengths: &mut Vec<u32>, f: &Vec<u32>) -> (next: Option<Vec<u32>>)
    requires
        m.wf(),
        old(lengths).len() == m.cols,
        forall|k: int| 0 <= k < f.len() ==> (#[trigger] f[k] as int) < m.cols,
    ensures
        ({
            let res = relax_frontier((true, old(lengths)@, Seq::empty()), *m, f@);
            &&& next is Some <==> res.0
            &&& next matches Some(v) ==> final(lengths)@ == res.1 && v@ == res.2
        }),
{
    let ghost init: RelaxState = (true, old(lengths)@, Seq::empty());
    let mut next: Vec<u32> = Vec::new();
    let mut i: usize = 0;
    while i < f.len()
        invariant
            init == (true, old(lengths)@, Seq::<u32>::empty()),
            i <= f.len(),
            m.wf(),
            lengths.len() == m.cols,
            forall|k: int| 0 <= k < f.len() ==> (#[trigger] f[k] as int) < m.cols,
            ({
                let st = relax_frontier(init, *m, f@.take(i as int));
                &&& st.0
                &&& st.1 == lengths@
                &&& st.2 == next@
            }),
        decreases f.len() - i,
    {
        proof {
            assert(f@.take(i + 1).drop_last() == f@.take(i as int));
        }
        let row_id = f[i];
        if row_id as usize >= m.indices.len() {
            proof {
                assert(!relax_frontier(init, *m, f@.take(i + 1)).0);
                if relax_frontier(init, *m, f@).0 {
                    lemma_relax_frontier_prefix(init, *m, f@, i + 1);
                }
            }
            return None;
        }
        let row = &m.indices[row_id as usize];
        let ghost start = relax_frontier(init, *m, f@.take(i as int));
        proof {
            assert(relax_frontier(init, *m, f@.take(i + 1)) == relax_row(start, row_id, row@));
        }
        let mut j: usize = 0;
        while j < row.len()
            invariant
                init == (true, old(lengths)@, Seq::<u32>::empty()),
                i < f.len(),
                m.wf(),
                lengths.len() == m.cols,
                (row_id as int) < m.cols,
                row_id == f[i as int],
                (row_id as int) < m.indices.len(),
                *row == m.indices[row_id as int],
                relax_frontier(init, *m, f@.take(i + 1)) == relax_row(start, row_id, row@),
                j <= row.len(),
                ({
                    let st = relax_row(start, row_id, row@.take(j as int));
                    &&& st.0
                    &&& st.1 == lengths@
                    &&& st.2 == next@
                }),
            decreases row.len() - j,
        {
            proof {
                assert(row@.take(j + 1).drop_last() == row@.take(j as int));
            }
            let col_id = row[j];
            assert(m.indices[row_id as int][j as int] == col_id);
            let ghost st = relax_row(start, row_id, row@.take(j as int));
            proof {
                assert(relax_row(start, row_id, row@.take(j + 1)) == relax_step(st, row_id, col_id));
            }
            let lc = lengths[col_id as usize];
            let lr = lengths[row_id as usize];
            let stuck = lr == u32::MAX || ((lc == u32::MAX || lc > lr + 1)
                && next.len() > 0 && col_id <= next[next.len() - 1]);
            if stuck {
                proof {
                    assert(!relax_row(start, row_id, row@.take(j + 1)).0);
                    if relax_frontier(init, *m, f@).0 {
                        lemma_relax_frontier_prefix(init, *m, f@, i + 1);
                        lemma_relax_row_prefix(start, row_id, row@, j + 1);
                    }
                }
                return None;
            }
            if lc == u32::MAX {
                next.push(col_id);
                lengths.set(col_id as usize, lr + 1);
            } else if lc > lr + 1 {
                lengths.set(col_id as usize, lr + 1);
                next.push(col_id);
            }
            j += 1;
        }
        proof {
            assert(row@.take(j as int) == row@);
        }
        i += 1;
    }
    proof {
        assert(f@.take(f.len() as int) == f@);
    }
    Some(next)
}

/// Where the search stands.
pub enum RunningStatus {
    /// Searching; `None` before the first step.
    Running(Option<SparseFrontier>),
    /// The last frontier shortened no length.
    End,
}

/// Shortest paths from vertex 0 over the graph whose adjacency rows are
/// those of the matrix, every edge of length one.
pub struct Sssp<'a> {
    current_frontier: RunningStatus,
    matrix: &'a CsrPattern,
    current_length: Vec<u32>,
}

impl<'a> Sssp<'a> {
    /// Where the search stands.
    pub closed spec fn status(&self) -> RunningStatus {
        self.current_frontier
    }

    /// The graph.
    pub closed spec fn matrix(&self) -> CsrPattern {
        *self.matrix
    }

    /// For every vertex, the length of the shortest path found so far;
    /// `u32::MAX` for a vertex not reached yet.
    pub closed spec fn lengths(&self) -> Seq<u32> {
        self.current_length@
    }

    /// A search over `matrix` that has not started: vertex 0 has length 0,
    /// every other vertex is unreached.
    pub fn new(matrix: &'a CsrPattern) -> (r: Self)
        requires
            matrix.cols > 0,
        ensures
            r.status() == RunningStatus::Running(None),
            r.matrix() == *matrix,
            r.lengths() == Seq::new(matrix.cols as nat, |_i: int| u32::MAX).update(0, 0),
    {
        let mut current_length: Vec<u32> = Vec::new();
        let mut k: usize = 0;
        while k < matrix.cols
            invariant
                k <= matrix.cols,
                current_length@ == Seq::new(k as nat, |_i: int| u32::MAX),
            decreases matrix.cols - k,
        {
            current_length.push(u32::MAX);
            k += 1;
        }
        current_length.set(0, 0);
        Sssp { current_frontier: RunningStatus::Running(None), matrix, current_length }
    }
}

impl<'a> Sssp<'a> {
    /// Whether the next step can be taken: before the first step, whether
    /// the column count fits a frontier's index type; after it, whether
    /// relaxing the last frontier overflows no length, meets no vertex
    /// without a row, and appends the improved vertices in increasing order.
    pub fn can_step(&self) -> (b: bool)
        requires
            self.inv(),
        ensures
            b == self.can_advance(),
    {
        match &self.current_frontier {
            RunningStatus::End => true,
            RunningStatus::Running(None) => self.matrix.cols <= 0xffff_ffff,
            RunningStatus::Running(Some(f)) => {
                let mut lengths = self.current_length.clone();
                assert(lengths@ =~= self.current_length@);
                relax(self.matrix, &mut lengths, &f.indices).is_some()
            },
        }
    }
}

impl<'a> SpmvAlgorithm for Sssp<'a> {
    open spec fn inv(&self) -> bool {
        &&& self.matrix().wf()
        &&& self.matrix().cols > 0
        &&& self.lengths().len() == self.matrix().cols
        &&& (self.status() matches RunningStatus::Running(Some(f)) ==> {
            &&& f.wf()
            &&& f.dim == self.matrix().cols
            &&& f.dim <= u32::MAX
        })
    }

    open spec fn can_advance(&self) -> bool {
        match self.status() {
            RunningStatus::Running(None) => self.matrix().cols <= u32::MAX,
            RunningStatus::Running(Some(f)) =>
                relax_frontier((true, self.lengths(), Seq::empty()), self.matrix(), f.indices@).0,
            RunningStatus::End => true,
        }
    }

    /// The first step hands out vertex 0. Each later step relaxes, row by
    /// row and entry by entry, the edges leaving the last frontier and hands
    /// out the vertices whose length went down, in the order met; when there
    /// is none, the search ends and `None` comes back.
    fn next_frontier(&mut self) -> (r: Option<FrontierType>)
        ensures
            final(self).matrix() == old(self).matrix(),
            old(self).status() is End ==> r is None && final(self).status() is End
                && final(self).lengths() == old(self).lengths(),
            old(self).status() == RunningStatus::Running(None) ==> {
                &&& r matches Some(FrontierType::Sparse(g))
                &&& g.dim == old(self).matrix().cols
                &&& g.indices@ == seq![0u32]
                &&& final(self).status() matches RunningStatus::Running(Some(h))
                &&& h.dim == g.dim && h.indices@ == g.indices@
                &&& final(self).lengths() == old(self).lengths()
            },
            old(self).status() matches RunningStatus::Running(Some(f)) ==> {
                let res = relax_frontier((true, old(self).lengths(), Seq::empty()), old(self).matrix(), f.indices@);
                &&& final(self).lengths() == res.1
                &&& res.2.len() == 0 ==> r is None && final(self).status() is End
                &&& res.2.len() > 0 ==> {
                    &&& r matches Some(FrontierType::Sparse(g))
                    &&& g.dim == old(self).matrix().cols
                    &&& g.indices@ == res.2
                    &&& final(self).status() matches RunningStatus::Running(Some(h))
                    &&& h.dim == g.dim && h.indices@ == g.indices@
                }
            },
    {
        let status = match &self.current_frontier {
            RunningStatus::End => 0u8,
            RunningStatus::Running(None) => 1u8,
            RunningStatus::Running(Some(_)) => 2u8,
        };
        if status == 0 {
            return None;
        }
        if status == 1 {
            let mut indices: Vec<u32> = Vec::new();
            indices.push(0);
            let next = SparseFrontier { dim: self.matrix.cols, indices };
            self.current_frontier = RunningStatus::Running(Some(next.duplicate()));
            return Some(FrontierType::Sparse(next));
        }
        let frontier = match &self.current_frontier {
            RunningStatus::Running(Some(f)) => f.duplicate(),
            _ => {
                assert(false);
                return None;
            },
        };
        proof {
            lemma_relax_frontier_ok((true, self.current_length@, Seq::empty()), *self.matrix, frontier.indices@);
        }
        let next = match relax(self.matrix, &mut self.current_length, &frontier.indices) {
            Some(v) => v,
            None => {
                assert(false);
                return None;
            },
        };
        if next.len() == 0 {
            self.current_frontier = RunningStatus::End;
            None
        } else {
            let g = SparseFrontier { dim: self.matrix.cols, indices: next };
            self.current_frontier = RunningStatus::Running(Some(g.duplicate()));
            Some(FrontierType::Sparse(g))
        }
    }
}

} // verus!
