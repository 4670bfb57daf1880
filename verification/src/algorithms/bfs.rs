//! Breadth-first search as a sequence of frontiers, starting at vertex 0.
//! The visited vertices are kept in a `bit_vec::BitVec`.
use vstd::prelude::*;
use bit_vec::BitVec;
use crate::sparse::CsrPattern;
use crate::algorithms::{FrontierType, SparseFrontier, SpmvAlgorithm, strictly_increasing, no_duplicates, sorted_values};

verus! {

/// The bit vector of the `bit_vec` crate, carried as an opaque value.
#[verifier::external_type_specification]
#[verifier::external_body]
#[verifier::reject_recursive_types(B)]
pub struct ExBitVec<B>(BitVec<B>);

/// The bits of a bit vector, first to last.
pub uninterp spec fn bit_values(v: BitVec) -> Seq<bool>;

/// `BitVec::from_elem`: a vector of `len` bits, each equal to `bit`.
#[verifier::external_body]
fn bits_filled(len: usize, bit: bool) -> (v: BitVec)
    ensures
        bit_values(v) == Seq::new(len as nat, |_i: int| bit),
{
    BitVec::from_elem(len, bit)
}

/// `BitVec::get`: the bit at `i`, or `None` past the last bit.
#[verifier::external_body]
fn bit_at(v: &BitVec, i: usize) -> (r: Option<bool>)
    ensures
        i < bit_values(*v).len() ==> r == Some(bit_values(*v)[i as int]),
        i >= bit_values(*v).len() ==> r is None,
{
    v.get(i)
}

/// `BitVec::set`: sets the bit at `i` to `x` and leaves the others.
#[verifier::external_body]
fn set_bit(v: &mut BitVec, i: usize, x: bool)
    requires
        i < bit_values(*old(v)).len(),
    ensures
        bit_values(*final(v)) == bit_values(*old(v)).update(i as int, x),
{
    v.set(i, x)
}

/// Column `c` is entry `j` of the row of the `i`-th frontier vertex.
pub open spec fn hits(m: CsrPattern, f: Seq<u32>, i: int, j: int, c: int) -> bool {
    &&& 0 <= i < f.len()
    &&& 0 <= j < m.indices[f[i] as int]@.len()
    &&& m.indices[f[i] as int]@[j] as int == c
}

/// Column `c` is a neighbour of a frontier vertex, looking only at the rows
/// before the `i`-th and the first `j` entries of the `i`-th.
pub open spec fn reached_before(m: CsrPattern, f: Seq<u32>, i: int, j: int, c: int) -> bool {
    exists|i2: int, j2: int| #[trigger] hits(m, f, i2, j2, c) && (i2 < i || (i2 == i && j2 < j))
}

/// Column `c` is a neighbour of some vertex of the frontier `f`.
pub open spec fn reached(m: CsrPattern, f: Seq<u32>, c: int) -> bool {
    exists|i2: int, j2: int| #[trigger] hits(m, f, i2, j2, c)
}

/// Where the search stands.
pub enum RunningStatus {
    /// Searching; `None` before the first step.
    Running(Option<SparseFrontier>),
    /// The last frontier reached no new vertex.
    End,
}

/// Breadth-first search over the graph whose adjacency rows are those of
/// the matrix.
pub struct Bfs<'a> {
    current_frontier: RunningStatus,
    matrix: &'a CsrPattern,
    visited_nodes: BitVec,
}

impl<'a> Bfs<'a> {
    /// Where the search stands.
    pub closed spec fn status(&self) -> RunningStatus {
        self.current_frontier
    }

    /// The graph.
    pub closed spec fn matrix(&self) -> CsrPattern {
        *self.matrix
    }

    /// For every vertex, whether the search has reached it.
    pub closed spec fn visited(&self) -> Seq<bool> {
        bit_values(self.visited_nodes)
    }

    /// A search over `matrix` that has not started: no vertex is visited.
    pub fn new(matrix: &'a CsrPattern) -> (r: Self)
        ensures
            r.status() == RunningStatus::Running(None),
            r.matrix() == *matrix,
            r.visited() == Seq::new(matrix.cols as nat, |_i: int| false),
    {
        let visited_nodes = bits_filled(matrix.cols, false);
        Bfs { current_frontier: RunningStatus::Running(None), matrix, visited_nodes }
    }
}

/// Visits the neighbours of the frontier `f` row by row and returns, in the
/// order met, those that had not been visited, marking them visited.
fn expand(m: &CsrPattern, visited: &mut BitVec, f: &Vec<u32>) -> (pushed: Vec<u32>)
    requires
        m.wf(),
        bit_values(*old(visited)).len() == m.cols,
        forall|i: int| 0 <= i < f.len() ==> (#[trigger] f[i] as int) < m.indices.len(),
    ensures
        no_duplicates(pushed@),
        forall|c: u32| pushed@.contains(c) <==> !bit_values(*old(visited))[c as int] && reached(*m, f@, c as int),
        bit_values(*final(visited)).len() == m.cols,
        forall|c: int| 0 <= c < m.cols ==> bit_values(*final(visited))[c]
            == (bit_values(*old(visited))[c] || reached(*m, f@, c)),
{
    let ghost vis0 = bit_values(*visited);
    let mut pushed: Vec<u32> = Vec::new();
    let mut i: usize = 0;
    while i < f.len()
        invariant
            m.wf(),
            i <= f.len(),
            forall|k: int| 0 <= k < f.len() ==> (#[trigger] f[k] as int) < m.indices.len(),
            vis0.len() == m.cols,
            bit_values(*visited).len() == m.cols,
            no_duplicates(pushed@),
            forall|c: u32| #![trigger pushed@.contains(c)] pushed@.contains(c) <==> !vis0[c as int] && reached_before(*m, f@, i as int, 0, c as int),
            forall|c: int| #![trigger bit_values(*visited)[c]] 0 <= c < m.cols ==> bit_values(*visited)[c]
                == (vis0[c] || reached_before(*m, f@, i as int, 0, c)),
        decreases f.len() - i,
    {
        let row_id = f[i] as usize;
        let row = &m.indices[row_id];
        let mut j: usize = 0;
        while j < row.len()
            invariant
                m.wf(),
                i < f.len(),
                row_id == f[i as int],
                row_id < m.indices.len(),
                *row == m.indices[row_id as int],
                j <= row.len(),
                vis0.len() == m.cols,
                bit_values(*visited).len() == m.cols,
                no_duplicates(pushed@),
                forall|c: u32| #![trigger pushed@.contains(c)] pushed@.contains(c) <==> !vis0[c as int] && reached_before(*m, f@, i as int, j as int, c as int),
                forall|c: int| #![trigger bit_values(*visited)[c]] 0 <= c < m.cols ==> bit_values(*visited)[c]
                    == (vis0[c] || reached_before(*m, f@, i as int, j as int, c)),
            decreases row.len() - j,
        {
            let col_id = row[j];
            assert(hits(*m, f@, i as int, j as int, col_id as int));
            assert((col_id as int) < m.cols);
            let ghost before = bit_values(*visited);
            let ghost pushed_before = pushed@;
            assert forall|c: int| #[trigger] reached_before(*m, f@, i as int, j + 1, c)
                <==> (reached_before(*m, f@, i as int, j as int, c) || c == col_id as int) by {
                if reached_before(*m, f@, i as int, j + 1, c) {
                    let (i2, j2) = choose|i2: int, j2: int| #[trigger] hits(*m, f@, i2, j2, c)
                        && (i2 < i || (i2 == i && j2 < j + 1));
                    if !(i2 < i || (i2 == i && j2 < j)) {
                        assert(c == col_id as int);
                    }
                }
            }
            let seen = bit_at(visited, col_id as usize);
            match seen {
                Some(true) => {
                    proof {
                        assert(before[col_id as int]);
                        assert(vis0[col_id as int] || reached_before(*m, f@, i as int, j as int, col_id as int));
                        assert(reached_before(*m, f@, i as int, j + 1, col_id as int));
                        assert forall|c: u32| #![trigger pushed@.contains(c)] pushed@.contains(c) <==> !vis0[c as int]
                            && reached_before(*m, f@, i as int, j + 1, c as int) by {
                            assert(reached_before(*m, f@, i as int, j + 1, c as int)
                                <==> (reached_before(*m, f@, i as int, j as int, c as int) || c == col_id));
                            assert(pushed@.contains(c) <==> !vis0[c as int]
                                && reached_before(*m, f@, i as int, j as int, c as int));
                            if c == col_id {
                                if !vis0[c as int] {
                                    assert(reached_before(*m, f@, i as int, j as int, c as int));
                                }
                            }
                        }
                        assert forall|c: int| #![trigger bit_values(*visited)[c]] 0 <= c < m.cols implies bit_values(*visited)[c]
                            == (vis0[c] || reached_before(*m, f@, i as int, j + 1, c)) by {
                            assert(reached_before(*m, f@, i as int, j + 1, c)
                                <==> (reached_before(*m, f@, i as int, j as int, c) || c == col_id as int));
                            assert(bit_values(*visited)[c] == (vis0[c] || reached_before(*m, f@, i as int, j as int, c)));
                        }
                    }
                },
                _ => {
                    assert(!before[col_id as int]);
                    assert(!vis0[col_id as int] && !reached_before(*m, f@, i as int, j as int, col_id as int));
                    assert(!pushed@.contains(col_id));
                    pushed.push(col_id);
                    set_bit(visited, col_id as usize, true);
                    proof {
                        assert forall|a: int, b: int| 0 <= a < b < pushed.len() implies pushed@[a] != pushed@[b] by {
                            if b == pushed.len() - 1 {
                                assert(pushed_before[a] == pushed@[a]);
                                assert(pushed_before.contains(pushed@[a]));
                            } else {
                                assert(pushed_before[a] == pushed@[a]);
                                assert(pushed_before[b] == pushed@[b]);
                            }
                        }
                        assert forall|c: u32| #![trigger pushed@.contains(c)] pushed@.contains(c) <==> !vis0[c as int]
                            && reached_before(*m, f@, i as int, j + 1, c as int) by {
                            assert(reached_before(*m, f@, i as int, j + 1, c as int)
                                <==> (reached_before(*m, f@, i as int, j as int, c as int) || c == col_id));
                            if c == col_id {
                                assert(pushed@[pushed.len() - 1] == c);
                            } else {
                                if pushed@.contains(c) {
                                    let k = choose|k: int| 0 <= k < pushed.len() && pushed@[k] == c;
                                    assert(pushed_before[k] == c);
                                    assert(pushed_before.contains(c));
                                }
                                if pushed_before.contains(c) {
                                    let k = choose|k: int| 0 <= k < pushed_before.len() && pushed_before[k] == c;
                                    assert(pushed@[k] == c);
                                }
                            }
                        }
                        assert forall|c: int| #![trigger bit_values(*visited)[c]] 0 <= c < m.cols implies bit_values(*visited)[c]
                            == (vis0[c] || reached_before(*m, f@, i as int, j + 1, c)) by {
                            assert(reached_before(*m, f@, i as int, j + 1, c)
                                <==> (reached_before(*m, f@, i as int, j as int, c) || c == col_id as int));
                        }
                    }
                },
            }
            j += 1;
        }
        assert forall|c: int| #[trigger] reached_before(*m, f@, i + 1, 0, c)
            <==> reached_before(*m, f@, i as int, j as int, c) by {
            if reached_before(*m, f@, i + 1, 0, c) {
                let (i2, j2) = choose|i2: int, j2: int| #[trigger] hits(*m, f@, i2, j2, c)
                    && (i2 < i + 1 || (i2 == i + 1 && j2 < 0));
                assert(i2 < i || (i2 == i && j2 < j));
            }
            if reached_before(*m, f@, i as int, j as int, c) {
                let (i2, j2) = choose|i2: int, j2: int| #[trigger] hits(*m, f@, i2, j2, c)
                    && (i2 < i || (i2 == i && j2 < j));
                assert(i2 < i + 1);
            }
        }
        assert forall|c: u32| #![trigger pushed@.contains(c)] pushed@.contains(c) <==> !vis0[c as int]
            && reached_before(*m, f@, i + 1, 0, c as int) by {
            assert(reached_before(*m, f@, i + 1, 0, c as int) <==> reached_before(*m, f@, i as int, j as int, c as int));
        }
        assert forall|c: int| #![trigger bit_values(*visited)[c]] 0 <= c < m.cols implies bit_values(*visited)[c]
            == (vis0[c] || reached_before(*m, f@, i + 1, 0, c)) by {
            assert(reached_before(*m, f@, i + 1, 0, c) <==> reached_before(*m, f@, i as int, j as int, c));
        }
        i += 1;
    }
    assert forall|c: int| #[trigger] reached(*m, f@, c) <==> reached_before(*m, f@, f.len() as int, 0, c) by {
        if reached(*m, f@, c) {
            let (i2, j2) = choose|i2: int, j2: int| #[trigger] hits(*m, f@, i2, j2, c);
            assert(i2 < f.len());
        }
    }
    pushed
}

impl<'a> Bfs<'a> {
    /// Whether the next step can be taken: before the first step, whether
    /// there is a vertex 0 and the column count fits a frontier's index
    /// type; after it, whether every vertex of the last frontier has a row.
    pub fn can_step(&self) -> (b: bool)
        ensures
            b == self.can_advance(),
    {
        match &self.current_frontier {
            RunningStatus::End => true,
            RunningStatus::Running(None) => 0 < self.matrix.cols && self.matrix.cols <= 0xffff_ffff,
            RunningStatus::Running(Some(f)) => {
                let mut k: usize = 0;
                while k < f.indices.len()
                    invariant
                        self.status() == RunningStatus::Running(Some(*f)),
                        k <= f.indices.len(),
                        forall|q: int| 0 <= q < k ==> (#[trigger] f.indices[q] as int) < self.matrix.indices.len(),
                    decreases f.indices.len() - k,
                {
                    if f.indices[k] as usize >= self.matrix.indices.len() {
                        assert(self.status()->Running_0->Some_0.indices[k as int] == f.indices[k as int]);
                        return false;
                    }
                    k += 1;
                }
                true
            },
        }
    }
}

/// One step of the search, from `s` to `t` with result `r`: the first
/// step hands out vertex 0 and marks it visited; each later step hands out,
/// in increasing order, the neighbours of the last frontier that were not
/// visited yet and marks them visited; when there is none, the search ends
/// and `None` comes back, as it does every time after the end.
pub open spec fn bfs_step<'a>(s: Bfs<'a>, t: Bfs<'a>, r: Option<FrontierType>) -> bool {
    &&& t.matrix() == s.matrix()
    &&& s.status() is End ==> r is None && t.status() is End && t.visited() == s.visited()
    &&& s.status() == RunningStatus::Running(None) ==> {
        &&& r matches Some(FrontierType::Sparse(g))
        &&& g.dim == s.matrix().cols
        &&& g.indices@ == seq![0u32]
        &&& t.status() matches RunningStatus::Running(Some(h))
        &&& h.dim == g.dim && h.indices@ == g.indices@
        &&& t.visited() == s.visited().update(0, true)
    }
    &&& s.status() matches RunningStatus::Running(Some(f)) ==> {
        let m = s.matrix();
        let vis = s.visited();
        &&& forall|c: int| 0 <= c < m.cols ==> #[trigger] t.visited()[c] == (vis[c] || reached(m, f.indices@, c))
        &&& t.visited().len() == vis.len()
        &&& (exists|c: int| 0 <= c < m.cols && !vis[c] && #[trigger] reached(m, f.indices@, c)) <==> r is Some
        &&& r is None ==> t.status() is End
        &&& r matches Some(FrontierType::Sparse(g)) ==> {
            &&& g.dim == m.cols
            &&& strictly_increasing(g.indices@)
            &&& forall|c: u32| g.indices@.contains(c) <==> !vis[c as int] && reached(m, f.indices@, c as int)
            &&& t.status() matches RunningStatus::Running(Some(h))
            &&& h.dim == g.dim && h.indices@ == g.indices@
        }
        &&& r matches Some(x) ==> x is Sparse
    }
}

impl<'a> SpmvAlgorithm for Bfs<'a> {
    open spec fn inv(&self) -> bool {
        &&& self.matrix().wf()
        &&& self.visited().len() == self.matrix().cols
        &&& (self.status() matches RunningStatus::Running(Some(f)) ==> {
            &&& f.wf()
            &&& f.dim == self.matrix().cols
            &&& f.dim <= u32::MAX
        })
    }

    open spec fn can_advance(&self) -> bool {
        match self.status() {
            RunningStatus::Running(None) => 0 < self.matrix().cols <= u32::MAX,
            RunningStatus::Running(Some(f)) => forall|i: int| 0 <= i < f.indices.len()
                ==> (#[trigger] f.indices[i] as int) < self.matrix().indices.len(),
            RunningStatus::End => true,
        }
    }

    /// The first step hands out vertex 0 and marks it visited. Each later
    /// step hands out, in increasing order, the vertices that are neighbours
    /// of the last frontier and were not visited yet, and marks them
    /// visited; when there is none, the search ends and `None` comes back.
    fn next_frontier(&mut self) -> (r: Option<FrontierType>)
        ensures
            bfs_step(*old(self), *final(self), r),
    {
        let status = match &self.current_frontier {
            RunningStatus::End => 0u8,
            RunningStatus::Running(None) => 1u8,
            RunningStatus::Running(Some(_)) => 2u8,
        };
        if status == 0 {
            return None;
        }
        if status == 1 {
            let mut indices: Vec<u32> = Vec::new();
            indices.push(0);
            let next = SparseFrontier { dim: self.matrix.cols, indices };
            set_bit(&mut self.visited_nodes, 0, true);
            self.current_frontier = RunningStatus::Running(Some(next.duplicate()));
            return Some(FrontierType::Sparse(next));
        }
        let frontier = match &self.current_frontier {
            RunningStatus::Running(Some(f)) => f.duplicate(),
            _ => {
                assert(false);
                return None;
            },
        };
        let pushed = expand(self.matrix, &mut self.visited_nodes, &frontier.indices);
        if pushed.len() == 0 {
            self.current_frontier = RunningStatus::End;
            proof {
                assert forall|c: int| 0 <= c < self.matrix.cols && !old(self).visited()[c]
                    implies !reached(*self.matrix, frontier.indices@, c) by {
                    if reached(*self.matrix, frontier.indices@, c) {
                        let (i2, j2) = choose|i2: int, j2: int| #[trigger] hits(*self.matrix, frontier.indices@, i2, j2, c);
                        assert(pushed@.contains(c as u32));
                    }
                }
            }
            None
        } else {
            let sorted = sorted_values(&pushed);
            let next = SparseFrontier { dim: self.matrix.cols, indices: sorted };
            proof {
                let c0 = next.indices@[0];
                assert(pushed@.contains(c0));
                assert(reached(*self.matrix, frontier.indices@, c0 as int));
                let (i2, j2) = choose|i2: int, j2: int| #[trigger] hits(*self.matrix, frontier.indices@, i2, j2, c0 as int);
                assert forall|k: int| 0 <= k < next.indices.len() implies (#[trigger] next.indices[k] as int) < next.dim by {
                    let c = next.indices@[k];
                    assert(next.indices@.contains(c));
                    assert(reached(*self.matrix, frontier.indices@, c as int));
                    let (a, b) = choose|a: int, b: int| #[trigger] hits(*self.matrix, frontier.indices@, a, b, c as int);
                }
            }
            self.current_frontier = RunningStatus::Running(Some(next.duplicate()));
            Some(FrontierType::Sparse(next))
        }
    }
}

/// Vertex `x` can be reached from vertex 0 in at most `k` steps, a step
/// going from a vertex to the columns of its row.
pub open spec fn within(m: CsrPattern, k: nat, x: int) -> bool
    decreases k,
{
    if k == 0 {
        x == 0
    } else {
        within(m, (k - 1) as nat, x) || exists|y: int| 0 <= y < m.indices.len() && within(m, (k - 1) as nat, y)
            && #[trigger] m.indices[y]@.contains(x as u32)
    }
}

/// Vertex `x` is `k` steps from vertex 0, and no fewer.
pub open spec fn at_distance(m: CsrPattern, k: nat, x: int) -> bool {
    within(m, k, x) && (k == 0 || !within(m, (k - 1) as nat, x))
}

/// The search goes level by level: when the visited vertices are those
/// within `k` steps of vertex 0 and the frontier holds exactly those `k`
/// steps away, the next visited vertices are those within `k + 1` steps,
/// and the next frontier (the unvisited neighbours of the frontier) holds
/// exactly those `k + 1` steps away.
pub proof fn lemma_bfs_levels(m: CsrPattern, k: nat, f: Seq<u32>, vis: Seq<bool>)
    requires
        m.wf(),
        m.indices.len() == m.cols,
        m.cols <= u32::MAX,
        vis.len() == m.cols,
        forall|c: int| 0 <= c < m.cols ==> vis[c] == within(m, k, c),
        forall|i: int| 0 <= i < f.len() ==> (#[trigger] f[i] as int) < m.cols,
        forall|c: u32| #![trigger f.contains(c)] (c as int) < m.cols ==> (f.contains(c) <==> at_distance(m, k, c as int)),
    ensures
        forall|c: int| 0 <= c < m.cols ==> (vis[c] || #[trigger] reached(m, f, c)) == within(m, k + 1, c),
        forall|c: int| 0 <= c < m.cols ==> (!vis[c] && #[trigger] reached(m, f, c)) == at_distance(m, k + 1, c),
{
    assert forall|c: int| 0 <= c < m.cols implies (#[trigger] reached(m, f, c) ==> within(m, k + 1, c)) by {
        if reached(m, f, c) {
            let (i2, j2) = choose|i2: int, j2: int| #[trigger] hits(m, f, i2, j2, c);
            let y = f[i2] as int;
            assert(f.contains(f[i2]));
            assert(at_distance(m, k, y));
            assert(m.indices[y]@[j2] == c as u32);
            assert(m.indices[y]@.contains(c as u32));
            assert(within(m, ((k + 1) - 1) as nat, y));
        }
    }
    assert forall|c: int| 0 <= c < m.cols && within(m, k + 1, c) && !within(m, k, c) implies #[trigger] reached(m, f, c) by {
        let y = choose|y: int| 0 <= y < m.indices.len() && within(m, k, y) && #[trigger] m.indices[y]@.contains(c as u32);
        if k > 0 && within(m, (k - 1) as nat, y) {
            assert(within(m, k, c));
        }
        assert(at_distance(m, k, y));
        assert((y as u32) as int == y);
        assert(f.contains(y as u32));
        let i2 = choose|i2: int| 0 <= i2 < f.len() && f[i2] == y as u32;
        let j2 = choose|j2: int| 0 <= j2 < m.indices[y]@.len() && m.indices[y]@[j2] == c as u32;
        assert(hits(m, f, i2, j2, c));
    }
    assert forall|c: int| 0 <= c < m.cols implies (vis[c] || #[trigger] reached(m, f, c)) == within(m, k + 1, c) by {
        assert(within(m, k, c) ==> within(m, k + 1, c));
    }
}

/// The search starts from vertex 0: it alone is within no step.
pub proof fn lemma_bfs_start(m: CsrPattern, c: int)
    ensures
        within(m, 0, c) <==> c == 0,
        at_distance(m, 0, c) <==> c == 0,
{
}

/// Some vertex of the graph is `k` steps from vertex 0.
pub open spec fn level_nonempty(m: CsrPattern, k: nat) -> bool {
    exists|c: int| 0 <= c < m.cols && #[trigger] at_distance(m, k, c)
}

/// `r` hands out level `k` of the search over `m`: a sparse frontier of the
/// graph's size that lists, in increasing order, the vertices `k` steps
/// from vertex 0.
pub open spec fn is_level(m: CsrPattern, k: nat, r: Option<FrontierType>) -> bool {
    &&& r matches Some(FrontierType::Sparse(g))
    &&& g.dim == m.cols
    &&& strictly_increasing(g.indices@)
    &&& forall|c: u32| #[trigger] g.indices@.contains(c) <==> ((c as int) < m.cols && at_distance(m, k, c as int))
}

/// `states` and `results` record a search over `m` from its start: the
/// first state is a new search, and each later one is what a call of
/// `next_frontier` made of the state before, returning the result of the
/// same index.
pub open spec fn bfs_trace<'a>(m: CsrPattern, states: Seq<Bfs<'a>>, results: Seq<Option<FrontierType>>) -> bool {
    &&& states.len() == results.len() + 1
    &&& states[0].status() == RunningStatus::Running(None)
    &&& states[0].matrix() == m
    &&& states[0].visited() == Seq::new(m.cols as nat, |_i: int| false)
    &&& forall|i: int| 0 <= i < results.len() ==> bfs_step(states[i], states[i + 1], #[trigger] results[i])
}

/// Where the search stands after `n` calls: not started; or searching, with
/// the vertices within `n - 1` steps visited and the frontier holding those
/// exactly `n - 1` steps away; or ended, once that level is empty.
pub open spec fn after_calls<'a>(m: CsrPattern, s: Bfs<'a>, n: nat) -> bool {
    &&& s.matrix() == m
    &&& s.visited().len() == m.cols
    &&& if n == 0 {
        &&& s.status() == RunningStatus::Running(None)
        &&& forall|c: int| 0 <= c < m.cols ==> !#[trigger] s.visited()[c]
    } else if level_nonempty(m, (n - 1) as nat) {
        &&& s.status() matches RunningStatus::Running(Some(h))
        &&& forall|i: int| 0 <= i < h.indices.len() ==> (#[trigger] h.indices@[i] as int) < m.cols
        &&& forall|c: u32| #![trigger h.indices@.contains(c)] (c as int) < m.cols
            ==> (h.indices@.contains(c) <==> at_distance(m, (n - 1) as nat, c as int))
        &&& forall|c: int| 0 <= c < m.cols ==> #[trigger] s.visited()[c] == within(m, (n - 1) as nat, c)
    } else {
        s.status() is End
    }
}

/// Levels do not skip: a vertex `k + 1` steps away comes from one `k`
/// steps away.
pub proof fn lemma_level_from_previous(m: CsrPattern, k: nat)
    requires
        m.indices.len() == m.cols,
        level_nonempty(m, k + 1),
    ensures
        level_nonempty(m, k),
{
    let c = choose|c: int| 0 <= c < m.cols && #[trigger] at_distance(m, k + 1, c);
    let y = choose|y: int| 0 <= y < m.indices.len() && within(m, k, y) && #[trigger] m.indices[y]@.contains(c as u32);
    if k == 0 {
        assert(at_distance(m, 0, 0));
    } else {
        if within(m, (k - 1) as nat, y) {
            assert(within(m, k, c));
        }
        assert(at_distance(m, k, y));
    }
}

/// Once a level is empty, so is every later one.
pub proof fn lemma_levels_end(m: CsrPattern, k: nat, j: nat)
    requires
        m.indices.len() == m.cols,
        k <= j,
        !level_nonempty(m, k),
    ensures
        !level_nonempty(m, j),
    decreases j - k,
{
    if k < j {
        lemma_levels_end(m, k, (j - 1) as nat);
        if level_nonempty(m, j) {
            lemma_level_from_previous(m, (j - 1) as nat);
        }
    }
}

/// One call of `next_frontier` after `n` calls hands out level `n` when it
/// is not empty, `None` otherwise, and leaves the search as it stands after
/// `n + 1` calls.
pub proof fn lemma_bfs_call<'a>(m: CsrPattern, s: Bfs<'a>, t: Bfs<'a>, r: Option<FrontierType>, n: nat)
    requires
        m.wf(),
        m.indices.len() == m.cols,
        0 < m.cols <= u32::MAX,
        after_calls(m, s, n),
        bfs_step(s, t, r),
    ensures
        after_calls(m, t, n + 1),
        level_nonempty(m, n) ==> is_level(m, n, r),
        !level_nonempty(m, n) ==> r is None,
{
    if n == 0 {
        lemma_bfs_start(m, 0);
        assert(at_distance(m, 0, 0));
        let g = r->0->Sparse_0;
        assert forall|c: u32| #[trigger] g.indices@.contains(c) <==> ((c as int) < m.cols && at_distance(m, 0, c as int)) by {
            lemma_bfs_start(m, c as int);
            if g.indices@.contains(c) {
                let i = choose|i: int| 0 <= i < g.indices@.len() && g.indices@[i] == c;
                assert(g.indices@[i] == 0u32);
            }
            if c == 0 {
                assert(g.indices@[0] == c);
            }
        }
        let h = t.status()->Running_0->Some_0;
        assert forall|c: u32| #![trigger h.indices@.contains(c)] (c as int) < m.cols
            implies (h.indices@.contains(c) <==> at_distance(m, 0, c as int)) by {
            assert(g.indices@.contains(c) == h.indices@.contains(c));
        }
        assert forall|c: int| 0 <= c < m.cols implies #[trigger] t.visited()[c] == within(m, 0, c) by {
            lemma_bfs_start(m, c);
        }
    } else if level_nonempty(m, (n - 1) as nat) {
        let f = s.status()->Running_0->Some_0;
        let vis = s.visited();
        lemma_bfs_levels(m, (n - 1) as nat, f.indices@, vis);
        assert(((n - 1) + 1) as nat == n);
        if level_nonempty(m, n) {
            let c = choose|c: int| 0 <= c < m.cols && #[trigger] at_distance(m, n, c);
            assert(!vis[c] && reached(m, f.indices@, c));
            let g = r->0->Sparse_0;
            assert forall|c: u32| #[trigger] g.indices@.contains(c) <==> ((c as int) < m.cols && at_distance(m, n, c as int)) by {
                if reached(m, f.indices@, c as int) {
                    let (i2, j2) = choose|i2: int, j2: int| #[trigger] hits(m, f.indices@, i2, j2, c as int);
                    assert(m.indices[f.indices@[i2] as int][j2] < m.cols);
                }
                if (c as int) < m.cols {
                    assert((!vis[c as int] && reached(m, f.indices@, c as int)) == at_distance(m, n, c as int));
                }
            }
            let h = t.status()->Running_0->Some_0;
            assert forall|i: int| 0 <= i < h.indices.len() implies (#[trigger] h.indices@[i] as int) < m.cols by {
                assert(g.indices@.contains(h.indices@[i]));
            }
            assert forall|c: u32| #![trigger h.indices@.contains(c)] (c as int) < m.cols
                implies (h.indices@.contains(c) <==> at_distance(m, n, c as int)) by {
                assert(g.indices@.contains(c) == h.indices@.contains(c));
            }
        } else {
            if r is Some {
                let c = choose|c: int| 0 <= c < m.cols && !vis[c] && #[trigger] reached(m, f.indices@, c);
                assert(at_distance(m, n, c));
            }
        }
    } else {
        if level_nonempty(m, n) {
            lemma_level_from_previous(m, (n - 1) as nat);
        }
    }
}

/// The search state after each number of calls, and what each call
/// returned.
proof fn lemma_bfs_trace_upto<'a>(m: CsrPattern, states: Seq<Bfs<'a>>, results: Seq<Option<FrontierType>>, n: nat)
    requires
        m.wf(),
        m.indices.len() == m.cols,
        0 < m.cols <= u32::MAX,
        bfs_trace(m, states, results),
        n <= results.len(),
    ensures
        after_calls(m, states[n as int], n),
        forall|i: int| 0 <= i < n && level_nonempty(m, i as nat) ==> is_level(m, i as nat, #[trigger] results[i]),
        forall|i: int| 0 <= i < n && !level_nonempty(m, i as nat) ==> #[trigger] results[i] is None,
    decreases n,
{
    if n > 0 {
        lemma_bfs_trace_upto(m, states, results, (n - 1) as nat);
        assert(bfs_step(states[n - 1], states[n as int], results[n - 1]));
        lemma_bfs_call(m, states[n - 1], states[n as int], results[n - 1], (n - 1) as nat);
    }
}

/// Breadth-first search hands out the levels of the graph in turn: call
/// `i` of `next_frontier` (counting from zero) on a new search over a
/// square graph returns, in increasing order, the vertices `i` steps from
/// vertex 0 when there are any; otherwise it returns `None`, and so does
/// every later call.
pub proof fn lemma_bfs_trace<'a>(m: CsrPattern, states: Seq<Bfs<'a>>, results: Seq<Option<FrontierType>>)
    requires
        m.wf(),
        m.indices.len() == m.cols,
        0 < m.cols <= u32::MAX,
        bfs_trace(m, states, results),
    ensures
        forall|i: int| 0 <= i < results.len() && level_nonempty(m, i as nat) ==> is_level(m, i as nat, #[trigger] results[i]),
        forall|i: int| 0 <= i < results.len() && !level_nonempty(m, i as nat) ==> #[trigger] results[i] is None,
        forall|i: int, j: int| 0 <= i <= j < results.len() && #[trigger] results[i] is None ==> #[trigger] results[j] is None,
{
    lemma_bfs_trace_upto(m, states, results, results.len());
    assert forall|i: int, j: int| 0 <= i <= j < results.len() && #[trigger] results[i] is None implies #[trigger] results[j] is None by {
        if level_nonempty(m, i as nat) {
            assert(is_level(m, i as nat, results[i]));
        } else {
            lemma_levels_end(m, i as nat, j as nat);
        }
    }
}

} // verus!
