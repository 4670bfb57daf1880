//! Sparse matrix-vector algorithms seen as a sequence of frontiers: at
//! every step an algorithm names the rows of the matrix that the next
//! multiplication reads.
use vstd::prelude::*;
use crate::sparse::CsrPattern;

pub mod page_rank;
pub mod spmm;
pub mod bfs;
pub mod sssp;

verus! {

/// `s` is strictly increasing.
pub open spec fn strictly_increasing(s: Seq<u32>) -> bool {
    forall|i: int, j: int| 0 <= i < j < s.len() ==> s[i] < s[j]
}

/// No value occurs twice in `s`.
pub open spec fn no_duplicates(s: Seq<u32>) -> bool {
    forall|i: int, j: int| 0 <= i < j < s.len() ==> s[i] != s[j]
}

/// Every row of `m` lists its column ids in strictly increasing order, as
/// a compressed sparse row matrix does.
pub open spec fn rows_sorted(m: CsrPattern) -> bool {
    forall|r: int| 0 <= r < m.indices.len() ==> strictly_increasing(#[trigger] m.indices[r]@)
}

/// A sparse pattern vector of length `dim`: the positions of its nonzeros.
#[derive(Clone, Debug, PartialEq, Eq)]
pub struct SparseFrontier {
    /// The length of the vector.
    pub dim: usize,
    /// The positions of the nonzeros.
    pub indices: Vec<u32>,
}

impl SparseFrontier {
    /// The positions are strictly increasing and inside the vector.
    pub open spec fn wf(&self) -> bool {
        &&& strictly_increasing(self.indices@)
        &&& forall|i: int| 0 <= i < self.indices.len() ==> (#[trigger] self.indices[i] as int) < self.dim
    }

    /// A copy of the vector.
    pub fn duplicate(&self) -> (r: SparseFrontier)
        ensures
            r.dim == self.dim,
            r.indices@ == self.indices@,
    {
        let indices = self.indices.clone();
        assert(indices@ =~= self.indices@);
        SparseFrontier { dim: self.dim, indices }
    }
}

/// What the next multiplication reads: every row, or the rows of a sparse
/// vector.
#[derive(Clone, Debug, PartialEq, Eq)]
pub enum FrontierType {
    All,
    Sparse(SparseFrontier),
}

/// An algorithm that hands out the frontier of each step in turn.
pub trait SpmvAlgorithm {
    /// What the algorithm keeps between steps.
    spec fn inv(&self) -> bool;

    /// The next step can be taken from this state.
    spec fn can_advance(&self) -> bool;

    /// Moves to the next frontier; `None` when the algorithm is done.
    fn next_frontier(&mut self) -> (r: Option<FrontierType>)
        requires
            old(self).inv(),
            old(self).can_advance(),
        ensures
            final(self).inv(),
    ;
}

/// The values of `v` in increasing order (`v` holds no value twice).
pub fn sorted_values(v: &Vec<u32>) -> (r: Vec<u32>)
    requires
        no_duplicates(v@),
    ensures
        strictly_increasing(r@),
        r.len() == v.len(),
        forall|x: u32| r@.contains(x) <==> v@.contains(x),
{
    let mut r: Vec<u32> = Vec::new();
    let mut k: usize = 0;
    while k < v.len()
        invariant
            k <= v.len(),
            no_duplicates(v@),
            strictly_increasing(r@),
            r.len() == k,
            forall|x: u32| r@.contains(x) <==> v@.take(k as int).contains(x),
        decreases v.len() - k,
    {
        let x = v[k];
        assert(!v@.take(k as int).contains(x)) by {
            if v@.take(k as int).contains(x) {
                let j = choose|j: int| 0 <= j < k && v@.take(k as int)[j] == x;
                assert(v@[j] == v@[k as int]);
            }
        }
        let mut p: usize = 0;
        while p < r.len() && r[p] < x
            invariant
                p <= r.len(),
                forall|i: int| 0 <= i < p ==> r@[i] < x,
            decreases r.len() - p,
        {
            p += 1;
        }
        let ghost old_r = r@;
        assert(p < r.len() ==> r@[p as int] != x) by {
            if p < r.len() && r@[p as int] == x {
                assert(old_r.contains(x));
            }
        }
        r.insert(p, x);
        proof {
            assert(r@ == old_r.take(p as int).push(x) + old_r.skip(p as int));
            assert forall|i: int, j: int| 0 <= i < j < r.len() implies r@[i] < r@[j] by {
                if j < p {
                } else if j == p {
                } else if i < p {
                    assert(r@[j] == old_r[j - 1]);
                    if (p as int) < old_r.len() {
                        assert(old_r[p as int] >= x);
                    }
                } else if i == p {
                    assert(r@[j] == old_r[j - 1]);
                    assert(old_r[p as int] >= x);
                    assert(old_r[p as int] != x);
                    if j - 1 > p {
                        assert(old_r[p as int] < old_r[j - 1]);
                    }
                } else {
                    assert(r@[i] == old_r[i - 1]);
                    assert(r@[j] == old_r[j - 1]);
                }
            }
            assert(v@.take(k + 1) == v@.take(k as int).push(x));
            assert forall|y: u32| r@.contains(y) <==> v@.take(k + 1).contains(y) by {
                if r@.contains(y) {
                    let i = choose|i: int| 0 <= i < r.len() && r@[i] == y;
                    if i == p {
                        assert(v@.take(k + 1)[k as int] == y);
                    } else {
                        if i < p {
                            assert(old_r[i] == y);
                        } else {
                            assert(old_r[i - 1] == y);
                        }
                        assert(old_r.contains(y));
                        let j = choose|j: int| 0 <= j < k && v@.take(k as int)[j] == y;
                        assert(v@.take(k + 1)[j] == y);
                    }
                }
                if v@.take(k + 1).contains(y) {
                    if y == x {
                        assert(r@[p as int] == x);
                    } else {
                        assert(v@.take(k as int).contains(y));
                        assert(old_r.contains(y));
                        let i = choose|i: int| 0 <= i < old_r.len() && old_r[i] == y;
                        if i < p {
                            assert(r@[i] == y);
                        } else {
                            assert(r@[i + 1] == y);
                        }
                    }
                }
            }
        }
        k += 1;
    }
    assert(v@.take(v.len() as int) == v@);
    r
}

} // verus!
