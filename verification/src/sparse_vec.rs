//! Sparse vectors with values, and their sum.
use vstd::prelude::*;

verus! {

/// A value held by a sparse vector.
pub trait SparseValue: Copy + Sized {
    /// The sum of two values.
    spec fn plus(a: Self, b: Self) -> Self;

    /// Two values can be added without overflow.
    spec fn can_plus(a: Self, b: Self) -> bool;

    fn add_values(a: Self, b: Self) -> (r: Self)
        requires
            Self::can_plus(a, b),
        ensures
            r == Self::plus(a, b),
    ;
}

impl SparseValue for u64 {
    open spec fn plus(a: u64, b: u64) -> u64 {
        (a + b) as u64
    }

    open spec fn can_plus(a: u64, b: u64) -> bool {
        a + b <= u64::MAX
    }

    fn add_values(a: u64, b: u64) -> (r: u64) {
        a + b
    }
}

/// The value of a pattern matrix entry: only its presence counts.
#[derive(Debug, Clone, Copy, PartialEq, Eq, Structural)]
pub struct Pattern;

impl SparseValue for Pattern {
    open spec fn plus(a: Pattern, b: Pattern) -> Pattern {
        Pattern
    }

    open spec fn can_plus(a: Pattern, b: Pattern) -> bool {
        true
    }

    fn add_values(a: Pattern, b: Pattern) -> (r: Pattern) {
        Pattern
    }
}

/// A sparse vector of length `dim`: the positions of its nonzeros and
/// their values.
#[derive(Debug, Clone, PartialEq, Eq)]
pub struct SparseVector<T> {
    pub dim: usize,
    pub indices: Vec<usize>,
    pub data: Vec<T>,
}

/// `s` is strictly increasing.
pub open spec fn increasing_positions(s: Seq<usize>) -> bool {
    forall|i: int, j: int| 0 <= i < j < s.len() ==> s[i] < s[j]
}

impl<T> SparseVector<T> {
    /// The nonzeros as (position, value) pairs, in order.
    pub open spec fn entries(&self) -> Seq<(usize, T)> {
        Seq::new(self.indices.len() as nat, |k: int| (self.indices[k], self.data[k]))
    }

    /// One value per position, positions strictly increasing and inside
    /// the vector.
    pub open spec fn wf(&self) -> bool {
        &&& self.indices.len() == self.data.len()
        &&& increasing_positions(self.indices@)
        &&& forall|k: int| 0 <= k < self.indices.len() ==> #[trigger] self.indices[k] < self.dim
    }
}

/// The sum of two sparse vectors given by their entries in position order:
/// the entries are merged, and two entries at one position become one
/// holding the sum of their values.
pub open spec fn merge_sum<T: SparseValue>(a: Seq<(usize, T)>, b: Seq<(usize, T)>) -> Seq<(usize, T)>
    decreases a.len() + b.len(),
{
    if a.len() == 0 {
        b
    } else if b.len() == 0 {
        a
    } else if a[0].0 < b[0].0 {
        seq![a[0]] + merge_sum(a.drop_first(), b)
    } else if a[0].0 == b[0].0 {
        seq![(a[0].0, T::plus(a[0].1, b[0].1))] + merge_sum(a.drop_first(), b.drop_first())
    } else {
        seq![b[0]] + merge_sum(a, b.drop_first())
    }
}

/// Every pair of entries at one position can be added.
pub open spec fn can_merge<T: SparseValue>(a: Seq<(usize, T)>, b: Seq<(usize, T)>) -> bool {
    forall|i: int, j: int| 0 <= i < a.len() && 0 <= j < b.len() && (#[trigger] a[i]).0 == (#[trigger] b[j]).0
        ==> T::can_plus(a[i].1, b[j].1)
}

/// Adds two sparse vectors of one length.
///
/// For example, the vectors of length 5 with ones at `[0, 2, 4]` and at
/// `[1, 3, 4]` add up to the vector with entries at `[0, 1, 2, 3, 4]` and
/// values `[1, 1, 1, 1, 2]`.
pub fn sparse_add<T: SparseValue>(v1: &SparseVector<T>, v2: &SparseVector<T>) -> (r: SparseVector<T>)
    requires
        v1.dim == v2.dim,
        v1.wf(),
        v2.wf(),
        can_merge(v1.entries(), v2.entries()),
    ensures
        r.dim == v1.dim,
        r.wf(),
        r.entries() == merge_sum(v1.entries(), v2.entries()),
{
    let ghost e1 = v1.entries();
    let ghost e2 = v2.entries();
    let mut indices: Vec<usize> = Vec::new();
    let mut data: Vec<T> = Vec::new();
    let mut p1: usize = 0;
    let mut p2: usize = 0;
    let n1 = v1.indices.len();
    let n2 = v2.indices.len();
    proof {
        assert(e1.skip(0) == e1);
        assert(e2.skip(0) == e2);
        let empty = Seq::new(indices.len() as nat, |k: int| (indices[k], data[k]));
        assert(empty + merge_sum(e1, e2) == merge_sum(e1, e2));
    }
    while p1 < n1 || p2 < n2
        invariant
            p1 <= n1,
            p2 <= n2,
            n1 == e1.len(),
            n2 == e2.len(),
            e1 == v1.entries(),
            e2 == v2.entries(),
            v1.wf(),
            v2.wf(),
            can_merge(e1, e2),
            indices.len() == data.len(),
            Seq::new(indices.len() as nat, |k: int| (indices[k], data[k])) + merge_sum(e1.skip(p1 as int), e2.skip(p2 as int))
                == merge_sum(e1, e2),
        decreases (n1 - p1) + (n2 - p2),
    {
        let ghost done = Seq::new(indices.len() as nat, |k: int| (indices[k], data[k]));
        let ghost s1 = e1.skip(p1 as int);
        let ghost s2 = e2.skip(p2 as int);
        if p1 < n1 && p2 < n2 {
            let i1 = v1.indices[p1];
            let i2 = v2.indices[p2];
            assert(s1[0] == (i1, v1.data[p1 as int]));
            assert(s2[0] == (i2, v2.data[p2 as int]));
            assert(s1.drop_first() == e1.skip(p1 + 1));
            assert(s2.drop_first() == e2.skip(p2 + 1));
            if i1 < i2 {
                indices.push(i1);
                data.push(v1.data[p1]);
                p1 += 1;
            } else if i1 == i2 {
                assert(e1[p1 as int].0 == e2[p2 as int].0);
                let sum = T::add_values(v1.data[p1], v2.data[p2]);
                indices.push(i1);
                data.push(sum);
                p1 += 1;
                p2 += 1;
            } else {
                indices.push(i2);
                data.push(v2.data[p2]);
                p2 += 1;
            }
        } else if p1 < n1 {
            assert(s2.len() == 0);
            assert(s1[0] == (v1.indices[p1 as int], v1.data[p1 as int]));
            assert(s1.drop_first() == e1.skip(p1 + 1));
            assert(merge_sum(s1, s2) == s1);
            assert(merge_sum(s1.drop_first(), s2) == s1.drop_first());
            indices.push(v1.indices[p1]);
            data.push(v1.data[p1]);
            p1 += 1;
        } else {
            assert(s1.len() == 0);
            assert(s2[0] == (v2.indices[p2 as int], v2.data[p2 as int]));
            assert(s2.drop_first() == e2.skip(p2 + 1));
            indices.push(v2.indices[p2]);
            data.push(v2.data[p2]);
            p2 += 1;
        }
        proof {
            let now = Seq::new(indices.len() as nat, |k: int| (indices[k], data[k]));
            assert(now == done.push(now.last()));
            assert(now + merge_sum(e1.skip(p1 as int), e2.skip(p2 as int))
                == done + (seq![now.last()] + merge_sum(e1.skip(p1 as int), e2.skip(p2 as int))));
        }
    }
    proof {
        assert(e1.skip(p1 as int).len() == 0);
        assert(e2.skip(p2 as int).len() == 0);
    }
    let r = SparseVector { dim: v1.dim, indices, data };
    assert(r.entries() == Seq::new(r.indices.len() as nat, |k: int| (r.indices[k], r.data[k])));
    proof {
        assert(positions(e1) =~= v1.indices@);
        assert(positions(e2) =~= v2.indices@);
        assert(positions(r.entries()) =~= r.indices@);
        lemma_merge_sum_positions(e1, e2);
        assert forall|k: int| 0 <= k < r.indices.len() implies #[trigger] r.indices[k] < r.dim by {
            assert(r.indices@.to_set().contains(r.indices[k]));
            if v1.indices@.to_set().contains(r.indices[k]) {
                let i = choose|i: int| 0 <= i < v1.indices.len() && v1.indices@[i] == r.indices[k];
            } else {
                assert(v2.indices@.to_set().contains(r.indices[k]));
                let i = choose|i: int| 0 <= i < v2.indices.len() && v2.indices@[i] == r.indices[k];
            }
        }
    }
    r
}

/// The positions of entries, in order.
pub open spec fn positions<T>(s: Seq<(usize, T)>) -> Seq<usize> {
    s.map_values(|e: (usize, T)| e.0)
}

/// The sum of two vectors with strictly increasing positions has strictly
/// increasing positions, and its positions are those of either vector.
pub proof fn lemma_merge_sum_positions<T: SparseValue>(a: Seq<(usize, T)>, b: Seq<(usize, T)>)
    requires
        increasing_positions(positions(a)),
        increasing_positions(positions(b)),
    ensures
        increasing_positions(positions(merge_sum(a, b))),
        positions(merge_sum(a, b)).to_set() == positions(a).to_set() + positions(b).to_set(),
    decreases a.len() + b.len(),
{
    let m = merge_sum(a, b);
    if a.len() == 0 {
        assert(positions(a).to_set() =~= Set::empty());
        assert(positions(m).to_set() =~= positions(a).to_set() + positions(b).to_set());
    } else if b.len() == 0 {
        assert(positions(b).to_set() =~= Set::empty());
        assert(positions(m).to_set() =~= positions(a).to_set() + positions(b).to_set());
    } else {
        let a1 = a.drop_first();
        let b1 = b.drop_first();
        assert(positions(a1) == positions(a).drop_first());
        assert(positions(b1) == positions(b).drop_first());
        assert(increasing_positions(positions(a1)));
        assert(increasing_positions(positions(b1)));
        assert(positions(a) == seq![a[0].0] + positions(a1));
        assert(positions(b) == seq![b[0].0] + positions(b1));
        assert forall|x: usize| positions(a1).to_set().contains(x) implies x > a[0].0 by {
            let i = choose|i: int| 0 <= i < positions(a1).len() && positions(a1)[i] == x;
            assert(positions(a)[i + 1] == x);
            assert(positions(a)[0] == a[0].0);
            assert(positions(a)[0] < positions(a)[i + 1]);
        }
        assert forall|x: usize| positions(b1).to_set().contains(x) implies x > b[0].0 by {
            let i = choose|i: int| 0 <= i < positions(b1).len() && positions(b1)[i] == x;
            assert(positions(b)[i + 1] == x);
            assert(positions(b)[0] == b[0].0);
            assert(positions(b)[0] < positions(b)[i + 1]);
        }
        assert(positions(a).to_set() =~= positions(a1).to_set().insert(a[0].0)) by {
            assert forall|x: usize| positions(a).to_set().contains(x) implies positions(a1).to_set().insert(a[0].0).contains(x) by {
                let i = choose|i: int| 0 <= i < positions(a).len() && positions(a)[i] == x;
                if i > 0 {
                    assert(positions(a1)[i - 1] == x);
                }
            }
            assert forall|x: usize| positions(a1).to_set().insert(a[0].0).contains(x) implies positions(a).to_set().contains(x) by {
                if x == a[0].0 {
                    assert(positions(a)[0] == x);
                } else {
                    let i = choose|i: int| 0 <= i < positions(a1).len() && positions(a1)[i] == x;
                    assert(positions(a)[i + 1] == x);
                }
            }
        }
        assert(positions(b).to_set() =~= positions(b1).to_set().insert(b[0].0)) by {
            assert forall|x: usize| positions(b).to_set().contains(x) implies positions(b1).to_set().insert(b[0].0).contains(x) by {
                let i = choose|i: int| 0 <= i < positions(b).len() && positions(b)[i] == x;
                if i > 0 {
                    assert(positions(b1)[i - 1] == x);
                }
            }
            assert forall|x: usize| positions(b1).to_set().insert(b[0].0).contains(x) implies positions(b).to_set().contains(x) by {
                if x == b[0].0 {
                    assert(positions(b)[0] == x);
                } else {
                    let i = choose|i: int| 0 <= i < positions(b1).len() && positions(b1)[i] == x;
                    assert(positions(b)[i + 1] == x);
                }
            }
        }
        let (head, rest, ra, rb) = if a[0].0 < b[0].0 {
            (a[0].0, merge_sum(a1, b), a1, b)
        } else if a[0].0 == b[0].0 {
            (a[0].0, merge_sum(a1, b1), a1, b1)
        } else {
            (b[0].0, merge_sum(a, b1), a, b1)
        };
        lemma_merge_sum_positions(ra, rb);
        assert(positions(m) == seq![head] + positions(rest));
        assert forall|x: usize| positions(rest).to_set().contains(x) implies x > head by {
            assert((positions(ra).to_set() + positions(rb).to_set()).contains(x));
        }
        assert forall|i: int, j: int| 0 <= i < j < positions(m).len() implies positions(m)[i] < positions(m)[j] by {
            if i == 0 {
                assert(positions(m)[j] == positions(rest)[j - 1]);
                assert(positions(rest).to_set().contains(positions(rest)[j - 1]));
            } else {
                assert(positions(m)[i] == positions(rest)[i - 1]);
                assert(positions(m)[j] == positions(rest)[j - 1]);
            }
        }
        assert(positions(m).to_set() =~= positions(rest).to_set().insert(head)) by {
            assert forall|x: usize| positions(m).to_set().contains(x) implies positions(rest).to_set().insert(head).contains(x) by {
                let i = choose|i: int| 0 <= i < positions(m).len() && positions(m)[i] == x;
                if i > 0 {
                    assert(positions(rest)[i - 1] == x);
                }
            }
            assert forall|x: usize| positions(rest).to_set().insert(head).contains(x) implies positions(m).to_set().contains(x) by {
                if x == head {
                    assert(positions(m)[0] == x);
                } else {
                    let i = choose|i: int| 0 <= i < positions(rest).len() && positions(rest)[i] == x;
                    assert(positions(m)[i + 1] == x);
                }
            }
        }
        assert(positions(m).to_set() =~= positions(a).to_set() + positions(b).to_set());
    }
}

} // verus!
