//! Transposing a rectangular table.
use vstd::prelude::*;

verus! {

/// Transposes `v`: row `j` of the result holds element `j` of every row of
/// `v`. Rows longer than the first are cut to its length.
pub fn transpose2<T>(v: Vec<Vec<T>>) -> (r: Vec<Vec<T>>)
    requires
        v.len() > 0,
        forall|i: int| 0 <= i < v.len() ==> (#[trigger] v[i]).len() >= v[0].len(),
    ensures
        r.len() == v[0].len(),
        forall|j: int| 0 <= j < r.len() ==> (#[trigger] r[j]).len() == v.len(),
        forall|j: int, i: int| 0 <= j < r.len() && 0 <= i < v.len() ==> (#[trigger] r[j][i]) == v[i][j],
{
    let len = v[0].len();
    let ghost orig = v@;
    let mut rows = v;
    let n = rows.len();
    // cut every row to `len`
    let mut i: usize = 0;
    while i < n
        invariant
            0 <= i <= n,
            rows.len() == n,
            n == orig.len(),
            len == orig[0].len(),
            forall|t: int| 0 <= t < n ==> orig[t].len() >= len,
            forall|t: int| 0 <= t < i ==> (#[trigger] rows[t])@ == orig[t]@.take(len as int),
            forall|t: int| i <= t < n ==> (#[trigger] rows[t]) == orig[t],
        decreases n - i,
    {
        rows[i].truncate(len);
        i += 1;
    }
    // take the columns from the last one down
    let mut reversed: Vec<Vec<T>> = Vec::new();
    let mut k: usize = 0;
    while k < len
        invariant
            0 <= k <= len,
            rows.len() == n,
            n == orig.len(),
            len == orig[0].len(),
            forall|t: int| 0 <= t < n ==> (#[trigger] orig[t]).len() >= len,
            forall|t: int| 0 <= t < n ==> (#[trigger] rows[t])@ == orig[t]@.take(len - k),
            reversed.len() == k,
            forall|c: int| 0 <= c < k ==> (#[trigger] reversed[c]).len() == n,
            forall|c: int, t: int| 0 <= c < k && 0 <= t < n ==> (#[trigger] reversed[c][t]) == orig[t][len - 1 - c],
        decreases len - k,
    {
        let mut column: Vec<T> = Vec::new();
        let mut t: usize = 0;
        while t < n
            invariant
                0 <= t <= n,
                0 <= k < len,
                rows.len() == n,
                n == orig.len(),
                len == orig[0].len(),
                forall|s: int| 0 <= s < n ==> (#[trigger] orig[s]).len() >= len,
                forall|s: int| 0 <= s < t ==> (#[trigger] rows[s])@ == orig[s]@.take(len - k - 1),
                forall|s: int| t <= s < n ==> (#[trigger] rows[s])@ == orig[s]@.take(len - k),
                column.len() == t,
                forall|s: int| 0 <= s < t ==> (#[trigger] column[s]) == orig[s][len - 1 - k],
            decreases n - t,
        {
            let x = rows[t].pop();
            proof {
                assert(orig[t as int]@.take(len - k).drop_last() =~= orig[t as int]@.take(len - k - 1));
            }
            match x {
                Some(x) => {
                    column.push(x);
                }
                None => {
                    proof {
                        assert(false);
                    }
                }
            }
            t += 1;
        }
        reversed.push(column);
        k += 1;
    }
    let mut result: Vec<Vec<T>> = Vec::new();
    while reversed.len() > 0
        invariant
            reversed.len() + result.len() == len,
            len == orig[0].len(),
            n == orig.len(),
            forall|c: int| 0 <= c < reversed.len() ==> (#[trigger] reversed[c]).len() == n,
            forall|c: int, t: int| 0 <= c < reversed.len() && 0 <= t < n ==> (#[trigger] reversed[c][t]) == orig[t][len - 1 - c],
            forall|j: int| 0 <= j < result.len() ==> (#[trigger] result[j]).len() == n,
            forall|j: int, t: int| 0 <= j < result.len() && 0 <= t < n ==> (#[trigger] result[j][t]) == orig[t][j],
        decreases reversed.len(),
    {
        let column = reversed.pop();
        match column {
            Some(c) => {
                result.push(c);
            }
            None => {}
        }
    }
    result
}

} // verus!
