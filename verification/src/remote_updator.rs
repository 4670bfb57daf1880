//! Remote updaters: how a stream of dense-result writes is fed to a row
//! cycle model.
use vstd::prelude::*;
use itertools::Itertools;
use std::collections::BTreeMap;
use crate::row_cycle::{RowIdWordId, RowLocation, WordId};
use crate::jump::{word_in_range, walker_of, UpdatableJumpCycle};

verus! {

// ---------------------------------------------------------------------------
// Feeding a model a sequence of accesses
// ---------------------------------------------------------------------------

/// The model and the row cursor after counting the accesses `s` in order,
/// each access moving the cursor to its own position.
pub open spec fn run_updates<T: UpdatableJumpCycle>(
    t: T,
    status: RowIdWordId,
    s: Seq<RowLocation>,
    size: WordId,
    remap_cycle: usize,
) -> (T, RowIdWordId)
    decreases s.len(),
{
    if s.len() == 0 {
        (t, status)
    } else {
        let prev = run_updates(t, status, s.drop_last(), size, remap_cycle);
        (prev.0.updated(prev.1, s.last(), size, remap_cycle), s.last().row_id_word_id)
    }
}

/// Every access of `s`, counted in order, is in range and overflows nothing.
pub open spec fn updates_ok<T: UpdatableJumpCycle>(
    t: T,
    status: RowIdWordId,
    s: Seq<RowLocation>,
    size: WordId,
    remap_cycle: usize,
) -> bool
    decreases s.len(),
{
    if s.len() == 0 {
        true
    } else {
        let prev = run_updates(t, status, s.drop_last(), size, remap_cycle);
        updates_ok(t, status, s.drop_last(), size, remap_cycle)
            && prev.0.can_update(prev.1, s.last(), size, remap_cycle)
    }
}

/// A run of accesses that may be counted may be counted up to any point.
pub proof fn lemma_updates_ok_prefix<T: UpdatableJumpCycle>(
    t: T,
    status: RowIdWordId,
    s: Seq<RowLocation>,
    size: WordId,
    remap_cycle: usize,
    k: int,
)
    requires
        updates_ok(t, status, s, size, remap_cycle),
        0 <= k <= s.len(),
    ensures
        updates_ok(t, status, s.take(k), size, remap_cycle),
    decreases s.len(),
{
    if k < s.len() {
        assert(s.drop_last().take(k) =~= s.take(k));
        lemma_updates_ok_prefix(t, status, s.drop_last(), size, remap_cycle, k);
    } else {
        assert(s.take(k) =~= s);
    }
}

// ---------------------------------------------------------------------------
// The order in which the selective updater counts a stream
// ---------------------------------------------------------------------------

/// The stream split into runs of `n` accesses (the last run may be shorter).
pub open spec fn chunks_of(s: Seq<RowLocation>, n: nat) -> Seq<Seq<RowLocation>>
    recommends
        n > 0,
    decreases s.len(),
{
    if n == 0 || s.len() == 0 {
        Seq::empty()
    } else if s.len() <= n {
        seq![s]
    } else {
        seq![s.take(n as int)] + chunks_of(s.skip(n as int), n)
    }
}

/// The walker an access falls in: its row and the walker inside the row.
pub open spec fn walker_key(walker_size: nat, loc: RowLocation) -> (usize, usize) {
    (loc.row_id_word_id.row_id.0, walker_of(walker_size, loc.row_id_word_id.word_id.0 as nat) as usize)
}

/// The order of walkers: by row, then by walker inside the row.
pub open spec fn key_lt(a: (usize, usize), b: (usize, usize)) -> bool {
    a.0 < b.0 || (a.0 == b.0 && a.1 < b.1)
}

/// The keys are strictly increasing.
pub open spec fn sorted_distinct(ks: Seq<(usize, usize)>) -> bool {
    forall|i: int, j: int| 0 <= i < j < ks.len() ==> key_lt(ks[i], ks[j])
}

/// The walkers that the accesses of `chunk` fall in.
pub open spec fn chunk_keys(walker_size: nat, chunk: Seq<RowLocation>) -> Set<(usize, usize)> {
    Set::new(|k: (usize, usize)| exists|i: int| 0 <= i < chunk.len() && walker_key(walker_size, chunk[i]) == k)
}

/// `ks` lists the walkers of `chunk`, each once, in increasing order.
pub open spec fn is_key_order(walker_size: nat, chunk: Seq<RowLocation>, ks: Seq<(usize, usize)>) -> bool {
    &&& sorted_distinct(ks)
    &&& forall|k: (usize, usize)| #[trigger] ks.contains(k) <==> chunk_keys(walker_size, chunk).contains(k)
}

/// The walkers of `chunk` in increasing order.
pub open spec fn key_order(walker_size: nat, chunk: Seq<RowLocation>) -> Seq<(usize, usize)> {
    choose|ks: Seq<(usize, usize)>| is_key_order(walker_size, chunk, ks)
}

/// The accesses of `chunk` that fall in walker `k`, in stream order.
pub open spec fn group_of(walker_size: nat, chunk: Seq<RowLocation>, k: (usize, usize)) -> Seq<RowLocation> {
    chunk.filter(|l: RowLocation| walker_key(walker_size, l) == k)
}

/// The accesses of `chunk` walker by walker, walkers in increasing order,
/// stream order kept inside a walker.
pub open spec fn grouped(walker_size: nat, chunk: Seq<RowLocation>) -> Seq<RowLocation> {
    key_order(walker_size, chunk).map_values(|k: (usize, usize)| group_of(walker_size, chunk, k)).flatten()
}

/// The cycles spent scanning past the walkers of a run: each walker after
/// the first costs `walker_size / 8` cycles.
pub open spec fn scan_cycles(walker_size: nat, chunk: Seq<RowLocation>) -> nat {
    let n = key_order(walker_size, chunk).len();
    if n == 0 { 0 } else { (((n - 1) as nat) * walker_size) / 8 }
}

/// The order in which the selective updater counts the stream `data`.
pub open spec fn selective_order(walker_size: nat, data: Seq<RowLocation>) -> Seq<RowLocation> {
    chunks_of(data, walker_size / 8).map_values(|c: Seq<RowLocation>| grouped(walker_size, c)).flatten()
}

/// The scan cycles of runs `cs`.
pub open spec fn scan_total(walker_size: nat, cs: Seq<Seq<RowLocation>>) -> nat
    decreases cs.len(),
{
    if cs.len() == 0 { 0 } else { scan_total(walker_size, cs.drop_last()) + scan_cycles(walker_size, cs.last()) }
}

/// The scan cycles the selective updater adds for the stream `data`.
pub open spec fn selective_scan(walker_size: nat, data: Seq<RowLocation>) -> nat {
    scan_total(walker_size, chunks_of(data, walker_size / 8))
}

/// Two strictly increasing key sequences with the same keys are equal.
pub proof fn lemma_sorted_distinct_unique(a: Seq<(usize, usize)>, b: Seq<(usize, usize)>)
    requires
        sorted_distinct(a),
        sorted_distinct(b),
        forall|k: (usize, usize)| #[trigger] a.contains(k) <==> b.contains(k),
    ensures
        a == b,
    decreases a.len(),
{
    if a.len() == 0 {
        if b.len() > 0 {
            assert(b.contains(b[0]));
            assert(a.contains(b[0]));
        }
        assert(a =~= b);
    } else {
        assert(a.contains(a[0]));
        assert(b.contains(a[0]));
        let j = choose|j: int| 0 <= j < b.len() && b[j] == a[0];
        assert(b.contains(b[0]));
        assert(a.contains(b[0]));
        let i = choose|i: int| 0 <= i < a.len() && a[i] == b[0];
        if j > 0 {
            assert(key_lt(b[0], b[j]));
            if i > 0 {
                assert(key_lt(a[0], a[i]));
            }
            assert(false);
        }
        let a1 = a.drop_first();
        let b1 = b.drop_first();
        assert(a.contains(a[0]));
        assert(b.contains(b[0]));
        assert forall|k: (usize, usize)| #[trigger] a1.contains(k) <==> b1.contains(k) by {
            if a1.contains(k) {
                let i = choose|i: int| 0 <= i < a1.len() && a1[i] == k;
                assert(a[i + 1] == k);
                assert(key_lt(a[0], a[i + 1]));
                assert(a.contains(k));
                assert(b.contains(k));
                let j = choose|j: int| 0 <= j < b.len() && b[j] == k;
                assert(j != 0);
                assert(b1[j - 1] == k);
            }
            if b1.contains(k) {
                let j = choose|j: int| 0 <= j < b1.len() && b1[j] == k;
                assert(b[j + 1] == k);
                assert(key_lt(b[0], b[j + 1]));
                assert(b.contains(k));
                assert(a.contains(k));
                let i = choose|i: int| 0 <= i < a.len() && a[i] == k;
                assert(i != 0);
                assert(a1[i - 1] == k);
            }
        }
        lemma_sorted_distinct_unique(a1, b1);
        assert(a =~= b) by {
            assert forall|t: int| 0 <= t < a.len() implies a[t] == b[t] by {
                if t > 0 {
                    assert(a[t] == a1[t - 1]);
                    assert(b[t] == b1[t - 1]);
                }
            }
        }
    }
}


/// A run has at most as many walkers as accesses.
proof fn lemma_key_count(walker_size: nat, chunk: Seq<RowLocation>, ks: Seq<(usize, usize)>)
    requires
        is_key_order(walker_size, chunk, ks),
    ensures
        ks.len() <= chunk.len(),
{
    assert(ks.no_duplicates()) by {
        assert forall|i: int, j: int| 0 <= i < ks.len() && 0 <= j < ks.len() && i != j implies ks[i] != ks[j] by {
            if i < j {
                assert(key_lt(ks[i], ks[j]));
            } else {
                assert(key_lt(ks[j], ks[i]));
            }
        }
    }
    ks.unique_seq_to_set();
    let m = chunk.map_values(|l: RowLocation| walker_key(walker_size, l));
    assert(m.to_set() =~= ks.to_set()) by {
        assert forall|k: (usize, usize)| m.to_set().contains(k) <==> ks.to_set().contains(k) by {
            if m.to_set().contains(k) {
                assert(m.contains(k));
                let i = choose|i: int| 0 <= i < m.len() && m[i] == k;
                assert(chunk_keys(walker_size, chunk).contains(k)) by {
                    assert(walker_key(walker_size, chunk[i]) == k);
                }
                assert(ks.contains(k));
            }
            if ks.to_set().contains(k) {
                assert(ks.contains(k));
                assert(chunk_keys(walker_size, chunk).contains(k));
                let i = choose|i: int| 0 <= i < chunk.len() && walker_key(walker_size, chunk[i]) == k;
                assert(m[i] == k);
                assert(m.contains(k));
            }
        }
    }
    m.lemma_cardinality_of_set();
}

/// Every run of `chunks_of(s, n)` has at most `n` accesses, all taken from `s`.
proof fn lemma_chunks_of_bounds(s: Seq<RowLocation>, n: nat)
    requires
        n > 0,
    ensures
        forall|i: int| 0 <= i < chunks_of(s, n).len() ==> (#[trigger] chunks_of(s, n)[i]).len() <= n,
        forall|i: int, j: int| 0 <= i < chunks_of(s, n).len() && 0 <= j < chunks_of(s, n)[i].len()
            ==> s.contains(#[trigger] chunks_of(s, n)[i][j]),
    decreases s.len(),
{
    if s.len() == 0 {
    } else if s.len() <= n {
        assert forall|i: int, j: int| 0 <= i < chunks_of(s, n).len() && 0 <= j < chunks_of(s, n)[i].len()
            implies s.contains(#[trigger] chunks_of(s, n)[i][j]) by {
            assert(s[j] == chunks_of(s, n)[i][j]);
        }
    } else {
        let rest = s.skip(n as int);
        lemma_chunks_of_bounds(rest, n);
        let cs = chunks_of(s, n);
        assert(cs == seq![s.take(n as int)] + chunks_of(rest, n));
        assert forall|i: int, j: int| 0 <= i < cs.len() && 0 <= j < cs[i].len() implies s.contains(#[trigger] cs[i][j]) by {
            if i == 0 {
                assert(s[j] == cs[i][j]);
            } else {
                assert(cs[i] == chunks_of(rest, n)[i - 1]);
                assert(rest.contains(cs[i][j]));
                let t = choose|t: int| 0 <= t < rest.len() && rest[t] == cs[i][j];
                assert(s[t + n] == cs[i][j]);
            }
        }
        assert forall|i: int| 0 <= i < cs.len() implies (#[trigger] cs[i]).len() <= n by {
            if i > 0 {
                assert(cs[i] == chunks_of(rest, n)[i - 1]);
            }
        }
    }
}

// ---------------------------------------------------------------------------
// Computing that order
// ---------------------------------------------------------------------------

/// The walker an access falls in.
pub fn walker_key_of<const WALKER_SIZE: usize>(loc: &RowLocation) -> (r: (usize, usize))
    requires
        WALKER_SIZE > 0,
        word_in_range(loc.row_id_word_id.word_id),
    ensures
        r == walker_key(WALKER_SIZE as nat, *loc),
{
    (loc.row_id_word_id.row_id.0, loc.row_id_word_id.word_id.0 * 4 / WALKER_SIZE)
}

/// The walker keys obey the order laws that `BTreeMap` relies on.
pub open spec fn walker_keys_ordered() -> bool {
    vstd::laws_cmp::obeys_cmp::<(usize, usize)>()
}

/// Walker keys come out of a `BTreeMap` by `key_lt`.
proof fn lemma_walker_keys_obey_order()
    ensures
        walker_keys_ordered(),
        forall|a: (usize, usize), b: (usize, usize)| (#[trigger] vstd::std_specs::cmp::OrdSpec::cmp_spec(&a, &b) is Less) <==> key_lt(a, b),
{
    broadcast use vstd::laws_cmp::group_laws_cmp;
}

/// The walkers of `map`, in the increasing order in which its keys come
/// out.
fn walkers_in_order(map: &BTreeMap<(usize, usize), Vec<RowLocation>>) -> (ks: Vec<(usize, usize)>)
    ensures
        sorted_distinct(ks@),
        forall|k: (usize, usize)| #[trigger] ks@.contains(k) <==> map@.contains_key(k),
{
    broadcast use vstd::std_specs::btree::group_btree_axioms;
    proof {
        lemma_walker_keys_obey_order();
    }
    let ghost all = vstd::std_specs::iter::IteratorSpec::remaining(&vstd::std_specs::btree::spec_keys_iter(map));
    let mut ks: Vec<(usize, usize)> = Vec::new();
    for k in it: map.keys()
        invariant
            it.seq() == all,
            ks.len() == it.index(),
            forall|i: int| 0 <= i < ks.len() ==> ks@[i] == *all[i],
    {
        ks.push(*k);
    }
    assert(ks.len() == all.len());
    proof {
        broadcast use vstd::laws_cmp::lemma_ref_obeys_cmp_spec;
        assert(vstd::std_specs::btree::increasing_seq(all));
        assert forall|i: int, j: int| 0 <= i < j < ks.len() implies key_lt(ks@[i], ks@[j]) by {
            assert(vstd::std_specs::cmp::OrdSpec::cmp_spec(&all[i], &all[j]) is Less);
            assert(vstd::std_specs::cmp::OrdSpec::cmp_spec(&ks@[i], &ks@[j]) is Less);
        }
    }
    assert(ks@ == all.unref());
    ks
}

/// A walker and the accesses that fall in it.
pub type WalkerGroup = ((usize, usize), Vec<RowLocation>);

/// Splits `data` into runs of `size` accesses, in order, with
/// `Itertools::chunks`; only the last run may be shorter.
#[verifier::external_body]
fn chunk_locations(data: Vec<RowLocation>, size: usize) -> (r: Vec<Vec<RowLocation>>)
    requires
        size > 0,
    ensures
        r@.map_values(|c: Vec<RowLocation>| c@) == chunks_of(data@, size as nat),
{
    data.into_iter().chunks(size).into_iter().map(|c| c.collect()).collect()
}

/// Groups the accesses of `chunk` by walker with
/// `Itertools::into_group_map_by`: each walker of the run appears once, with
/// its accesses in run order. The order of the walkers is that of a `HashMap`
/// and is not stated.
#[verifier::external_body]
fn group_by_walker<const WALKER_SIZE: usize>(chunk: &Vec<RowLocation>) -> (r: Vec<WalkerGroup>)
    requires
        WALKER_SIZE > 0,
        forall|i: int| 0 <= i < chunk.len() ==> word_in_range(#[trigger] chunk[i].row_id_word_id.word_id),
    ensures
        forall|i: int| 0 <= i < r.len() ==> (#[trigger] r[i]).1@ == group_of(WALKER_SIZE as nat, chunk@, r[i].0),
        forall|i: int, j: int| 0 <= i < j < r.len() ==> r[i].0 != r[j].0,
        forall|k: (usize, usize)| #[trigger] chunk_keys(WALKER_SIZE as nat, chunk@).contains(k)
            <==> exists|i: int| 0 <= i < r.len() && (#[trigger] r[i]).0 == k,
{
    chunk.iter().copied().into_group_map_by(|loc| walker_key_of::<WALKER_SIZE>(loc)).into_iter().collect()
}

/// Groups with distinct walkers are as many as the strictly increasing
/// walker list that holds exactly their walkers.
proof fn lemma_distinct_keys_count(groups: Seq<WalkerGroup>, ks: Seq<(usize, usize)>)
    requires
        forall|i: int, j: int| 0 <= i < j < groups.len() ==> groups[i].0 != groups[j].0,
        sorted_distinct(ks),
        forall|j: int| 0 <= j < groups.len() ==> ks.contains(#[trigger] groups[j].0),
        forall|k: (usize, usize)| #[trigger] ks.contains(k) ==> exists|j: int| 0 <= j < groups.len() && (#[trigger] groups[j]).0 == k,
    ensures
        groups.len() == ks.len(),
{
    let gk = groups.map_values(|g: WalkerGroup| g.0);
    assert(gk.no_duplicates()) by {
        assert forall|i: int, j: int| 0 <= i < gk.len() && 0 <= j < gk.len() && i != j implies gk[i] != gk[j] by {
            if i < j {
                assert(groups[i].0 != groups[j].0);
            } else {
                assert(groups[j].0 != groups[i].0);
            }
        }
    }
    assert(ks.no_duplicates()) by {
        assert forall|i: int, j: int| 0 <= i < ks.len() && 0 <= j < ks.len() && i != j implies ks[i] != ks[j] by {
            if i < j {
                assert(key_lt(ks[i], ks[j]));
            } else {
                assert(key_lt(ks[j], ks[i]));
            }
        }
    }
    assert(gk.to_set() =~= ks.to_set()) by {
        assert forall|k: (usize, usize)| gk.to_set().contains(k) implies ks.to_set().contains(k) by {
            let j = choose|j: int| 0 <= j < gk.len() && gk[j] == k;
            assert(ks.contains(groups[j].0));
        }
        assert forall|k: (usize, usize)| ks.to_set().contains(k) implies gk.to_set().contains(k) by {
            assert(ks.contains(k));
            let j = choose|j: int| 0 <= j < groups.len() && (#[trigger] groups[j]).0 == k;
            assert(gk[j] == k);
        }
    }
    gk.unique_seq_to_set();
    ks.unique_seq_to_set();
}

/// Orders groups by walker: the groups go into a `BTreeMap` keyed by
/// walker, whose keys come out in increasing order.
fn sort_groups(groups: Vec<WalkerGroup>) -> (r: Vec<WalkerGroup>)
    requires
        forall|i: int, j: int| 0 <= i < j < groups.len() ==> groups[i].0 != groups[j].0,
    ensures
        r.len() == groups.len(),
        forall|i: int, j: int| 0 <= i < j < r.len() ==> key_lt(r[i].0, r[j].0),
        forall|i: int| 0 <= i < r.len() ==> groups@.contains(#[trigger] r[i]),
        forall|j: int| 0 <= j < groups.len() ==> r@.contains(#[trigger] groups[j]),
{
    broadcast use vstd::std_specs::btree::group_btree_axioms;
    proof {
        lemma_walker_keys_obey_order();
    }
    let ghost orig = groups@;
    let mut map: BTreeMap<(usize, usize), Vec<RowLocation>> = BTreeMap::new();
    let mut rest = groups;
    while rest.len() > 0
        invariant
            walker_keys_ordered(),
            rest.len() <= orig.len(),
            rest@ == orig.take(rest.len() as int),
            forall|i: int, j: int| 0 <= i < j < orig.len() ==> orig[i].0 != orig[j].0,
            forall|k: (usize, usize)| #[trigger] map@.contains_key(k)
                <==> exists|j: int| rest.len() <= j < orig.len() && (#[trigger] orig[j]).0 == k,
            forall|j: int| rest.len() <= j < orig.len() ==> map@[(#[trigger] orig[j]).0] == orig[j].1,
        decreases rest.len(),
    {
        let ghost n = rest.len() as int;
        let g = match rest.pop() {
            Some(g) => g,
            None => {
                assert(false);
                return Vec::new();
            },
        };
        assert(g == orig[n - 1]);
        assert(rest@ == orig.take(n - 1));
        map.insert(g.0, g.1);
    }
    let keys = walkers_in_order(&map);
    let ghost m0 = map@;
    proof {
        assert forall|k: (usize, usize)| #[trigger] keys@.contains(k)
            <==> exists|j: int| 0 <= j < orig.len() && (#[trigger] orig[j]).0 == k by {
            assert(keys@.contains(k) == m0.contains_key(k));
        }
    }
    let mut out: Vec<WalkerGroup> = Vec::new();
    let mut i: usize = 0;
    while i < keys.len()
        invariant
            walker_keys_ordered(),
            i <= keys.len(),
            out.len() == i,
            sorted_distinct(keys@),
            forall|t: int| 0 <= t < i ==> (#[trigger] out[t]).0 == keys@[t],
            forall|t: int| 0 <= t < i ==> orig.contains(#[trigger] out[t]),
            forall|k: (usize, usize)| #[trigger] map@.contains_key(k) <==> (m0.contains_key(k) && !keys@.take(i as int).contains(k)),
            forall|k: (usize, usize)| #[trigger] map@.contains_key(k) ==> map@[k] == m0[k],
            forall|k: (usize, usize)| #[trigger] keys@.contains(k) <==> m0.contains_key(k),
            forall|j: int| 0 <= j < orig.len() ==> m0[(#[trigger] orig[j]).0] == orig[j].1,
            forall|k: (usize, usize)| #[trigger] m0.contains_key(k) <==> exists|j: int| 0 <= j < orig.len() && (#[trigger] orig[j]).0 == k,
        decreases keys.len() - i,
    {
        let k = keys[i];
        proof {
            assert(keys@.contains(k));
            assert(!keys@.take(i as int).contains(k)) by {
                if keys@.take(i as int).contains(k) {
                    let t = choose|t: int| 0 <= t < i && keys@.take(i as int)[t] == k;
                    assert(key_lt(keys@[t], keys@[i as int]));
                }
            }
        }
        let ghost before = map@;
        let v = match map.remove(&k) {
            Some(v) => v,
            None => {
                assert(false);
                return Vec::new();
            },
        };
        proof {
            let j = choose|j: int| 0 <= j < orig.len() && (#[trigger] orig[j]).0 == k;
            assert(orig[j] == (k, v));
            assert(map@ == before.remove(k));
            assert(keys@.take(i + 1) == keys@.take(i as int).push(k));
            assert forall|q: (usize, usize)| #[trigger] map@.contains_key(q)
                <==> (m0.contains_key(q) && !keys@.take(i + 1).contains(q)) by {
                assert(keys@.take(i + 1).contains(q) <==> (keys@.take(i as int).contains(q) || q == k)) by {
                    if keys@.take(i + 1).contains(q) && q != k {
                        let t = choose|t: int| 0 <= t < i + 1 && #[trigger] keys@.take(i + 1)[t] == q;
                        assert(keys@.take(i as int)[t] == q);
                    }
                    if keys@.take(i as int).contains(q) {
                        let t = choose|t: int| 0 <= t < i && #[trigger] keys@.take(i as int)[t] == q;
                        assert(keys@.take(i + 1)[t] == q);
                    }
                    if q == k {
                        assert(keys@.take(i + 1)[i as int] == q);
                    }
                }
            }
        }
        out.push((k, v));
        i += 1;
    }
    proof {
        assert forall|j: int| 0 <= j < orig.len() implies out@.contains(#[trigger] orig[j]) by {
            let k = orig[j].0;
            assert(m0.contains_key(k));
            assert(keys@.contains(k));
            let t = choose|t: int| 0 <= t < keys.len() && keys@[t] == k;
            assert(orig.contains(out[t]));
            let j2 = choose|j2: int| 0 <= j2 < orig.len() && orig[j2] == out[t];
            assert(orig[j2].0 == k);
            assert(j2 == j);
        }
        assert(out.len() == orig.len()) by {
            assert forall|j: int| 0 <= j < orig.len() implies keys@.contains(#[trigger] orig[j].0) by {
                assert(m0.contains_key(orig[j].0));
            }
            lemma_distinct_keys_count(orig, keys@);
        }
    }
    out
}

/// The accesses of `chunk` walker by walker, and the number of walkers.
fn chunk_order<const WALKER_SIZE: usize>(chunk: &Vec<RowLocation>) -> (r: (Vec<RowLocation>, usize))
    requires
        WALKER_SIZE > 0,
        forall|i: int| 0 <= i < chunk.len() ==> word_in_range(#[trigger] chunk[i].row_id_word_id.word_id),
    ensures
        r.0@ == grouped(WALKER_SIZE as nat, chunk@),
        r.1 == key_order(WALKER_SIZE as nat, chunk@).len(),
        r.1 <= chunk.len(),
{
    let ghost w = WALKER_SIZE as nat;
    let groups = group_by_walker::<WALKER_SIZE>(chunk);
    let sorted = sort_groups(groups);
    let ghost ks = sorted@.map_values(|g: WalkerGroup| g.0);
    proof {
        assert forall|k: (usize, usize)| #[trigger] ks.contains(k) <==> chunk_keys(w, chunk@).contains(k) by {
            if ks.contains(k) {
                let i = choose|i: int| 0 <= i < ks.len() && ks[i] == k;
                assert(groups@.contains(sorted[i]));
                let j = choose|j: int| 0 <= j < groups.len() && groups@[j] == sorted[i];
                assert(groups[j].0 == k);
            }
            if chunk_keys(w, chunk@).contains(k) {
                let j = choose|j: int| 0 <= j < groups.len() && (#[trigger] groups[j]).0 == k;
                assert(sorted@.contains(groups[j]));
                let i = choose|i: int| 0 <= i < sorted.len() && sorted@[i] == groups[j];
                assert(ks[i] == k);
            }
        }
        assert(is_key_order(w, chunk@, ks));
        lemma_sorted_distinct_unique(ks, key_order(w, chunk@));
        lemma_key_count(w, chunk@, ks);
        assert forall|i: int| 0 <= i < sorted.len() implies (#[trigger] sorted[i]).1@ == group_of(w, chunk@, sorted[i].0) by {
            assert(groups@.contains(sorted[i]));
            let j = choose|j: int| 0 <= j < groups.len() && groups@[j] == sorted[i];
            assert(groups[j].1@ == group_of(w, chunk@, groups[j].0));
        }
    }
    let ghost f = |k: (usize, usize)| group_of(w, chunk@, k);
    let mut order: Vec<RowLocation> = Vec::new();
    let mut gi: usize = 0;
    while gi < sorted.len()
        invariant
            0 <= gi <= sorted.len(),
            ks == key_order(w, chunk@),
            ks.len() == sorted.len(),
            w == WALKER_SIZE as nat,
            forall|k: (usize, usize)| #[trigger] f(k) == group_of(w, chunk@, k),
            forall|i: int| 0 <= i < sorted.len() ==> (#[trigger] sorted[i]).1@ == group_of(w, chunk@, sorted[i].0),
            forall|i: int| 0 <= i < sorted.len() ==> ks[i] == (#[trigger] sorted[i]).0,
            order@ == ks.take(gi as int).map_values(f).flatten(),
        decreases sorted.len() - gi,
    {
        proof {
            assert(ks.take(gi + 1).map_values(f) =~= ks.take(gi as int).map_values(f).push(f(ks[gi as int])));
            ks.take(gi as int).map_values(f).lemma_flatten_push(f(ks[gi as int]));
        }
        let ghost base = order@;
        let mut t: usize = 0;
        while t < sorted[gi].1.len()
            invariant
                0 <= gi < sorted.len(),
                0 <= t <= sorted[gi as int].1.len(),
                order@ == base + sorted[gi as int].1@.take(t as int),
            decreases sorted[gi as int].1.len() - t,
        {
            let loc = sorted[gi].1[t];
            proof {
                assert(sorted[gi as int].1@.take(t + 1) =~= sorted[gi as int].1@.take(t as int).push(loc));
            }
            order.push(loc);
            t += 1;
        }
        proof {
            assert(sorted[gi as int].1@.take(t as int) =~= sorted[gi as int].1@);
            let sg = sorted[gi as int];
            assert(ks[gi as int] == sg.0);
            assert(sg.1@ == group_of(w, chunk@, sg.0));
            assert(f(ks[gi as int]) == group_of(w, chunk@, ks[gi as int]));
            assert(f(ks[gi as int]) == sorted[gi as int].1@);
            assert(order@ == ks.take(gi + 1).map_values(f).flatten());
        }
        gi += 1;
    }
    proof {
        assert(ks.take(sorted.len() as int) =~= ks);
    }
    (order, sorted.len())
}


// ---------------------------------------------------------------------------
// The updaters
// ---------------------------------------------------------------------------

/// Feeds a model the dense-result writes of a stream run by run: inside a
/// run of `WALKER_SIZE / 8` writes (a walker holds that many 8-byte
/// column/value pairs) the writes are reordered walker by walker, walkers
/// in increasing order, and every walker after the first costs
/// `WALKER_SIZE / 8` extra scan cycles.
pub struct SelectiveUpdator<'a, const WALKER_SIZE: usize, T: UpdatableJumpCycle> {
    pub extra_scan_cycles: usize,
    pub jump_cycle: &'a mut T,
    pub row_status: RowIdWordId,
    pub size: WordId,
    pub remap_cycle: usize,
}

impl<'a, const WALKER_SIZE: usize, T: UpdatableJumpCycle> SelectiveUpdator<'a, WALKER_SIZE, T> {
    /// An updater that counts into `jump_cycle`, starting with the row
    /// buffer at `row_status`; every write is `size` words.
    pub fn new(jump_cycle: &'a mut T, row_status: RowIdWordId, size: WordId, remap_cycle: usize) -> (r: Self)
        ensures
            r.extra_scan_cycles == 0,
            *r.jump_cycle == *old(jump_cycle),
            *final(jump_cycle) == *final(r.jump_cycle),
            r.row_status == row_status,
            r.size == size,
            r.remap_cycle == remap_cycle,
    {
        SelectiveUpdator { extra_scan_cycles: 0, jump_cycle, row_status, size, remap_cycle }
    }

    /// Counts the writes of `data` in the selective order.
    pub fn update(&mut self, data: Vec<RowLocation>)
        requires
            WALKER_SIZE >= 8,
            ((WALKER_SIZE / 8 - 1) as nat) * (WALKER_SIZE as nat) <= usize::MAX,
            forall|i: int| 0 <= i < data.len() ==> word_in_range(#[trigger] data[i].row_id_word_id.word_id),
            updates_ok(*old(self).jump_cycle, old(self).row_status,
                selective_order(WALKER_SIZE as nat, data@), old(self).size, old(self).remap_cycle),
            old(self).extra_scan_cycles + selective_scan(WALKER_SIZE as nat, data@) <= usize::MAX,
        ensures
            *final(self).jump_cycle == run_updates(*old(self).jump_cycle, old(self).row_status,
                selective_order(WALKER_SIZE as nat, data@), old(self).size, old(self).remap_cycle).0,
            final(self).row_status == run_updates(*old(self).jump_cycle, old(self).row_status,
                selective_order(WALKER_SIZE as nat, data@), old(self).size, old(self).remap_cycle).1,
            final(self).extra_scan_cycles == old(self).extra_scan_cycles + selective_scan(WALKER_SIZE as nat, data@),
            final(self).size == old(self).size,
            final(self).remap_cycle == old(self).remap_cycle,
            *final(final(self).jump_cycle) == *final(old(self).jump_cycle),
    {
        let ghost w = WALKER_SIZE as nat;
        let ghost n = (WALKER_SIZE / 8) as nat;
        let ghost d = data@;
        let ghost cs = chunks_of(d, n);
        let ghost g = |c: Seq<RowLocation>| grouped(w, c);
        proof {
            lemma_chunks_of_bounds(d, n);
        }
        let chunks = chunk_locations(data, WALKER_SIZE / 8);
        proof {
            assert(chunks@.map_values(|c: Vec<RowLocation>| c@).len() == cs.len());
        }
        let mut order: Vec<RowLocation> = Vec::new();
        let mut ci: usize = 0;
        while ci < chunks.len()
            invariant
                0 <= ci <= chunks.len(),
                w == WALKER_SIZE as nat,
                n == (WALKER_SIZE / 8) as nat,
                WALKER_SIZE >= 8,
                ((WALKER_SIZE / 8 - 1) as nat) * (WALKER_SIZE as nat) <= usize::MAX,
                chunks.len() == cs.len(),
                forall|i: int| 0 <= i < chunks.len() ==> (#[trigger] chunks[i])@ == cs[i],
                forall|i: int| 0 <= i < cs.len() ==> (#[trigger] cs[i]).len() <= n,
                forall|i: int, j: int| 0 <= i < cs.len() && 0 <= j < cs[i].len() ==> d.contains(#[trigger] cs[i][j]),
                forall|i: int| 0 <= i < d.len() ==> word_in_range(#[trigger] d[i].row_id_word_id.word_id),
                forall|c: Seq<RowLocation>| #[trigger] g(c) == grouped(w, c),
                order@ == cs.take(ci as int).map_values(g).flatten(),
                self.extra_scan_cycles == old(self).extra_scan_cycles + scan_total(w, cs.take(ci as int)),
                old(self).extra_scan_cycles + scan_total(w, cs) <= usize::MAX,
                *self.jump_cycle == *old(self).jump_cycle,
                self.row_status == old(self).row_status,
                self.size == old(self).size,
                self.remap_cycle == old(self).remap_cycle,
                *final(self.jump_cycle) == *final(old(self).jump_cycle),
            decreases chunks.len() - ci,
        {
            proof {
                assert forall|j: int| 0 <= j < chunks[ci as int].len() implies word_in_range(
                    #[trigger] chunks[ci as int][j].row_id_word_id.word_id) by {
                    assert(chunks[ci as int]@[j] == cs[ci as int][j]);
                    assert(d.contains(cs[ci as int][j]));
                }
            }
            let (mut chunk_seq, n_keys) = chunk_order::<WALKER_SIZE>(&chunks[ci]);
            proof {
                lemma_scan_total_prefix(w, cs, ci as int);
                lemma_scan_total_prefix(w, cs, ci + 1);
                assert(cs.take(ci + 1).drop_last() =~= cs.take(ci as int));
                assert(cs.take(ci + 1).last() == cs[ci as int]);
                assert(cs.take(ci + 1).map_values(g) =~= cs.take(ci as int).map_values(g).push(g(cs[ci as int])));
                cs.take(ci as int).map_values(g).lemma_flatten_push(g(cs[ci as int]));
            }
            if n_keys > 0 {
                proof {
                    assert(((n_keys - 1) as nat) * (WALKER_SIZE as nat) <= ((WALKER_SIZE / 8 - 1) as nat) * (WALKER_SIZE as nat))
                        by (nonlinear_arith)
                        requires
                            n_keys <= WALKER_SIZE / 8,
                            n_keys > 0,
                    ;
                }
                self.extra_scan_cycles += (n_keys - 1) * WALKER_SIZE / 8;
            }
            order.append(&mut chunk_seq);
            ci += 1;
        }
        proof {
            assert(cs.take(ci as int) =~= cs);
            assert(order@ == selective_order(w, d));
        }
        let ghost ord = order@;
        let ghost t0 = *self.jump_cycle;
        let ghost s0 = self.row_status;
        let mut i: usize = 0;
        while i < order.len()
            invariant
                0 <= i <= order.len(),
                order@ == ord,
                updates_ok(t0, s0, ord, self.size, self.remap_cycle),
                *self.jump_cycle == run_updates(t0, s0, ord.take(i as int), self.size, self.remap_cycle).0,
                self.row_status == run_updates(t0, s0, ord.take(i as int), self.size, self.remap_cycle).1,
                self.extra_scan_cycles == old(self).extra_scan_cycles + selective_scan(w, d),
                self.size == old(self).size,
                self.remap_cycle == old(self).remap_cycle,
                *final(self.jump_cycle) == *final(old(self).jump_cycle),
            decreases order.len() - i,
        {
            proof {
                lemma_updates_ok_prefix(t0, s0, ord, self.size, self.remap_cycle, i + 1);
                assert(ord.take(i + 1).drop_last() =~= ord.take(i as int));
                assert(ord.take(i + 1).last() == ord[i as int]);
            }
            let loc = order[i];
            self.jump_cycle.update(&self.row_status, &loc, self.size, self.remap_cycle);
            self.row_status = loc.row_id_word_id;
            i += 1;
        }
        proof {
            assert(ord.take(i as int) =~= ord);
        }
    }
}

/// The scan total of a prefix bounds the whole, and grows by the next run.
proof fn lemma_scan_total_prefix(w: nat, cs: Seq<Seq<RowLocation>>, k: int)
    requires
        0 <= k <= cs.len(),
    ensures
        scan_total(w, cs.take(k)) <= scan_total(w, cs),
        k < cs.len() ==> scan_total(w, cs.take(k + 1)) == scan_total(w, cs.take(k)) + scan_cycles(w, cs[k]),
    decreases cs.len(),
{
    if k < cs.len() {
        assert(cs.take(k + 1).drop_last() =~= cs.take(k));
        if k + 1 < cs.len() {
            lemma_scan_total_prefix(w, cs.drop_last(), k + 1);
            assert(cs.drop_last().take(k + 1) =~= cs.take(k + 1));
        } else {
            assert(cs.take(k + 1) =~= cs);
        }
    } else {
        assert(cs.take(k) =~= cs);
    }
}

} // verus!

verus! {

/// The writes of `tasks` as locations inside subarray `subarray_id`.
pub open spec fn locations_in(subarray_id: crate::row_cycle::SubarrayId, tasks: Seq<RowIdWordId>) -> Seq<RowLocation> {
    tasks.map_values(|t: RowIdWordId| RowLocation { subarray_id, row_id_word_id: t })
}

/// Feeds a model the writes of a stream one by one, in stream order, each
/// write one word long.
pub struct SequentialRemoteUpdator;

impl SequentialRemoteUpdator {
    /// Feeds `cycles` the writes of `data` one by one.
    pub fn update<T: UpdatableJumpCycle>(
        &mut self,
        data: Vec<RowIdWordId>,
        subarray_id: crate::row_cycle::SubarrayId,
        cycles: &mut T,
        row_status: &mut RowIdWordId,
        remap_cycle: usize,
    )
        requires
            updates_ok(*old(cycles), *old(row_status), locations_in(subarray_id, data@), WordId(1), remap_cycle),
        ensures
            *final(cycles) == run_updates(*old(cycles), *old(row_status), locations_in(subarray_id, data@), WordId(1), remap_cycle).0,
            *final(row_status) == run_updates(*old(cycles), *old(row_status), locations_in(subarray_id, data@), WordId(1), remap_cycle).1,
    {
        let ghost locs = locations_in(subarray_id, data@);
        let ghost t0 = *cycles;
        let ghost s0 = *row_status;
        let mut i: usize = 0;
        while i < data.len()
            invariant
                0 <= i <= data.len(),
                locs == locations_in(subarray_id, data@),
                updates_ok(t0, s0, locs, WordId(1), remap_cycle),
                *cycles == run_updates(t0, s0, locs.take(i as int), WordId(1), remap_cycle).0,
                *row_status == run_updates(t0, s0, locs.take(i as int), WordId(1), remap_cycle).1,
            decreases data.len() - i,
        {
            let loc = RowLocation { subarray_id, row_id_word_id: data[i] };
            proof {
                lemma_updates_ok_prefix(t0, s0, locs, WordId(1), remap_cycle, i + 1);
                assert(locs.take(i + 1).drop_last() =~= locs.take(i as int));
                assert(locs.take(i + 1).last() == loc);
            }
            cycles.update(row_status, &loc, WordId(1), remap_cycle);
            *row_status = loc.row_id_word_id;
            i += 1;
        }
        proof {
            assert(locs.take(i as int) =~= locs);
        }
    }
}

} // verus!
