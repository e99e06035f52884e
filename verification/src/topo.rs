//! Specification of the topological-ordering engine.
//!
//! Kahn's algorithm with a deterministic tie-break: of all pending nodes
//! whose predecessors have all been placed, the lowest index is placed
//! first. `kahn_order` pins the exact sequence the engine produces;
//! `valid_topo` says what a topological order is; the lemmas connect the
//! two: a completed run is a valid order, and a stuck run proves that no
//! valid order exists (the graph has a cycle).

use vstd::prelude::*;

use crate::model::GraphModel;

verus! {

/// A node is ready relative to the already-placed prefix `done`: it is in
/// range, not yet placed, and every one of its predecessors is placed.
pub open spec fn ready(m: GraphModel, done: Seq<usize>, v: int) -> bool {
    &&& 0 <= v < m.labels.len()
    &&& !done.contains(v as usize)
    &&& forall|k: int| 0 <= k < m.rev[v].len() ==> done.contains(#[trigger] m.rev[v][k])
}

/// The least ready node with index at least `i`, if any.
pub open spec fn first_ready_at(m: GraphModel, done: Seq<usize>, i: int) -> Option<usize>
    decreases m.labels.len() - i,
{
    if i < 0 || i >= m.labels.len() {
        None
    } else if ready(m, done, i) {
        Some(i as usize)
    } else {
        first_ready_at(m, done, i + 1)
    }
}

/// Run up to `fuel` steps of the engine from the placed prefix `done`,
/// each step appending the least ready node; stop early when none is
/// ready.
pub open spec fn kahn_extend(m: GraphModel, done: Seq<usize>, fuel: nat) -> Seq<usize>
    decreases fuel,
{
    if fuel == 0 {
        done
    } else {
        match first_ready_at(m, done, 0) {
            Some(v) => kahn_extend(m, done.push(v), (fuel - 1) as nat),
            None => done,
        }
    }
}

/// The exact sequence the engine produces on `m`: at most one step per
/// node, starting from the empty prefix.
pub open spec fn kahn_order(m: GraphModel) -> Seq<usize> {
    kahn_extend(m, Seq::empty(), m.labels.len())
}

/// `order` is a topological order of `m`: a permutation of all node
/// indices in which, for every edge (u, v), u is placed before v.
pub open spec fn valid_topo(m: GraphModel, order: Seq<usize>) -> bool {
    &&& order.len() == m.labels.len()
    &&& order.no_duplicates()
    &&& forall|k: int| 0 <= k < order.len() ==> (#[trigger] order[k]) < m.labels.len()
    &&& forall|i: int, j: int|
        #![trigger order[i], order[j]]
        0 <= i < order.len() && 0 <= j < order.len() && m.has_edge(
            order[i] as int,
            order[j] as int,
        ) ==> i < j
}

/// The graph is a DAG exactly when it admits a topological order.
pub open spec fn is_dag_spec(m: GraphModel) -> bool {
    exists|order: Seq<usize>| valid_topo(m, order)
}

/// What `first_ready_at` returns: either a ready node, the least one at
/// or above `i`, or a guarantee that none at or above `i` is ready.
pub proof fn lemma_first_ready_at_props(m: GraphModel, done: Seq<usize>, i: int)
    requires
        0 <= i,
        m.labels.len() <= usize::MAX,
    ensures
        match first_ready_at(m, done, i) {
            Some(v) => i <= v < m.labels.len() && ready(m, done, v as int),
            None => forall|w: int| i <= w < m.labels.len() ==> !ready(m, done, w),
        },
    decreases m.labels.len() - i,
{
    if i >= m.labels.len() {
        assert(first_ready_at(m, done, i) is None);
    } else if ready(m, done, i) {
        assert(first_ready_at(m, done, i) == Some(i as usize));
    } else {
        assert(first_ready_at(m, done, i) == first_ready_at(m, done, i + 1));
        lemma_first_ready_at_props(m, done, i + 1);
    }
}

/// One more unit of fuel performs exactly one more step, provided every
/// earlier unit of fuel performed a step.
pub proof fn lemma_kahn_extend_step(m: GraphModel, done: Seq<usize>, fuel: nat)
    requires
        kahn_extend(m, done, fuel).len() == done.len() + fuel,
    ensures
        kahn_extend(m, done, (fuel + 1) as nat) == (match first_ready_at(
            m,
            kahn_extend(m, done, fuel),
            0,
        ) {
            Some(v) => kahn_extend(m, done, fuel).push(v),
            None => kahn_extend(m, done, fuel),
        }),
    decreases fuel,
{
    if fuel == 0 {
        assert(kahn_extend(m, done, 0) == done);
        match first_ready_at(m, done, 0) {
            Some(v) => {
                assert(kahn_extend(m, done, 1) == kahn_extend(m, done.push(v), 0));
                assert(kahn_extend(m, done.push(v), 0) == done.push(v));
            },
            None => {
                assert(kahn_extend(m, done, 1) == done);
            },
        }
    } else {
        match first_ready_at(m, done, 0) {
            Some(v0) => {
                assert(kahn_extend(m, done, fuel) == kahn_extend(
                    m,
                    done.push(v0),
                    (fuel - 1) as nat,
                ));
                assert(kahn_extend(m, done, (fuel + 1) as nat) == kahn_extend(
                    m,
                    done.push(v0),
                    fuel,
                ));
                assert(kahn_extend(m, done.push(v0), (fuel - 1) as nat).len() == done.push(
                    v0,
                ).len() + (fuel - 1));
                lemma_kahn_extend_step(m, done.push(v0), (fuel - 1) as nat);
                assert(fuel == ((fuel - 1) as nat) + 1);
            },
            None => {
                assert(kahn_extend(m, done, fuel) == done);
                assert(false);
            },
        }
    }
}

/// A duplicate-free sequence of `n` indices below `n` contains every
/// index below `n`.
pub proof fn lemma_bounded_full(s: Seq<usize>, n: int)
    requires
        0 <= n <= usize::MAX,
        s.no_duplicates(),
        forall|k: int| 0 <= k < s.len() ==> (#[trigger] s[k]) < n,
        s.len() == n,
    ensures
        forall|w: usize| w < n ==> s.contains(w),
{
    broadcast use vstd::set::group_set_axioms;
    broadcast use vstd::seq_lib::seq_to_set_is_finite;

    let t = s.map_values(|x: usize| x as int);
    assert(t.no_duplicates()) by {
        assert forall|i: int, j: int|
            0 <= i < t.len() && 0 <= j < t.len() && i != j implies t[i] != t[j] by {
            assert(s[i] != s[j]);
        }
    }
    t.unique_seq_to_set();
    let rng = vstd::set_lib::set_int_range(0, n);
    vstd::set_lib::lemma_int_range(0, n);
    assert forall|w: usize| w < n implies s.contains(w) by {
        if !s.contains(w) {
            let smaller = rng.remove(w as int);
            assert(t.to_set().subset_of(smaller)) by {
                assert forall|e: int| t.to_set().contains(e) implies smaller.contains(e) by {
                    let k = choose|k: int| 0 <= k < t.len() && t[k] == e;
                    assert(s[k] < n);
                    if e == w as int {
                        assert(s[k] == w);
                        assert(s.contains(w));
                    }
                }
            }
            assert(smaller.len() == n - 1);
            vstd::set_lib::lemma_len_subset(t.to_set(), smaller);
            assert(false);
        }
    }
}

/// A duplicate-free sequence of fewer than `n` indices below `n` misses
/// some index below `n`.
pub proof fn lemma_bounded_missing(s: Seq<usize>, n: int)
    requires
        0 <= n <= usize::MAX,
        s.no_duplicates(),
        forall|k: int| 0 <= k < s.len() ==> (#[trigger] s[k]) < n,
        s.len() < n,
    ensures
        exists|w: usize| w < n && !s.contains(w),
{
    broadcast use vstd::set::group_set_axioms;
    broadcast use vstd::seq_lib::seq_to_set_is_finite;

    let t = s.map_values(|x: usize| x as int);
    assert(t.no_duplicates()) by {
        assert forall|i: int, j: int|
            0 <= i < t.len() && 0 <= j < t.len() && i != j implies t[i] != t[j] by {
            assert(s[i] != s[j]);
        }
    }
    t.unique_seq_to_set();
    let rng = vstd::set_lib::set_int_range(0, n);
    vstd::set_lib::lemma_int_range(0, n);
    if forall|w: usize| w < n ==> #[trigger] s.contains(w) {
        assert(rng.subset_of(t.to_set())) by {
            assert forall|e: int| rng.contains(e) implies t.to_set().contains(e) by {
                let w = e as usize;
                assert(s.contains(w));
                let k = choose|k: int| 0 <= k < s.len() && s[k] == w;
                assert(t[k] == e);
                assert(t.contains(e));
            }
        }
        vstd::set_lib::lemma_len_subset(rng, t.to_set());
        assert(false);
    }
}

/// The first position of `s` whose element lies outside `done`.
pub proof fn lemma_first_outside(s: Seq<usize>, done: Seq<usize>) -> (k: int)
    requires
        exists|j: int| 0 <= j < s.len() && !done.contains(#[trigger] s[j]),
    ensures
        0 <= k < s.len(),
        !done.contains(s[k]),
        forall|j: int| 0 <= j < k ==> done.contains(#[trigger] s[j]),
    decreases s.len(),
{
    let j0 = choose|j: int| 0 <= j < s.len() && !done.contains(#[trigger] s[j]);
    if !done.contains(s[0]) {
        0
    } else {
        let rest = s.drop_first();
        assert(rest[j0 - 1] == s[j0]);
        let k1 = lemma_first_outside(rest, done);
        assert(s[k1 + 1] == rest[k1]);
        assert forall|j: int| 0 <= j < k1 + 1 implies done.contains(#[trigger] s[j]) by {
            if j > 0 {
                assert(rest[j - 1] == s[j]);
                assert(done.contains(rest[j - 1]));
            }
        }
        k1 + 1
    }
}

/// An ordering every prefix-step of which placed a ready node is a valid
/// topological order once it has placed every node.
pub proof fn lemma_consistent_valid(m: GraphModel, order: Seq<usize>)
    requires
        m.wf(),
        order.no_duplicates(),
        forall|k: int| 0 <= k < order.len() ==> (#[trigger] order[k]) < m.labels.len(),
        forall|k: int| 0 <= k < order.len() ==> ready(m, order.take(k), #[trigger] order[k] as int),
        order.len() == m.labels.len(),
    ensures
        valid_topo(m, order),
{
    let n = m.labels.len() as int;
    assert forall|i: int, j: int|
        #![trigger order[i], order[j]]
        0 <= i < order.len() && 0 <= j < order.len() && m.has_edge(
            order[i] as int,
            order[j] as int,
        ) implies i < j by {
        let u = order[i];
        let v = order[j];
        assert(m.adj[u as int].contains(v));
        assert(m.adj[u as int].contains((v as int) as usize) <==> m.rev[v as int].contains(
            (u as int) as usize,
        ));
        assert(m.rev[v as int].contains(u));
        let t = choose|t: int| 0 <= t < m.rev[v as int].len() && m.rev[v as int][t] == u;
        assert(ready(m, order.take(j), v as int));
        assert(order.take(j).contains(m.rev[v as int][t]));
        let p = choose|p: int| 0 <= p < j && order.take(j)[p] == u;
        assert(order[p] == u);
        assert(p == i);
    }
}

/// When no node is ready and some node is still unplaced, the graph has
/// no topological order at all: every unplaced node waits on an unplaced
/// predecessor, so a cycle blocks any ordering.
pub proof fn lemma_stuck_no_topo(m: GraphModel, done: Seq<usize>)
    requires
        m.wf(),
        done.no_duplicates(),
        forall|k: int| 0 <= k < done.len() ==> (#[trigger] done[k]) < m.labels.len(),
        done.len() < m.labels.len(),
        m.labels.len() <= usize::MAX,
        forall|v: int| 0 <= v < m.labels.len() ==> !ready(m, done, v),
    ensures
        !is_dag_spec(m),
{
    let n = m.labels.len() as int;
    assert forall|order: Seq<usize>| !(#[trigger] valid_topo(m, order)) by {
        if valid_topo(m, order) {
            lemma_bounded_missing(done, n);
            let w = choose|w: usize| w < n && !done.contains(w);
            lemma_bounded_full(order, n);
            assert(order.contains(w));
            let jw = choose|j: int| 0 <= j < order.len() && order[j] == w;
            assert(!done.contains(order[jw]));
            let k = lemma_first_outside(order, done);
            let v = order[k];
            assert(v < n);
            assert(!ready(m, done, v as int));
            assert(!done.contains(v));
            let t = choose|t: int|
                0 <= t < m.rev[v as int].len() && !done.contains(#[trigger] m.rev[v as int][t]);
            let u = m.rev[v as int][t];
            assert(m.rev[v as int].contains(u));
            assert(u < n);
            assert(m.adj[u as int].contains((v as int) as usize) <==> m.rev[v as int].contains(
                (u as int) as usize,
            ));
            assert(m.adj[u as int].contains(v));
            assert(m.has_edge(u as int, v as int));
            assert(order.contains(u)) by {
                assert(u < n);
            }
            let i = choose|i: int| 0 <= i < order.len() && order[i] == u;
            assert(m.has_edge(order[i] as int, order[k] as int));
            assert(i < k);
            assert(done.contains(order[i]));
            assert(false);
        }
    }
    assert(!is_dag_spec(m));
}

} // verus!
