//! Mathematical model of the directed graph.
//!
//! `GraphModel` is the ghost view of the executable graph store: a sequence of
//! node labels (index = position), forward and reverse adjacency sequences,
//! and the edge counter. All public contracts are stated over this model.

use vstd::prelude::*;

verus! {

/// Ghost model of a directed graph: labels in index order, forward and
/// reverse adjacency, and the number of edges.
pub struct GraphModel {
    /// Node labels; the node with index `i` has label `labels[i]`.
    pub labels: Seq<Seq<char>>,
    /// Forward adjacency: `adj[u]` holds the successors of `u` in insertion order.
    pub adj: Seq<Seq<usize>>,
    /// Reverse adjacency: `rev[v]` holds the predecessors of `v` in insertion order.
    pub rev: Seq<Seq<usize>>,
    /// Total number of edges.
    pub edge_count: nat,
}

impl GraphModel {
    /// The model of a freshly created graph.
    pub open spec fn empty() -> GraphModel {
        GraphModel {
            labels: Seq::empty(),
            adj: Seq::empty(),
            rev: Seq::empty(),
            edge_count: 0,
        }
    }

    /// Number of nodes.
    pub open spec fn node_count(self) -> nat {
        self.labels.len()
    }

    /// Whether some node carries label `l`.
    pub open spec fn contains_label(self, l: Seq<char>) -> bool {
        exists|j: int| 0 <= j < self.labels.len() && self.labels[j] == l
    }

    /// The index of the node labelled `l` (meaningful only when present,
    /// and unique under `wf`).
    pub open spec fn label_index(self, l: Seq<char>) -> int {
        choose|j: int| 0 <= j < self.labels.len() && self.labels[j] == l
    }

    /// Whether the edge (u, v) is present.
    pub open spec fn has_edge(self, u: int, v: int) -> bool {
        &&& 0 <= u < self.labels.len()
        &&& 0 <= v < self.labels.len()
        &&& self.adj[u].contains(v as usize)
    }

    /// Well-formedness: the invariant every reachable graph satisfies.
    ///
    /// - the three per-node sequences are index-aligned;
    /// - labels are pairwise distinct (label -> index is a bijection);
    /// - adjacency entries are in-range node indices;
    /// - adjacency lists are duplicate-free (edge set semantics);
    /// - forward and reverse adjacency are in lock-step:
    ///   v is a successor of u exactly when u is a predecessor of v;
    /// - `edge_count` equals the total length of the forward lists.
    pub open spec fn wf(self) -> bool {
        let n = self.labels.len() as int;
        &&& self.labels.len() <= usize::MAX
        &&& self.adj.len() == n
        &&& self.rev.len() == n
        &&& forall|i: int, j: int| 0 <= i < j < n ==> self.labels[i] != self.labels[j]
        &&& forall|u: int, k: int|
            0 <= u < n && 0 <= k < self.adj[u].len() ==> (#[trigger] self.adj[u][k]) < n
        &&& forall|v: int, k: int|
            0 <= v < n && 0 <= k < self.rev[v].len() ==> (#[trigger] self.rev[v][k]) < n
        &&& forall|u: int| 0 <= u < n ==> (#[trigger] self.adj[u]).no_duplicates()
        &&& forall|v: int| 0 <= v < n ==> (#[trigger] self.rev[v]).no_duplicates()
        &&& forall|u: int, v: int|
            0 <= u < n && 0 <= v < n ==> (self.adj[u].contains(v as usize) <==> (
            #[trigger] self.rev[v].contains(u as usize)))
        &&& self.edge_count == sum_lens(self.adj)
    }

    /// The model after `addNode(l)`, with the index the call returns.
    /// Idempotent: an existing label leaves the graph unchanged and returns
    /// its index; a fresh label is appended with empty adjacency.
    pub open spec fn add_node_spec(self, l: Seq<char>) -> (GraphModel, int) {
        if self.contains_label(l) {
            (self, self.label_index(l))
        } else {
            (
                GraphModel {
                    labels: self.labels.push(l),
                    adj: self.adj.push(Seq::empty()),
                    rev: self.rev.push(Seq::empty()),
                    edge_count: self.edge_count,
                },
                self.labels.len() as int,
            )
        }
    }

    /// The model after `addEdge(u, v)`: a no-op when an index is out of
    /// range or the edge already exists; otherwise both adjacency lists
    /// grow in lock-step and the edge counter increments.
    pub open spec fn add_edge_spec(self, u: usize, v: usize) -> GraphModel {
        if u < self.labels.len() && v < self.labels.len() && !self.adj[u as int].contains(v) {
            GraphModel {
                labels: self.labels,
                adj: self.adj.update(u as int, self.adj[u as int].push(v)),
                rev: self.rev.update(v as int, self.rev[v as int].push(u)),
                edge_count: self.edge_count + 1,
            }
        } else {
            self
        }
    }
}

/// Total length of a sequence of sequences (the number of edges stored
/// across all forward adjacency lists).
pub open spec fn sum_lens(s: Seq<Seq<usize>>) -> nat
    decreases s.len(),
{
    if s.len() == 0 {
        0
    } else {
        sum_lens(s.drop_last()) + s.last().len()
    }
}

/// A position holding label `l` in a well-formed graph is the unique one:
/// `label_index` returns exactly it.
pub proof fn lemma_label_index_unique(m: GraphModel, l: Seq<char>, i: int)
    requires
        m.wf(),
        0 <= i < m.labels.len(),
        m.labels[i] == l,
    ensures
        m.contains_label(l),
        m.label_index(l) == i,
{
    assert(m.contains_label(l));
    let j = m.label_index(l);
    assert(0 <= j < m.labels.len() && m.labels[j] == l);
    if j < i {
        assert(m.labels[j] != m.labels[i]);
    } else {
        if i < j {
            assert(m.labels[i] != m.labels[j]);
        }
    }
}

/// `add_node_spec` preserves well-formedness; the new label is present at
/// the returned index, and the edges are untouched.
pub proof fn lemma_add_node_spec_wf(m: GraphModel, l: Seq<char>)
    requires
        m.wf(),
        m.labels.len() < usize::MAX,
    ensures
        m.add_node_spec(l).0.wf(),
        m.add_node_spec(l).0.contains_label(l),
        0 <= m.add_node_spec(l).1 < m.add_node_spec(l).0.labels.len(),
        m.add_node_spec(l).0.labels[m.add_node_spec(l).1] == l,
        m.add_node_spec(l).0.edge_count == m.edge_count,
        m.contains_label(l) ==> m.add_node_spec(l).0 == m,
        !m.contains_label(l) ==> m.add_node_spec(l).0.labels == m.labels.push(l)
            && m.add_node_spec(l).1 == m.labels.len(),
{
    if m.contains_label(l) {
        let j = m.label_index(l);
        assert(0 <= j < m.labels.len() && m.labels[j] == l);
    } else {
        let m2 = m.add_node_spec(l).0;
        let n = m.labels.len() as int;
        assert(m2.labels[n] == l);
        assert(m2.adj.drop_last() =~~= m.adj);
        assert(sum_lens(m2.adj) == sum_lens(m.adj));
        assert forall|u: int, v: int|
            0 <= u < n + 1 && 0 <= v < n + 1 implies (m2.adj[u].contains(v as usize) <==> (
        #[trigger] m2.rev[v].contains(u as usize))) by {
            if u < n && v < n {
                assert(m.adj[u].contains(v as usize) <==> m.rev[v].contains(u as usize));
            }
        }
        assert(m2.wf());
    }
}

/// `add_edge_spec` preserves well-formedness; it never touches the labels,
/// adds exactly the requested edge when both endpoints are in range and the
/// edge is new, and otherwise changes nothing.
pub proof fn lemma_add_edge_spec_wf(m: GraphModel, u: usize, v: usize)
    requires
        m.wf(),
    ensures
        m.add_edge_spec(u, v).wf(),
        m.add_edge_spec(u, v).labels == m.labels,
        m.add_edge_spec(u, v).edge_count == m.edge_count + (if u < m.labels.len() && v
            < m.labels.len() && !m.has_edge(u as int, v as int) {
            1int
        } else {
            0int
        }),
        forall|x: usize, y: usize|
            #![trigger m.add_edge_spec(u, v).has_edge(x as int, y as int)]
            m.add_edge_spec(u, v).has_edge(x as int, y as int) <==> (m.has_edge(x as int, y as int)
                || (x == u && y == v && u < m.labels.len() && v < m.labels.len())),
{
    broadcast use vstd::seq_lib::group_seq_properties;

    let n = m.labels.len() as int;
    if u < m.labels.len() && v < m.labels.len() && !m.adj[u as int].contains(v) {
        let m2 = m.add_edge_spec(u, v);
        lemma_sum_lens_update(m.adj, u as int, m.adj[u as int].push(v));
        lemma_sum_lens_update(m.rev, v as int, m.rev[v as int].push(u));
        assert(m.adj[u as int].contains((v as int) as usize) <==> m.rev[v as int].contains(
            (u as int) as usize,
        ));
        assert(!m.rev[v as int].contains(u));
        assert forall|x: int| 0 <= x < n implies (#[trigger] m2.adj[x]).no_duplicates() by {
            if x == u as int {
                lemma_push_no_duplicates(m.adj[x], v);
            }
        }
        assert forall|x: int| 0 <= x < n implies (#[trigger] m2.rev[x]).no_duplicates() by {
            if x == v as int {
                lemma_push_no_duplicates(m.rev[x], u);
            }
        }
        assert forall|x: int, y: int| 0 <= x < n && 0 <= y < n implies (m2.adj[x].contains(
            y as usize,
        ) <==> (#[trigger] m2.rev[y].contains(x as usize))) by {
            assert(m.adj[x].contains(y as usize) <==> m.rev[y].contains(x as usize));
        }
        assert(m2.wf());
    }
}

/// Appending an element that is not yet present keeps a sequence
/// duplicate-free.
pub proof fn lemma_push_no_duplicates(s: Seq<usize>, x: usize)
    requires
        s.no_duplicates(),
        !s.contains(x),
    ensures
        s.push(x).no_duplicates(),
{
    let t = s.push(x);
    assert forall|i: int, j: int|
        0 <= i < t.len() && 0 <= j < t.len() && i != j implies t[i] != t[j] by {
        if i < s.len() && j < s.len() {
            assert(s[i] == t[i] && s[j] == t[j]);
        } else if j == s.len() as int {
            assert(t[i] == s[i] && t[j] == x);
            if s[i] == x {
                assert(s.contains(x));
            }
        } else {
            assert(t[j] == s[j] && t[i] == x);
            if s[j] == x {
                assert(s.contains(x));
            }
        }
    }
}

/// Replacing one inner sequence changes the total length by the
/// difference of the two lengths.
pub proof fn lemma_sum_lens_update(s: Seq<Seq<usize>>, u: int, t: Seq<usize>)
    requires
        0 <= u < s.len(),
    ensures
        sum_lens(s.update(u, t)) + s[u].len() == sum_lens(s) + t.len(),
    decreases s.len(),
{
    let s2 = s.update(u, t);
    if u == s.len() - 1 {
        assert(s2.drop_last() =~~= s.drop_last());
        assert(s2.last() == t);
    } else {
        assert(s2.drop_last() =~~= s.drop_last().update(u, t));
        assert(s2.last() == s.last());
        lemma_sum_lens_update(s.drop_last(), u, t);
    }
}

} // verus!
