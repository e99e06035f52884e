//! The executable graph store: node insertion with stable dense indices,
//! idempotent edge insertion over dual adjacency lists, and structural
//! queries. Every method's contract is stated over the ghost `GraphModel`.

use vstd::prelude::*;

use crate::model::GraphModel;
use crate::model::lemma_push_no_duplicates;
use crate::model::lemma_sum_lens_update;
use crate::model::sum_lens;
use crate::snapshot::SnapModel;
use crate::snapshot::import_spec;
use crate::snapshot::replay_edges;
use crate::snapshot::replay_nodes;
use crate::topo::first_ready_at;
use crate::topo::is_dag_spec;
use crate::topo::kahn_extend;
use crate::topo::kahn_order;
use crate::topo::lemma_consistent_valid;
use crate::topo::lemma_first_ready_at_props;
use crate::topo::lemma_kahn_extend_step;
use crate::topo::lemma_stuck_no_topo;
use crate::topo::ready;
use crate::topo::valid_topo;

verus! {

/// Directed graph with dense, append-only node indices and dual adjacency
/// lists (forward successors and reverse predecessors).
pub struct DiGraph {
    /// Node labels; position = node index.
    nodes: Vec<String>,
    /// Forward adjacency: `adj[u]` holds the successors of `u`.
    adj: Vec<Vec<usize>>,
    /// Reverse adjacency: `rev_adj[v]` holds the predecessors of `v`.
    rev_adj: Vec<Vec<usize>>,
    /// Number of edges.
    edge_count: usize,
}

impl View for DiGraph {
    type V = GraphModel;

    closed spec fn view(&self) -> GraphModel {
        GraphModel {
            labels: Seq::new(self.nodes@.len(), |i: int| self.nodes@[i]@),
            adj: Seq::new(self.adj@.len(), |i: int| self.adj@[i]@),
            rev: Seq::new(self.rev_adj@.len(), |i: int| self.rev_adj@[i]@),
            edge_count: self.edge_count as nat,
        }
    }
}

/// Linear scan for a label; `Some(i)` is the first position holding `key`.
fn find_label(nodes: &Vec<String>, key: &String) -> (r: Option<usize>)
    ensures
        match r {
            Some(i) => i < nodes@.len() && nodes@[i as int]@ == key@,
            None => forall|j: int| 0 <= j < nodes@.len() ==> nodes@[j]@ != key@,
        },
{
    let mut i: usize = 0;
    while i < nodes.len()
        invariant
            i <= nodes@.len(),
            forall|j: int| 0 <= j < i ==> nodes@[j]@ != key@,
        decreases nodes@.len() - i,
    {
        if nodes[i] == *key {
            return Some(i);
        }
        i += 1;
    }
    None
}

/// Linear membership scan over a list of node indices.
fn vec_contains(list: &Vec<usize>, x: usize) -> (b: bool)
    ensures
        b == list@.contains(x),
{
    let mut i: usize = 0;
    while i < list.len()
        invariant
            i <= list@.len(),
            forall|j: int| 0 <= j < i ==> list@[j] != x,
        decreases list@.len() - i,
    {
        if list[i] == x {
            return true;
        }
        i += 1;
    }
    false
}

impl DiGraph {
    /// The graph's invariant (see `GraphModel::wf`).
    pub open spec fn wf(&self) -> bool {
        self@.wf()
    }

    /// Create an empty graph.
    pub fn new() -> (g: DiGraph)
        ensures
            g.wf(),
            g@ == GraphModel::empty(),
    {
        let g = DiGraph { nodes: Vec::new(), adj: Vec::new(), rev_adj: Vec::new(), edge_count: 0 };
        proof {
            assert(g@.labels =~~= GraphModel::empty().labels);
            assert(g@.adj =~~= GraphModel::empty().adj);
            assert(g@.rev =~~= GraphModel::empty().rev);
        }
        g
    }

    /// Create an empty graph with advisory capacity hints; behaves exactly
    /// like `new` (the hints only affect allocation).
    pub fn with_capacity(node_capacity: usize, edge_capacity: usize) -> (g: DiGraph)
        ensures
            g.wf(),
            g@ == GraphModel::empty(),
    {
        let _ = edge_capacity;
        let g = DiGraph {
            nodes: Vec::with_capacity(node_capacity),
            adj: Vec::with_capacity(node_capacity),
            rev_adj: Vec::with_capacity(node_capacity),
            edge_count: 0,
        };
        proof {
            assert(g@.labels =~~= GraphModel::empty().labels);
            assert(g@.adj =~~= GraphModel::empty().adj);
            assert(g@.rev =~~= GraphModel::empty().rev);
        }
        g
    }

    /// Number of nodes.
    pub fn node_count(&self) -> (n: usize)
        ensures
            n == self@.node_count(),
    {
        self.nodes.len()
    }

    /// Number of edges.
    pub fn edge_count(&self) -> (c: usize)
        ensures
            c == self@.edge_count,
    {
        self.edge_count
    }

    /// Add a node; returns its index. Idempotent: a label already present
    /// keeps its index and the graph is unchanged.
    pub fn add_node(&mut self, id: &str) -> (idx: usize)
        requires
            old(self).wf(),
        ensures
            final(self).wf(),
            final(self)@ == old(self)@.add_node_spec(id@).0,
            idx as int == old(self)@.add_node_spec(id@).1,
            idx < final(self)@.node_count(),
            final(self)@.labels[idx as int] == id@,
    {
        let key: String = id.to_owned();
        let ghost m = self@;
        match find_label(&self.nodes, &key) {
            Some(i) => {
                proof {
                    assert(m.labels[i as int] == id@);
                    assert(m.contains_label(id@));
                    let j = m.label_index(id@);
                    assert(0 <= j < m.labels.len() && m.labels[j] == id@);
                    if j < i as int {
                        assert(m.labels[j] != m.labels[i as int]);
                    } else {
                        if (i as int) < j {
                            assert(m.labels[i as int] != m.labels[j]);
                        }
                    }
                    assert(j == i);
                }
                i
            },
            None => {
                let idx = self.nodes.len();
                self.nodes.push(key);
                self.adj.push(Vec::new());
                self.rev_adj.push(Vec::new());
                proof {
                    vstd::std_specs::vec::axiom_spec_len(&self.nodes);
                    assert(self@.labels.len() <= usize::MAX);
                    assert(!m.contains_label(id@));
                    let m2 = m.add_node_spec(id@).0;
                    assert(self@.labels =~~= m2.labels);
                    assert(self@.adj =~~= m2.adj);
                    assert(self@.rev =~~= m2.rev);
                    assert(self@ == m2);
                    assert(m2.adj.drop_last() =~~= m.adj);
                    assert(sum_lens(m2.adj) == sum_lens(m.adj));
                    assert(self@.wf());
                }
                idx
            },
        }
    }

    /// Add the directed edge `from -> to`. A no-op when an index is out of
    /// range or the edge is already present; otherwise both adjacency lists
    /// grow in lock-step and the edge counter increments.
    pub fn add_edge(&mut self, from: usize, to: usize)
        requires
            old(self).wf(),
            old(self)@.edge_count < usize::MAX,
        ensures
            final(self).wf(),
            final(self)@ == old(self)@.add_edge_spec(from, to),
    {
        let ghost m = self@;
        let n = self.nodes.len();
        if from >= n || to >= n {
            return;
        }
        if vec_contains(&self.adj[from], to) {
            return;
        }
        self.adj[from].push(to);
        self.rev_adj[to].push(from);
        self.edge_count = self.edge_count + 1;
        proof {
            broadcast use vstd::seq_lib::group_seq_properties;

            let m2 = m.add_edge_spec(from, to);
            assert(self@.labels =~~= m2.labels);
            assert(self@.adj =~~= m2.adj);
            assert(self@.rev =~~= m2.rev);
            assert(self@ == m2);
            lemma_sum_lens_update(m.adj, from as int, m.adj[from as int].push(to));
            lemma_sum_lens_update(m.rev, to as int, m.rev[to as int].push(from));
            let nn = m.labels.len() as int;
            assert(!m.adj[from as int].contains(to));
            assert(m.adj[from as int].contains((to as int) as usize) <==> m.rev[to as int].contains(
                (from as int) as usize,
            ));
            assert(!m.rev[to as int].contains(from));
            assert forall|u: int| 0 <= u < nn implies (#[trigger] m2.adj[u]).no_duplicates() by {
                if u == from as int {
                    lemma_push_no_duplicates(m.adj[u], to);
                }
            }
            assert forall|v: int| 0 <= v < nn implies (#[trigger] m2.rev[v]).no_duplicates() by {
                if v == to as int {
                    lemma_push_no_duplicates(m.rev[v], from);
                }
            }
            assert forall|u: int, v: int| 0 <= u < nn && 0 <= v < nn implies (m2.adj[u].contains(
                v as usize,
            ) <==> (#[trigger] m2.rev[v].contains(u as usize))) by {
                assert(m.adj[u].contains(v as usize) <==> m.rev[v].contains(u as usize));
            }
            assert(self@.wf());
        }
    }

    /// Numerator and denominator of the graph's density
    /// `edgeCount / (nodeCount * (nodeCount - 1))`; the denominator is 0
    /// for a graph of zero or one nodes (whose density is defined as 0).
    pub fn density_ratio(&self) -> (r: (u128, u128))
        ensures
            r.0 == self@.edge_count,
            r.1 == if self@.node_count() > 1 {
                self@.node_count() * (self@.node_count() - 1)
            } else {
                0int
            },
    {
        let n = self.nodes.len() as u128;
        let e = self.edge_count as u128;
        if n <= 1 {
            (e, 0)
        } else {
            proof {
                assert(n * (n - 1) < 0x100000000000000000000000000000000) by (nonlinear_arith)
                    requires
                        1 < n <= 0xffffffffffffffff,
                ;
            }
            (e, n * (n - 1))
        }
    }

    /// The label at `idx`, or `None` when the index is out of range.
    pub fn node_id(&self, idx: usize) -> (r: Option<String>)
        ensures
            match r {
                Some(s) => idx < self@.node_count() && s@ == self@.labels[idx as int],
                None => idx >= self@.node_count(),
            },
    {
        if idx < self.nodes.len() {
            Some(self.nodes[idx].clone())
        } else {
            None
        }
    }

    /// The index of the node labelled `id`, or `None` when the label is
    /// unknown.
    pub fn node_idx(&self, id: &str) -> (r: Option<usize>)
        requires
            self.wf(),
        ensures
            match r {
                Some(i) => i < self@.node_count() && self@.labels[i as int] == id@,
                None => !self@.contains_label(id@),
            },
    {
        let key: String = id.to_owned();
        let r = find_label(&self.nodes, &key);
        proof {
            if r is None {
                assert forall|j: int| 0 <= j < self@.labels.len() implies self@.labels[j]
                    != id@ by {
                    assert(self.nodes@[j]@ != key@);
                }
            }
        }
        r
    }

    /// All node labels, in index order.
    pub fn node_ids(&self) -> (r: Vec<String>)
        ensures
            r@.len() == self@.node_count(),
            forall|i: int| 0 <= i < r@.len() ==> (#[trigger] r@[i])@ == self@.labels[i],
    {
        let mut out: Vec<String> = Vec::new();
        let mut i: usize = 0;
        while i < self.nodes.len()
            invariant
                i <= self.nodes@.len(),
                out@.len() == i,
                forall|j: int| 0 <= j < i ==> (#[trigger] out@[j])@ == self.nodes@[j]@,
            decreases self.nodes@.len() - i,
        {
            out.push(self.nodes[i].clone());
            i += 1;
        }
        out
    }

    /// Out-degree of a node: the length of its successor list, or 0 when
    /// the index is out of range.
    pub fn out_degree(&self, node: usize) -> (d: usize)
        requires
            self.wf(),
        ensures
            d == if node < self@.node_count() {
                self@.adj[node as int].len()
            } else {
                0nat
            },
    {
        if node < self.adj.len() {
            self.adj[node].len()
        } else {
            0
        }
    }

    /// In-degree of a node: the length of its predecessor list, or 0 when
    /// the index is out of range.
    pub fn in_degree(&self, node: usize) -> (d: usize)
        requires
            self.wf(),
        ensures
            d == if node < self@.node_count() {
                self@.rev[node as int].len()
            } else {
                0nat
            },
    {
        if node < self.rev_adj.len() {
            self.rev_adj[node].len()
        } else {
            0
        }
    }

    /// All out-degrees, index-aligned with the nodes.
    pub fn out_degrees(&self) -> (r: Vec<usize>)
        requires
            self.wf(),
        ensures
            r@.len() == self@.node_count(),
            forall|u: int| 0 <= u < r@.len() ==> r@[u] == (#[trigger] self@.adj[u]).len(),
    {
        let mut out: Vec<usize> = Vec::new();
        let mut i: usize = 0;
        while i < self.adj.len()
            invariant
                i <= self.adj@.len(),
                out@.len() == i,
                forall|j: int| 0 <= j < i ==> out@[j] == (#[trigger] self.adj@[j])@.len(),
            decreases self.adj@.len() - i,
        {
            out.push(self.adj[i].len());
            i += 1;
        }
        out
    }

    /// All in-degrees, index-aligned with the nodes.
    pub fn in_degrees(&self) -> (r: Vec<usize>)
        requires
            self.wf(),
        ensures
            r@.len() == self@.node_count(),
            forall|v: int| 0 <= v < r@.len() ==> r@[v] == (#[trigger] self@.rev[v]).len(),
    {
        let mut out: Vec<usize> = Vec::new();
        let mut i: usize = 0;
        while i < self.rev_adj.len()
            invariant
                i <= self.rev_adj@.len(),
                out@.len() == i,
                forall|j: int| 0 <= j < i ==> out@[j] == (#[trigger] self.rev_adj@[j])@.len(),
            decreases self.rev_adj@.len() - i,
        {
            out.push(self.rev_adj[i].len());
            i += 1;
        }
        out
    }

    /// The successors of a node in insertion order; empty when the index
    /// is out of range.
    pub fn successors(&self, node: usize) -> (r: Vec<usize>)
        requires
            self.wf(),
        ensures
            node < self@.node_count() ==> r@ == self@.adj[node as int],
            node >= self@.node_count() ==> r@ == Seq::<usize>::empty(),
    {
        if node < self.adj.len() {
            let r = clone_index_list(&self.adj[node]);
            r
        } else {
            let r = Vec::new();
            proof {
                assert(r@ =~= Seq::<usize>::empty());
            }
            r
        }
    }

    /// The predecessors of a node in insertion order; empty when the index
    /// is out of range.
    pub fn predecessors(&self, node: usize) -> (r: Vec<usize>)
        requires
            self.wf(),
        ensures
            node < self@.node_count() ==> r@ == self@.rev[node as int],
            node >= self@.node_count() ==> r@ == Seq::<usize>::empty(),
    {
        if node < self.rev_adj.len() {
            let r = clone_index_list(&self.rev_adj[node]);
            r
        } else {
            let r = Vec::new();
            proof {
                assert(r@ =~= Seq::<usize>::empty());
            }
            r
        }
    }
}

/// Whether every entry of `list` occurs in `done`.
fn all_in(list: &Vec<usize>, done: &Vec<usize>) -> (b: bool)
    ensures
        b == (forall|k: int| 0 <= k < list@.len() ==> done@.contains(#[trigger] list@[k])),
{
    let mut i: usize = 0;
    while i < list.len()
        invariant
            i <= list@.len(),
            forall|k: int| 0 <= k < i ==> done@.contains(#[trigger] list@[k]),
        decreases list@.len() - i,
    {
        if !vec_contains(done, list[i]) {
            proof {
                assert(!done@.contains(list@[i as int]));
            }
            return false;
        }
        i += 1;
    }
    true
}

impl DiGraph {
    /// The least node not yet in `done` all of whose predecessors are in
    /// `done`, if any.
    fn find_ready(&self, done: &Vec<usize>) -> (r: Option<usize>)
        requires
            self.wf(),
        ensures
            r == first_ready_at(self@, done@, 0),
    {
        let ghost m = self@;
        let n = self.nodes.len();
        let mut v: usize = 0;
        while v < n
            invariant
                self.wf(),
                m == self@,
                n == self@.node_count(),
                v <= n,
                first_ready_at(m, done@, 0) == first_ready_at(m, done@, v as int),
            decreases n - v,
        {
            let in_done = vec_contains(done, v);
            if !in_done {
                proof {
                    assert(self@.rev[v as int] == self.rev_adj@[v as int]@);
                }
                if all_in(&self.rev_adj[v], done) {
                    proof {
                        assert(ready(m, done@, v as int));
                        assert(first_ready_at(m, done@, v as int) == Some(v));
                    }
                    return Some(v);
                }
            }
            proof {
                assert(!ready(m, done@, v as int));
                assert(first_ready_at(m, done@, v as int) == first_ready_at(
                    m,
                    done@,
                    v as int + 1,
                ));
            }
            v += 1;
        }
        proof {
            assert(first_ready_at(m, done@, n as int) is None);
        }
        None
    }

    /// Topological sort by Kahn's algorithm with a deterministic
    /// tie-break: the lowest pending zero-in-degree index is placed first.
    /// Returns the unique such ordering, or `None` exactly when the graph
    /// contains a cycle (admits no topological order at all).
    pub fn topological_sort(&self) -> (r: Option<Vec<usize>>)
        requires
            self.wf(),
        ensures
            (r is Some) == is_dag_spec(self@),
            match r {
                Some(order) => order@ == kahn_order(self@) && valid_topo(self@, order@),
                None => true,
            },
    {
        let ghost m = self@;
        let n = self.nodes.len();
        let mut order: Vec<usize> = Vec::new();
        let mut stuck = false;
        proof {
            assert(order@ =~= kahn_extend(m, Seq::empty(), 0));
        }
        while order.len() < n && !stuck
            invariant
                self.wf(),
                m == self@,
                n == self@.node_count(),
                order@.len() <= n,
                order@ == kahn_extend(m, Seq::empty(), order@.len() as nat),
                order@.no_duplicates(),
                forall|k: int| 0 <= k < order@.len() ==> (#[trigger] order@[k]) < n,
                forall|k: int|
                    0 <= k < order@.len() ==> ready(m, order@.take(k), #[trigger] order@[k] as int),
                stuck ==> first_ready_at(m, order@, 0) is None,
            decreases n - order@.len() + (if stuck {
                0int
            } else {
                1int
            }),
        {
            match self.find_ready(&order) {
                Some(v) => {
                    proof {
                        lemma_first_ready_at_props(m, order@, 0);
                        assert(ready(m, order@, v as int));
                        lemma_kahn_extend_step(m, Seq::empty(), order@.len() as nat);
                        assert(kahn_extend(m, Seq::empty(), (order@.len() + 1) as nat) == order@
                            .push(v));
                        lemma_push_no_duplicates(order@, v);
                        assert forall|k: int| 0 <= k <= order@.len() implies order@.push(v).take(k)
                            =~= order@.take(k) by {}
                        assert(order@.push(v).take(order@.len() as int) =~= order@);
                    }
                    order.push(v);
                },
                None => {
                    stuck = true;
                },
            }
        }
        if order.len() == n {
            proof {
                lemma_consistent_valid(m, order@);
                assert(valid_topo(m, order@));
                assert(is_dag_spec(m));
                assert(order@ == kahn_order(m));
            }
            Some(order)
        } else {
            proof {
                assert(stuck);
                lemma_first_ready_at_props(m, order@, 0);
                lemma_stuck_no_topo(m, order@);
            }
            None
        }
    }

    /// Whether the graph is a DAG: true exactly when it admits a
    /// topological order (equivalently, when it has no directed cycle).
    pub fn is_dag(&self) -> (r: bool)
        requires
            self.wf(),
        ensures
            r == is_dag_spec(self@),
    {
        match self.topological_sort() {
            Some(_) => true,
            None => false,
        }
    }
}

/// A snapshot: the external form of a graph. `nodes` holds the labels in
/// index order; `edges` holds the edges as (source, target) index pairs.
pub struct GraphSnapshot {
    /// Labels, one per node, position = index.
    pub nodes: Vec<String>,
    /// Edges as (source index, target index) pairs.
    pub edges: Vec<(usize, usize)>,
}

impl View for GraphSnapshot {
    type V = SnapModel;

    open spec fn view(&self) -> SnapModel {
        SnapModel {
            labels: Seq::new(self.nodes@.len(), |i: int| self.nodes@[i]@),
            edges: self.edges@,
        }
    }
}

impl DiGraph {
    /// Export the graph as a snapshot: labels in index order, edges
    /// enumerated source by source, each source's targets in insertion
    /// order.
    pub fn export_snapshot(&self) -> (s: GraphSnapshot)
        requires
            self.wf(),
        ensures
            s@ == self@.export_spec(),
    {
        let ghost m = self@;
        let labels = self.node_ids();
        let mut edges: Vec<(usize, usize)> = Vec::new();
        let n = self.nodes.len();
        let mut u: usize = 0;
        while u < n
            invariant
                self.wf(),
                m == self@,
                n == self@.node_count(),
                u <= n,
                edges@ == m.edges_up_to(u as int),
            decreases n - u,
        {
            let mut k: usize = 0;
            let deg = self.adj[u].len();
            while k < deg
                invariant
                    self.wf(),
                    m == self@,
                    n == self@.node_count(),
                    u < n,
                    deg == m.adj[u as int].len(),
                    k <= deg,
                    edges@ == m.edges_up_to(u as int) + m.pair_seq(u as int).take(k as int),
                decreases deg - k,
            {
                edges.push((u, self.adj[u][k]));
                proof {
                    assert(edges@ =~= m.edges_up_to(u as int) + m.pair_seq(u as int).take(
                        k as int + 1,
                    ));
                }
                k += 1;
            }
            proof {
                assert(m.pair_seq(u as int).take(deg as int) =~= m.pair_seq(u as int));
                assert(edges@ =~= m.edges_up_to(u as int + 1));
            }
            u += 1;
        }
        let s = GraphSnapshot { nodes: labels, edges };
        proof {
            assert(s@.labels =~~= m.labels);
            assert(s@ == m.export_spec());
        }
        s
    }

    /// Build a fresh graph from a snapshot by replaying `add_node` on
    /// every label and `add_edge` on every pair, in order. Out-of-range
    /// or duplicate pairs are silently dropped by `add_edge`'s contract.
    pub fn import_snapshot(s: &GraphSnapshot) -> (g: DiGraph)
        ensures
            g.wf(),
            g@ == import_spec(s@),
    {
        let mut g = DiGraph::with_capacity(s.nodes.len(), s.edges.len());
        proof {
            assert(s@.labels.take(0) =~~= Seq::<Seq<char>>::empty());
            assert(g@ == replay_nodes(s@.labels.take(0)));
        }
        let mut i: usize = 0;
        while i < s.nodes.len()
            invariant
                i <= s.nodes@.len(),
                s@.labels.len() == s.nodes@.len(),
                g.wf(),
                g@ == replay_nodes(s@.labels.take(i as int)),
                g@.edge_count == 0,
            decreases s.nodes@.len() - i,
        {
            proof {
                assert(s@.labels.take(i as int + 1).drop_last() =~~= s@.labels.take(i as int));
                assert(s@.labels.take(i as int + 1).last() == s@.labels[i as int]);
            }
            g.add_node(s.nodes[i].as_str());
            i += 1;
        }
        proof {
            assert(s@.labels.take(s.nodes@.len() as int) =~~= s@.labels);
            assert(g@ == replay_nodes(s@.labels));
        }
        let ghost g0 = g@;
        let mut j: usize = 0;
        while j < s.edges.len()
            invariant
                j <= s.edges@.len(),
                s@.edges == s.edges@,
                g.wf(),
                g@ == replay_edges(g0, s@.edges.take(j as int)),
                g0.edge_count == 0,
                g@.edge_count <= j,
            decreases s.edges@.len() - j,
        {
            proof {
                assert(s@.edges.take(j as int + 1).drop_last() =~= s@.edges.take(j as int));
                assert(s@.edges.take(j as int + 1).last() == s@.edges[j as int]);
            }
            let (from, to) = s.edges[j];
            g.add_edge(from, to);
            j += 1;
        }
        proof {
            assert(s@.edges.take(s.edges@.len() as int) =~= s@.edges);
            assert(g@ == import_spec(s@));
        }
        g
    }
}

impl Default for DiGraph {
    /// The default graph is the empty graph.
    fn default() -> (g: DiGraph)
        ensures
            g.wf(),
            g@ == GraphModel::empty(),
    {
        DiGraph::new()
    }
}

/// Copy a list of node indices.
fn clone_index_list(list: &Vec<usize>) -> (r: Vec<usize>)
    ensures
        r@ == list@,
{
    let mut out: Vec<usize> = Vec::new();
    let mut i: usize = 0;
    while i < list.len()
        invariant
            i <= list@.len(),
            out@ == list@.take(i as int),
        decreases list@.len() - i,
    {
        out.push(list[i]);
        proof {
            assert(out@ =~= list@.take(i + 1));
        }
        i += 1;
    }
    proof {
        assert(list@.take(list@.len() as int) =~= list@);
    }
    out
}

} // verus!
