//! Specification of the snapshot: the external form of a graph, holding
//! the labels in index order and the edges as index pairs. Exporting
//! enumerates every forward list in source order; importing replays
//! `addNode` on every label and then `addEdge` on every pair, so an
//! import tolerates out-of-range or duplicate pairs (they are dropped by
//! `addEdge`'s own contract).

use vstd::prelude::*;

use crate::model::GraphModel;
use crate::model::lemma_add_edge_spec_wf;
use crate::model::lemma_add_node_spec_wf;
use crate::model::sum_lens;

verus! {

/// Ghost model of a snapshot: labels by index, edges as (source, target).
pub struct SnapModel {
    pub labels: Seq<Seq<char>>,
    pub edges: Seq<(usize, usize)>,
}

impl GraphModel {
    /// The edges leaving `u`, as (source, target) pairs in insertion order.
    pub open spec fn pair_seq(self, u: int) -> Seq<(usize, usize)> {
        Seq::new(self.adj[u].len(), |k: int| (u as usize, self.adj[u][k]))
    }

    /// All edges whose source is below `u`, concatenated in source order.
    pub open spec fn edges_up_to(self, u: int) -> Seq<(usize, usize)>
        decreases u,
    {
        if u <= 0 {
            Seq::empty()
        } else {
            self.edges_up_to(u - 1) + self.pair_seq(u - 1)
        }
    }

    /// Every edge of the graph, enumerated source by source.
    pub open spec fn edges_seq(self) -> Seq<(usize, usize)> {
        self.edges_up_to(self.labels.len() as int)
    }

    /// What `exportSnapshot` produces.
    pub open spec fn export_spec(self) -> SnapModel {
        SnapModel { labels: self.labels, edges: self.edges_seq() }
    }
}

/// The graph built by replaying `addNode` on each label in order.
pub open spec fn replay_nodes(labels: Seq<Seq<char>>) -> GraphModel
    decreases labels.len(),
{
    if labels.len() == 0 {
        GraphModel::empty()
    } else {
        replay_nodes(labels.drop_last()).add_node_spec(labels.last()).0
    }
}

/// The graph built from `m` by replaying `addEdge` on each pair in order.
pub open spec fn replay_edges(m: GraphModel, edges: Seq<(usize, usize)>) -> GraphModel
    decreases edges.len(),
{
    if edges.len() == 0 {
        m
    } else {
        replay_edges(m, edges.drop_last()).add_edge_spec(edges.last().0, edges.last().1)
    }
}

/// What `importSnapshot` produces: replay every label, then every pair.
pub open spec fn import_spec(s: SnapModel) -> GraphModel {
    replay_edges(replay_nodes(s.labels), s.edges)
}

/// The edge enumeration up to source `u`: its length is the total length
/// of the first `u` forward lists, its pairs are in range with sources
/// below `u`, it is duplicate-free, and it holds exactly the edges whose
/// source is below `u`.
pub proof fn lemma_edges_up_to_props(m: GraphModel, u: int)
    requires
        m.wf(),
        0 <= u <= m.labels.len(),
    ensures
        m.edges_up_to(u).len() == sum_lens(m.adj.take(u)),
        forall|k: int|
            0 <= k < m.edges_up_to(u).len() ==> ((#[trigger] m.edges_up_to(u)[k]).0 < u
                && m.edges_up_to(u)[k].1 < m.labels.len()),
        forall|x: usize, y: usize|
            m.edges_up_to(u).contains((x, y)) <==> ((x as int) < u && m.adj[x as int].contains(y)),
        m.edges_up_to(u).no_duplicates(),
    decreases u,
{
    if u == 0 {
        assert(m.adj.take(0) =~~= Seq::<Seq<usize>>::empty());
        assert(sum_lens(m.adj.take(0)) == 0);
    } else {
        lemma_edges_up_to_props(m, u - 1);
        let a = m.edges_up_to(u - 1);
        let b = m.pair_seq(u - 1);
        let e = m.edges_up_to(u);
        assert(e == a + b);
        assert(m.adj.take(u).drop_last() =~~= m.adj.take(u - 1));
        assert(m.adj.take(u).last() == m.adj[u - 1]);
        assert(sum_lens(m.adj.take(u)) == sum_lens(m.adj.take(u - 1)) + m.adj[u - 1].len());
        assert(e.len() == a.len() + b.len());
        assert forall|k: int| 0 <= k < e.len() implies ((#[trigger] e[k]).0 < u && e[k].1
            < m.labels.len()) by {
            if k < a.len() {
                assert(e[k] == a[k]);
            } else {
                assert(e[k] == b[k - a.len()]);
                assert(b[k - a.len()] == ((u - 1) as usize, m.adj[u - 1][k - a.len()]));
            }
        }
        assert(e.no_duplicates()) by {
            assert forall|i: int, j: int|
                0 <= i < e.len() && 0 <= j < e.len() && i != j implies e[i] != e[j] by {
                if i < a.len() && j < a.len() {
                    assert(a[i] != a[j]);
                } else if i >= a.len() && j >= a.len() {
                    assert(e[i] == b[i - a.len()] && e[j] == b[j - a.len()]);
                    assert(m.adj[u - 1].no_duplicates());
                    assert(m.adj[u - 1][i - a.len()] != m.adj[u - 1][j - a.len()]);
                } else if i < a.len() && j >= a.len() {
                    assert(e[i] == a[i] && e[j] == b[j - a.len()]);
                    assert(a[i].0 < u - 1 && b[j - a.len()].0 == (u - 1) as usize);
                } else {
                    assert(e[j] == a[j] && e[i] == b[i - a.len()]);
                    assert(a[j].0 < u - 1 && b[i - a.len()].0 == (u - 1) as usize);
                }
            }
        }
        assert forall|x: usize, y: usize| #[trigger]
            e.contains((x, y)) implies ((x as int) < u && m.adj[x as int].contains(y)) by {
            let k = choose|k: int| 0 <= k < e.len() && e[k] == (x, y);
            if k < a.len() {
                assert(a.contains((x, y)));
            } else {
                assert(e[k] == b[k - a.len()]);
                assert(x == (u - 1) as usize && y == m.adj[u - 1][k - a.len()]);
                assert(m.adj[u - 1].contains(y));
            }
        }
        assert forall|x: usize, y: usize|
            ((x as int) < u && m.adj[x as int].contains(y)) implies #[trigger] e.contains(
            (x, y),
        ) by {
            if (x as int) < u - 1 {
                assert(a.contains((x, y)));
                let k = choose|k: int| 0 <= k < a.len() && a[k] == (x, y);
                assert(e[k] == (x, y));
            } else {
                let k = choose|k: int| 0 <= k < m.adj[u - 1].len() && (#[trigger] m.adj[u - 1][k])
                    == y;
                assert(b[k] == (x, y));
                assert(e[a.len() + k] == (x, y));
            }
        }
    }
}

/// The full edge enumeration of a well-formed graph: one pair per edge,
/// duplicate-free, in range, and `edge_count` pairs in total.
pub proof fn lemma_edges_seq_props(m: GraphModel)
    requires
        m.wf(),
    ensures
        m.edges_seq().len() == m.edge_count,
        forall|k: int|
            0 <= k < m.edges_seq().len() ==> ((#[trigger] m.edges_seq()[k]).0 < m.labels.len()
                && m.edges_seq()[k].1 < m.labels.len()),
        forall|x: usize, y: usize|
            m.edges_seq().contains((x, y)) <==> m.has_edge(x as int, y as int),
        m.edges_seq().no_duplicates(),
{
    let n = m.labels.len() as int;
    lemma_edges_up_to_props(m, n);
    assert(m.adj.take(n) =~~= m.adj);
    assert forall|x: usize, y: usize| #[trigger]
        m.edges_seq().contains((x, y)) implies m.has_edge(x as int, y as int) by {
        assert((x as int) < n && m.adj[x as int].contains(y));
        let k = choose|k: int| 0 <= k < m.adj[x as int].len() && m.adj[x as int][k] == y;
        assert(m.adj[x as int][k] < m.labels.len());
    }
}

/// Replaying distinct labels into an empty graph reproduces exactly those
/// labels, with no edges.
pub proof fn lemma_replay_nodes(labels: Seq<Seq<char>>)
    requires
        forall|i: int, j: int| 0 <= i < j < labels.len() ==> labels[i] != labels[j],
        labels.len() <= usize::MAX,
    ensures
        replay_nodes(labels).wf(),
        replay_nodes(labels).labels == labels,
        replay_nodes(labels).edge_count == 0,
        forall|x: int|
            0 <= x < labels.len() ==> (#[trigger] replay_nodes(labels).adj[x]).len() == 0,
    decreases labels.len(),
{
    if labels.len() == 0 {
        assert(replay_nodes(labels) == GraphModel::empty());
        assert(GraphModel::empty().wf()) by {
            assert(sum_lens(GraphModel::empty().adj) == 0);
        }
        assert(replay_nodes(labels).labels =~~= labels);
    } else {
        let prefix = labels.drop_last();
        let l = labels.last();
        lemma_replay_nodes(prefix);
        let g1 = replay_nodes(prefix);
        assert(!g1.contains_label(l)) by {
            if g1.contains_label(l) {
                let j = choose|j: int| 0 <= j < g1.labels.len() && g1.labels[j] == l;
                assert(labels[j] == labels[labels.len() - 1]);
            }
        }
        lemma_add_node_spec_wf(g1, l);
        let g2 = g1.add_node_spec(l).0;
        assert(replay_nodes(labels) == g2);
        assert(g2.labels =~~= labels);
        assert forall|x: int| 0 <= x < labels.len() implies (#[trigger] g2.adj[x]).len() == 0 by {
            if x < prefix.len() {
                assert(g2.adj[x] == g1.adj[x]);
            } else {
                assert(g2.adj[x] == Seq::<usize>::empty());
            }
        }
    }
}

/// Replaying a duplicate-free, in-range list of pairs into an edgeless
/// graph adds exactly those edges, one count per pair.
pub proof fn lemma_replay_edges(g0: GraphModel, edges: Seq<(usize, usize)>)
    requires
        g0.wf(),
        forall|x: int| 0 <= x < g0.labels.len() ==> (#[trigger] g0.adj[x]).len() == 0,
        edges.no_duplicates(),
        forall|k: int|
            0 <= k < edges.len() ==> ((#[trigger] edges[k]).0 < g0.labels.len() && edges[k].1
                < g0.labels.len()),
    ensures
        replay_edges(g0, edges).wf(),
        replay_edges(g0, edges).labels == g0.labels,
        replay_edges(g0, edges).edge_count == g0.edge_count + edges.len(),
        forall|x: usize, y: usize|
            replay_edges(g0, edges).has_edge(x as int, y as int) <==> edges.contains((x, y)),
    decreases edges.len(),
{
    broadcast use vstd::seq_lib::group_seq_properties;

    if edges.len() == 0 {
        assert forall|x: usize, y: usize|
            !(replay_edges(g0, edges).has_edge(x as int, y as int)) && !(edges.contains(
            (x, y),
        )) by {
            if g0.has_edge(x as int, y as int) {
                assert(g0.adj[x as int].contains(y));
                assert(g0.adj[x as int].len() == 0);
            }
        }
    } else {
        let prefix = edges.drop_last();
        let (u, v) = edges.last();
        lemma_replay_edges(g0, prefix);
        let g1 = replay_edges(g0, prefix);
        let g2 = g1.add_edge_spec(u, v);
        assert(replay_edges(g0, edges) == g2);
        assert(!prefix.contains((u, v))) by {
            if prefix.contains((u, v)) {
                let j = choose|j: int| 0 <= j < prefix.len() && prefix[j] == (u, v);
                assert(edges[j] == edges[edges.len() - 1]);
            }
        }
        assert(edges[edges.len() - 1] == (u, v));
        assert(u < g1.labels.len() && v < g1.labels.len());
        assert(!g1.has_edge(u as int, v as int));
        lemma_add_edge_spec_wf(g1, u, v);
        assert(g2.edge_count == g1.edge_count + 1);
        assert(edges =~~= prefix.push((u, v)));
        assert forall|x: usize, y: usize|
            g2.has_edge(x as int, y as int) <==> #[trigger] edges.contains((x, y)) by {
            assert(g2.has_edge(x as int, y as int) <==> (g1.has_edge(x as int, y as int) || (x == u
                && y == v && u < g1.labels.len() && v < g1.labels.len())));
            assert(prefix.push((u, v)).contains((x, y)) <==> ((u, v) == (x, y)
                || prefix.contains((x, y))));
        }
    }
}

} // verus!
