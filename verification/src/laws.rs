//! The library's laws: properties that relate several operations, proved
//! once and for all over the ghost model that every method's contract is
//! stated against.

use vstd::prelude::*;

use crate::model::GraphModel;
use crate::model::lemma_add_edge_spec_wf;
use crate::model::lemma_add_node_spec_wf;
use crate::model::lemma_label_index_unique;
use crate::snapshot::import_spec;
use crate::snapshot::lemma_edges_seq_props;
use crate::snapshot::lemma_replay_edges;
use crate::snapshot::lemma_replay_nodes;
use crate::snapshot::replay_edges;
use crate::snapshot::replay_nodes;

verus! {

/// Adding a node twice with one label: the second call returns the very
/// same index and leaves the graph, in particular `nodeCount`, unchanged.
pub proof fn lemma_add_node_idempotent(m: GraphModel, l: Seq<char>)
    requires
        m.wf(),
        m.node_count() < usize::MAX,
    ensures
        m.add_node_spec(l).0.add_node_spec(l) == m.add_node_spec(l),
        m.add_node_spec(l).0.add_node_spec(l).0.node_count() == m.add_node_spec(l).0.node_count(),
{
    let (m1, i1) = m.add_node_spec(l);
    lemma_add_node_spec_wf(m, l);
    lemma_label_index_unique(m1, l, i1);
    assert(m1.contains_label(l));
    assert(m1.add_node_spec(l) == (m1, i1));
}

/// Adding one edge twice is adding it once: for a valid pair not yet
/// present, the first call increases `edgeCount` by exactly one and the
/// second changes nothing at all.
pub proof fn lemma_add_edge_idempotent(m: GraphModel, u: usize, v: usize)
    requires
        m.wf(),
        u < m.node_count(),
        v < m.node_count(),
    ensures
        m.add_edge_spec(u, v).add_edge_spec(u, v) == m.add_edge_spec(u, v),
        !m.has_edge(u as int, v as int) ==> m.add_edge_spec(u, v).edge_count == m.edge_count + 1,
        m.has_edge(u as int, v as int) ==> m.add_edge_spec(u, v) == m,
{
    broadcast use vstd::seq_lib::group_seq_properties;

    let m1 = m.add_edge_spec(u, v);
    lemma_add_edge_spec_wf(m, u, v);
    if !m.has_edge(u as int, v as int) {
        assert(m1.adj[u as int].contains(v));
    }
}

/// `addEdge` with an out-of-range endpoint changes nothing: not the graph,
/// and in particular neither `nodeCount` nor `edgeCount`.
pub proof fn lemma_add_edge_out_of_range(m: GraphModel, u: usize, v: usize)
    requires
        u >= m.node_count() || v >= m.node_count(),
    ensures
        m.add_edge_spec(u, v) == m,
{
}

/// `inDegree(v)` counts exactly the distinct sources with an edge into
/// `v`: the predecessor list's length equals the cardinality of that set.
pub proof fn lemma_in_degree_counts(m: GraphModel, v: usize)
    requires
        m.wf(),
        v < m.node_count(),
    ensures
        m.rev[v as int].len() == Set::new(
            |u: usize| u < m.node_count() && m.has_edge(u as int, v as int),
        ).len(),
{
    broadcast use vstd::set::group_set_axioms;

    let preds = m.rev[v as int];
    let srcs = Set::new(|u: usize| u < m.node_count() && m.has_edge(u as int, v as int));
    assert(preds.to_set() =~= srcs) by {
        assert forall|u: usize| #[trigger] preds.contains(u) implies (u < m.node_count()
            && m.has_edge(u as int, v as int)) by {
            let k = choose|k: int| 0 <= k < preds.len() && preds[k] == u;
            assert(m.rev[v as int][k] < m.labels.len());
            assert(m.adj[u as int].contains((v as int) as usize) <==> m.rev[v as int].contains(
                (u as int) as usize,
            ));
        }
        assert forall|u: usize|
            u < m.node_count() && m.has_edge(u as int, v as int) implies #[trigger] preds.contains(
            u,
        ) by {
            assert(m.adj[u as int].contains((v as int) as usize) <==> m.rev[v as int].contains(
                (u as int) as usize,
            ));
        }
    }
    preds.unique_seq_to_set();
}

/// `outDegree(u)` counts exactly the distinct targets of edges out of
/// `u`: the successor list's length equals the cardinality of that set.
pub proof fn lemma_out_degree_counts(m: GraphModel, u: usize)
    requires
        m.wf(),
        u < m.node_count(),
    ensures
        m.adj[u as int].len() == Set::new(
            |v: usize| v < m.node_count() && m.has_edge(u as int, v as int),
        ).len(),
{
    broadcast use vstd::set::group_set_axioms;

    let succs = m.adj[u as int];
    let tgts = Set::new(|v: usize| v < m.node_count() && m.has_edge(u as int, v as int));
    assert(succs.to_set() =~= tgts) by {
        assert forall|v: usize| #[trigger] succs.contains(v) implies (v < m.node_count()
            && m.has_edge(u as int, v as int)) by {
            let k = choose|k: int| 0 <= k < succs.len() && succs[k] == v;
            assert(m.adj[u as int][k] < m.labels.len());
        }
    }
    succs.unique_seq_to_set();
}

/// Snapshot round trip: importing what export produced rebuilds a graph
/// with the same labels at the same indices (hence the same `nodeCount`),
/// the same `edgeCount`, and exactly the same edges.
pub proof fn lemma_snapshot_roundtrip(m: GraphModel)
    requires
        m.wf(),
    ensures
        import_spec(m.export_spec()).wf(),
        import_spec(m.export_spec()).labels == m.labels,
        import_spec(m.export_spec()).edge_count == m.edge_count,
        forall|x: usize, y: usize|
            import_spec(m.export_spec()).has_edge(x as int, y as int) <==> m.has_edge(
                x as int,
                y as int,
            ),
{
    let s = m.export_spec();
    lemma_edges_seq_props(m);
    lemma_replay_nodes(m.labels);
    let g0 = replay_nodes(m.labels);
    lemma_replay_edges(g0, s.edges);
    assert(import_spec(s) == replay_edges(g0, s.edges));
}

} // verus!

