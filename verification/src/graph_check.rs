//! Checking the invariants of a graph built from given edges and nodes.

use vstd::prelude::*;
use crate::graph::{
    count_in, edge_violation, edges_violation_from, graph_violation, graph_wf, incoming_violation_from,
    nodes_violation_from, outgoing_violation_from, Edge, Node,
};

verus! {

/// An item occurs in a sequence exactly when it is counted in it.
pub proof fn lemma_count_zero(s: Seq<usize>, x: usize)
    ensures
        (count_in(s, x) == 0) <==> !s.contains(x),
    decreases s.len(),
{
    if s.len() > 0 {
        lemma_count_zero(s.drop_last(), x);
        if s.drop_last().contains(x) {
            let k = choose|k: int| 0 <= k < s.drop_last().len() && s.drop_last()[k] == x;
            assert(s[k] == x);
        }
        if s.contains(x) && s.last() != x {
            let k = choose|k: int| 0 <= k < s.len() && s[k] == x;
            assert(s.drop_last()[k] == x);
        }
    }
}

/// An item that occurs at two positions is counted at least twice.
pub proof fn lemma_count_two(s: Seq<usize>, i: int, j: int)
    requires
        0 <= i < j < s.len(),
        s[i] == s[j],
    ensures
        count_in(s, s[i]) >= 2,
    decreases s.len(),
{
    let t = s.drop_last();
    if j < s.len() - 1 {
        assert(t[i] == s[i] && t[j] == s[j]);
        lemma_count_two(t, i, j);
    } else {
        assert(t[i] == s[i]);
        lemma_count_zero(t, s[i]);
    }
}

/// In a sequence without repetitions, an item that occurs is counted once.
pub proof fn lemma_count_one(s: Seq<usize>, x: usize)
    requires
        s.no_duplicates(),
        s.contains(x),
    ensures
        count_in(s, x) == 1,
    decreases s.len(),
{
    let t = s.drop_last();
    assert(t.no_duplicates());
    if s.last() == x {
        if t.contains(x) {
            let k = choose|k: int| 0 <= k < t.len() && t[k] == x;
            assert(s[k] == s[s.len() - 1]);
        }
        lemma_count_zero(t, x);
    } else {
        let k = choose|k: int| 0 <= k < s.len() && s[k] == x;
        assert(t[k] == x);
        lemma_count_one(t, x);
    }
}

/// The edges from `i` on pass their checks exactly when each of them does.
pub proof fn lemma_edges_from<P>(edges: Seq<Edge<P>>, nodes: Seq<Node>, i: int)
    requires
        0 <= i <= edges.len(),
    ensures
        (edges_violation_from(edges, nodes, i) is None) <==> (forall|e: int|
            i <= e < edges.len() ==> #[trigger] edge_violation(edges, nodes, e) is None),
    decreases edges.len() - i,
{
    if i < edges.len() {
        lemma_edges_from(edges, nodes, i + 1);
    }
}

/// When the edges before `i` pass their checks, the first violation is the first from `i` on.
pub proof fn lemma_edges_prefix<P>(edges: Seq<Edge<P>>, nodes: Seq<Node>, i: int)
    requires
        0 <= i <= edges.len(),
        forall|e: int| 0 <= e < i ==> #[trigger] edge_violation(edges, nodes, e) is None,
    ensures
        edges_violation_from(edges, nodes, 0) == edges_violation_from(edges, nodes, i),
    decreases i,
{
    if i > 0 {
        lemma_edges_prefix(edges, nodes, i - 1);
        assert(edge_violation(edges, nodes, i - 1) is None);
    }
}

/// The incoming edges of `v` from list position `k` on pass their checks
/// exactly when each is an edge that ends at `v`.
pub proof fn lemma_incoming_from<P>(edges: Seq<Edge<P>>, nodes: Seq<Node>, v: int, k: int)
    requires
        0 <= v < nodes.len(),
        0 <= k <= nodes[v].incoming().len(),
    ensures
        (incoming_violation_from(edges, nodes, v, k) is None) <==> (forall|j: int|
            k <= j < nodes[v].incoming().len() ==> #[trigger] nodes[v].incoming()[j] < edges.len()
                && edges[nodes[v].incoming()[j] as int].head_node() == v),
    decreases nodes[v].incoming().len() - k,
{
    if k < nodes[v].incoming().len() {
        lemma_incoming_from(edges, nodes, v, k + 1);
    }
}

/// The outgoing edges of `v` from list position `k` on pass their checks
/// exactly when each is an edge that starts at `v`.
pub proof fn lemma_outgoing_from<P>(edges: Seq<Edge<P>>, nodes: Seq<Node>, v: int, k: int)
    requires
        0 <= v < nodes.len(),
        0 <= k <= nodes[v].outgoing().len(),
    ensures
        (outgoing_violation_from(edges, nodes, v, k) is None) <==> (forall|j: int|
            k <= j < nodes[v].outgoing().len() ==> #[trigger] nodes[v].outgoing()[j] < edges.len()
                && edges[nodes[v].outgoing()[j] as int].tail_node() == v),
    decreases nodes[v].outgoing().len() - k,
{
    if k < nodes[v].outgoing().len() {
        lemma_outgoing_from(edges, nodes, v, k + 1);
    }
}

/// The nodes from `v` on pass their checks exactly when each of them does.
pub proof fn lemma_nodes_from<P>(edges: Seq<Edge<P>>, nodes: Seq<Node>, v: int)
    requires
        0 <= v <= nodes.len(),
    ensures
        (nodes_violation_from(edges, nodes, v) is None) <==> (forall|w: int|
            v <= w < nodes.len() ==> #[trigger] incoming_violation_from(edges, nodes, w, 0) is None
                && outgoing_violation_from(edges, nodes, w, 0) is None),
    decreases nodes.len() - v,
{
    if v < nodes.len() {
        lemma_nodes_from(edges, nodes, v + 1);
    }
}

/// When the nodes before `v` pass their checks, the first node violation is the first from `v` on.
pub proof fn lemma_nodes_prefix<P>(edges: Seq<Edge<P>>, nodes: Seq<Node>, v: int)
    requires
        0 <= v <= nodes.len(),
        forall|w: int| 0 <= w < v ==> #[trigger] incoming_violation_from(edges, nodes, w, 0) is None
            && outgoing_violation_from(edges, nodes, w, 0) is None,
    ensures
        nodes_violation_from(edges, nodes, 0) == nodes_violation_from(edges, nodes, v),
    decreases v,
{
    if v > 0 {
        lemma_nodes_prefix(edges, nodes, v - 1);
        assert(incoming_violation_from(edges, nodes, v - 1, 0) is None);
    }
}

/// When the list entries before `k` pass their checks, the first violation of the list is the first from `k` on.
pub proof fn lemma_incoming_prefix<P>(edges: Seq<Edge<P>>, nodes: Seq<Node>, v: int, k: int)
    requires
        0 <= v < nodes.len(),
        0 <= k <= nodes[v].incoming().len(),
        forall|j: int| 0 <= j < k ==> #[trigger] nodes[v].incoming()[j] < edges.len()
            && edges[nodes[v].incoming()[j] as int].head_node() == v,
    ensures
        incoming_violation_from(edges, nodes, v, 0) == incoming_violation_from(edges, nodes, v, k),
    decreases k,
{
    if k > 0 {
        lemma_incoming_prefix(edges, nodes, v, k - 1);
        assert(nodes[v].incoming()[k - 1] < edges.len());
    }
}

/// When the list entries before `k` pass their checks, the first violation of the list is the first from `k` on.
pub proof fn lemma_outgoing_prefix<P>(edges: Seq<Edge<P>>, nodes: Seq<Node>, v: int, k: int)
    requires
        0 <= v < nodes.len(),
        0 <= k <= nodes[v].outgoing().len(),
        forall|j: int| 0 <= j < k ==> #[trigger] nodes[v].outgoing()[j] < edges.len()
            && edges[nodes[v].outgoing()[j] as int].tail_node() == v,
    ensures
        outgoing_violation_from(edges, nodes, v, 0) == outgoing_violation_from(edges, nodes, v, k),
    decreases k,
{
    if k > 0 {
        lemma_outgoing_prefix(edges, nodes, v, k - 1);
        assert(nodes[v].outgoing()[k - 1] < edges.len());
    }
}

/// Where the checks find no violation, every listed edge is an edge that ends
/// (or starts) at the node that lists it.
proof fn lemma_none_entries_valid<P>(edges: Seq<Edge<P>>, nodes: Seq<Node>)
    requires
        nodes_violation_from(edges, nodes, 0) is None,
    ensures
        forall|v: int, k: int| 0 <= v < nodes.len() && 0 <= k < nodes[v].incoming().len() ==>
            #[trigger] nodes[v].incoming()[k] < edges.len() && edges[nodes[v].incoming()[k] as int].head_node() == v,
        forall|v: int, k: int| 0 <= v < nodes.len() && 0 <= k < nodes[v].outgoing().len() ==>
            #[trigger] nodes[v].outgoing()[k] < edges.len() && edges[nodes[v].outgoing()[k] as int].tail_node() == v,
{
    lemma_nodes_from(edges, nodes, 0);
    assert forall|v: int, k: int| 0 <= v < nodes.len() && 0 <= k < nodes[v].incoming().len() implies
        #[trigger] nodes[v].incoming()[k] < edges.len() && edges[nodes[v].incoming()[k] as int].head_node() == v by {
        assert(incoming_violation_from(edges, nodes, v, 0) is None);
        lemma_incoming_from(edges, nodes, v, 0);
    }
    assert forall|v: int, k: int| 0 <= v < nodes.len() && 0 <= k < nodes[v].outgoing().len() implies
        #[trigger] nodes[v].outgoing()[k] < edges.len() && edges[nodes[v].outgoing()[k] as int].tail_node() == v by {
        assert(incoming_violation_from(edges, nodes, v, 0) is None);
        lemma_outgoing_from(edges, nodes, v, 0);
    }
}

/// Where the checks find no violation, the graph invariants hold.
proof fn lemma_none_implies_wf<P>(edges: Seq<Edge<P>>, nodes: Seq<Node>)
    requires
        graph_violation(edges, nodes) is None,
    ensures
        graph_wf(edges, nodes),
{
    lemma_edges_from(edges, nodes, 0);
    lemma_none_entries_valid(edges, nodes);
    assert forall|e: int| 0 <= e < edges.len() implies #[trigger] edges[e].tail_node() < nodes.len() && edges[e].head_node() < nodes.len() by {
        assert(edge_violation(edges, nodes, e) is None);
    }
    assert forall|v: int| 0 <= v < nodes.len() implies (#[trigger] nodes[v]).incoming().no_duplicates() && nodes[v].outgoing().no_duplicates() by {
        let inc = nodes[v].incoming();
        assert forall|i: int, j: int| 0 <= i < inc.len() && 0 <= j < inc.len() && i != j implies inc[i] != inc[j] by {
            if inc[i] == inc[j] {
                let e = inc[i] as int;
                assert(inc[i] < edges.len() && edges[e].head_node() == v);
                assert(edge_violation(edges, nodes, e) is None);
                if i < j {
                    lemma_count_two(inc, i, j);
                } else {
                    lemma_count_two(inc, j, i);
                }
            }
        }
        let out = nodes[v].outgoing();
        assert forall|i: int, j: int| 0 <= i < out.len() && 0 <= j < out.len() && i != j implies out[i] != out[j] by {
            if out[i] == out[j] {
                let e = out[i] as int;
                assert(out[i] < edges.len() && edges[e].tail_node() == v);
                assert(edge_violation(edges, nodes, e) is None);
                if i < j {
                    lemma_count_two(out, i, j);
                } else {
                    lemma_count_two(out, j, i);
                }
            }
        }
    }
    assert forall|e: int| 0 <= e < edges.len() implies nodes[#[trigger] edges[e].head_node() as int].incoming().contains(e as usize) by {
        assert(edge_violation(edges, nodes, e) is None);
        lemma_count_zero(nodes[edges[e].head_node() as int].incoming(), e as usize);
    }
    assert forall|e: int| 0 <= e < edges.len() implies nodes[#[trigger] edges[e].tail_node() as int].outgoing().contains(e as usize) by {
        assert(edge_violation(edges, nodes, e) is None);
        lemma_count_zero(nodes[edges[e].tail_node() as int].outgoing(), e as usize);
    }
}

/// Where the graph invariants hold, the checks find no violation.
proof fn lemma_wf_implies_none<P>(edges: Seq<Edge<P>>, nodes: Seq<Node>)
    requires
        graph_wf(edges, nodes),
    ensures
        graph_violation(edges, nodes) is None,
{
    lemma_edges_from(edges, nodes, 0);
    lemma_nodes_from(edges, nodes, 0);
    assert forall|e: int| 0 <= e < edges.len() implies #[trigger] edge_violation(edges, nodes, e) is None by {
        assert(edges[e].tail_node() < nodes.len());
        lemma_count_one(nodes[edges[e].tail_node() as int].outgoing(), e as usize);
        lemma_count_one(nodes[edges[e].head_node() as int].incoming(), e as usize);
    }
    assert forall|w: int| 0 <= w < nodes.len() implies #[trigger] incoming_violation_from(edges, nodes, w, 0) is None
        && outgoing_violation_from(edges, nodes, w, 0) is None by {
        lemma_incoming_from(edges, nodes, w, 0);
        lemma_outgoing_from(edges, nodes, w, 0);
    }
}

/// `Graph::new` accepts exactly the edges and nodes that meet the graph
/// invariants: its checks find no violation if and only if the invariants hold.
pub proof fn law_checks_accept_exactly_wf<P>(edges: Seq<Edge<P>>, nodes: Seq<Node>)
    ensures
        (graph_violation(edges, nodes) is None) <==> graph_wf(edges, nodes),
{
    if graph_violation(edges, nodes) is None {
        lemma_none_implies_wf(edges, nodes);
    }
    if graph_wf(edges, nodes) {
        lemma_wf_implies_none(edges, nodes);
    }
}

} // verus!
