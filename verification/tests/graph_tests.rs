use frank_wolfe::common::BUNDLE_IDX_EMPTY;
use frank_wolfe::graph::{Edge, Graph, GraphError, GraphOps, Node};
use frank_wolfe::reachability::reachable_nodes;
use rustc_hash::FxHashSet;
use std::cell::RefCell;

#[derive(Clone, Debug, PartialEq)]
struct Params {
    ff_time: f64,
    capacity: f64,
}

fn params() -> Params {
    Params { ff_time: 1.0, capacity: 1.0 }
}

#[test]
fn filters_directed_edges_with_cycles_and_alternative_paths() {
    let mut graph = Graph::empty();
    for _ in 0..5 {
        graph.add_node(true);
    }
    // Reject the direct path to 2, but allow reaching it through 1.
    // Node 3 lies behind a rejected edge; node 4 has only an incoming path to 0.
    for (tail, head) in [(0, 2), (0, 1), (1, 2), (2, 0), (2, 3), (4, 0), (1, 1)] {
        graph.add_edge(tail, head, BUNDLE_IDX_EMPTY, params()).unwrap();
    }
    let examined = RefCell::new(Vec::new());
    let reachable = reachable_nodes(&graph, 0, |edge_idx| {
        examined.borrow_mut().push(edge_idx);
        edge_idx != 0 && edge_idx != 4
    });
    assert_eq!(reachable, [0, 1, 2].into_iter().collect::<FxHashSet<_>>());
    let mut examined = examined.into_inner();
    examined.sort_unstable();
    assert_eq!(examined, [0, 1, 2, 3, 4, 6]);
    assert_eq!(
        reachable_nodes(&graph, 0, |_| false),
        [0].into_iter().collect::<FxHashSet<_>>()
    );
    assert_eq!(
        reachable_nodes(&graph, 3, |_| true),
        [3].into_iter().collect::<FxHashSet<_>>()
    );
}

#[test]
fn add_edge_lists_edge_at_both_ends() {
    let mut graph: Graph<Params> = Graph::empty();
    assert_eq!(graph.add_node(true), 0);
    assert_eq!(graph.add_node(false), 1);
    assert_eq!(graph.add_edge(0, 1, 3, params()), Ok(0));
    assert_eq!(graph.add_edge(1, 1, BUNDLE_IDX_EMPTY, params()), Ok(1));
    assert_eq!(graph.num_edges(), 2);
    assert_eq!(graph.num_nodes(), 2);
    assert_eq!(graph.outgoing_edges(0), &[0]);
    assert_eq!(graph.incoming_edges(1), &[0, 1]);
    assert_eq!(graph.outgoing_edges(1), &[1]);
    assert_eq!(graph.edge_tail(0), 0);
    assert_eq!(graph.edge_head(0), 1);
    assert_eq!(graph.edge_bundle(0), 3);
    assert!(graph.node_allows_through_traffic(0));
    assert!(!graph.node_allows_through_traffic(1));
}

#[test]
fn add_edge_rejects_unknown_nodes() {
    let mut graph: Graph<Params> = Graph::empty();
    graph.add_node(true);
    assert_eq!(
        graph.add_edge(1, 0, BUNDLE_IDX_EMPTY, params()),
        Err(GraphError::TailOutOfBounds { tail: 1, num_nodes: 1 })
    );
    assert_eq!(
        graph.add_edge(0, 5, BUNDLE_IDX_EMPTY, params()),
        Err(GraphError::HeadOutOfBounds { head: 5, num_nodes: 1 })
    );
    assert_eq!(graph.num_edges(), 0);
}

#[test]
fn permits_and_edge_updates() {
    let mut graph: Graph<Params> = Graph::empty();
    graph.add_node(true);
    graph.add_node(true);
    graph.add_edge(0, 1, BUNDLE_IDX_EMPTY, params()).unwrap();
    assert_eq!(graph.add_permit(params()), 0);
    assert_eq!(graph.num_permits(), 1);
    graph.set_permit_params(0, Params { ff_time: 0.0, capacity: 999999.0 });
    assert_eq!(graph.permit(0).params.capacity, 999999.0);
    graph.set_edge_bundle(0, 7);
    assert_eq!(graph.edge(0).bundle(), 7);
    graph.set_edge_params(0, Params { ff_time: 2.5, capacity: 4.0 });
    assert_eq!(graph.edge(0).params().ff_time, 2.5);
    assert_eq!(graph.edge(0).tail(), 0);
    assert_eq!(graph.edge(0).head(), 1);
}

#[test]
fn new_accepts_consistent_lists() {
    let edges = vec![Edge::new(0, 1, 0, ()), Edge::new(1, 0, 0, ()), Edge::new(1, 1, 0, ())];
    let nodes = vec![
        Node::new(vec![1], vec![0], true),
        Node::new(vec![2, 0], vec![2, 1], true),
    ];
    let graph = Graph::new(edges, nodes).unwrap();
    assert_eq!(graph.num_edges(), 3);
    assert_eq!(graph.incoming_edges(1), &[2, 0]);
}

#[test]
fn new_reports_first_violation() {
    let edges = vec![Edge::new(0, 2, 0, ())];
    let nodes = vec![Node::new(vec![], vec![0], true), Node::new(vec![0], vec![], true)];
    assert_eq!(
        Graph::new(edges, nodes).unwrap_err(),
        GraphError::EdgeHeadOutOfBounds { edge_idx: 0, head: 2, num_nodes: 2 }
    );
    let edges = vec![Edge::new(0, 1, 0, ())];
    let nodes = vec![Node::new(vec![], vec![0, 0], true), Node::new(vec![0], vec![], true)];
    assert_eq!(
        Graph::new(edges, nodes).unwrap_err(),
        GraphError::EdgeNotOnceOutgoing { edge_idx: 0, tail: 0 }
    );
    let edges = vec![Edge::new(0, 1, 0, ())];
    let nodes = vec![Node::new(vec![], vec![0], true), Node::new(vec![], vec![], true)];
    assert_eq!(
        Graph::new(edges, nodes).unwrap_err(),
        GraphError::EdgeNotOnceIncoming { edge_idx: 0, head: 1 }
    );
    let edges = vec![Edge::new(0, 1, 0, ())];
    let nodes = vec![Node::new(vec![3], vec![0], true), Node::new(vec![0], vec![], true)];
    assert_eq!(
        Graph::new(edges, nodes).unwrap_err(),
        GraphError::IncomingEdgeOutOfBounds { node_idx: 0, edge_idx: 3, num_edges: 1 }
    );
    let edges = vec![Edge::new(0, 1, 0, ())];
    let nodes = vec![Node::new(vec![0], vec![0], true), Node::new(vec![0], vec![], true)];
    assert_eq!(
        Graph::new(edges, nodes).unwrap_err(),
        GraphError::IncomingEdgeHeadMismatch { node_idx: 0, edge_idx: 0 }
    );
    let edges = vec![Edge::new(0, 1, 0, ())];
    let nodes = vec![Node::new(vec![], vec![0], true), Node::new(vec![0], vec![0], true)];
    assert_eq!(
        Graph::new(edges, nodes).unwrap_err(),
        GraphError::OutgoingEdgeTailMismatch { node_idx: 1, edge_idx: 0 }
    );
    let edges = vec![Edge::new(3, 1, 0, ())];
    let nodes = vec![Node::new(vec![], vec![], true), Node::new(vec![], vec![], true)];
    assert_eq!(
        Graph::new(edges, nodes).unwrap_err(),
        GraphError::EdgeTailOutOfBounds { edge_idx: 0, tail: 3, num_nodes: 2 }
    );
    let edges: Vec<Edge<()>> = vec![];
    let nodes = vec![Node::new(vec![], vec![5], true)];
    assert_eq!(
        Graph::new(edges, nodes).unwrap_err(),
        GraphError::OutgoingEdgeOutOfBounds { node_idx: 0, edge_idx: 5, num_edges: 0 }
    );
}

#[test]
fn graph_error_messages() {
    assert_eq!(
        GraphError::TailOutOfBounds { tail: 7, num_nodes: 3 }.message(),
        "Tail node index 7 out of bounds (num nodes: 3)"
    );
    assert_eq!(
        GraphError::HeadOutOfBounds { head: 12, num_nodes: 0 }.message(),
        "Head node index 12 out of bounds (num nodes: 0)"
    );
    assert_eq!(
        GraphError::EdgeTailOutOfBounds { edge_idx: 4, tail: 9, num_nodes: 2 }.message(),
        "Edge 4 has tail node index 9 out of bounds (num nodes: 2)"
    );
    assert_eq!(
        GraphError::EdgeHeadOutOfBounds { edge_idx: 0, head: 2, num_nodes: 2 }.message(),
        "Edge 0 has head node index 2 out of bounds (num nodes: 2)"
    );
    assert_eq!(
        GraphError::EdgeNotOnceOutgoing { edge_idx: 5, tail: 1 }.message(),
        "Edge 5 is not listed exactly once in outgoing edges of its tail node 1"
    );
    assert_eq!(
        GraphError::EdgeNotOnceIncoming { edge_idx: 5, head: 10 }.message(),
        "Edge 5 is not listed exactly once in incoming edges of its head node 10"
    );
    assert_eq!(
        GraphError::IncomingEdgeOutOfBounds { node_idx: 3, edge_idx: 8, num_edges: 8 }.message(),
        "Node 3 has incoming edge index 8 out of bounds (num edges: 8)"
    );
    assert_eq!(
        GraphError::IncomingEdgeHeadMismatch { node_idx: 3, edge_idx: 1 }.message(),
        "Node 3 has incoming edge index 1 whose head is not equal to the node index"
    );
    assert_eq!(
        GraphError::OutgoingEdgeOutOfBounds { node_idx: 0, edge_idx: 100, num_edges: 99 }.message(),
        "Node 0 has outgoing edge index 100 out of bounds (num edges: 99)"
    );
    assert_eq!(
        GraphError::OutgoingEdgeTailMismatch { node_idx: 2, edge_idx: 0 }.message(),
        "Node 2 has outgoing edge index 0 whose tail is not equal to the node index"
    );
}
