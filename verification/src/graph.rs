//! The road network: a directed multigraph with permits.

use vstd::prelude::*;
use crate::common::{BundleIdx, EdgeIdx, NodeIdx, PermitIdx};
use crate::text::{chars_equal_ignoring_case, decimal, equal_ignoring_case, push_decimal, push_text, string_of};
use crate::graph_check::{
    law_checks_accept_exactly_wf, lemma_edges_prefix, lemma_incoming_prefix, lemma_nodes_prefix,
    lemma_outgoing_prefix,
};

verus! {

/// The kind of latency function of an edge or a permit.
#[derive(Debug, PartialEq, Eq, Structural, Clone, Copy, Hash)]
pub enum LpfMode {
    BPR,
    C,
    OP,
}

/// The latency function kind named `name`: `bpr`, `c` or `op`, lower-cased.
/// (No character but the ASCII upper-case letters lower-cases to a letter of
/// these names.)
pub open spec fn lpf_mode_named(name: Seq<char>) -> Option<LpfMode> {
    if equal_ignoring_case(name, seq!['b', 'p', 'r']) {
        Some(LpfMode::BPR)
    } else if equal_ignoring_case(name, seq!['c']) {
        Some(LpfMode::C)
    } else if equal_ignoring_case(name, seq!['o', 'p']) {
        Some(LpfMode::OP)
    } else {
        None
    }
}

/// The latency function kind named `name`, if it names one.
pub fn lpf_mode_from_name(name: &[char]) -> (r: Option<LpfMode>)
    ensures
        r == lpf_mode_named(name@),
{
    let bpr = vec!['b', 'p', 'r'];
    let c = vec!['c'];
    let op = vec!['o', 'p'];
    assert(bpr@ =~= seq!['b', 'p', 'r']);
    assert(c@ =~= seq!['c']);
    assert(op@ =~= seq!['o', 'p']);
    if chars_equal_ignoring_case(name, bpr.as_slice()) {
        Some(LpfMode::BPR)
    } else if chars_equal_ignoring_case(name, c.as_slice()) {
        Some(LpfMode::C)
    } else if chars_equal_ignoring_case(name, op.as_slice()) {
        Some(LpfMode::OP)
    } else {
        None
    }
}

/// An edge: its tail and head nodes, the bundle of permits that using it
/// requires, and its parameters of type `P`.
#[derive(Debug)]
pub struct Edge<P> {
    tail: NodeIdx,
    head: NodeIdx,
    bundle: BundleIdx,
    params: P,
}

impl<P> Edge<P> {
    /// The edge from `tail` to `head` that requires the bundle `bundle`.
    pub fn new(tail: NodeIdx, head: NodeIdx, bundle: BundleIdx, params: P) -> (r: Edge<P>)
        ensures
            r.tail_node() == tail,
            r.head_node() == head,
            r.bundle_idx() == bundle,
            r.params_value() == params,
    {
        Edge { tail, head, bundle, params }
    }

    /// The node where the edge starts.
    pub closed spec fn tail_node(&self) -> NodeIdx {
        self.tail
    }

    /// The node where the edge ends.
    pub closed spec fn head_node(&self) -> NodeIdx {
        self.head
    }

    /// The bundle of permits that the edge requires.
    pub closed spec fn bundle_idx(&self) -> BundleIdx {
        self.bundle
    }

    /// The parameters of the edge.
    pub closed spec fn params_value(&self) -> P {
        self.params
    }

    /// The node where the edge starts.
    pub fn tail(&self) -> (r: NodeIdx)
        ensures
            r == self.tail_node(),
    {
        self.tail
    }

    /// The node where the edge ends.
    pub fn head(&self) -> (r: NodeIdx)
        ensures
            r == self.head_node(),
    {
        self.head
    }

    /// The bundle of permits that the edge requires.
    pub fn bundle(&self) -> (r: BundleIdx)
        ensures
            r == self.bundle_idx(),
    {
        self.bundle
    }

    /// The parameters of the edge.
    pub fn params(&self) -> (r: &P)
        ensures
            *r == self.params_value(),
    {
        &self.params
    }
}

/// A permit and its parameters of type `P`.
#[derive(Debug)]
pub struct Permit<P> {
    pub params: P,
}

/// A node: the edges that end and start at it, and whether routes may pass through it.
#[derive(Debug)]
pub struct Node {
    incoming_edges: Vec<EdgeIdx>,
    outgoing_edges: Vec<EdgeIdx>,
    allows_through_traffic: bool,
}

impl Node {
    /// A node with the given lists of incoming and outgoing edges.
    pub fn new(incoming_edges: Vec<EdgeIdx>, outgoing_edges: Vec<EdgeIdx>, allows_through_traffic: bool) -> (r: Node)
        ensures
            r.incoming() == incoming_edges@,
            r.outgoing() == outgoing_edges@,
            r.through() == allows_through_traffic,
    {
        Node { incoming_edges, outgoing_edges, allows_through_traffic }
    }

    /// The edges that end at the node.
    pub closed spec fn incoming(&self) -> Seq<EdgeIdx> {
        self.incoming_edges@
    }

    /// The edges that start at the node.
    pub closed spec fn outgoing(&self) -> Seq<EdgeIdx> {
        self.outgoing_edges@
    }

    /// Whether routes may pass through the node.
    pub closed spec fn through(&self) -> bool {
        self.allows_through_traffic
    }
}

/// Why a graph could not be built or extended; the fields name the indices involved.
#[derive(Debug, PartialEq, Eq, Structural, Clone, Copy)]
pub enum GraphError {
    /// `add_edge`: the tail node index is not below the number of nodes.
    TailOutOfBounds { tail: NodeIdx, num_nodes: usize },
    /// `add_edge`: the head node index is not below the number of nodes.
    HeadOutOfBounds { head: NodeIdx, num_nodes: usize },
    /// `new`: an edge's tail node index is not below the number of nodes.
    EdgeTailOutOfBounds { edge_idx: EdgeIdx, tail: NodeIdx, num_nodes: usize },
    /// `new`: an edge's head node index is not below the number of nodes.
    EdgeHeadOutOfBounds { edge_idx: EdgeIdx, head: NodeIdx, num_nodes: usize },
    /// `new`: an edge is not listed exactly once among the outgoing edges of its tail.
    EdgeNotOnceOutgoing { edge_idx: EdgeIdx, tail: NodeIdx },
    /// `new`: an edge is not listed exactly once among the incoming edges of its head.
    EdgeNotOnceIncoming { edge_idx: EdgeIdx, head: NodeIdx },
    /// `new`: a node lists an incoming edge index that is not below the number of edges.
    IncomingEdgeOutOfBounds { node_idx: NodeIdx, edge_idx: EdgeIdx, num_edges: usize },
    /// `new`: a node lists an incoming edge whose head is another node.
    IncomingEdgeHeadMismatch { node_idx: NodeIdx, edge_idx: EdgeIdx },
    /// `new`: a node lists an outgoing edge index that is not below the number of edges.
    OutgoingEdgeOutOfBounds { node_idx: NodeIdx, edge_idx: EdgeIdx, num_edges: usize },
    /// `new`: a node lists an outgoing edge whose tail is another node.
    OutgoingEdgeTailMismatch { node_idx: NodeIdx, edge_idx: EdgeIdx },
}

/// The text that describes the error.
pub open spec fn graph_error_text(e: GraphError) -> Seq<char> {
    match e {
        GraphError::TailOutOfBounds { tail, num_nodes } => "Tail node index "@ + decimal(tail as nat)
            + " out of bounds (num nodes: "@ + decimal(num_nodes as nat) + ")"@,
        GraphError::HeadOutOfBounds { head, num_nodes } => "Head node index "@ + decimal(head as nat)
            + " out of bounds (num nodes: "@ + decimal(num_nodes as nat) + ")"@,
        GraphError::EdgeTailOutOfBounds { edge_idx, tail, num_nodes } => "Edge "@ + decimal(edge_idx as nat)
            + " has tail node index "@ + decimal(tail as nat) + " out of bounds (num nodes: "@
            + decimal(num_nodes as nat) + ")"@,
        GraphError::EdgeHeadOutOfBounds { edge_idx, head, num_nodes } => "Edge "@ + decimal(edge_idx as nat)
            + " has head node index "@ + decimal(head as nat) + " out of bounds (num nodes: "@
            + decimal(num_nodes as nat) + ")"@,
        GraphError::EdgeNotOnceOutgoing { edge_idx, tail } => "Edge "@ + decimal(edge_idx as nat)
            + " is not listed exactly once in outgoing edges of its tail node "@ + decimal(tail as nat),
        GraphError::EdgeNotOnceIncoming { edge_idx, head } => "Edge "@ + decimal(edge_idx as nat)
            + " is not listed exactly once in incoming edges of its head node "@ + decimal(head as nat),
        GraphError::IncomingEdgeOutOfBounds { node_idx, edge_idx, num_edges } => "Node "@ + decimal(
            node_idx as nat,
        ) + " has incoming edge index "@ + decimal(edge_idx as nat) + " out of bounds (num edges: "@
            + decimal(num_edges as nat) + ")"@,
        GraphError::IncomingEdgeHeadMismatch { node_idx, edge_idx } => "Node "@ + decimal(node_idx as nat)
            + " has incoming edge index "@ + decimal(edge_idx as nat)
            + " whose head is not equal to the node index"@,
        GraphError::OutgoingEdgeOutOfBounds { node_idx, edge_idx, num_edges } => "Node "@ + decimal(
            node_idx as nat,
        ) + " has outgoing edge index "@ + decimal(edge_idx as nat) + " out of bounds (num edges: "@
            + decimal(num_edges as nat) + ")"@,
        GraphError::OutgoingEdgeTailMismatch { node_idx, edge_idx } => "Node "@ + decimal(node_idx as nat)
            + " has outgoing edge index "@ + decimal(edge_idx as nat)
            + " whose tail is not equal to the node index"@,
    }
}

impl GraphError {
    /// The text that describes the error.
    pub fn message(&self) -> (r: String)
        ensures
            r@ == graph_error_text(*self),
    {
        let mut out: Vec<char> = Vec::new();
        match *self {
            GraphError::TailOutOfBounds { tail, num_nodes } => {
                push_text(&mut out, "Tail node index ");
                push_decimal(&mut out, tail);
                push_text(&mut out, " out of bounds (num nodes: ");
                push_decimal(&mut out, num_nodes);
                push_text(&mut out, ")");
            },
            GraphError::HeadOutOfBounds { head, num_nodes } => {
                push_text(&mut out, "Head node index ");
                push_decimal(&mut out, head);
                push_text(&mut out, " out of bounds (num nodes: ");
                push_decimal(&mut out, num_nodes);
                push_text(&mut out, ")");
            },
            GraphError::EdgeTailOutOfBounds { edge_idx, tail, num_nodes } => {
                push_text(&mut out, "Edge ");
                push_decimal(&mut out, edge_idx);
                push_text(&mut out, " has tail node index ");
                push_decimal(&mut out, tail);
                push_text(&mut out, " out of bounds (num nodes: ");
                push_decimal(&mut out, num_nodes);
                push_text(&mut out, ")");
            },
            GraphError::EdgeHeadOutOfBounds { edge_idx, head, num_nodes } => {
                push_text(&mut out, "Edge ");
                push_decimal(&mut out, edge_idx);
                push_text(&mut out, " has head node index ");
                push_decimal(&mut out, head);
                push_text(&mut out, " out of bounds (num nodes: ");
                push_decimal(&mut out, num_nodes);
                push_text(&mut out, ")");
            },
            GraphError::EdgeNotOnceOutgoing { edge_idx, tail } => {
                push_text(&mut out, "Edge ");
                push_decimal(&mut out, edge_idx);
                push_text(&mut out, " is not listed exactly once in outgoing edges of its tail node ");
                push_decimal(&mut out, tail);
            },
            GraphError::EdgeNotOnceIncoming { edge_idx, head } => {
                push_text(&mut out, "Edge ");
                push_decimal(&mut out, edge_idx);
                push_text(&mut out, " is not listed exactly once in incoming edges of its head node ");
                push_decimal(&mut out, head);
            },
            GraphError::IncomingEdgeOutOfBounds { node_idx, edge_idx, num_edges } => {
                push_text(&mut out, "Node ");
                push_decimal(&mut out, node_idx);
                push_text(&mut out, " has incoming edge index ");
                push_decimal(&mut out, edge_idx);
                push_text(&mut out, " out of bounds (num edges: ");
                push_decimal(&mut out, num_edges);
                push_text(&mut out, ")");
            },
            GraphError::IncomingEdgeHeadMismatch { node_idx, edge_idx } => {
                push_text(&mut out, "Node ");
                push_decimal(&mut out, node_idx);
                push_text(&mut out, " has incoming edge index ");
                push_decimal(&mut out, edge_idx);
                push_text(&mut out, " whose head is not equal to the node index");
            },
            GraphError::OutgoingEdgeOutOfBounds { node_idx, edge_idx, num_edges } => {
                push_text(&mut out, "Node ");
                push_decimal(&mut out, node_idx);
                push_text(&mut out, " has outgoing edge index ");
                push_decimal(&mut out, edge_idx);
                push_text(&mut out, " out of bounds (num edges: ");
                push_decimal(&mut out, num_edges);
                push_text(&mut out, ")");
            },
            GraphError::OutgoingEdgeTailMismatch { node_idx, edge_idx } => {
                push_text(&mut out, "Node ");
                push_decimal(&mut out, node_idx);
                push_text(&mut out, " has outgoing edge index ");
                push_decimal(&mut out, edge_idx);
                push_text(&mut out, " whose tail is not equal to the node index");
            },
        }
        assert(out@ =~= graph_error_text(*self));
        string_of(&out)
    }
}

/// How often `x` occurs in `s`.
pub open spec fn count_in(s: Seq<usize>, x: usize) -> nat
    decreases s.len(),
{
    if s.len() == 0 {
        0
    } else {
        count_in(s.drop_last(), x) + if s.last() == x { 1nat } else { 0nat }
    }
}

/// The first violation that the checks of one edge find: its tail and head
/// must be nodes, and it must be listed exactly once among the outgoing edges
/// of its tail and the incoming edges of its head.
pub open spec fn edge_violation<P>(edges: Seq<Edge<P>>, nodes: Seq<Node>, e: int) -> Option<GraphError> {
    let edge = edges[e];
    let n = nodes.len();
    if edge.tail_node() >= n {
        Some(GraphError::EdgeTailOutOfBounds { edge_idx: e as usize, tail: edge.tail_node(), num_nodes: n as usize })
    } else if edge.head_node() >= n {
        Some(GraphError::EdgeHeadOutOfBounds { edge_idx: e as usize, head: edge.head_node(), num_nodes: n as usize })
    } else if count_in(nodes[edge.tail_node() as int].outgoing(), e as usize) != 1 {
        Some(GraphError::EdgeNotOnceOutgoing { edge_idx: e as usize, tail: edge.tail_node() })
    } else if count_in(nodes[edge.head_node() as int].incoming(), e as usize) != 1 {
        Some(GraphError::EdgeNotOnceIncoming { edge_idx: e as usize, head: edge.head_node() })
    } else {
        None
    }
}

/// The first violation among the edges from `e` on.
pub open spec fn edges_violation_from<P>(edges: Seq<Edge<P>>, nodes: Seq<Node>, e: int) -> Option<GraphError>
    decreases edges.len() - e,
{
    if e < 0 || e >= edges.len() {
        None
    } else {
        match edge_violation(edges, nodes, e) {
            Some(err) => Some(err),
            None => edges_violation_from(edges, nodes, e + 1),
        }
    }
}

/// The first violation among the incoming edges of node `v`, from list position `k` on:
/// each must be an edge whose head is `v`.
pub open spec fn incoming_violation_from<P>(edges: Seq<Edge<P>>, nodes: Seq<Node>, v: int, k: int) -> Option<GraphError>
    decreases nodes[v].incoming().len() - k,
{
    let list = nodes[v].incoming();
    if k < 0 || k >= list.len() {
        None
    } else if list[k] >= edges.len() {
        Some(GraphError::IncomingEdgeOutOfBounds { node_idx: v as usize, edge_idx: list[k], num_edges: edges.len() as usize })
    } else if edges[list[k] as int].head_node() != v {
        Some(GraphError::IncomingEdgeHeadMismatch { node_idx: v as usize, edge_idx: list[k] })
    } else {
        incoming_violation_from(edges, nodes, v, k + 1)
    }
}

/// The first violation among the outgoing edges of node `v`, from list position `k` on:
/// each must be an edge whose tail is `v`.
pub open spec fn outgoing_violation_from<P>(edges: Seq<Edge<P>>, nodes: Seq<Node>, v: int, k: int) -> Option<GraphError>
    decreases nodes[v].outgoing().len() - k,
{
    let list = nodes[v].outgoing();
    if k < 0 || k >= list.len() {
        None
    } else if list[k] >= edges.len() {
        Some(GraphError::OutgoingEdgeOutOfBounds { node_idx: v as usize, edge_idx: list[k], num_edges: edges.len() as usize })
    } else if edges[list[k] as int].tail_node() != v {
        Some(GraphError::OutgoingEdgeTailMismatch { node_idx: v as usize, edge_idx: list[k] })
    } else {
        outgoing_violation_from(edges, nodes, v, k + 1)
    }
}

/// The first violation among the nodes from `v` on: first the incoming, then the outgoing edges.
pub open spec fn nodes_violation_from<P>(edges: Seq<Edge<P>>, nodes: Seq<Node>, v: int) -> Option<GraphError>
    decreases nodes.len() - v,
{
    if v < 0 || v >= nodes.len() {
        None
    } else {
        match incoming_violation_from(edges, nodes, v, 0) {
            Some(err) => Some(err),
            None => match outgoing_violation_from(edges, nodes, v, 0) {
                Some(err) => Some(err),
                None => nodes_violation_from(edges, nodes, v + 1),
            },
        }
    }
}

/// The first violation of the graph invariants that [`Graph::new`] reports:
/// the edges are checked first, in order, then the nodes, in order.
pub open spec fn graph_violation<P>(edges: Seq<Edge<P>>, nodes: Seq<Node>) -> Option<GraphError> {
    match edges_violation_from(edges, nodes, 0) {
        Some(err) => Some(err),
        None => nodes_violation_from(edges, nodes, 0),
    }
}

/// The graph invariants: every edge joins two nodes, and each node lists,
/// once each, exactly the edges that end at it and exactly those that start at it.
pub open spec fn graph_wf<P>(edges: Seq<Edge<P>>, nodes: Seq<Node>) -> bool {
    &&& forall|e: int| 0 <= e < edges.len() ==> #[trigger] edges[e].tail_node() < nodes.len() && edges[e].head_node() < nodes.len()
    &&& forall|v: int| 0 <= v < nodes.len() ==> (#[trigger] nodes[v]).incoming().no_duplicates() && nodes[v].outgoing().no_duplicates()
    &&& forall|v: int, k: int| 0 <= v < nodes.len() && 0 <= k < nodes[v].incoming().len() ==>
        #[trigger] nodes[v].incoming()[k] < edges.len() && edges[nodes[v].incoming()[k] as int].head_node() == v
    &&& forall|v: int, k: int| 0 <= v < nodes.len() && 0 <= k < nodes[v].outgoing().len() ==>
        #[trigger] nodes[v].outgoing()[k] < edges.len() && edges[nodes[v].outgoing()[k] as int].tail_node() == v
    &&& forall|e: int| 0 <= e < edges.len() ==> nodes[#[trigger] edges[e].head_node() as int].incoming().contains(e as usize)
    &&& forall|e: int| 0 <= e < edges.len() ==> nodes[#[trigger] edges[e].tail_node() as int].outgoing().contains(e as usize)
}

/// The operations of a directed multigraph whose nodes, edges and permits
/// are indexed from 0.
pub trait GraphOps {
    /// The number of nodes.
    spec fn node_count(&self) -> nat;

    /// The number of edges.
    spec fn edge_count(&self) -> nat;

    /// The number of permits.
    spec fn permit_count(&self) -> nat;

    /// The edges that end at `node`.
    spec fn incoming(&self, node: int) -> Seq<EdgeIdx>;

    /// The edges that start at `node`.
    spec fn outgoing(&self, node: int) -> Seq<EdgeIdx>;

    /// The node where `edge` starts.
    spec fn tail_of(&self, edge: int) -> NodeIdx;

    /// The node where `edge` ends.
    spec fn head_of(&self, edge: int) -> NodeIdx;

    /// The bundle of permits that `edge` requires.
    spec fn bundle_of(&self, edge: int) -> BundleIdx;

    /// Whether routes may pass through `node`.
    spec fn through(&self, node: int) -> bool;

    fn num_edges(&self) -> (r: usize)
        ensures
            r == self.edge_count(),
    ;

    fn num_nodes(&self) -> (r: usize)
        ensures
            r == self.node_count(),
    ;

    fn num_permits(&self) -> (r: usize)
        ensures
            r == self.permit_count(),
    ;

    fn incoming_edges(&self, node_idx: NodeIdx) -> (r: &[EdgeIdx])
        requires
            node_idx < self.node_count(),
        ensures
            r@ == self.incoming(node_idx as int),
    ;

    fn outgoing_edges(&self, node_idx: NodeIdx) -> (r: &[EdgeIdx])
        requires
            node_idx < self.node_count(),
        ensures
            r@ == self.outgoing(node_idx as int),
    ;

    fn edge_tail(&self, edge_idx: EdgeIdx) -> (r: NodeIdx)
        requires
            edge_idx < self.edge_count(),
        ensures
            r == self.tail_of(edge_idx as int),
    ;

    fn edge_head(&self, edge_idx: EdgeIdx) -> (r: NodeIdx)
        requires
            edge_idx < self.edge_count(),
        ensures
            r == self.head_of(edge_idx as int),
    ;

    fn edge_bundle(&self, edge_idx: EdgeIdx) -> (r: BundleIdx)
        requires
            edge_idx < self.edge_count(),
        ensures
            r == self.bundle_of(edge_idx as int),
    ;

    fn node_allows_through_traffic(&self, node_idx: NodeIdx) -> (r: bool)
        requires
            node_idx < self.node_count(),
        ensures
            r == self.through(node_idx as int),
    ;
}

/// Every outgoing edge of every node is an edge, and its head is a node.
pub open spec fn outgoing_consistent<G: GraphOps>(g: &G) -> bool {
    forall|v: int, k: int|
        0 <= v < g.node_count() && 0 <= k < g.outgoing(v).len() ==> #[trigger] g.outgoing(v)[k]
            < g.edge_count() && g.head_of(g.outgoing(v)[k] as int) < g.node_count()
}

/// A directed multigraph whose edges and permits carry parameters of type `P`.
///
/// Nodes are indexed from 0 to num_nodes - 1, edges from 0 to num_edges - 1.
/// Parallel edges and loops are allowed. All edge and node indices in the
/// graph are within bounds, and each node lists, once each, exactly the edges
/// that end at it and exactly the edges that start at it.
#[derive(Debug)]
pub struct Graph<P> {
    edges: Vec<Edge<P>>,
    nodes: Vec<Node>,
    permits: Vec<Permit<P>>,
}

impl<P> Graph<P> {
    #[verifier::type_invariant]
    spec fn inv(self) -> bool {
        graph_wf(self.edges@, self.nodes@)
    }

    /// The edges, by index.
    pub closed spec fn edges_view(&self) -> Seq<Edge<P>> {
        self.edges@
    }

    /// The nodes, by index.
    pub closed spec fn nodes_view(&self) -> Seq<Node> {
        self.nodes@
    }

    /// The permits, by index.
    pub closed spec fn permits_view(&self) -> Seq<Permit<P>> {
        self.permits@
    }

    /// The graph without nodes, edges and permits.
    pub fn empty() -> (r: Self)
        ensures
            r.edges_view() == Seq::<Edge<P>>::empty(),
            r.nodes_view() == Seq::<Node>::empty(),
            r.permits_view() == Seq::<Permit<P>>::empty(),
    {
        Graph { edges: Vec::new(), nodes: Vec::new(), permits: Vec::new() }
    }

    /// The graph with the given edges and nodes, without permits; fails with
    /// the first violation of the graph invariants that the checks find. The
    /// edges are checked first, in order: tail and head must be nodes, and each
    /// edge must be listed exactly once among the outgoing edges of its tail and
    /// the incoming edges of its head. Then the nodes, in order: each listed
    /// incoming (then outgoing) edge must be an edge that ends (starts) there.
    pub fn new(edges: Vec<Edge<P>>, nodes: Vec<Node>) -> (r: Result<Self, GraphError>)
        ensures
            r is Ok <==> graph_violation(edges@, nodes@) is None,
            r matches Err(err) ==> graph_violation(edges@, nodes@) == Some(err),
            r matches Ok(g) ==> g.edges_view() == edges@ && g.nodes_view() == nodes@
                && g.permits_view().len() == 0,
    {
        let num_edges = edges.len();
        let num_nodes = nodes.len();
        let mut edge_idx: usize = 0;
        while edge_idx < num_edges
            invariant
                num_edges == edges@.len(),
                num_nodes == nodes@.len(),
                edge_idx <= num_edges,
                forall|e: int| 0 <= e < edge_idx ==> #[trigger] edge_violation(edges@, nodes@, e) is None,
            decreases num_edges - edge_idx,
        {
            let edge = &edges[edge_idx];
            proof {
                lemma_edges_prefix(edges@, nodes@, edge_idx as int);
            }
            if edge.tail >= num_nodes {
                return Err(GraphError::EdgeTailOutOfBounds { edge_idx, tail: edge.tail, num_nodes });
            }
            if edge.head >= num_nodes {
                return Err(GraphError::EdgeHeadOutOfBounds { edge_idx, head: edge.head, num_nodes });
            }
            if count_occurrences(nodes[edge.tail].outgoing_edges.as_slice(), edge_idx) != 1 {
                return Err(GraphError::EdgeNotOnceOutgoing { edge_idx, tail: edge.tail });
            }
            if count_occurrences(nodes[edge.head].incoming_edges.as_slice(), edge_idx) != 1 {
                return Err(GraphError::EdgeNotOnceIncoming { edge_idx, head: edge.head });
            }
            edge_idx = edge_idx + 1;
        }
        proof {
            lemma_edges_prefix(edges@, nodes@, num_edges as int);
        }
        let mut node_idx: usize = 0;
        while node_idx < num_nodes
            invariant
                num_edges == edges@.len(),
                num_nodes == nodes@.len(),
                node_idx <= num_nodes,
                edges_violation_from(edges@, nodes@, 0) is None,
                forall|w: int| 0 <= w < node_idx ==> #[trigger] incoming_violation_from(edges@, nodes@, w, 0) is None
                    && outgoing_violation_from(edges@, nodes@, w, 0) is None,
            decreases num_nodes - node_idx,
        {
            proof {
                lemma_nodes_prefix(edges@, nodes@, node_idx as int);
            }
            let node = &nodes[node_idx];
            let mut k: usize = 0;
            while k < node.incoming_edges.len()
                invariant
                    num_edges == edges@.len(),
                    num_nodes == nodes@.len(),
                    node_idx < num_nodes,
                    *node == nodes@[node_idx as int],
                    edges_violation_from(edges@, nodes@, 0) is None,
                    nodes_violation_from(edges@, nodes@, 0) == nodes_violation_from(edges@, nodes@, node_idx as int),
                    k <= node.incoming_edges@.len(),
                    forall|j: int| 0 <= j < k ==> #[trigger] nodes@[node_idx as int].incoming()[j] < edges@.len()
                        && edges@[nodes@[node_idx as int].incoming()[j] as int].head_node() == node_idx,
                decreases node.incoming_edges@.len() - k,
            {
                let e = node.incoming_edges[k];
                proof {
                    lemma_incoming_prefix(edges@, nodes@, node_idx as int, k as int);
                }
                if e >= num_edges {
                    return Err(GraphError::IncomingEdgeOutOfBounds { node_idx, edge_idx: e, num_edges });
                }
                if edges[e].head != node_idx {
                    return Err(GraphError::IncomingEdgeHeadMismatch { node_idx, edge_idx: e });
                }
                k = k + 1;
            }
            proof {
                lemma_incoming_prefix(edges@, nodes@, node_idx as int, k as int);
            }
            let mut k: usize = 0;
            while k < node.outgoing_edges.len()
                invariant
                    num_edges == edges@.len(),
                    num_nodes == nodes@.len(),
                    node_idx < num_nodes,
                    *node == nodes@[node_idx as int],
                    edges_violation_from(edges@, nodes@, 0) is None,
                    nodes_violation_from(edges@, nodes@, 0) == nodes_violation_from(edges@, nodes@, node_idx as int),
                    incoming_violation_from(edges@, nodes@, node_idx as int, 0) is None,
                    k <= node.outgoing_edges@.len(),
                    forall|j: int| 0 <= j < k ==> #[trigger] nodes@[node_idx as int].outgoing()[j] < edges@.len()
                        && edges@[nodes@[node_idx as int].outgoing()[j] as int].tail_node() == node_idx,
                decreases node.outgoing_edges@.len() - k,
            {
                let e = node.outgoing_edges[k];
                proof {
                    lemma_outgoing_prefix(edges@, nodes@, node_idx as int, k as int);
                }
                if e >= num_edges {
                    return Err(GraphError::OutgoingEdgeOutOfBounds { node_idx, edge_idx: e, num_edges });
                }
                if edges[e].tail != node_idx {
                    return Err(GraphError::OutgoingEdgeTailMismatch { node_idx, edge_idx: e });
                }
                k = k + 1;
            }
            proof {
                lemma_outgoing_prefix(edges@, nodes@, node_idx as int, k as int);
            }
            node_idx = node_idx + 1;
        }
        proof {
            lemma_nodes_prefix(edges@, nodes@, num_nodes as int);
            law_checks_accept_exactly_wf(edges@, nodes@);
        }
        Ok(Graph { edges, nodes, permits: Vec::new() })
    }

    /// The edge with index `edge_idx`.
    pub fn edge(&self, edge_idx: EdgeIdx) -> (r: &Edge<P>)
        requires
            edge_idx < self.edges_view().len(),
        ensures
            *r == self.edges_view()[edge_idx as int],
    {
        &self.edges[edge_idx]
    }

    /// The permit with index `permit_idx`.
    pub fn permit(&self, permit_idx: PermitIdx) -> (r: &Permit<P>)
        requires
            permit_idx < self.permits_view().len(),
        ensures
            *r == self.permits_view()[permit_idx as int],
    {
        &self.permits[permit_idx]
    }

    /// Adds a permit with the given parameters and returns its index.
    pub fn add_permit(&mut self, permit_params: P) -> (r: PermitIdx)
        ensures
            r == old(self).permits_view().len(),
            final(self).permits_view() == old(self).permits_view().push(Permit { params: permit_params }),
            final(self).edges_view() == old(self).edges_view(),
            final(self).nodes_view() == old(self).nodes_view(),
    {
        proof {
            use_type_invariant(&*self);
        }
        let permit_idx = self.permits.len();
        let mut taken = Graph::empty();
        std::mem::swap(&mut taken, self);
        let Graph { edges, nodes, permits } = taken;
        let mut permits = permits;
        permits.push(Permit { params: permit_params });
        *self = Graph { edges, nodes, permits };
        permit_idx
    }

    /// Adds the edge from `tail` to `head` that requires the bundle `bundle`,
    /// and returns its index; fails, leaving the graph as it was, where `tail`
    /// or `head` is not a node.
    pub fn add_edge(&mut self, tail: NodeIdx, head: NodeIdx, bundle: BundleIdx, edge_params: P) -> (r: Result<EdgeIdx, GraphError>)
        ensures
            tail >= old(self).nodes_view().len() ==> r == Err::<EdgeIdx, GraphError>(GraphError::TailOutOfBounds { tail, num_nodes: old(self).nodes_view().len() as usize }),
            tail < old(self).nodes_view().len() && head >= old(self).nodes_view().len() ==> r == Err::<EdgeIdx, GraphError>(GraphError::HeadOutOfBounds { head, num_nodes: old(self).nodes_view().len() as usize }),
            r is Err ==> final(self).edges_view() == old(self).edges_view() && final(self).nodes_view() == old(self).nodes_view(),
            tail < old(self).nodes_view().len() && head < old(self).nodes_view().len() ==> {
                &&& r == Ok::<EdgeIdx, GraphError>(old(self).edges_view().len() as usize)
                &&& final(self).edges_view().len() == old(self).edges_view().len() + 1
                &&& final(self).edges_view().drop_last() == old(self).edges_view()
                &&& final(self).edges_view().last().tail_node() == tail
                &&& final(self).edges_view().last().head_node() == head
                &&& final(self).edges_view().last().bundle_idx() == bundle
                &&& final(self).edges_view().last().params_value() == edge_params
                &&& final(self).nodes_view().len() == old(self).nodes_view().len()
                &&& forall|v: int| 0 <= v < old(self).nodes_view().len() ==> {
                    &&& (#[trigger] final(self).nodes_view()[v]).outgoing() == if v == tail {
                        old(self).nodes_view()[v].outgoing().push(old(self).edges_view().len() as usize)
                    } else {
                        old(self).nodes_view()[v].outgoing()
                    }
                    &&& final(self).nodes_view()[v].incoming() == if v == head {
                        old(self).nodes_view()[v].incoming().push(old(self).edges_view().len() as usize)
                    } else {
                        old(self).nodes_view()[v].incoming()
                    }
                    &&& final(self).nodes_view()[v].through() == old(self).nodes_view()[v].through()
                }
            },
            final(self).permits_view() == old(self).permits_view(),
    {
        proof {
            use_type_invariant(&*self);
        }
        if tail >= self.nodes.len() {
            return Err(GraphError::TailOutOfBounds { tail, num_nodes: self.nodes.len() });
        }
        if head >= self.nodes.len() {
            return Err(GraphError::HeadOutOfBounds { head, num_nodes: self.nodes.len() });
        }
        let edge_idx = self.edges.len();
        let mut taken = Graph::empty();
        std::mem::swap(&mut taken, self);
        let Graph { edges, nodes, permits } = taken;
        let mut edges = edges;
        let mut nodes = nodes;
        let ghost old_edges = edges@;
        let ghost old_nodes = nodes@;
        edges.push(Edge { tail, head, bundle, params: edge_params });
        nodes[tail].outgoing_edges.push(edge_idx);
        nodes[head].incoming_edges.push(edge_idx);
        proof {
            assert(edges@.drop_last() =~= old_edges);
            lemma_wf_add_edge(old_edges, old_nodes, edges@, nodes@, tail, head);
        }
        *self = Graph { edges, nodes, permits };
        Ok(edge_idx)
    }

    /// Replaces the parameters of the permit with index `permit_idx`.
    pub fn set_permit_params(&mut self, permit_idx: PermitIdx, params: P)
        requires
            permit_idx < old(self).permits_view().len(),
        ensures
            final(self).permits_view() == old(self).permits_view().update(permit_idx as int, Permit { params }),
            final(self).edges_view() == old(self).edges_view(),
            final(self).nodes_view() == old(self).nodes_view(),
    {
        proof {
            use_type_invariant(&*self);
        }
        let mut taken = Graph::empty();
        std::mem::swap(&mut taken, self);
        let Graph { edges, nodes, permits } = taken;
        let mut permits = permits;
        permits.set(permit_idx, Permit { params });
        *self = Graph { edges, nodes, permits };
    }

    /// Replaces the parameters of the edge with index `edge_idx`.
    pub fn set_edge_params(&mut self, edge_idx: EdgeIdx, params: P)
        requires
            edge_idx < old(self).edges_view().len(),
        ensures
            final(self).edges_view().len() == old(self).edges_view().len(),
            forall|e: int| 0 <= e < old(self).edges_view().len() && e != edge_idx ==> #[trigger] final(self).edges_view()[e] == old(self).edges_view()[e],
            final(self).edges_view()[edge_idx as int].tail_node() == old(self).edges_view()[edge_idx as int].tail_node(),
            final(self).edges_view()[edge_idx as int].head_node() == old(self).edges_view()[edge_idx as int].head_node(),
            final(self).edges_view()[edge_idx as int].bundle_idx() == old(self).edges_view()[edge_idx as int].bundle_idx(),
            final(self).edges_view()[edge_idx as int].params_value() == params,
            final(self).nodes_view() == old(self).nodes_view(),
            final(self).permits_view() == old(self).permits_view(),
    {
        proof {
            use_type_invariant(&*self);
        }
        let mut taken = Graph::empty();
        std::mem::swap(&mut taken, self);
        let Graph { edges, nodes, permits } = taken;
        let mut edges = edges;
        let ghost old_edges = edges@;
        let tail = edges[edge_idx].tail;
        let head = edges[edge_idx].head;
        let bundle = edges[edge_idx].bundle;
        edges.set(edge_idx, Edge { tail, head, bundle, params });
        proof {
            assert forall|e: int| 0 <= e < edges@.len() implies #[trigger] edges@[e].tail_node() == old_edges[e].tail_node() by {}
            assert forall|e: int| 0 <= e < edges@.len() implies #[trigger] edges@[e].head_node() == old_edges[e].head_node() by {}
            lemma_wf_same_ends(old_edges, edges@, nodes@);
        }
        *self = Graph { edges, nodes, permits };
    }

    /// Replaces the bundle of permits that the edge with index `edge_idx` requires.
    pub fn set_edge_bundle(&mut self, edge_idx: EdgeIdx, bundle: BundleIdx)
        requires
            edge_idx < old(self).edges_view().len(),
        ensures
            final(self).edges_view().len() == old(self).edges_view().len(),
            forall|e: int| 0 <= e < old(self).edges_view().len() && e != edge_idx ==> #[trigger] final(self).edges_view()[e] == old(self).edges_view()[e],
            final(self).edges_view()[edge_idx as int].tail_node() == old(self).edges_view()[edge_idx as int].tail_node(),
            final(self).edges_view()[edge_idx as int].head_node() == old(self).edges_view()[edge_idx as int].head_node(),
            final(self).edges_view()[edge_idx as int].bundle_idx() == bundle,
            final(self).edges_view()[edge_idx as int].params_value() == old(self).edges_view()[edge_idx as int].params_value(),
            final(self).nodes_view() == old(self).nodes_view(),
            final(self).permits_view() == old(self).permits_view(),
    {
        proof {
            use_type_invariant(&*self);
        }
        let mut taken = Graph::empty();
        std::mem::swap(&mut taken, self);
        let Graph { edges, nodes, permits } = taken;
        let mut edges = edges;
        let ghost old_edges = edges@;
        let mut edge = edges.remove(edge_idx);
        edge.bundle = bundle;
        edges.insert(edge_idx, edge);
        proof {
            assert forall|e: int| 0 <= e < edges@.len() implies #[trigger] edges@[e].tail_node() == old_edges[e].tail_node() by {
                if e != edge_idx {
                    assert(edges@[e] == old_edges[e]);
                }
            }
            assert forall|e: int| 0 <= e < edges@.len() implies #[trigger] edges@[e].head_node() == old_edges[e].head_node() by {
                if e != edge_idx {
                    assert(edges@[e] == old_edges[e]);
                }
            }
            assert forall|e: int| 0 <= e < old_edges.len() && e != edge_idx implies #[trigger] edges@[e] == old_edges[e] by {}
            lemma_wf_same_ends(old_edges, edges@, nodes@);
        }
        *self = Graph { edges, nodes, permits };
    }

    /// Adds a node without edges and returns its index.
    pub fn add_node(&mut self, allows_through_traffic: bool) -> (r: NodeIdx)
        ensures
            r == old(self).nodes_view().len(),
            final(self).nodes_view().len() == old(self).nodes_view().len() + 1,
            final(self).nodes_view().drop_last() == old(self).nodes_view(),
            final(self).nodes_view().last().incoming() == Seq::<EdgeIdx>::empty(),
            final(self).nodes_view().last().outgoing() == Seq::<EdgeIdx>::empty(),
            final(self).nodes_view().last().through() == allows_through_traffic,
            final(self).edges_view() == old(self).edges_view(),
            final(self).permits_view() == old(self).permits_view(),
    {
        proof {
            use_type_invariant(&*self);
        }
        let node_idx = self.nodes.len();
        let mut taken = Graph::empty();
        std::mem::swap(&mut taken, self);
        let Graph { edges, nodes, permits } = taken;
        let mut nodes = nodes;
        let ghost old_nodes = nodes@;
        nodes.push(Node { incoming_edges: Vec::new(), outgoing_edges: Vec::new(), allows_through_traffic });
        proof {
            assert(nodes@.drop_last() =~= old_nodes);
            assert forall|v: int| 0 <= v < nodes@.len() implies (#[trigger] nodes@[v]).incoming().no_duplicates() && nodes@[v].outgoing().no_duplicates() by {
                if v < old_nodes.len() {
                    assert(nodes@[v] == old_nodes[v]);
                }
            }
            assert forall|v: int, k: int| 0 <= v < nodes@.len() && 0 <= k < nodes@[v].incoming().len() implies
                #[trigger] nodes@[v].incoming()[k] < edges@.len() && edges@[nodes@[v].incoming()[k] as int].head_node() == v by {
                assert(nodes@[v] == old_nodes[v]);
            }
            assert forall|v: int, k: int| 0 <= v < nodes@.len() && 0 <= k < nodes@[v].outgoing().len() implies
                #[trigger] nodes@[v].outgoing()[k] < edges@.len() && edges@[nodes@[v].outgoing()[k] as int].tail_node() == v by {
                assert(nodes@[v] == old_nodes[v]);
            }
            assert forall|e: int| 0 <= e < edges@.len() implies nodes@[#[trigger] edges@[e].head_node() as int].incoming().contains(e as usize) by {
                assert(edges@[e].tail_node() < old_nodes.len());
                assert(nodes@[edges@[e].head_node() as int] == old_nodes[edges@[e].head_node() as int]);
            }
            assert forall|e: int| 0 <= e < edges@.len() implies nodes@[#[trigger] edges@[e].tail_node() as int].outgoing().contains(e as usize) by {
                assert(edges@[e].tail_node() < old_nodes.len());
                assert(nodes@[edges@[e].tail_node() as int] == old_nodes[edges@[e].tail_node() as int]);
            }
        }
        *self = Graph { edges, nodes, permits };
        node_idx
    }
}

impl<P> GraphOps for Graph<P> {
    closed spec fn node_count(&self) -> nat {
        self.nodes@.len()
    }

    closed spec fn edge_count(&self) -> nat {
        self.edges@.len()
    }

    closed spec fn permit_count(&self) -> nat {
        self.permits@.len()
    }

    closed spec fn incoming(&self, node: int) -> Seq<EdgeIdx> {
        self.nodes@[node].incoming()
    }

    closed spec fn outgoing(&self, node: int) -> Seq<EdgeIdx> {
        self.nodes@[node].outgoing()
    }

    closed spec fn tail_of(&self, edge: int) -> NodeIdx {
        self.edges@[edge].tail_node()
    }

    closed spec fn head_of(&self, edge: int) -> NodeIdx {
        self.edges@[edge].head_node()
    }

    closed spec fn bundle_of(&self, edge: int) -> BundleIdx {
        self.edges@[edge].bundle_idx()
    }

    closed spec fn through(&self, node: int) -> bool {
        self.nodes@[node].through()
    }

    fn num_edges(&self) -> (r: usize)
        ensures
            r == self.edges_view().len(),
    {
        self.edges.len()
    }

    /// The number of nodes; the graph invariants hold.
    fn num_nodes(&self) -> (r: usize)
        ensures
            r == self.nodes_view().len(),
            graph_wf(self.edges_view(), self.nodes_view()),
            self.edge_count() == self.edges_view().len(),
            forall|v: int| 0 <= v < r ==> #[trigger] self.outgoing(v) == self.nodes_view()[v].outgoing(),
            forall|v: int| 0 <= v < r ==> #[trigger] self.incoming(v) == self.nodes_view()[v].incoming(),
            forall|v: int| 0 <= v < r ==> #[trigger] self.through(v) == self.nodes_view()[v].through(),
            forall|e: int| 0 <= e < self.edge_count() ==> #[trigger] self.head_of(e) == self.edges_view()[e].head_node(),
            forall|e: int| 0 <= e < self.edge_count() ==> #[trigger] self.tail_of(e) == self.edges_view()[e].tail_node(),
            forall|e: int| 0 <= e < self.edge_count() ==> #[trigger] self.bundle_of(e) == self.edges_view()[e].bundle_idx(),
    {
        proof {
            use_type_invariant(self);
        }
        self.nodes.len()
    }

    fn num_permits(&self) -> (r: usize) {
        self.permits.len()
    }

    fn incoming_edges(&self, node_idx: NodeIdx) -> (r: &[EdgeIdx]) {
        self.nodes[node_idx].incoming_edges.as_slice()
    }

    fn outgoing_edges(&self, node_idx: NodeIdx) -> (r: &[EdgeIdx]) {
        self.nodes[node_idx].outgoing_edges.as_slice()
    }

    fn edge_tail(&self, edge_idx: EdgeIdx) -> (r: NodeIdx) {
        self.edges[edge_idx].tail
    }

    fn edge_head(&self, edge_idx: EdgeIdx) -> (r: NodeIdx) {
        self.edges[edge_idx].head
    }

    fn edge_bundle(&self, edge_idx: EdgeIdx) -> (r: BundleIdx) {
        self.edges[edge_idx].bundle
    }

    fn node_allows_through_traffic(&self, node_idx: NodeIdx) -> (r: bool) {
        self.nodes[node_idx].allows_through_traffic
    }
}

/// Appending an item that a duplicate-free sequence does not hold keeps it duplicate-free.
proof fn lemma_push_no_duplicates(s: Seq<usize>, x: usize)
    requires
        s.no_duplicates(),
        forall|k: int| 0 <= k < s.len() ==> s[k] != x,
    ensures
        s.push(x).no_duplicates(),
{
    let t = s.push(x);
    assert forall|i: int, j: int| 0 <= i < t.len() && 0 <= j < t.len() && i != j implies t[i] != t[j] by {
        if i < s.len() && j < s.len() {
            assert(t[i] == s[i] && t[j] == s[j]);
        } else if i < s.len() {
            assert(t[i] == s[i]);
        } else if j < s.len() {
            assert(t[j] == s[j]);
        }
    }
}

/// Adding an edge from a node to a node, listed at the end of both lists, keeps the graph invariants.
proof fn lemma_wf_add_edge<P>(a: Seq<Edge<P>>, na: Seq<Node>, b: Seq<Edge<P>>, nb: Seq<Node>, tail: NodeIdx, head: NodeIdx)
    requires
        graph_wf(a, na),
        a.len() <= usize::MAX,
        tail < na.len(),
        head < na.len(),
        b.len() == a.len() + 1,
        b.drop_last() == a,
        b.last().tail_node() == tail,
        b.last().head_node() == head,
        nb.len() == na.len(),
        forall|v: int| 0 <= v < na.len() ==> {
            &&& (#[trigger] nb[v]).outgoing() == if v == tail { na[v].outgoing().push(a.len() as usize) } else { na[v].outgoing() }
            &&& nb[v].incoming() == if v == head { na[v].incoming().push(a.len() as usize) } else { na[v].incoming() }
        },
    ensures
        graph_wf(b, nb),
{
    let m = a.len();
    assert forall|e: int| 0 <= e < b.len() implies #[trigger] b[e].tail_node() < nb.len() && b[e].head_node() < nb.len() by {
        if e < m {
            assert(b[e] == a[e]);
            assert(a[e].tail_node() < na.len());
        }
    }
    assert forall|v: int| 0 <= v < nb.len() implies (#[trigger] nb[v]).incoming().no_duplicates() && nb[v].outgoing().no_duplicates() by {
        assert(na[v].incoming().no_duplicates() && na[v].outgoing().no_duplicates());
        if v == head {
            assert forall|k: int| 0 <= k < na[v].incoming().len() implies na[v].incoming()[k] != m as usize by {
                assert(na[v].incoming()[k] < a.len());
            }
            lemma_push_no_duplicates(na[v].incoming(), m as usize);
        }
        if v == tail {
            assert forall|k: int| 0 <= k < na[v].outgoing().len() implies na[v].outgoing()[k] != m as usize by {
                assert(na[v].outgoing()[k] < a.len());
            }
            lemma_push_no_duplicates(na[v].outgoing(), m as usize);
        }
    }
    assert forall|v: int, k: int| 0 <= v < nb.len() && 0 <= k < nb[v].incoming().len() implies
        #[trigger] nb[v].incoming()[k] < b.len() && b[nb[v].incoming()[k] as int].head_node() == v by {
        if k < na[v].incoming().len() {
            assert(nb[v].incoming()[k] == na[v].incoming()[k]);
            let e = na[v].incoming()[k] as int;
            assert(e < a.len() && a[e].head_node() == v);
            assert(b[e] == a[e]);
        } else {
            assert(v == head);
            assert(nb[v].incoming()[k] == m);
            assert(b[m as int] == b.last());
        }
    }
    assert forall|v: int, k: int| 0 <= v < nb.len() && 0 <= k < nb[v].outgoing().len() implies
        #[trigger] nb[v].outgoing()[k] < b.len() && b[nb[v].outgoing()[k] as int].tail_node() == v by {
        if k < na[v].outgoing().len() {
            assert(nb[v].outgoing()[k] == na[v].outgoing()[k]);
            let e = na[v].outgoing()[k] as int;
            assert(e < a.len() && a[e].tail_node() == v);
            assert(b[e] == a[e]);
        } else {
            assert(v == tail);
            assert(nb[v].outgoing()[k] == m);
            assert(b[m as int] == b.last());
        }
    }
    assert forall|e: int| 0 <= e < b.len() implies nb[#[trigger] b[e].head_node() as int].incoming().contains(e as usize) by {
        if e < m {
            assert(b[e] == a[e]);
            assert(a[e].tail_node() < na.len());
            let h = a[e].head_node() as int;
            assert(na[h].incoming().contains(e as usize));
            let k = choose|k: int| 0 <= k < na[h].incoming().len() && na[h].incoming()[k] == e as usize;
            assert(nb[h].incoming()[k] == e as usize);
        } else {
            assert(nb[head as int].incoming().last() == m);
        }
    }
    assert forall|e: int| 0 <= e < b.len() implies nb[#[trigger] b[e].tail_node() as int].outgoing().contains(e as usize) by {
        if e < m {
            assert(b[e] == a[e]);
            assert(a[e].tail_node() < na.len());
            let t = a[e].tail_node() as int;
            assert(na[t].outgoing().contains(e as usize));
            let k = choose|k: int| 0 <= k < na[t].outgoing().len() && na[t].outgoing()[k] == e as usize;
            assert(nb[t].outgoing()[k] == e as usize);
        } else {
            assert(nb[tail as int].outgoing().last() == m);
        }
    }
}

/// Counts the occurrences of `x` in `s`.
fn count_occurrences(s: &[usize], x: usize) -> (r: usize)
    ensures
        r == count_in(s@, x),
{
    let mut count: usize = 0;
    let mut i: usize = 0;
    while i < s.len()
        invariant
            i <= s@.len(),
            count == count_in(s@.take(i as int), x),
            count <= i,
        decreases s@.len() - i,
    {
        assert(s@.take(i as int + 1).drop_last() =~= s@.take(i as int));
        if s[i] == x {
            count = count + 1;
        }
        i = i + 1;
    }
    assert(s@.take(s@.len() as int) =~= s@);
    count
}

/// The graph invariants do not depend on the bundles and parameters of the edges.
proof fn lemma_wf_same_ends<P>(a: Seq<Edge<P>>, b: Seq<Edge<P>>, nodes: Seq<Node>)
    requires
        graph_wf(a, nodes),
        a.len() == b.len(),
        forall|e: int| 0 <= e < b.len() ==> #[trigger] b[e].tail_node() == a[e].tail_node(),
        forall|e: int| 0 <= e < b.len() ==> #[trigger] b[e].head_node() == a[e].head_node(),
    ensures
        graph_wf(b, nodes),
{
    assert forall|e: int| 0 <= e < b.len() implies #[trigger] b[e].tail_node() < nodes.len() && b[e].head_node() < nodes.len() by {
        assert(b[e].tail_node() == a[e].tail_node());
        assert(b[e].head_node() == a[e].head_node());
        assert(a[e].tail_node() < nodes.len());
    }
    assert forall|v: int, k: int| 0 <= v < nodes.len() && 0 <= k < nodes[v].incoming().len() implies
        #[trigger] nodes[v].incoming()[k] < b.len() && b[nodes[v].incoming()[k] as int].head_node() == v by {
        let e = nodes[v].incoming()[k] as int;
        assert(e < a.len());
        assert(b[e].head_node() == a[e].head_node());
    }
    assert forall|v: int, k: int| 0 <= v < nodes.len() && 0 <= k < nodes[v].outgoing().len() implies
        #[trigger] nodes[v].outgoing()[k] < b.len() && b[nodes[v].outgoing()[k] as int].tail_node() == v by {
        let e = nodes[v].outgoing()[k] as int;
        assert(e < a.len());
        assert(b[e].tail_node() == a[e].tail_node());
    }
    assert forall|e: int| 0 <= e < b.len() implies nodes[#[trigger] b[e].head_node() as int].incoming().contains(e as usize) by {
        assert(b[e].head_node() == a[e].head_node());
        assert(nodes[a[e].head_node() as int].incoming().contains(e as usize));
    }
    assert forall|e: int| 0 <= e < b.len() implies nodes[#[trigger] b[e].tail_node() as int].outgoing().contains(e as usize) by {
        assert(b[e].tail_node() == a[e].tail_node());
        assert(nodes[a[e].tail_node() as int].outgoing().contains(e as usize));
    }
}

/// In a graph that meets the graph invariants, every outgoing edge of every
/// node is an edge whose head is a node.
pub proof fn lemma_graph_outgoing_consistent<P>(g: &Graph<P>)
    requires
        graph_wf(g.edges_view(), g.nodes_view()),
    ensures
        outgoing_consistent(g),
{
    assert forall|v: int, k: int|
        0 <= v < g.node_count() && 0 <= k < g.outgoing(v).len() implies #[trigger] g.outgoing(v)[k]
            < g.edge_count() && g.head_of(g.outgoing(v)[k] as int) < g.node_count() by {
        assert(g.nodes_view()[v].outgoing()[k] < g.edges_view().len());
    }
}

} // verus!
