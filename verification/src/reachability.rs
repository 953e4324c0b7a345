//! Nodes reachable along accepted edges.

use rustc_hash::FxHashSet;
use vstd::prelude::*;
use crate::collections::{node_set_insert, set_new};
use crate::common::{EdgeIdx, NodeIdx};
use crate::graph::{outgoing_consistent, GraphOps};

verus! {

/// Whether one accepted outgoing edge of `u` ends at `w`.
pub open spec fn accepted_step<G: GraphOps>(g: &G, ok: spec_fn(EdgeIdx) -> bool, u: NodeIdx, w: NodeIdx) -> bool {
    exists|k: int|
        0 <= k < g.outgoing(u as int).len() && ok(#[trigger] g.outgoing(u as int)[k])
            && g.head_of(g.outgoing(u as int)[k] as int) == w
}

/// Whether `walk` starts at `origin` and each node follows the previous one
/// along an accepted edge.
pub open spec fn is_walk<G: GraphOps>(g: &G, ok: spec_fn(EdgeIdx) -> bool, origin: NodeIdx, walk: Seq<NodeIdx>) -> bool {
    &&& walk.len() > 0
    &&& walk[0] == origin
    &&& forall|i: int| 0 <= i < walk.len() - 1 ==> #[trigger] accepted_step(g, ok, walk[i], walk[i + 1])
}

/// Whether `w` can be reached from `origin` along accepted edges.
pub open spec fn reachable<G: GraphOps>(g: &G, ok: spec_fn(EdgeIdx) -> bool, origin: NodeIdx, w: NodeIdx) -> bool {
    exists|walk: Seq<NodeIdx>| is_walk(g, ok, origin, walk) && walk.last() == w
}

/// The edges that `edge_okay` may accept: those for which it can return `true`.
pub open spec fn may_accept<F: Fn(EdgeIdx) -> bool>(edge_okay: F) -> spec_fn(EdgeIdx) -> bool {
    |e: EdgeIdx| call_ensures(edge_okay, (e,), true)
}

/// The edges that `edge_okay` must accept: those for which it cannot return `false`.
pub open spec fn must_accept<F: Fn(EdgeIdx) -> bool>(edge_okay: F) -> spec_fn(EdgeIdx) -> bool {
    |e: EdgeIdx| !call_ensures(edge_okay, (e,), false)
}

/// Extending a walk to `u` by an accepted edge of `u` reaches the edge's head.
pub proof fn lemma_reach_step<G: GraphOps>(g: &G, ok: spec_fn(EdgeIdx) -> bool, origin: NodeIdx, u: NodeIdx, k: int)
    requires
        reachable(g, ok, origin, u),
        0 <= k < g.outgoing(u as int).len(),
        ok(g.outgoing(u as int)[k]),
    ensures
        reachable(g, ok, origin, g.head_of(g.outgoing(u as int)[k] as int)),
{
    let w = g.head_of(g.outgoing(u as int)[k] as int);
    let walk = choose|walk: Seq<NodeIdx>| is_walk(g, ok, origin, walk) && walk.last() == u;
    let longer = walk.push(w);
    assert(accepted_step(g, ok, u, w));
    assert forall|i: int| 0 <= i < longer.len() - 1 implies #[trigger] accepted_step(g, ok, longer[i], longer[i + 1]) by {
        if i < walk.len() - 1 {
            assert(longer[i] == walk[i] && longer[i + 1] == walk[i + 1]);
        } else {
            assert(longer[i] == u);
        }
    }
    assert(is_walk(g, ok, origin, longer));
    assert(longer.last() == w);
}

/// A set of nodes that holds `origin` and every head of an accepted edge of
/// each of its nodes holds every node reachable from `origin`.
pub proof fn lemma_closed_holds_reachable<G: GraphOps>(g: &G, ok: spec_fn(EdgeIdx) -> bool, origin: NodeIdx, s: Set<NodeIdx>, w: NodeIdx)
    requires
        s.contains(origin),
        forall|u: NodeIdx, k: int|
            s.contains(u) && 0 <= k < g.outgoing(u as int).len() && ok(#[trigger] g.outgoing(u as int)[k])
                ==> s.contains(g.head_of(g.outgoing(u as int)[k] as int)),
        reachable(g, ok, origin, w),
    ensures
        s.contains(w),
{
    let walk = choose|walk: Seq<NodeIdx>| is_walk(g, ok, origin, walk) && walk.last() == w;
    lemma_walk_stays_in(g, ok, origin, s, walk, walk.len() - 1);
}

/// Every node of a walk from `origin` lies in a set that holds `origin` and is
/// closed under accepted steps.
proof fn lemma_walk_stays_in<G: GraphOps>(g: &G, ok: spec_fn(EdgeIdx) -> bool, origin: NodeIdx, s: Set<NodeIdx>, walk: Seq<NodeIdx>, i: int)
    requires
        s.contains(origin),
        forall|u: NodeIdx, k: int|
            s.contains(u) && 0 <= k < g.outgoing(u as int).len() && ok(#[trigger] g.outgoing(u as int)[k])
                ==> s.contains(g.head_of(g.outgoing(u as int)[k] as int)),
        is_walk(g, ok, origin, walk),
        0 <= i < walk.len(),
    ensures
        s.contains(walk[i]),
    decreases i,
{
    if i > 0 {
        lemma_walk_stays_in(g, ok, origin, s, walk, i - 1);
        assert(accepted_step(g, ok, walk[i - 1], walk[(i - 1) + 1]));
        let k = choose|k: int|
            0 <= k < g.outgoing(walk[i - 1] as int).len() && ok(#[trigger] g.outgoing(walk[i - 1] as int)[k])
                && g.head_of(g.outgoing(walk[i - 1] as int)[k] as int) == walk[i];
    }
}

/// Returns the nodes reachable from `origin` along outgoing edges accepted by
/// `edge_okay`. The origin itself is always included and must be a valid node
/// index. Uses depth-first traversal and visits each reachable node once.
///
/// Every returned node is reachable along edges that `edge_okay` may accept,
/// and every node reachable along edges that it must accept is returned; for
/// a closure whose answer depends on the edge alone the two coincide.
pub fn reachable_nodes<G: GraphOps, F: Fn(EdgeIdx) -> bool>(graph: &G, origin: NodeIdx, edge_okay: F) -> (r: FxHashSet<NodeIdx>)
    requires
        origin < graph.node_count(),
        outgoing_consistent(graph),
        forall|e: EdgeIdx| call_requires(edge_okay, (e,)),
    ensures
        r@.contains(origin),
        forall|w: NodeIdx| r@.contains(w) ==> w < graph.node_count() && reachable(graph, may_accept(edge_okay), origin, w),
        forall|w: NodeIdx| reachable(graph, must_accept(edge_okay), origin, w) ==> r@.contains(w),
{
    let ghost may = may_accept(edge_okay);
    let ghost must = must_accept(edge_okay);
    let num_nodes = graph.num_nodes();
    let ghost n = graph.node_count();
    let mut visited: FxHashSet<NodeIdx> = set_new();
    let mut stack: Vec<NodeIdx> = Vec::new();
    stack.push(origin);
    proof {
        assert(is_walk(graph, may, origin, seq![origin]));
        assert(seq![origin].last() == origin);
        assert(stack@[0] == origin);
    }
    while stack.len() > 0
        invariant
            n == graph.node_count(),
            num_nodes == n,
            origin < n,
            outgoing_consistent(graph),
            forall|e: EdgeIdx| call_requires(edge_okay, (e,)),
            may == may_accept(edge_okay),
            must == must_accept(edge_okay),
            visited@.subset_of(Set::<NodeIdx>::range(0, num_nodes)),
            forall|i: int| 0 <= i < stack@.len() ==> #[trigger] stack@[i] < n,
            forall|w: NodeIdx| visited@.contains(w) ==> reachable(graph, may, origin, w),
            forall|i: int| 0 <= i < stack@.len() ==> reachable(graph, may, origin, #[trigger] stack@[i]),
            visited@.contains(origin) || stack@.contains(origin),
            forall|u: NodeIdx, k: int|
                visited@.contains(u) && 0 <= k < graph.outgoing(u as int).len() && must(#[trigger] graph.outgoing(u as int)[k])
                    ==> visited@.contains(graph.head_of(graph.outgoing(u as int)[k] as int))
                        || stack@.contains(graph.head_of(graph.outgoing(u as int)[k] as int)),
        decreases n - visited@.len(), stack@.len(),
    {
        proof {
            vstd::set_lib::range_set_properties::<NodeIdx>(0, n as NodeIdx);
            vstd::set_lib::lemma_len_subset(visited@, Set::<NodeIdx>::range(0, num_nodes));
        }
        let ghost old_stack = stack@;
        let ghost old_visited = visited@;
        let node_idx = stack.pop().unwrap();
        proof {
            assert(old_stack.last() == node_idx);
            assert(stack@ == old_stack.drop_last());
            assert forall|w: NodeIdx| old_stack.contains(w) implies stack@.contains(w) || w == node_idx by {
                let i = choose|i: int| 0 <= i < old_stack.len() && old_stack[i] == w;
                if i < old_stack.len() - 1 {
                    assert(stack@[i] == w);
                }
            }
        }
        if !node_set_insert(&mut visited, node_idx) {
            continue;
        }
        proof {
            assert(old_stack[old_stack.len() - 1] == node_idx);
            assert(node_idx < n);
            assert(visited@.subset_of(Set::<NodeIdx>::range(0, num_nodes)));
            assert(visited@.len() == old_visited.len() + 1);
            vstd::set_lib::range_set_properties::<NodeIdx>(0, num_nodes);
            vstd::set_lib::lemma_len_subset(visited@, Set::<NodeIdx>::range(0, num_nodes));
        }
        let ghost base_stack = stack@;
        let outgoing = graph.outgoing_edges(node_idx);
        let mut k: usize = 0;
        while k < outgoing.len()
            invariant
                n == graph.node_count(),
                outgoing_consistent(graph),
                node_idx < n,
                outgoing@ == graph.outgoing(node_idx as int),
                forall|e: EdgeIdx| call_requires(edge_okay, (e,)),
                may == may_accept(edge_okay),
                must == must_accept(edge_okay),
                reachable(graph, may, origin, node_idx),
                k <= outgoing@.len(),
                stack@.len() >= base_stack.len(),
                forall|i: int| 0 <= i < base_stack.len() ==> #[trigger] stack@[i] == base_stack[i],
                forall|i: int| 0 <= i < stack@.len() ==> #[trigger] stack@[i] < n,
                forall|i: int| 0 <= i < stack@.len() ==> reachable(graph, may, origin, #[trigger] stack@[i]),
                forall|j: int| 0 <= j < k && must(#[trigger] outgoing@[j]) ==> stack@.contains(graph.head_of(outgoing@[j] as int)),
            decreases outgoing@.len() - k,
        {
            let edge_idx = outgoing[k];
            let ghost before = stack@;
            if edge_okay(edge_idx) {
                let head = graph.edge_head(edge_idx);
                proof {
                    assert(outgoing@[k as int] == edge_idx);
                    assert(may(edge_idx));
                    lemma_reach_step(graph, may, origin, node_idx, k as int);
                }
                stack.push(head);
                proof {
                    assert(stack@[stack@.len() - 1] == head);
                    assert forall|j: int| 0 <= j < k && must(#[trigger] outgoing@[j]) implies stack@.contains(graph.head_of(outgoing@[j] as int)) by {
                        let w = graph.head_of(outgoing@[j] as int);
                        let i = choose|i: int| 0 <= i < before.len() && before[i] == w;
                        assert(stack@[i] == w);
                    }
                }
            } else {
                proof {
                    assert(outgoing@[k as int] == edge_idx);
                    assert(!must(edge_idx));
                }
            }
            k = k + 1;
        }
        proof {
            assert forall|w: NodeIdx| visited@.contains(w) implies reachable(graph, may, origin, w) by {
                if w != node_idx {
                    assert(old_visited.contains(w));
                }
            }
            assert forall|u: NodeIdx, j: int|
                visited@.contains(u) && 0 <= j < graph.outgoing(u as int).len() && must(#[trigger] graph.outgoing(u as int)[j])
                    implies visited@.contains(graph.head_of(graph.outgoing(u as int)[j] as int))
                        || stack@.contains(graph.head_of(graph.outgoing(u as int)[j] as int)) by {
                let w = graph.head_of(graph.outgoing(u as int)[j] as int);
                if u == node_idx {
                    assert(outgoing@[j] == graph.outgoing(u as int)[j]);
                } else {
                    assert(old_visited.contains(u));
                    if old_stack.contains(w) && w != node_idx {
                        let i = choose|i: int| 0 <= i < base_stack.len() && base_stack[i] == w;
                        assert(stack@[i] == w);
                    }
                }
            }
            if stack@.contains(origin) {
            } else if origin != node_idx && old_stack.contains(origin) {
                let i = choose|i: int| 0 <= i < base_stack.len() && base_stack[i] == origin;
                assert(stack@[i] == origin);
            }
        }
    }
    proof {
        assert forall|w: NodeIdx| reachable(graph, must, origin, w) implies visited@.contains(w) by {
            lemma_closed_holds_reachable(graph, must, origin, visited@, w);
        }
    }
    visited
}

} // verus!
