//! Walks, reachability and hop distance over the view of a graph.
//!
//! Everything here is specification and proof: the traversals state their
//! results in these terms.

use crate::graph::out_edges;
use vstd::prelude::*;

verus! {

/// Whether the graph holds at least one edge `from -> to`.
pub open spec fn has_edge(g: Map<i32, Seq<i32>>, from: i32, to: i32) -> bool {
    out_edges(g, from).contains(to)
}

/// A walk is a non-empty sequence of nodes in which every node has an edge
/// to its successor. Nodes and edges may repeat.
pub open spec fn is_walk(g: Map<i32, Seq<i32>>, nodes: Seq<i32>) -> bool {
    &&& nodes.len() > 0
    &&& forall|i: int| 0 <= i < nodes.len() - 1 ==> has_edge(g, #[trigger] nodes[i], nodes[i + 1])
}

/// A walk that starts at `from` and ends at `to`.
pub open spec fn is_walk_between(g: Map<i32, Seq<i32>>, nodes: Seq<i32>, from: i32, to: i32) -> bool {
    &&& is_walk(g, nodes)
    &&& nodes[0] == from
    &&& nodes.last() == to
}

/// A walk from `from` to `to` over exactly `hops` edges exists.
pub open spec fn reachable_in(g: Map<i32, Seq<i32>>, from: i32, to: i32, hops: int) -> bool {
    exists|nodes: Seq<i32>| #[trigger] is_walk_between(g, nodes, from, to) && nodes.len() - 1 == hops
}

/// Some walk leads from `from` to `to`. Every node reaches itself.
pub open spec fn reachable(g: Map<i32, Seq<i32>>, from: i32, to: i32) -> bool {
    exists|nodes: Seq<i32>| is_walk_between(g, nodes, from, to)
}

/// `hops` is the number of edges of a shortest walk from `from` to `to`.
pub open spec fn is_distance(g: Map<i32, Seq<i32>>, from: i32, to: i32, hops: int) -> bool {
    &&& reachable_in(g, from, to, hops)
    &&& forall|nodes: Seq<i32>| #[trigger] is_walk_between(g, nodes, from, to) ==> hops <= nodes.len() - 1
}

/// The hop distance from `from` to `to`; meaningful where `to` is reachable.
pub open spec fn distance(g: Map<i32, Seq<i32>>, from: i32, to: i32) -> int {
    choose|hops: int| is_distance(g, from, to, hops)
}

/// The nodes that `from` reaches, itself included.
pub open spec fn reachable_set(g: Map<i32, Seq<i32>>, from: i32) -> Set<i32> {
    Set::new(|to: i32| reachable(g, from, to))
}

/// The walk that stays at one node.
pub proof fn lemma_walk_stay(g: Map<i32, Seq<i32>>, node: i32)
    ensures
        is_walk_between(g, seq![node], node, node),
        reachable_in(g, node, node, 0),
        reachable(g, node, node),
{
}

/// A walk followed by one more edge is a walk.
pub proof fn lemma_walk_extend(g: Map<i32, Seq<i32>>, nodes: Seq<i32>, from: i32, via: i32, to: i32)
    requires
        is_walk_between(g, nodes, from, via),
        has_edge(g, via, to),
    ensures
        is_walk_between(g, nodes.push(to), from, to),
{
}

/// One more edge behind a walk of `hops` edges gives one of `hops + 1`.
pub proof fn lemma_reachable_step(g: Map<i32, Seq<i32>>, from: i32, via: i32, to: i32, hops: int)
    requires
        reachable_in(g, from, via, hops),
        has_edge(g, via, to),
    ensures
        reachable_in(g, from, to, hops + 1),
{
    let nodes = choose|nodes: Seq<i32>| #[trigger]
        is_walk_between(g, nodes, from, via) && nodes.len() - 1 == hops;
    lemma_walk_extend(g, nodes, from, via, to);
}

/// A walk over some number of edges shows reachability, and the other way
/// round.
pub proof fn lemma_reachable_in_iff(g: Map<i32, Seq<i32>>, from: i32, to: i32)
    ensures
        reachable(g, from, to) <==> exists|hops: int| hops >= 0 && #[trigger] reachable_in(g, from, to, hops),
{
    if reachable(g, from, to) {
        let nodes = choose|nodes: Seq<i32>| is_walk_between(g, nodes, from, to);
        assert(reachable_in(g, from, to, nodes.len() - 1));
    }
    if exists|hops: int| hops >= 0 && #[trigger] reachable_in(g, from, to, hops) {
        let hops = choose|hops: int| hops >= 0 && #[trigger] reachable_in(g, from, to, hops);
        let nodes = choose|nodes: Seq<i32>| #[trigger]
            is_walk_between(g, nodes, from, to) && nodes.len() - 1 == hops;
    }
}

/// A set that holds `start` and, with each node, the targets of its edges
/// holds every node that `start` reaches.
pub proof fn lemma_closed_set_holds_reachable(g: Map<i32, Seq<i32>>, start: i32, closed: Set<i32>)
    requires
        closed.contains(start),
        forall|u: i32, v: i32| closed.contains(u) && #[trigger] has_edge(g, u, v) ==> closed.contains(v),
    ensures
        forall|v: i32| reachable(g, start, v) ==> closed.contains(v),
{
    assert forall|v: i32| reachable(g, start, v) implies closed.contains(v) by {
        let nodes = choose|nodes: Seq<i32>| is_walk_between(g, nodes, start, v);
        lemma_closed_set_holds_walk(g, start, closed, nodes, nodes.len() - 1);
    }
}

proof fn lemma_closed_set_holds_walk(
    g: Map<i32, Seq<i32>>,
    start: i32,
    closed: Set<i32>,
    nodes: Seq<i32>,
    i: int,
)
    requires
        closed.contains(start),
        forall|u: i32, v: i32| closed.contains(u) && #[trigger] has_edge(g, u, v) ==> closed.contains(v),
        is_walk(g, nodes),
        nodes[0] == start,
        0 <= i < nodes.len(),
    ensures
        closed.contains(nodes[i]),
    decreases i,
{
    if i > 0 {
        lemma_closed_set_holds_walk(g, start, closed, nodes, i - 1);
    }
}

/// Levels that start at 0 and rise by at most one along every edge bound
/// the walks from `start` from below: the node reached after `i` edges has
/// a level of at most `i`.
pub proof fn lemma_levels_bound_walk(
    g: Map<i32, Seq<i32>>,
    start: i32,
    level: Map<i32, i32>,
    nodes: Seq<i32>,
    i: int,
)
    requires
        level.contains_key(start),
        level[start] == 0,
        forall|u: i32, v: i32|
            level.contains_key(u) && #[trigger] has_edge(g, u, v) ==> level.contains_key(v) && level[v]
                <= level[u] + 1,
        is_walk(g, nodes),
        nodes[0] == start,
        0 <= i < nodes.len(),
    ensures
        level.contains_key(nodes[i]),
        level[nodes[i]] <= i,
    decreases i,
{
    if i > 0 {
        lemma_levels_bound_walk(g, start, level, nodes, i - 1);
    }
}

/// Where a walk of `hops` edges exists, some number of edges is the least.
proof fn lemma_least_hops(g: Map<i32, Seq<i32>>, from: i32, to: i32, hops: int)
    requires
        reachable_in(g, from, to, hops),
    ensures
        exists|least: int| is_distance(g, from, to, least),
    decreases hops,
{
    if forall|nodes: Seq<i32>| #[trigger] is_walk_between(g, nodes, from, to) ==> hops <= nodes.len() - 1 {
        assert(is_distance(g, from, to, hops));
    } else {
        let shorter = choose|nodes: Seq<i32>| #[trigger]
            is_walk_between(g, nodes, from, to) && nodes.len() - 1 < hops;
        lemma_least_hops(g, from, to, shorter.len() - 1);
    }
}

/// A node that is reachable has a hop distance.
pub proof fn lemma_reachable_has_distance(g: Map<i32, Seq<i32>>, from: i32, to: i32)
    requires
        reachable(g, from, to),
    ensures
        is_distance(g, from, to, distance(g, from, to)),
        distance(g, from, to) >= 0,
{
    let nodes = choose|nodes: Seq<i32>| is_walk_between(g, nodes, from, to);
    lemma_least_hops(g, from, to, nodes.len() - 1);
}

/// Two nodes have at most one hop distance.
pub proof fn lemma_distance_unique(g: Map<i32, Seq<i32>>, from: i32, to: i32, hops: int)
    requires
        is_distance(g, from, to, hops),
    ensures
        distance(g, from, to) == hops,
{
}

} // verus!
