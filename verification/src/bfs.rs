//! Breadth-first search: hop distances from one source node.

use crate::graph::Graph;
use crate::walk::{
    distance, has_edge, is_distance, is_walk_between, lemma_distance_unique,
    lemma_levels_bound_walk, lemma_reachable_in_iff, lemma_reachable_step, lemma_walk_stay,
    reachable, reachable_in,
};
use std::collections::HashMap;
use std::collections::VecDeque;
use vstd::prelude::*;

verus! {

broadcast use vstd::std_specs::hash::group_hash_axioms;

/// Every node with a distance is reached from `start` by a walk of that
/// many edges, and no distance exceeds `bound`.
spec fn witnessed(g: Map<i32, Seq<i32>>, start: i32, dist: Map<i32, i32>, bound: int) -> bool {
    forall|v: i32| #[trigger]
        dist.contains_key(v) ==> 0 <= dist[v] <= bound && reachable_in(g, start, v, dist[v] as int)
}

/// The nodes in the queue have distances, are not closed, and stand in the
/// order of their distances.
spec fn queue_in_order(dist: Map<i32, i32>, queue: Seq<i32>, closed: Set<i32>) -> bool {
    &&& queue.no_duplicates()
    &&& forall|i: int|
        0 <= i < queue.len() ==> dist.contains_key(#[trigger] queue[i]) && !closed.contains(queue[i])
    &&& forall|i: int, j: int|
        0 <= i <= j < queue.len() ==> dist[#[trigger] queue[i]] <= dist[#[trigger] queue[j]]
}

/// Every closed node has a distance, and each of its edges leads to a node
/// with a distance that is at most one higher.
spec fn closed_under_edges(g: Map<i32, Seq<i32>>, dist: Map<i32, i32>, closed: Set<i32>) -> bool {
    &&& forall|u: i32| #[trigger] closed.contains(u) ==> dist.contains_key(u)
    &&& forall|u: i32, v: i32|
        closed.contains(u) && #[trigger] has_edge(g, u, v) ==> dist.contains_key(v) && dist[v]
            <= dist[u] + 1
}

/// The closed nodes with outgoing edges: finitely many, all of them sources
/// of the graph.
spec fn counts_closed_sources(g: Map<i32, Seq<i32>>, expanded: Set<i32>, closed: Set<i32>) -> bool {
    &&& g.dom().finite()
    &&& g.dom().len() <= i32::MAX
    &&& expanded.finite()
    &&& expanded.subset_of(g.dom())
    &&& expanded.subset_of(closed)
}

/// An element of a non-empty queue is its front or stands behind it.
proof fn lemma_behind_front(queue: Seq<i32>, node: i32)
    requires
        queue.len() > 0,
        queue.contains(node),
        node != queue[0],
    ensures
        queue.skip(1).contains(node),
{
    let k = choose|k: int| 0 <= k < queue.len() && queue[k] == node;
    assert(queue.skip(1)[k - 1] == node);
}

/// A queue in order stays in order without its front, and then has no
/// node with a distance below that of the old front.
proof fn lemma_queue_without_front(dist: Map<i32, i32>, queue: Seq<i32>, closed: Set<i32>)
    requires
        queue.len() > 0,
        queue_in_order(dist, queue, closed),
    ensures
        queue_in_order(dist, queue.skip(1), closed),
        !queue.skip(1).contains(queue[0]),
        forall|i: int|
            0 <= i < queue.skip(1).len() ==> dist[queue[0]] <= dist[#[trigger] queue.skip(1)[i]],
{
}

/// A queue in order stays in order with a new node at its back whose
/// distance is not below any in the queue.
proof fn lemma_queue_with_back(
    dist: Map<i32, i32>,
    queue: Seq<i32>,
    closed: Set<i32>,
    node: i32,
    hops: i32,
)
    requires
        queue_in_order(dist, queue, closed),
        !dist.contains_key(node),
        !closed.contains(node),
        forall|i: int| 0 <= i < queue.len() ==> dist[#[trigger] queue[i]] <= hops,
    ensures
        queue_in_order(dist.insert(node, hops), queue.push(node), closed),
        forall|v: i32| queue.contains(v) ==> queue.push(node).contains(v),
        queue.push(node).contains(node),
{
    let longer = queue.push(node);
    assert(longer[queue.len() as int] == node);
    assert forall|v: i32| queue.contains(v) implies longer.contains(v) by {
        let k = choose|k: int| 0 <= k < queue.len() && queue[k] == v;
        assert(longer[k] == v);
    }
}

impl Graph {
    /// Hop distances from `start_node` to every node it reaches.
    ///
    /// The result has an entry for exactly the nodes reachable from
    /// `start_node`, the node itself included with distance 0, and maps each
    /// to the number of edges of a shortest walk to it. The distances are
    /// counted in `i32`, which holds them as long as the graph has no more
    /// than `i32::MAX` nodes with outgoing edges.
    pub fn bfs(&self, start_node: i32) -> (distances: HashMap<i32, i32>)
        requires
            self@.dom().len() <= i32::MAX,
        ensures
            forall|v: i32| distances@.contains_key(v) <==> reachable(self@, start_node, v),
            forall|v: i32| #[trigger]
                distances@.contains_key(v) ==> is_distance(self@, start_node, v, distances@[v] as int),
            forall|v: i32| #[trigger]
                distances@.contains_key(v) ==> distances@[v] == distance(self@, start_node, v),
            distances@.contains_key(start_node),
            distances@[start_node] == 0,
    {
        let ghost g = self@;
        let mut distances: HashMap<i32, i32> = HashMap::new();
        let mut queue: VecDeque<i32> = VecDeque::new();
        queue.push_back(start_node);
        distances.insert(start_node, 0);
        // The nodes that have left the queue, and those among them with
        // outgoing edges.
        let ghost mut closed: Set<i32> = Set::empty();
        let ghost mut expanded: Set<i32> = Set::empty();
        proof {
            lemma_walk_stay(g, start_node);
            self.lemma_sources_finite();
        }
        while queue.len() > 0
            invariant
                g == self@,
                distances@.contains_key(start_node),
                distances@[start_node] == 0,
                witnessed(g, start_node, distances@, expanded.len() as int),
                queue_in_order(distances@, queue@, closed),
                closed_under_edges(g, distances@, closed),
                counts_closed_sources(g, expanded, closed),
                forall|v: i32| #[trigger]
                    distances@.contains_key(v) ==> closed.contains(v) || queue@.contains(v),
                forall|v: i32|
                    queue@.len() > 0 && #[trigger] distances@.contains_key(v) ==> distances@[v]
                        <= distances@[queue@[0]] + 1,
            decreases g.dom().len() - expanded.len(), queue@.len(),
        {
            let ghost before = queue@;
            let current_node = queue.pop_front().unwrap();
            let current = *distances.get(&current_node).unwrap();
            proof {
                lemma_queue_without_front(distances@, before, closed);
                vstd::set_lib::lemma_len_subset(expanded, g.dom());
                assert forall|v: i32| #[trigger] distances@.contains_key(v) implies closed.contains(v)
                    || queue@.contains(v) || v == current_node by {
                    if !closed.contains(v) && v != current_node {
                        lemma_behind_front(before, v);
                    }
                }
            }
            match self.adjacency_list.get(&current_node) {
                Some(neighbors) => {
                    proof {
                        expanded = expanded.insert(current_node);
                        vstd::set_lib::lemma_len_subset(expanded, g.dom());
                    }
                    let mut i: usize = 0;
                    while i < neighbors.len()
                        invariant
                            0 <= i <= neighbors.len(),
                            g.contains_key(current_node),
                            g[current_node] == neighbors@,
                            distances@.contains_key(start_node),
                            distances@[start_node] == 0,
                            distances@.contains_key(current_node),
                            distances@[current_node] == current,
                            !closed.contains(current_node),
                            !queue@.contains(current_node),
                            current + 1 <= expanded.len() <= i32::MAX,
                            witnessed(g, start_node, distances@, expanded.len() as int),
                            queue_in_order(distances@, queue@, closed),
                            closed_under_edges(g, distances@, closed),
                            counts_closed_sources(g, expanded, closed.insert(current_node)),
                            forall|v: i32| #[trigger]
                                distances@.contains_key(v) ==> closed.contains(v) || queue@.contains(v)
                                    || v == current_node,
                            forall|v: i32| #[trigger]
                                distances@.contains_key(v) ==> distances@[v] <= current + 1,
                            forall|k: int|
                                0 <= k < queue@.len() ==> current <= distances@[#[trigger] queue@[k]],
                            forall|k: int|
                                0 <= k < i ==> distances@.contains_key(#[trigger] neighbors@[k]),
                        decreases neighbors.len() - i,
                    {
                        let neighbor = neighbors[i];
                        if !distances.contains_key(&neighbor) {
                            proof {
                                lemma_reachable_step(
                                    g,
                                    start_node,
                                    current_node,
                                    neighbor,
                                    current as int,
                                );
                                lemma_queue_with_back(
                                    distances@,
                                    queue@,
                                    closed,
                                    neighbor,
                                    (current + 1) as i32,
                                );
                            }
                            distances.insert(neighbor, current + 1);
                            queue.push_back(neighbor);
                        }
                        i += 1;
                    }
                },
                None => {},
            }
            proof {
                closed = closed.insert(current_node);
            }
        }
        proof {
            assert forall|v: i32| #[trigger] distances@.contains_key(v) implies is_distance(
                g,
                start_node,
                v,
                distances@[v] as int,
            ) && distances@[v] == distance(g, start_node, v) && reachable(g, start_node, v) by {
                assert forall|nodes: Seq<i32>| #[trigger]
                    is_walk_between(g, nodes, start_node, v) implies distances@[v] <= nodes.len()
                    - 1 by {
                    lemma_levels_bound_walk(g, start_node, distances@, nodes, nodes.len() - 1);
                }
                lemma_distance_unique(g, start_node, v, distances@[v] as int);
                lemma_reachable_in_iff(g, start_node, v);
            }
            assert forall|v: i32| reachable(g, start_node, v) implies distances@.contains_key(v) by {
                let nodes = choose|nodes: Seq<i32>| is_walk_between(g, nodes, start_node, v);
                lemma_levels_bound_walk(g, start_node, distances@, nodes, nodes.len() - 1);
            }
        }
        distances
    }
}

} // verus!
