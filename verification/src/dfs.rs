//! Depth-first search for one target node.
//!
//! The search keeps an explicit stack of nodes with the depth at which each
//! was found, and marks a node as visited when it leaves the stack, not when
//! it enters. A node can therefore stand on the stack several times; the
//! entry that leaves first decides its depth. The depth that is returned for
//! the target is the depth of the branch that reaches it first, which need
//! not be the shortest.

use crate::graph::{out_edges, Graph};
use crate::walk::{
    has_edge, lemma_closed_set_holds_reachable, lemma_reachable_in_iff, lemma_reachable_step,
    lemma_walk_stay, reachable, reachable_in,
};
use std::collections::HashMap;
use vstd::prelude::*;

verus! {

broadcast use vstd::std_specs::hash::group_hash_axioms;

/// The stack entries that a visit pushes: the targets that are not yet
/// visited, in adjacency order, each with the depth `depth`.
pub open spec fn unvisited_targets(targets: Seq<i32>, visited: Set<i32>, depth: int) -> Seq<(i32, int)>
    decreases targets.len(),
{
    if targets.len() == 0 {
        Seq::empty()
    } else {
        let earlier = unvisited_targets(targets.drop_last(), visited, depth);
        if visited.contains(targets.last()) {
            earlier
        } else {
            earlier.push((targets.last(), depth))
        }
    }
}

/// The nodes with outgoing edges that are not yet visited.
pub open spec fn unvisited_sources(g: Map<i32, Seq<i32>>, visited: Set<i32>) -> Set<i32> {
    g.dom().difference(visited)
}

/// The outcome of the search from a given stack (top at the end) and
/// visited set: the depth recorded with the target when it first leaves the
/// stack, or `None` when the stack runs empty before that.
pub open spec fn dfs_from(
    g: Map<i32, Seq<i32>>,
    stack: Seq<(i32, int)>,
    visited: Set<i32>,
    target: i32,
) -> Option<int>
    decreases unvisited_sources(g, visited).len(), stack.len(),
    when g.dom().finite()
    via dfs_from_decreases
{
    if stack.len() == 0 {
        None
    } else {
        let (node, depth) = stack.last();
        let rest = stack.drop_last();
        if visited.contains(node) {
            dfs_from(g, rest, visited, target)
        } else if node == target {
            Some(depth)
        } else {
            let seen = visited.insert(node);
            dfs_from(g, rest + unvisited_targets(out_edges(g, node), seen, depth + 1), seen, target)
        }
    }
}

/// The outcome of the search that starts with `start` alone on the stack
/// and nothing visited.
pub open spec fn dfs_depth(g: Map<i32, Seq<i32>>, start: i32, target: i32) -> Option<int> {
    dfs_from(g, seq![(start, 0int)], Set::empty(), target)
}

/// Visiting a node with outgoing edges leaves one unvisited source fewer;
/// visiting any other node leaves their set as it was.
proof fn lemma_visit(g: Map<i32, Seq<i32>>, visited: Set<i32>, node: i32)
    requires
        g.dom().finite(),
        !visited.contains(node),
    ensures
        unvisited_sources(g, visited).finite(),
        unvisited_sources(g, visited).len() <= g.dom().len(),
        g.contains_key(node) ==> unvisited_sources(g, visited.insert(node)).len() + 1 == unvisited_sources(
            g,
            visited,
        ).len(),
        !g.contains_key(node) ==> unvisited_sources(g, visited.insert(node)) == unvisited_sources(g, visited),
{
    let before = unvisited_sources(g, visited);
    let after = unvisited_sources(g, visited.insert(node));
    vstd::set_lib::lemma_len_subset(before, g.dom());
    if g.contains_key(node) {
        assert(after =~= before.remove(node));
    }
}

#[via_fn]
proof fn dfs_from_decreases(g: Map<i32, Seq<i32>>, stack: Seq<(i32, int)>, visited: Set<i32>, target: i32) {
    if stack.len() != 0 {
        let (node, depth) = stack.last();
        if !visited.contains(node) && node != target {
            lemma_visit(g, visited, node);
        }
    }
}

/// A search for the start node itself ends at once, at depth 0.
pub proof fn lemma_dfs_depth_of_start(g: Map<i32, Seq<i32>>, start: i32)
    requires
        g.dom().finite(),
    ensures
        dfs_depth(g, start, start) == Some(0int),
{
}

/// The stack as the search model sees it: depths as mathematical integers.
spec fn stack_model(stack: Seq<(i32, i32)>) -> Seq<(i32, int)> {
    stack.map_values(|entry: (i32, i32)| (entry.0, entry.1 as int))
}

/// Whether some stack entry holds `node`.
spec fn on_stack(stack: Seq<(i32, i32)>, node: i32) -> bool {
    exists|i: int| 0 <= i < stack.len() && (#[trigger] stack[i]).0 == node
}

/// Every stack entry holds a node that a walk of as many edges as the
/// entry's depth reaches from `start`, and a depth that leaves room for one
/// more edge for each source not yet visited.
spec fn entries_reached(
    g: Map<i32, Seq<i32>>,
    start: i32,
    stack: Seq<(i32, i32)>,
    visited: Set<i32>,
) -> bool {
    forall|i: int|
        0 <= i < stack.len() ==> reachable_in(g, start, (#[trigger] stack[i]).0, stack[i].1 as int)
            && stack[i].1 + unvisited_sources(g, visited).len() <= g.dom().len()
}

/// Every edge that leaves a visited node leads to a node that is visited or
/// waits on the stack.
spec fn edges_covered(g: Map<i32, Seq<i32>>, stack: Seq<(i32, i32)>, visited: Set<i32>) -> bool {
    forall|u: i32, v: i32|
        visited.contains(u) && #[trigger] has_edge(g, u, v) ==> visited.contains(v) || on_stack(
            stack,
            v,
        )
}

/// What stands on a stack stands on it after the top entry has left, or is
/// the node of that entry.
proof fn lemma_below_top(stack: Seq<(i32, i32)>)
    requires
        stack.len() > 0,
    ensures
        stack_model(stack).last() == (stack.last().0, stack.last().1 as int),
        stack_model(stack).drop_last() == stack_model(stack.drop_last()),
        forall|v: i32| on_stack(stack, v) ==> on_stack(stack.drop_last(), v) || v == stack.last().0,
{
    let rest = stack.drop_last();
    assert forall|v: i32| on_stack(stack, v) implies on_stack(rest, v) || v == stack.last().0 by {
        let k = choose|k: int| 0 <= k < stack.len() && (#[trigger] stack[k]).0 == v;
        if k < rest.len() {
            assert(rest[k].0 == v);
        }
    }
}

/// What stands on a stack stands on it under a new top entry, and so does
/// the node of that entry.
proof fn lemma_under_new_top(stack: Seq<(i32, i32)>, entry: (i32, i32))
    ensures
        stack_model(stack.push(entry)) == stack_model(stack).push((entry.0, entry.1 as int)),
        on_stack(stack.push(entry), entry.0),
        forall|v: i32| on_stack(stack, v) ==> on_stack(stack.push(entry), v),
{
    let higher = stack.push(entry);
    assert(higher[stack.len() as int].0 == entry.0);
    assert forall|v: i32| on_stack(stack, v) implies on_stack(higher, v) by {
        let k = choose|k: int| 0 <= k < stack.len() && (#[trigger] stack[k]).0 == v;
        assert(higher[k].0 == v);
    }
}

impl Graph {
    /// Searches depth-first from `start_node` for `target_node`.
    ///
    /// Returns `Some` exactly if `target_node` is reachable from
    /// `start_node`. The depth inside is the number of edges of the walk by
    /// which the search reached the target, as [`dfs_depth`] defines it; for
    /// `start_node == target_node` it is 0. Depths are counted in `i32`,
    /// which holds them as long as the graph has no more than `i32::MAX`
    /// nodes with outgoing edges.
    pub fn dfs(&self, start_node: i32, target_node: i32) -> (found: Option<i32>)
        requires
            self@.dom().len() <= i32::MAX,
        ensures
            found is Some <==> reachable(self@, start_node, target_node),
            found matches Some(depth) ==> reachable_in(self@, start_node, target_node, depth as int),
            found matches Some(depth) ==> dfs_depth(self@, start_node, target_node) == Some(
                depth as int,
            ),
            found is None ==> dfs_depth(self@, start_node, target_node) is None,
            start_node == target_node ==> found == Some(0i32),
    {
        let ghost g = self@;
        let mut stack: Vec<(i32, i32)> = Vec::new();
        stack.push((start_node, 0));
        let mut visited: HashMap<i32, bool> = HashMap::new();
        proof {
            self.lemma_sources_finite();
            lemma_walk_stay(g, start_node);
            lemma_dfs_depth_of_start(g, start_node);
            vstd::set_lib::lemma_len_subset(unvisited_sources(g, visited@.dom()), g.dom());
        }
        while stack.len() > 0
            invariant
                g == self@,
                g.dom().finite(),
                g.dom().len() <= i32::MAX,
                dfs_from(g, stack_model(stack@), visited@.dom(), target_node) == dfs_depth(
                    g,
                    start_node,
                    target_node,
                ),
                start_node == target_node ==> dfs_depth(g, start_node, target_node) == Some(0int),
                entries_reached(g, start_node, stack@, visited@.dom()),
                edges_covered(g, stack@, visited@.dom()),
                !visited@.contains_key(target_node),
                visited@.contains_key(start_node) || on_stack(stack@, start_node),
            decreases unvisited_sources(g, visited@.dom()).len(), stack@.len(),
        {
            let ghost before = stack@;
            let ghost seen_before = visited@.dom();
            let (current_node, depth) = stack.pop().unwrap();
            proof {
                lemma_below_top(before);
            }
            if !visited.contains_key(&current_node) {
                if current_node == target_node {
                    proof {
                        lemma_reachable_in_iff(g, start_node, target_node);
                    }
                    return Some(depth);
                }
                visited.insert(current_node, true);
                let ghost rest = stack@;
                let ghost seen = visited@.dom();
                proof {
                    lemma_visit(g, seen_before, current_node);
                }
                match self.adjacency_list.get(&current_node) {
                    Some(neighbors) => {
                        let mut i: usize = 0;
                        while i < neighbors.len()
                            invariant
                                0 <= i <= neighbors.len(),
                                g.dom().len() <= i32::MAX,
                                seen == visited@.dom(),
                                depth + 1 + unvisited_sources(g, seen).len() <= g.dom().len(),
                                reachable_in(g, start_node, current_node, depth as int),
                                out_edges(g, current_node) == neighbors@,
                                stack_model(stack@) == stack_model(rest) + unvisited_targets(
                                    neighbors@.take(i as int),
                                    seen,
                                    depth + 1,
                                ),
                                entries_reached(g, start_node, stack@, seen),
                                forall|v: i32| on_stack(rest, v) ==> on_stack(stack@, v),
                                forall|k: int|
                                    0 <= k < i ==> seen.contains(#[trigger] neighbors@[k]) || on_stack(
                                        stack@,
                                        neighbors@[k],
                                    ),
                            decreases neighbors.len() - i,
                        {
                            let neighbor = neighbors[i];
                            proof {
                                assert(neighbors@.take(i + 1).drop_last() =~= neighbors@.take(i as int));
                            }
                            if !visited.contains_key(&neighbor) {
                                proof {
                                    lemma_reachable_step(
                                        g,
                                        start_node,
                                        current_node,
                                        neighbor,
                                        depth as int,
                                    );
                                    lemma_under_new_top(stack@, (neighbor, (depth + 1) as i32));
                                }
                                stack.push((neighbor, depth + 1));
                            }
                            i += 1;
                        }
                        proof {
                            assert(neighbors@.take(neighbors@.len() as int) =~= neighbors@);
                        }
                    },
                    None => {},
                }
            }
        }
        proof {
            lemma_closed_set_holds_reachable(g, start_node, visited@.dom());
        }
        None
    }
}

} // verus!
