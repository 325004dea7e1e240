//! The adjacency store and its mathematical view.

use std::collections::HashMap;
use vstd::prelude::*;

verus! {

broadcast use vstd::std_specs::hash::group_hash_axioms;

/// A directed multigraph over `i32` node identifiers.
///
/// A node has an entry exactly if it is the source of at least one edge; the
/// entry lists the targets of its edges in insertion order, duplicates and
/// self-loops included.
pub struct Graph {
    pub adjacency_list: HashMap<i32, Vec<i32>>,
}

/// The targets of the edges leaving `node`, in insertion order; empty for a
/// node without an entry.
pub open spec fn out_edges(g: Map<i32, Seq<i32>>, node: i32) -> Seq<i32> {
    if g.contains_key(node) {
        g[node]
    } else {
        Seq::empty()
    }
}

/// The graph `g` with one more edge `src -> dst`, appended to the edges that
/// leave `src`.
pub open spec fn with_edge(g: Map<i32, Seq<i32>>, src: i32, dst: i32) -> Map<i32, Seq<i32>> {
    g.insert(src, out_edges(g, src).push(dst))
}

/// The graph that holds the edges of `edges`, added in their order.
pub open spec fn graph_of_edges(edges: Seq<(i32, i32)>) -> Map<i32, Seq<i32>>
    decreases edges.len(),
{
    if edges.len() == 0 {
        Map::empty()
    } else {
        with_edge(graph_of_edges(edges.drop_last()), edges.last().0, edges.last().1)
    }
}

impl View for Graph {
    type V = Map<i32, Seq<i32>>;

    /// Each source node mapped to the sequence of its edge targets.
    open spec fn view(&self) -> Map<i32, Seq<i32>> {
        self.adjacency_list@.map_values(|targets: Vec<i32>| targets@)
    }
}

impl Graph {
    /// The graph without nodes and edges.
    pub fn new() -> (graph: Graph)
        ensures
            graph@ == Map::<i32, Seq<i32>>::empty(),
    {
        let graph = Graph { adjacency_list: HashMap::new() };
        graph
    }

    /// A graph has finitely many nodes with outgoing edges.
    pub proof fn lemma_sources_finite(&self)
        ensures
            self@.dom().finite(),
    {
        assert(self@.dom() =~= self.adjacency_list@.dom());
    }

    /// The number of nodes with outgoing edges. The traversals count hops in
    /// `i32` and ask that this number does not exceed `i32::MAX`.
    pub fn source_count(&self) -> (count: usize)
        ensures
            count == self@.dom().len(),
    {
        assert(self@.dom() =~= self.adjacency_list@.dom());
        self.adjacency_list.len()
    }

    /// Appends the edge `src -> dst` to the edges leaving `src`. No entry is
    /// made for `dst`, and no other node's edges change.
    pub fn add_edge(&mut self, src: i32, dst: i32)
        ensures
            final(self)@ == with_edge(old(self)@, src, dst),
    {
        let targets = self.adjacency_list.entry(src).or_insert(Vec::new());
        targets.push(dst);
    }
}

} // verus!
