//! Ranking of nodes by out-degree.

use crate::graph::{out_edges, Graph};
use vstd::prelude::*;
use vstd::std_specs::iter::IteratorSpec;

verus! {

broadcast use vstd::std_specs::hash::group_hash_axioms;

/// The number of edges that leave `node`, duplicates counted.
pub open spec fn out_degree(g: Map<i32, Seq<i32>>, node: i32) -> nat {
    out_edges(g, node).len()
}

/// Each node with an entry in `g` stands in `listed` exactly once, beside
/// its out-degree.
pub open spec fn lists_out_degrees(g: Map<i32, Seq<i32>>, listed: Seq<(i32, usize)>) -> bool {
    &&& listed.len() == g.dom().len()
    &&& forall|i: int|
        0 <= i < listed.len() ==> g.contains_key((#[trigger] listed[i]).0) && listed[i].1
            == out_degree(g, listed[i].0)
    &&& forall|i: int, j: int|
        0 <= i < listed.len() && 0 <= j < listed.len() && i != j ==> (#[trigger] listed[i]).0
            != (#[trigger] listed[j]).0
    &&& forall|node: i32|
        g.contains_key(node) ==> exists|i: int|
            0 <= i < listed.len() && (#[trigger] listed[i]).0 == node
}

/// The first `placed` entries of `ranked` stand in falling order of
/// out-degree, and none behind them has a higher out-degree than any of
/// them.
spec fn leads_with_highest(ranked: Seq<(i32, usize)>, placed: int) -> bool {
    forall|k: int, m: int|
        0 <= k < placed && k <= m < ranked.len() ==> (#[trigger] ranked[k]).1
            >= (#[trigger] ranked[m]).1
}

/// `listed` with the entries at `a` and `b` exchanged.
spec fn exchanged(listed: Seq<(i32, usize)>, a: int, b: int) -> Seq<(i32, usize)> {
    listed.update(a, listed[b]).update(b, listed[a])
}

/// A list of out-degrees stays one when two of its entries change places.
proof fn lemma_exchange_keeps_list(g: Map<i32, Seq<i32>>, listed: Seq<(i32, usize)>, a: int, b: int)
    requires
        lists_out_degrees(g, listed),
        0 <= a < listed.len(),
        0 <= b < listed.len(),
    ensures
        lists_out_degrees(g, exchanged(listed, a, b)),
{
    let after = exchanged(listed, a, b);
    assert forall|node: i32| g.contains_key(node) implies exists|i: int|
        0 <= i < after.len() && (#[trigger] after[i]).0 == node by {
        let k = choose|k: int| 0 <= k < listed.len() && (#[trigger] listed[k]).0 == node;
        if k == a {
            assert(after[b].0 == node);
        } else if k == b {
            assert(after[a].0 == node);
        } else {
            assert(after[k].0 == node);
        }
    }
}

/// Bringing a highest of the entries from `placed` on to the position
/// `placed` extends the leading part by one.
proof fn lemma_exchange_extends_lead(ranked: Seq<(i32, usize)>, placed: int, best: int)
    requires
        leads_with_highest(ranked, placed),
        0 <= placed <= best < ranked.len(),
        forall|m: int| placed <= m < ranked.len() ==> ranked[best].1 >= (#[trigger] ranked[m]).1,
    ensures
        leads_with_highest(exchanged(ranked, best, placed), placed + 1),
{
}

impl Graph {
    /// The nodes with outgoing edges, each once and with its out-degree, in
    /// the order in which the store hands them out.
    pub fn out_degrees(&self) -> (listed: Vec<(i32, usize)>)
        ensures
            lists_out_degrees(self@, listed@),
    {
        let ghost g = self@;
        let ghost keys = self.adjacency_list.keys().remaining().unref();
        let mut listed: Vec<(i32, usize)> = Vec::new();
        for node in it: self.adjacency_list.keys()
            invariant
                g == self@,
                g.dom() == self.adjacency_list@.dom(),
                keys == it.seq().unref(),
                listed@.len() == it.index(),
                forall|i: int| 0 <= i < listed@.len() ==> (#[trigger] listed@[i]).0 == keys[i],
                forall|i: int|
                    0 <= i < listed@.len() ==> g.contains_key((#[trigger] listed@[i]).0)
                        && listed@[i].1 == out_degree(g, listed@[i].0),
        {
            match self.adjacency_list.get(node) {
                Some(targets) => {
                    listed.push((*node, targets.len()));
                },
                None => {
                    assert(false);
                },
            }
        }
        proof {
            assert forall|node: i32| g.contains_key(node) implies exists|i: int|
                0 <= i < listed@.len() && (#[trigger] listed@[i]).0 == node by {
                let i = choose|i: int| 0 <= i < keys.len() && keys[i] == node;
                assert(listed@[i].0 == node);
            }
        }
        listed
    }

    /// The `n` nodes of highest out-degree, highest first.
    ///
    /// Only nodes with outgoing edges take part. Where fewer than `n` such
    /// nodes exist, all of them are returned. No node is returned twice, the
    /// out-degrees never rise along the result, and no node that was left
    /// out, with or without outgoing edges, has a higher out-degree than one
    /// that was returned. Which of several nodes of equal out-degree comes
    /// first, or is returned at all, is left open.
    ///
    /// The nodes are picked one by one, each by a pass over those that are
    /// left, so the time taken grows with `n` times the number of nodes with
    /// outgoing edges.
    pub fn top_degree_nodes(&self, n: usize) -> (top: Vec<i32>)
        ensures
            top@.len() == if n <= self@.dom().len() {
                n as nat
            } else {
                self@.dom().len()
            },
            top@.no_duplicates(),
            forall|i: int| 0 <= i < top@.len() ==> self@.contains_key(#[trigger] top@[i]),
            n >= self@.dom().len() ==> forall|node: i32|
                self@.contains_key(node) ==> top@.contains(node),
            forall|i: int, j: int|
                0 <= i <= j < top@.len() ==> out_degree(self@, #[trigger] top@[i]) >= out_degree(
                    self@,
                    #[trigger] top@[j],
                ),
            forall|i: int, node: i32|
                0 <= i < top@.len() && !top@.contains(node) ==> out_degree(self@, #[trigger] top@[i])
                    >= #[trigger] out_degree(self@, node),
    {
        let ghost g = self@;
        let mut ranked = self.out_degrees();
        let total = ranked.len();
        let count = if n < total {
            n
        } else {
            total
        };
        let mut top: Vec<i32> = Vec::new();
        let mut i: usize = 0;
        while i < count
            invariant
                0 <= i <= count <= total,
                total == ranked@.len(),
                lists_out_degrees(g, ranked@),
                leads_with_highest(ranked@, i as int),
                top@.len() == i,
                forall|k: int| 0 <= k < i ==> #[trigger] top@[k] == ranked@[k].0,
            decreases count - i,
        {
            // The position of a highest out-degree among those not yet placed.
            let mut best: usize = i;
            let mut j: usize = i + 1;
            while j < total
                invariant
                    i <= best < j <= total,
                    total == ranked@.len(),
                    forall|m: int|
                        i <= m < j ==> ranked@[best as int].1 >= (#[trigger] ranked@[m]).1,
                decreases total - j,
            {
                if ranked[j].1 > ranked[best].1 {
                    best = j;
                }
                j += 1;
            }
            let ghost before = ranked@;
            let placed = ranked[best];
            let displaced = ranked[i];
            ranked.set(best, displaced);
            ranked.set(i, placed);
            top.push(placed.0);
            proof {
                lemma_exchange_keeps_list(g, before, best as int, i as int);
                lemma_exchange_extends_lead(before, i as int, best as int);
            }
            i += 1;
        }
        proof {
            if n >= g.dom().len() {
                assert forall|node: i32| g.contains_key(node) implies top@.contains(node) by {
                    let k = choose|k: int|
                        0 <= k < ranked@.len() && (#[trigger] ranked@[k]).0 == node;
                    assert(top@[k] == node);
                }
            }
            assert forall|a: int, node: i32|
                0 <= a < top@.len() && !top@.contains(node) implies out_degree(
                g,
                #[trigger] top@[a],
            ) >= #[trigger] out_degree(g, node) by {
                if g.contains_key(node) {
                    let k = choose|k: int|
                        0 <= k < ranked@.len() && (#[trigger] ranked@[k]).0 == node;
                    if k < top@.len() {
                        assert(top@[k] == node);
                    }
                }
            }
        }
        top
    }
}

} // verus!
