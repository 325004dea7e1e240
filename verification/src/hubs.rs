//! Path lengths from hub nodes: the whole-number part of the mean path
//! length over a set of hubs.
//!
//! For one hub the crate gives the sum of the hop distances to the nodes
//! it reaches and the number of those nodes, the hub itself not counted. A
//! hub that reaches no other node has no mean of its own and is left out of
//! the list for a set of hubs. The quotients and their mean are left to the
//! caller.

use crate::graph::Graph;
use crate::walk::{distance, reachable_set};
use vstd::prelude::*;
use vstd::std_specs::iter::IteratorSpec;

verus! {

broadcast use vstd::std_specs::hash::group_hash_axioms;

/// Adds the hop distance from `hub` to one more node to a running sum.
pub open spec fn add_distance(g: Map<i32, Seq<i32>>, hub: i32) -> spec_fn(int, i32) -> int {
    |sum: int, to: i32| sum + distance(g, hub, to)
}

/// The sum of the hop distances from `hub` to every node it reaches.
pub open spec fn total_distance(g: Map<i32, Seq<i32>>, hub: i32) -> int {
    reachable_set(g, hub).fold(0int, add_distance(g, hub))
}

/// The number of nodes that `hub` reaches, itself not counted.
pub open spec fn num_paths(g: Map<i32, Seq<i32>>, hub: i32) -> int {
    reachable_set(g, hub).len() - 1
}

/// For each hub in `hubs` that reaches at least one other node, in the
/// order of `hubs`: its total distance and its number of paths.
pub open spec fn contributions(g: Map<i32, Seq<i32>>, hubs: Seq<i32>) -> Seq<(int, int)>
    decreases hubs.len(),
{
    if hubs.len() == 0 {
        Seq::empty()
    } else {
        let earlier = contributions(g, hubs.drop_last());
        let hub = hubs.last();
        if num_paths(g, hub) > 0 {
            earlier.push((total_distance(g, hub), num_paths(g, hub)))
        } else {
            earlier
        }
    }
}

/// A finite set of `i32` values has at most 2^32 elements.
proof fn lemma_i32_set_len(s: Set<i32>)
    requires
        s.finite(),
    ensures
        s.len() <= 0x1_0000_0000,
{
    let widen = |x: i32| x as int;
    let image = s.map(widen);
    let all = vstd::set_lib::set_int_range(-0x8000_0000, 0x8000_0000);
    vstd::set_lib::lemma_map_size(s, image, widen);
    vstd::set_lib::lemma_int_range(-0x8000_0000, 0x8000_0000);
    vstd::set_lib::lemma_len_subset(image, all);
}

impl Graph {
    /// The sum of the hop distances from `hub` to the nodes it reaches, and
    /// the number of those nodes without `hub` itself.
    pub fn path_totals(&self, hub: i32) -> (totals: (u64, usize))
        requires
            self@.dom().len() <= i32::MAX,
        ensures
            totals.0 == total_distance(self@, hub),
            totals.1 == num_paths(self@, hub),
    {
        let ghost g = self@;
        let ghost add = add_distance(g, hub);
        let distances = self.bfs(hub);
        let ghost keys = distances.keys().remaining().unref();
        let mut total: u64 = 0;
        proof {
            assert(distances@.dom() =~= reachable_set(g, hub));
            lemma_i32_set_len(distances@.dom());
            assert(keys.take(0).to_set() =~= Set::<i32>::empty());
            vstd::set::fold::lemma_fold_empty::<i32, int>(0int, add);
        }
        for node in it: distances.keys()
            invariant
                add == add_distance(g, hub),
                keys == it.seq().unref(),
                keys.len() <= 0x1_0000_0000,
                keys.to_set() == distances@.dom(),
                forall|v: i32| #[trigger] distances@.contains_key(v) ==> distances@[v] == distance(g, hub, v),
                forall|v: i32| #[trigger] distances@.contains_key(v) ==> 0 <= distances@[v],
                total == keys.take(it.index()).to_set().fold(0int, add),
                total <= it.index() * 0x7fff_ffff,
        {
            let ghost index = it.index();
            match distances.get(node) {
                Some(hops) => {
                    proof {
                        let earlier = keys.take(index).to_set();
                        assert(keys.take(index + 1) =~= keys.take(index).push(*node));
                        assert(keys.take(index + 1).to_set() =~= earlier.insert(*node)) by {
                            keys.take(index).lemma_push_to_set_commute(*node);
                        }
                        vstd::seq_lib::seq_to_set_is_finite(keys.take(index));
                        vstd::set::fold::lemma_fold_insert(earlier, 0int, add, *node);
                    }
                    total = total + (*hops as u64);
                },
                None => {
                    assert(false);
                },
            }
        }
        proof {
            assert(keys.take(keys.len() as int) =~= keys);
        }
        (total, distances.len() - 1)
    }

    /// The path totals of the hubs in `nodes` that reach at least one other
    /// node, in the order of `nodes`. A node that occurs twice is listed
    /// twice.
    pub fn hub_path_totals(&self, nodes: &[i32]) -> (totals: Vec<(u64, usize)>)
        requires
            self@.dom().len() <= i32::MAX,
        ensures
            totals@.len() == contributions(self@, nodes@).len(),
            nodes@.len() == 0 ==> totals@.len() == 0,
            forall|i: int|
                0 <= i < totals@.len() ==> (#[trigger] totals@[i]).0 == contributions(self@, nodes@)[i].0
                    && totals@[i].1 == contributions(self@, nodes@)[i].1,
    {
        let ghost g = self@;
        let mut totals: Vec<(u64, usize)> = Vec::new();
        let mut i: usize = 0;
        while i < nodes.len()
            invariant
                0 <= i <= nodes.len(),
                g == self@,
                g.dom().len() <= i32::MAX,
                totals@.len() == contributions(g, nodes@.take(i as int)).len(),
                forall|k: int|
                    0 <= k < totals@.len() ==> (#[trigger] totals@[k]).0 == contributions(
                        g,
                        nodes@.take(i as int),
                    )[k].0 && totals@[k].1 == contributions(g, nodes@.take(i as int))[k].1,
            decreases nodes.len() - i,
        {
            let hub = nodes[i];
            let of_hub = self.path_totals(hub);
            proof {
                assert(nodes@.take(i + 1).drop_last() =~= nodes@.take(i as int));
            }
            if of_hub.1 > 0 {
                totals.push(of_hub);
            }
            i += 1;
        }
        proof {
            assert(nodes@.take(nodes@.len() as int) =~= nodes@);
        }
        totals
    }
}

} // verus!
