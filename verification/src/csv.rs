//! The edges of a graph as comma-separated text.

use crate::decimal::{append_i32, rendered_i32};
use crate::graph::{out_edges, Graph};
use vstd::prelude::*;
use vstd::std_specs::iter::IteratorSpec;
use vstd::string::StringExecFns;

verus! {

broadcast use vstd::std_specs::hash::group_hash_axioms;

/// The header line, with its line end.
pub open spec fn csv_header() -> Seq<char> {
    "FromNodeId,ToNodeId\n"@
}

/// The line of one edge, with its line end: the two node identifiers in
/// decimal notation with a comma between them.
pub open spec fn edge_row(src: i32, dst: i32) -> Seq<char> {
    rendered_i32(src) + seq![','] + rendered_i32(dst) + seq!['\n']
}

/// The lines of the edges from `src` to each of `targets`, in the order of
/// `targets`.
pub open spec fn rows_of(src: i32, targets: Seq<i32>) -> Seq<char>
    decreases targets.len(),
{
    if targets.len() == 0 {
        Seq::empty()
    } else {
        rows_of(src, targets.drop_last()) + edge_row(src, targets.last())
    }
}

/// The lines of all edges that leave the nodes of `sources`, node by node
/// in the order of `sources`.
pub open spec fn rows_in_order(g: Map<i32, Seq<i32>>, sources: Seq<i32>) -> Seq<char>
    decreases sources.len(),
{
    if sources.len() == 0 {
        Seq::empty()
    } else {
        rows_in_order(g, sources.drop_last()) + rows_of(sources.last(), out_edges(g, sources.last()))
    }
}

/// Whether `text` is the header followed by one line for each edge of `g`,
/// the source nodes in the order of `sources`.
pub open spec fn is_csv_in_order(g: Map<i32, Seq<i32>>, sources: Seq<i32>, text: Seq<char>) -> bool {
    &&& sources.no_duplicates()
    &&& sources.to_set() == g.dom()
    &&& text == csv_header() + rows_in_order(g, sources)
}

/// Whether `text` is the header followed by one line for each edge of `g`,
/// the source nodes in some order and the edges of one source together, in
/// the order in which they were added.
pub open spec fn is_csv_of(g: Map<i32, Seq<i32>>, text: Seq<char>) -> bool {
    exists|sources: Seq<i32>| is_csv_in_order(g, sources, text)
}

impl Graph {
    /// The edges of the graph as comma-separated text: the header line
    /// `FromNodeId,ToNodeId`, then one line `<src>,<dst>` for each edge.
    /// The order of the source nodes is that in which the store hands them
    /// out.
    pub fn to_csv_text(&self) -> (text: String)
        ensures
            is_csv_of(self@, text@),
    {
        let ghost g = self@;
        let ghost keys = self.adjacency_list.keys().remaining().unref();
        let mut text = String::new();
        proof {
            reveal_strlit("FromNodeId,ToNodeId\n");
            reveal_strlit(",");
            reveal_strlit("\n");
        }
        text.append("FromNodeId,ToNodeId\n");
        for src in it: self.adjacency_list.keys()
            invariant
                g == self@,
                g.dom() == self.adjacency_list@.dom(),
                keys == it.seq().unref(),
                keys.to_set() == g.dom(),
                ","@ == seq![','],
                "\n"@ == seq!['\n'],
                text@ == csv_header() + rows_in_order(g, keys.take(it.index())),
        {
            let ghost index = it.index();
            let ghost before = text@;
            proof {
                assert(keys.take(index + 1).drop_last() =~= keys.take(index));
            }
            match self.adjacency_list.get(src) {
                Some(targets) => {
                    let mut j: usize = 0;
                    while j < targets.len()
                        invariant
                            0 <= j <= targets.len(),
                            ","@ == seq![','],
                            "\n"@ == seq!['\n'],
                            text@ == before + rows_of(*src, targets@.take(j as int)),
                        decreases targets.len() - j,
                    {
                        let dst = targets[j];
                        append_i32(*src, &mut text);
                        text.append(",");
                        append_i32(dst, &mut text);
                        text.append("\n");
                        proof {
                            assert(targets@.take(j + 1).drop_last() =~= targets@.take(j as int));
                        }
                        j += 1;
                    }
                    proof {
                        assert(targets@.take(targets@.len() as int) =~= targets@);
                    }
                },
                None => {
                    assert(false);
                },
            }
        }
        proof {
            assert(keys.take(keys.len() as int) =~= keys);
            assert(is_csv_in_order(g, keys, text@));
        }
        text
    }
}

} // verus!
