//! The edge-list text format: one edge per line, written as two decimal
//! node identifiers separated by white space, below a header line.

use crate::decimal::{parse_i32, parsed_i32};
use crate::graph::{graph_of_edges, Graph};
use vstd::prelude::*;

verus! {

broadcast use vstd::string::group_string_axioms;

/// Whether `c` is white space: a character with the Unicode property
/// `White_Space`.
pub open spec fn is_space(c: char) -> bool {
    let code = c as u32;
    ||| 0x09 <= code <= 0x0d
    ||| code == 0x20
    ||| code == 0x85
    ||| code == 0xa0
    ||| code == 0x1680
    ||| 0x2000 <= code <= 0x200a
    ||| code == 0x2028
    ||| code == 0x2029
    ||| code == 0x202f
    ||| code == 0x205f
    ||| code == 0x3000
}

/// Whether `c` is white space.
pub fn is_whitespace(c: char) -> (space: bool)
    ensures
        space == is_space(c),
{
    let code = c as u32;
    (0x09 <= code && code <= 0x0d) || code == 0x20 || code == 0x85 || code == 0xa0 || code == 0x1680 || (
    0x2000 <= code && code <= 0x200a) || code == 0x2028 || code == 0x2029 || code == 0x202f || code
        == 0x205f || code == 0x3000
}

/// The tokens of `text`: its longest runs of characters that are not white
/// space, in their order.
pub open spec fn tokens(text: Seq<char>) -> Seq<Seq<char>>
    decreases text.len(),
{
    if text.len() == 0 {
        Seq::empty()
    } else {
        let earlier = tokens(text.drop_last());
        let c = text.last();
        if is_space(c) {
            earlier
        } else if text.len() >= 2 && !is_space(text[text.len() - 2]) {
            earlier.update(earlier.len() - 1, earlier.last().push(c))
        } else {
            earlier.push(seq![c])
        }
    }
}

/// The edge that a line denotes: exactly two tokens, each a decimal `i32`.
pub open spec fn parsed_edge(line: Seq<char>) -> Option<(i32, i32)> {
    let parts = tokens(line);
    if parts.len() == 2 {
        match (parsed_i32(parts[0]), parsed_i32(parts[1])) {
            (Some(src), Some(dst)) => Some((src, dst)),
            _ => None,
        }
    } else {
        None
    }
}

/// The edges that the lines of an edge list denote, in the order of the
/// lines. The first line is the header and denotes none.
pub open spec fn edges_in(lines: Seq<Seq<char>>) -> Seq<(i32, i32)>
    decreases lines.len(),
{
    if lines.len() <= 1 {
        Seq::empty()
    } else {
        let earlier = edges_in(lines.drop_last());
        match parsed_edge(lines.last()) {
            Some(edge) => earlier.push(edge),
            None => earlier,
        }
    }
}

/// The positions of the lines below the header that denote no edge, in
/// rising order.
pub open spec fn malformed_in(lines: Seq<Seq<char>>) -> Seq<usize>
    decreases lines.len(),
{
    if lines.len() <= 1 {
        Seq::empty()
    } else {
        let earlier = malformed_in(lines.drop_last());
        match parsed_edge(lines.last()) {
            Some(edge) => earlier,
            None => earlier.push((lines.len() - 1) as usize),
        }
    }
}

/// The character sequences of some lines.
pub open spec fn line_views(lines: Seq<String>) -> Seq<Seq<char>> {
    lines.map_values(|line: String| line@)
}

/// The character sequences of some tokens.
pub open spec fn token_views(parts: Seq<Vec<char>>) -> Seq<Seq<char>> {
    parts.map_values(|part: Vec<char>| part@)
}

/// The token under construction, if it holds a character yet.
spec fn pending(current: Seq<char>) -> Seq<Seq<char>> {
    if current.len() > 0 {
        seq![current]
    } else {
        Seq::empty()
    }
}

/// Splits `line` at white space into its tokens.
pub fn split_whitespace(line: &str) -> (parts: Vec<Vec<char>>)
    ensures
        token_views(parts@) == tokens(line@),
{
    let mut parts: Vec<Vec<char>> = Vec::new();
    let mut current: Vec<char> = Vec::new();
    for c in it: line.chars()
        invariant
            it.seq() == line@,
            tokens(line@.take(it.index())) == token_views(parts@) + pending(current@),
            current@.len() > 0 <==> it.index() > 0 && !is_space(line@[it.index() - 1]),
    {
        let ghost index = it.index();
        let ghost before = line@.take(index);
        let ghost longer = line@.take(index + 1);
        let ghost current_before = current@;
        proof {
            assert(longer.drop_last() =~= before);
        }
        if is_whitespace(c) {
            if current.len() > 0 {
                parts.push(current);
                current = Vec::new();
            }
        } else {
            current.push(c);
            proof {
                if current_before.len() == 0 {
                    assert(current@ =~= seq![c]);
                }
            }
        }
    }
    proof {
        assert(line@.take(line@.len() as int) =~= line@);
    }
    if current.len() > 0 {
        parts.push(current);
    }
    parts
}

/// Reads one line of an edge list. Returns the edge if the line holds
/// exactly two tokens and each is a decimal `i32`, and `None` otherwise.
pub fn parse_edge_line(line: &str) -> (edge: Option<(i32, i32)>)
    ensures
        edge == parsed_edge(line@),
{
    let parts = split_whitespace(line);
    if parts.len() != 2 {
        return None;
    }
    match (parse_i32(parts[0].as_slice()), parse_i32(parts[1].as_slice())) {
        (Some(src), Some(dst)) => Some((src, dst)),
        _ => None,
    }
}

/// Builds the graph of an edge list from its lines.
///
/// The first line is taken as the header and skipped. A line below it
/// that denotes an edge adds that edge; any other line is skipped and its
/// position is returned, so that the caller can warn about it.
pub fn graph_from_lines(lines: &[String]) -> (loaded: (Graph, Vec<usize>))
    ensures
        loaded.0@ == graph_of_edges(edges_in(line_views(lines@))),
        loaded.1@ == malformed_in(line_views(lines@)),
{
    let mut graph = Graph::new();
    let mut malformed: Vec<usize> = Vec::new();
    let ghost all = line_views(lines@);
    if lines.len() <= 1 {
        return (graph, malformed);
    }
    let mut i: usize = 1;
    while i < lines.len()
        invariant
            1 <= i <= lines.len(),
            all == line_views(lines@),
            graph@ == graph_of_edges(edges_in(all.take(i as int))),
            malformed@ == malformed_in(all.take(i as int)),
        decreases lines.len() - i,
    {
        let ghost edges_before = edges_in(all.take(i as int));
        proof {
            assert(all.take(i + 1).drop_last() =~= all.take(i as int));
        }
        match parse_edge_line(lines[i].as_str()) {
            Some((src, dst)) => {
                graph.add_edge(src, dst);
                proof {
                    let edges = edges_before.push((src, dst));
                    assert(edges.drop_last() =~= edges_before);
                }
            },
            None => {
                malformed.push(i);
            },
        }
        i += 1;
    }
    proof {
        assert(all.take(lines@.len() as int) =~= all);
    }
    (graph, malformed)
}

} // verus!
