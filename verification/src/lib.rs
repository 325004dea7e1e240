//! Structural analysis of directed graphs built from edge lists.
//!
//! A [`Graph`] stores, for every node that is the source of at least one
//! edge, the sequence of its edge targets in insertion order. On top of that
//! store the crate offers
//!
//! - hop distances from a source node to all nodes it reaches ([`bfs`]),
//! - a depth-first search for one target node ([`dfs`]),
//! - the nodes of highest out-degree ([`degree`]),
//! - the path-length totals of hub nodes, from which the mean path length
//!   over a set of hubs is formed ([`hubs`]),
//! - reading a graph from the lines of an edge list ([`edge_list`]) and
//!   writing its edges as comma-separated text ([`csv`]).
//!
//! Every executable function carries a contract over the mathematical view of
//! the graph, a `Map<i32, Seq<i32>>`, and is proved against it. Walks,
//! reachability and hop distance, in which the traversals state their
//! results, are defined in [`walk`].

pub mod bfs;
pub mod csv;
pub mod decimal;
pub mod degree;
pub mod dfs;
pub mod edge_list;
pub mod graph;
pub mod hubs;
pub mod walk;

pub use crate::graph::Graph;
