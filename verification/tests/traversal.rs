use graph_metrics::Graph;

fn diamond_graph() -> Graph {
    let mut graph = Graph::new();
    graph.add_edge(1, 2);
    graph.add_edge(1, 3);
    graph.add_edge(2, 4);
    graph.add_edge(3, 4);
    graph.add_edge(4, 5);
    graph
}

fn create_test_graph() -> Graph {
    let mut graph = Graph::new();
    graph.add_edge(0, 1);
    graph.add_edge(0, 2);
    graph.add_edge(1, 2);
    graph.add_edge(2, 0);
    graph.add_edge(2, 3);
    graph.add_edge(3, 3);
    graph
}

#[test]
fn dfsbfs_test_bfs() {
    let graph = diamond_graph();
    let distances = graph.bfs(1);
    assert_eq!(distances.get(&5), Some(&3));
}

#[test]
fn dfsbfs_test_dfs() {
    let graph = diamond_graph();
    let path_depth = graph.dfs(1, 5);
    assert_eq!(path_depth, Some(3));
}

#[test]
fn test_graph_creation() {
    let graph = create_test_graph();
    assert_eq!(graph.adjacency_list.len(), 4);
    assert!(graph.adjacency_list.contains_key(&0));
    assert!(graph.adjacency_list.contains_key(&3));
    assert_eq!(graph.adjacency_list[&2].len(), 2);
}

#[test]
fn main_test_bfs() {
    let graph = create_test_graph();
    let distances = graph.bfs(2);
    assert_eq!(distances[&0], 1);
    assert_eq!(distances[&1], 2);
    assert_eq!(distances[&3], 1);
    assert_eq!(distances.get(&2), Some(&0));
}

#[test]
fn main_test_dfs() {
    let graph = create_test_graph();
    let depth = graph.dfs(2, 3);
    assert_eq!(depth, Some(1));
}

#[test]
fn bfs_gives_every_hop_distance_of_the_diamond() {
    let graph = diamond_graph();
    let distances = graph.bfs(1);
    assert_eq!(distances.len(), 5);
    assert_eq!(distances[&1], 0);
    assert_eq!(distances[&2], 1);
    assert_eq!(distances[&3], 1);
    assert_eq!(distances[&4], 2);
    assert_eq!(distances[&5], 3);
}

#[test]
fn bfs_leaves_out_what_the_start_does_not_reach() {
    let graph = diamond_graph();
    let distances = graph.bfs(4);
    assert_eq!(distances.len(), 2);
    assert_eq!(distances[&4], 0);
    assert_eq!(distances[&5], 1);
    assert!(!distances.contains_key(&1));
    assert!(!distances.contains_key(&2));
    assert!(!distances.contains_key(&3));
}

#[test]
fn bfs_from_a_node_without_edges_holds_the_node_alone() {
    let graph = diamond_graph();
    let from_sink = graph.bfs(5);
    assert_eq!(from_sink.len(), 1);
    assert_eq!(from_sink[&5], 0);
    let from_stranger = graph.bfs(99);
    assert_eq!(from_stranger.len(), 1);
    assert_eq!(from_stranger.get(&99), Some(&0));
}

#[test]
fn bfs_on_the_empty_graph() {
    let graph = Graph::new();
    let distances = graph.bfs(-7);
    assert_eq!(distances.len(), 1);
    assert_eq!(distances[&-7], 0);
}

#[test]
fn bfs_is_not_misled_by_loops_and_repeated_edges() {
    let mut graph = Graph::new();
    graph.add_edge(1, 1);
    graph.add_edge(1, 2);
    graph.add_edge(1, 2);
    graph.add_edge(2, 1);
    graph.add_edge(2, 3);
    let distances = graph.bfs(1);
    assert_eq!(distances.len(), 3);
    assert_eq!(distances[&1], 0);
    assert_eq!(distances[&2], 1);
    assert_eq!(distances[&3], 2);
}

#[test]
fn bfs_takes_the_shorter_of_two_ways() {
    let mut graph = Graph::new();
    graph.add_edge(1, 2);
    graph.add_edge(2, 3);
    graph.add_edge(3, 4);
    graph.add_edge(1, 4);
    let distances = graph.bfs(1);
    assert_eq!(distances[&4], 1);
    assert_eq!(distances[&3], 2);
}

#[test]
fn dfs_of_the_start_itself_is_depth_zero() {
    let graph = diamond_graph();
    assert_eq!(graph.dfs(1, 1), Some(0));
    assert_eq!(graph.dfs(5, 5), Some(0));
    assert_eq!(graph.dfs(99, 99), Some(0));
    assert_eq!(Graph::new().dfs(3, 3), Some(0));
}

#[test]
fn dfs_finds_nothing_where_no_walk_leads() {
    let graph = diamond_graph();
    assert_eq!(graph.dfs(5, 1), None);
    assert_eq!(graph.dfs(2, 3), None);
    assert_eq!(graph.dfs(1, 99), None);
    assert_eq!(graph.dfs(99, 1), None);
}

#[test]
fn dfs_finds_exactly_what_bfs_reaches() {
    let graph = create_test_graph();
    for start in 0..5 {
        let distances = graph.bfs(start);
        for target in 0..5 {
            assert_eq!(graph.dfs(start, target).is_some(), distances.contains_key(&target));
        }
    }
}

#[test]
fn dfs_gives_the_depth_of_the_branch_it_took() {
    // The last edge of node 1 is followed first, so node 2 is met by way of
    // node 3, at depth 2, although an edge leads to it directly.
    let mut graph = Graph::new();
    graph.add_edge(1, 2);
    graph.add_edge(1, 3);
    graph.add_edge(3, 2);
    assert_eq!(graph.dfs(1, 2), Some(2));
    assert_eq!(graph.bfs(1)[&2], 1);
}

#[test]
fn dfs_follows_the_last_edge_first() {
    let mut graph = Graph::new();
    graph.add_edge(1, 2);
    graph.add_edge(2, 3);
    graph.add_edge(3, 4);
    graph.add_edge(1, 4);
    assert_eq!(graph.dfs(1, 4), Some(1));
    let mut other = Graph::new();
    other.add_edge(1, 4);
    other.add_edge(1, 2);
    other.add_edge(2, 3);
    other.add_edge(3, 4);
    assert_eq!(other.dfs(1, 4), Some(3));
}

#[test]
fn dfs_ends_on_cycles() {
    let mut graph = Graph::new();
    graph.add_edge(1, 2);
    graph.add_edge(2, 1);
    graph.add_edge(2, 2);
    assert_eq!(graph.dfs(1, 2), Some(1));
    assert_eq!(graph.dfs(1, 3), None);
}

#[test]
fn add_edge_keeps_order_and_duplicates() {
    let mut graph = Graph::new();
    assert_eq!(graph.adjacency_list.len(), 0);
    assert_eq!(graph.source_count(), 0);
    graph.add_edge(4, 9);
    graph.add_edge(4, 2);
    graph.add_edge(4, 9);
    graph.add_edge(4, 4);
    assert_eq!(graph.adjacency_list[&4], vec![9, 2, 9, 4]);
    assert!(!graph.adjacency_list.contains_key(&9));
    assert!(!graph.adjacency_list.contains_key(&2));
    assert_eq!(graph.source_count(), 1);
}
