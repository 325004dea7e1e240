use graph_metrics::Graph;

fn setup_complex_graph() -> Graph {
    let mut graph = Graph::new();
    for i in 1..=10 {
        for j in 1..=10 {
            if i != j {
                graph.add_edge(i, j);
            }
        }
    }
    graph
}

#[test]
fn test_top_degree_nodes() {
    let graph = setup_complex_graph();
    let top_nodes = graph.top_degree_nodes(5);
    assert_eq!(top_nodes.len(), 5);
    for node in top_nodes {
        assert_eq!(graph.adjacency_list.get(&node).unwrap().len(), 9);
    }
}

fn uneven_graph() -> Graph {
    let mut graph = Graph::new();
    graph.add_edge(1, 10);
    graph.add_edge(1, 11);
    graph.add_edge(1, 12);
    graph.add_edge(2, 10);
    graph.add_edge(3, 10);
    graph.add_edge(3, 10);
    graph
}

#[test]
fn top_degree_nodes_come_highest_first() {
    let graph = uneven_graph();
    assert_eq!(graph.top_degree_nodes(1), vec![1]);
    assert_eq!(graph.top_degree_nodes(2), vec![1, 3]);
    assert_eq!(graph.top_degree_nodes(3), vec![1, 3, 2]);
}

#[test]
fn top_degree_nodes_returns_all_sources_when_asked_for_more() {
    let graph = uneven_graph();
    assert_eq!(graph.top_degree_nodes(4), vec![1, 3, 2]);
    assert_eq!(graph.top_degree_nodes(usize::MAX), vec![1, 3, 2]);
}

#[test]
fn top_degree_nodes_of_nothing() {
    assert_eq!(uneven_graph().top_degree_nodes(0), Vec::<i32>::new());
    assert_eq!(Graph::new().top_degree_nodes(5), Vec::<i32>::new());
}

#[test]
fn top_degree_nodes_counts_repeated_edges() {
    let mut graph = Graph::new();
    graph.add_edge(1, 2);
    graph.add_edge(1, 3);
    graph.add_edge(1, 4);
    for _ in 0..4 {
        graph.add_edge(7, 8);
    }
    assert_eq!(graph.top_degree_nodes(1), vec![7]);
}

#[test]
fn top_degree_nodes_leaves_out_nodes_without_edges() {
    let graph = uneven_graph();
    let top = graph.top_degree_nodes(100);
    assert!(!top.contains(&10));
    assert!(!top.contains(&11));
    assert!(!top.contains(&12));
    assert!(!top.contains(&99));
}

#[test]
fn top_degree_nodes_with_ties_keeps_the_degree_order() {
    let mut graph = Graph::new();
    for source in 0..40 {
        for target in 0..(source % 5) + 1 {
            graph.add_edge(source, 1000 + target);
        }
    }
    for n in [0usize, 1, 7, 8, 9, 25, 40, 41] {
        let top = graph.top_degree_nodes(n);
        assert_eq!(top.len(), n.min(40));
        let degrees: Vec<usize> = top.iter().map(|node| graph.adjacency_list[node].len()).collect();
        for pair in degrees.windows(2) {
            assert!(pair[0] >= pair[1]);
        }
        let lowest = degrees.last().copied().unwrap_or(usize::MAX);
        for (node, targets) in graph.adjacency_list.iter() {
            if !top.contains(node) {
                assert!(targets.len() <= lowest);
            }
        }
        let mut sorted = top.clone();
        sorted.sort();
        sorted.dedup();
        assert_eq!(sorted.len(), top.len());
    }
}

#[test]
fn out_degrees_lists_each_source_once() {
    let graph = uneven_graph();
    let mut listed = graph.out_degrees();
    listed.sort();
    assert_eq!(listed, vec![(1, 3), (2, 1), (3, 2)]);
}
