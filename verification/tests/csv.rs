use graph_metrics::edge_list::graph_from_lines;
use graph_metrics::Graph;

#[test]
fn test_to_csv() {
    let mut graph = Graph::new();
    graph.add_edge(1, 2);
    graph.add_edge(1, 3);
    graph.add_edge(2, 4);

    let contents = graph.to_csv_text();
    assert!(contents.contains("1,2"));
    assert!(contents.contains("1,3"));
    assert!(contents.contains("2,4"));
}

#[test]
fn csv_text_of_the_empty_graph_is_the_header() {
    assert_eq!(Graph::new().to_csv_text(), "FromNodeId,ToNodeId\n");
}

#[test]
fn csv_text_has_one_line_for_each_edge() {
    let mut graph = Graph::new();
    graph.add_edge(1, 2);
    graph.add_edge(1, 3);
    graph.add_edge(1, 2);
    graph.add_edge(-5, 7);
    graph.add_edge(i32::MIN, i32::MAX);
    let text = graph.to_csv_text();
    assert!(text.starts_with("FromNodeId,ToNodeId\n"));
    assert!(text.ends_with('\n'));
    let mut lines: Vec<&str> = text.lines().skip(1).collect();
    assert!(text.contains("1,2\n1,3\n1,2\n"));
    lines.sort();
    assert_eq!(lines, vec!["-2147483648,2147483647", "-5,7", "1,2", "1,2", "1,3"]);
}

#[test]
fn csv_text_reads_back_as_the_same_graph() {
    let mut graph = Graph::new();
    for source in -20..20 {
        for target in 0..(source + 20) % 4 {
            graph.add_edge(source * 1000, target - 1);
        }
    }
    let text = graph.to_csv_text();
    let lines: Vec<String> = text.lines().map(|line| line.replace(',', " ")).collect();
    let (loaded, malformed) = graph_from_lines(&lines);
    assert!(malformed.is_empty());
    assert_eq!(loaded.adjacency_list, graph.adjacency_list);
}
