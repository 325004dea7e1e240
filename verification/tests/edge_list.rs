use graph_metrics::decimal::{append_i32, append_nat, parse_i32};
use graph_metrics::edge_list::{graph_from_lines, is_whitespace, parse_edge_line, split_whitespace};
use graph_metrics::Graph;

fn lines_of(lines: &[&str]) -> Vec<String> {
    lines.iter().map(|line| line.to_string()).collect()
}

/// What the standard library makes of a line.
fn edge_by_std(line: &str) -> Option<(i32, i32)> {
    let parts: Vec<&str> = line.split_whitespace().collect();
    if parts.len() == 2 {
        match (parts[0].parse::<i32>(), parts[1].parse::<i32>()) {
            (Ok(src), Ok(dst)) => Some((src, dst)),
            _ => None,
        }
    } else {
        None
    }
}

const SAMPLE_LINES: [&str; 40] = [
    "",
    " ",
    "1 2",
    "1\t2",
    "  1   2  ",
    "1 2 ",
    " 1 2",
    "1",
    "1 2 3",
    "a b",
    "1 b",
    "a 2",
    "+1 -2",
    "-0 +0",
    "- 1",
    "+ 1",
    "1 -",
    "--1 2",
    "+-1 2",
    "1+ 2",
    "007 0008",
    "2147483647 -2147483648",
    "2147483648 1",
    "1 -2147483649",
    "99999999999999999999999999 1",
    "-99999999999999999999999999 1",
    "00000000000000000000000000000000000001 2",
    "1.5 2",
    "1,2",
    "1e3 2",
    "0x10 2",
    "1\u{a0}2",
    "1\u{3000}2",
    "1\u{2003}2\u{85}",
    "1\u{200b}2",
    "\u{661}\u{662} 3",
    "1\r2",
    "1 2\r",
    "1\u{b}2\u{c}",
    "FromNodeId ToNodeId",
];

#[test]
fn parse_edge_line_reads_two_numbers() {
    assert_eq!(parse_edge_line("1 2"), Some((1, 2)));
    assert_eq!(parse_edge_line("  17\t-4 "), Some((17, -4)));
    assert_eq!(parse_edge_line("+9 -10"), Some((9, -10)));
    assert_eq!(parse_edge_line("2147483647 -2147483648"), Some((i32::MAX, i32::MIN)));
}

#[test]
fn parse_edge_line_refuses_a_wrong_number_of_tokens() {
    assert_eq!(parse_edge_line(""), None);
    assert_eq!(parse_edge_line("   "), None);
    assert_eq!(parse_edge_line("5"), None);
    assert_eq!(parse_edge_line("1 2 3"), None);
}

#[test]
fn parse_edge_line_refuses_what_is_no_i32() {
    assert_eq!(parse_edge_line("a b"), None);
    assert_eq!(parse_edge_line("1 x"), None);
    assert_eq!(parse_edge_line("1.0 2"), None);
    assert_eq!(parse_edge_line("2147483648 1"), None);
    assert_eq!(parse_edge_line("1 -2147483649"), None);
    assert_eq!(parse_edge_line("- 1"), None);
}

#[test]
fn parse_edge_line_agrees_with_the_standard_library() {
    for line in SAMPLE_LINES {
        assert_eq!(parse_edge_line(line), edge_by_std(line), "line {:?}", line);
    }
}

#[test]
fn split_whitespace_agrees_with_the_standard_library() {
    for line in SAMPLE_LINES {
        let ours: Vec<String> = split_whitespace(line).iter().map(|part| part.iter().collect()).collect();
        let theirs: Vec<String> = line.split_whitespace().map(|part| part.to_string()).collect();
        assert_eq!(ours, theirs, "line {:?}", line);
    }
}

#[test]
fn is_whitespace_agrees_with_the_standard_library() {
    for code in 0..=0x10ffffu32 {
        if let Some(c) = char::from_u32(code) {
            assert_eq!(is_whitespace(c), c.is_whitespace(), "code {:x}", code);
        }
    }
}

#[test]
fn parse_i32_agrees_with_the_standard_library() {
    let tokens = [
        "", "0", "-0", "+0", "7", "-7", "+7", "-", "+", "12a", "a12", "1 2", " 1", "2147483647",
        "2147483648", "-2147483648", "-2147483649", "4294967296", "18446744073709551616",
        "000123", "-000123", "++1", "1-", "٣",
    ];
    for token in tokens {
        let chars: Vec<char> = token.chars().collect();
        assert_eq!(parse_i32(&chars), token.parse::<i32>().ok(), "token {:?}", token);
    }
}

#[test]
fn append_i32_agrees_with_the_standard_library() {
    let values = [
        0, 1, -1, 9, 10, -10, 11, 99, 100, 101, -999, 1000, 123456789, -123456789, i32::MAX,
        i32::MIN, i32::MAX - 1, i32::MIN + 1,
    ];
    for value in values {
        let mut text = String::from("x");
        append_i32(value, &mut text);
        assert_eq!(text, format!("x{}", value));
        let chars: Vec<char> = text.chars().skip(1).collect();
        assert_eq!(parse_i32(&chars), Some(value));
    }
}

#[test]
fn append_nat_writes_no_leading_zeros() {
    for (value, expected) in [(0u32, "0"), (5, "5"), (10, "10"), (4294967295, "4294967295")] {
        let mut text = String::new();
        append_nat(value, &mut text);
        assert_eq!(text, expected);
    }
}

#[test]
fn test_from_file() {
    let lines = lines_of(&["Node1 Node2", "1 2", "2 3", "3 4"]);
    let (graph, malformed) = graph_from_lines(&lines);
    assert_eq!(graph.adjacency_list.len(), 3);
    assert!(graph.adjacency_list.contains_key(&1));
    assert!(malformed.is_empty());
}

#[test]
fn graph_from_lines_skips_the_header_even_if_it_reads_as_an_edge() {
    let lines = lines_of(&["8 9", "1 2"]);
    let (graph, malformed) = graph_from_lines(&lines);
    assert_eq!(graph.adjacency_list.len(), 1);
    assert_eq!(graph.adjacency_list[&1], vec![2]);
    assert!(malformed.is_empty());
}

#[test]
fn graph_from_lines_names_the_lines_it_skipped() {
    let lines = lines_of(&[
        "# header",
        "1 2",
        "x y",
        "",
        "3",
        "4 5 6",
        "  1\t8  ",
        "+9 -10",
        "2147483648 1",
        "1 2",
    ]);
    let (graph, malformed) = graph_from_lines(&lines);
    assert_eq!(malformed, vec![2, 3, 4, 5, 8]);
    assert_eq!(graph.adjacency_list.len(), 2);
    assert_eq!(graph.adjacency_list[&1], vec![2, 8, 2]);
    assert_eq!(graph.adjacency_list[&9], vec![-10]);
}

#[test]
fn graph_from_lines_of_nothing_or_a_header_alone_is_empty() {
    let (graph, malformed) = graph_from_lines(&[]);
    assert_eq!(graph.adjacency_list.len(), 0);
    assert!(malformed.is_empty());
    let (graph, malformed) = graph_from_lines(&lines_of(&["not an edge"]));
    assert_eq!(graph.adjacency_list.len(), 0);
    assert!(malformed.is_empty());
}

#[test]
fn graph_from_lines_builds_what_add_edge_builds() {
    let lines = lines_of(&["FromNodeId ToNodeId", "0 1", "0 2", "1 2", "2 0", "2 3", "3 3"]);
    let (loaded, _) = graph_from_lines(&lines);
    let mut built = Graph::new();
    built.add_edge(0, 1);
    built.add_edge(0, 2);
    built.add_edge(1, 2);
    built.add_edge(2, 0);
    built.add_edge(2, 3);
    built.add_edge(3, 3);
    assert_eq!(loaded.adjacency_list, built.adjacency_list);
}
