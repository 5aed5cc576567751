use graph_distance::graph::Graph;
use graph_distance::parse::parse_edge;
use graph_distance::parse::parse_edges;

fn line(s: &str) -> Vec<u8> {
    s.as_bytes().to_vec()
}

#[test]
fn test_parse_valid_line() {
    assert_eq!(parse_edge(&line("3 7")), Some((3, 7)));
    assert_eq!(parse_edge(&line("0 0")), Some((0, 0)));
    assert_eq!(parse_edge(&line("  12\t9  ")), Some((12, 9)));
    assert_eq!(parse_edge(&line("42 42\n")), Some((42, 42)));
}

#[test]
fn test_parse_bounds() {
    assert_eq!(
        parse_edge(&line("18446744073709551615 0")),
        Some((u64::MAX, 0))
    );
    assert_eq!(parse_edge(&line("18446744073709551616 0")), None);
}

#[test]
fn test_parse_malformed_lines() {
    assert_eq!(parse_edge(&line("a b")), None);
    assert_eq!(parse_edge(&line("1")), None);
    assert_eq!(parse_edge(&line("")), None);
    assert_eq!(parse_edge(&line("   ")), None);
    assert_eq!(parse_edge(&line("1 2 3")), None);
    assert_eq!(parse_edge(&line("1 b")), None);
    assert_eq!(parse_edge(&line("-1 2")), None);
    assert_eq!(parse_edge(&line("1.5 2")), None);
}

#[test]
fn test_parse_edges_skips_malformed() {
    let lines = vec![
        line("1 2"),
        line("a b"),
        line("1"),
        line(""),
        line("2 3"),
    ];
    let edges = parse_edges(&lines);
    assert_eq!(edges, vec![(1, 2), (2, 3)]);
}

#[test]
fn test_malformed_lines_never_reach_graph() {
    let lines = vec![
        line("a b"),
        line("1 2"),
        line("7"),
        line(""),
        line("9 9 9"),
    ];
    let edges = parse_edges(&lines);
    let g = Graph::build_graph(&edges);
    assert_eq!(g.vertex_count(), 2);
    assert!(g.has_vertex(1));
    assert!(g.has_vertex(2));
    assert!(!g.has_vertex(7));
    assert!(!g.has_vertex(9));
    assert!(g.has_edge(1, 2));
    assert!(!g.has_edge(2, 1));
    assert!(!g.has_edge(9, 9));
}
