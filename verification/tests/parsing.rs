use dsproject::ingest::graph_from_lines;
use dsproject::parse::parse_edge_line;

fn line(s: &str) -> Vec<u8> {
    s.as_bytes().to_vec()
}

fn lines(ls: &[&str]) -> Vec<Vec<u8>> {
    ls.iter().map(|s| line(s)).collect()
}

#[test]
fn parses_plain_edge() {
    assert_eq!(parse_edge_line(&line("0 1")), Some((0, 1)));
    assert_eq!(parse_edge_line(&line("12 345")), Some((12, 345)));
}

#[test]
fn parses_extra_whitespace() {
    assert_eq!(parse_edge_line(&line("  3\t7  ")), Some((3, 7)));
    assert_eq!(parse_edge_line(&line("3\t\t7")), Some((3, 7)));
}

#[test]
fn skips_comment_lines() {
    assert_eq!(parse_edge_line(&line("# a comment")), None);
    assert_eq!(parse_edge_line(&line("#0 1")), None);
}

#[test]
fn skips_wrong_token_count() {
    assert_eq!(parse_edge_line(&line("")), None);
    assert_eq!(parse_edge_line(&line("   ")), None);
    assert_eq!(parse_edge_line(&line("5")), None);
    assert_eq!(parse_edge_line(&line("1 2 3")), None);
}

#[test]
fn skips_malformed_numbers() {
    assert_eq!(parse_edge_line(&line("1 x")), None);
    assert_eq!(parse_edge_line(&line("-1 2")), None);
    assert_eq!(parse_edge_line(&line("1.5 2")), None);
    // a hash that is not the first byte is an ordinary (malformed) token
    assert_eq!(parse_edge_line(&line(" # 1")), None);
}

#[test]
fn parses_largest_value_and_rejects_overflow() {
    let max = usize::MAX.to_string();
    let over = format!("{}0", max);
    assert_eq!(
        parse_edge_line(&line(&format!("{} 0", max))),
        Some((usize::MAX, 0))
    );
    assert_eq!(parse_edge_line(&line(&format!("{} 0", over))), None);
    assert_eq!(parse_edge_line(&line("18446744073709551616 0")), None);
}

#[test]
fn builds_graph_from_mixed_lines() {
    let g = graph_from_lines(&lines(&["# header", "0 1", "junk", "1 2 3", "2 0", ""]))
        .expect("input names no oversized endpoint");
    // edge_count equals the number of valid two-token non-comment lines
    assert_eq!(g.edge_count(), 2);
    assert_eq!(g.node_count(), 3);
    assert_eq!(g.out_neighbors(0), &vec![1]);
    assert_eq!(g.out_neighbors(2), &vec![0]);
}

#[test]
fn rejects_unrepresentable_node_range() {
    let l = format!("{} 0", usize::MAX);
    assert!(graph_from_lines(&lines(&[&l])).is_none());
}

#[test]
fn empty_input_gives_empty_graph() {
    let g = graph_from_lines(&lines(&[])).unwrap();
    assert_eq!(g.node_count(), 0);
    assert_eq!(g.edge_count(), 0);
}
