use aurora_shared::render::graphviz_plain::{read_plain_output, tokenize_plain_line, PlainRecord, TokenFault};

fn tokens(line: &str) -> Result<Vec<String>, TokenFault> {
    let chars: Vec<char> = line.chars().collect();
    tokenize_plain_line(&chars).map(|t| t.iter().map(|w| w.iter().collect()).collect())
}

#[test]
fn parses_unquoted_html_node_label_with_spaces() {
    let plain = "graph 1 2 3\nnode CAP-001 1 1 2 1 <<FONT>✨ Capability:<br />My Name<br />(CAP-001)</FONT>> solid box black white\nstop\n";
    let parsed = read_plain_output(plain);
    assert!(parsed.failure.is_none(), "plain output parses");
    let node = parsed
        .records
        .iter()
        .find_map(|r| match r {
            PlainRecord::Node { name, shape, .. } if name == "CAP-001" => Some(shape.clone()),
            _ => None,
        })
        .expect("node parsed");
    assert_eq!(node, "box");
}

#[test]
fn parses_edge_label_with_spaces() {
    let plain = "graph 1 2 3\nedge A B 2 0 0 1 1 depends on 0.5 0.5 solid black\nstop\n";
    let parsed = read_plain_output(plain);
    assert!(parsed.failure.is_none(), "plain output parses");
    let label = parsed
        .records
        .iter()
        .find_map(|r| match r {
            PlainRecord::Edge { label, .. } => Some(label.clone()),
            _ => None,
        })
        .expect("edge parsed");
    let (text, x, y) = label.expect("label present");
    assert_eq!(text, "depends on");
    assert_eq!((x.as_str(), y.as_str()), ("0.5", "0.5"));
}

#[test]
fn tokenizer_handles_quotes_and_escapes() {
    assert_eq!(tokens("node \"a b\" x"), Ok(vec!["node".to_string(), "a b".to_string(), "x".to_string()]));
    assert_eq!(tokens("\"\" \"q\\\"t\\n\""), Ok(vec!["".to_string(), "q\"t\n".to_string()]));
    assert_eq!(tokens("ab\"c d\"e"), Ok(vec!["abc d".to_string(), "e".to_string()]));
    assert_eq!(tokens("\"open"), Err(TokenFault::Unterminated));
    assert_eq!(tokens("\"open\\"), Err(TokenFault::BadEscape));
}

#[test]
fn read_plain_output_reports_problems_in_order() {
    let missing = read_plain_output("node A 1 2 3 4 l s box c f\n");
    assert_eq!(missing.failure.as_deref(), Some("Graphviz plain output missing graph width"));
    assert_eq!(missing.records.len(), 1);

    let short_graph = read_plain_output("graph 1 2\n");
    assert_eq!(short_graph.failure.as_deref(), Some("Graphviz plain output 'graph' record is malformed"));

    let bad_count = read_plain_output("graph 1 2 3\nedge A B x 1 2\n");
    assert_eq!(bad_count.failure.as_deref(), Some("invalid integer in Graphviz plain output: 'x'"));
    assert_eq!(bad_count.records.len(), 1);

    let few = read_plain_output("graph 1 2 3\nedge A B 3 0 0 1 1\n");
    assert_eq!(few.failure.as_deref(), Some("Graphviz plain output 'edge' record is missing points: edge A B 3 0 0 1 1"));

    let short_node = read_plain_output("  node A 1 2  \n");
    assert_eq!(short_node.failure.as_deref(), Some("Graphviz plain output 'node' record is malformed: node A 1 2"));

    let after_stop = read_plain_output("graph 1 2 3\nstop\nnode broken\n");
    assert!(after_stop.failure.is_none());
    assert_eq!(after_stop.records.len(), 1);
}

#[test]
fn read_plain_output_keeps_edge_points_in_order() {
    let parsed = read_plain_output("graph 1 5 3\nedge A B 2 0.1 0.2 1.1 1.2 solid black\n");
    assert!(parsed.failure.is_none());
    match &parsed.records[1] {
        PlainRecord::Edge { tail, head, coords, label } => {
            assert_eq!((tail.as_str(), head.as_str()), ("A", "B"));
            assert_eq!(coords, &vec!["0.1", "0.2", "1.1", "1.2"]);
            assert!(label.is_none());
        }
        _ => panic!("expected an edge"),
    }
}
