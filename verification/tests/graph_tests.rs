use aurora_shared::layout::graph::{build_graph, classify_edges, validate_graph, LayoutGraph};
use aurora_shared::layout::plain::{plain_records, scan_plain_output, PlainItem};
use aurora_shared::layout::graphviz::{build_graphviz_input, spec_for_family};
use aurora_shared::render::types::LayoutFamily;
use aurora_shared::model::{Card, Link, Model};
use aurora_shared::render::errors::RenderError;

fn make_card(id: &str, card_type: &str, targets: &[&str]) -> Card {
    Card {
        id: id.to_string(),
        card_type: card_type.to_string(),
        card_subtype: None,
        name: format!("{} name", id),
        description: "desc".to_string(),
        status: None,
        boundary: None,
        notes: None,
        icon: None,
        links: targets
            .iter()
            .map(|target| Link { target: target.to_string(), relationship: "rel".to_string() })
            .collect(),
    }
}

fn make_model(root_card: Card, cards: Vec<Card>) -> Model {
    Model { root_card, cards }
}

fn has_node(graph: &LayoutGraph, id: &str) -> bool {
    graph.table.ids.iter().any(|n| n == id)
}

fn has_root(graph: &LayoutGraph, id: &str) -> bool {
    graph.roots.iter().any(|&r| graph.table.ids[r] == id)
}

fn types(values: &[&str]) -> Vec<String> {
    values.iter().map(|v| v.to_string()).collect()
}

#[test]
fn build_graph_filters_cards_by_type() {
    let root = make_card("MIS-001", "Mission", &["REQ-001"]);
    let requirement = make_card("REQ-001", "Requirement", &[]);
    let driver = make_card("DRI-001", "Driver", &["MIS-001"]);
    let model = make_model(root, vec![requirement, driver]);
    let graph = build_graph(&model, &types(&["Mission"]), &types(&["Requirement"])).expect("graph should build");
    assert!(has_node(&graph, "MIS-001"));
    assert!(has_node(&graph, "REQ-001"));
    assert!(!has_node(&graph, "DRI-001"));
    assert_eq!(graph.edges.len(), 1);
}

#[test]
fn build_graph_prunes_unreachable_components() {
    let root = make_card("MIS-001", "Mission", &["REQ-001"]);
    let requirement = make_card("REQ-001", "Requirement", &[]);
    let driver_one = make_card("DRI-001", "Driver", &["DRI-002"]);
    let driver_two = make_card("DRI-002", "Driver", &["DRI-001"]);
    let model = make_model(root, vec![requirement, driver_one, driver_two]);
    let graph = build_graph(&model, &types(&["Mission"]), &types(&["Requirement", "Driver"]))
        .expect("graph should build");
    assert!(has_root(&graph, "MIS-001"));
    assert!(!has_node(&graph, "DRI-001"));
    assert!(!has_node(&graph, "DRI-002"));
    assert!(!has_root(&graph, "DRI-001"));
    assert!(!has_root(&graph, "DRI-002"));
    validate_graph(&graph).expect("graph should validate");
}

#[test]
fn classify_edges_is_deterministic() {
    let root = make_card("MIS-001", "Mission", &["REQ-001"]);
    let requirement = make_card("REQ-001", "Requirement", &["REQ-002"]);
    let requirement_two = make_card("REQ-002", "Requirement", &[]);
    let model = make_model(root, vec![requirement, requirement_two]);
    let graph = build_graph(&model, &types(&["Mission"]), &types(&["Requirement"])).expect("graph should build");
    let first = classify_edges(&graph);
    let second = classify_edges(&graph);
    assert_eq!(first.backbone, second.backbone);
    assert_eq!(first.loops, second.loops);
}

#[test]
fn classify_edges_splits_tree_and_cross_links() {
    let root = make_card("MIS-001", "Mission", &["REQ-001", "REQ-002"]);
    let one = make_card("REQ-001", "Requirement", &["REQ-002"]);
    let two = make_card("REQ-002", "Requirement", &[]);
    let model = make_model(root, vec![one, two]);
    let graph = build_graph(&model, &types(&["Mission"]), &types(&["Requirement"])).expect("graph should build");
    let classes = classify_edges(&graph);
    assert_eq!(classes.backbone.len(), 2);
    assert_eq!(classes.loops.len(), 1);
    assert_eq!(classes.backbone.len() + classes.loops.len(), graph.edges.len());
}

#[test]
fn build_graph_rejects_duplicate_ids() {
    let root = make_card("MIS-001", "Mission", &[]);
    let model = make_model(root, vec![make_card("REQ-001", "Requirement", &[]), make_card("REQ-001", "Requirement", &[])]);
    let err = build_graph(&model, &types(&["Mission"]), &types(&["Requirement"])).err().expect("duplicate id");
    assert_eq!(err, RenderError::DuplicateNodeId("REQ-001".to_string()));
}

#[test]
fn build_graph_requires_a_root() {
    let root = make_card("MIS-001", "Mission", &[]);
    let model = make_model(root, Vec::new());
    let err = build_graph(&model, &types(&["Driver"]), &types(&["Mission"])).err().expect("no roots");
    assert_eq!(err, RenderError::MissingRoots);
}

#[test]
fn build_graph_rejects_unknown_link_targets() {
    let root = make_card("MIS-001", "Mission", &["REQ-404"]);
    let model = make_model(root, Vec::new());
    let err = build_graph(&model, &types(&["Mission"]), &Vec::new()).err().expect("unknown target");
    assert_eq!(err, RenderError::UnknownTarget("MIS-001".to_string(), "REQ-404".to_string()));
}

#[test]
fn build_graph_promotes_orphaned_cards_to_roots() {
    let root = make_card("MIS-001", "Mission", &["DRI-001"]);
    let driver = make_card("DRI-001", "Driver", &["REQ-001"]);
    let requirement = make_card("REQ-001", "Requirement", &[]);
    let model = make_model(root, vec![driver, requirement]);
    let graph = build_graph(&model, &types(&["Mission"]), &types(&["Requirement"])).expect("graph should build");
    assert!(has_root(&graph, "MIS-001"));
    assert!(!has_node(&graph, "DRI-001"));
    assert!(!has_node(&graph, "REQ-001"));
    validate_graph(&graph).expect("graph should validate");
}

fn two_card_graph() -> LayoutGraph {
    let root = make_card("MIS-001", "Mission", &["REQ-001"]);
    let requirement = make_card("REQ-001", "Requirement", &[]);
    let model = make_model(root, vec![requirement]);
    // The card types are named as in the graph tests: `build_graph` selects cards by type name.
    build_graph(&model, &types(&["Mission"]), &types(&["Requirement"])).expect("graph should build")
}

fn tree_top_down_input() -> String {
    let graph = two_card_graph();
    let spec = spec_for_family(LayoutFamily::TreeTopDown).expect("tree families have an engine");
    build_graphviz_input(&graph, spec, LayoutFamily::TreeTopDown)
}

fn tree_left_right_input() -> String {
    let graph = two_card_graph();
    let spec = spec_for_family(LayoutFamily::TreeLeftRight).expect("tree families have an engine");
    build_graphviz_input(&graph, spec, LayoutFamily::TreeLeftRight)
}

#[test]
fn graphviz_graphviz_input_emits_plain_tree_nodes_without_helper_root() {
    let dot = tree_top_down_input();
    assert!(dot.contains("\"MIS-001\";"));
    assert!(dot.contains("\"REQ-001\";"));
    assert!(!dot.contains("__aurora_layout_root__"));
}

#[test]
fn graphviz_tests_graphviz_input_emits_plain_tree_nodes_without_helper_root() {
    let dot = tree_top_down_input();
    assert!(dot.contains("\"MIS-001\";"));
    assert!(dot.contains("\"REQ-001\";"));
    assert!(!dot.contains("__aurora_layout_root__"));
}

#[test]
fn graphviz_graphviz_input_uses_expected_spacing_and_rankdir() {
    let dot = tree_left_right_input();
    assert!(dot.contains("rankdir=LR"));
    assert!(dot.contains("nodesep=1.0000"));
    assert!(dot.contains("ranksep=2.0000"));
    assert!(dot.contains("splines=ortho"));
}

#[test]
fn graphviz_tests_graphviz_input_uses_expected_spacing_and_rankdir() {
    let dot = tree_left_right_input();
    assert!(dot.contains("rankdir=LR"));
    assert!(dot.contains("nodesep=1.0000"));
    assert!(dot.contains("ranksep=2.0000"));
    assert!(dot.contains("splines=ortho"));
}

#[test]
fn graphviz_input_is_complete_dot_text() {
    let dot = tree_top_down_input();
    assert_eq!(
        dot,
        "digraph aurora {\n  graph [nodesep=2.0000, ranksep=2.0000, splines=ortho, compund=true, reminicross=true, center=true, concentrate=true, rankdir=TB];\n  node [shape=box, fixedsize=true, width=2.4000, height=1.5000, margin=0, label=\"\", fontsize=16];\n  edge [arrowhead=normal, penwidth=2];\n  \"MIS-001\";\n  \"REQ-001\";\n  \"MIS-001\" -> \"REQ-001\";\n}\n"
    );
}

#[test]
fn spec_for_family_covers_only_tree_families() {
    assert!(spec_for_family(LayoutFamily::TreeTopDown).is_some());
    assert!(spec_for_family(LayoutFamily::Radial).is_none());
    assert!(spec_for_family(LayoutFamily::Circular).is_none());
    assert_eq!(spec_for_family(LayoutFamily::TreeLeftRight).map(|s| s.command), Some("dot"));
}

fn coords_of(item: &PlainItem) -> Vec<String> {
    match item {
        PlainItem::Node { coords, .. } => coords.clone(),
        PlainItem::Route { coords, .. } => coords.clone(),
    }
}

#[test]
fn plain_records_join_wrapped_lines() {
    let plain = "graph 1 5.0 3.0\n  edge A B 2 0 0\r\n1 1 solid\n\nstop\n";
    assert_eq!(plain_records(plain), vec!["graph 1 5.0 3.0", "edge A B 2 0 0 1 1 solid", "stop"]);
    assert_eq!(plain_records("orphan line\nnode X"), vec!["orphan line", "node X"]);
}

#[test]
fn scan_plain_output_reads_nodes_and_routes() {
    let graph = two_card_graph();
    let plain = "graph 1 5.0 3.0\nnode MIS-001 1.2 0.75 2.4 1.5 \"\" solid box black lightgrey\nnode REQ-001 3.8 2.25 2.4 1.5 \"\" solid box black lightgrey\nedge MIS-001 REQ-001 4 2.4 0.75 2.9 0.75 3.1 2.25 3.8 2.25\nsolid black\nstop\n";
    let scan = scan_plain_output(plain, &graph);
    assert!(scan.failure.is_none());
    assert_eq!(scan.items.len(), 3);
    match &scan.items[0] {
        PlainItem::Node { node, .. } => assert_eq!(graph.table.ids[*node], "MIS-001"),
        _ => panic!("expected a node"),
    }
    assert_eq!(coords_of(&scan.items[0]), vec!["1.2", "0.75", "2.4", "1.5"]);
    match &scan.items[2] {
        PlainItem::Route { source, target, coords } => {
            assert_eq!(graph.table.ids[*source], "MIS-001");
            assert_eq!(graph.table.ids[*target], "REQ-001");
            assert_eq!(coords.len(), 8);
            assert_eq!(coords[0], "2.4");
        }
        _ => panic!("expected a route"),
    }
}

#[test]
fn scan_plain_output_reports_problems() {
    let graph = two_card_graph();
    let short = scan_plain_output("node MIS-001 1 2\n", &graph);
    assert_eq!(short.failure, Some(RenderError::GraphvizParse("node record is too short: node MIS-001 1 2".to_string())));
    let unsupported = scan_plain_output("graph\n", &graph);
    assert_eq!(unsupported.failure, Some(RenderError::GraphvizParse("unsupported plain record 'graph'".to_string())));
    let bad_count = scan_plain_output("edge MIS-001 REQ-001 x 1 2\n", &graph);
    assert_eq!(bad_count.failure, Some(RenderError::GraphvizParse("invalid edge point count 'x'".to_string())));
    let few = scan_plain_output("edge \"MIS-001:s\" REQ-001 3 1 2\n", &graph);
    assert_eq!(
        few.failure,
        Some(RenderError::GraphvizParse("edge record is missing route coordinates: edge \"MIS-001:s\" REQ-001 3 1 2".to_string()))
    );
    let missing = scan_plain_output("node MIS-001 1 2 3 4\nnode OTHER 1 2 3 4\nedge REQ-001 MIS-001 x y\n", &graph);
    assert_eq!(missing.items.len(), 1);
    assert_eq!(missing.failure, Some(RenderError::GraphvizParse("missing node 'REQ-001' in plain output".to_string())));
}
