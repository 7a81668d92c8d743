use aurora_shared::render::focused_graph::centered_slots;
use aurora_shared::render::types::LayoutFamily;

#[test]
fn layout_family_parse_is_case_insensitive() {
    assert_eq!(LayoutFamily::parse("vertical-tree"), Some(LayoutFamily::TreeTopDown));
    assert_eq!(LayoutFamily::parse("Horizontal"), Some(LayoutFamily::TreeLeftRight));
    assert_eq!(LayoutFamily::parse("RADIAL_SUBTREE"), Some(LayoutFamily::Radial));
    assert_eq!(LayoutFamily::parse("radial1"), Some(LayoutFamily::Radial1));
    assert_eq!(LayoutFamily::parse("circular"), Some(LayoutFamily::Circular));
    assert_eq!(LayoutFamily::parse("unknown"), None);
}

#[test]
fn layout_family_order_matches_tie_break_precedence() {
    assert_eq!(
        LayoutFamily::ordered(),
        vec![
            LayoutFamily::TreeTopDown,
            LayoutFamily::TreeLeftRight,
            LayoutFamily::Radial,
            LayoutFamily::Radial1,
            LayoutFamily::Circular,
        ]
    );
}

#[test]
fn centered_slots_preserve_center_gap_for_siblings() {
    assert_eq!(centered_slots(1, true), vec![1]);
    assert_eq!(centered_slots(2, true), vec![-1, 1]);
    assert_eq!(centered_slots(3, true), vec![-1, 1, 2]);
}

#[test]
fn centered_slots_without_reserved_center() {
    assert_eq!(centered_slots(0, false), Vec::<i32>::new());
    assert_eq!(centered_slots(3, false), vec![-1, 0, 1]);
}

#[test]
fn graphviz_normalize_edge_endpoint_strips_ports() {
    assert_eq!(aurora_shared::layout::graphviz::normalize_edge_endpoint("\"MIS-001:e\""), "MIS-001");
}

#[test]
fn graphviz_tests_normalize_edge_endpoint_strips_ports() {
    assert_eq!(aurora_shared::layout::graphviz::normalize_edge_endpoint("\"MIS-001:e\""), "MIS-001");
}

#[test]
fn normalize_edge_endpoint_keeps_plain_names() {
    assert_eq!(aurora_shared::layout::graphviz::normalize_edge_endpoint("REQ-001"), "REQ-001");
}

#[test]
fn quote_dot_escapes_quotes_and_backslashes() {
    assert_eq!(aurora_shared::layout::graphviz::quote_dot("a\"b\\c"), "\"a\\\"b\\\\c\"");
}
