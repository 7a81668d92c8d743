use aurora_shared::model::{Card, Link};
use aurora_shared::render::focused_graph::{
    focused_hotspots, focused_nodes, visible_edges, FocusedGraph, FocusedGraphRole,
};

fn make_card(id: &str, name: &str, targets: &[&str]) -> Card {
    Card {
        id: id.to_string(),
        card_type: "Activity".to_string(),
        card_subtype: None,
        name: name.to_string(),
        description: String::new(),
        status: None,
        boundary: None,
        notes: None,
        icon: None,
        links: targets
            .iter()
            .map(|target| Link { target: target.to_string(), relationship: "rel".to_string() })
            .collect(),
    }
}

fn sample() -> FocusedGraph {
    FocusedGraph::new(
        make_card("ACT-002", "Focus", &["ACT-003"]),
        vec![make_card("ACT-001", "Parent", &["ACT-002", "ACT-004", "ACT-999"])],
        vec![make_card("ACT-004", "Sibling", &[])],
        vec![make_card("ACT-003", "Child", &[])],
        "model".to_string(),
        "model/MIS-001".to_string(),
    )
}

#[test]
fn focused_edges_are_visible_sorted_and_unique() {
    let edges = visible_edges(&sample());
    let pairs: Vec<(String, String)> = edges.iter().map(|e| (e.a.clone(), e.b.clone())).collect();
    assert_eq!(
        pairs,
        vec![
            ("ACT-001".to_string(), "ACT-002".to_string()),
            ("ACT-001".to_string(), "ACT-004".to_string()),
            ("ACT-002".to_string(), "ACT-003".to_string()),
        ]
    );
}

#[test]
fn focused_nodes_place_roles_in_rows() {
    let nodes = focused_nodes(&sample());
    let find = |id: &str| nodes.iter().find(|n| n.id == id).map(|n| (n.x, n.y));
    assert_eq!(nodes.len(), 4);
    assert_eq!(find("ACT-002"), Some((0, 0)));
    assert_eq!(find("ACT-001"), Some((0, -1)));
    assert_eq!(find("ACT-003"), Some((0, 1)));
    assert_eq!(find("ACT-004"), Some((1, 0)));
}

#[test]
fn focused_hotspots_follow_role_then_id() {
    let g = sample();
    let nodes = focused_nodes(&g);
    let hotspots = focused_hotspots(&g, &nodes);
    assert_eq!(hotspots.len(), 4);
    let order: Vec<(FocusedGraphRole, String)> = hotspots.iter().map(|h| (h.role, h.card_id.clone())).collect();
    assert_eq!(
        order,
        vec![
            (FocusedGraphRole::Center, "ACT-002".to_string()),
            (FocusedGraphRole::Parent, "ACT-001".to_string()),
            (FocusedGraphRole::Sibling, "ACT-004".to_string()),
            (FocusedGraphRole::Child, "ACT-003".to_string()),
        ]
    );
    let center = &hotspots[0];
    assert_eq!(center.card_label, "ACT-002: Focus");
    assert_eq!((center.x_px, center.y_px), (150, 842 + 150));
    assert_eq!((center.width_px, center.height_px), (720, 450));
}
