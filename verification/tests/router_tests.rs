use aurora_shared::render::geom::RectI;
use aurora_shared::render::node::{NodeGeom, PositionedNode};
use aurora_shared::render::router::{build_obstacles, compress_points, route_edges, RouteI};
use aurora_shared::render::router_geom::{
    collector_for_target, global_bounds, inflate, ports_for_edge, PointI, CLEARANCE_PX,
};
use aurora_shared::render::svg::SvgConfig;
use aurora_shared::render::types::LayoutEdge;

fn make_node(x: i32, y: i32, w: i32, h: i32) -> PositionedNode {
    PositionedNode {
        bbox: RectI { x, y, w, h },
        width_px: w,
        height_px: h,
        geom: NodeGeom {
            width_px: w,
            height_px: h,
            lines: Vec::new(),
            bold_line_index: None,
            description_start_index: 0,
        },
    }
}

fn edge(a: &str, b: &str) -> LayoutEdge {
    LayoutEdge { a: a.to_string(), b: b.to_string() }
}

fn bbox_of(positioned: &[(String, PositionedNode)], id: &str) -> RectI {
    positioned.iter().rev().find(|(k, _)| k == id).expect("node exists").1.bbox
}

fn contains(rect: RectI, p: PointI) -> bool {
    p.x >= rect.x && p.x <= rect.x + rect.w && p.y >= rect.y && p.y <= rect.y + rect.h
}

fn inner_points(route: &RouteI) -> Vec<PointI> {
    route
        .points
        .iter()
        .copied()
        .skip(1)
        .take(route.points.len().saturating_sub(2))
        .collect()
}

#[test]
fn router_is_deterministic_for_fixed_input() {
    let positioned = vec![
        ("S".to_string(), make_node(100, 100, 80, 40)),
        ("A".to_string(), make_node(100, 260, 80, 40)),
        ("B".to_string(), make_node(260, 260, 80, 40)),
        ("T".to_string(), make_node(180, 420, 80, 40)),
    ];
    let edges = vec![edge("S", "A"), edge("S", "B"), edge("A", "T"), edge("B", "T")];
    let config = SvgConfig::default();
    let r1 = route_edges(&positioned, &edges, &config).expect("routes should succeed");
    let r2 = route_edges(&positioned, &edges, &config).expect("routes should succeed");
    let mut k1: Vec<(String, Vec<(i32, i32)>)> =
        r1.iter().map(|r| (r.edge_id.clone(), r.points.iter().map(|p| (p.x, p.y)).collect())).collect();
    let mut k2: Vec<(String, Vec<(i32, i32)>)> =
        r2.iter().map(|r| (r.edge_id.clone(), r.points.iter().map(|p| (p.x, p.y)).collect())).collect();
    k1.sort_by(|l, r| l.0.cmp(&r.0));
    k2.sort_by(|l, r| l.0.cmp(&r.0));
    assert_eq!(k1, k2);
}

#[test]
fn router_routes_are_orthogonal_and_clear_of_obstacles() {
    let positioned = vec![
        ("S".to_string(), make_node(100, 100, 80, 40)),
        ("T".to_string(), make_node(300, 300, 80, 40)),
        ("O".to_string(), make_node(200, 180, 80, 140)),
    ];
    let edges = vec![edge("S", "T")];
    let routes = route_edges(&positioned, &edges, &SvgConfig::default()).expect("route should succeed");
    assert_eq!(routes.len(), 1);
    let inflated: Vec<RectI> = positioned.iter().map(|(_, n)| inflate(n.bbox, CLEARANCE_PX)).collect();
    for route in &routes {
        assert!(route.points.len() >= 2);
        for seg in route.points.windows(2) {
            assert!(seg[0].x == seg[1].x || seg[0].y == seg[1].y, "segment must be orthogonal");
        }
        for p in inner_points(route) {
            assert!(!inflated.iter().any(|r| contains(*r, p)), "inner point inside an obstacle: {p:?}");
        }
    }
}

#[test]
fn router_keeps_expanded_terminal_clearance() {
    let positioned = vec![
        ("S".to_string(), make_node(100, 100, 80, 40)),
        ("T".to_string(), make_node(260, 360, 80, 40)),
    ];
    let source = bbox_of(&positioned, "S");
    let target = bbox_of(&positioned, "T");
    let obstacles = build_obstacles(&positioned);
    let ports = ports_for_edge(source, target, &obstacles);
    assert!(ports.source_exit.y - (source.y + source.h) >= CLEARANCE_PX);
    assert!(target.y - ports.target_entry.y >= CLEARANCE_PX);
}

#[test]
fn router_avoids_below_target_detour_when_path_is_open() {
    let positioned = vec![
        ("S".to_string(), make_node(100, 100, 80, 40)),
        ("T".to_string(), make_node(360, 320, 80, 40)),
    ];
    let edges = vec![edge("S", "T")];
    let routes = route_edges(&positioned, &edges, &SvgConfig::default()).expect("route should succeed");
    assert_eq!(routes.len(), 1);
    for p in inner_points(&routes[0]) {
        assert!(p.y <= 320, "open route should not dip below target top: {p:?}");
    }
}

#[test]
fn router_orders_sources_by_geometry_then_id() {
    let positioned = vec![
        ("SRC-Z".to_string(), make_node(100, 100, 80, 40)),
        ("SRC-A".to_string(), make_node(900, 100, 80, 40)),
        ("T-A".to_string(), make_node(100, 320, 80, 40)),
        ("T-Z".to_string(), make_node(900, 320, 80, 40)),
    ];
    let edges = vec![edge("SRC-A", "T-Z"), edge("SRC-Z", "T-A")];
    let routes = route_edges(&positioned, &edges, &SvgConfig::default()).expect("route should succeed");
    assert_eq!(routes.len(), 2);
    assert_eq!(routes[0].source_id, "SRC-Z", "left-most source should be routed first");
}

#[test]
fn router_orders_dense_sources_center_first() {
    let mut positioned: Vec<(String, PositionedNode)> = Vec::new();
    for (idx, x) in [100, 300, 500, 700, 900].iter().copied().enumerate() {
        positioned.push((format!("S{idx}"), make_node(x, 100, 80, 40)));
    }
    for (idx, x) in [120, 280, 500, 720, 880, 1040].iter().copied().enumerate() {
        positioned.push((format!("T{idx}"), make_node(x, 760, 80, 40)));
    }
    let mut edges: Vec<LayoutEdge> = Vec::new();
    for source_idx in 0..5 {
        for target_idx in 0..6 {
            edges.push(edge(&format!("S{source_idx}"), &format!("T{target_idx}")));
        }
    }
    let routes = route_edges(&positioned, &edges, &SvgConfig::default()).expect("dense routes should succeed");
    assert_eq!(routes.len(), edges.len());
    assert_eq!(routes[0].source_id, "S2", "dense routing should process center-nearest sources first");
}

#[test]
fn router_orders_targets_by_geometry_within_source() {
    let positioned = vec![
        ("SRC".to_string(), make_node(500, 100, 80, 40)),
        ("T-Z".to_string(), make_node(100, 320, 80, 40)),
        ("T-A".to_string(), make_node(900, 320, 80, 40)),
    ];
    let edges = vec![edge("SRC", "T-A"), edge("SRC", "T-Z")];
    let routes = route_edges(&positioned, &edges, &SvgConfig::default()).expect("route should succeed");
    assert_eq!(routes.len(), 2);
    assert_eq!(routes[0].target_id, "T-Z", "left-most target should be routed first within a source");
}

#[test]
fn collector_span_starts_near_vertical_center() {
    let positioned = vec![
        ("SRC".to_string(), make_node(120, 120, 80, 40)),
        ("TGT".to_string(), make_node(520, 720, 80, 40)),
    ];
    let obstacles = build_obstacles(&positioned);
    let source = bbox_of(&positioned, "SRC");
    let target = bbox_of(&positioned, "TGT");
    let ports = ports_for_edge(source, target, &obstacles);
    let bounds = global_bounds(&obstacles, &vec![ports.source_exit, ports.target_entry]);
    let center_y = (bounds.2 + bounds.3) / 2;
    let collector = collector_for_target(0, target, &obstacles, bounds.2, center_y);
    assert!(collector.y_top >= center_y.min(collector.y_bottom - 1));
}

#[test]
fn routes_to_same_target_align_on_collector_axis() {
    let positioned = vec![
        ("S1".to_string(), make_node(100, 120, 80, 40)),
        ("S2".to_string(), make_node(900, 120, 80, 40)),
        ("T".to_string(), make_node(500, 760, 80, 40)),
    ];
    let edges = vec![edge("S1", "T"), edge("S2", "T")];
    let routes = route_edges(&positioned, &edges, &SvgConfig::default()).expect("route should succeed");
    assert_eq!(routes.len(), 2);
    let target = bbox_of(&positioned, "T");
    let target_center_x = target.x + target.w / 2;
    let on_collector = |route: &RouteI| inner_points(route).iter().any(|p| p.x == target_center_x);
    assert!(on_collector(&routes[0]) && on_collector(&routes[1]));
}

#[test]
fn router_reports_first_missing_endpoint() {
    let positioned = vec![("S".to_string(), make_node(100, 100, 80, 40))];
    let edges = vec![edge("S", "X"), edge("Y", "S")];
    let err = route_edges(&positioned, &edges, &SvgConfig::default()).unwrap_err();
    assert_eq!(err, aurora_shared::render::errors::RenderError::SvgMissingNode("X".to_string()));
}

#[test]
fn router_with_no_edges_routes_nothing() {
    let positioned = vec![("S".to_string(), make_node(100, 100, 80, 40))];
    let routes = route_edges(&positioned, &Vec::new(), &SvgConfig::default()).expect("no edges is fine");
    assert!(routes.is_empty());
}

#[test]
fn router_routes_start_and_end_at_anchors_with_numbered_ids() {
    let positioned = vec![
        ("S".to_string(), make_node(100, 100, 80, 40)),
        ("T".to_string(), make_node(300, 400, 80, 40)),
    ];
    let edges = vec![edge("S", "T"), edge("S", "T")];
    let routes = route_edges(&positioned, &edges, &SvgConfig::default()).expect("route should succeed");
    assert_eq!(routes.len(), 2);
    let mut ids: Vec<String> = routes.iter().map(|r| r.edge_id.clone()).collect();
    ids.sort();
    assert_eq!(ids, vec!["S->T#0".to_string(), "S->T#1".to_string()]);
    for r in &routes {
        assert_eq!(r.points[0], PointI { x: 140, y: 140 });
        assert_eq!(*r.points.last().unwrap(), PointI { x: 340, y: 400 });
        assert_eq!(r.track_id, "auto");
        // Both routes share every inner point, so each is a junction.
        let expected: Vec<String> = inner_points(r).iter().map(|p| format!("j:{}:{}", p.x, p.y)).collect();
        assert_eq!(r.junction_ids, expected);
    }
}

#[test]
fn compress_points_removes_duplicates_and_collinear_points() {
    let points = vec![
        PointI { x: 0, y: 0 },
        PointI { x: 0, y: 0 },
        PointI { x: 10, y: 0 },
        PointI { x: 20, y: 0 },
        PointI { x: 20, y: 10 },
    ];
    let out = compress_points(points);
    assert_eq!(out, vec![PointI { x: 0, y: 0 }, PointI { x: 20, y: 0 }, PointI { x: 20, y: 10 }]);
}
