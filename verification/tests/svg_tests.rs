use aurora_shared::render::defs::{collect_template_shape_ids, prune_unused_defs_groups};
use aurora_shared::render::errors::RenderError;
use aurora_shared::render::geom::RectI;
use aurora_shared::render::svg::{
    edge_merge_mode, fill_template, normalize_viewbox_origin, pixels_to_inches_attr, EdgeMergeMode,
};

fn ids_as_strings(ids: Vec<Vec<char>>) -> Vec<String> {
    ids.into_iter().map(|id| id.into_iter().collect()).collect()
}

#[test]
fn template_replaces_diagram_placeholder() {
    let tpl = "<svg width=\"1600\" height=\"400\" viewBox=\"{{viewbox}}\">{{diagram}}</svg>";
    let vb = RectI { x: 1, y: 2, w: 3300, h: 2400 };
    let out = fill_template(tpl, "<g/>", &vb).expect("template should render");
    assert!(out.contains("viewBox=\"1 2 3300 2400\""));
    assert!(out.contains("width=\"11in\""));
    assert!(out.contains("height=\"8in\""));
    assert!(out.contains("<g/>"));
}

#[test]
fn template_replaces_drawing_placeholder() {
    let tpl = "<svg viewBox=\"{{viewbox}}\">{{drawing}}</svg>";
    let vb = RectI { x: 0, y: 0, w: 10, h: 10 };
    let out = fill_template(tpl, "X", &vb).expect("template should render");
    assert!(out.contains("X"));
}

#[test]
fn template_missing_placeholders_errors() {
    let vb = RectI { x: 0, y: 0, w: 1, h: 1 };
    let err = fill_template("nope", "X", &vb).unwrap_err();
    assert!(matches!(err, RenderError::SvgTemplateMissingViewbox));
}

#[test]
fn template_without_drawing_place_errors() {
    let vb = RectI { x: 0, y: 0, w: 1, h: 1 };
    let err = fill_template("<svg viewBox=\"{{viewbox}}\">", "X", &vb).unwrap_err();
    assert!(matches!(err, RenderError::SvgTemplateMissingDiagram));
}

#[test]
fn template_inserts_drawing_after_defs() {
    let vb = RectI { x: 0, y: 0, w: 300, h: 300 };
    let out = fill_template("<svg><defs></defs><g id=\"z\"/></svg>", "X", &vb).expect("template should render");
    assert!(out.contains("</defs>X<g id=\"z\"/>"));
    assert!(out.contains("width=\"1in\""));
}

#[test]
fn prune_unused_defs_groups_removes_unreferenced_group() {
    let svg = "<svg><defs><g id=\"keep\"><path /></g><g id=\"drop\"><path /></g></defs><use href=\"#keep\" /></svg>";
    let pruned = prune_unused_defs_groups(svg.to_string());
    assert!(pruned.contains("id=\"keep\""));
    assert!(!pruned.contains("id=\"drop\""));
}

#[test]
fn prune_unused_defs_groups_keeps_parent_when_child_is_referenced() {
    let svg = "<svg><defs><g id=\"parent\"><g id=\"child\"><path /></g></g></defs><use href=\"#child\" /></svg>";
    let pruned = prune_unused_defs_groups(svg.to_string());
    assert!(pruned.contains("id=\"parent\""));
    assert!(pruned.contains("id=\"child\""));
}

#[test]
fn prune_leaves_svg_without_defs_unchanged() {
    let svg = "<svg><g id=\"a\" /></svg>";
    assert_eq!(prune_unused_defs_groups(svg.to_string()), svg);
}

#[test]
fn normalize_viewbox_origin_shifts_negative_coordinates_to_zero() {
    let original = RectI { x: -16, y: -32, w: 15712, h: 2448 };
    let (normalized, shift_x, shift_y) = normalize_viewbox_origin(original);
    assert_eq!(normalized.x, 0);
    assert_eq!(normalized.y, 0);
    assert_eq!(normalized.w, original.w);
    assert_eq!(normalized.h, original.h);
    assert_eq!(shift_x, 16);
    assert_eq!(shift_y, 32);
}

#[test]
fn normalize_viewbox_origin_keeps_positive_origin() {
    let original = RectI { x: 5, y: 7, w: 10, h: 20 };
    let (normalized, shift_x, shift_y) = normalize_viewbox_origin(original);
    assert_eq!(normalized, original);
    assert_eq!((shift_x, shift_y), (0, 0));
}

#[test]
fn collect_template_shape_ids_uses_template_groups() {
    let template = r#"<svg><defs><g id="rectangle" /><g id="hexagon" /><g id="i-wrench" /></defs></svg>"#;
    let ids = ids_as_strings(collect_template_shape_ids(template));
    assert!(ids.iter().any(|id| id == "rectangle"));
    assert!(ids.iter().any(|id| id == "hexagon"));
    assert!(!ids.iter().any(|id| id == "i-wrench"));
}

#[test]
fn edge_merge_mode_selects_one_merge_side() {
    assert_eq!(edge_merge_mode(6, 1), EdgeMergeMode::Source);
    assert_eq!(edge_merge_mode(1, 6), EdgeMergeMode::Target);
    assert_eq!(edge_merge_mode(6, 6), EdgeMergeMode::Target);
    assert_eq!(edge_merge_mode(3, 5), EdgeMergeMode::Target);
    assert_eq!(edge_merge_mode(5, 3), EdgeMergeMode::Source);
    assert_eq!(edge_merge_mode(1, 1), EdgeMergeMode::Neither);
}

#[test]
fn pixels_to_inches_uses_three_hundred_per_inch() {
    assert_eq!(pixels_to_inches_attr(3300), "11in");
    assert_eq!(pixels_to_inches_attr(450), "1.5in");
}
