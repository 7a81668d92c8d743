use aurora_shared::model::Card;
use aurora_shared::render::node::{
    escape_attr, escape_text, find_positioned, measure_node, normalize_icon_id, position_nodes, wrap_text, NodeGeom,
    NodeLayout, COLUMN_PITCH_PX, ICON_OFFSET_X_PX, ICON_OFFSET_Y_PX, ICON_RENDER_SIZE_PX, ROW_PITCH_PX,
};
use aurora_shared::render::svg::{EdgeStyle, SvgConfig};

fn geom() -> NodeGeom {
    NodeGeom { width_px: 100, height_px: 60, lines: Vec::new(), bold_line_index: None, description_start_index: 0 }
}

fn config() -> SvgConfig {
    SvgConfig { node_spacing_px: 10, base_font_size_px: 16, edge_style: EdgeStyle::Orthogonal }
}

#[test]
fn wrap_preserves_newlines() {
    let lines = wrap_text("a b c\n\n1 2 3", 4);
    assert_eq!(lines[0], "a b");
    assert_eq!(lines[1], "c");
    assert_eq!(lines[2], "");
    assert_eq!(lines[3], "1 2");
    assert_eq!(lines[4], "3");
}

#[test]
fn escape_xml_text() {
    assert_eq!(escape_text("a&b<c>d"), "a&amp;b&lt;c&gt;d");
}

#[test]
fn escape_attr_also_escapes_quotes() {
    assert_eq!(escape_attr("\"a\" & 'b'"), "&quot;a&quot; &amp; &apos;b&apos;");
}

#[test]
fn position_nodes_does_not_insert_empty_columns() {
    let nodes = vec![
        NodeLayout { id: "a".to_string(), x: 0, y: 0, geom: geom() },
        NodeLayout { id: "b".to_string(), x: 2, y: 0, geom: geom() },
    ];
    let positioned = position_nodes(&nodes, &config());
    let a = find_positioned(&positioned, "a").expect("a should be positioned");
    let b = find_positioned(&positioned, "b").expect("b should be positioned");
    assert_eq!(a.bbox.x, 0);
    assert_eq!(b.bbox.x, 2 * COLUMN_PITCH_PX);
}

#[test]
fn position_nodes_uses_fixed_row_pitch() {
    let nodes = vec![
        NodeLayout { id: "a".to_string(), x: 0, y: 0, geom: geom() },
        NodeLayout { id: "b".to_string(), x: 0, y: 1, geom: geom() },
    ];
    let positioned = position_nodes(&nodes, &config());
    let a = find_positioned(&positioned, "a").expect("a should be positioned");
    let b = find_positioned(&positioned, "b").expect("b should be positioned");
    assert_eq!(a.bbox.y, 0);
    assert_eq!(b.bbox.y, ROW_PITCH_PX);
}

#[test]
fn normalize_icon_id_accepts_prefixed_variants() {
    assert_eq!(normalize_icon_id("wrench").as_deref(), Some("wrench"));
    assert_eq!(normalize_icon_id("i-wrench").as_deref(), Some("wrench"));
    assert_eq!(normalize_icon_id("#i-wrench").as_deref(), Some("wrench"));
    assert_eq!(normalize_icon_id("  #i-wrench  ").as_deref(), Some("wrench"));
    assert!(normalize_icon_id(" ").is_none());
}

#[test]
fn wrap_text_respects_column_limit() {
    let lines = wrap_text("A phrase that should wrap before the final word escapes the card boundary.", 32);
    assert!(lines.iter().all(|line| line.chars().count() <= 32), "wrapped lines exceeded width: {lines:?}");
}

#[test]
fn icon_slot_matches_template_layout() {
    assert_eq!(ICON_RENDER_SIZE_PX, 72);
    assert!((ICON_OFFSET_X_PX as f32 - 70.0).abs() < 0.01);
    assert!((ICON_OFFSET_Y_PX as f32 - 189.0).abs() < 0.01);
}

#[test]
fn measure_node_prefixes_first_line_with_card_id() {
    let card = Card {
        id: "APP-001".to_string(),
        card_type: "Application".to_string(),
        card_subtype: None,
        name: "Portal".to_string(),
        description: "desc".to_string(),
        status: None,
        boundary: None,
        notes: None,
        icon: None,
        links: Vec::new(),
    };
    let geom = measure_node(&card, &SvgConfig::default());
    assert_eq!(geom.lines.first().map(String::as_str), Some("APP-001: Application"));
}
