use aurora_shared::model::{Card, Link};
use aurora_shared::render::document::{
    assemble_svg, background_svg, collapse_blank_lines, content_svg, drawing_svg, index_cards, utf8_len_of, SvgLayers,
};
use aurora_shared::render::errors::RenderError;
use aurora_shared::render::geom::RectI;

fn card(id: &str) -> Card {
    Card {
        id: id.to_string(),
        card_type: "Activity".to_string(),
        card_subtype: None,
        name: format!("{} name", id),
        description: "desc".to_string(),
        status: None,
        boundary: None,
        notes: None,
        icon: None,
        links: Vec::<Link>::new(),
    }
}

fn layers(boundaries: &str, edges: &str, shapes: &str) -> SvgLayers {
    SvgLayers {
        boundaries: boundaries.to_string(),
        edges: edges.to_string(),
        note_edges: String::new(),
        node_shapes: shapes.to_string(),
        note_shapes: String::new(),
        node_labels: String::new(),
        note_labels: String::new(),
    }
}

#[test]
fn index_cards_lists_root_then_cards() {
    let r = index_cards(&card("R"), &vec![card("A"), card("B")]).expect("distinct ids");
    assert_eq!(r, vec![("R".to_string(), 0), ("A".to_string(), 1), ("B".to_string(), 2)]);
}

#[test]
fn index_cards_refuses_the_first_repeated_id() {
    let r = index_cards(&card("R"), &vec![card("A"), card("R"), card("A")]);
    assert_eq!(r, Err(RenderError::SvgDuplicateCardId("R".to_string())));
}

#[test]
fn content_groups_only_non_empty_layers() {
    let s = content_svg(&layers("", "E", "S"));
    assert_eq!(s, "<g id=\"edges\">E</g><g id=\"node-shapes\">S</g>");
}

#[test]
fn drawing_shifts_content_only_when_needed() {
    assert_eq!(drawing_svg("B", "C", 0, 0), "BC");
    assert_eq!(drawing_svg("B", "C", 5, -2), "B<g id=\"aurora-content\" transform=\"translate(5 -2)\">C</g>");
}

#[test]
fn background_covers_the_view_box() {
    let s = background_svg(&RectI { x: 1, y: 2, w: 30, h: 40 });
    assert_eq!(
        s,
        "<style>@media print{#aurora-bg{display:none;}}</style><rect id=\"aurora-bg\" x=\"1\" y=\"2\" width=\"30\" height=\"40\" style=\"fill:#ffffff;stroke:none;\" />"
    );
}

#[test]
fn collapse_blank_lines_keeps_one_empty_line() {
    assert_eq!(collapse_blank_lines("a\n\n\n b\n  \nc".to_string()), "a\n\n b\n\nc");
    assert_eq!(collapse_blank_lines("a\r\n\r\n\r\nb\n".to_string()), "a\n\nb\n");
    assert_eq!(collapse_blank_lines(String::new()), "");
}

#[test]
fn utf8_length_counts_bytes() {
    assert_eq!(utf8_len_of("aé€😀"), 1 + 2 + 3 + 4);
}

#[test]
fn assemble_fills_the_template() {
    let tpl = "<svg viewBox=\"{{viewbox}}\">\n\n\n{{drawing}}</svg>";
    let vb = RectI { x: 0, y: 0, w: 10, h: 10 };
    let out = assemble_svg(tpl, &layers("", "E", ""), vb, 0, 0).expect("fits");
    assert!(out.contains("<g id=\"edges\">E</g>"));
    assert!(out.contains("aurora-bg"));
    assert!(!out.contains("\n\n\n"));
}

#[test]
fn assemble_reports_a_missing_view_box() {
    let vb = RectI { x: 0, y: 0, w: 10, h: 10 };
    assert_eq!(assemble_svg("nope", &layers("", "", ""), vb, 0, 0), Err(RenderError::SvgTemplateMissingViewbox));
}
