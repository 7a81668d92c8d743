use aurora_shared::prep::cards::{format_available_cards, replace_available_cards_array, CardsError, CardsKey};
use aurora_shared::prep::label::{proof_label_for_icon_id, wrap_proof_label};
use aurora_shared::prep::refs::{
    class_attribute_with, extract_url_ids, is_defs_tag, is_excluded_tag, is_svg_id_char, local_name, rewrite_reference_value,
    rewrite_url_reference_ids,
};
use aurora_shared::prep::shape_style::retained_inline_style;
use aurora_shared::prep::style::dedup_style_texts_semantic;
use aurora_shared::text::split_words;

#[test]
fn proof_label_replaces_underscores() {
    let label = proof_label_for_icon_id("i-service_dependency_map");
    assert_eq!(label, "service dependency map");
}

#[test]
fn proof_label_replaces_underscores_and_wraps_to_two_lines() {
    let label = proof_label_for_icon_id("i-service_dependency_map");
    assert_eq!(label, "service dependency map");

    let lines = wrap_proof_label(&label, 16, 2);
    assert_eq!(lines, vec!["service", "dependency map"]);
}

#[test]
fn proof_label_keeps_ids_without_prefix() {
    assert_eq!(proof_label_for_icon_id("shape_box"), "shape box");
    assert_eq!(proof_label_for_icon_id("i-"), "");
    assert_eq!(proof_label_for_icon_id("x-a_b"), "x-a b");
}

#[test]
fn split_words_drops_all_whitespace() {
    let chars: Vec<char> = "  alpha \t beta\ngamma  ".chars().collect();
    let words = split_words(&chars);
    let texts: Vec<String> = words.iter().map(|w| w.iter().collect()).collect();
    assert_eq!(texts, vec!["alpha", "beta", "gamma"]);
}

#[test]
fn wrap_proof_label_empty_and_zero_lines() {
    assert_eq!(wrap_proof_label("   ", 10, 2), vec![String::new()]);
    assert_eq!(wrap_proof_label("anything", 10, 0), Vec::<String>::new());
}

#[test]
fn wrap_proof_label_cuts_long_words_and_marks_truncation() {
    // A word longer than a line is cut; its tail waits behind the other words.
    assert_eq!(wrap_proof_label("abcdefghij xy", 4, 5), vec!["abcd", "xy", "efgh", "ij"]);
    // Out of lines: the last line is shortened to make room for the ellipsis.
    assert_eq!(wrap_proof_label("abcdefghij", 4, 2), vec!["abcd", "efg\u{2026}"]);
    // A full last line loses its last character to the ellipsis.
    assert_eq!(wrap_proof_label("ab cd ef", 2, 2), vec!["ab", "c\u{2026}"]);
    assert_eq!(wrap_proof_label("a b c", 3, 1), vec!["a \u{2026}"]);
    // Zero width counts as one character.
    assert_eq!(wrap_proof_label("ab", 0, 3), vec!["a", "b"]);
}

#[test]
fn wrap_proof_label_lines_fit() {
    let lines = wrap_proof_label("the quick brown fox jumps over the lazy dog", 9, 3);
    assert!(lines.len() <= 3);
    for line in &lines {
        assert!(line.chars().count() <= 9);
    }
    assert_eq!(lines, vec!["the quick", "brown fox", "jumps\u{2026}"]);
}

#[test]
fn replace_available_cards_array_rewrites_only_target_array() {
    let source = r##"{
	"$schema": "../schemas/Aurora.modelconfiguration.schema.json",
	"available_cards": ["old", "older"],
	"available_icons": ["legacy-icon"],
	"cards": [],
	"views": []
}
"##;

    let icons = vec!["alarm".to_string(), "wrench".to_string()];
    let updated = replace_available_cards_array(source, &icons)
        .expect("available_cards replacement should succeed");

    assert!(updated.contains("\"available_cards\": [\n\t\t\"alarm\",\n\t\t\"wrench\"\n\t]"));
    assert!(updated.contains("\"available_icons\": [\"legacy-icon\"]"));
    assert!(!updated.contains("\"old\""));
}

#[test]
fn replace_available_cards_array_falls_back_to_available_icons() {
    let source = r##"{
	"$schema": "../schemas/Aurora.modelconfiguration.schema.json",
	"cards": [],
	"available_icons": ["old", "older"],
	"views": []
}
"##;

    let icons = vec!["alarm".to_string(), "wrench".to_string()];
    let updated = replace_available_cards_array(source, &icons)
        .expect("available_icons fallback replacement should succeed");

    assert!(updated.contains("\"available_icons\": [\n\t\t\"alarm\",\n\t\t\"wrench\"\n\t]"));
    assert!(!updated.contains("\"old\""));
}

#[test]
fn replace_available_cards_array_exact_output() {
    let source = "{\"available_cards\" :\n [\"a]\", [1, [2]], \"b\\\"]\"] , \"x\": 1}";
    let icons = vec!["one".to_string()];
    let updated = replace_available_cards_array(source, &icons).unwrap();
    assert_eq!(updated, "{\"available_cards\" :\n [\n\t\t\"one\"\n\t] , \"x\": 1}");
}

#[test]
fn replace_available_cards_array_reports_each_error() {
    let icons = vec!["a".to_string()];
    assert_eq!(replace_available_cards_array("{\"cards\": []}", &icons), Err(CardsError::MissingProperty));
    assert_eq!(
        replace_available_cards_array("{\"available_cards\"}", &icons),
        Err(CardsError::MissingColon(CardsKey::AvailableCards))
    );
    assert_eq!(
        replace_available_cards_array("{\"available_icons\": 3}", &icons),
        Err(CardsError::MissingBracket(CardsKey::AvailableIcons))
    );
    assert_eq!(
        replace_available_cards_array("{\"available_cards\":   ", &icons),
        Err(CardsError::MissingBracket(CardsKey::AvailableCards))
    );
    assert_eq!(
        replace_available_cards_array("{\"available_cards\": [\"a\", [1]", &icons),
        Err(CardsError::UnterminatedArray(CardsKey::AvailableCards))
    );
}

#[test]
fn format_available_cards_handles_empty_list() {
    let text: String = format_available_cards(&[]).iter().collect();
    assert_eq!(text, "[\n\t]");
}

fn id_map() -> Vec<(String, String)> {
    vec![("grad".to_string(), "i-alarm-grad".to_string()), ("clip".to_string(), "i-alarm-clip".to_string())]
}

#[test]
fn local_name_strips_namespaces() {
    assert_eq!(local_name("{http://www.w3.org/1999/xlink}href"), "href");
    assert_eq!(local_name("xlink:href"), "href");
    assert_eq!(local_name("a:b:c"), "c");
    assert_eq!(local_name("plain"), "plain");
    assert_eq!(local_name("{unclosed:name"), "name");
}

#[test]
fn svg_id_chars() {
    assert!(is_svg_id_char('a') && is_svg_id_char('Z') && is_svg_id_char('7'));
    assert!(is_svg_id_char('-') && is_svg_id_char('_') && is_svg_id_char(':') && is_svg_id_char('.'));
    assert!(!is_svg_id_char(')') && !is_svg_id_char(' ') && !is_svg_id_char('é'));
}

#[test]
fn extract_url_ids_lists_every_reference() {
    assert_eq!(extract_url_ids("fill:url(#grad);stroke:url(#clip-1)"), vec!["grad", "clip-1"]);
    assert_eq!(extract_url_ids("url(#)"), vec![""]);
    assert!(extract_url_ids("fill:#fff").is_empty());
}

#[test]
fn rewrite_url_reference_ids_renames_known_ids() {
    let map = id_map();
    assert_eq!(rewrite_url_reference_ids("fill:url(#grad);clip-path:url(#other)", &map), "fill:url(#i-alarm-grad);clip-path:url(#other)");
    assert_eq!(rewrite_url_reference_ids("no references", &map), "no references");
}

#[test]
fn rewrite_reference_value_handles_href() {
    let map = id_map();
    assert_eq!(rewrite_reference_value("xlink:href", "#clip", &map), "#i-alarm-clip");
    assert_eq!(rewrite_reference_value("HREF", "#grad", &map), "#i-alarm-grad");
    assert_eq!(rewrite_reference_value("href", "#unknown", &map), "#unknown");
    assert_eq!(rewrite_reference_value("id", "#grad", &map), "#grad");
    assert_eq!(rewrite_reference_value("style", "fill:url(#grad)", &map), "fill:url(#i-alarm-grad)");
}

#[test]
fn dedup_style_texts_semantic_ignores_decl_order() {
    let styles = vec![".x{fill:#fff;stroke:#000}".to_string(), ".x{stroke:#000; fill:#fff;}".to_string()];
    let deduped = dedup_style_texts_semantic(styles);
    assert_eq!(deduped.len(), 1);
}

#[test]
fn dedup_style_texts_keeps_first_of_each_meaning() {
    let styles = vec![
        ".b, .a { fill : #fff }".to_string(),
        "/* note */.a,.b{fill:#fff}".to_string(),
        ".a{fill:#000}".to_string(),
        ".a{FILL:#000;fill:#000}".to_string(),
        ".b{fill:#fff}.a{stroke:red}".to_string(),
        ".a{stroke:red}.b{fill:#fff}".to_string(),
    ];
    let deduped = dedup_style_texts_semantic(styles);
    assert_eq!(deduped, vec![".b, .a { fill : #fff }", ".a{fill:#000}", ".b{fill:#fff}.a{stroke:red}"]);
}

#[test]
fn dedup_style_texts_compares_other_text_by_collapsed_whitespace() {
    let styles = vec![
        "not  css".to_string(),
        "not \t\ncss".to_string(),
        " not css".to_string(),
        ".x{a:b}\n".to_string(),
        ".x{a:b}".to_string(),
        ".x{a:b} ".to_string(),
    ];
    let deduped = dedup_style_texts_semantic(styles);
    assert_eq!(deduped, vec!["not  css", " not css", ".x{a:b}\n", ".x{a:b}"]);
}

#[test]
fn dedup_style_texts_handles_nested_braces_and_empty_input() {
    assert!(dedup_style_texts_semantic(Vec::new()).is_empty());
    let styles = vec!["@media x{.a{b:c}}".to_string(), "@media  x { .a{b:c}}".to_string()];
    assert_eq!(dedup_style_texts_semantic(styles).len(), 1);
}

#[test]
fn retained_inline_style_keeps_only_meaningful_settings() {
    assert_eq!(retained_inline_style("fill:#000000;stroke:#000000;stroke-width:4"), None);
    assert_eq!(retained_inline_style("fill: #FF0000 ; Stroke:blue;stroke-dasharray:4 2"), Some("fill:#FF0000;stroke:blue;stroke-dasharray:4 2;".to_string()));
    assert_eq!(retained_inline_style("fill:#00000000;stroke-opacity:0"), Some("fill-opacity:0;stroke-opacity:0;".to_string()));
    assert_eq!(retained_inline_style("fill:red;fill:NONE;stroke-dasharray:none"), None);
    assert_eq!(retained_inline_style("fill-opacity:0;fill:000000"), Some("fill-opacity:0;".to_string()));
    assert_eq!(retained_inline_style("no colon;;"), None);
}

#[test]
fn tag_kinds_ignore_namespace_and_case() {
    assert!(is_defs_tag("{http://www.w3.org/2000/svg}DEFS"));
    assert!(!is_defs_tag("g"));
    assert!(is_excluded_tag("svg:Metadata"));
    assert!(is_excluded_tag("style"));
    assert!(!is_excluded_tag("path"));
}

#[test]
fn class_attribute_adds_missing_class_once() {
    assert_eq!(class_attribute_with("", "aurora-symbol"), "aurora-symbol");
    assert_eq!(class_attribute_with("  a   b ", "c"), "a b c");
    assert_eq!(class_attribute_with("aurora-symbol x", "aurora-symbol"), "aurora-symbol x");
    assert_eq!(class_attribute_with("", ""), "");
}
