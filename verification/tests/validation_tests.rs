use aurora_shared::model::{Card, Link};
use aurora_shared::validation::{
    validate_model, validate_model_with_instructions, AuroraModel, CardDefinition, DiagnosticSeverity, Registry,
    RelationshipDefinition, ValidationReport,
};

fn link(target: &str, relationship: &str) -> Link {
    Link { target: target.to_string(), relationship: relationship.to_string() }
}

fn card(id: &str, card_type: &str, card_subtype: Option<&str>, links: Vec<Link>) -> Card {
    Card {
        id: id.to_string(),
        card_type: card_type.to_string(),
        card_subtype: card_subtype.map(|value| value.to_string()),
        name: id.to_string(),
        description: "test".to_string(),
        status: None,
        boundary: None,
        notes: None,
        icon: None,
        links,
    }
}

/// The relationship matrix of the standard card types: (source type, relationship, target type).
const MATRIX: &[(&str, &str, &str)] = &[
    ("Mission", "establishes", "Driver"),
    ("Mission", "involves", "Actor"),
    ("Mission", "requires", "System"),
    ("Mission", "requires", "Application"),
    ("Mission", "includes", "Boundary"),
    ("Mission", "includes", "Asset"),
    ("Mission", "necessitates", "System"),
    ("Boundary", "contains", "Deployment"),
    ("Boundary", "contains", "ADR"),
    ("Boundary", "contains", "Predicate"),
    ("Driver", "drives", "Requirement"),
    ("System", "integrates", "Application"),
    ("System", "owns", "Asset"),
    ("Application", "composes", "Component"),
    ("Component", "invokes", "Interface"),
    ("Component", "generates", "Artifact"),
    ("Component", "implements", "Feature"),
    ("Component", "realizes", "Class"),
    ("Component", "fulfills", "Test"),
    ("Component", "enforces", "Control"),
    ("Component", "executes", "State Machine"),
    ("Feature", "enables", "Capability"),
    ("Capability", "satisfies", "Requirement"),
    ("Capability", "necessitates", "Process"),
    ("Activity", "leads", "Activity"),
    ("Activity", "evaluates", "Condition"),
    ("Activity", "emits", "Event"),
    ("Event", "transitions to", "State"),
    ("Predicate", "transitions to", "State"),
    ("State Machine", "starts in", "State"),
    ("State", "transitions to", "State"),
    ("Artifact", "is", "Asset"),
    ("Artifact", "persists", "Data Store"),
    ("Actor", "desires", "Story"),
    ("Actor", "owns", "Asset"),
    ("Actor", "performs", "Activity"),
    ("Actor", "presents", "Threat"),
    ("Story", "implies", "Constraint"),
    ("ADR", "documents", "Requirement"),
    ("Control", "mitigates", "Risk"),
    ("Control", "safeguards", "Asset"),
    ("Threat", "raises", "Risk"),
    ("Deployment", "provisions", "Node"),
    ("Node", "instantiates", "Node Instance"),
    ("Node", "hosts", "Component"),
    ("Node", "hosts", "Data Store"),
    ("Data Store", "exposes", "Interface"),
];

fn registry() -> Registry {
    let mut types: Vec<String> = Vec::new();
    let mut relationships: Vec<RelationshipDefinition> = Vec::new();
    for (source, verb, target) in MATRIX {
        for t in [source, target] {
            if !types.iter().any(|known| known == t) {
                types.push(t.to_string());
            }
        }
        match relationships.iter_mut().find(|d| d.relationship == *verb) {
            Some(def) => {
                if !def.source_card_types.iter().any(|s| s == source) {
                    def.source_card_types.push(source.to_string());
                }
                if !def.target_card_types.iter().any(|s| s == target) {
                    def.target_card_types.push(target.to_string());
                }
            }
            None => relationships.push(RelationshipDefinition {
                relationship: verb.to_string(),
                source_card_types: vec![source.to_string()],
                target_card_types: vec![target.to_string()],
            }),
        }
    }
    Registry {
        cards: types.into_iter().map(|card_type| CardDefinition { card_type }).collect(),
        relationships,
    }
}

fn report_for(cards: Vec<Card>) -> ValidationReport {
    validate_model(&AuroraModel::new(cards), &registry())
}

fn has_diagnostic(report: &ValidationReport, code: &str, severity: DiagnosticSeverity) -> bool {
    report.diagnostics.iter().any(|diag| diag.code == code && diag.severity == severity)
}

#[test]
fn secret_without_owner_emits_error() {
    let report = report_for(vec![
        card("MIS-001", "Mission", None, vec![link("AST-001", "includes")]),
        card("AST-001", "Asset", Some("Secret"), Vec::new()),
    ]);
    assert!(has_diagnostic(&report, "SECRET_MISSING_OWNER", DiagnosticSeverity::Error));
}

#[test]
fn secret_owned_by_actor_passes() {
    let report = report_for(vec![
        card("MIS-001", "Mission", None, vec![link("ACT-001", "involves")]),
        card("ACT-001", "Actor", None, vec![link("AST-001", "owns")]),
        card("AST-001", "Asset", Some("Secret"), Vec::new()),
    ]);
    assert!(!has_diagnostic(&report, "SECRET_MISSING_OWNER", DiagnosticSeverity::Error));
    assert!(!has_diagnostic(&report, "SECRET_OWNED_BY_NON_ACTOR", DiagnosticSeverity::Warning));
}

#[test]
fn secret_owned_by_non_actor_emits_warning_only() {
    let report = report_for(vec![
        card("MIS-001", "Mission", None, vec![link("SYS-001", "necessitates")]),
        card("SYS-001", "System", None, vec![link("AST-001", "owns")]),
        card("AST-001", "Asset", Some("Secret"), Vec::new()),
    ]);
    assert!(!has_diagnostic(&report, "SECRET_MISSING_OWNER", DiagnosticSeverity::Error));
    assert!(has_diagnostic(&report, "SECRET_OWNED_BY_NON_ACTOR", DiagnosticSeverity::Warning));
}

#[test]
fn unknown_relationship_warns_against_matrix() {
    let report = report_for(vec![
        card("MIS-001", "Mission", None, vec![link("DRI-001", "unsupported")]),
        card("DRI-001", "Driver", None, Vec::new()),
    ]);
    assert!(has_diagnostic(&report, "UNKNOWN_RELATIONSHIP", DiagnosticSeverity::Warning));
}

#[test]
fn relationship_source_mismatch_warns_against_matrix() {
    let report = report_for(vec![
        card("MIS-001", "Mission", None, vec![link("ACT-001", "involves")]),
        card("ACT-001", "Actor", None, vec![link("REQ-001", "drives")]),
        card("REQ-001", "Requirement", None, Vec::new()),
    ]);
    assert!(has_diagnostic(&report, "RELATIONSHIP_SOURCE_NOT_ALLOWED", DiagnosticSeverity::Warning));
}

#[test]
fn new_relationships_allowed_by_matrix() {
    let cards = vec![
        card(
            "MIS-001",
            "Mission",
            None,
            vec![
                link("DRI-001", "establishes"),
                link("ACT-001", "involves"),
                link("SYS-001", "requires"),
                link("APP-001", "requires"),
                link("BND-001", "includes"),
            ],
        ),
        card(
            "BND-001",
            "Boundary",
            None,
            vec![link("DEP-001", "contains"), link("ADR-001", "contains"), link("PRD-001", "contains")],
        ),
        card("DRI-001", "Driver", None, vec![link("REQ-001", "drives")]),
        card("REQ-001", "Requirement", None, Vec::new()),
        card("SYS-001", "System", None, vec![link("APP-001", "integrates")]),
        card("APP-001", "Application", None, vec![link("COM-001", "composes")]),
        card(
            "COM-001",
            "Component",
            None,
            vec![
                link("INT-001", "invokes"),
                link("ART-001", "generates"),
                link("FEA-001", "implements"),
                link("CLS-001", "realizes"),
                link("TES-001", "fulfills"),
                link("CTL-001", "enforces"),
                link("STM-001", "executes"),
            ],
        ),
        card("INT-001", "Interface", None, Vec::new()),
        card("FEA-001", "Feature", None, vec![link("CAP-001", "enables")]),
        card("CAP-001", "Capability", None, vec![link("REQ-001", "satisfies"), link("PRO-001", "necessitates")]),
        card("PRO-001", "Process", None, Vec::new()),
        card(
            "ATV-001",
            "Activity",
            None,
            vec![link("ATV-002", "leads"), link("CON-001", "evaluates"), link("EVT-001", "emits")],
        ),
        card("ATV-002", "Activity", None, Vec::new()),
        card("CON-001", "Condition", None, Vec::new()),
        card("EVT-001", "Event", None, vec![link("STA-002", "transitions to")]),
        card("PRD-001", "Predicate", None, vec![link("STA-002", "transitions to")]),
        card("STM-001", "State Machine", None, vec![link("STA-001", "starts in")]),
        card("STA-001", "State", None, vec![link("STA-002", "transitions to")]),
        card("STA-002", "State", None, Vec::new()),
        card("ART-001", "Artifact", None, vec![link("AST-001", "is"), link("DTS-001", "persists")]),
        card("AST-001", "Asset", None, Vec::new()),
        card(
            "ACT-001",
            "Actor",
            None,
            vec![
                link("STR-001", "desires"),
                link("AST-001", "owns"),
                link("ATV-001", "performs"),
                link("THR-001", "presents"),
            ],
        ),
        card("STR-001", "Story", None, vec![link("CNS-001", "implies")]),
        card("CNS-001", "Constraint", None, Vec::new()),
        card("ADR-001", "ADR", None, vec![link("REQ-001", "documents")]),
        card("CTL-001", "Control", None, vec![link("RIS-001", "mitigates"), link("AST-001", "safeguards")]),
        card("THR-001", "Threat", None, vec![link("RIS-001", "raises")]),
        card("RIS-001", "Risk", None, Vec::new()),
        card("DEP-001", "Deployment", None, vec![link("NOD-001", "provisions")]),
        card(
            "NOD-001",
            "Node",
            None,
            vec![link("NIN-001", "instantiates"), link("COM-001", "hosts"), link("DTS-001", "hosts")],
        ),
        card("NIN-001", "Node Instance", None, Vec::new()),
        card("DTS-001", "Data Store", None, vec![link("INT-002", "exposes")]),
        card("INT-002", "Interface", None, Vec::new()),
        card("TES-001", "Test", None, Vec::new()),
        card("CLS-001", "Class", None, Vec::new()),
    ];
    let report = report_for(cards);
    for code in ["UNKNOWN_RELATIONSHIP", "RELATIONSHIP_SOURCE_NOT_ALLOWED", "RELATIONSHIP_TARGET_NOT_ALLOWED"] {
        assert!(!has_diagnostic(&report, code, DiagnosticSeverity::Warning), "unexpected {code}");
    }
}

#[test]
fn empty_model_is_an_error() {
    let report = report_for(Vec::new());
    assert!(has_diagnostic(&report, "EMPTY_MODEL", DiagnosticSeverity::Error));
    assert!(report.has_errors());
}

#[test]
fn missing_mission_and_duplicates_are_errors() {
    let report = report_for(vec![
        card("ACT-001", "Actor", None, Vec::new()),
        card("ACT-001", "Actor", None, Vec::new()),
    ]);
    assert!(has_diagnostic(&report, "MISSING_MISSION", DiagnosticSeverity::Error));
    assert!(has_diagnostic(&report, "DUPLICATE_CARD_ID", DiagnosticSeverity::Error));
}

#[test]
fn missing_link_target_and_unreachable_cards_are_errors() {
    let report = report_for(vec![
        card("MIS-001", "Mission", None, vec![link("ACT-009", "involves")]),
        card("ACT-001", "Actor", None, Vec::new()),
    ]);
    assert!(has_diagnostic(&report, "MISSING_LINK_TARGET", DiagnosticSeverity::Error));
    assert!(has_diagnostic(&report, "UNREACHABLE_CARD", DiagnosticSeverity::Error));
}

#[test]
fn target_type_mismatch_warns_against_matrix() {
    let report = report_for(vec![
        card("MIS-001", "Mission", None, vec![link("DRI-001", "establishes"), link("ACT-001", "involves")]),
        card("DRI-001", "Driver", None, vec![link("ACT-001", "drives")]),
        card("ACT-001", "Actor", None, Vec::new()),
    ]);
    assert!(has_diagnostic(&report, "RELATIONSHIP_TARGET_NOT_ALLOWED", DiagnosticSeverity::Warning));
}

#[test]
fn valid_model_with_instructions_has_no_errors() {
    let model = AuroraModel::new(vec![
        card("MIS-001", "Mission", None, vec![link("ACT-001", "involves")]),
        card("ACT-001", "Actor", None, Vec::new()),
    ]);
    let report = validate_model_with_instructions(&model, Some("check"), &registry());
    assert!(!report.has_errors());
}
