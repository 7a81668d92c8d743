//! Model validation: structural invariants, secret ownership, and the relationship matrix.
use vstd::prelude::*;

use crate::model::{Card, Link};
use crate::layout::ids::{str_eq, str_lt};
use crate::render::defs::{id_set, lemma_id_set_push, list_has};
use crate::render::focused_graph::{first_with_id, lemma_first_with_id_member};
use crate::text::{
    ascii_lower, ascii_lower_chars, chars_eq, chars_of, copy_chars, eq_ignore_ascii_case, find_char, index_of_char,
    nat_digits, push_chars, push_nat, push_str, seq_lt, string_from_chars, sub_chars, trim, trim_chars,
    trim_matches, trim_matches_chars,
};

verus! {

/// Severity levels emitted by the validator.
#[derive(Debug, Clone, Copy, PartialEq, Eq, Structural)]
pub enum DiagnosticSeverity {
    Error,
    Warning,
    Info,
}

/// Structured validation diagnostic message.
#[derive(Debug, Clone)]
pub struct ValidationDiagnostic {
    pub severity: DiagnosticSeverity,
    pub code: String,
    pub message: String,
    pub card_id: Option<String>,
    pub path: Option<String>,
}

/// A diagnostic as plain values: severity, code, message, card id and path.
pub type DiagView = (DiagnosticSeverity, Seq<char>, Seq<char>, Option<Seq<char>>, Option<Seq<char>>);

/// The view of an optional string.
pub open spec fn opt_view(o: Option<String>) -> Option<Seq<char>> {
    match o {
        Some(s) => Some(s@),
        None => None,
    }
}

impl ValidationDiagnostic {
    /// The diagnostic as plain values.
    pub open spec fn spec_view(&self) -> DiagView {
        (self.severity, self.code@, self.message@, opt_view(self.card_id), opt_view(self.path))
    }
}

/// Collection of diagnostics returned by validation.
#[derive(Debug, Clone)]
pub struct ValidationReport {
    pub diagnostics: Vec<ValidationDiagnostic>,
}

/// The plain values of a list of diagnostics.
pub open spec fn diag_views(d: Seq<ValidationDiagnostic>) -> Seq<DiagView> {
    d.map_values(|x: ValidationDiagnostic| x.spec_view())
}

impl ValidationReport {
    /// Some diagnostic is an error.
    pub fn has_errors(&self) -> (r: bool)
        ensures
            r == exists|k: int| 0 <= k < self.diagnostics@.len() && (#[trigger] self.diagnostics@[k]).severity
                == DiagnosticSeverity::Error,
    {
        let mut k: usize = 0;
        while k < self.diagnostics.len()
            invariant
                k <= self.diagnostics@.len(),
                forall|m: int| 0 <= m < k ==> (#[trigger] self.diagnostics@[m]).severity != DiagnosticSeverity::Error,
            decreases self.diagnostics@.len() - k,
        {
            if self.diagnostics[k].severity == DiagnosticSeverity::Error {
                return true;
            }
            k = k + 1;
        }
        false
    }
}

/// A loaded model: its cards, in load order.
#[derive(Debug, Clone)]
pub struct AuroraModel {
    pub cards: Vec<Card>,
}

impl AuroraModel {
    /// The model of the given cards.
    pub fn new(cards: Vec<Card>) -> (m: AuroraModel)
        ensures
            m.cards == cards,
    {
        AuroraModel { cards }
    }
}

/// A card type of the registry.
#[derive(Debug, Clone)]
pub struct CardDefinition {
    pub card_type: String,
}

/// A relationship of the registry with the card types it may join (`*` for all, `!T` to
/// exclude `T`).
#[derive(Debug, Clone)]
pub struct RelationshipDefinition {
    pub relationship: String,
    pub source_card_types: Vec<String>,
    pub target_card_types: Vec<String>,
}

/// The card and relationship definitions that the relationship matrix is built from.
#[derive(Debug, Clone)]
pub struct Registry {
    pub cards: Vec<CardDefinition>,
    pub relationships: Vec<RelationshipDefinition>,
}

/// `value`, trimmed, equals `expected` ignoring ASCII case.
pub open spec fn ci_match(value: Seq<char>, expected: Seq<char>) -> bool {
    ascii_lower(trim(value)) == ascii_lower(expected)
}

/// Whether `value`, trimmed, equals `expected` ignoring ASCII case.
pub fn is_case_insensitive_match(value: &str, expected: &str) -> (r: bool)
    ensures
        r == ci_match(value@, expected@),
{
    let v = chars_of(value);
    let t = trim_chars(v.as_slice());
    let e = chars_of(expected);
    eq_ignore_ascii_case(t.as_slice(), e.as_slice())
}

/// The card's status is `Deleted`.
pub open spec fn deleted(card: Card) -> bool {
    match card.status {
        Some(s) => ci_match(s@, "Deleted"@),
        None => false,
    }
}

/// Whether the card is marked deleted.
pub fn is_deleted(card: &Card) -> (r: bool)
    ensures
        r == deleted(*card),
{
    match &card.status {
        Some(s) => is_case_insensitive_match(s.as_str(), "Deleted"),
        None => false,
    }
}

/// The card is an asset of subtype `Secret`.
pub open spec fn secret_asset(card: Card) -> bool {
    ci_match(card.card_type@, "Asset"@) && match card.card_subtype {
        Some(s) => ci_match(s@, "Secret"@),
        None => false,
    }
}

/// Whether the card is a secret asset.
pub fn is_secret_asset(card: &Card) -> (r: bool)
    ensures
        r == secret_asset(*card),
{
    if !is_case_insensitive_match(card.card_type.as_str(), "Asset") {
        return false;
    }
    match &card.card_subtype {
        Some(s) => is_case_insensitive_match(s.as_str(), "Secret"),
        None => false,
    }
}

/// A relationship name without surrounding whitespace and backticks, lower-cased.
pub open spec fn relationship_key(value: Seq<char>) -> Seq<char> {
    ascii_lower(trim_matches(trim(value), '`'))
}

/// The relationship key of a name; see [`relationship_key`].
pub fn normalize_relationship(value: &str) -> (r: Vec<char>)
    ensures
        r@ == relationship_key(value@),
{
    let v = chars_of(value);
    let t = trim_chars(v.as_slice());
    let m = trim_matches_chars(t.as_slice(), '`');
    ascii_lower_chars(m.as_slice())
}

/// A card type name without surrounding whitespace and backticks and without a
/// parenthesised suffix.
pub open spec fn card_type_base(value: Seq<char>) -> Seq<char> {
    let t = trim_matches(trim(value), '`');
    match index_of_char(t, '(') {
        Some(i) => trim(trim(t.subrange(0, i))),
        None => trim(t),
    }
}

/// The base name of a card type; see [`card_type_base`].
pub fn normalize_card_type(value: &str) -> (r: Vec<char>)
    ensures
        r@ == card_type_base(value@),
{
    let v = chars_of(value);
    let t = trim_chars(v.as_slice());
    let m = trim_matches_chars(t.as_slice(), '`');
    match find_char(m.as_slice(), '(') {
        Some(i) => {
            let head = sub_chars(m.as_slice(), 0, i);
            let h = trim_chars(head.as_slice());
            trim_chars(h.as_slice())
        },
        None => trim_chars(m.as_slice()),
    }
}

/// The lower-cased base name of a card type, the key it has in the registry.
pub open spec fn card_type_key(value: Seq<char>) -> Seq<char> {
    ascii_lower(card_type_base(value))
}

/// The registry key of a card type; see [`card_type_key`].
pub fn canonical_card_type(value: &str) -> (r: Vec<char>)
    ensures
        r@ == card_type_key(value@),
{
    let b = normalize_card_type(value);
    ascii_lower_chars(b.as_slice())
}

/// A diagnostic from its parts.
fn diagnostic(
    severity: DiagnosticSeverity,
    code: &str,
    message: &Vec<char>,
    card_id: Option<&String>,
    path: Option<&Vec<char>>,
) -> (d: ValidationDiagnostic)
    ensures
        d.spec_view() == (severity, code@, message@, match card_id {
            Some(c) => Some(c@),
            None => None::<Seq<char>>,
        }, match path {
            Some(p) => Some(p@),
            None => None::<Seq<char>>,
        }),
{
    let code_chars = chars_of(code);
    ValidationDiagnostic {
        severity,
        code: string_from_chars(code_chars.as_slice()),
        message: string_from_chars(message.as_slice()),
        card_id: match card_id {
            Some(c) => Some(c.clone()),
            None => None,
        },
        path: match path {
            Some(p) => Some(string_from_chars(p.as_slice())),
            None => None,
        },
    }
}

/// Number of cards with the given id.
pub open spec fn id_count(cards: Seq<Card>, id: Seq<char>) -> nat
    decreases cards.len(),
{
    if cards.len() == 0 {
        0
    } else {
        id_count(cards.drop_last(), id) + if cards.last().id@ == id {
            1nat
        } else {
            0nat
        }
    }
}

/// Counts the cards among the first `upto` with the given id.
fn count_id(cards: &Vec<Card>, id: &String, upto: usize) -> (r: usize)
    requires
        upto <= cards@.len(),
    ensures
        r == id_count(cards@.take(upto as int), id@),
{
    let mut count: usize = 0;
    let mut k: usize = 0;
    while k < upto
        invariant
            k <= upto <= cards@.len(),
            count <= k,
            count == id_count(cards@.take(k as int), id@),
        decreases upto - k,
    {
        proof {
            assert(cards@.take(k + 1).drop_last() =~= cards@.take(k as int));
        }
        if str_eq(cards[k].id.as_str(), id.as_str()) {
            count = count + 1;
        }
        k = k + 1;
    }
    count
}

/// `DUPLICATE_CARD_ID` errors, one per repeated id, in order of first appearance.
pub open spec fn duplicate_diags(prefix: Seq<Card>, all: Seq<Card>) -> Seq<DiagView>
    decreases prefix.len(),
{
    if prefix.len() == 0 {
        Seq::empty()
    } else {
        let c = prefix.last();
        let rest = duplicate_diags(prefix.drop_last(), all);
        let n = id_count(all, c.id@);
        if id_count(prefix.drop_last(), c.id@) == 0 && n > 1 {
            rest.push(
                (
                    DiagnosticSeverity::Error,
                    "DUPLICATE_CARD_ID"@,
                    "Card id "@ + c.id@ + " appears "@ + nat_digits(n) + " times; ids must be unique"@,
                    Some(c.id@),
                    None,
                ),
            )
        } else {
            rest
        }
    }
}

/// Reports every card id that appears more than once.
fn check_duplicate_ids(cards: &Vec<Card>, report: &mut ValidationReport)
    ensures
        diag_views(final(report).diagnostics@) == diag_views(old(report).diagnostics@) + duplicate_diags(
            cards@,
            cards@,
        ),
{
    let ghost start = diag_views(report.diagnostics@);
    let mut k: usize = 0;
    while k < cards.len()
        invariant
            k <= cards@.len(),
            diag_views(report.diagnostics@) == start + duplicate_diags(cards@.take(k as int), cards@),
        decreases cards@.len() - k,
    {
        let before = count_id(cards, &cards[k].id, k);
        let total = count_id(cards, &cards[k].id, cards.len());
        proof {
            assert(cards@.take(k + 1).drop_last() =~= cards@.take(k as int));
            assert(cards@.take(k + 1).last() == cards@[k as int]);
            assert(cards@.take(cards@.len() as int) =~= cards@);
        }
        if before == 0 && total > 1 {
            let mut message = chars_of("Card id ");
            push_str(&mut message, cards[k].id.as_str());
            push_str(&mut message, " appears ");
            push_nat(&mut message, total as u64);
            push_str(&mut message, " times; ids must be unique");
            let d = diagnostic(DiagnosticSeverity::Error, "DUPLICATE_CARD_ID", &message, Some(&cards[k].id), None);
            let ghost old_diags = report.diagnostics@;
            report.diagnostics.push(d);
            proof {
                assert(diag_views(report.diagnostics@) =~= diag_views(old_diags).push(d.spec_view()));
            }
        }
        k = k + 1;
    }
    proof {
        assert(cards@.take(k as int) =~= cards@);
    }
}

/// The card is a mission (its type is exactly `Mission`).
pub open spec fn is_mission(c: Card) -> bool {
    c.card_type@ == "Mission"@
}

/// Number of mission cards.
pub open spec fn mission_count(cards: Seq<Card>) -> nat
    decreases cards.len(),
{
    if cards.len() == 0 {
        0
    } else {
        mission_count(cards.drop_last()) + if is_mission(cards.last()) {
            1nat
        } else {
            0nat
        }
    }
}

/// `MISSING_MISSION` without a mission, `MULTIPLE_MISSIONS` with more than one.
pub open spec fn mission_diags(cards: Seq<Card>) -> Seq<DiagView> {
    let n = mission_count(cards);
    if n == 0 {
        seq![(DiagnosticSeverity::Error, "MISSING_MISSION"@, "No mission card was found"@, None, None)]
    } else if n > 1 {
        seq![
            (
                DiagnosticSeverity::Warning,
                "MULTIPLE_MISSIONS"@,
                nat_digits(n) + " mission cards were found; models typically define exactly one mission"@,
                None,
                None,
            ),
        ]
    } else {
        Seq::empty()
    }
}

/// `id` is the smallest id of a mission card.
pub open spec fn is_root_mission(cards: Seq<Card>, id: Seq<char>) -> bool {
    &&& exists|k: int| 0 <= k < cards.len() && is_mission(#[trigger] cards[k]) && cards[k].id@ == id
    &&& forall|k: int| 0 <= k < cards.len() && is_mission(#[trigger] cards[k]) ==> !seq_lt(cards[k].id@, id)
}

/// Reports a missing or repeated mission and returns the root mission: the one with the
/// smallest id.
fn collect_mission_ids(cards: &Vec<Card>, report: &mut ValidationReport) -> (root: Option<String>)
    ensures
        diag_views(final(report).diagnostics@) == diag_views(old(report).diagnostics@) + mission_diags(cards@),
        match root {
            Some(id) => is_root_mission(cards@, id@),
            None => mission_count(cards@) == 0,
        },
{
    let mut count: usize = 0;
    let mut best: Option<usize> = None;
    let mut k: usize = 0;
    while k < cards.len()
        invariant
            k <= cards@.len(),
            count <= k,
            count == mission_count(cards@.take(k as int)),
            match best {
                Some(b) => b < k && is_mission(cards@[b as int]) && forall|m: int|
                    0 <= m < k && is_mission(#[trigger] cards@[m]) ==> !seq_lt(cards@[m].id@, cards@[b as int].id@),
                None => count == 0,
            },
        decreases cards@.len() - k,
    {
        proof {
            assert(cards@.take(k + 1).drop_last() =~= cards@.take(k as int));
        }
        let mission = chars_of("Mission");
        let ty = chars_of(cards[k].card_type.as_str());
        if chars_eq(ty.as_slice(), mission.as_slice()) {
            count = count + 1;
            match best {
                Some(b) => {
                    if str_lt(cards[k].id.as_str(), cards[b].id.as_str()) {
                        proof {
                            assert forall|m: int| 0 <= m < k + 1 && is_mission(#[trigger] cards@[m]) implies !seq_lt(
                                cards@[m].id@,
                                cards@[k as int].id@,
                            ) by {
                                crate::text::lemma_seq_lt_irreflexive(cards@[k as int].id@);
                                if m < k && seq_lt(cards@[m].id@, cards@[k as int].id@) {
                                    crate::text::lemma_seq_lt_transitive(
                                        cards@[m].id@,
                                        cards@[k as int].id@,
                                        cards@[b as int].id@,
                                    );
                                }
                            }
                        }
                        best = Some(k);
                    } else {
                        proof {
                            assert forall|m: int| 0 <= m < k + 1 && is_mission(#[trigger] cards@[m]) implies !seq_lt(
                                cards@[m].id@,
                                cards@[b as int].id@,
                            ) by {}
                        }
                    }
                },
                None => {
                    proof {
                        assert forall|m: int| 0 <= m < k + 1 && is_mission(#[trigger] cards@[m]) implies !seq_lt(
                            cards@[m].id@,
                            cards@[k as int].id@,
                        ) by {
                            crate::text::lemma_seq_lt_irreflexive(cards@[k as int].id@);
                            if m < k {
                                assert(mission_count(cards@.take(k as int)) > 0) by {
                                    lemma_mission_count_pos(cards@.take(k as int), m);
                                }
                            }
                        }
                    }
                    best = Some(k);
                },
            }
        }
        k = k + 1;
    }
    proof {
        assert(cards@.take(k as int) =~= cards@);
    }
    let ghost old_diags = report.diagnostics@;
    if count == 0 {
        let message = chars_of("No mission card was found");
        let d = diagnostic(DiagnosticSeverity::Error, "MISSING_MISSION", &message, None, None);
        report.diagnostics.push(d);
        proof {
            assert(diag_views(report.diagnostics@) =~= diag_views(old_diags).push(d.spec_view()));
        }
    } else if count > 1 {
        let mut message: Vec<char> = Vec::new();
        push_nat(&mut message, count as u64);
        push_str(&mut message, " mission cards were found; models typically define exactly one mission");
        let d = diagnostic(DiagnosticSeverity::Warning, "MULTIPLE_MISSIONS", &message, None, None);
        report.diagnostics.push(d);
        proof {
            assert(diag_views(report.diagnostics@) =~= diag_views(old_diags).push(d.spec_view()));
        }
    } else {
        proof {
            assert(diag_views(report.diagnostics@) =~= diag_views(old_diags) + Seq::<DiagView>::empty());
        }
    }
    match best {
        Some(b) => Some(cards[b].id.clone()),
        None => None,
    }
}

/// A mission card among the cards makes the mission count positive.
proof fn lemma_mission_count_pos(cards: Seq<Card>, m: int)
    requires
        0 <= m < cards.len(),
        is_mission(cards[m]),
    ensures
        mission_count(cards) > 0,
    decreases cards.len(),
{
    if m < cards.len() - 1 {
        lemma_mission_count_pos(cards.drop_last(), m);
        assert(cards.drop_last()[m] == cards[m]);
    }
}

/// Some card has the id.
pub open spec fn known_id(cards: Seq<Card>, id: Seq<char>) -> bool {
    exists|k: int| 0 <= k < cards.len() && (#[trigger] cards[k]).id@ == id
}

/// Whether some card has the id.
fn has_card_id(cards: &Vec<Card>, id: &String) -> (r: bool)
    ensures
        r == known_id(cards@, id@),
{
    let mut k: usize = 0;
    while k < cards.len()
        invariant
            k <= cards@.len(),
            forall|m: int| 0 <= m < k ==> (#[trigger] cards@[m]).id@ != id@,
        decreases cards@.len() - k,
    {
        if str_eq(cards[k].id.as_str(), id.as_str()) {
            return true;
        }
        k = k + 1;
    }
    false
}

/// The path `links[idx].field`.
pub open spec fn link_path(idx: nat, field: Seq<char>) -> Seq<char> {
    "links["@ + nat_digits(idx) + "]."@ + field
}

/// `MISSING_LINK_TARGET` and `EMPTY_RELATIONSHIP` errors for the first links of a card.
pub open spec fn card_link_diags(card: Card, links: Seq<Link>, all: Seq<Card>) -> Seq<DiagView>
    decreases links.len(),
{
    if links.len() == 0 {
        Seq::empty()
    } else {
        let idx = (links.len() - 1) as nat;
        let link = links.last();
        let rest = card_link_diags(card, links.drop_last(), all);
        let missing = if !known_id(all, link.target@) {
            seq![
                (
                    DiagnosticSeverity::Error,
                    "MISSING_LINK_TARGET"@,
                    "Link uses relationship '"@ + link.relationship@ + "' but target '"@ + link.target@
                        + "' was not found"@,
                    Some(card.id@),
                    Some(link_path(idx, "target"@)),
                ),
            ]
        } else {
            Seq::empty()
        };
        let empty = if trim(link.relationship@).len() == 0 {
            seq![
                (
                    DiagnosticSeverity::Error,
                    "EMPTY_RELATIONSHIP"@,
                    "Relationship name must not be empty"@,
                    Some(card.id@),
                    Some(link_path(idx, "relationship"@)),
                ),
            ]
        } else {
            Seq::empty()
        };
        rest + missing + empty
    }
}

/// Link errors of the first cards.
pub open spec fn link_diags(prefix: Seq<Card>, all: Seq<Card>) -> Seq<DiagView>
    decreases prefix.len(),
{
    if prefix.len() == 0 {
        Seq::empty()
    } else {
        link_diags(prefix.drop_last(), all) + card_link_diags(prefix.last(), prefix.last().links@, all)
    }
}

/// The path of a link field.
fn link_path_chars(idx: usize, field: &str) -> (r: Vec<char>)
    ensures
        r@ == link_path(idx as nat, field@),
{
    let mut p = chars_of("links[");
    push_nat(&mut p, idx as u64);
    push_str(&mut p, "].");
    push_str(&mut p, field);
    p
}

/// Reports links to unknown cards and links with an empty relationship.
fn check_link_targets(cards: &Vec<Card>, report: &mut ValidationReport)
    ensures
        diag_views(final(report).diagnostics@) == diag_views(old(report).diagnostics@) + link_diags(cards@, cards@),
{
    let ghost start = diag_views(report.diagnostics@);
    let mut k: usize = 0;
    while k < cards.len()
        invariant
            k <= cards@.len(),
            diag_views(report.diagnostics@) == start + link_diags(cards@.take(k as int), cards@),
        decreases cards@.len() - k,
    {
        let card = &cards[k];
        let ghost head = diag_views(report.diagnostics@);
        let mut idx: usize = 0;
        while idx < card.links.len()
            invariant
                idx <= card.links@.len(),
                *card == cards@[k as int],
                diag_views(report.diagnostics@) == head + card_link_diags(*card, card.links@.take(idx as int), cards@),
            decreases card.links@.len() - idx,
        {
            let link = &card.links[idx];
            proof {
                assert(card.links@.take(idx + 1).drop_last() =~= card.links@.take(idx as int));
                assert(card.links@.take(idx + 1).last() == *link);
            }
            let ghost mid = report.diagnostics@;
            if !has_card_id(cards, &link.target) {
                let mut message = chars_of("Link uses relationship '");
                push_str(&mut message, link.relationship.as_str());
                push_str(&mut message, "' but target '");
                push_str(&mut message, link.target.as_str());
                push_str(&mut message, "' was not found");
                let path = link_path_chars(idx, "target");
                let d = diagnostic(DiagnosticSeverity::Error, "MISSING_LINK_TARGET", &message, Some(&card.id), Some(&path));
                report.diagnostics.push(d);
                proof {
                    assert(diag_views(report.diagnostics@) =~= diag_views(mid).push(d.spec_view()));
                }
            }
            let ghost mid2 = report.diagnostics@;
            let rel = chars_of(link.relationship.as_str());
            let trimmed = trim_chars(rel.as_slice());
            if trimmed.len() == 0 {
                let message = chars_of("Relationship name must not be empty");
                let path = link_path_chars(idx, "relationship");
                let d = diagnostic(DiagnosticSeverity::Error, "EMPTY_RELATIONSHIP", &message, Some(&card.id), Some(&path));
                report.diagnostics.push(d);
                proof {
                    assert(diag_views(report.diagnostics@) =~= diag_views(mid2).push(d.spec_view()));
                }
            }
            proof {
                assert(diag_views(report.diagnostics@) =~= head + card_link_diags(
                    *card,
                    card.links@.take(idx + 1),
                    cards@,
                ));
            }
            idx = idx + 1;
        }
        proof {
            assert(card.links@.take(card.links@.len() as int) =~= card.links@);
            assert(cards@.take(k + 1).drop_last() =~= cards@.take(k as int));
            assert(cards@.take(k + 1).last() == cards@[k as int]);
        }
        k = k + 1;
    }
    proof {
        assert(cards@.take(k as int) =~= cards@);
    }
}

/// Some link of a card (of an `Actor` card, when `by_actor`) with relationship `owns`
/// targets the id.
pub open spec fn owned(cards: Seq<Card>, id: Seq<char>, by_actor: bool) -> bool {
    exists|k: int, l: int|
        0 <= k < cards.len() && 0 <= l < cards[k].links@.len() && ci_match(
            (#[trigger] cards[k].links@[l]).relationship@,
            "owns"@,
        ) && cards[k].links@[l].target@ == id && (by_actor ==> ci_match(cards[k].card_type@, "Actor"@))
}

/// Secret ownership diagnostics of the first cards.
pub open spec fn secret_diags(prefix: Seq<Card>, all: Seq<Card>) -> Seq<DiagView>
    decreases prefix.len(),
{
    if prefix.len() == 0 {
        Seq::empty()
    } else {
        let c = prefix.last();
        let rest = secret_diags(prefix.drop_last(), all);
        if deleted(c) || !secret_asset(c) {
            rest
        } else if !owned(all, c.id@, false) {
            rest.push(
                (
                    DiagnosticSeverity::Error,
                    "SECRET_MISSING_OWNER"@,
                    "Secret assets must be owned via an incoming 'owns' relationship"@,
                    Some(c.id@),
                    None,
                ),
            )
        } else if !owned(all, c.id@, true) {
            rest.push(
                (
                    DiagnosticSeverity::Warning,
                    "SECRET_OWNED_BY_NON_ACTOR"@,
                    "Secret assets should be owned by an Actor card"@,
                    Some(c.id@),
                    None,
                ),
            )
        } else {
            rest
        }
    }
}

/// The targets of `owns` links (from `Actor` cards only, when `by_actor`).
fn collect_owned(cards: &Vec<Card>, by_actor: bool) -> (r: Vec<Vec<char>>)
    ensures
        forall|id: Seq<char>| id_set(r@).contains(id) <==> owned(cards@, id, by_actor),
{
    let mut out: Vec<Vec<char>> = Vec::new();
    let mut k: usize = 0;
    while k < cards.len()
        invariant
            k <= cards@.len(),
            forall|id: Seq<char>| id_set(out@).contains(id) <==> owned(cards@.take(k as int), id, by_actor),
        decreases cards@.len() - k,
    {
        let source = &cards[k];
        let is_actor = is_case_insensitive_match(source.card_type.as_str(), "Actor");
        let mut l: usize = 0;
        while l < source.links.len()
            invariant
                l <= source.links@.len(),
                *source == cards@[k as int],
                is_actor == ci_match(source.card_type@, "Actor"@),
                forall|id: Seq<char>| id_set(out@).contains(id) <==> (owned(cards@.take(k as int), id, by_actor) || exists|m: int|
                    0 <= m < l && ci_match((#[trigger] source.links@[m]).relationship@, "owns"@)
                        && source.links@[m].target@ == id && (by_actor ==> is_actor)),
            decreases source.links@.len() - l,
        {
            let link = &source.links[l];
            let ghost before = out@;
            if is_case_insensitive_match(link.relationship.as_str(), "owns") && (!by_actor || is_actor) {
                out.push(chars_of(link.target.as_str()));
                proof {
                    lemma_id_set_push(before, out@[before.len() as int]);
                }
            }
            proof {
                assert forall|id: Seq<char>| id_set(out@).contains(id) <==> (owned(cards@.take(k as int), id, by_actor)
                    || exists|m: int|
                    0 <= m < l + 1 && ci_match((#[trigger] source.links@[m]).relationship@, "owns"@)
                        && source.links@[m].target@ == id && (by_actor ==> is_actor)) by {
                    if exists|m: int|
                        0 <= m < l + 1 && ci_match((#[trigger] source.links@[m]).relationship@, "owns"@)
                            && source.links@[m].target@ == id && (by_actor ==> is_actor) {
                        let m = choose|m: int|
                            0 <= m < l + 1 && ci_match((#[trigger] source.links@[m]).relationship@, "owns"@)
                                && source.links@[m].target@ == id && (by_actor ==> is_actor);
                        if m == l {
                            assert(id_set(out@).contains(id)) by {
                                assert(out@[before.len() as int]@ == id);
                            }
                        }
                    }
                }
            }
            l = l + 1;
        }
        proof {
            let pre = cards@.take(k as int);
            let post = cards@.take(k + 1);
            assert(post[k as int] == cards@[k as int]);
            assert forall|id: Seq<char>| id_set(out@).contains(id) <==> owned(post, id, by_actor) by {
                if owned(post, id, by_actor) {
                    let (a, b) = choose|a: int, b: int|
                        0 <= a < post.len() && 0 <= b < post[a].links@.len() && ci_match(
                            (#[trigger] post[a].links@[b]).relationship@,
                            "owns"@,
                        ) && post[a].links@[b].target@ == id && (by_actor ==> ci_match(post[a].card_type@, "Actor"@));
                    if a < k {
                        assert(pre[a] == post[a]);
                        assert(owned(pre, id, by_actor));
                    } else {
                        assert(source.links@[b] == post[a].links@[b]);
                    }
                }
                if owned(pre, id, by_actor) {
                    let (a, b) = choose|a: int, b: int|
                        0 <= a < pre.len() && 0 <= b < pre[a].links@.len() && ci_match(
                            (#[trigger] pre[a].links@[b]).relationship@,
                            "owns"@,
                        ) && pre[a].links@[b].target@ == id && (by_actor ==> ci_match(pre[a].card_type@, "Actor"@));
                    assert(post[a] == pre[a]);
                    assert(post[a].links@[b] == pre[a].links@[b]);
                }
                if exists|m: int|
                    0 <= m < source.links@.len() && ci_match((#[trigger] source.links@[m]).relationship@, "owns"@)
                        && source.links@[m].target@ == id && (by_actor ==> is_actor) {
                    let m = choose|m: int|
                        0 <= m < source.links@.len() && ci_match((#[trigger] source.links@[m]).relationship@, "owns"@)
                            && source.links@[m].target@ == id && (by_actor ==> is_actor);
                    assert(post[k as int].links@[m] == source.links@[m]);
                }
            }
        }
        k = k + 1;
    }
    proof {
        assert(cards@.take(k as int) =~= cards@);
    }
    out
}

/// Reports secret assets without an owner (an error) or not owned by an actor (a warning).
fn check_secret_ownership(cards: &Vec<Card>, report: &mut ValidationReport)
    ensures
        diag_views(final(report).diagnostics@) == diag_views(old(report).diagnostics@) + secret_diags(cards@, cards@),
{
    let owned_by_any = collect_owned(cards, false);
    let owned_by_actor = collect_owned(cards, true);
    let ghost start = diag_views(report.diagnostics@);
    let mut k: usize = 0;
    while k < cards.len()
        invariant
            k <= cards@.len(),
            forall|id: Seq<char>| id_set(owned_by_any@).contains(id) <==> owned(cards@, id, false),
            forall|id: Seq<char>| id_set(owned_by_actor@).contains(id) <==> owned(cards@, id, true),
            diag_views(report.diagnostics@) == start + secret_diags(cards@.take(k as int), cards@),
        decreases cards@.len() - k,
    {
        let card = &cards[k];
        proof {
            assert(cards@.take(k + 1).drop_last() =~= cards@.take(k as int));
            assert(cards@.take(k + 1).last() == cards@[k as int]);
        }
        let ghost before = report.diagnostics@;
        if !is_deleted(card) && is_secret_asset(card) {
            let id = chars_of(card.id.as_str());
            if !list_has(&owned_by_any, id.as_slice()) {
                let message = chars_of("Secret assets must be owned via an incoming 'owns' relationship");
                let d = diagnostic(DiagnosticSeverity::Error, "SECRET_MISSING_OWNER", &message, Some(&card.id), None);
                report.diagnostics.push(d);
                proof {
                    assert(diag_views(report.diagnostics@) =~= diag_views(before).push(d.spec_view()));
                }
            } else if !list_has(&owned_by_actor, id.as_slice()) {
                let message = chars_of("Secret assets should be owned by an Actor card");
                let d = diagnostic(DiagnosticSeverity::Warning, "SECRET_OWNED_BY_NON_ACTOR", &message, Some(&card.id), None);
                report.diagnostics.push(d);
                proof {
                    assert(diag_views(report.diagnostics@) =~= diag_views(before).push(d.spec_view()));
                }
            }
        }
        k = k + 1;
    }
    proof {
        assert(cards@.take(k as int) =~= cards@);
    }
}

/// The card that `id` resolves to (the first with that id) links to `b`.
pub open spec fn links_to(cards: Seq<Card>, a: Seq<char>, b: Seq<char>) -> bool {
    match first_with_id(cards, a) {
        Some(c) => exists|l: int| 0 <= l < c.links@.len() && (#[trigger] c.links@[l]).target@ == b,
        None => false,
    }
}

/// `path` starts at `root` and follows links.
pub open spec fn is_walk(cards: Seq<Card>, root: Seq<char>, path: Seq<Seq<char>>) -> bool {
    &&& path.len() > 0
    &&& path[0] == root
    &&& forall|i: int| 0 <= i < path.len() - 1 ==> links_to(cards, #[trigger] path[i], path[i + 1])
}

/// Some walk from `root` ends at `id`.
pub open spec fn reachable(cards: Seq<Card>, root: Seq<char>, id: Seq<char>) -> bool {
    exists|path: Seq<Seq<char>>| is_walk(cards, root, path) && path.last() == id
}

/// `UNREACHABLE_CARD` errors of the first cards.
pub open spec fn unreachable_diags(prefix: Seq<Card>, all: Seq<Card>, root: Seq<char>) -> Seq<DiagView>
    decreases prefix.len(),
{
    if prefix.len() == 0 {
        Seq::empty()
    } else {
        let c = prefix.last();
        let rest = unreachable_diags(prefix.drop_last(), all, root);
        if !reachable(all, root, c.id@) {
            rest.push(
                (
                    DiagnosticSeverity::Error,
                    "UNREACHABLE_CARD"@,
                    "Card "@ + c.id@ + " ("@ + c.card_type@ + ") is not reachable from the mission root"@,
                    Some(c.id@),
                    None,
                ),
            )
        } else {
            rest
        }
    }
}

/// No card before `k` has the id of card `k`, so it is the one its id resolves to.
proof fn lemma_first_occurrence(cards: Seq<Card>, k: int)
    requires
        0 <= k < cards.len(),
        forall|m: int| 0 <= m < k ==> (#[trigger] cards[m]).id@ != cards[k].id@,
    ensures
        first_with_id(cards, cards[k].id@) == Some(cards[k]),
    decreases cards.len(),
{
    if k == cards.len() - 1 {
        if first_with_id(cards.drop_last(), cards[k].id@) is Some {
            lemma_first_with_id_member(cards.drop_last(), cards[k].id@);
            let t = choose|t: int| 0 <= t < cards.drop_last().len() && cards.drop_last()[t].id@ == cards[k].id@;
            assert(cards[t] == cards.drop_last()[t]);
        }
    } else {
        assert forall|m: int| 0 <= m < k implies (#[trigger] cards.drop_last()[m]).id@ != cards.drop_last()[k].id@ by {
            assert(cards.drop_last()[m] == cards[m]);
        }
        lemma_first_occurrence(cards.drop_last(), k);
        assert(cards.drop_last()[k] == cards[k]);
    }
}

/// The card an id resolves to is a first occurrence of that id.
proof fn lemma_first_with_id_index(cards: Seq<Card>, id: Seq<char>)
    requires
        first_with_id(cards, id) is Some,
    ensures
        exists|k: int|
            0 <= k < cards.len() && cards[k] == first_with_id(cards, id)->0 && cards[k].id@ == id && forall|m: int|
                0 <= m < k ==> (#[trigger] cards[m]).id@ != id,
    decreases cards.len(),
{
    let init = cards.drop_last();
    if first_with_id(init, id) is Some {
        lemma_first_with_id_index(init, id);
        let k = choose|k: int|
            0 <= k < init.len() && init[k] == first_with_id(init, id)->0 && init[k].id@ == id && forall|m: int|
                0 <= m < k ==> (#[trigger] init[m]).id@ != id;
        assert(cards[k] == init[k]);
        assert forall|m: int| 0 <= m < k implies (#[trigger] cards[m]).id@ != id by {
            assert(cards[m] == init[m]);
        }
    } else {
        let k = cards.len() - 1;
        assert forall|m: int| 0 <= m < k implies (#[trigger] cards[m]).id@ != id by {
            assert(cards[m] == init[m]);
            if cards[m].id@ == id {
                assert(init[m].id@ == id);
                lemma_first_with_id_some(init, m);
            }
        }
    }
}

/// A card of the list has its id, so the first one with that id exists.
proof fn lemma_first_with_id_some(cards: Seq<Card>, k: int)
    requires
        0 <= k < cards.len(),
    ensures
        first_with_id(cards, cards[k].id@) is Some,
    decreases cards.len(),
{
    if k < cards.len() - 1 {
        lemma_first_with_id_some(cards.drop_last(), k);
        assert(cards.drop_last()[k] == cards[k]);
    }
}

/// No id count without a card of that id.
proof fn lemma_id_count_zero(cards: Seq<Card>, id: Seq<char>)
    ensures
        id_count(cards, id) == 0 <==> forall|m: int| 0 <= m < cards.len() ==> (#[trigger] cards[m]).id@ != id,
    decreases cards.len(),
{
    if cards.len() > 0 {
        lemma_id_count_zero(cards.drop_last(), id);
        assert forall|m: int| 0 <= m < cards.len() - 1 implies cards.drop_last()[m] == cards[m] by {}
        if id_count(cards, id) == 0 {
            assert forall|m: int| 0 <= m < cards.len() implies (#[trigger] cards[m]).id@ != id by {
                if m < cards.len() - 1 {
                    assert(cards.drop_last()[m] == cards[m]);
                }
            }
        }
    }
}

/// Every node of a walk lies in a set that holds the root and is closed under links.
proof fn lemma_walk_in_closed(cards: Seq<Card>, root: Seq<char>, s: Set<Seq<char>>, path: Seq<Seq<char>>)
    requires
        s.contains(root),
        forall|a: Seq<char>, b: Seq<char>| s.contains(a) && #[trigger] links_to(cards, a, b) ==> s.contains(b),
        is_walk(cards, root, path),
    ensures
        s.contains(path.last()),
    decreases path.len(),
{
    if path.len() > 1 {
        let init = path.drop_last();
        assert forall|i: int| 0 <= i < init.len() - 1 implies links_to(cards, #[trigger] init[i], init[i + 1]) by {
            assert(links_to(cards, path[i], path[i + 1]));
        }
        lemma_walk_in_closed(cards, root, s, init);
        assert(links_to(cards, path[path.len() - 2], path[path.len() - 1]));
    }
}

/// Number of `false` entries.
pub open spec fn count_false(s: Seq<bool>) -> nat
    decreases s.len(),
{
    if s.len() == 0 {
        0
    } else {
        count_false(s.drop_last()) + if s.last() {
            0nat
        } else {
            1nat
        }
    }
}

proof fn lemma_count_false_set(s: Seq<bool>, k: int)
    requires
        0 <= k < s.len(),
        !s[k],
    ensures
        count_false(s.update(k, true)) + 1 == count_false(s),
    decreases s.len(),
{
    if k < s.len() - 1 {
        assert(s.update(k, true).drop_last() =~= s.drop_last().update(k, true));
        lemma_count_false_set(s.drop_last(), k);
    } else {
        assert(s.update(k, true).drop_last() =~= s.drop_last());
    }
}

/// The ids reachable from `root` by following links.
fn reachable_ids(cards: &Vec<Card>, root: &String) -> (r: Vec<Vec<char>>)
    ensures
        forall|id: Seq<char>| id_set(r@).contains(id) <==> reachable(cards@, root@, id),
{
    let n = cards.len();
    let mut expanded: Vec<bool> = Vec::new();
    let mut i: usize = 0;
    while i < n
        invariant
            i <= n,
            expanded@.len() == i,
            forall|m: int| 0 <= m < i ==> !(#[trigger] expanded@[m]),
        decreases n - i,
    {
        expanded.push(false);
        i = i + 1;
    }
    let mut visited: Vec<Vec<char>> = Vec::new();
    visited.push(chars_of(root.as_str()));
    proof {
        let p = seq![root@];
        assert(is_walk(cards@, root@, p));
        assert(visited@[0]@ == root@);
        assert forall|id: Seq<char>| #[trigger] id_set(visited@).contains(id) implies reachable(cards@, root@, id) by {
            assert(id == root@);
            assert(p.last() == root@);
        }
    }
    let mut done = false;
    while !done
        invariant
            n == cards@.len(),
            expanded@.len() == n,
            id_set(visited@).contains(root@),
            forall|id: Seq<char>| #[trigger] id_set(visited@).contains(id) ==> reachable(cards@, root@, id),
            forall|k: int|
                0 <= k < n && #[trigger] expanded@[k] ==> forall|l: int|
                    0 <= l < cards@[k].links@.len() ==> id_set(visited@).contains(
                        (#[trigger] cards@[k].links@[l]).target@,
                    ),
            done ==> forall|k: int|
                0 <= k < n && (forall|m: int| 0 <= m < k ==> (#[trigger] cards@[m]).id@ != cards@[k].id@)
                    && id_set(visited@).contains(cards@[k].id@) ==> #[trigger] expanded@[k],
        decreases count_false(expanded@) + if done {
            0nat
        } else {
            1nat
        },
    {
        let ghost pass_start = count_false(expanded@);
        let mut changed = false;
        let mut k: usize = 0;
        while k < n
            invariant
                n == cards@.len(),
                k <= n,
                expanded@.len() == n,
                id_set(visited@).contains(root@),
                forall|id: Seq<char>| #[trigger] id_set(visited@).contains(id) ==> reachable(cards@, root@, id),
                forall|j: int|
                    0 <= j < n && #[trigger] expanded@[j] ==> forall|l: int|
                        0 <= l < cards@[j].links@.len() ==> id_set(visited@).contains(
                            (#[trigger] cards@[j].links@[l]).target@,
                        ),
                !changed ==> forall|j: int|
                    0 <= j < k && (forall|m: int| 0 <= m < j ==> (#[trigger] cards@[m]).id@ != cards@[j].id@)
                        && id_set(visited@).contains(cards@[j].id@) ==> #[trigger] expanded@[j],
                !changed ==> count_false(expanded@) == pass_start,
                changed ==> count_false(expanded@) < pass_start,
            decreases n - k,
        {
            let card = &cards[k];
            let first = count_id(cards, &card.id, k) == 0;
            proof {
                lemma_id_count_zero(cards@.take(k as int), card.id@);
                assert forall|m: int| 0 <= m < k implies cards@.take(k as int)[m] == cards@[m] by {}
            }
            let id = chars_of(card.id.as_str());
            if !expanded[k] && first && list_has(&visited, id.as_slice()) {
                proof {
                    lemma_count_false_set(expanded@, k as int);
                    lemma_first_occurrence(cards@, k as int);
                }
                expanded.set(k, true);
                changed = true;
                let ghost walked = visited@;
                let mut l: usize = 0;
                while l < card.links.len()
                    invariant
                        *card == cards@[k as int],
                        n == cards@.len(),
                        first_with_id(cards@, card.id@) == Some(*card),
                        reachable(cards@, root@, card.id@),
                        l <= card.links@.len(),
                        forall|x: Seq<char>| id_set(walked).contains(x) ==> #[trigger] id_set(visited@).contains(x),
                        forall|id: Seq<char>| #[trigger] id_set(visited@).contains(id) ==> reachable(cards@, root@, id),
                        forall|m: int| 0 <= m < l ==> id_set(visited@).contains((#[trigger] card.links@[m]).target@),
                    decreases card.links@.len() - l,
                {
                    let target = chars_of(card.links[l].target.as_str());
                    let present = list_has(&visited, target.as_slice());
                    if !present {
                        let ghost before = visited@;
                        visited.push(target);
                        proof {
                            lemma_id_set_push(before, visited@[before.len() as int]);
                            let path = choose|path: Seq<Seq<char>>| is_walk(cards@, root@, path) && path.last() == card.id@;
                            let longer = path.push(target@);
                            assert(links_to(cards@, card.id@, target@)) by {
                                assert(card.links@[l as int].target@ == target@);
                            }
                            assert forall|i: int| 0 <= i < longer.len() - 1 implies links_to(cards@, #[trigger] longer[i], longer[i + 1]) by {
                                if i < path.len() - 1 {
                                    assert(links_to(cards@, path[i], path[i + 1]));
                                }
                            }
                            assert(is_walk(cards@, root@, longer));
                            assert(longer.last() == target@);
                            assert(reachable(cards@, root@, target@));
                            assert(visited@[before.len() as int]@ == target@);
                            assert forall|id: Seq<char>| #[trigger] id_set(visited@).contains(id) implies reachable(
                                cards@,
                                root@,
                                id,
                            ) by {
                                if id != target@ {
                                    assert(id_set(before).contains(id));
                                }
                            }
                        }
                    }
                    proof {
                        assert(id_set(visited@).contains(card.links@[l as int].target@));
                    }
                    l = l + 1;
                }
            }
            k = k + 1;
        }
        if !changed {
            done = true;
        }
    }
    proof {
        let s = id_set(visited@);
        assert forall|a: Seq<char>, b: Seq<char>| s.contains(a) && #[trigger] links_to(cards@, a, b) implies s.contains(b) by {
            lemma_first_with_id_index(cards@, a);
            let k = choose|k: int|
                0 <= k < cards@.len() && cards@[k] == first_with_id(cards@, a)->0 && cards@[k].id@ == a && forall|m: int|
                    0 <= m < k ==> (#[trigger] cards@[m]).id@ != a;
            assert(expanded@[k]);
            let c = first_with_id(cards@, a)->0;
            let l = choose|l: int| 0 <= l < c.links@.len() && (#[trigger] c.links@[l]).target@ == b;
            assert(cards@[k].links@[l] == c.links@[l]);
        }
        assert forall|id: Seq<char>| reachable(cards@, root@, id) implies #[trigger] s.contains(id) by {
            let path = choose|path: Seq<Seq<char>>| is_walk(cards@, root@, path) && path.last() == id;
            lemma_walk_in_closed(cards@, root@, s, path);
        }
    }
    visited
}

/// Reports every card that the root mission does not reach.
fn check_reachability(cards: &Vec<Card>, root_id: &String, report: &mut ValidationReport)
    ensures
        diag_views(final(report).diagnostics@) == diag_views(old(report).diagnostics@) + unreachable_diags(
            cards@,
            cards@,
            root_id@,
        ),
{
    let visited = reachable_ids(cards, root_id);
    let ghost start = diag_views(report.diagnostics@);
    let mut k: usize = 0;
    while k < cards.len()
        invariant
            k <= cards@.len(),
            forall|id: Seq<char>| id_set(visited@).contains(id) <==> reachable(cards@, root_id@, id),
            diag_views(report.diagnostics@) == start + unreachable_diags(cards@.take(k as int), cards@, root_id@),
        decreases cards@.len() - k,
    {
        let card = &cards[k];
        proof {
            assert(cards@.take(k + 1).drop_last() =~= cards@.take(k as int));
            assert(cards@.take(k + 1).last() == cards@[k as int]);
        }
        let id = chars_of(card.id.as_str());
        if !list_has(&visited, id.as_slice()) {
            let mut message = chars_of("Card ");
            push_str(&mut message, card.id.as_str());
            push_str(&mut message, " (");
            push_str(&mut message, card.card_type.as_str());
            push_str(&mut message, ") is not reachable from the mission root");
            let d = diagnostic(DiagnosticSeverity::Error, "UNREACHABLE_CARD", &message, Some(&card.id), None);
            let ghost before = report.diagnostics@;
            report.diagnostics.push(d);
            proof {
                assert(diag_views(report.diagnostics@) =~= diag_views(before).push(d.spec_view()));
            }
        }
        k = k + 1;
    }
    proof {
        assert(cards@.take(k as int) =~= cards@);
    }
}

/// The registry keys of the defined card types.
pub open spec fn matrix_types(reg: Registry) -> Set<Seq<char>> {
    Set::new(
        |k: Seq<char>|
            k.len() > 0 && exists|i: int| 0 <= i < reg.cards@.len() && card_type_key((#[trigger] reg.cards@[i]).card_type@) == k,
    )
}

/// Collects the registry keys of the defined card types.
fn load_card_types_from_registry(registry: &Registry) -> (r: Vec<Vec<char>>)
    ensures
        id_set(r@) == matrix_types(*registry),
{
    let mut out: Vec<Vec<char>> = Vec::new();
    let mut i: usize = 0;
    while i < registry.cards.len()
        invariant
            i <= registry.cards@.len(),
            forall|k: Seq<char>| id_set(out@).contains(k) <==> (k.len() > 0 && exists|j: int|
                0 <= j < i && card_type_key((#[trigger] registry.cards@[j]).card_type@) == k),
        decreases registry.cards@.len() - i,
    {
        let key = canonical_card_type(registry.cards[i].card_type.as_str());
        let ghost before = out@;
        if key.len() > 0 {
            out.push(key);
            proof {
                lemma_id_set_push(before, out@[before.len() as int]);
            }
        }
        proof {
            assert forall|k: Seq<char>| id_set(out@).contains(k) <==> (k.len() > 0 && exists|j: int|
                0 <= j < i + 1 && card_type_key((#[trigger] registry.cards@[j]).card_type@) == k) by {
                if k.len() > 0 && card_type_key(registry.cards@[i as int].card_type@) == k {
                    assert(id_set(out@).contains(k));
                }
            }
        }
        i = i + 1;
    }
    proof {
        assert(id_set(out@) =~= matrix_types(*registry));
    }
    out
}

/// An entry that names a card type directly (not empty, not `*`, not `!…`).
pub open spec fn plain_entry(e: Seq<char>) -> bool {
    let t = trim(e);
    t.len() > 0 && t != "*"@ && t[0] != '!'
}

/// An entry `!T` that excludes the card type `T`.
pub open spec fn exclusion_entry(e: Seq<char>) -> bool {
    let t = trim(e);
    t.len() > 0 && t != "*"@ && t[0] == '!'
}

/// The card types named by plain entries.
pub open spec fn included_types(entries: Seq<String>) -> Set<Seq<char>> {
    Set::new(
        |k: Seq<char>|
            k.len() > 0 && exists|i: int|
                0 <= i < entries.len() && plain_entry((#[trigger] entries[i])@) && card_type_key(trim(entries[i]@)) == k,
    )
}

/// The card types named by exclusion entries.
pub open spec fn excluded_types(entries: Seq<String>) -> Set<Seq<char>> {
    Set::new(
        |k: Seq<char>|
            k.len() > 0 && exists|i: int|
                0 <= i < entries.len() && exclusion_entry((#[trigger] entries[i])@) && card_type_key(
                    trim(entries[i]@).drop_first(),
                ) == k,
    )
}

/// The card types a list of entries allows: all types with `*` (or when it only excludes),
/// else the named ones; minus the excluded ones.
pub open spec fn expanded_types(entries: Seq<String>, all: Set<Seq<char>>) -> Set<Seq<char>> {
    let star = exists|i: int| 0 <= i < entries.len() && trim((#[trigger] entries[i])@) == "*"@;
    let base = if star || (!excluded_types(entries).is_empty() && included_types(entries).is_empty()) {
        all
    } else {
        included_types(entries)
    };
    base.difference(excluded_types(entries))
}

/// The card types that a list of entries allows; see [`expanded_types`].
fn expand_card_type_set(entries: &Vec<String>, all_card_types: &Vec<Vec<char>>) -> (r: Vec<Vec<char>>)
    ensures
        id_set(r@) == expanded_types(entries@, id_set(all_card_types@)),
{
    let mut types: Vec<Vec<char>> = Vec::new();
    let mut exclude: Vec<Vec<char>> = Vec::new();
    let mut include_all = false;
    let star_text = chars_of("*");
    proof {
        reveal_strlit("*");
    }
    let mut i: usize = 0;
    while i < entries.len()
        invariant
            i <= entries@.len(),
            star_text@ == "*"@,
            star_text@.len() == 1,
            include_all == exists|j: int| 0 <= j < i && trim((#[trigger] entries@[j])@) == "*"@,
            forall|k: Seq<char>| id_set(types@).contains(k) <==> (k.len() > 0 && exists|j: int|
                0 <= j < i && plain_entry((#[trigger] entries@[j])@) && card_type_key(trim(entries@[j]@)) == k),
            forall|k: Seq<char>| id_set(exclude@).contains(k) <==> (k.len() > 0 && exists|j: int|
                0 <= j < i && exclusion_entry((#[trigger] entries@[j])@) && card_type_key(trim(entries@[j]@).drop_first()) == k),
        decreases entries@.len() - i,
    {
        let raw = chars_of(entries[i].as_str());
        let trimmed = trim_chars(raw.as_slice());
        let ghost before_types = types@;
        let ghost before_exclude = exclude@;
        if trimmed.len() == 0 {
        } else if chars_eq(trimmed.as_slice(), star_text.as_slice()) {
            include_all = true;
        } else if trimmed[0] == '!' {
            let rest = sub_chars(trimmed.as_slice(), 1, trimmed.len());
            let rest_text = string_from_chars(rest.as_slice());
            let key = canonical_card_type(rest_text.as_str());
            proof {
                assert(rest@ =~= trimmed@.drop_first());
            }
            if key.len() > 0 {
                exclude.push(key);
                proof {
                    lemma_id_set_push(before_exclude, exclude@[before_exclude.len() as int]);
                }
            }
        } else {
            let trimmed_text = string_from_chars(trimmed.as_slice());
            let key = canonical_card_type(trimmed_text.as_str());
            if key.len() > 0 {
                types.push(key);
                proof {
                    lemma_id_set_push(before_types, types@[before_types.len() as int]);
                }
            }
        }
        proof {
            let e = entries@[i as int]@;
            assert(include_all == exists|j: int| 0 <= j < i + 1 && trim((#[trigger] entries@[j])@) == "*"@) by {
                if trim(e) == "*"@ {
                    assert(trim(entries@[i as int]@) == "*"@);
                } else if exists|j: int| 0 <= j < i + 1 && trim((#[trigger] entries@[j])@) == "*"@ {
                    let j = choose|j: int| 0 <= j < i + 1 && trim((#[trigger] entries@[j])@) == "*"@;
                    assert(j != i);
                }
            }
            assert forall|k: Seq<char>| id_set(types@).contains(k) <==> (k.len() > 0 && exists|j: int|
                0 <= j < i + 1 && plain_entry((#[trigger] entries@[j])@) && card_type_key(trim(entries@[j]@)) == k) by {
                if k.len() > 0 && plain_entry(e) && card_type_key(trim(e)) == k {
                    assert(id_set(types@).contains(k));
                }
            }
            assert forall|k: Seq<char>| id_set(exclude@).contains(k) <==> (k.len() > 0 && exists|j: int|
                0 <= j < i + 1 && exclusion_entry((#[trigger] entries@[j])@) && card_type_key(
                    trim(entries@[j]@).drop_first(),
                ) == k) by {
                if k.len() > 0 && exclusion_entry(e) && card_type_key(trim(e).drop_first()) == k {
                    assert(id_set(exclude@).contains(k));
                }
            }
        }
        i = i + 1;
    }
    proof {
        assert(id_set(types@) =~= included_types(entries@));
        assert(id_set(exclude@) =~= excluded_types(entries@));
    }
    let everything = include_all || (exclude.len() > 0 && types.len() == 0);
    proof {
        if exclude.len() > 0 {
            assert(id_set(exclude@).contains(exclude@[0]@));
        }
        if types.len() > 0 {
            assert(id_set(types@).contains(types@[0]@));
        }
        assert(exclude.len() > 0 <==> !excluded_types(entries@).is_empty()) by {
            if !excluded_types(entries@).is_empty() {
                let x = excluded_types(entries@).choose();
                assert(id_set(exclude@).contains(x));
            }
        }
        assert(types.len() == 0 <==> included_types(entries@).is_empty()) by {
            if !included_types(entries@).is_empty() {
                let x = included_types(entries@).choose();
                assert(id_set(types@).contains(x));
            }
        }
    }
    let base: &Vec<Vec<char>> = if everything { all_card_types } else { &types };
    let mut out: Vec<Vec<char>> = Vec::new();
    let mut k: usize = 0;
    while k < base.len()
        invariant
            k <= base@.len(),
            forall|x: Seq<char>| id_set(out@).contains(x) <==> (exists|j: int| 0 <= j < k && (#[trigger] base@[j])@ == x)
                && !id_set(exclude@).contains(x),
        decreases base@.len() - k,
    {
        let ghost before = out@;
        if !list_has(&exclude, base[k].as_slice()) {
            out.push(copy_chars(base[k].as_slice()));
            proof {
                lemma_id_set_push(before, out@[before.len() as int]);
            }
        }
        proof {
            assert forall|x: Seq<char>| id_set(out@).contains(x) <==> (exists|j: int| 0 <= j < k + 1 && (#[trigger] base@[j])@ == x)
                && !id_set(exclude@).contains(x) by {
                if base@[k as int]@ == x && !id_set(exclude@).contains(x) {
                    assert(id_set(out@).contains(x));
                }
            }
        }
        k = k + 1;
    }
    proof {
        assert(id_set(out@) =~= expanded_types(entries@, id_set(all_card_types@)));
    }
    out
}

/// A relationship definition with its card type sets expanded.
#[derive(Debug)]
pub struct RelationshipRule {
    pub verb: Vec<char>,
    pub sources: Vec<Vec<char>>,
    pub targets: Vec<Vec<char>>,
}

/// Some definition has the relationship key `v` (not empty).
pub open spec fn verb_defined(reg: Registry, v: Seq<char>) -> bool {
    v.len() > 0 && exists|i: int|
        0 <= i < reg.relationships@.len() && relationship_key((#[trigger] reg.relationships@[i]).relationship@) == v
}

/// The key a relationship is looked up under: `transistions to` falls back to
/// `transitions to` when only the latter is defined.
pub open spec fn effective_verb(reg: Registry, v: Seq<char>) -> Seq<char> {
    if verb_defined(reg, v) {
        v
    } else if v == "transistions to"@ && verb_defined(reg, "transitions to"@) {
        "transitions to"@
    } else {
        v
    }
}

/// The source (or, when `!source`, target) card types that relationship `v` allows: the
/// union over its definitions.
pub open spec fn rule_types(reg: Registry, v: Seq<char>, source: bool) -> Set<Seq<char>> {
    Set::new(
        |t: Seq<char>|
            exists|i: int|
                0 <= i < reg.relationships@.len() && relationship_key((#[trigger] reg.relationships@[i]).relationship@)
                    == effective_verb(reg, v) && expanded_types(
                    if source {
                        reg.relationships@[i].source_card_types@
                    } else {
                        reg.relationships@[i].target_card_types@
                    },
                    matrix_types(reg),
                ).contains(t),
    )
}

/// The rules of the registry, one per relationship definition and in the same order.
fn load_relationships_from_registry(registry: &Registry, card_types: &Vec<Vec<char>>) -> (r: Vec<RelationshipRule>)
    requires
        id_set(card_types@) == matrix_types(*registry),
    ensures
        r@.len() == registry.relationships@.len(),
        forall|i: int|
            0 <= i < r@.len() ==> (#[trigger] r@[i]).verb@ == relationship_key(registry.relationships@[i].relationship@)
                && id_set(r@[i].sources@) == expanded_types(registry.relationships@[i].source_card_types@, matrix_types(*registry))
                && id_set(r@[i].targets@) == expanded_types(registry.relationships@[i].target_card_types@, matrix_types(*registry)),
{
    let mut out: Vec<RelationshipRule> = Vec::new();
    let mut i: usize = 0;
    while i < registry.relationships.len()
        invariant
            i <= registry.relationships@.len(),
            id_set(card_types@) == matrix_types(*registry),
            out@.len() == i,
            forall|j: int|
                0 <= j < i ==> (#[trigger] out@[j]).verb@ == relationship_key(registry.relationships@[j].relationship@)
                    && id_set(out@[j].sources@) == expanded_types(registry.relationships@[j].source_card_types@, matrix_types(*registry))
                    && id_set(out@[j].targets@) == expanded_types(registry.relationships@[j].target_card_types@, matrix_types(*registry)),
        decreases registry.relationships@.len() - i,
    {
        let definition = &registry.relationships[i];
        let verb = normalize_relationship(definition.relationship.as_str());
        let sources = expand_card_type_set(&definition.source_card_types, card_types);
        let targets = expand_card_type_set(&definition.target_card_types, card_types);
        out.push(RelationshipRule { verb, sources, targets });
        i = i + 1;
    }
    out
}

/// Whether some rule has the verb (and it is not empty).
fn verb_present(rules: &Vec<RelationshipRule>, verb: &Vec<char>) -> (r: bool)
    ensures
        r == (verb@.len() > 0 && exists|i: int| 0 <= i < rules@.len() && (#[trigger] rules@[i]).verb@ == verb@),
{
    if verb.len() == 0 {
        return false;
    }
    let mut i: usize = 0;
    while i < rules.len()
        invariant
            i <= rules@.len(),
            verb@.len() > 0,
            forall|j: int| 0 <= j < i ==> (#[trigger] rules@[j]).verb@ != verb@,
        decreases rules@.len() - i,
    {
        if chars_eq(rules[i].verb.as_slice(), verb.as_slice()) {
            proof {
                assert(rules@[i as int].verb@ == verb@);
            }
            return true;
        }
        i = i + 1;
    }
    false
}

/// Whether some rule with the verb lists the card type among its sources (or targets).
fn rule_allows(rules: &Vec<RelationshipRule>, verb: &Vec<char>, card_type: &Vec<char>, source: bool) -> (r: bool)
    ensures
        r == exists|i: int|
            0 <= i < rules@.len() && (#[trigger] rules@[i]).verb@ == verb@ && id_set(
                if source {
                    rules@[i].sources@
                } else {
                    rules@[i].targets@
                },
            ).contains(card_type@),
{
    let mut i: usize = 0;
    while i < rules.len()
        invariant
            i <= rules@.len(),
            forall|j: int|
                0 <= j < i ==> !((#[trigger] rules@[j]).verb@ == verb@ && id_set(
                    if source {
                        rules@[j].sources@
                    } else {
                        rules@[j].targets@
                    },
                ).contains(card_type@)),
        decreases rules@.len() - i,
    {
        if chars_eq(rules[i].verb.as_slice(), verb.as_slice()) {
            let listed = if source {
                list_has(&rules[i].sources, card_type.as_slice())
            } else {
                list_has(&rules[i].targets, card_type.as_slice())
            };
            if listed {
                return true;
            }
        }
        i = i + 1;
    }
    false
}

/// `UNKNOWN_CARD_TYPE` warnings of the first cards.
pub open spec fn type_diags(prefix: Seq<Card>, reg: Registry) -> Seq<DiagView>
    decreases prefix.len(),
{
    if prefix.len() == 0 {
        Seq::empty()
    } else {
        let c = prefix.last();
        let rest = type_diags(prefix.drop_last(), reg);
        if !matrix_types(reg).contains(card_type_key(c.card_type@)) {
            rest.push(
                (
                    DiagnosticSeverity::Warning,
                    "UNKNOWN_CARD_TYPE"@,
                    "Card type '"@ + c.card_type@ + "' is not listed in the registry definitions"@,
                    Some(c.id@),
                    Some("card_type"@),
                ),
            )
        } else {
            rest
        }
    }
}

/// Relationship matrix warnings for the first links of a card.
pub open spec fn card_relation_diags(card: Card, links: Seq<Link>, all: Seq<Card>, reg: Registry) -> Seq<DiagView>
    decreases links.len(),
{
    if links.len() == 0 {
        Seq::empty()
    } else {
        let idx = (links.len() - 1) as nat;
        let link = links.last();
        let rest = card_relation_diags(card, links.drop_last(), all, reg);
        let rel = relationship_key(link.relationship@);
        let types = matrix_types(reg);
        if rel.len() == 0 {
            rest
        } else if !verb_defined(reg, effective_verb(reg, rel)) {
            rest.push(
                (
                    DiagnosticSeverity::Warning,
                    "UNKNOWN_RELATIONSHIP"@,
                    "Relationship '"@ + link.relationship@ + "' is not defined in the embedded relationship registry"@,
                    Some(card.id@),
                    Some(link_path(idx, "relationship"@)),
                ),
            )
        } else {
            let source = card_type_key(card.card_type@);
            let source_part = if types.contains(source) && !rule_types(reg, rel, true).contains(source) {
                seq![
                    (
                        DiagnosticSeverity::Warning,
                        "RELATIONSHIP_SOURCE_NOT_ALLOWED"@,
                        "Relationship '"@ + link.relationship@ + "' does not allow source card type '"@ + card.card_type@
                            + "'"@,
                        Some(card.id@),
                        Some(link_path(idx, "relationship"@)),
                    ),
                ]
            } else {
                Seq::empty()
            };
            let target_part = match first_with_id(all, link.target@) {
                Some(tc) => {
                    let target = card_type_key(tc.card_type@);
                    if types.contains(target) && !rule_types(reg, rel, false).contains(target) {
                        seq![
                            (
                                DiagnosticSeverity::Warning,
                                "RELATIONSHIP_TARGET_NOT_ALLOWED"@,
                                "Relationship '"@ + link.relationship@ + "' does not allow target card type '"@
                                    + tc.card_type@ + "'"@,
                                Some(card.id@),
                                Some(link_path(idx, "target"@)),
                            ),
                        ]
                    } else {
                        Seq::empty()
                    }
                },
                None => Seq::empty(),
            };
            rest + source_part + target_part
        }
    }
}

/// Relationship matrix warnings for the links of the first cards.
pub open spec fn relation_diags(prefix: Seq<Card>, all: Seq<Card>, reg: Registry) -> Seq<DiagView>
    decreases prefix.len(),
{
    if prefix.len() == 0 {
        Seq::empty()
    } else {
        relation_diags(prefix.drop_last(), all, reg) + card_relation_diags(prefix.last(), prefix.last().links@, all, reg)
    }
}

/// All relationship matrix diagnostics.
pub open spec fn matrix_diags(cards: Seq<Card>, reg: Registry) -> Seq<DiagView> {
    if matrix_types(reg).is_empty() {
        seq![
            (
                DiagnosticSeverity::Warning,
                "RELATIONSHIP_MATRIX_UNAVAILABLE"@,
                "No card types were loaded from the registry"@,
                None,
                None,
            ),
        ]
    } else {
        type_diags(cards, reg) + relation_diags(cards, cards, reg)
    }
}

/// Index of the card an id resolves to (the first with that id).
fn find_card(cards: &Vec<Card>, id: &String) -> (r: Option<usize>)
    ensures
        match r {
            Some(k) => k < cards@.len() && first_with_id(cards@, id@) == Some(cards@[k as int]),
            None => first_with_id(cards@, id@) is None,
        },
{
    let mut k: usize = 0;
    while k < cards.len()
        invariant
            k <= cards@.len(),
            forall|m: int| 0 <= m < k ==> (#[trigger] cards@[m]).id@ != id@,
        decreases cards@.len() - k,
    {
        if str_eq(cards[k].id.as_str(), id.as_str()) {
            proof {
                lemma_first_occurrence(cards@, k as int);
            }
            return Some(k);
        }
        k = k + 1;
    }
    proof {
        if first_with_id(cards@, id@) is Some {
            lemma_first_with_id_member(cards@, id@);
        }
    }
    None
}

/// Checks card types and links against the relationship matrix of the registry.
fn check_matrix_compliance(cards: &Vec<Card>, registry: &Registry, report: &mut ValidationReport)
    ensures
        diag_views(final(report).diagnostics@) == diag_views(old(report).diagnostics@) + matrix_diags(cards@, *registry),
{
    let types = load_card_types_from_registry(registry);
    let ghost reg = *registry;
    let ghost start = diag_views(report.diagnostics@);
    if types.len() == 0 {
        let message = chars_of("No card types were loaded from the registry");
        let d = diagnostic(DiagnosticSeverity::Warning, "RELATIONSHIP_MATRIX_UNAVAILABLE", &message, None, None);
        report.diagnostics.push(d);
        proof {
            assert(matrix_types(reg) =~= Set::empty()) by {
                assert forall|x: Seq<char>| !id_set(types@).contains(x) by {}
            }
            assert(diag_views(report.diagnostics@) =~= start.push(d.spec_view()));
        }
        return;
    }
    proof {
        assert(id_set(types@).contains(types@[0]@));
        assert(!matrix_types(reg).is_empty());
    }
    let rules = load_relationships_from_registry(registry, &types);
    let mut k: usize = 0;
    while k < cards.len()
        invariant
            k <= cards@.len(),
            reg == *registry,
            id_set(types@) == matrix_types(reg),
            diag_views(report.diagnostics@) == start + type_diags(cards@.take(k as int), reg),
        decreases cards@.len() - k,
    {
        let card = &cards[k];
        proof {
            assert(cards@.take(k + 1).drop_last() =~= cards@.take(k as int));
            assert(cards@.take(k + 1).last() == cards@[k as int]);
        }
        let key = canonical_card_type(card.card_type.as_str());
        if !list_has(&types, key.as_slice()) {
            let mut message = chars_of("Card type '");
            push_str(&mut message, card.card_type.as_str());
            push_str(&mut message, "' is not listed in the registry definitions");
            let path = chars_of("card_type");
            let d = diagnostic(DiagnosticSeverity::Warning, "UNKNOWN_CARD_TYPE", &message, Some(&card.id), Some(&path));
            let ghost before = report.diagnostics@;
            report.diagnostics.push(d);
            proof {
                assert(diag_views(report.diagnostics@) =~= diag_views(before).push(d.spec_view()));
            }
        }
        k = k + 1;
    }
    proof {
        assert(cards@.take(k as int) =~= cards@);
    }
    let ghost mid = diag_views(report.diagnostics@);
    let transitions = chars_of("transitions to");
    let misspelled = chars_of("transistions to");
    let mut k: usize = 0;
    while k < cards.len()
        invariant
            k <= cards@.len(),
            reg == *registry,
            id_set(types@) == matrix_types(reg),
            transitions@ == "transitions to"@,
            misspelled@ == "transistions to"@,
            rules@.len() == reg.relationships@.len(),
            forall|i: int|
                0 <= i < rules@.len() ==> (#[trigger] rules@[i]).verb@ == relationship_key(reg.relationships@[i].relationship@)
                    && id_set(rules@[i].sources@) == expanded_types(reg.relationships@[i].source_card_types@, matrix_types(reg))
                    && id_set(rules@[i].targets@) == expanded_types(reg.relationships@[i].target_card_types@, matrix_types(reg)),
            diag_views(report.diagnostics@) == mid + relation_diags(cards@.take(k as int), cards@, reg),
        decreases cards@.len() - k,
    {
        let card = &cards[k];
        let ghost head = diag_views(report.diagnostics@);
        let source = canonical_card_type(card.card_type.as_str());
        let source_known = list_has(&types, source.as_slice());
        let mut idx: usize = 0;
        while idx < card.links.len()
            invariant
                idx <= card.links@.len(),
                *card == cards@[k as int],
                reg == *registry,
                id_set(types@) == matrix_types(reg),
                transitions@ == "transitions to"@,
                misspelled@ == "transistions to"@,
                source@ == card_type_key(card.card_type@),
                source_known == matrix_types(reg).contains(source@),
                rules@.len() == reg.relationships@.len(),
                forall|i: int|
                    0 <= i < rules@.len() ==> (#[trigger] rules@[i]).verb@ == relationship_key(reg.relationships@[i].relationship@)
                        && id_set(rules@[i].sources@) == expanded_types(reg.relationships@[i].source_card_types@, matrix_types(reg))
                        && id_set(rules@[i].targets@) == expanded_types(reg.relationships@[i].target_card_types@, matrix_types(reg)),
                diag_views(report.diagnostics@) == head + card_relation_diags(*card, card.links@.take(idx as int), cards@, reg),
            decreases card.links@.len() - idx,
        {
            let link = &card.links[idx];
            proof {
                assert(card.links@.take(idx + 1).drop_last() =~= card.links@.take(idx as int));
                assert(card.links@.take(idx + 1).last() == *link);
            }
            let rel = normalize_relationship(link.relationship.as_str());
            let ghost before = report.diagnostics@;
            if rel.len() > 0 {
                proof {
                    assert forall|v: Seq<char>| verb_defined(reg, v) == (v.len() > 0 && exists|i: int|
                        0 <= i < rules@.len() && (#[trigger] rules@[i]).verb@ == v) by {
                        if v.len() > 0 && exists|i: int| 0 <= i < rules@.len() && (#[trigger] rules@[i]).verb@ == v {
                            let i = choose|i: int| 0 <= i < rules@.len() && (#[trigger] rules@[i]).verb@ == v;
                            assert(relationship_key(reg.relationships@[i].relationship@) == v);
                        }
                        if verb_defined(reg, v) {
                            let i = choose|i: int|
                                0 <= i < reg.relationships@.len() && relationship_key(
                                    (#[trigger] reg.relationships@[i]).relationship@,
                                ) == v;
                            assert(rules@[i].verb@ == v);
                        }
                    }
                }
                let verb = if verb_present(&rules, &rel) {
                    rel
                } else if chars_eq(rel.as_slice(), misspelled.as_slice()) && verb_present(&rules, &transitions) {
                    copy_chars(transitions.as_slice())
                } else {
                    rel
                };
                proof {
                    assert(verb@ == effective_verb(reg, relationship_key(link.relationship@)));
                }
                if !verb_present(&rules, &verb) {
                    let mut message = chars_of("Relationship '");
                    push_str(&mut message, link.relationship.as_str());
                    push_str(&mut message, "' is not defined in the embedded relationship registry");
                    let path = link_path_chars(idx, "relationship");
                    let d = diagnostic(DiagnosticSeverity::Warning, "UNKNOWN_RELATIONSHIP", &message, Some(&card.id), Some(&path));
                    report.diagnostics.push(d);
                    proof {
                        assert(diag_views(report.diagnostics@) =~= diag_views(before).push(d.spec_view()));
                    }
                } else {
                    proof {
                        assert forall|t: Seq<char>, src: bool| rule_types(reg, relationship_key(link.relationship@), src).contains(t)
                            == exists|i: int|
                            0 <= i < rules@.len() && (#[trigger] rules@[i]).verb@ == verb@ && id_set(
                                if src {
                                    rules@[i].sources@
                                } else {
                                    rules@[i].targets@
                                },
                            ).contains(t) by {
                            if exists|i: int|
                                0 <= i < rules@.len() && (#[trigger] rules@[i]).verb@ == verb@ && id_set(
                                    if src {
                                        rules@[i].sources@
                                    } else {
                                        rules@[i].targets@
                                    },
                                ).contains(t) {
                                let i = choose|i: int|
                                    0 <= i < rules@.len() && (#[trigger] rules@[i]).verb@ == verb@ && id_set(
                                        if src {
                                            rules@[i].sources@
                                        } else {
                                            rules@[i].targets@
                                        },
                                    ).contains(t);
                                assert(relationship_key(reg.relationships@[i].relationship@) == verb@);
                            }
                            if rule_types(reg, relationship_key(link.relationship@), src).contains(t) {
                                let i = choose|i: int|
                                    0 <= i < reg.relationships@.len() && relationship_key(
                                        (#[trigger] reg.relationships@[i]).relationship@,
                                    ) == effective_verb(reg, relationship_key(link.relationship@)) && expanded_types(
                                        if src {
                                            reg.relationships@[i].source_card_types@
                                        } else {
                                            reg.relationships@[i].target_card_types@
                                        },
                                        matrix_types(reg),
                                    ).contains(t);
                                assert(rules@[i].verb@ == verb@);
                            }
                        }
                    }
                    if source_known && !rule_allows(&rules, &verb, &source, true) {
                        let mut message = chars_of("Relationship '");
                        push_str(&mut message, link.relationship.as_str());
                        push_str(&mut message, "' does not allow source card type '");
                        push_str(&mut message, card.card_type.as_str());
                        push_str(&mut message, "'");
                        let path = link_path_chars(idx, "relationship");
                        let d = diagnostic(
                            DiagnosticSeverity::Warning,
                            "RELATIONSHIP_SOURCE_NOT_ALLOWED",
                            &message,
                            Some(&card.id),
                            Some(&path),
                        );
                        let ghost b2 = report.diagnostics@;
                        report.diagnostics.push(d);
                        proof {
                            assert(diag_views(report.diagnostics@) =~= diag_views(b2).push(d.spec_view()));
                        }
                    }
                    let ghost mid_link = report.diagnostics@;
                    match find_card(cards, &link.target) {
                        Some(t) => {
                            let target_card = &cards[t];
                            let target = canonical_card_type(target_card.card_type.as_str());
                            if list_has(&types, target.as_slice()) && !rule_allows(&rules, &verb, &target, false) {
                                let mut message = chars_of("Relationship '");
                                push_str(&mut message, link.relationship.as_str());
                                push_str(&mut message, "' does not allow target card type '");
                                push_str(&mut message, target_card.card_type.as_str());
                                push_str(&mut message, "'");
                                let path = link_path_chars(idx, "target");
                                let d = diagnostic(
                                    DiagnosticSeverity::Warning,
                                    "RELATIONSHIP_TARGET_NOT_ALLOWED",
                                    &message,
                                    Some(&card.id),
                                    Some(&path),
                                );
                                report.diagnostics.push(d);
                                proof {
                                    assert(diag_views(report.diagnostics@) =~= diag_views(mid_link).push(d.spec_view()));
                                }
                            }
                        },
                        None => {},
                    }
                }
            }
            proof {
                assert(diag_views(report.diagnostics@) =~= head + card_relation_diags(
                    *card,
                    card.links@.take(idx + 1),
                    cards@,
                    reg,
                ));
            }
            idx = idx + 1;
        }
        proof {
            assert(card.links@.take(card.links@.len() as int) =~= card.links@);
            assert(cards@.take(k + 1).drop_last() =~= cards@.take(k as int));
            assert(cards@.take(k + 1).last() == cards@[k as int]);
        }
        k = k + 1;
    }
    proof {
        assert(cards@.take(k as int) =~= cards@);
    }
}

/// The root mission's id: the smallest id of a mission card.
pub open spec fn root_mission_id(cards: Seq<Card>) -> Seq<char> {
    choose|id: Seq<char>| is_root_mission(cards, id)
}

/// There is one smallest mission id.
proof fn lemma_root_mission_unique(cards: Seq<Card>, a: Seq<char>)
    requires
        is_root_mission(cards, a),
    ensures
        root_mission_id(cards) == a,
{
    let b = root_mission_id(cards);
    assert(is_root_mission(cards, b));
    let ka = choose|k: int| 0 <= k < cards.len() && is_mission(#[trigger] cards[k]) && cards[k].id@ == a;
    let kb = choose|k: int| 0 <= k < cards.len() && is_mission(#[trigger] cards[k]) && cards[k].id@ == b;
    assert(!seq_lt(cards[kb].id@, a));
    assert(!seq_lt(cards[ka].id@, b));
    crate::text::lemma_seq_lt_total(a, b);
}

/// Every diagnostic of a model, in the order the checks run: duplicate ids, missions, link
/// targets, reachability from the root mission (when there is one), secret ownership, and the
/// relationship matrix; a model without cards gets only `EMPTY_MODEL`.
pub open spec fn validation_diags(cards: Seq<Card>, reg: Registry) -> Seq<DiagView> {
    if cards.len() == 0 {
        seq![(DiagnosticSeverity::Error, "EMPTY_MODEL"@, "No cards were loaded"@, None, None)]
    } else {
        duplicate_diags(cards, cards) + mission_diags(cards) + link_diags(cards, cards) + (if mission_count(cards) > 0 {
            unreachable_diags(cards, cards, root_mission_id(cards))
        } else {
            Seq::empty()
        }) + secret_diags(cards, cards) + matrix_diags(cards, reg)
    }
}

/// Validate an Aurora model against the registry; the instructions root is not consulted.
pub fn validate_model_with_instructions(
    model: &AuroraModel,
    instructions_root: Option<&str>,
    registry: &Registry,
) -> (report: ValidationReport)
    ensures
        diag_views(report.diagnostics@) == validation_diags(model.cards@, *registry),
{
    let mut report = ValidationReport { diagnostics: Vec::new() };
    let cards = &model.cards;
    proof {
        assert(diag_views(report.diagnostics@) =~= Seq::<DiagView>::empty());
    }
    if cards.len() == 0 {
        let message = chars_of("No cards were loaded");
        let d = diagnostic(DiagnosticSeverity::Error, "EMPTY_MODEL", &message, None, None);
        report.diagnostics.push(d);
        proof {
            assert(diag_views(report.diagnostics@) =~= seq![d.spec_view()]);
        }
        return report;
    }
    check_duplicate_ids(cards, &mut report);
    let root = collect_mission_ids(cards, &mut report);
    check_link_targets(cards, &mut report);
    let ghost before_reach = diag_views(report.diagnostics@);
    match &root {
        Some(root_id) => {
            check_reachability(cards, root_id, &mut report);
            proof {
                lemma_root_mission_unique(cards@, root_id@);
                let k = choose|k: int| 0 <= k < cards@.len() && is_mission(#[trigger] cards@[k]) && cards@[k].id@ == root_id@;
                lemma_mission_count_pos(cards@, k);
            }
        },
        None => {
            proof {
                assert(diag_views(report.diagnostics@) =~= before_reach + Seq::<DiagView>::empty());
            }
        },
    }
    check_secret_ownership(cards, &mut report);
    check_matrix_compliance(cards, registry, &mut report);
    proof {
        assert(diag_views(report.diagnostics@) =~= validation_diags(model.cards@, *registry));
    }
    report
}

/// Validate an Aurora model against the registry.
pub fn validate_model(model: &AuroraModel, registry: &Registry) -> (report: ValidationReport)
    ensures
        diag_views(report.diagnostics@) == validation_diags(model.cards@, *registry),
{
    validate_model_with_instructions(model, None, registry)
}

} // verus!
