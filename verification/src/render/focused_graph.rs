//! The focused-card neighborhood graph of the editor view.
use vstd::prelude::*;

use crate::layout::ids::{str_eq, str_lt};
use crate::model::Card;
use crate::render::types::{LayoutEdge, LayoutNode};
use crate::text::{push_str, string_from_chars, lemma_seq_lt_irreflexive, lemma_seq_lt_total, lemma_seq_lt_transitive, seq_lt};

verus! {

/// Role of a visible card in the focused graph neighborhood.
#[derive(Debug, Clone, Copy, PartialEq, Eq, Structural, PartialOrd, Ord)]
pub enum FocusedGraphRole {
    Center,
    Parent,
    Sibling,
    Child,
}

impl FocusedGraphRole {
    /// Human-readable section label for the role.
    pub fn label(self) -> (r: &'static str)
        ensures
            r@ == (match self {
                FocusedGraphRole::Center => "Focused card"@,
                FocusedGraphRole::Parent => "Parents"@,
                FocusedGraphRole::Sibling => "Siblings"@,
                FocusedGraphRole::Child => "Descendants"@,
            }),
    {
        match self {
            FocusedGraphRole::Center => "Focused card",
            FocusedGraphRole::Parent => "Parents",
            FocusedGraphRole::Sibling => "Siblings",
            FocusedGraphRole::Child => "Descendants",
        }
    }
}

/// The first card of `cards` with the given id.
pub open spec fn first_with_id(cards: Seq<Card>, id: Seq<char>) -> Option<Card>
    decreases cards.len(),
{
    if cards.len() == 0 {
        None
    } else {
        match first_with_id(cards.drop_last(), id) {
            Some(c) => Some(c),
            None => if cards.last().id@ == id {
                Some(cards.last())
            } else {
                None
            },
        }
    }
}

/// `out` lists, by strictly increasing id, the first card of `input` with each id.
pub open spec fn first_by_id(input: Seq<Card>, out: Seq<Card>) -> bool {
    &&& forall|i: int, j: int| 0 <= i < j < out.len() ==> seq_lt(#[trigger] out[i].id@, #[trigger] out[j].id@)
    &&& forall|j: int| 0 <= j < out.len() ==> first_with_id(input, (#[trigger] out[j]).id@) == Some(out[j])
    &&& forall|k: int| 0 <= k < input.len() ==> exists|j: int| 0 <= j < out.len() && out[j].id@ == (#[trigger] input[k]).id@
}

/// A card of the list has its id, so the first one with that id exists.
proof fn lemma_first_with_id_some(cards: Seq<Card>, k: int)
    requires
        0 <= k < cards.len(),
    ensures
        first_with_id(cards, cards[k].id@) is Some,
    decreases cards.len(),
{
    if k < cards.len() - 1 {
        lemma_first_with_id_some(cards.drop_last(), k);
        assert(cards.drop_last()[k] == cards[k]);
    }
}

/// A card with an id that none of the list has comes first for that id once appended.
pub proof fn lemma_first_with_id_push(cards: Seq<Card>, card: Card, id: Seq<char>)
    ensures
        first_with_id(cards.push(card), id) == (match first_with_id(cards, id) {
            Some(c) => Some(c),
            None => if card.id@ == id {
                Some(card)
            } else {
                None
            },
        }),
{
    assert(cards.push(card).drop_last() =~= cards);
}

/// Adding a card whose id is already listed keeps the listing.
proof fn lemma_first_by_id_skip(pre: Seq<Card>, card: Card, out: Seq<Card>, i: int)
    requires
        first_by_id(pre, out),
        0 <= i < out.len(),
        out[i].id@ == card.id@,
    ensures
        first_by_id(pre.push(card), out),
{
    let post = pre.push(card);
    assert forall|j: int| 0 <= j < out.len() implies first_with_id(post, (#[trigger] out[j]).id@) == Some(out[j]) by {
        lemma_first_with_id_push(pre, card, out[j].id@);
    }
    assert forall|t: int| 0 <= t < post.len() implies exists|j: int|
        0 <= j < out.len() && out[j].id@ == (#[trigger] post[t]).id@ by {
        if t < pre.len() {
            assert(post[t] == pre[t]);
        } else {
            assert(out[i].id@ == post[t].id@);
        }
    }
}

/// Inserting a card with a new id at its sorted place extends the listing.
proof fn lemma_first_by_id_insert(pre: Seq<Card>, card: Card, out: Seq<Card>, i: int)
    requires
        first_by_id(pre, out),
        0 <= i <= out.len(),
        forall|m: int| 0 <= m < i ==> seq_lt((#[trigger] out[m]).id@, card.id@),
        i < out.len() ==> out[i].id@ != card.id@ && !seq_lt(out[i].id@, card.id@),
    ensures
        first_by_id(pre.push(card), out.insert(i, card)),
{
    let post = pre.push(card);
    let after = out.insert(i, card);
    assert forall|m: int| i <= m < out.len() implies seq_lt(card.id@, #[trigger] out[m].id@) by {
        crate::text::lemma_seq_lt_total(out[i].id@, card.id@);
        if m > i {
            crate::text::lemma_seq_lt_transitive(card.id@, out[i].id@, out[m].id@);
        }
    }
    assert(first_with_id(pre, card.id@) is None) by {
        if first_with_id(pre, card.id@) is Some {
            lemma_first_with_id_member(pre, card.id@);
            let t = choose|t: int| 0 <= t < pre.len() && pre[t].id@ == card.id@;
            let j = choose|j: int| 0 <= j < out.len() && out[j].id@ == (#[trigger] pre[t]).id@;
            crate::text::lemma_seq_lt_irreflexive(card.id@);
            if j < i {
                assert(seq_lt(out[j].id@, card.id@));
            } else {
                assert(seq_lt(card.id@, out[j].id@));
            }
        }
    }
    assert forall|a: int, b: int| 0 <= a < b < after.len() implies seq_lt(#[trigger] after[a].id@, #[trigger] after[b].id@) by {
        if b < i {
            assert(seq_lt(out[a].id@, out[b].id@));
        } else if a > i {
            assert(seq_lt(out[a - 1].id@, out[b - 1].id@));
        } else if a == i {
            assert(seq_lt(card.id@, out[b - 1].id@));
        } else if b == i {
            assert(seq_lt(out[a].id@, card.id@));
        } else {
            assert(seq_lt(out[a].id@, out[b - 1].id@));
        }
    }
    assert forall|j: int| 0 <= j < after.len() implies first_with_id(post, (#[trigger] after[j]).id@) == Some(after[j]) by {
        lemma_first_with_id_push(pre, card, after[j].id@);
        if j != i {
            let bj = if j < i { j } else { j - 1 };
            assert(after[j] == out[bj]);
        }
    }
    assert forall|t: int| 0 <= t < post.len() implies exists|j: int|
        0 <= j < after.len() && after[j].id@ == (#[trigger] post[t]).id@ by {
        if t < pre.len() {
            assert(post[t] == pre[t]);
            let j = choose|j: int| 0 <= j < out.len() && out[j].id@ == (#[trigger] pre[t]).id@;
            if j < i {
                assert(after[j] == out[j]);
            } else {
                assert(after[j + 1] == out[j]);
            }
        } else {
            assert(after[i] == card);
        }
    }
}

/// The first card with an id is a card of the list with that id.
pub proof fn lemma_first_with_id_member(cards: Seq<Card>, id: Seq<char>)
    requires
        first_with_id(cards, id) is Some,
    ensures
        exists|t: int| 0 <= t < cards.len() && cards[t].id@ == id,
    decreases cards.len(),
{
    if cards.len() > 0 {
        if first_with_id(cards.drop_last(), id) is Some {
            lemma_first_with_id_member(cards.drop_last(), id);
            let t = choose|t: int| 0 <= t < cards.drop_last().len() && cards.drop_last()[t].id@ == id;
            assert(cards[t] == cards.drop_last()[t]);
        } else {
            assert(cards[cards.len() - 1].id@ == id);
        }
    }
}

/// The cards sorted by id, keeping the first card of each id.
pub fn sort_and_dedup_cards(cards: Vec<Card>) -> (r: Vec<Card>)
    ensures
        first_by_id(cards@, r@),
{
    let ghost input = cards@;
    let total = cards.len();
    let mut rest = cards;
    let mut out: Vec<Card> = Vec::new();
    let mut k: usize = 0;
    while rest.len() > 0
        invariant
            k <= input.len(),
            input.len() == total,
            rest@ == input.skip(k as int),
            first_by_id(input.take(k as int), out@),
        decreases rest@.len(),
    {
        let card = rest.remove(0);
        proof {
            assert(card == input[k as int]);
            assert(rest@ =~= input.skip(k + 1));
            assert(input.take(k + 1) =~= input.take(k as int).push(card));
        }
        let mut i: usize = 0;
        while i < out.len() && str_lt(out[i].id.as_str(), card.id.as_str())
            invariant
                i <= out@.len(),
                forall|m: int| 0 <= m < i ==> seq_lt((#[trigger] out@[m]).id@, card.id@),
            decreases out@.len() - i,
        {
            i = i + 1;
        }
        if i < out.len() && str_eq(out[i].id.as_str(), card.id.as_str()) {
            proof {
                lemma_first_by_id_skip(input.take(k as int), card, out@, i as int);
            }
        } else {
            proof {
                lemma_first_by_id_insert(input.take(k as int), card, out@, i as int);
            }
            out.insert(i, card);
        }
        k = k + 1;
    }
    proof {
        assert(input.take(k as int) =~= input);
    }
    out
}

/// Focused card neighborhood used by the editor graph view.
#[derive(Debug, Clone)]
pub struct FocusedGraph {
    pub center: Card,
    pub parents: Vec<Card>,
    pub siblings: Vec<Card>,
    pub children: Vec<Card>,
    pub model_home: String,
    pub mission_home: String,
}

impl FocusedGraph {
    /// Construct a focused graph, keeping role buckets sorted and deduplicated by card ID.
    pub fn new(
        center: Card,
        parents: Vec<Card>,
        siblings: Vec<Card>,
        children: Vec<Card>,
        model_home: String,
        mission_home: String,
    ) -> (g: Self)
        ensures
            g.center == center,
            first_by_id(parents@, g.parents@),
            first_by_id(siblings@, g.siblings@),
            first_by_id(children@, g.children@),
            g.model_home == model_home,
            g.mission_home == mission_home,
    {
        FocusedGraph {
            center,
            parents: sort_and_dedup_cards(parents),
            siblings: sort_and_dedup_cards(siblings),
            children: sort_and_dedup_cards(children),
            model_home,
            mission_home,
        }
    }
}

/// Clickable card hotspot aligned to the focused SVG graph.
#[derive(Debug, Clone, PartialEq, Eq)]
pub struct FocusedGraphHotspot {
    pub card_id: String,
    pub card_label: String,
    pub role: FocusedGraphRole,
    pub x_px: i32,
    pub y_px: i32,
    pub width_px: i32,
    pub height_px: i32,
}

/// Focused graph SVG plus hotspot metadata for the editor shell.
#[derive(Debug, Clone, PartialEq, Eq)]
pub struct FocusedGraphDocument {
    pub svg: String,
    pub hotspots: Vec<FocusedGraphHotspot>,
    pub width_px: i32,
    pub height_px: i32,
}

/// The column of slot `i` of a row of `count` cards: centered on 0, or, when the center is
/// reserved, `-half..=-1` then `1..`.
pub open spec fn slot_at(count: int, reserve_zero: bool, i: int) -> int {
    if reserve_zero {
        let half = count / 2;
        if i < half {
            -(half - i)
        } else {
            i - half + 1
        }
    } else {
        i - (count - 1) / 2
    }
}

/// Columns for a row of `count` cards; see [`slot_at`].
pub fn centered_slots(count: usize, reserve_zero: bool) -> (r: Vec<i32>)
    requires
        count <= i32::MAX,
    ensures
        r@.len() == count,
        forall|i: int| 0 <= i < count ==> r@[i] == slot_at(count as int, reserve_zero, i),
{
    let mut slots: Vec<i32> = Vec::new();
    if count == 0 {
        return slots;
    }
    let n = count as i32;
    let half = n / 2;
    let center = (n - 1) / 2;
    let mut i: i32 = 0;
    while i < n
        invariant
            0 <= i <= n,
            n == count,
            half == n / 2,
            center == (n - 1) / 2,
            slots@.len() == i,
            forall|k: int| 0 <= k < i ==> slots@[k] == slot_at(count as int, reserve_zero, k),
        decreases n - i,
    {
        let value = if reserve_zero {
            if i < half {
                -(half - i)
            } else {
                i - half + 1
            }
        } else {
            i - center
        };
        slots.push(value);
        i = i + 1;
    }
    slots
}

/// The canvas width: the right edges of the hotspots plus the margin, at least 1.
pub open spec fn canvas_right(h: Seq<FocusedGraphHotspot>) -> int
    decreases h.len(),
{
    if h.len() == 0 {
        1
    } else {
        let rest = canvas_right(h.drop_last());
        let edge = h.last().x_px + h.last().width_px + 150;
        if edge > rest {
            edge
        } else {
            rest
        }
    }
}

/// The canvas height: the bottom edges of the hotspots plus the margin, at least 1.
pub open spec fn canvas_bottom(h: Seq<FocusedGraphHotspot>) -> int
    decreases h.len(),
{
    if h.len() == 0 {
        1
    } else {
        let rest = canvas_bottom(h.drop_last());
        let edge = h.last().y_px + h.last().height_px + 150;
        if edge > rest {
            edge
        } else {
            rest
        }
    }
}

/// Canvas size that holds every hotspot with the view box margin.
pub fn canvas_dimensions(hotspots: &Vec<FocusedGraphHotspot>) -> (r: (i32, i32))
    requires
        forall|k: int|
            0 <= k < hotspots@.len() ==> i32::MIN <= (#[trigger] hotspots@[k]).x_px + hotspots@[k].width_px
                && hotspots@[k].x_px + hotspots@[k].width_px + 150 <= i32::MAX && i32::MIN <= hotspots@[k].y_px
                + hotspots@[k].height_px && hotspots@[k].y_px + hotspots@[k].height_px + 150 <= i32::MAX,
    ensures
        r.0 == canvas_right(hotspots@),
        r.1 == canvas_bottom(hotspots@),
{
    let mut max_right: i32 = 1;
    let mut max_bottom: i32 = 1;
    let mut k: usize = 0;
    while k < hotspots.len()
        invariant
            k <= hotspots@.len(),
            forall|m: int|
                0 <= m < hotspots@.len() ==> i32::MIN <= (#[trigger] hotspots@[m]).x_px + hotspots@[m].width_px
                    && hotspots@[m].x_px + hotspots@[m].width_px + 150 <= i32::MAX && i32::MIN <= hotspots@[m].y_px
                    + hotspots@[m].height_px && hotspots@[m].y_px + hotspots@[m].height_px + 150 <= i32::MAX,
            max_right == canvas_right(hotspots@.take(k as int)),
            max_bottom == canvas_bottom(hotspots@.take(k as int)),
        decreases hotspots@.len() - k,
    {
        let h = &hotspots[k];
        let right = h.x_px + h.width_px + 150;
        let bottom = h.y_px + h.height_px + 150;
        proof {
            assert(hotspots@.take(k + 1).drop_last() =~= hotspots@.take(k as int));
        }
        if right > max_right {
            max_right = right;
        }
        if bottom > max_bottom {
            max_bottom = bottom;
        }
        k = k + 1;
    }
    proof {
        assert(hotspots@.take(hotspots@.len() as int) =~= hotspots@);
    }
    (max_right, max_bottom)
}

/// The cards of a focused graph: the center, then its parents, siblings and children.
pub open spec fn focused_cards(g: FocusedGraph) -> Seq<Card> {
    seq![g.center] + g.parents@ + g.siblings@ + g.children@
}

/// `id` is the id of a card of the focused graph.
pub open spec fn is_visible(g: FocusedGraph, id: Seq<char>) -> bool {
    exists|k: int| 0 <= k < focused_cards(g).len() && (#[trigger] focused_cards(g)[k]).id@ == id
}

/// A card of the focused graph with id `a` links to the visible card `b`.
pub open spec fn visible_link(g: FocusedGraph, a: Seq<char>, b: Seq<char>) -> bool {
    &&& is_visible(g, b)
    &&& exists|k: int, l: int|
        0 <= k < focused_cards(g).len() && 0 <= l < focused_cards(g)[k].links@.len() && (#[trigger] focused_cards(g)[k]).id@ == a
            && (#[trigger] focused_cards(g)[k].links@[l]).target@ == b
}

/// Edge order: by source id, then by target id.
pub open spec fn edge_lt(a: LayoutEdge, b: LayoutEdge) -> bool {
    seq_lt(a.a@, b.a@) || (a.a@ == b.a@ && seq_lt(a.b@, b.b@))
}

proof fn lemma_edge_lt_order(a: LayoutEdge, b: LayoutEdge, c: LayoutEdge)
    ensures
        !edge_lt(a, a),
        edge_lt(a, b) && edge_lt(b, c) ==> edge_lt(a, c),
        edge_lt(a, b) || edge_lt(b, a) || (a.a@ == b.a@ && a.b@ == b.b@),
{
    lemma_seq_lt_irreflexive(a.a@);
    lemma_seq_lt_irreflexive(a.b@);
    lemma_seq_lt_total(a.a@, b.a@);
    lemma_seq_lt_total(a.b@, b.b@);
    if edge_lt(a, b) && edge_lt(b, c) {
        if seq_lt(a.a@, b.a@) && seq_lt(b.a@, c.a@) {
            lemma_seq_lt_transitive(a.a@, b.a@, c.a@);
        } else if seq_lt(a.b@, b.b@) && seq_lt(b.b@, c.b@) && a.a@ == b.a@ && b.a@ == c.a@ {
            lemma_seq_lt_transitive(a.b@, b.b@, c.b@);
        }
    }
}

/// Whether `id` is the id of a card of the focused graph.
fn visible_id(g: &FocusedGraph, id: &str) -> (r: bool)
    ensures
        r == is_visible(*g, id@),
{
    let ghost cards = focused_cards(*g);
    if str_eq(g.center.id.as_str(), id) {
        assert(cards[0] == g.center);
        return true;
    }
    let mut k: usize = 0;
    while k < g.parents.len()
        invariant
            cards == focused_cards(*g),
            k <= g.parents@.len(),
            g.center.id@ != id@,
            forall|t: int| 0 <= t < k ==> (#[trigger] g.parents@[t]).id@ != id@,
        decreases g.parents@.len() - k,
    {
        if str_eq(g.parents[k].id.as_str(), id) {
            assert(cards[1 + k] == g.parents@[k as int]);
            return true;
        }
        k = k + 1;
    }
    let mut k: usize = 0;
    while k < g.siblings.len()
        invariant
            cards == focused_cards(*g),
            k <= g.siblings@.len(),
            g.center.id@ != id@,
            forall|t: int| 0 <= t < g.parents@.len() ==> (#[trigger] g.parents@[t]).id@ != id@,
            forall|t: int| 0 <= t < k ==> (#[trigger] g.siblings@[t]).id@ != id@,
        decreases g.siblings@.len() - k,
    {
        if str_eq(g.siblings[k].id.as_str(), id) {
            assert(cards[1 + g.parents@.len() + k] == g.siblings@[k as int]);
            return true;
        }
        k = k + 1;
    }
    let mut k: usize = 0;
    while k < g.children.len()
        invariant
            cards == focused_cards(*g),
            k <= g.children@.len(),
            g.center.id@ != id@,
            forall|t: int| 0 <= t < g.parents@.len() ==> (#[trigger] g.parents@[t]).id@ != id@,
            forall|t: int| 0 <= t < g.siblings@.len() ==> (#[trigger] g.siblings@[t]).id@ != id@,
            forall|t: int| 0 <= t < k ==> (#[trigger] g.children@[t]).id@ != id@,
        decreases g.children@.len() - k,
    {
        if str_eq(g.children[k].id.as_str(), id) {
            assert(cards[1 + g.parents@.len() + g.siblings@.len() + k] == g.children@[k as int]);
            return true;
        }
        k = k + 1;
    }
    proof {
        assert forall|k: int| 0 <= k < cards.len() implies (#[trigger] cards[k]).id@ != id@ by {
            let p = g.parents@.len() as int;
            let q = g.siblings@.len() as int;
            if k == 0 {
            } else if k < 1 + p {
                assert(cards[k] == g.parents@[k - 1]);
            } else if k < 1 + p + q {
                assert(cards[k] == g.siblings@[k - 1 - p]);
            } else {
                assert(cards[k] == g.children@[k - 1 - p - q]);
            }
        }
    }
    false
}

/// Inserts `e` into the strictly ordered list `out`, unless an equal edge is there.
fn insert_edge(out: &mut Vec<LayoutEdge>, e: LayoutEdge)
    requires
        forall|i: int, j: int| 0 <= i < j < old(out)@.len() ==> edge_lt(#[trigger] old(out)@[i], #[trigger] old(out)@[j]),
    ensures
        forall|i: int, j: int| 0 <= i < j < final(out)@.len() ==> edge_lt(#[trigger] final(out)@[i], #[trigger] final(out)@[j]),
        forall|i: int|
            0 <= i < final(out)@.len() ==> (#[trigger] final(out)@[i]).a@ == e.a@ && final(out)@[i].b@ == e.b@ || exists|j: int|
                0 <= j < old(out)@.len() && old(out)@[j] == final(out)@[i],
        forall|j: int| 0 <= j < old(out)@.len() ==> exists|i: int| 0 <= i < final(out)@.len() && #[trigger] old(out)@[j] == final(out)@[i],
        exists|i: int| 0 <= i < final(out)@.len() && (#[trigger] final(out)@[i]).a@ == e.a@ && final(out)@[i].b@ == e.b@,
{
    let n = out.len();
    let mut p: usize = 0;
    while p < n && edge_before(&out[p], &e)
        invariant
            n == out@.len(),
            p <= n,
            forall|q: int| 0 <= q < p ==> edge_lt(#[trigger] out@[q], e),
        decreases n - p,
    {
        p = p + 1;
    }
    if p < n && str_eq(out[p].a.as_str(), e.a.as_str()) && str_eq(out[p].b.as_str(), e.b.as_str()) {
        assert(forall|j: int| 0 <= j < out@.len() ==> #[trigger] out@[j] == out@[j]);
        return;
    }
    let ghost before = out@;
    out.insert(p, e);
    proof {
        if p < n {
            lemma_edge_lt_order(before[p as int], e, e);
            lemma_edge_lt_order(e, before[p as int], e);
            assert(edge_lt(e, before[p as int]));
        }
        assert forall|i: int, j: int| 0 <= i < j < out@.len() implies edge_lt(#[trigger] out@[i], #[trigger] out@[j]) by {
            if j < p {
                assert(out@[i] == before[i] && out@[j] == before[j]);
            } else if j == p {
                assert(out@[i] == before[i]);
            } else if i == p {
                assert(out@[j] == before[j - 1]);
                if j - 1 > p {
                    lemma_edge_lt_order(e, before[p as int], before[j - 1]);
                }
            } else if i < p {
                assert(out@[i] == before[i] && out@[j] == before[j - 1]);
                if j - 1 >= p {
                    lemma_edge_lt_order(before[i], e, before[j - 1]);
                    if j - 1 > p {
                        lemma_edge_lt_order(e, before[p as int], before[j - 1]);
                    }
                }
            } else {
                assert(out@[i] == before[i - 1] && out@[j] == before[j - 1]);
            }
        }
        assert forall|i: int| 0 <= i < out@.len() implies (#[trigger] out@[i]).a@ == e.a@ && out@[i].b@ == e.b@ || exists|j: int|
            0 <= j < before.len() && before[j] == out@[i] by {
            if i < p {
                assert(before[i] == out@[i]);
            } else if i > p {
                assert(before[i - 1] == out@[i]);
            }
        }
        assert forall|j: int| 0 <= j < before.len() implies exists|i: int| 0 <= i < out@.len() && #[trigger] before[j] == out@[i] by {
            if j < p {
                assert(before[j] == out@[j]);
            } else {
                assert(before[j] == out@[j + 1]);
            }
        }
        assert(out@[p as int] == e);
    }
}

/// Whether edge `a` comes before edge `b`.
fn edge_before(a: &LayoutEdge, b: &LayoutEdge) -> (r: bool)
    ensures
        r == edge_lt(*a, *b),
{
    str_lt(a.a.as_str(), b.a.as_str()) || (str_eq(a.a.as_str(), b.a.as_str()) && str_lt(a.b.as_str(), b.b.as_str()))
}

/// The links between visible cards, one per pair of ids, ordered by source id and then by
/// target id.
pub fn visible_edges(g: &FocusedGraph) -> (r: Vec<LayoutEdge>)
    ensures
        forall|i: int, j: int| 0 <= i < j < r@.len() ==> edge_lt(#[trigger] r@[i], #[trigger] r@[j]),
        forall|i: int| 0 <= i < r@.len() ==> visible_link(*g, (#[trigger] r@[i]).a@, r@[i].b@),
        forall|a: Seq<char>, b: Seq<char>|
            visible_link(*g, a, b) ==> exists|i: int| 0 <= i < r@.len() && (#[trigger] r@[i]).a@ == a && r@[i].b@ == b,
{
    let ghost cards = focused_cards(*g);
    let mut all: Vec<&Card> = Vec::new();
    all.push(&g.center);
    let mut k: usize = 0;
    while k < g.parents.len()
        invariant
            k <= g.parents@.len(),
            all@.len() == 1 + k,
            forall|t: int| 0 <= t < all@.len() ==> *(#[trigger] all@[t]) == focused_cards(*g)[t],
        decreases g.parents@.len() - k,
    {
        all.push(&g.parents[k]);
        k = k + 1;
    }
    let mut k: usize = 0;
    while k < g.siblings.len()
        invariant
            k <= g.siblings@.len(),
            all@.len() == 1 + g.parents@.len() + k,
            forall|t: int| 0 <= t < all@.len() ==> *(#[trigger] all@[t]) == focused_cards(*g)[t],
        decreases g.siblings@.len() - k,
    {
        all.push(&g.siblings[k]);
        k = k + 1;
    }
    let mut k: usize = 0;
    while k < g.children.len()
        invariant
            k <= g.children@.len(),
            all@.len() == 1 + g.parents@.len() + g.siblings@.len() + k,
            forall|t: int| 0 <= t < all@.len() ==> *(#[trigger] all@[t]) == focused_cards(*g)[t],
        decreases g.children@.len() - k,
    {
        all.push(&g.children[k]);
        k = k + 1;
    }
    assert(all@.len() == cards.len());
    let mut out: Vec<LayoutEdge> = Vec::new();
    let mut c: usize = 0;
    while c < all.len()
        invariant
            cards == focused_cards(*g),
            all@.len() == cards.len(),
            forall|t: int| 0 <= t < all@.len() ==> *(#[trigger] all@[t]) == cards[t],
            c <= all@.len(),
            forall|i: int, j: int| 0 <= i < j < out@.len() ==> edge_lt(#[trigger] out@[i], #[trigger] out@[j]),
            forall|i: int| 0 <= i < out@.len() ==> visible_link(*g, (#[trigger] out@[i]).a@, out@[i].b@),
            forall|k: int, l: int|
                0 <= k < c && 0 <= l < cards[k].links@.len() && is_visible(*g, (#[trigger] cards[k].links@[l]).target@) ==> exists|i: int|
                    0 <= i < out@.len() && (#[trigger] out@[i]).a@ == cards[k].id@ && out@[i].b@ == cards[k].links@[l].target@,
        decreases all@.len() - c,
    {
        let card = all[c];
        let mut l: usize = 0;
        while l < card.links.len()
            invariant
                cards == focused_cards(*g),
                all@.len() == cards.len(),
                forall|t: int| 0 <= t < all@.len() ==> *(#[trigger] all@[t]) == cards[t],
                c < all@.len(),
                *card == cards[c as int],
                l <= card.links@.len(),
                forall|i: int, j: int| 0 <= i < j < out@.len() ==> edge_lt(#[trigger] out@[i], #[trigger] out@[j]),
                forall|i: int| 0 <= i < out@.len() ==> visible_link(*g, (#[trigger] out@[i]).a@, out@[i].b@),
                forall|k: int, l2: int|
                    0 <= k < c && 0 <= l2 < cards[k].links@.len() && is_visible(*g, (#[trigger] cards[k].links@[l2]).target@)
                        ==> exists|i: int| 0 <= i < out@.len() && (#[trigger] out@[i]).a@ == cards[k].id@ && out@[i].b@ == cards[k].links@[l2].target@,
                forall|l2: int|
                    0 <= l2 < l && is_visible(*g, (#[trigger] card.links@[l2]).target@) ==> exists|i: int|
                        0 <= i < out@.len() && (#[trigger] out@[i]).a@ == card.id@ && out@[i].b@ == card.links@[l2].target@,
            decreases card.links@.len() - l,
        {
            let target = &card.links[l].target;
            if visible_id(g, target.as_str()) {
                let e = LayoutEdge { a: card.id.clone(), b: target.clone() };
                let ghost o0 = out@;
                proof {
                    assert(visible_link(*g, e.a@, e.b@)) by {
                        assert(cards[c as int].links@[l as int].target@ == e.b@);
                    }
                }
                insert_edge(&mut out, e);
                proof {
                    assert forall|i: int| 0 <= i < out@.len() implies visible_link(*g, (#[trigger] out@[i]).a@, out@[i].b@) by {
                        if !(out@[i].a@ == e.a@ && out@[i].b@ == e.b@) {
                            let j = choose|j: int| 0 <= j < o0.len() && o0[j] == out@[i];
                            assert(visible_link(*g, o0[j].a@, o0[j].b@));
                        }
                    }
                    assert forall|k: int, l2: int|
                        0 <= k < c && 0 <= l2 < cards[k].links@.len() && is_visible(*g, (#[trigger] cards[k].links@[l2]).target@)
                            implies exists|i: int| 0 <= i < out@.len() && (#[trigger] out@[i]).a@ == cards[k].id@ && out@[i].b@ == cards[k].links@[l2].target@ by {
                        let i0 = choose|i0: int| 0 <= i0 < o0.len() && (#[trigger] o0[i0]).a@ == cards[k].id@ && o0[i0].b@ == cards[k].links@[l2].target@;
                        let i = choose|i: int| 0 <= i < out@.len() && o0[i0] == out@[i];
                        assert(out@[i].a@ == cards[k].id@);
                    }
                    assert forall|l2: int|
                        0 <= l2 < l + 1 && is_visible(*g, (#[trigger] card.links@[l2]).target@) implies exists|i: int|
                            0 <= i < out@.len() && (#[trigger] out@[i]).a@ == card.id@ && out@[i].b@ == card.links@[l2].target@ by {
                        if l2 < l {
                            let i0 = choose|i0: int| 0 <= i0 < o0.len() && (#[trigger] o0[i0]).a@ == card.id@ && o0[i0].b@ == card.links@[l2].target@;
                            let i = choose|i: int| 0 <= i < out@.len() && o0[i0] == out@[i];
                            assert(out@[i].a@ == card.id@);
                        }
                    }
                }
            }
            l = l + 1;
        }
        c = c + 1;
    }
    proof {
        assert forall|a: Seq<char>, b: Seq<char>| visible_link(*g, a, b) implies exists|i: int|
            0 <= i < out@.len() && (#[trigger] out@[i]).a@ == a && out@[i].b@ == b by {
            let (k, l) = choose|k: int, l: int|
                0 <= k < cards.len() && 0 <= l < cards[k].links@.len() && (#[trigger] cards[k]).id@ == a
                    && (#[trigger] cards[k].links@[l]).target@ == b;
            assert(is_visible(*g, cards[k].links@[l].target@));
        }
    }
    out
}

/// Width of a card symbol in the focused view, in pixels.
pub const FOCUS_SYMBOL_WIDTH_PX: i32 = 720;

/// Height of a card symbol in the focused view, in pixels.
pub const FOCUS_SYMBOL_HEIGHT_PX: i32 = 450;

/// Distance between columns of the focused view, in pixels.
pub const FOCUS_COLUMN_PITCH_PX: i32 = 1112;

/// Distance between rows of the focused view, in pixels.
pub const FOCUS_ROW_PITCH_PX: i32 = 842;

/// Margin around the focused view, in pixels.
pub const FOCUS_MARGIN_PX: i32 = 150;

/// The placements of the focused layout, in the order they are made: the center at the
/// origin, the parents one row up, the children one row down, the siblings beside the center
/// (leaving its column free). A later placement of the same id replaces an earlier one.
pub open spec fn placements(g: FocusedGraph) -> Seq<(Seq<char>, int, int)> {
    seq![(g.center.id@, 0int, 0int)] + Seq::new(
        g.parents@.len(),
        |i: int| (g.parents@[i].id@, slot_at(g.parents@.len() as int, false, i), -1int),
    ) + Seq::new(g.children@.len(), |i: int| (g.children@[i].id@, slot_at(g.children@.len() as int, false, i), 1int))
        + Seq::new(g.siblings@.len(), |i: int| (g.siblings@[i].id@, slot_at(g.siblings@.len() as int, true, i), 0int))
}

/// The position of the last of the first `n` placements of `id`.
pub open spec fn last_placed(ps: Seq<(Seq<char>, int, int)>, n: int, id: Seq<char>) -> Option<(int, int)>
    decreases n,
{
    if n <= 0 {
        None
    } else if ps[n - 1].0 == id {
        Some((ps[n - 1].1, ps[n - 1].2))
    } else {
        last_placed(ps, n - 1, id)
    }
}

/// The buckets are small enough that every coordinate of the view fits.
pub open spec fn focused_sizes_ok(g: FocusedGraph) -> bool {
    &&& g.parents@.len() <= 0x8_0000
    &&& g.siblings@.len() <= 0x8_0000
    &&& g.children@.len() <= 0x8_0000
}

/// Places (or moves) `id` at `(x, y)`, keeping one node per id.
fn place_node(out: &mut Vec<LayoutNode>, id: &String, x: i32, y: i32)
    requires
        forall|i: int, j: int| 0 <= i < j < old(out)@.len() ==> (#[trigger] old(out)@[i]).id@ != (#[trigger] old(out)@[j]).id@,
    ensures
        forall|i: int, j: int| 0 <= i < j < final(out)@.len() ==> (#[trigger] final(out)@[i]).id@ != (#[trigger] final(out)@[j]).id@,
        forall|k: int|
            0 <= k < final(out)@.len() ==> if (#[trigger] final(out)@[k]).id@ == id@ {
                final(out)@[k].x == x && final(out)@[k].y == y
            } else {
                exists|j: int| 0 <= j < old(out)@.len() && old(out)@[j] == final(out)@[k]
            },
        forall|j: int|
            0 <= j < old(out)@.len() && (#[trigger] old(out)@[j]).id@ != id@ ==> exists|k: int|
                0 <= k < final(out)@.len() && final(out)@[k] == old(out)@[j],
        exists|k: int| 0 <= k < final(out)@.len() && (#[trigger] final(out)@[k]).id@ == id@,
{
    let n = out.len();
    let mut k: usize = 0;
    while k < n && !str_eq(out[k].id.as_str(), id.as_str())
        invariant
            n == out@.len(),
            k <= n,
            forall|t: int| 0 <= t < k ==> (#[trigger] out@[t]).id@ != id@,
        decreases n - k,
    {
        k = k + 1;
    }
    let ghost before = out@;
    if k < n {
        let node = LayoutNode { id: id.clone(), x, y };
        out.set(k, node);
        proof {
            assert forall|i: int, j: int| 0 <= i < j < out@.len() implies (#[trigger] out@[i]).id@ != (#[trigger] out@[j]).id@ by {
                assert(before[i].id@ != before[j].id@);
            }
            assert forall|q: int|
                0 <= q < out@.len() implies if (#[trigger] out@[q]).id@ == id@ {
                    out@[q].x == x && out@[q].y == y
                } else {
                    exists|j: int| 0 <= j < before.len() && before[j] == out@[q]
                } by {
                if q != k {
                    assert(before[q] == out@[q]);
                }
            }
            assert forall|j: int| 0 <= j < before.len() && (#[trigger] before[j]).id@ != id@ implies exists|q: int|
                0 <= q < out@.len() && out@[q] == before[j] by {
                assert(out@[j] == before[j]);
            }
            assert(out@[k as int].id@ == id@);
        }
    } else {
        out.push(LayoutNode { id: id.clone(), x, y });
        proof {
            assert forall|i: int, j: int| 0 <= i < j < out@.len() implies (#[trigger] out@[i]).id@ != (#[trigger] out@[j]).id@ by {
                if j < n {
                    assert(before[i].id@ != before[j].id@);
                } else {
                    assert(before[i].id@ != id@);
                }
            }
            assert forall|q: int|
                0 <= q < out@.len() implies if (#[trigger] out@[q]).id@ == id@ {
                    out@[q].x == x && out@[q].y == y
                } else {
                    exists|j: int| 0 <= j < before.len() && before[j] == out@[q]
                } by {
                if q < n {
                    assert(before[q] == out@[q]);
                }
            }
            assert forall|j: int| 0 <= j < before.len() && (#[trigger] before[j]).id@ != id@ implies exists|q: int|
                0 <= q < out@.len() && out@[q] == before[j] by {
                assert(out@[j] == before[j]);
            }
            assert(out@[n as int].id@ == id@);
        }
    }
}

/// The placements of the focused layout as values.
fn focused_placements(g: &FocusedGraph) -> (r: Vec<(String, i32, i32)>)
    requires
        focused_sizes_ok(*g),
    ensures
        r@.len() == placements(*g).len(),
        forall|k: int|
            0 <= k < r@.len() ==> ((#[trigger] r@[k]).0@, r@[k].1 as int, r@[k].2 as int) == placements(*g)[k],
{
    let ghost ps = placements(*g);
    let mut r: Vec<(String, i32, i32)> = Vec::new();
    r.push((g.center.id.clone(), 0, 0));
    let np = g.parents.len();
    let slots = centered_slots(np, false);
    let mut i: usize = 0;
    while i < np
        invariant
            ps == placements(*g),
            np == g.parents@.len(),
            slots@.len() == np,
            forall|t: int| 0 <= t < np ==> slots@[t] == slot_at(np as int, false, t),
            i <= np,
            r@.len() == 1 + i,
            forall|k: int| 0 <= k < r@.len() ==> ((#[trigger] r@[k]).0@, r@[k].1 as int, r@[k].2 as int) == ps[k],
        decreases np - i,
    {
        r.push((g.parents[i].id.clone(), slots[i], -1));
        i = i + 1;
    }
    let nc = g.children.len();
    let slots = centered_slots(nc, false);
    let mut i: usize = 0;
    while i < nc
        invariant
            ps == placements(*g),
            np == g.parents@.len(),
            nc == g.children@.len(),
            slots@.len() == nc,
            forall|t: int| 0 <= t < nc ==> slots@[t] == slot_at(nc as int, false, t),
            i <= nc,
            r@.len() == 1 + np + i,
            forall|k: int| 0 <= k < r@.len() ==> ((#[trigger] r@[k]).0@, r@[k].1 as int, r@[k].2 as int) == ps[k],
        decreases nc - i,
    {
        r.push((g.children[i].id.clone(), slots[i], 1));
        i = i + 1;
    }
    let ns = g.siblings.len();
    let slots = centered_slots(ns, true);
    let mut i: usize = 0;
    while i < ns
        invariant
            ps == placements(*g),
            np == g.parents@.len(),
            nc == g.children@.len(),
            ns == g.siblings@.len(),
            slots@.len() == ns,
            forall|t: int| 0 <= t < ns ==> slots@[t] == slot_at(ns as int, true, t),
            i <= ns,
            r@.len() == 1 + np + nc + i,
            forall|k: int| 0 <= k < r@.len() ==> ((#[trigger] r@[k]).0@, r@[k].1 as int, r@[k].2 as int) == ps[k],
        decreases ns - i,
    {
        r.push((g.siblings[i].id.clone(), slots[i], 0));
        i = i + 1;
    }
    r
}

/// The nodes of the focused layout: one per id, at the last placement of that id.
pub fn focused_nodes(g: &FocusedGraph) -> (r: Vec<LayoutNode>)
    requires
        focused_sizes_ok(*g),
    ensures
        forall|i: int, j: int| 0 <= i < j < r@.len() ==> (#[trigger] r@[i]).id@ != (#[trigger] r@[j]).id@,
        forall|k: int|
            0 <= k < r@.len() ==> last_placed(placements(*g), placements(*g).len() as int, (#[trigger] r@[k]).id@) == Some(
                (r@[k].x as int, r@[k].y as int),
            ),
        forall|id: Seq<char>|
            #[trigger] last_placed(placements(*g), placements(*g).len() as int, id) is Some ==> exists|k: int|
                0 <= k < r@.len() && r@[k].id@ == id,
{
    let ghost ps = placements(*g);
    let pl = focused_placements(g);
    let mut out: Vec<LayoutNode> = Vec::new();
    let mut t: usize = 0;
    while t < pl.len()
        invariant
            ps == placements(*g),
            pl@.len() == ps.len(),
            forall|k: int| 0 <= k < pl@.len() ==> ((#[trigger] pl@[k]).0@, pl@[k].1 as int, pl@[k].2 as int) == ps[k],
            t <= pl@.len(),
            forall|i: int, j: int| 0 <= i < j < out@.len() ==> (#[trigger] out@[i]).id@ != (#[trigger] out@[j]).id@,
            forall|k: int|
                0 <= k < out@.len() ==> last_placed(ps, t as int, (#[trigger] out@[k]).id@) == Some((out@[k].x as int, out@[k].y as int)),
            forall|id: Seq<char>| #[trigger] last_placed(ps, t as int, id) is Some ==> exists|k: int| 0 <= k < out@.len() && out@[k].id@ == id,
        decreases pl@.len() - t,
    {
        let ghost before = out@;
        place_node(&mut out, &pl[t].0, pl[t].1, pl[t].2);
        proof {
            let e = ps[t as int];
            assert(e.0 == pl@[t as int].0@);
            assert forall|k: int|
                0 <= k < out@.len() implies last_placed(ps, t + 1, (#[trigger] out@[k]).id@) == Some((out@[k].x as int, out@[k].y as int)) by {
                if out@[k].id@ != e.0 {
                    let j = choose|j: int| 0 <= j < before.len() && before[j] == out@[k];
                    assert(last_placed(ps, t as int, before[j].id@) == Some((before[j].x as int, before[j].y as int)));
                }
            }
            assert forall|id: Seq<char>| #[trigger] last_placed(ps, t + 1, id) is Some implies exists|k: int|
                0 <= k < out@.len() && out@[k].id@ == id by {
                if id != e.0 {
                    assert(last_placed(ps, t as int, id) is Some);
                    let j = choose|j: int| 0 <= j < before.len() && before[j].id@ == id;
                    let k = choose|k: int| 0 <= k < out@.len() && out@[k] == before[j];
                }
            }
        }
        t = t + 1;
    }
    out
}

/// The label of a card in the focused view: its id and its name.
pub open spec fn card_label_of(c: Card) -> Seq<char> {
    c.id@ + ": "@ + c.name@
}

/// The roles of the cards, in the order center, parents, siblings, children; a later entry for
/// the same id replaces an earlier one.
pub open spec fn role_entries(g: FocusedGraph) -> Seq<(Seq<char>, FocusedGraphRole, Seq<char>)> {
    seq![(g.center.id@, FocusedGraphRole::Center, card_label_of(g.center))] + Seq::new(
        g.parents@.len(),
        |i: int| (g.parents@[i].id@, FocusedGraphRole::Parent, card_label_of(g.parents@[i])),
    ) + Seq::new(g.siblings@.len(), |i: int| (g.siblings@[i].id@, FocusedGraphRole::Sibling, card_label_of(g.siblings@[i])))
        + Seq::new(g.children@.len(), |i: int| (g.children@[i].id@, FocusedGraphRole::Child, card_label_of(g.children@[i])))
}

/// The role and label of the last of the first `n` entries for `id`.
pub open spec fn last_role(es: Seq<(Seq<char>, FocusedGraphRole, Seq<char>)>, n: int, id: Seq<char>) -> Option<
    (FocusedGraphRole, Seq<char>),
>
    decreases n,
{
    if n <= 0 {
        None
    } else if es[n - 1].0 == id {
        Some((es[n - 1].1, es[n - 1].2))
    } else {
        last_role(es, n - 1, id)
    }
}

/// The rank of a role in hotspot order.
pub open spec fn role_rank(r: FocusedGraphRole) -> int {
    match r {
        FocusedGraphRole::Center => 0,
        FocusedGraphRole::Parent => 1,
        FocusedGraphRole::Sibling => 2,
        FocusedGraphRole::Child => 3,
    }
}

/// Hotspot order: by role, then by card id.
pub open spec fn hotspot_lt(a: FocusedGraphHotspot, b: FocusedGraphHotspot) -> bool {
    role_rank(a.role) < role_rank(b.role) || (role_rank(a.role) == role_rank(b.role) && seq_lt(a.card_id@, b.card_id@))
}

proof fn lemma_hotspot_lt_order(a: FocusedGraphHotspot, b: FocusedGraphHotspot, c: FocusedGraphHotspot)
    ensures
        !hotspot_lt(a, a),
        hotspot_lt(a, b) && hotspot_lt(b, c) ==> hotspot_lt(a, c),
        a.card_id@ != b.card_id@ ==> hotspot_lt(a, b) || hotspot_lt(b, a),
{
    lemma_seq_lt_irreflexive(a.card_id@);
    lemma_seq_lt_total(a.card_id@, b.card_id@);
    if hotspot_lt(a, b) && hotspot_lt(b, c) && seq_lt(a.card_id@, b.card_id@) && seq_lt(b.card_id@, c.card_id@) {
        lemma_seq_lt_transitive(a.card_id@, b.card_id@, c.card_id@);
    }
}

/// The left edge of the focused view: the least column start less the margin (0 without nodes).
pub open spec fn view_left(nodes: Seq<LayoutNode>) -> int
    decreases nodes.len(),
{
    if nodes.len() == 0 {
        0
    } else if nodes.len() == 1 {
        nodes[0].x * FOCUS_COLUMN_PITCH_PX - FOCUS_MARGIN_PX
    } else {
        let rest = view_left(nodes.drop_last());
        let here = nodes.last().x * FOCUS_COLUMN_PITCH_PX - FOCUS_MARGIN_PX;
        if here < rest { here } else { rest }
    }
}

/// The top edge of the focused view: the least row start less the margin (0 without nodes).
pub open spec fn view_top(nodes: Seq<LayoutNode>) -> int
    decreases nodes.len(),
{
    if nodes.len() == 0 {
        0
    } else if nodes.len() == 1 {
        nodes[0].y * FOCUS_ROW_PITCH_PX - FOCUS_MARGIN_PX
    } else {
        let rest = view_top(nodes.drop_last());
        let here = nodes.last().y * FOCUS_ROW_PITCH_PX - FOCUS_MARGIN_PX;
        if here < rest { here } else { rest }
    }
}

/// Node coordinates are small enough that every pixel position fits.
pub open spec fn nodes_small(nodes: Seq<LayoutNode>) -> bool {
    forall|k: int|
        0 <= k < nodes.len() ==> -0x8_0000 <= (#[trigger] nodes[k]).x <= 0x8_0000 && -0x8_0000 <= nodes[k].y <= 0x8_0000
}

/// Hotspot `h` is that of node `n` with role `role` and label `label` in a view whose top left
/// corner is `(left, top)`.
pub open spec fn hotspot_of(h: FocusedGraphHotspot, n: LayoutNode, role: FocusedGraphRole, label: Seq<char>, left: int, top: int) -> bool {
    &&& h.card_id@ == n.id@
    &&& h.card_label@ == label
    &&& h.role == role
    &&& h.x_px == n.x * FOCUS_COLUMN_PITCH_PX - left
    &&& h.y_px == n.y * FOCUS_ROW_PITCH_PX - top
    &&& h.width_px == FOCUS_SYMBOL_WIDTH_PX
    &&& h.height_px == FOCUS_SYMBOL_HEIGHT_PX
}

/// Hotspot `h` is that of node `n`, with the role and label of the last role entry for it.
#[verifier::opaque]
pub open spec fn hotspot_from(
    es: Seq<(Seq<char>, FocusedGraphRole, Seq<char>)>,
    h: FocusedGraphHotspot,
    n: LayoutNode,
    left: int,
    top: int,
) -> bool {
    match last_role(es, es.len() as int, n.id@) {
        Some((role, label)) => hotspot_of(h, n, role, label, left, top),
        None => false,
    }
}

/// Hotspot `h` is that of one of the nodes, in the view of all of them.
pub open spec fn hotspot_of_some(es: Seq<(Seq<char>, FocusedGraphRole, Seq<char>)>, h: FocusedGraphHotspot, nodes: Seq<LayoutNode>) -> bool {
    exists|j: int| 0 <= j < nodes.len() && #[trigger] hotspot_from(es, h, nodes[j], view_left(nodes), view_top(nodes))
}

/// The top left corner of the view of the nodes.
fn view_corner(nodes: &Vec<LayoutNode>) -> (r: (i32, i32))
    requires
        nodes_small(nodes@),
    ensures
        r.0 == view_left(nodes@),
        r.1 == view_top(nodes@),
        -0x8_0000 * 1112 - 150 <= r.0 <= 0x8_0000 * 1112,
        -0x8_0000 * 842 - 150 <= r.1 <= 0x8_0000 * 842,
{
    if nodes.len() == 0 {
        return (0, 0);
    }
    let mut left: i32 = nodes[0].x * FOCUS_COLUMN_PITCH_PX - FOCUS_MARGIN_PX;
    let mut top: i32 = nodes[0].y * FOCUS_ROW_PITCH_PX - FOCUS_MARGIN_PX;
    let mut k: usize = 1;
    while k < nodes.len()
        invariant
            nodes_small(nodes@),
            1 <= k <= nodes@.len(),
            left == view_left(nodes@.take(k as int)),
            top == view_top(nodes@.take(k as int)),
            -0x8_0000 * 1112 - 150 <= left <= 0x8_0000 * 1112,
            -0x8_0000 * 842 - 150 <= top <= 0x8_0000 * 842,
        decreases nodes@.len() - k,
    {
        proof {
            assert(nodes@.take(k + 1).drop_last() =~= nodes@.take(k as int));
            assert(nodes@.take(1) =~= seq![nodes@[0]]);
        }
        let x = nodes[k].x * FOCUS_COLUMN_PITCH_PX - FOCUS_MARGIN_PX;
        let y = nodes[k].y * FOCUS_ROW_PITCH_PX - FOCUS_MARGIN_PX;
        if x < left {
            left = x;
        }
        if y < top {
            top = y;
        }
        k = k + 1;
    }
    proof {
        assert(nodes@.take(nodes@.len() as int) =~= nodes@);
    }
    (left, top)
}

/// The role entries as values.
fn role_entry_list(g: &FocusedGraph) -> (r: Vec<(String, FocusedGraphRole, String)>)
    ensures
        r@.len() == role_entries(*g).len(),
        forall|k: int| 0 <= k < r@.len() ==> ((#[trigger] r@[k]).0@, r@[k].1, r@[k].2@) == role_entries(*g)[k],
{
    let ghost es = role_entries(*g);
    let mut r: Vec<(String, FocusedGraphRole, String)> = Vec::new();
    r.push((g.center.id.clone(), FocusedGraphRole::Center, card_label(&g.center)));
    let mut i: usize = 0;
    while i < g.parents.len()
        invariant
            es == role_entries(*g),
            i <= g.parents@.len(),
            r@.len() == 1 + i,
            forall|k: int| 0 <= k < r@.len() ==> ((#[trigger] r@[k]).0@, r@[k].1, r@[k].2@) == es[k],
        decreases g.parents@.len() - i,
    {
        r.push((g.parents[i].id.clone(), FocusedGraphRole::Parent, card_label(&g.parents[i])));
        i = i + 1;
    }
    let mut i: usize = 0;
    while i < g.siblings.len()
        invariant
            es == role_entries(*g),
            i <= g.siblings@.len(),
            r@.len() == 1 + g.parents@.len() + i,
            forall|k: int| 0 <= k < r@.len() ==> ((#[trigger] r@[k]).0@, r@[k].1, r@[k].2@) == es[k],
        decreases g.siblings@.len() - i,
    {
        r.push((g.siblings[i].id.clone(), FocusedGraphRole::Sibling, card_label(&g.siblings[i])));
        i = i + 1;
    }
    let mut i: usize = 0;
    while i < g.children.len()
        invariant
            es == role_entries(*g),
            i <= g.children@.len(),
            r@.len() == 1 + g.parents@.len() + g.siblings@.len() + i,
            forall|k: int| 0 <= k < r@.len() ==> ((#[trigger] r@[k]).0@, r@[k].1, r@[k].2@) == es[k],
        decreases g.children@.len() - i,
    {
        r.push((g.children[i].id.clone(), FocusedGraphRole::Child, card_label(&g.children[i])));
        i = i + 1;
    }
    r
}

/// The label of a card.
fn card_label(c: &Card) -> (r: String)
    ensures
        r@ == card_label_of(*c),
{
    let mut out: Vec<char> = Vec::new();
    push_str(&mut out, c.id.as_str());
    push_str(&mut out, ": ");
    push_str(&mut out, c.name.as_str());
    string_from_chars(out.as_slice())
}

/// Inserts `h` into the ordered list `out`, whose card ids all differ from that of `h`.
fn insert_hotspot(out: &mut Vec<FocusedGraphHotspot>, h: FocusedGraphHotspot) -> (p: usize)
    requires
        forall|i: int, j: int| 0 <= i < j < old(out)@.len() ==> hotspot_lt(#[trigger] old(out)@[i], #[trigger] old(out)@[j]),
        forall|k: int| 0 <= k < old(out)@.len() ==> (#[trigger] old(out)@[k]).card_id@ != h.card_id@,
    ensures
        forall|i: int, j: int| 0 <= i < j < final(out)@.len() ==> hotspot_lt(#[trigger] final(out)@[i], #[trigger] final(out)@[j]),
        forall|i: int| 0 <= i < final(out)@.len() ==> #[trigger] final(out)@[i] == h || exists|j: int| 0 <= j < old(out)@.len() && old(out)@[j] == final(out)@[i],
        forall|j: int| 0 <= j < old(out)@.len() ==> exists|i: int| 0 <= i < final(out)@.len() && #[trigger] old(out)@[j] == final(out)@[i],
        exists|i: int| 0 <= i < final(out)@.len() && #[trigger] final(out)@[i] == h,
        p <= old(out)@.len(),
        final(out)@ == old(out)@.insert(p as int, h),
{
    let n = out.len();
    let mut p: usize = 0;
    while p < n && hotspot_before(&out[p], &h)
        invariant
            n == out@.len(),
            p <= n,
            forall|q: int| 0 <= q < p ==> hotspot_lt(#[trigger] out@[q], h),
        decreases n - p,
    {
        p = p + 1;
    }
    let ghost o0 = out@;
    proof {
        if p < n {
            lemma_hotspot_lt_order(h, o0[p as int], h);
        }
    }
    out.insert(p, h);
    proof {
        assert forall|a: int, b: int| 0 <= a < b < out@.len() implies hotspot_lt(#[trigger] out@[a], #[trigger] out@[b]) by {
            if b < p {
                assert(out@[a] == o0[a] && out@[b] == o0[b]);
            } else if b == p {
                assert(out@[a] == o0[a]);
            } else if a == p {
                assert(out@[b] == o0[b - 1]);
                if b - 1 > p {
                    lemma_hotspot_lt_order(h, o0[p as int], o0[b - 1]);
                }
            } else if a < p {
                assert(out@[a] == o0[a] && out@[b] == o0[b - 1]);
                lemma_hotspot_lt_order(o0[a], h, o0[b - 1]);
                if b - 1 > p {
                    lemma_hotspot_lt_order(h, o0[p as int], o0[b - 1]);
                }
            } else {
                assert(out@[a] == o0[a - 1] && out@[b] == o0[b - 1]);
            }
        }
        assert forall|i: int| 0 <= i < out@.len() implies #[trigger] out@[i] == h || exists|j: int| 0 <= j < o0.len() && o0[j] == out@[i] by {
            if i < p {
                assert(o0[i] == out@[i]);
            } else if i > p {
                assert(o0[i - 1] == out@[i]);
            }
        }
        assert forall|j: int| 0 <= j < o0.len() implies exists|i: int| 0 <= i < out@.len() && #[trigger] o0[j] == out@[i] by {
            if j < p {
                assert(o0[j] == out@[j]);
            } else {
                assert(o0[j] == out@[j + 1]);
            }
        }
        assert(out@[p as int] == h);
    }
    p
}

/// Whether hotspot `a` comes before hotspot `b`.
fn hotspot_before(a: &FocusedGraphHotspot, b: &FocusedGraphHotspot) -> (r: bool)
    ensures
        r == hotspot_lt(*a, *b),
{
    let ra: u8 = match a.role {
        FocusedGraphRole::Center => 0,
        FocusedGraphRole::Parent => 1,
        FocusedGraphRole::Sibling => 2,
        FocusedGraphRole::Child => 3,
    };
    let rb: u8 = match b.role {
        FocusedGraphRole::Center => 0,
        FocusedGraphRole::Parent => 1,
        FocusedGraphRole::Sibling => 2,
        FocusedGraphRole::Child => 3,
    };
    ra < rb || (ra == rb && str_lt(a.card_id.as_str(), b.card_id.as_str()))
}

/// The role and label of the last role entry for `id`.
fn find_role(g: &FocusedGraph, id: &str) -> (found: Option<(FocusedGraphRole, String)>)
    ensures
        match found {
            None => last_role(role_entries(*g), role_entries(*g).len() as int, id@) is None,
            Some((role, label)) => last_role(role_entries(*g), role_entries(*g).len() as int, id@) == Some((role, label@)),
        },
{
    let ghost es = role_entries(*g);
    let entries = role_entry_list(g);
    let mut found: Option<(FocusedGraphRole, usize)> = None;
    let mut e: usize = 0;
    while e < entries.len()
        invariant
            entries@.len() == es.len(),
            forall|k: int| 0 <= k < entries@.len() ==> ((#[trigger] entries@[k]).0@, entries@[k].1, entries@[k].2@) == es[k],
            e <= entries@.len(),
            match found {
                None => last_role(es, e as int, id@) is None,
                Some((role, idx)) => idx < e && last_role(es, e as int, id@) == Some((role, entries@[idx as int].2@)),
            },
        decreases entries@.len() - e,
    {
        if str_eq(entries[e].0.as_str(), id) {
            found = Some((entries[e].1, e));
        }
        e = e + 1;
    }
    match found {
        None => None,
        Some((role, idx)) => Some((role, entries[idx].2.clone())),
    }
}

/// The clickable hotspots of the placed cards, ordered by role and then by card id.
#[verifier::rlimit(100)]
pub fn focused_hotspots(g: &FocusedGraph, nodes: &Vec<LayoutNode>) -> (r: Vec<FocusedGraphHotspot>)
    requires
        nodes_small(nodes@),
        forall|i: int, j: int| 0 <= i < j < nodes@.len() ==> (#[trigger] nodes@[i]).id@ != (#[trigger] nodes@[j]).id@,
    ensures
        forall|i: int, j: int| 0 <= i < j < r@.len() ==> hotspot_lt(#[trigger] r@[i], #[trigger] r@[j]),
        forall|k: int| 0 <= k < r@.len() ==> #[trigger] hotspot_of_some(role_entries(*g), r@[k], nodes@),
        forall|j: int|
            0 <= j < nodes@.len() && (#[trigger] last_role(role_entries(*g), role_entries(*g).len() as int, nodes@[j].id@)) is Some
                ==> exists|k: int| 0 <= k < r@.len() && r@[k].card_id@ == nodes@[j].id@,
{
    let ghost es = role_entries(*g);
    let (left, top) = view_corner(nodes);
    let mut out: Vec<FocusedGraphHotspot> = Vec::new();
    let ghost mut src: Seq<int> = Seq::empty();
    let mut j: usize = 0;
    while j < nodes.len()
        invariant
            es == role_entries(*g),
            nodes_small(nodes@),
            forall|a: int, b: int| 0 <= a < b < nodes@.len() ==> (#[trigger] nodes@[a]).id@ != (#[trigger] nodes@[b]).id@,
            left == view_left(nodes@),
            top == view_top(nodes@),
            -0x8_0000 * 1112 - 150 <= left <= 0x8_0000 * 1112,
            -0x8_0000 * 842 - 150 <= top <= 0x8_0000 * 842,
            j <= nodes@.len(),
            forall|a: int, b: int| 0 <= a < b < out@.len() ==> hotspot_lt(#[trigger] out@[a], #[trigger] out@[b]),
            src.len() == out@.len(),
            forall|k: int|
                0 <= k < out@.len() ==> 0 <= #[trigger] src[k] < j && hotspot_from(es, out@[k], nodes@[src[k]], left as int, top as int),
            forall|q: int|
                0 <= q < j && (#[trigger] last_role(es, es.len() as int, nodes@[q].id@)) is Some ==> exists|k: int|
                    0 <= k < src.len() && src[k] == q,
        decreases nodes@.len() - j,
    {
        let node = &nodes[j];
        let found = find_role(g, node.id.as_str());
        if let Some((role, label)) = found {
            let h = FocusedGraphHotspot {
                card_id: node.id.clone(),
                card_label: label,
                role,
                x_px: node.x * FOCUS_COLUMN_PITCH_PX - left,
                y_px: node.y * FOCUS_ROW_PITCH_PX - top,
                width_px: FOCUS_SYMBOL_WIDTH_PX,
                height_px: FOCUS_SYMBOL_HEIGHT_PX,
            };
            let ghost o0 = out@;
            let ghost s0 = src;
            proof {
                assert forall|k: int| 0 <= k < o0.len() implies (#[trigger] o0[k]).card_id@ != h.card_id@ by {
                    assert(hotspot_from(es, o0[k], nodes@[s0[k]], left as int, top as int));
                    reveal(hotspot_from);
                    assert(nodes@[s0[k]].id@ != nodes@[j as int].id@);
                }
                assert(hotspot_from(es, h, nodes@[j as int], left as int, top as int)) by {
                    reveal(hotspot_from);
                }
            }
            let p = insert_hotspot(&mut out, h);
            proof {
                src = s0.insert(p as int, j as int);
                assert forall|k: int|
                    0 <= k < out@.len() implies 0 <= #[trigger] src[k] < j + 1 && hotspot_from(es, out@[k], nodes@[src[k]], left as int, top as int) by {
                    if k < p {
                        assert(out@[k] == o0[k] && src[k] == s0[k]);
                    } else if k > p {
                        assert(out@[k] == o0[k - 1] && src[k] == s0[k - 1]);
                    }
                }
                assert forall|q: int|
                    0 <= q < j + 1 && (#[trigger] last_role(es, es.len() as int, nodes@[q].id@)) is Some implies exists|k: int|
                        0 <= k < src.len() && src[k] == q by {
                    if q < j {
                        let k0 = choose|k0: int| 0 <= k0 < s0.len() && s0[k0] == q;
                        if k0 < p {
                            assert(src[k0] == q);
                        } else {
                            assert(src[k0 + 1] == q);
                        }
                    } else {
                        assert(src[p as int] == q);
                    }
                }
            }
        }
        j = j + 1;
    }
    proof {
        assert forall|k: int| 0 <= k < out@.len() implies #[trigger] hotspot_of_some(role_entries(*g), out@[k], nodes@) by {
            assert(hotspot_from(role_entries(*g), out@[k], nodes@[src[k]], view_left(nodes@), view_top(nodes@)));
        }
        assert forall|q: int|
            0 <= q < nodes@.len() && (#[trigger] last_role(role_entries(*g), role_entries(*g).len() as int, nodes@[q].id@)) is Some
                implies exists|k: int| 0 <= k < out@.len() && out@[k].card_id@ == nodes@[q].id@ by {
            let k = choose|k: int| 0 <= k < src.len() && src[k] == q;
            assert(hotspot_from(es, out@[k], nodes@[src[k]], left as int, top as int));
            reveal(hotspot_from);
        }
    }
    out
}

} // verus!
