//! The layout graph of a view: the cards of the view's types, linked as in the model, pruned to
//! what the roots reach and to cards that take part in some link.
use vstd::prelude::*;

use crate::layout::ids::{id_views, ids_sorted, str_eq, IdTable};
use crate::model::{Card, Model};
use crate::render::errors::RenderError;

verus! {

/// Some entry of `types` is `t`.
pub open spec fn has_type(types: Seq<String>, t: Seq<char>) -> bool {
    exists|k: int| 0 <= k < types.len() && (#[trigger] types[k])@ == t
}

/// Card `i` is of a root type.
pub open spec fn is_root(c: Seq<Card>, rt: Seq<String>, it: Seq<String>, i: int) -> bool {
    0 <= i < c.len() && has_type(rt, c[i].card_type@)
}

/// Card `i` is of a type the view shows.
pub open spec fn is_allowed(c: Seq<Card>, rt: Seq<String>, it: Seq<String>, i: int) -> bool {
    0 <= i < c.len() && (has_type(rt, c[i].card_type@) || has_type(it, c[i].card_type@))
}

/// Card `i` links to card `j`.
pub open spec fn links_card(c: Seq<Card>, i: int, j: int) -> bool {
    exists|l: int| 0 <= l < c[i].links@.len() && (#[trigger] c[i].links@[l]).target@ == c[j].id@
}

/// A link between two shown cards.
pub open spec fn view_edge(c: Seq<Card>, rt: Seq<String>, it: Seq<String>, i: int, j: int) -> bool {
    is_allowed(c, rt, it, i) && is_allowed(c, rt, it, j) && links_card(c, i, j)
}

/// Some shown card links to card `j`.
pub open spec fn has_view_incoming(c: Seq<Card>, rt: Seq<String>, it: Seq<String>, j: int) -> bool {
    exists|i: int| view_edge(c, rt, it, i, j)
}

/// The first roots: cards of root types, and shown cards no shown card links to.
pub open spec fn first_root(c: Seq<Card>, rt: Seq<String>, it: Seq<String>, i: int) -> bool {
    is_root(c, rt, it, i) || (is_allowed(c, rt, it, i) && !has_view_incoming(c, rt, it, i))
}

/// A walk along view links from a first root.
pub open spec fn view_walk(c: Seq<Card>, rt: Seq<String>, it: Seq<String>, p: Seq<int>) -> bool {
    &&& p.len() > 0
    &&& first_root(c, rt, it, p[0])
    &&& forall|k: int| 0 <= k < p.len() - 1 ==> view_edge(c, rt, it, #[trigger] p[k], p[k + 1])
}

/// Some walk from a first root ends at card `j`.
pub open spec fn view_reachable(c: Seq<Card>, rt: Seq<String>, it: Seq<String>, j: int) -> bool {
    exists|p: Seq<int>| view_walk(c, rt, it, p) && p.last() == j
}

/// A shown card that the first roots reach.
pub open spec fn reached(c: Seq<Card>, rt: Seq<String>, it: Seq<String>, i: int) -> bool {
    is_allowed(c, rt, it, i) && view_reachable(c, rt, it, i)
}

/// A view link between reached cards.
pub open spec fn reached_edge(c: Seq<Card>, rt: Seq<String>, it: Seq<String>, i: int, j: int) -> bool {
    view_edge(c, rt, it, i, j) && reached(c, rt, it, i) && reached(c, rt, it, j)
}

/// A card of the layout graph: reached, and of a root type or at an end of a reached link.
pub open spec fn kept(c: Seq<Card>, rt: Seq<String>, it: Seq<String>, i: int) -> bool {
    reached(c, rt, it, i) && (is_root(c, rt, it, i) || exists|j: int| reached_edge(c, rt, it, i, j) || reached_edge(c, rt, it, j, i))
}

/// A link of the layout graph.
pub open spec fn kept_edge(c: Seq<Card>, rt: Seq<String>, it: Seq<String>, i: int, j: int) -> bool {
    reached_edge(c, rt, it, i, j) && kept(c, rt, it, i) && kept(c, rt, it, j)
}

/// A root of the layout graph: a kept card that was a first root or that no kept link enters.
pub open spec fn kept_root(c: Seq<Card>, rt: Seq<String>, it: Seq<String>, i: int) -> bool {
    kept(c, rt, it, i) && (first_root(c, rt, it, i) || !exists|j: int| kept_edge(c, rt, it, j, i))
}

/// The first card at or after `k` whose id an earlier card already has.
pub open spec fn first_duplicate_from(c: Seq<Card>, k: int) -> Option<int>
    decreases c.len() - k,
{
    if k < 0 || k >= c.len() {
        None
    } else if exists|m: int| 0 <= m < k && c[m].id@ == c[k].id@ {
        Some(k)
    } else {
        first_duplicate_from(c, k + 1)
    }
}

/// A link of a shown card to an id no card has.
pub open spec fn dangling(c: Seq<Card>, rt: Seq<String>, it: Seq<String>, i: int, l: int) -> bool {
    &&& is_allowed(c, rt, it, i)
    &&& 0 <= l < c[i].links@.len()
    &&& forall|j: int| 0 <= j < c.len() ==> (#[trigger] c[j]).id@ != c[i].links@[l].target@
}

/// The first link at or after `l` of card `i` that is dangling.
pub open spec fn first_dangling_link(c: Seq<Card>, rt: Seq<String>, it: Seq<String>, i: int, l: int) -> Option<int>
    decreases c[i].links@.len() - l,
{
    if l < 0 || l >= c[i].links@.len() {
        None
    } else if dangling(c, rt, it, i, l) {
        Some(l)
    } else {
        first_dangling_link(c, rt, it, i, l + 1)
    }
}

/// The first dangling link (card, link) at or after card `i`.
pub open spec fn first_dangling(c: Seq<Card>, rt: Seq<String>, it: Seq<String>, i: int) -> Option<(int, int)>
    decreases c.len() - i,
{
    if i < 0 || i >= c.len() {
        None
    } else {
        match first_dangling_link(c, rt, it, i, 0) {
            Some(l) => Some((i, l)),
            None => first_dangling(c, rt, it, i + 1),
        }
    }
}

/// The graph a view lays out: its cards as a sorted id table, its roots and its links as
/// indices into the table.
pub struct LayoutGraph {
    pub table: IdTable,
    pub roots: Vec<usize>,
    pub edges: Vec<(usize, usize)>,
}

/// The card at position `i` of the model (the root card first).
fn card_at(model: &Model, i: usize) -> (r: &Card)
    requires
        i < model.all_cards().len(),
    ensures
        *r == model.all_cards()[i as int],
{
    if i == 0 {
        &model.root_card
    } else {
        &model.cards[i - 1]
    }
}

/// Whether some entry of `types` is `t`.
fn type_listed(types: &Vec<String>, t: &str) -> (r: bool)
    ensures
        r == has_type(types@, t@),
{
    let mut k: usize = 0;
    while k < types.len()
        invariant
            k <= types@.len(),
            forall|m: int| 0 <= m < k ==> (#[trigger] types@[m])@ != t@,
        decreases types@.len() - k,
    {
        if str_eq(types[k].as_str(), t) {
            return true;
        }
        k = k + 1;
    }
    false
}

/// A square matrix of flags.
pub open spec fn square(m: Seq<Vec<bool>>, n: int) -> bool {
    m.len() == n && forall|i: int| 0 <= i < n ==> (#[trigger] m[i])@.len() == n
}

/// Whether some card has id `s`.
fn card_with_id(model: &Model, s: &str) -> (r: Option<usize>)
    requires
        model.all_cards().len() <= usize::MAX,
    ensures
        match r {
            Some(j) => j < model.all_cards().len() && model.all_cards()[j as int].id@ == s@,
            None => forall|j: int| 0 <= j < model.all_cards().len() ==> (#[trigger] model.all_cards()[j]).id@ != s@,
        },
{
    let n = model.cards.len() + 1;
    let mut j: usize = 0;
    while j < n
        invariant
            n == model.all_cards().len(),
            j <= n,
            forall|m: int| 0 <= m < j ==> (#[trigger] model.all_cards()[m]).id@ != s@,
        decreases n - j,
    {
        if str_eq(card_at(model, j).id.as_str(), s) {
            return Some(j);
        }
        j = j + 1;
    }
    None
}

/// Whether card `i` links to card `j`.
fn links_exec(model: &Model, i: usize, j: usize) -> (r: bool)
    requires
        i < model.all_cards().len(),
        j < model.all_cards().len(),
    ensures
        r == links_card(model.all_cards(), i as int, j as int),
{
    let ci = card_at(model, i);
    let cj = card_at(model, j);
    let mut l: usize = 0;
    while l < ci.links.len()
        invariant
            *ci == model.all_cards()[i as int],
            *cj == model.all_cards()[j as int],
            l <= ci.links@.len(),
            forall|m: int| 0 <= m < l ==> (#[trigger] ci.links@[m]).target@ != cj.id@,
        decreases ci.links@.len() - l,
    {
        if str_eq(ci.links[l].target.as_str(), cj.id.as_str()) {
            return true;
        }
        l = l + 1;
    }
    false
}

/// Whether some flag in row `i` (or, with `column`, column `i`) of `m` is set.
fn any_in(m: &Vec<Vec<bool>>, n: usize, i: usize, column: bool) -> (r: bool)
    requires
        square(m@, n as int),
        i < n,
    ensures
        column ==> (r == exists|j: int| 0 <= j < n && #[trigger] m@[j]@[i as int]),
        !column ==> (r == exists|j: int| 0 <= j < n && #[trigger] m@[i as int]@[j]),
{
    let mut j: usize = 0;
    while j < n
        invariant
            square(m@, n as int),
            i < n,
            j <= n,
            column ==> forall|t: int| 0 <= t < j ==> !#[trigger] m@[t]@[i as int],
            !column ==> forall|t: int| 0 <= t < j ==> !#[trigger] m@[i as int]@[t],
        decreases n - j,
    {
        let hit = if column { m[j][i] } else { m[i][j] };
        if hit {
            return true;
        }
        j = j + 1;
    }
    false
}

/// For each `i`, whether some entry of row `i` (or, with `column`, of column `i`) is set.
fn any_flags(m: &Vec<Vec<bool>>, n: usize, column: bool) -> (r: Vec<bool>)
    requires
        square(m@, n as int),
    ensures
        r@.len() == n,
        column ==> forall|i: int| 0 <= i < n ==> #[trigger] r@[i] == exists|j: int| 0 <= j < n && m@[j]@[i],
        !column ==> forall|i: int| 0 <= i < n ==> #[trigger] r@[i] == exists|j: int| 0 <= j < n && m@[i]@[j],
{
    let mut r: Vec<bool> = Vec::new();
    let mut i: usize = 0;
    while i < n
        invariant
            square(m@, n as int),
            i <= n,
            r@.len() == i,
            column ==> forall|t: int| 0 <= t < i ==> #[trigger] r@[t] == exists|j: int| 0 <= j < n && m@[j]@[t],
            !column ==> forall|t: int| 0 <= t < i ==> #[trigger] r@[t] == exists|j: int| 0 <= j < n && m@[t]@[j],
        decreases n - i,
    {
        r.push(any_in(m, n, i, column));
        i = i + 1;
    }
    r
}

/// A card that is not shown has no dangling link.
proof fn lemma_hidden_not_dangling(c: Seq<Card>, rt: Seq<String>, it: Seq<String>, i: int, l: int)
    requires
        !is_allowed(c, rt, it, i),
    ensures
        first_dangling_link(c, rt, it, i, l) is None,
    decreases c[i].links@.len() - l,
{
    if 0 <= l < c[i].links@.len() {
        lemma_hidden_not_dangling(c, rt, it, i, l + 1);
    }
}

proof fn lemma_walk_marked(c: Seq<Card>, rt: Seq<String>, it: Seq<String>, marked: Seq<bool>, p: Seq<int>)
    requires
        view_walk(c, rt, it, p),
        marked.len() == c.len(),
        forall|v: int| 0 <= v < c.len() && first_root(c, rt, it, v) ==> #[trigger] marked[v],
        forall|a: int, b: int| 0 <= a < c.len() && 0 <= b < c.len() && #[trigger] marked[a] && view_edge(c, rt, it, a, b) ==> #[trigger] marked[b],
    ensures
        0 <= p.last() < c.len(),
        marked[p.last()],
    decreases p.len(),
{
    if p.len() > 1 {
        let q = p.drop_last();
        assert(view_walk(c, rt, it, q)) by {
            assert forall|k: int| 0 <= k < q.len() - 1 implies view_edge(c, rt, it, #[trigger] q[k], q[k + 1]) by {
                assert(q[k] == p[k] && q[k + 1] == p[k + 1]);
                assert(view_edge(c, rt, it, p[k], p[k + 1]));
            }
        }
        lemma_walk_marked(c, rt, it, marked, q);
        assert(view_edge(c, rt, it, p[p.len() - 2], p[p.len() - 1]));
    }
}

/// The layout graph of a view over the model: the cards of the root and included types,
/// with the model's links between them; the first roots are the cards of root types and the
/// cards no other shown card links to; cards the first roots do not reach are dropped, then
/// cards in no link unless of a root type; the roots are then the first roots kept and the
/// kept cards no kept link enters.
///
/// Fails on a duplicate card id (the first card repeating an earlier id), when no card has a
/// root type, and on a link of a shown card to an id no card has (the first such link).
pub fn build_graph(model: &Model, root_card_types: &Vec<String>, included_card_types: &Vec<String>) -> (r: Result<
    LayoutGraph,
    RenderError,
>)
    requires
        model.cards@.len() < 0x1000_0000,
    ensures
        ({
            let c = model.all_cards();
            let rt = root_card_types@;
            let it = included_card_types@;
            match first_duplicate_from(c, 0) {
                Some(k) => r matches Err(RenderError::DuplicateNodeId(id)) && id@ == c[k].id@,
                None => if !exists|i: int| is_root(c, rt, it, i) {
                    r == Err::<LayoutGraph, RenderError>(RenderError::MissingRoots)
                } else {
                    match first_dangling(c, rt, it, 0) {
                        Some((i, l)) => r matches Err(RenderError::UnknownTarget(a, b)) && a@ == c[i].id@ && b@
                            == c[i].links@[l].target@,
                        None => r matches Ok(g) && graph_of(g, c, rt, it),
                    }
                }
            }
        }),
{
    let ghost c = model.all_cards();
    let ghost rt = root_card_types@;
    let ghost it = included_card_types@;
    let n = model.cards.len() + 1;
    let mut k: usize = 0;
    while k < n
        invariant
            n == c.len(),
            c == model.all_cards(),
            k <= n,
            first_duplicate_from(c, 0) == first_duplicate_from(c, k as int),
        decreases n - k,
    {
        let ck = card_at(model, k);
        let mut m: usize = 0;
        while m < k
            invariant
                n == c.len(),
                c == model.all_cards(),
                k < n,
                m <= k,
                *ck == c[k as int],
                forall|t: int| 0 <= t < m ==> (#[trigger] c[t]).id@ != c[k as int].id@,
                first_duplicate_from(c, 0) == first_duplicate_from(c, k as int),
            decreases k - m,
        {
            if str_eq(card_at(model, m).id.as_str(), ck.id.as_str()) {
                proof {
                    assert(c[m as int].id@ == c[k as int].id@);
                }
                proof {
                    assert(exists|t: int| 0 <= t < k && c[t].id@ == c[k as int].id@);
                    assert(first_duplicate_from(c, k as int) == Some(k as int));
                }
                return Err(RenderError::DuplicateNodeId(ck.id.clone()));
            }
            m = m + 1;
        }
        k = k + 1;
    }
    proof {
        assert(first_duplicate_from(c, n as int) is None);
    }
    let mut root_f: Vec<bool> = Vec::new();
    let mut allowed_f: Vec<bool> = Vec::new();
    let mut any_root = false;
    let mut i: usize = 0;
    while i < n
        invariant
            n == c.len(),
            c == model.all_cards(),
            rt == root_card_types@,
            it == included_card_types@,
            i <= n,
            root_f@.len() == i,
            allowed_f@.len() == i,
            forall|t: int| 0 <= t < i ==> #[trigger] root_f@[t] == is_root(c, rt, it, t),
            forall|t: int| 0 <= t < i ==> #[trigger] allowed_f@[t] == is_allowed(c, rt, it, t),
            any_root == exists|t: int| 0 <= t < i && is_root(c, rt, it, t),
            first_duplicate_from(c, 0) is None,
        decreases n - i,
    {
        let ci = card_at(model, i);
        let r = type_listed(root_card_types, ci.card_type.as_str());
        let a = r || type_listed(included_card_types, ci.card_type.as_str());
        proof {
            if r {
                assert(is_root(c, rt, it, i as int));
            }
        }
        root_f.push(r);
        allowed_f.push(a);
        any_root = any_root || r;
        i = i + 1;
    }
    if !any_root {
        proof {
            assert(!exists|t: int| is_root(c, rt, it, t));
        }
        return Err(RenderError::MissingRoots);
    }
    proof {
        let t = choose|t: int| 0 <= t < n && is_root(c, rt, it, t);
    }
    let mut i: usize = 0;
    while i < n
        invariant
            n == c.len(),
            c == model.all_cards(),
            rt == root_card_types@,
            it == included_card_types@,
            i <= n,
            allowed_f@.len() == n,
            forall|t: int| 0 <= t < n ==> #[trigger] allowed_f@[t] == is_allowed(c, rt, it, t),
            first_dangling(c, rt, it, 0) == first_dangling(c, rt, it, i as int),
            first_duplicate_from(c, 0) is None,
            exists|t: int| is_root(c, rt, it, t),
            root_f@.len() == n,
            forall|t: int| 0 <= t < n ==> #[trigger] root_f@[t] == is_root(c, rt, it, t),
        decreases n - i,
    {
        if allowed_f[i] {
            let ci = card_at(model, i);
            let mut l: usize = 0;
            while l < ci.links.len()
                invariant
                    n == c.len(),
                    c == model.all_cards(),
                    i < n,
                    *ci == c[i as int],
                    is_allowed(c, rt, it, i as int),
                    l <= ci.links@.len(),
                    first_dangling_link(c, rt, it, i as int, 0) == first_dangling_link(c, rt, it, i as int, l as int),
                    first_dangling(c, rt, it, 0) == first_dangling(c, rt, it, i as int),
                    first_duplicate_from(c, 0) is None,
                    exists|t: int| is_root(c, rt, it, t),
                    rt == root_card_types@,
                    it == included_card_types@,
                decreases ci.links@.len() - l,
            {
                match card_with_id(model, ci.links[l].target.as_str()) {
                    None => {
                        proof {
                            assert(dangling(c, rt, it, i as int, l as int));
                            assert(first_dangling_link(c, rt, it, i as int, l as int) == Some(l as int));
                            assert(first_dangling(c, rt, it, i as int) == Some((i as int, l as int)));
                            assert(first_dangling(c, rt, it, 0) == Some((i as int, l as int)));
                        }
                        let id = ci.id.clone();
                        let target = ci.links[l].target.clone();
                        proof {
                            assert(id@ == c[i as int].id@);
                            assert(target@ == c[i as int].links@[l as int].target@);
                        }
                        return Err(RenderError::UnknownTarget(id, target));
                    },
                    Some(j) => {
                        proof {
                            assert(c[j as int].id@ == c[i as int].links@[l as int].target@);
                            assert(!dangling(c, rt, it, i as int, l as int));
                        }
                    },
                }
                l = l + 1;
            }
        } else {
            proof {
                lemma_hidden_not_dangling(c, rt, it, i as int, 0);
            }
        }
        i = i + 1;
    }
    proof {
        assert(first_dangling(c, rt, it, 0) is None);
    }
    Ok(build_graph_flags(model, root_f, allowed_f, Ghost(rt), Ghost(it)))
}

/// Pairs in strictly increasing lexicographic order.
pub open spec fn pairs_increasing(s: Seq<(usize, usize)>) -> bool {
    forall|a: int, b: int|
        0 <= a < b < s.len() ==> (#[trigger] s[a]).0 < (#[trigger] s[b]).0 || (s[a].0 == s[b].0 && s[a].1 < s[b].1)
}

/// `g` is the layout graph of the cards under the view's types; see [`build_graph`].
pub open spec fn graph_of(g: LayoutGraph, c: Seq<Card>, rt: Seq<String>, it: Seq<String>) -> bool {
    let views = g.table.views();
    &&& g.table.wf()
    &&& forall|s: Seq<char>| #[trigger] views.contains(s) <==> exists|i: int| kept(c, rt, it, i) && c[i].id@ == s
    &&& forall|k: int| 0 <= k < g.roots@.len() ==> (#[trigger] g.roots@[k] as int) < views.len()
    &&& forall|a: int, b: int| 0 <= a < b < g.roots@.len() ==> #[trigger] g.roots@[a] < #[trigger] g.roots@[b]
    &&& forall|x: int|
        0 <= x < views.len() ==> #[trigger] g.roots@.contains(x as usize) == (exists|i: int|
            kept_root(c, rt, it, i) && c[i].id@ == views[x])
    &&& pairs_increasing(g.edges@)
    &&& forall|e: (usize, usize)|
        #[trigger] g.edges@.contains(e) <==> ((e.0 as int) < views.len() && (e.1 as int) < views.len() && exists|i: int, j: int|
            kept_edge(c, rt, it, i, j) && c[i].id@ == views[e.0 as int] && c[j].id@ == views[e.1 as int])
}

proof fn lemma_unique_ids(c: Seq<Card>, k: int)
    requires
        0 <= k,
        first_duplicate_from(c, k) is None,
        forall|a: int, b: int| 0 <= a < b < k ==> c[a].id@ != c[b].id@,
    ensures
        forall|a: int, b: int| 0 <= a < b < c.len() ==> c[a].id@ != c[b].id@,
    decreases c.len() - k,
{
    if k < c.len() {
        assert(!exists|m: int| 0 <= m < k && c[m].id@ == c[k].id@);
        assert forall|a: int, b: int| 0 <= a < b < k + 1 implies c[a].id@ != c[b].id@ by {
            if b == k {
                assert(!(0 <= a < k && c[a].id@ == c[k].id@));
            }
        }
        lemma_unique_ids(c, k + 1);
    }
}

/// The links matrix: entry `(i, j)` tells whether card `i` links to card `j`.
fn links_matrix(model: &Model) -> (m: Vec<Vec<bool>>)
    requires
        model.cards@.len() < 0x1000_0000,
    ensures
        square(m@, model.all_cards().len() as int),
        forall|i: int, j: int|
            0 <= i < model.all_cards().len() && 0 <= j < model.all_cards().len() ==> #[trigger] m@[i]@[j] == links_card(
                model.all_cards(),
                i,
                j,
            ),
{
    let n = model.cards.len() + 1;
    let mut m: Vec<Vec<bool>> = Vec::new();
    let mut i: usize = 0;
    while i < n
        invariant
            n == model.all_cards().len(),
            i <= n,
            m@.len() == i,
            forall|t: int| 0 <= t < i ==> (#[trigger] m@[t])@.len() == n,
            forall|a: int, b: int| 0 <= a < i && 0 <= b < n ==> #[trigger] m@[a]@[b] == links_card(model.all_cards(), a, b),
        decreases n - i,
    {
        let mut row: Vec<bool> = Vec::new();
        let mut j: usize = 0;
        while j < n
            invariant
                n == model.all_cards().len(),
                i < n,
                j <= n,
                row@.len() == j,
                forall|b: int| 0 <= b < j ==> #[trigger] row@[b] == links_card(model.all_cards(), i as int, b),
            decreases n - j,
        {
            row.push(links_exec(model, i, j));
            j = j + 1;
        }
        m.push(row);
        i = i + 1;
    }
    m
}

/// The matrix with entry `(i, j)` set when it is set in `m` and `row[i]` and `col[j]` hold.
fn and_matrix(m: &Vec<Vec<bool>>, row: &Vec<bool>, col: &Vec<bool>, n: usize) -> (r: Vec<Vec<bool>>)
    requires
        square(m@, n as int),
        row@.len() == n,
        col@.len() == n,
    ensures
        square(r@, n as int),
        forall|i: int, j: int| 0 <= i < n && 0 <= j < n ==> #[trigger] r@[i]@[j] == (m@[i]@[j] && row@[i] && col@[j]),
{
    let mut r: Vec<Vec<bool>> = Vec::new();
    let mut i: usize = 0;
    while i < n
        invariant
            square(m@, n as int),
            row@.len() == n,
            col@.len() == n,
            i <= n,
            r@.len() == i,
            forall|t: int| 0 <= t < i ==> (#[trigger] r@[t])@.len() == n,
            forall|a: int, b: int| 0 <= a < i && 0 <= b < n ==> #[trigger] r@[a]@[b] == (m@[a]@[b] && row@[a] && col@[b]),
        decreases n - i,
    {
        let mut out: Vec<bool> = Vec::new();
        let mut j: usize = 0;
        while j < n
            invariant
                square(m@, n as int),
                row@.len() == n,
                col@.len() == n,
                i < n,
                j <= n,
                out@.len() == j,
                forall|b: int| 0 <= b < j ==> #[trigger] out@[b] == (m@[i as int]@[b] && row@[i as int] && col@[b]),
            decreases n - j,
        {
            out.push(m[i][j] && row[i] && col[j]);
            j = j + 1;
        }
        r.push(out);
        i = i + 1;
    }
    r
}

/// The cards that the first roots reach along view links.
fn reach_flags(
    e: &Vec<Vec<bool>>,
    start: &Vec<bool>,
    n: usize,
    c: Ghost<Seq<Card>>,
    rt: Ghost<Seq<String>>,
    it: Ghost<Seq<String>>,
) -> (r: Vec<bool>)
    requires
        n == c@.len(),
        square(e@, n as int),
        start@.len() == n,
        forall|i: int, j: int| 0 <= i < n && 0 <= j < n ==> #[trigger] e@[i]@[j] == view_edge(c@, rt@, it@, i, j),
        forall|i: int| 0 <= i < n ==> #[trigger] start@[i] == first_root(c@, rt@, it@, i),
    ensures
        r@.len() == n,
        forall|v: int| 0 <= v < n ==> #[trigger] r@[v] == view_reachable(c@, rt@, it@, v),
{
    let mut marked: Vec<bool> = Vec::new();
    let mut i: usize = 0;
    while i < n
        invariant
            n == c@.len(),
            start@.len() == n,
            i <= n,
            marked@.len() == i,
            forall|t: int| 0 <= t < i ==> #[trigger] marked@[t] == start@[t],
        decreases n - i,
    {
        marked.push(start[i]);
        i = i + 1;
    }
    let ghost mut set: Set<int> = Set::new(|v: int| 0 <= v < n && start@[v]);
    proof {
        assert(set.subset_of(vstd::set_lib::set_int_range(0, n as int)));
        vstd::set_lib::lemma_int_range(0, n as int);
        vstd::set_lib::lemma_len_subset(set, vstd::set_lib::set_int_range(0, n as int));
        assert forall|v: int| 0 <= v < n && #[trigger] marked@[v] implies view_reachable(c@, rt@, it@, v) by {
            let p = seq![v];
            assert(first_root(c@, rt@, it@, v));
            assert(p[0] == v);
            assert(view_walk(c@, rt@, it@, p));
            assert(p.last() == v);
        }
    }
    let mut changed = true;
    while changed
        invariant
            n == c@.len(),
            square(e@, n as int),
            start@.len() == n,
            marked@.len() == n,
            forall|i: int, j: int| 0 <= i < n && 0 <= j < n ==> #[trigger] e@[i]@[j] == view_edge(c@, rt@, it@, i, j),
            forall|v: int| 0 <= v < n ==> (#[trigger] marked@[v] <==> set.contains(v)),
            forall|v: int| #[trigger] set.contains(v) ==> 0 <= v < n,
            set.finite(),
            set.len() <= n,
            forall|v: int| 0 <= v < n && first_root(c@, rt@, it@, v) ==> #[trigger] marked@[v],
            forall|v: int| 0 <= v < n && #[trigger] marked@[v] ==> view_reachable(c@, rt@, it@, v),
            !changed ==> forall|a: int, b: int| 0 <= a < n && 0 <= b < n && #[trigger] marked@[a] && #[trigger] e@[a]@[b] ==> marked@[b],
        decreases 2 * (n - set.len()) + if changed { 1int } else { 0int },
    {
        changed = false;
        let ghost len0 = set.len();
        let mut a: usize = 0;
        while a < n
            invariant
                n == c@.len(),
                square(e@, n as int),
                marked@.len() == n,
                forall|i: int, j: int| 0 <= i < n && 0 <= j < n ==> #[trigger] e@[i]@[j] == view_edge(c@, rt@, it@, i, j),
                forall|v: int| 0 <= v < n ==> (#[trigger] marked@[v] <==> set.contains(v)),
                forall|v: int| #[trigger] set.contains(v) ==> 0 <= v < n,
                set.finite(),
                set.len() <= n,
                set.len() >= len0,
                changed ==> set.len() > len0,
                forall|v: int| 0 <= v < n && first_root(c@, rt@, it@, v) ==> #[trigger] marked@[v],
                forall|v: int| 0 <= v < n && #[trigger] marked@[v] ==> view_reachable(c@, rt@, it@, v),
                a <= n,
                !changed ==> forall|x: int, y: int| 0 <= x < a && 0 <= y < n && #[trigger] marked@[x] && #[trigger] e@[x]@[y] ==> marked@[y],
            decreases n - a,
        {
            let mut b: usize = 0;
            while b < n
                invariant
                    n == c@.len(),
                    square(e@, n as int),
                    marked@.len() == n,
                    forall|i: int, j: int| 0 <= i < n && 0 <= j < n ==> #[trigger] e@[i]@[j] == view_edge(c@, rt@, it@, i, j),
                    forall|v: int| 0 <= v < n ==> (#[trigger] marked@[v] <==> set.contains(v)),
                    forall|v: int| #[trigger] set.contains(v) ==> 0 <= v < n,
                    set.finite(),
                    set.len() <= n,
                    set.len() >= len0,
                    changed ==> set.len() > len0,
                    forall|v: int| 0 <= v < n && first_root(c@, rt@, it@, v) ==> #[trigger] marked@[v],
                    forall|v: int| 0 <= v < n && #[trigger] marked@[v] ==> view_reachable(c@, rt@, it@, v),
                    a < n,
                    b <= n,
                    !changed ==> forall|x: int, y: int| 0 <= x < a && 0 <= y < n && #[trigger] marked@[x] && #[trigger] e@[x]@[y] ==> marked@[y],
                    !changed ==> forall|y: int| 0 <= y < b && marked@[a as int] && #[trigger] e@[a as int]@[y] ==> marked@[y],
                decreases n - b,
            {
                if marked[a] && e[a][b] && !marked[b] {
                    proof {
                        assert(view_reachable(c@, rt@, it@, a as int));
                        let p = choose|p: Seq<int>| view_walk(c@, rt@, it@, p) && p.last() == a as int;
                        let q = p.push(b as int);
                        assert(view_edge(c@, rt@, it@, a as int, b as int));
                        assert(view_walk(c@, rt@, it@, q)) by {
                            assert forall|k: int| 0 <= k < q.len() - 1 implies view_edge(c@, rt@, it@, #[trigger] q[k], q[k + 1]) by {
                                if k < p.len() - 1 {
                                    assert(q[k] == p[k] && q[k + 1] == p[k + 1]);
                                }
                            }
                        }
                        assert(q.last() == b as int);
                        assert(!set.contains(b as int));
                        set = set.insert(b as int);
                        vstd::set_lib::lemma_int_range(0, n as int);
                        assert(set.subset_of(vstd::set_lib::set_int_range(0, n as int)));
                        vstd::set_lib::lemma_len_subset(set, vstd::set_lib::set_int_range(0, n as int));
                    }
                    marked.set(b, true);
                    changed = true;
                }
                b = b + 1;
            }
            a = a + 1;
        }
    }
    proof {
        assert forall|v: int| 0 <= v < n implies #[trigger] marked@[v] == view_reachable(c@, rt@, it@, v) by {
            if view_reachable(c@, rt@, it@, v) {
                let p = choose|p: Seq<int>| view_walk(c@, rt@, it@, p) && p.last() == v;
                assert forall|a: int, b: int|
                    0 <= a < c@.len() && 0 <= b < c@.len() && #[trigger] marked@[a] && view_edge(c@, rt@, it@, a, b) implies #[trigger] marked@[b] by {
                    assert(e@[a]@[b]);
                }
                lemma_walk_marked(c@, rt@, it@, marked@, p);
            }
        }
    }
    marked
}

/// The layout graph once the checks passed: flags of root types and shown types per card.
fn build_graph_flags(
    model: &Model,
    root_f: Vec<bool>,
    allowed_f: Vec<bool>,
    rt: Ghost<Seq<String>>,
    it: Ghost<Seq<String>>,
) -> (g: LayoutGraph)
    requires
        model.cards@.len() < 0x1000_0000,
        first_duplicate_from(model.all_cards(), 0) is None,
        root_f@.len() == model.all_cards().len(),
        allowed_f@.len() == model.all_cards().len(),
        forall|t: int| 0 <= t < root_f@.len() ==> #[trigger] root_f@[t] == is_root(model.all_cards(), rt@, it@, t),
        forall|t: int| 0 <= t < allowed_f@.len() ==> #[trigger] allowed_f@[t] == is_allowed(model.all_cards(), rt@, it@, t),
    ensures
        graph_of(g, model.all_cards(), rt@, it@),
{
    let ghost c = model.all_cards();
    let ghost rt = rt@;
    let ghost it = it@;
    proof {
        lemma_unique_ids(c, 0);
    }
    let n = model.cards.len() + 1;
    let lm = links_matrix(model);
    let e0 = and_matrix(&lm, &allowed_f, &allowed_f, n);
    proof {
        assert forall|i: int, j: int| 0 <= i < n && 0 <= j < n implies #[trigger] e0@[i]@[j] == view_edge(c, rt, it, i, j) by {}
    }
    let in0 = any_flags(&e0, n, true);
    let mut start: Vec<bool> = Vec::new();
    let mut i: usize = 0;
    while i < n
        invariant
            n == c.len(),
            i <= n,
            root_f@.len() == n,
            allowed_f@.len() == n,
            in0@.len() == n,
            square(e0@, n as int),
            forall|t: int| 0 <= t < n ==> #[trigger] root_f@[t] == is_root(c, rt, it, t),
            forall|t: int| 0 <= t < n ==> #[trigger] allowed_f@[t] == is_allowed(c, rt, it, t),
            forall|a: int, b: int| 0 <= a < n && 0 <= b < n ==> #[trigger] e0@[a]@[b] == view_edge(c, rt, it, a, b),
            forall|t: int| 0 <= t < n ==> #[trigger] in0@[t] == exists|j: int| 0 <= j < n && e0@[j]@[t],
            start@.len() == i,
            forall|t: int| 0 <= t < i ==> #[trigger] start@[t] == first_root(c, rt, it, t),
        decreases n - i,
    {
        proof {
            if has_view_incoming(c, rt, it, i as int) {
                let j = choose|j: int| view_edge(c, rt, it, j, i as int);
                assert(e0@[j]@[i as int]);
            }
            if in0@[i as int] {
                let j = choose|j: int| 0 <= j < n && e0@[j]@[i as int];
                assert(view_edge(c, rt, it, j, i as int));
            }
        }
        start.push(root_f[i] || (allowed_f[i] && !in0[i]));
        i = i + 1;
    }
    let reach = reach_flags(&e0, &start, n, Ghost(c), Ghost(rt), Ghost(it));
    let mut a2: Vec<bool> = Vec::new();
    let mut i: usize = 0;
    while i < n
        invariant
            n == c.len(),
            i <= n,
            allowed_f@.len() == n,
            reach@.len() == n,
            forall|t: int| 0 <= t < n ==> #[trigger] allowed_f@[t] == is_allowed(c, rt, it, t),
            forall|t: int| 0 <= t < n ==> #[trigger] reach@[t] == view_reachable(c, rt, it, t),
            a2@.len() == i,
            forall|t: int| 0 <= t < i ==> #[trigger] a2@[t] == reached(c, rt, it, t),
        decreases n - i,
    {
        a2.push(allowed_f[i] && reach[i]);
        i = i + 1;
    }
    let e2 = and_matrix(&e0, &a2, &a2, n);
    let out2 = any_flags(&e2, n, false);
    let in2 = any_flags(&e2, n, true);
    let mut a3: Vec<bool> = Vec::new();
    let mut i: usize = 0;
    while i < n
        invariant
            n == c.len(),
            i <= n,
            root_f@.len() == n,
            a2@.len() == n,
            out2@.len() == n,
            in2@.len() == n,
            square(e2@, n as int),
            forall|t: int| 0 <= t < n ==> #[trigger] root_f@[t] == is_root(c, rt, it, t),
            forall|t: int| 0 <= t < n ==> #[trigger] a2@[t] == reached(c, rt, it, t),
            forall|a: int, b: int| 0 <= a < n && 0 <= b < n ==> #[trigger] e2@[a]@[b] == reached_edge(c, rt, it, a, b),
            forall|t: int| 0 <= t < n ==> #[trigger] out2@[t] == exists|j: int| 0 <= j < n && e2@[t]@[j],
            forall|t: int| 0 <= t < n ==> #[trigger] in2@[t] == exists|j: int| 0 <= j < n && e2@[j]@[t],
            a3@.len() == i,
            forall|t: int| 0 <= t < i ==> #[trigger] a3@[t] == kept(c, rt, it, t),
        decreases n - i,
    {
        proof {
            let x = i as int;
            if exists|j: int| reached_edge(c, rt, it, x, j) || reached_edge(c, rt, it, j, x) {
                let j = choose|j: int| reached_edge(c, rt, it, x, j) || reached_edge(c, rt, it, j, x);
                if reached_edge(c, rt, it, x, j) {
                    assert(e2@[x]@[j]);
                } else {
                    assert(e2@[j]@[x]);
                }
            }
            if out2@[x] {
                let j = choose|j: int| 0 <= j < n && e2@[x]@[j];
                assert(reached_edge(c, rt, it, x, j));
            }
            if in2@[x] {
                let j = choose|j: int| 0 <= j < n && e2@[j]@[x];
                assert(reached_edge(c, rt, it, j, x));
            }
        }
        a3.push(a2[i] && (root_f[i] || out2[i] || in2[i]));
        i = i + 1;
    }
    let e3 = and_matrix(&e2, &a3, &a3, n);
    let in3 = any_flags(&e3, n, true);
    let mut kr: Vec<bool> = Vec::new();
    let mut ids: Vec<String> = Vec::new();
    let mut i: usize = 0;
    while i < n
        invariant
            n == c.len(),
            c == model.all_cards(),
            i <= n,
            start@.len() == n,
            a3@.len() == n,
            in3@.len() == n,
            square(e3@, n as int),
            forall|t: int| 0 <= t < n ==> #[trigger] start@[t] == first_root(c, rt, it, t),
            forall|t: int| 0 <= t < n ==> #[trigger] a3@[t] == kept(c, rt, it, t),
            forall|a: int, b: int| 0 <= a < n && 0 <= b < n ==> #[trigger] e3@[a]@[b] == kept_edge(c, rt, it, a, b),
            forall|t: int| 0 <= t < n ==> #[trigger] in3@[t] == exists|j: int| 0 <= j < n && e3@[j]@[t],
            kr@.len() == i,
            forall|t: int| 0 <= t < i ==> #[trigger] kr@[t] == kept_root(c, rt, it, t),
            forall|s: Seq<char>| id_views(ids@).contains(s) <==> exists|t: int| 0 <= t < i && kept(c, rt, it, t) && c[t].id@ == s,
        decreases n - i,
    {
        proof {
            let x = i as int;
            if exists|j: int| kept_edge(c, rt, it, j, x) {
                let j = choose|j: int| kept_edge(c, rt, it, j, x);
                assert(e3@[j]@[x]);
            }
            if in3@[x] {
                let j = choose|j: int| 0 <= j < n && e3@[j]@[x];
                assert(kept_edge(c, rt, it, j, x));
            }
        }
        kr.push(a3[i] && (start[i] || !in3[i]));
        let ghost before = ids@;
        if a3[i] {
            ids.push(card_at(model, i).id.clone());
        }
        proof {
            assert forall|s: Seq<char>| id_views(ids@).contains(s) <==> exists|t: int|
                0 <= t < i + 1 && kept(c, rt, it, t) && c[t].id@ == s by {
                if id_views(ids@).contains(s) {
                    let q = choose|q: int| 0 <= q < id_views(ids@).len() && id_views(ids@)[q] == s;
                    if q < before.len() {
                        assert(id_views(before)[q] == s);
                        assert(id_views(before).contains(s));
                    }
                }
                if exists|t: int| 0 <= t < i + 1 && kept(c, rt, it, t) && c[t].id@ == s {
                    let t = choose|t: int| 0 <= t < i + 1 && kept(c, rt, it, t) && c[t].id@ == s;
                    if t < i {
                        assert(id_views(before).contains(s));
                        let q = choose|q: int| 0 <= q < id_views(before).len() && id_views(before)[q] == s;
                        assert(id_views(ids@)[q] == s);
                    } else {
                        assert(id_views(ids@)[ids@.len() - 1] == s);
                    }
                }
            }
        }
        i = i + 1;
    }
    let table = IdTable::new(&ids);
    let m = table.ids.len();
    let mut card_of: Vec<usize> = Vec::new();
    let mut k: usize = 0;
    while k < m
        invariant
            n == c.len(),
            c == model.all_cards(),
            model.cards@.len() < 0x1000_0000,
            m == table.ids@.len(),
            k <= m,
            forall|s: Seq<char>| table.views().contains(s) <==> exists|t: int| 0 <= t < n && kept(c, rt, it, t) && c[t].id@ == s,
            forall|a: int, b: int| 0 <= a < b < c.len() ==> c[a].id@ != c[b].id@,
            card_of@.len() == k,
            forall|q: int| 0 <= q < k ==> (#[trigger] card_of@[q]) < n && c[card_of@[q] as int].id@ == table.ids@[q]@ && kept(
                c,
                rt,
                it,
                card_of@[q] as int,
            ),
        decreases m - k,
    {
        proof {
            assert(table.views()[k as int] == table.ids@[k as int]@);
            assert(table.views().contains(table.ids@[k as int]@));
        }
        match card_with_id(model, table.ids[k].as_str()) {
            Some(j) => {
                proof {
                    let t = choose|t: int| 0 <= t < n && kept(c, rt, it, t) && c[t].id@ == table.ids@[k as int]@;
                    if t != j {
                        if t < j {
                            assert(c[t].id@ != c[j as int].id@);
                        } else {
                            assert(c[j as int].id@ != c[t].id@);
                        }
                    }
                }
                card_of.push(j);
            },
            None => {
                proof {
                    let t = choose|t: int| 0 <= t < n && kept(c, rt, it, t) && c[t].id@ == table.ids@[k as int]@;
                    assert(c[t].id@ != table.ids@[k as int]@);
                }
                card_of.push(0);
            },
        }
        k = k + 1;
    }
    let mut roots: Vec<usize> = Vec::new();
    let mut k: usize = 0;
    while k < m
        invariant
            n == c.len(),
            m == table.ids@.len(),
            k <= m,
            kr@.len() == n,
            forall|t: int| 0 <= t < n ==> #[trigger] kr@[t] == kept_root(c, rt, it, t),
            card_of@.len() == m,
            forall|q: int| 0 <= q < m ==> (#[trigger] card_of@[q]) < n && c[card_of@[q] as int].id@ == table.ids@[q]@ && kept(
                c,
                rt,
                it,
                card_of@[q] as int,
            ),
            forall|a: int, b: int| 0 <= a < b < c.len() ==> c[a].id@ != c[b].id@,
            forall|s: Seq<char>| table.views().contains(s) <==> exists|t: int| 0 <= t < n && kept(c, rt, it, t) && c[t].id@ == s,
            table.wf(),
            forall|q: int| 0 <= q < roots@.len() ==> (#[trigger] roots@[q]) < k,
            forall|a: int, b: int| 0 <= a < b < roots@.len() ==> #[trigger] roots@[a] < #[trigger] roots@[b],
            forall|x: int| 0 <= x < k ==> (roots@.contains(x as usize) <==> #[trigger] kr@[card_of@[x] as int]),
        decreases m - k,
    {
        let ghost before = roots@;
        if kr[card_of[k]] {
            roots.push(k);
        }
        proof {
            assert forall|x: int| 0 <= x < k + 1 implies (roots@.contains(x as usize) <==> #[trigger] kr@[card_of@[x] as int]) by {
                if x < k {
                    if before.contains(x as usize) {
                        let q = choose|q: int| 0 <= q < before.len() && before[q] == x as usize;
                        assert(roots@[q] == x as usize);
                    }
                    if roots@.contains(x as usize) {
                        let q = choose|q: int| 0 <= q < roots@.len() && roots@[q] == x as usize;
                        if q < before.len() {
                            assert(before[q] == x as usize);
                        }
                    }
                } else {
                    if roots@.contains(x as usize) {
                        let q = choose|q: int| 0 <= q < roots@.len() && roots@[q] == x as usize;
                        if q < before.len() {
                            assert(before[q] < k);
                        }
                    }
                    if kr@[card_of@[x] as int] {
                        assert(roots@[roots@.len() - 1] == x as usize);
                    }
                }
            }
        }
        k = k + 1;
    }
    let mut edges: Vec<(usize, usize)> = Vec::new();
    let mut a: usize = 0;
    while a < m
        invariant
            n == c.len(),
            m == table.ids@.len(),
            a <= m,
            square(e3@, n as int),
            card_of@.len() == m,
            forall|q: int| 0 <= q < m ==> (#[trigger] card_of@[q]) < n && c[card_of@[q] as int].id@ == table.ids@[q]@ && kept(
                c,
                rt,
                it,
                card_of@[q] as int,
            ),
            forall|a: int, b: int| 0 <= a < b < c.len() ==> c[a].id@ != c[b].id@,
            forall|s: Seq<char>| table.views().contains(s) <==> exists|t: int| 0 <= t < n && kept(c, rt, it, t) && c[t].id@ == s,
            table.wf(),
            pairs_increasing(edges@),
            forall|q: int| 0 <= q < edges@.len() ==> (#[trigger] edges@[q]).0 < a && edges@[q].1 < m,
            forall|q: int| 0 <= q < roots@.len() ==> (#[trigger] roots@[q]) < m,
            forall|x: int, y: int| 0 <= x < y < roots@.len() ==> #[trigger] roots@[x] < #[trigger] roots@[y],
            forall|x: int| 0 <= x < m ==> (roots@.contains(x as usize) <==> #[trigger] kr@[card_of@[x] as int]),
            kr@.len() == n,
            forall|t: int| 0 <= t < n ==> #[trigger] kr@[t] == kept_root(c, rt, it, t),
            forall|x: int, y: int| 0 <= x < n && 0 <= y < n ==> #[trigger] e3@[x]@[y] == kept_edge(c, rt, it, x, y),
            forall|e: (usize, usize)|
                #[trigger] edges@.contains(e) <==> ((e.0 as int) < a && (e.1 as int) < m && e3@[card_of@[e.0 as int] as int]@[card_of@[e.1 as int] as int]),
        decreases m - a,
    {
        let mut b: usize = 0;
        while b < m
            invariant
                n == c.len(),
                m == table.ids@.len(),
                a < m,
                b <= m,
                square(e3@, n as int),
                card_of@.len() == m,
                forall|q: int| 0 <= q < m ==> (#[trigger] card_of@[q]) < n,
                pairs_increasing(edges@),
                forall|q: int| 0 <= q < edges@.len() ==> (#[trigger] edges@[q]).0 <= a && edges@[q].1 < m && (edges@[q].0 == a ==> edges@[q].1 < b),
                forall|e: (usize, usize)|
                    #[trigger] edges@.contains(e) <==> (((e.0 as int) < a || (e.0 == a && (e.1 as int) < b)) && (e.1 as int) < m
                        && e3@[card_of@[e.0 as int] as int]@[card_of@[e.1 as int] as int]),
            decreases m - b,
        {
            let ghost before = edges@;
            if e3[card_of[a]][card_of[b]] {
                edges.push((a, b));
            }
            proof {
                assert forall|x: int, y: int| 0 <= x < y < edges@.len() implies (#[trigger] edges@[x]).0 < (#[trigger] edges@[y]).0 || (
                edges@[x].0 == edges@[y].0 && edges@[x].1 < edges@[y].1) by {
                    if y == before.len() {
                        assert(edges@[x] == before[x]);
                    }
                }
                assert forall|e: (usize, usize)| #[trigger] edges@.contains(e) <==> (((e.0 as int) < a || (e.0 == a && (e.1 as int)
                    < b + 1)) && (e.1 as int) < m && e3@[card_of@[e.0 as int] as int]@[card_of@[e.1 as int] as int]) by {
                    if edges@.contains(e) {
                        let q = choose|q: int| 0 <= q < edges@.len() && edges@[q] == e;
                        if q < before.len() {
                            assert(before.contains(e));
                        }
                    }
                    if before.contains(e) {
                        let q = choose|q: int| 0 <= q < before.len() && before[q] == e;
                        assert(edges@[q] == e);
                    }
                    if e == (a, b) && e3@[card_of@[a as int] as int]@[card_of@[b as int] as int] {
                        assert(edges@[edges@.len() - 1] == e);
                    }
                }
            }
            b = b + 1;
        }
        a = a + 1;
    }
    let g = LayoutGraph { table, roots, edges };
    proof {
        let views = g.table.views();
        assert forall|x: int| 0 <= x < views.len() implies #[trigger] g.roots@.contains(x as usize) == (exists|i: int|
            kept_root(c, rt, it, i) && c[i].id@ == views[x]) by {
            let j = card_of@[x] as int;
            assert(views[x] == g.table.ids@[x]@);
            assert(0 <= j < n && c[j].id@ == g.table.ids@[x]@);
            assert(g.roots@.contains(x as usize) <==> kr@[card_of@[x] as int]);
            assert(kr@[j] == kept_root(c, rt, it, j));
            if exists|i: int| kept_root(c, rt, it, i) && c[i].id@ == views[x] {
                let i = choose|i: int| kept_root(c, rt, it, i) && c[i].id@ == views[x];
                if i != j {
                    if i < j {
                        assert(c[i].id@ != c[j].id@);
                    } else {
                        assert(c[j].id@ != c[i].id@);
                    }
                }
                assert(kr@[j]);
            }
            if g.roots@.contains(x as usize) {
                assert(kept_root(c, rt, it, j) && c[j].id@ == views[x]);
            }
        }
        assert forall|e: (usize, usize)| #[trigger] g.edges@.contains(e) <==> ((e.0 as int) < views.len() && (e.1 as int)
            < views.len() && exists|i: int, j: int|
            kept_edge(c, rt, it, i, j) && c[i].id@ == views[e.0 as int] && c[j].id@ == views[e.1 as int]) by {
            if (e.0 as int) < views.len() && (e.1 as int) < views.len() {
                let ca = card_of@[e.0 as int] as int;
                let cb = card_of@[e.1 as int] as int;
                assert(views[e.0 as int] == g.table.ids@[e.0 as int]@);
                assert(views[e.1 as int] == g.table.ids@[e.1 as int]@);
                if exists|i: int, j: int| kept_edge(c, rt, it, i, j) && c[i].id@ == views[e.0 as int] && c[j].id@ == views[e.1 as int] {
                    let (i, j) = choose|i: int, j: int|
                        kept_edge(c, rt, it, i, j) && c[i].id@ == views[e.0 as int] && c[j].id@ == views[e.1 as int];
                    if i != ca {
                        if i < ca {
                            assert(c[i].id@ != c[ca].id@);
                        } else {
                            assert(c[ca].id@ != c[i].id@);
                        }
                    }
                    if j != cb {
                        if j < cb {
                            assert(c[j].id@ != c[cb].id@);
                        } else {
                            assert(c[cb].id@ != c[j].id@);
                        }
                    }
                }
            }
        }
    }
    g
}

/// Step `k` of `p` follows a link of the layout graph.
pub open spec fn graph_step(g: LayoutGraph, p: Seq<int>, k: int) -> bool {
    g.edges@.contains((p[k] as usize, p[k + 1] as usize)) && 0 <= p[k + 1] < g.table.ids@.len()
}

/// A walk of the layout graph from one of its roots.
pub open spec fn graph_walk(g: LayoutGraph, p: Seq<int>) -> bool {
    &&& p.len() > 0
    &&& g.roots@.contains(p[0] as usize)
    &&& 0 <= p[0] < g.table.ids@.len()
    &&& forall|k: int| 0 <= k < p.len() - 1 ==> #[trigger] graph_step(g, p, k)
}

/// Node `v` of the layout graph is reached from its roots.
pub open spec fn graph_reachable(g: LayoutGraph, v: int) -> bool {
    exists|p: Seq<int>| graph_walk(g, p) && p.last() == v
}

/// Node `v` is neither a root nor entered by a link.
pub open spec fn orphan(g: LayoutGraph, v: int) -> bool {
    !g.roots@.contains(v as usize) && !exists|a: usize| #[trigger] g.edges@.contains((a, v as usize))
}

/// The first orphan at or after `v`.
pub open spec fn first_orphan(g: LayoutGraph, v: int) -> Option<int>
    decreases g.table.ids@.len() - v,
{
    if v < 0 || v >= g.table.ids@.len() {
        None
    } else if orphan(g, v) {
        Some(v)
    } else {
        first_orphan(g, v + 1)
    }
}

/// The ids of the nodes before `v` that the roots do not reach, in order.
pub open spec fn unreached_ids(g: LayoutGraph, v: int) -> Seq<Seq<char>>
    decreases v,
{
    if v <= 0 || v > g.table.ids@.len() {
        Seq::empty()
    } else {
        unreached_ids(g, v - 1) + if graph_reachable(g, v - 1) {
            Seq::empty()
        } else {
            seq![g.table.ids@[v - 1]@]
        }
    }
}

proof fn lemma_graph_walk_marked(g: LayoutGraph, marked: Seq<bool>, p: Seq<int>)
    requires
        graph_walk(g, p),
        marked.len() == g.table.ids@.len(),
        forall|v: int| 0 <= v < marked.len() && g.roots@.contains(v as usize) ==> #[trigger] marked[v],
        forall|a: int, b: int|
            0 <= a < marked.len() && 0 <= b < marked.len() && #[trigger] marked[a] && g.edges@.contains((a as usize, b as usize)) ==> #[trigger] marked[b],
    ensures
        0 <= p.last() < marked.len(),
        marked[p.last()],
    decreases p.len(),
{
    if p.len() > 1 {
        let q = p.drop_last();
        assert(graph_walk(g, q)) by {
            assert forall|k: int| 0 <= k < q.len() - 1 implies #[trigger] graph_step(g, q, k) by {
                assert(q[k] == p[k] && q[k + 1] == p[k + 1]);
                assert(graph_step(g, p, k));
            }
        }
        lemma_graph_walk_marked(g, marked, q);
        let k = p.len() - 2;
        assert(graph_step(g, p, k));
        assert(q.last() == p[k]);
        assert(p[k + 1] == p.last());
    }
}

/// The nodes of the layout graph that its roots reach along its links.
fn graph_reach_flags(g: &LayoutGraph) -> (r: Vec<bool>)
    requires
        forall|k: int| 0 <= k < g.edges@.len() ==> (#[trigger] g.edges@[k]).1 < g.table.ids@.len(),
    ensures
        r@.len() == g.table.ids@.len(),
        forall|v: int| 0 <= v < g.table.ids@.len() ==> #[trigger] r@[v] == graph_reachable(*g, v),
{
    let n = g.table.ids.len();
    let mut marked: Vec<bool> = Vec::new();
    let mut i: usize = 0;
    while i < n
        invariant
            n == g.table.ids@.len(),
            i <= n,
            marked@.len() == i,
            forall|t: int| 0 <= t < i ==> #[trigger] marked@[t] == g.roots@.contains(t as usize),
        decreases n - i,
    {
        let mut is_root = false;
        let mut q: usize = 0;
        while q < g.roots.len()
            invariant
                q <= g.roots@.len(),
                is_root == exists|t: int| 0 <= t < q && g.roots@[t] == i,
            decreases g.roots@.len() - q,
        {
            if g.roots[q] == i {
                is_root = true;
            }
            q = q + 1;
        }
        marked.push(is_root);
        i = i + 1;
    }
    let ghost mut set: Set<int> = Set::new(|v: int| 0 <= v < n && marked@[v]);
    proof {
        assert(set.subset_of(vstd::set_lib::set_int_range(0, n as int)));
        vstd::set_lib::lemma_int_range(0, n as int);
        vstd::set_lib::lemma_len_subset(set, vstd::set_lib::set_int_range(0, n as int));
        assert forall|v: int| 0 <= v < n && #[trigger] marked@[v] implies graph_reachable(*g, v) by {
            let p = seq![v];
            assert(graph_walk(*g, p));
            assert(p.last() == v);
        }
    }
    let mut changed = true;
    while changed
        invariant
            n == g.table.ids@.len(),
            forall|k: int| 0 <= k < g.edges@.len() ==> (#[trigger] g.edges@[k]).1 < n,
            marked@.len() == n,
            forall|v: int| 0 <= v < n ==> (#[trigger] marked@[v] <==> set.contains(v)),
            forall|v: int| #[trigger] set.contains(v) ==> 0 <= v < n,
            set.finite(),
            set.len() <= n,
            forall|v: int| 0 <= v < n && g.roots@.contains(v as usize) ==> #[trigger] marked@[v],
            forall|v: int| 0 <= v < n && #[trigger] marked@[v] ==> graph_reachable(*g, v),
            !changed ==> forall|k: int| 0 <= k < g.edges@.len() && (g.edges@[k].0 as int) < n && #[trigger] marked@[g.edges@[k].0 as int] ==> marked@[g.edges@[k].1 as int],
        decreases 2 * (n - set.len()) + if changed { 1int } else { 0int },
    {
        changed = false;
        let ghost len0 = set.len();
        let mut k: usize = 0;
        while k < g.edges.len()
            invariant
                n == g.table.ids@.len(),
                forall|t: int| 0 <= t < g.edges@.len() ==> (#[trigger] g.edges@[t]).1 < n,
                marked@.len() == n,
                forall|v: int| 0 <= v < n ==> (#[trigger] marked@[v] <==> set.contains(v)),
                forall|v: int| #[trigger] set.contains(v) ==> 0 <= v < n,
                set.finite(),
                set.len() <= n,
                set.len() >= len0,
                changed ==> set.len() > len0,
                forall|v: int| 0 <= v < n && g.roots@.contains(v as usize) ==> #[trigger] marked@[v],
                forall|v: int| 0 <= v < n && #[trigger] marked@[v] ==> graph_reachable(*g, v),
                k <= g.edges@.len(),
                !changed ==> forall|t: int| 0 <= t < k && (g.edges@[t].0 as int) < n && #[trigger] marked@[g.edges@[t].0 as int] ==> marked@[g.edges@[t].1 as int],
            decreases g.edges@.len() - k,
        {
            let (a, b) = g.edges[k];
            if a < n && marked[a] && !marked[b] {
                proof {
                    assert(graph_reachable(*g, a as int));
                    let p = choose|p: Seq<int>| graph_walk(*g, p) && p.last() == a as int;
                    let q = p.push(b as int);
                    assert(g.edges@.contains((a, b))) by {
                        assert(g.edges@[k as int] == (a, b));
                    }
                    assert(graph_walk(*g, q)) by {
                        assert forall|t: int| 0 <= t < q.len() - 1 implies #[trigger] graph_step(*g, q, t) by {
                            if t < p.len() - 1 {
                                assert(q[t] == p[t] && q[t + 1] == p[t + 1]);
                                assert(graph_step(*g, p, t));
                            } else {
                                assert(q[t] == a as int && q[t + 1] == b as int);
                            }
                        }
                    }
                    assert(q.last() == b as int);
                    assert(!set.contains(b as int));
                    set = set.insert(b as int);
                    vstd::set_lib::lemma_int_range(0, n as int);
                    assert(set.subset_of(vstd::set_lib::set_int_range(0, n as int)));
                    vstd::set_lib::lemma_len_subset(set, vstd::set_lib::set_int_range(0, n as int));
                }
                marked.set(b, true);
                changed = true;
            }
            k = k + 1;
        }
    }
    proof {
        assert forall|v: int| 0 <= v < n implies #[trigger] marked@[v] == graph_reachable(*g, v) by {
            if graph_reachable(*g, v) {
                let p = choose|p: Seq<int>| graph_walk(*g, p) && p.last() == v;
                assert forall|a: int, b: int|
                    0 <= a < marked@.len() && 0 <= b < marked@.len() && #[trigger] marked@[a] && g.edges@.contains((a as usize, b as usize)) implies #[trigger] marked@[b] by {
                    let t = choose|t: int| 0 <= t < g.edges@.len() && g.edges@[t] == (a as usize, b as usize);
                    assert(marked@[g.edges@[t].0 as int]);
                }
                lemma_graph_walk_marked(*g, marked@, p);
            }
        }
    }
    marked
}

/// Checks the layout graph: every node but the roots is entered by a link (else the first
/// node that is not fails), and the roots reach every node (else the unreached ones fail, in
/// id order).
pub fn validate_graph(g: &LayoutGraph) -> (r: Result<(), RenderError>)
    requires
        forall|k: int| 0 <= k < g.edges@.len() ==> (#[trigger] g.edges@[k]).1 < g.table.ids@.len(),
    ensures
        match first_orphan(*g, 0) {
            Some(v) => r matches Err(RenderError::NodeHasNoIncoming(id)) && id@ == g.table.ids@[v]@,
            None => if exists|v: int| 0 <= v < g.table.ids@.len() && !graph_reachable(*g, v) {
                r matches Err(RenderError::UnreachableNodes(ids)) && id_views(ids@) == unreached_ids(*g, g.table.ids@.len() as int)
            } else {
                r is Ok
            },
        },
{
    let n = g.table.ids.len();
    let mut v: usize = 0;
    while v < n
        invariant
            n == g.table.ids@.len(),
            v <= n,
            first_orphan(*g, 0) == first_orphan(*g, v as int),
        decreases n - v,
    {
        let mut is_root = false;
        let mut q: usize = 0;
        while q < g.roots.len()
            invariant
                q <= g.roots@.len(),
                is_root == exists|t: int| 0 <= t < q && g.roots@[t] == v,
            decreases g.roots@.len() - q,
        {
            if g.roots[q] == v {
                is_root = true;
            }
            q = q + 1;
        }
        let mut entered = false;
        let mut k: usize = 0;
        while k < g.edges.len()
            invariant
                k <= g.edges@.len(),
                entered == exists|t: int| 0 <= t < k && g.edges@[t].1 == v,
            decreases g.edges@.len() - k,
        {
            if g.edges[k].1 == v {
                entered = true;
            }
            k = k + 1;
        }
        proof {
            assert(is_root == g.roots@.contains(v)) by {
                if g.roots@.contains(v) {
                    let t = choose|t: int| 0 <= t < g.roots@.len() && g.roots@[t] == v;
                }
            }
            assert(entered == exists|a: usize| #[trigger] g.edges@.contains((a, v))) by {
                if exists|a: usize| #[trigger] g.edges@.contains((a, v)) {
                    let a = choose|a: usize| g.edges@.contains((a, v));
                    let t = choose|t: int| 0 <= t < g.edges@.len() && g.edges@[t] == (a, v);
                }
                if entered {
                    let t = choose|t: int| 0 <= t < k && g.edges@[t].1 == v;
                    assert(g.edges@.contains((g.edges@[t].0, v)));
                }
            }
        }
        if !is_root && !entered {
            return Err(RenderError::NodeHasNoIncoming(g.table.ids[v].clone()));
        }
        v = v + 1;
    }
    let reach = graph_reach_flags(g);
    let mut unreached: Vec<String> = Vec::new();
    let mut v: usize = 0;
    while v < n
        invariant
            n == g.table.ids@.len(),
            v <= n,
            reach@.len() == n,
            forall|t: int| 0 <= t < n ==> #[trigger] reach@[t] == graph_reachable(*g, t),
            id_views(unreached@) == unreached_ids(*g, v as int),
        decreases n - v,
    {
        let ghost before = unreached@;
        if !reach[v] {
            unreached.push(g.table.ids[v].clone());
        }
        proof {
            assert(id_views(unreached@) =~= unreached_ids(*g, v + 1));
        }
        v = v + 1;
    }
    if unreached.len() > 0 {
        proof {
            assert(exists|t: int| 0 <= t < n && !graph_reachable(*g, t)) by {
                lemma_unreached_nonempty(*g, n as int);
            }
        }
        return Err(RenderError::UnreachableNodes(unreached));
    }
    proof {
        assert forall|t: int| 0 <= t < n implies graph_reachable(*g, t) by {
            if !graph_reachable(*g, t) {
                lemma_unreached_member(*g, n as int, t);
                assert(id_views(unreached@).len() == 0);
            }
        }
    }
    Ok(())
}

proof fn lemma_unreached_nonempty(g: LayoutGraph, v: int)
    requires
        0 <= v <= g.table.ids@.len(),
        unreached_ids(g, v).len() > 0,
    ensures
        exists|t: int| 0 <= t < v && !graph_reachable(g, t),
    decreases v,
{
    if v > 0 {
        if graph_reachable(g, v - 1) {
            lemma_unreached_nonempty(g, v - 1);
            let t = choose|t: int| 0 <= t < v - 1 && !graph_reachable(g, t);
        }
    }
}

proof fn lemma_unreached_member(g: LayoutGraph, v: int, t: int)
    requires
        0 <= t < v <= g.table.ids@.len(),
        !graph_reachable(g, t),
    ensures
        unreached_ids(g, v).len() > 0,
    decreases v,
{
    if t < v - 1 {
        lemma_unreached_member(g, v - 1, t);
    }
}

/// The links of a layout graph split by a depth-first walk from the roots: the links that
/// first reach a node, and the links to nodes already reached.
pub struct EdgeClassification {
    pub backbone: Vec<(usize, usize)>,
    pub loops: Vec<(usize, usize)>,
}

/// `e` is a link of the layout graph.
pub open spec fn is_link(g: LayoutGraph, e: (usize, usize)) -> bool {
    g.edges@.contains(e)
}

/// Some link of `links` enters node `v`.
pub open spec fn enters(links: Seq<(usize, usize)>, v: int) -> bool {
    exists|k: int| 0 <= k < links.len() && links[k].1 == v as usize
}

/// Walks the layout graph depth first from its roots (taken in order, each node's links in
/// order) and files every link it meets: into the backbone when it first reaches its target,
/// into the loops otherwise. Both lists are in link order.
pub fn classify_edges(g: &LayoutGraph) -> (r: EdgeClassification)
    requires
        forall|k: int| 0 <= k < g.edges@.len() ==> (#[trigger] g.edges@[k]).1 < g.table.ids@.len(),
        forall|k: int| 0 <= k < g.roots@.len() ==> (#[trigger] g.roots@[k] as int) < g.table.ids@.len(),
        forall|a: int, b: int| 0 <= a < b < g.roots@.len() ==> #[trigger] g.roots@[a] < #[trigger] g.roots@[b],
        pairs_increasing(g.edges@),
    ensures
        forall|k: int| 0 <= k < r.backbone@.len() ==> is_link(*g, #[trigger] r.backbone@[k]),
        forall|k: int| 0 <= k < r.loops@.len() ==> is_link(*g, #[trigger] r.loops@[k]),
        forall|e: (usize, usize)| !(#[trigger] r.backbone@.contains(e) && r.loops@.contains(e)),
        forall|k: int| 0 <= k < r.backbone@.len() ==> !g.roots@.contains((#[trigger] r.backbone@[k]).1),
        forall|a: int, b: int| 0 <= a < b < r.backbone@.len() ==> (#[trigger] r.backbone@[a]).1 != (#[trigger] r.backbone@[b]).1,
        forall|e: (usize, usize)|
            is_link(*g, e) && graph_reachable(*g, e.0 as int) ==> #[trigger] r.backbone@.contains(e) || r.loops@.contains(e),
        forall|v: int|
            0 <= v < g.table.ids@.len() && #[trigger] graph_reachable(*g, v) && !g.roots@.contains(v as usize) ==> enters(r.backbone@, v),
{
    let n = g.table.ids.len();
    let m = g.edges.len();
    let mut visited: Vec<bool> = Vec::new();
    let mut done: Vec<bool> = Vec::new();
    let mut i: usize = 0;
    while i < n
        invariant
            i <= n,
            visited@.len() == i,
            done@.len() == i,
            forall|t: int| 0 <= t < i ==> !#[trigger] visited@[t],
            forall|t: int| 0 <= t < i ==> !#[trigger] done@[t],
        decreases n - i,
    {
        visited.push(false);
        done.push(false);
        i = i + 1;
    }
    let mut class: Vec<u8> = Vec::new();
    let mut k: usize = 0;
    while k < m
        invariant
            k <= m,
            class@.len() == k,
            forall|t: int| 0 <= t < k ==> #[trigger] class@[t] == 0,
        decreases m - k,
    {
        class.push(0);
        k = k + 1;
    }
    let mut stack: Vec<usize> = Vec::new();
    let mut q: usize = g.roots.len();
    while q > 0
        invariant
            n == g.table.ids@.len(),
            q <= g.roots@.len(),
            visited@.len() == n,
            forall|k: int| 0 <= k < g.roots@.len() ==> (#[trigger] g.roots@[k] as int) < n,
            forall|t: int| 0 <= t < stack@.len() ==> (#[trigger] stack@[t] as int) < n && visited@[stack@[t] as int],
            forall|v: int| 0 <= v < n && #[trigger] visited@[v] ==> stack@.contains(v as usize),
            forall|k: int| q <= k < g.roots@.len() ==> visited@[#[trigger] g.roots@[k] as int],
            forall|a: int, b: int| 0 <= a < b < g.roots@.len() ==> #[trigger] g.roots@[a] < #[trigger] g.roots@[b],
            stack@.len() == g.roots@.len() - q,
            forall|t: int| 0 <= t < stack@.len() ==> #[trigger] stack@[t] == g.roots@[g.roots@.len() - 1 - t],
            forall|v: int| 0 <= v < n && #[trigger] visited@[v] ==> g.roots@.contains(v as usize),
            done@.len() == n,
            forall|t: int| 0 <= t < n ==> !#[trigger] done@[t],
        decreases q,
    {
        q = q - 1;
        let r0 = g.roots[q];
        let ghost before = stack@;
        visited.set(r0, true);
        stack.push(r0);
        proof {
            assert forall|v: int| 0 <= v < n && #[trigger] visited@[v] implies g.roots@.contains(v as usize) by {
                if v == r0 as int {
                    assert(g.roots@[q as int] == r0);
                }
            }
            assert forall|v: int| 0 <= v < n && #[trigger] visited@[v] implies stack@.contains(v as usize) by {
                if v == r0 as int {
                    assert(stack@[stack@.len() - 1] == r0);
                } else {
                    assert(before.contains(v as usize));
                    let t = choose|t: int| 0 <= t < before.len() && before[t] == v as usize;
                    assert(stack@[t] == v as usize);
                }
            }
        }
    }
    let ghost mut vset: Set<int> = Set::new(|v: int| 0 <= v < n && visited@[v]);
    proof {
        vstd::set_lib::lemma_int_range(0, n as int);
        assert(vset.subset_of(vstd::set_lib::set_int_range(0, n as int)));
        vstd::set_lib::lemma_len_subset(vset, vstd::set_lib::set_int_range(0, n as int));
        assert forall|v: int| 0 <= v < n && g.roots@.contains(v as usize) implies #[trigger] visited@[v] by {
            let k = choose|k: int| 0 <= k < g.roots@.len() && g.roots@[k] == v as usize;
        }
        assert forall|a: int, b: int| 0 <= a < b < stack@.len() implies #[trigger] stack@[a] != #[trigger] stack@[b] by {
            let l = g.roots@.len() as int;
            assert(g.roots@[l - 1 - b] < g.roots@[l - 1 - a]);
        }
        assert forall|v: int| 0 <= v < n && #[trigger] visited@[v] && !g.roots@.contains(v as usize) implies exists|k: int|
            0 <= k < m && class@[k] == 1 && g.edges@[k].1 == v as usize by {
        }
    }
    loop
        invariant
            n == g.table.ids@.len(),
            m == g.edges@.len(),
            forall|k: int| 0 <= k < m ==> (#[trigger] g.edges@[k]).1 < n,
            visited@.len() == n,
            done@.len() == n,
            class@.len() == m,
            forall|t: int| 0 <= t < m ==> #[trigger] class@[t] <= 2,
            forall|v: int| 0 <= v < n ==> (#[trigger] visited@[v] <==> vset.contains(v)),
            forall|v: int| #[trigger] vset.contains(v) ==> 0 <= v < n,
            vset.finite(),
            vset.len() <= n,
            forall|v: int| 0 <= v < n && g.roots@.contains(v as usize) ==> #[trigger] visited@[v],
            forall|t: int| 0 <= t < stack@.len() ==> (#[trigger] stack@[t] as int) < n && visited@[stack@[t] as int],
            forall|v: int| 0 <= v < n && #[trigger] visited@[v] ==> (done@[v] || stack@.contains(v as usize)),
            forall|k: int| 0 <= k < m && #[trigger] class@[k] == 1 ==> !g.roots@.contains(g.edges@[k].1) && visited@[g.edges@[k].1 as int],
            forall|a: int, b: int| 0 <= a < m && 0 <= b < m && a != b && #[trigger] class@[a] == 1 && #[trigger] class@[b] == 1 ==> g.edges@[a].1 != g.edges@[b].1,
            forall|k: int|
                0 <= k < m && (g.edges@[k].0 as int) < n && done@[g.edges@[k].0 as int] ==> #[trigger] class@[k] != 0 && visited@[g.edges@[k].1 as int],
            forall|t: int| 0 <= t < stack@.len() ==> !done@[#[trigger] stack@[t] as int],
            forall|a: int, b: int| 0 <= a < b < stack@.len() ==> #[trigger] stack@[a] != #[trigger] stack@[b],
            forall|k: int| 0 <= k < m && #[trigger] class@[k] != 0 ==> (g.edges@[k].0 as int) < n && done@[g.edges@[k].0 as int],
            forall|v: int| 0 <= v < n && #[trigger] done@[v] ==> visited@[v],
            forall|v: int| 0 <= v < n && #[trigger] visited@[v] && !g.roots@.contains(v as usize) ==> exists|k: int|
                0 <= k < m && class@[k] == 1 && g.edges@[k].1 == v as usize,
        ensures
            visited@.len() == n,
            done@.len() == n,
            class@.len() == m,
            forall|t: int| 0 <= t < m ==> #[trigger] class@[t] <= 2,
            forall|v: int| 0 <= v < n && g.roots@.contains(v as usize) ==> #[trigger] visited@[v],
            forall|v: int| 0 <= v < n && #[trigger] visited@[v] ==> done@[v],
            forall|k: int| 0 <= k < m && #[trigger] class@[k] == 1 ==> !g.roots@.contains(g.edges@[k].1),
            forall|a: int, b: int| 0 <= a < m && 0 <= b < m && a != b && #[trigger] class@[a] == 1 && #[trigger] class@[b] == 1 ==> g.edges@[a].1 != g.edges@[b].1,
            forall|k: int|
                0 <= k < m && (g.edges@[k].0 as int) < n && done@[g.edges@[k].0 as int] ==> #[trigger] class@[k] != 0 && visited@[g.edges@[k].1 as int],
            forall|v: int| 0 <= v < n && #[trigger] visited@[v] && !g.roots@.contains(v as usize) ==> exists|k: int|
                0 <= k < m && class@[k] == 1 && g.edges@[k].1 == v as usize,
        decreases n - vset.len(), stack@.len(),
    {
        let ghost before_pop = stack@;
        let u = match stack.pop() {
            None => {
                proof {
                    assert forall|v: int| 0 <= v < n && #[trigger] visited@[v] implies done@[v] by {
                        if !done@[v] {
                            assert(stack@.contains(v as usize));
                        }
                    }
                }
                break;
            },
            Some(x) => x,
        };
        let ghost vset0 = vset;
        let ghost popped = stack@;
        let ghost done0 = done@;
        proof {
            assert(before_pop == popped.push(u));
        }
        done.set(u, true);
        proof {
            assert forall|v: int| 0 <= v < n && #[trigger] visited@[v] implies (done@[v] || stack@.contains(v as usize)) by {
                if v != u as int && !done0[v] {
                    assert(before_pop.contains(v as usize));
                    let t = choose|t: int| 0 <= t < before_pop.len() && before_pop[t] == v as usize;
                    if t == before_pop.len() - 1 {
                        assert(before_pop[t] == u);
                    } else {
                        assert(stack@[t] == v as usize);
                    }
                }
            }
        }
        let mut k: usize = 0;
        proof {
            assert(!done0[u as int]) by {
                assert(before_pop[before_pop.len() - 1] == u);
            }
            assert forall|t: int| 0 <= t < stack@.len() implies !done@[#[trigger] stack@[t] as int] by {
                assert(before_pop[t] == stack@[t]);
                assert(before_pop[t] != before_pop[before_pop.len() - 1]);
            }
            assert forall|a: int, b: int| 0 <= a < b < stack@.len() implies #[trigger] stack@[a] != #[trigger] stack@[b] by {
                assert(before_pop[a] == stack@[a] && before_pop[b] == stack@[b]);
            }
            assert forall|t: int| 0 <= t < m && (#[trigger] g.edges@[t]).0 == u implies class@[t] == 0 by {
                if class@[t] != 0 {
                    assert(done0[g.edges@[t].0 as int]);
                }
            }
            assert(visited@[u as int]) by {
                assert(before_pop[before_pop.len() - 1] == u);
            }
            assert forall|t: int|
                0 <= t < m && (g.edges@[t].0 as int) < n && done@[g.edges@[t].0 as int] && (g.edges@[t].0 != u || t < k) implies #[trigger] class@[t] != 0 && visited@[g.edges@[t].1 as int] by {
                let x = g.edges@[t].0 as int;
                assert(x != u as int);
                assert(done@[x] == done0[x]);
                assert(done0[x]);
                assert(class@[t] != 0);
                assert(visited@[g.edges@[t].1 as int]);
            }
        }
        while k < m
            invariant
                n == g.table.ids@.len(),
                m == g.edges@.len(),
                forall|t: int| 0 <= t < m ==> (#[trigger] g.edges@[t]).1 < n,
                (u as int) < n,
                visited@[u as int],
                visited@.len() == n,
                done@.len() == n,
                class@.len() == m,
                forall|t: int| 0 <= t < m ==> #[trigger] class@[t] <= 2,
                k <= m,
                forall|v: int| 0 <= v < n ==> (#[trigger] visited@[v] <==> vset.contains(v)),
                forall|v: int| #[trigger] vset.contains(v) ==> 0 <= v < n,
                vset.finite(),
                vset.len() <= n,
                vset0.subset_of(vset),
                vset.len() >= vset0.len(),
                vset.len() == vset0.len() ==> stack@.len() == popped.len(),
                forall|v: int| 0 <= v < n && g.roots@.contains(v as usize) ==> #[trigger] visited@[v],
                forall|t: int| 0 <= t < stack@.len() ==> (#[trigger] stack@[t] as int) < n && visited@[stack@[t] as int],
                forall|v: int| 0 <= v < n && #[trigger] visited@[v] ==> (done@[v] || stack@.contains(v as usize)),
                forall|t: int| 0 <= t < m && #[trigger] class@[t] == 1 ==> !g.roots@.contains(g.edges@[t].1) && visited@[g.edges@[t].1 as int],
                forall|a: int, b: int| 0 <= a < m && 0 <= b < m && a != b && #[trigger] class@[a] == 1 && #[trigger] class@[b] == 1 ==> g.edges@[a].1 != g.edges@[b].1,
                forall|t: int|
                    0 <= t < m && (g.edges@[t].0 as int) < n && done@[g.edges@[t].0 as int] && (g.edges@[t].0 != u || t < k) ==> #[trigger] class@[t] != 0 && visited@[g.edges@[t].1 as int],
                done@[u as int],
                forall|t: int| 0 <= t < stack@.len() ==> !done@[#[trigger] stack@[t] as int],
                forall|a: int, b: int| 0 <= a < b < stack@.len() ==> #[trigger] stack@[a] != #[trigger] stack@[b],
                forall|t: int| 0 <= t < m && #[trigger] class@[t] != 0 ==> (g.edges@[t].0 as int) < n && done@[g.edges@[t].0 as int],
                forall|v: int| 0 <= v < n && #[trigger] done@[v] ==> visited@[v],
                forall|v: int| 0 <= v < n && #[trigger] visited@[v] && !g.roots@.contains(v as usize) ==> exists|t: int|
                    0 <= t < m && class@[t] == 1 && g.edges@[t].1 == v as usize,
                forall|t: int| k <= t < m && (#[trigger] g.edges@[t]).0 == u ==> class@[t] == 0,
            decreases m - k,
        {
            let (a, b) = g.edges[k];
            if a == u {
                let ghost cl = class@;
                if !visited[b] {
                    proof {
                        assert(!vset.contains(b as int));
                        vset = vset.insert(b as int);
                        vstd::set_lib::lemma_int_range(0, n as int);
                        assert(vset.subset_of(vstd::set_lib::set_int_range(0, n as int)));
                        vstd::set_lib::lemma_len_subset(vset, vstd::set_lib::set_int_range(0, n as int));
                        assert(!g.roots@.contains(b));
                    }
                    let ghost vis0 = visited@;
                    visited.set(b, true);
                    class.set(k, 1);
                    let ghost before = stack@;
                    stack.push(b);
                    proof {
                        assert(class@[k as int] == 1 && g.edges@[k as int].1 == b);
                        assert forall|t: int| 0 <= t < stack@.len() implies !done@[#[trigger] stack@[t] as int] by {
                            if t < before.len() {
                                assert(before[t] == stack@[t]);
                            } else {
                                assert(!vis0[b as int]);
                            }
                        }
                        assert forall|x: int, y: int| 0 <= x < y < stack@.len() implies #[trigger] stack@[x] != #[trigger] stack@[y] by {
                            if y == before.len() {
                                assert(vis0[before[x] as int]);
                            } else {
                                assert(before[x] == stack@[x] && before[y] == stack@[y]);
                            }
                        }
                        assert forall|v: int| 0 <= v < n && #[trigger] visited@[v] && !g.roots@.contains(v as usize) implies exists|t: int|
                            0 <= t < m && class@[t] == 1 && g.edges@[t].1 == v as usize by {
                            if v != b as int {
                                assert(vis0[v]);
                                let t0 = choose|t0: int| 0 <= t0 < m && cl[t0] == 1 && g.edges@[t0].1 == v as usize;
                                assert(t0 != k);
                                assert(class@[t0] == 1);
                            }
                        }
                        assert forall|v: int| 0 <= v < n && #[trigger] visited@[v] implies (done@[v] || stack@.contains(v as usize)) by {
                            if v == b as int {
                                assert(stack@[stack@.len() - 1] == b);
                            } else if !done@[v] {
                                assert(before.contains(v as usize));
                                let t = choose|t: int| 0 <= t < before.len() && before[t] == v as usize;
                                assert(stack@[t] == v as usize);
                            }
                        }
                        assert forall|x: int, y: int| 0 <= x < m && 0 <= y < m && x != y && #[trigger] class@[x] == 1 && #[trigger] class@[y] == 1 implies g.edges@[x].1 != g.edges@[y].1 by {
                            if x == k {
                                assert(cl[y] == 1);
                            } else if y == k {
                                assert(cl[x] == 1);
                            } else {
                                assert(cl[x] == 1 && cl[y] == 1);
                            }
                        }
                    }
                } else {
                    class.set(k, 2);
                    proof {
                        assert forall|v: int| 0 <= v < n && #[trigger] visited@[v] && !g.roots@.contains(v as usize) implies exists|t: int|
                            0 <= t < m && class@[t] == 1 && g.edges@[t].1 == v as usize by {
                            let t0 = choose|t0: int| 0 <= t0 < m && cl[t0] == 1 && g.edges@[t0].1 == v as usize;
                            assert(t0 != k);
                            assert(class@[t0] == 1);
                        }
                        assert forall|x: int, y: int| 0 <= x < m && 0 <= y < m && x != y && #[trigger] class@[x] == 1 && #[trigger] class@[y] == 1 implies g.edges@[x].1 != g.edges@[y].1 by {
                            assert(cl[x] == 1 && cl[y] == 1);
                        }
                    }
                }
            }
            k = k + 1;
        }
        proof {
            vstd::set_lib::lemma_len_subset(vset0, vset);
        }
    }
    let mut backbone: Vec<(usize, usize)> = Vec::new();
    let mut loops: Vec<(usize, usize)> = Vec::new();
    let ghost mut bsrc: Seq<int> = Seq::empty();
    let ghost mut lsrc: Seq<int> = Seq::empty();
    let mut k: usize = 0;
    while k < m
        invariant
            m == g.edges@.len(),
            class@.len() == m,
            k <= m,
            bsrc.len() == backbone@.len(),
            lsrc.len() == loops@.len(),
            forall|t: int| 0 <= t < bsrc.len() ==> 0 <= #[trigger] bsrc[t] < k && backbone@[t] == g.edges@[bsrc[t]] && class@[bsrc[t]] == 1,
            forall|t: int| 0 <= t < lsrc.len() ==> 0 <= #[trigger] lsrc[t] < k && loops@[t] == g.edges@[lsrc[t]] && class@[lsrc[t]] == 2,
            forall|a: int, b: int| 0 <= a < b < bsrc.len() ==> #[trigger] bsrc[a] < #[trigger] bsrc[b],
            forall|j: int| 0 <= j < k && #[trigger] class@[j] == 1 ==> exists|t: int| 0 <= t < bsrc.len() && bsrc[t] == j,
            forall|j: int| 0 <= j < k && #[trigger] class@[j] == 2 ==> exists|t: int| 0 <= t < lsrc.len() && lsrc[t] == j,
        decreases m - k,
    {
        let ghost ob = bsrc;
        let ghost ol = lsrc;
        if class[k] == 1 {
            backbone.push(g.edges[k]);
            proof {
                bsrc = bsrc.push(k as int);
            }
        } else if class[k] == 2 {
            loops.push(g.edges[k]);
            proof {
                lsrc = lsrc.push(k as int);
            }
        }
        proof {
            assert forall|j: int| 0 <= j < k + 1 && #[trigger] class@[j] == 1 implies exists|t: int| 0 <= t < bsrc.len() && bsrc[t] == j by {
                if j == k {
                    assert(bsrc[bsrc.len() - 1] == j);
                } else {
                    let t = choose|t: int| 0 <= t < ob.len() && ob[t] == j;
                    assert(bsrc[t] == j);
                }
            }
            assert forall|j: int| 0 <= j < k + 1 && #[trigger] class@[j] == 2 implies exists|t: int| 0 <= t < lsrc.len() && lsrc[t] == j by {
                if j == k {
                    assert(lsrc[lsrc.len() - 1] == j);
                } else {
                    let t = choose|t: int| 0 <= t < ol.len() && ol[t] == j;
                    assert(lsrc[t] == j);
                }
            }
        }
        k = k + 1;
    }
    proof {
        assert forall|e: (usize, usize)| !(#[trigger] backbone@.contains(e) && loops@.contains(e)) by {
            if backbone@.contains(e) && loops@.contains(e) {
                let t1 = choose|t1: int| 0 <= t1 < backbone@.len() && backbone@[t1] == e;
                let t2 = choose|t2: int| 0 <= t2 < loops@.len() && loops@[t2] == e;
                let j1 = bsrc[t1];
                let j2 = lsrc[t2];
                if j1 < j2 {
                    assert(g.edges@[j1].0 < g.edges@[j2].0 || (g.edges@[j1].0 == g.edges@[j2].0 && g.edges@[j1].1 < g.edges@[j2].1));
                } else if j2 < j1 {
                    assert(g.edges@[j2].0 < g.edges@[j1].0 || (g.edges@[j2].0 == g.edges@[j1].0 && g.edges@[j2].1 < g.edges@[j1].1));
                }
            }
        }
        assert forall|t: int| 0 <= t < backbone@.len() implies is_link(*g, #[trigger] backbone@[t]) && !g.roots@.contains(backbone@[t].1) by {
            let j = bsrc[t];
            assert(g.edges@.contains(g.edges@[j]));
        }
        assert forall|t: int| 0 <= t < loops@.len() implies is_link(*g, #[trigger] loops@[t]) by {
            let j = lsrc[t];
            assert(g.edges@.contains(g.edges@[j]));
        }
        assert forall|a: int, b: int| 0 <= a < b < backbone@.len() implies (#[trigger] backbone@[a]).1 != (#[trigger] backbone@[b]).1 by {
            assert(bsrc[a] < bsrc[b]);
            assert(class@[bsrc[a]] == 1 && class@[bsrc[b]] == 1);
        }
        assert forall|e: (usize, usize)| is_link(*g, e) && graph_reachable(*g, e.0 as int) implies #[trigger] backbone@.contains(e)
            || loops@.contains(e) by {
            let p = choose|p: Seq<int>| graph_walk(*g, p) && p.last() == e.0 as int;
            assert forall|a: int, b: int|
                0 <= a < visited@.len() && 0 <= b < visited@.len() && #[trigger] visited@[a] && g.edges@.contains((a as usize, b as usize)) implies #[trigger] visited@[b] by {
                let j = choose|j: int| 0 <= j < m && g.edges@[j] == (a as usize, b as usize);
                assert(done@[a]);
                assert(class@[j] != 0);
            }
            lemma_graph_walk_marked(*g, visited@, p);
            assert(visited@[e.0 as int]);
            let j = choose|j: int| 0 <= j < m && g.edges@[j] == e;
            assert(class@[j] != 0);
            if class@[j] == 1 {
                let t = choose|t: int| 0 <= t < bsrc.len() && bsrc[t] == j;
                assert(backbone@[t] == e);
            } else {
                assert(class@[j] == 2);
                let t = choose|t: int| 0 <= t < lsrc.len() && lsrc[t] == j;
                assert(loops@[t] == e);
            }
        }
    }
    proof {
        assert forall|a: int, b: int|
            0 <= a < visited@.len() && 0 <= b < visited@.len() && #[trigger] visited@[a] && g.edges@.contains((a as usize, b as usize)) implies #[trigger] visited@[b] by {
            let j = choose|j: int| 0 <= j < m && g.edges@[j] == (a as usize, b as usize);
            assert(done@[a]);
            assert(class@[j] != 0);
        }
        assert forall|v: int|
            0 <= v < g.table.ids@.len() && #[trigger] graph_reachable(*g, v) && !g.roots@.contains(v as usize) implies enters(backbone@, v) by {
            let p = choose|p: Seq<int>| graph_walk(*g, p) && p.last() == v;
            lemma_graph_walk_marked(*g, visited@, p);
            let j = choose|j: int| 0 <= j < m && class@[j] == 1 && g.edges@[j].1 == v as usize;
            let t = choose|t: int| 0 <= t < bsrc.len() && bsrc[t] == j;
            assert(backbone@[t] == g.edges@[j]);
        }
    }
    EdgeClassification { backbone, loops }
}

} // verus!
