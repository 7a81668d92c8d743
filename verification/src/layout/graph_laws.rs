//! Facts about the layout graph of a view as a whole.
use vstd::prelude::*;

use crate::layout::graph::{
    first_orphan, first_root, graph_of, graph_reachable, graph_step, graph_walk, kept, kept_edge, kept_root, orphan,
    reached, reached_edge, view_edge, view_walk, LayoutGraph,
};
use crate::layout::ids::ids_sorted;
use crate::model::Card;

verus! {

proof fn lemma_views_index(views: Seq<Seq<char>>, x: int)
    requires
        ids_sorted(views),
        0 <= x < views.len(),
    ensures
        views.index_of(views[x]) == x,
{
    assert(views.contains(views[x]));
    let j = views.index_of(views[x]);
    if j != x {
        crate::text::lemma_seq_lt_irreflexive(views[x]);
        if j < x {
            assert(crate::text::seq_lt(views[j], views[x]));
        } else {
            assert(crate::text::seq_lt(views[x], views[j]));
        }
    }
}

proof fn lemma_built_no_orphan(g: LayoutGraph, c: Seq<Card>, rt: Seq<String>, it: Seq<String>, v: int)
    requires
        graph_of(g, c, rt, it),
        0 <= v < g.table.ids@.len(),
    ensures
        !orphan(g, v),
{
    assert(g.table.ids.len() == g.table.ids@.len());
    let views = g.table.views();
    assert(views.contains(views[v]));
    let i = choose|i: int| kept(c, rt, it, i) && c[i].id@ == views[v];
    if !g.roots@.contains(v as usize) {
        assert(!kept_root(c, rt, it, i));
        let j = choose|j: int| kept_edge(c, rt, it, j, i);
        assert(views.contains(c[j].id@));
        let y = choose|y: int| 0 <= y < views.len() && views[y] == c[j].id@;
        let e = (y as usize, v as usize);
        assert(g.edges@.contains(e));
    }
}

proof fn lemma_first_orphan_none(g: LayoutGraph, v: int)
    requires
        0 <= v,
        forall|w: int| v <= w < g.table.ids@.len() ==> !orphan(g, w),
    ensures
        first_orphan(g, v) is None,
    decreases g.table.ids@.len() - v,
{
    if v < g.table.ids@.len() {
        lemma_first_orphan_none(g, v + 1);
    }
}

proof fn lemma_walk_cards_kept(c: Seq<Card>, rt: Seq<String>, it: Seq<String>, p: Seq<int>, m: int)
    requires
        view_walk(c, rt, it, p),
        0 <= m < p.len() - 1,
    ensures
        kept_edge(c, rt, it, p[m], p[m + 1]),
{
    let a = p.take(m + 1);
    let b = p.take(m + 2);
    assert forall|k: int| 0 <= k < a.len() - 1 implies view_edge(c, rt, it, #[trigger] a[k], a[k + 1]) by {
        assert(a[k] == p[k] && a[k + 1] == p[k + 1]);
    }
    assert forall|k: int| 0 <= k < b.len() - 1 implies view_edge(c, rt, it, #[trigger] b[k], b[k + 1]) by {
        assert(b[k] == p[k] && b[k + 1] == p[k + 1]);
    }
    assert(view_walk(c, rt, it, a) && a.last() == p[m]);
    assert(view_walk(c, rt, it, b) && b.last() == p[m + 1]);
    assert(view_edge(c, rt, it, p[m], p[m + 1]));
    assert(reached(c, rt, it, p[m]));
    assert(reached(c, rt, it, p[m + 1]));
    assert(reached_edge(c, rt, it, p[m], p[m + 1]));
    assert(kept(c, rt, it, p[m]));
    assert(kept(c, rt, it, p[m + 1]));
}

proof fn lemma_built_reachable(g: LayoutGraph, c: Seq<Card>, rt: Seq<String>, it: Seq<String>, v: int)
    requires
        graph_of(g, c, rt, it),
        0 <= v < g.table.ids@.len(),
    ensures
        graph_reachable(g, v),
{
    assert(g.table.ids.len() == g.table.ids@.len());
    let views = g.table.views();
    assert(views.contains(views[v]));
    let i = choose|i: int| kept(c, rt, it, i) && c[i].id@ == views[v];
    let p = choose|p: Seq<int>| view_walk(c, rt, it, p) && p.last() == i;
    assert forall|m: int| 0 <= m < p.len() implies kept(c, rt, it, #[trigger] p[m]) by {
        if m < p.len() - 1 {
            lemma_walk_cards_kept(c, rt, it, p, m);
        } else if m > 0 {
            lemma_walk_cards_kept(c, rt, it, p, m - 1);
        }
    }
    assert forall|m: int| 0 <= m < p.len() implies #[trigger] views.contains(c[p[m]].id@) by {
        assert(kept(c, rt, it, p[m]));
    }
    let q = Seq::new(p.len(), |m: int| views.index_of(c[p[m]].id@));
    assert forall|m: int| 0 <= m < q.len() implies 0 <= #[trigger] q[m] < views.len() && views[q[m]] == c[p[m]].id@ by {
        assert(views.contains(c[p[m]].id@));
    }
    assert(g.roots@.contains(q[0] as usize)) by {
        assert(kept_root(c, rt, it, p[0]));
        assert(views[q[0]] == c[p[0]].id@);
    }
    assert forall|k: int| 0 <= k < q.len() - 1 implies #[trigger] graph_step(g, q, k) by {
        lemma_walk_cards_kept(c, rt, it, p, k);
        assert(views[q[k]] == c[p[k]].id@);
        assert(views[q[k + 1]] == c[p[k + 1]].id@);
        let e = (q[k] as usize, q[k + 1] as usize);
        assert(g.edges@.contains(e));
    }
    assert(graph_walk(g, q));
    lemma_views_index(views, v);
    assert(q.last() == v);
}

/// A graph that `build_graph` returns passes `validate_graph`: every node is a root or is
/// entered by a link, and the roots reach every node.
pub proof fn lemma_built_graph_valid(g: LayoutGraph, c: Seq<Card>, rt: Seq<String>, it: Seq<String>)
    requires
        graph_of(g, c, rt, it),
    ensures
        first_orphan(g, 0) is None,
        forall|v: int| 0 <= v < g.table.ids@.len() ==> graph_reachable(g, v),
{
    assert forall|w: int| 0 <= w < g.table.ids@.len() implies !orphan(g, w) by {
        lemma_built_no_orphan(g, c, rt, it, w);
    }
    lemma_first_orphan_none(g, 0);
    assert forall|v: int| 0 <= v < g.table.ids@.len() implies graph_reachable(g, v) by {
        lemma_built_reachable(g, c, rt, it, v);
    }
}

} // verus!
