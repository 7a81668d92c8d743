//! The bundled orthogonal edge router: per source, a tree of least-cost walks over the
//! visibility graph to every target, materialized as one orthogonal polyline per edge.
use vstd::prelude::*;

use unicode_normalization::UnicodeNormalization;

use crate::render::geom::RectI;
use crate::render::node::PositionedNode;
use crate::render::errors::RenderError;
use crate::render::route_graph::{cell, graph_shape, graph_wf, line_limit, linked, AdjEdge, Graph};
use crate::render::route_search::{dijkstra_path, walk, Reservation};
use crate::render::route_graph::build_visibility_graph;
use crate::render::router_geom::{
    bounds_of, collect_lines, collector_for_target, extent_values, global_bounds, box_ok, center_x, entry_y, free, in_range, inflate, inside, is_free_point, obstacle_of, obstacle_ok, obstacles_ok,
    ports_for_edge, push_limit, pushed_above, pushed_below, NodePorts, Obstacle, PointI, CLEARANCE_PX, COORD_LIMIT,
    ROUTE_PAD_PX,
};
use crate::render::svg::SvgConfig;
use crate::render::types::LayoutEdge;
use crate::text::{chars_lt, chars_of, int_text, push_int, push_str, seq_lt, string_from_chars};

verus! {

/// What the Unicode Normalization Form C of a text is.
pub uninterp spec fn nfc_form(s: Seq<char>) -> Seq<char>;

/// What the Unicode lowercase mapping of a text is.
pub uninterp spec fn lowercase_form(s: Seq<char>) -> Seq<char>;

/// The NFC form of `s`, by `unicode_normalization::UnicodeNormalization::nfc`; a function of
/// `s` alone (the crate's fixed Unicode tables).
#[verifier::external_body]
fn nfc_text(s: &str) -> (r: String)
    ensures
        r@ == nfc_form(s@),
{
    s.nfc().collect::<String>()
}

/// The lowercase mapping of `s`, by `str::to_lowercase`; a function of `s` alone.
#[verifier::external_body]
fn lowercase_text(s: &str) -> (r: String)
    ensures
        r@ == lowercase_form(s@),
{
    s.to_lowercase()
}

/// The folded form of an id by which the router orders ids first: NFC, then lowercase.
pub open spec fn folded(s: Seq<char>) -> Seq<char> {
    lowercase_form(nfc_form(s))
}

/// The router's id order: by folded form, then by code points.
pub open spec fn id_lt(a: Seq<char>, b: Seq<char>) -> bool {
    seq_lt(folded(a), folded(b)) || (folded(a) == folded(b) && seq_lt(a, b))
}

/// The folded form of an id; see [`folded`].
fn fold_id(s: &str) -> (r: Vec<char>)
    ensures
        r@ == folded(s@),
{
    let n = nfc_text(s);
    let l = lowercase_text(n.as_str());
    chars_of(l.as_str())
}

/// An id together with its folded form.
pub struct IdKey {
    pub text: Vec<char>,
    pub folded: Vec<char>,
}

/// The ordering key of an id.
fn id_key(s: &str) -> (k: IdKey)
    ensures
        k.text@ == s@,
        k.folded@ == folded(s@),
{
    IdKey { text: chars_of(s), folded: fold_id(s) }
}

/// Whether `a` comes before `b` in the router's id order; see [`id_lt`].
fn key_lt(a: &IdKey, b: &IdKey) -> (r: bool)
    requires
        a.folded@ == folded(a.text@),
        b.folded@ == folded(b.text@),
    ensures
        r == id_lt(a.text@, b.text@),
{
    if chars_lt(a.folded.as_slice(), b.folded.as_slice()) {
        proof {
            crate::text::lemma_seq_lt_irreflexive(a.folded@);
        }
        true
    } else if chars_lt(b.folded.as_slice(), a.folded.as_slice()) {
        proof {
            crate::text::lemma_seq_lt_irreflexive(a.folded@);
        }
        false
    } else {
        proof {
            crate::text::lemma_seq_lt_total(a.folded@, b.folded@);
        }
        chars_lt(a.text.as_slice(), b.text.as_slice())
    }
}

/// The index of the last entry with id `id`: a map built by inserting the entries in order
/// keeps that one.
pub open spec fn last_with_id(pos: Seq<(String, PositionedNode)>, id: Seq<char>) -> Option<int>
    decreases pos.len(),
{
    if pos.len() == 0 {
        None
    } else if pos.last().0@ == id {
        Some(pos.len() - 1)
    } else {
        last_with_id(pos.drop_last(), id)
    }
}

proof fn lemma_last_with_id(pos: Seq<(String, PositionedNode)>, id: Seq<char>)
    ensures
        last_with_id(pos, id) matches Some(k) ==> 0 <= k < pos.len() && pos[k].0@ == id && forall|m: int|
            k < m < pos.len() ==> (#[trigger] pos[m]).0@ != id,
        last_with_id(pos, id) is None ==> forall|m: int| 0 <= m < pos.len() ==> (#[trigger] pos[m]).0@ != id,
    decreases pos.len(),
{
    if pos.len() > 0 {
        lemma_last_with_id(pos.drop_last(), id);
        if pos.last().0@ != id {
            assert forall|m: int| 0 <= m < pos.len() - 1 implies pos[m] == pos.drop_last()[m] by {}
        }
    }
}

/// The box of the node with id `id`, if placed.
pub open spec fn box_of(pos: Seq<(String, PositionedNode)>, id: Seq<char>) -> Option<RectI> {
    match last_with_id(pos, id) {
        Some(k) => Some(pos[k].1.bbox),
        None => None,
    }
}

/// The box of the node with id `id`, if placed; see [`box_of`].
fn lookup_box(positioned: &Vec<(String, PositionedNode)>, id: &str) -> (r: Option<RectI>)
    ensures
        r == box_of(positioned@, id@),
{
    let mut k: usize = positioned.len();
    proof {
        assert(positioned@.take(k as int) =~= positioned@);
    }
    while k > 0
        invariant
            k <= positioned@.len(),
            last_with_id(positioned@, id@) == last_with_id(positioned@.take(k as int), id@),
        decreases k,
    {
        proof {
            assert(positioned@.take(k as int).drop_last() =~= positioned@.take(k - 1));
        }
        if crate::layout::ids::str_eq(positioned[k - 1].0.as_str(), id) {
            proof {
                assert(positioned@.take(k as int).last() == positioned@[k - 1]);
            }
            return Some(positioned[k - 1].1.bbox);
        }
        k = k - 1;
    }
    proof {
        assert(positioned@.take(0) =~= Seq::<(String, PositionedNode)>::empty());
    }
    None
}

/// A routed edge with integer geometry.
#[derive(Debug, Clone)]
pub struct RouteI {
    pub edge_id: String,
    pub source_id: String,
    pub target_id: String,
    pub points: Vec<PointI>,
    pub junction_ids: Vec<String>,
    pub track_id: String,
}

/// An edge to route, with its stable id.
pub struct EdgeSpec {
    pub edge_id: String,
    pub source_id: String,
    pub target_id: String,
}

/// The number of edges before `i` with the same endpoints as edge `i`.
pub open spec fn same_before(edges: Seq<LayoutEdge>, i: int) -> nat
    decreases i,
{
    if i <= 0 {
        0
    } else {
        same_before(edges, i - 1) + if edges[i - 1].a@ == edges[i].a@ && edges[i - 1].b@ == edges[i].b@ {
            1nat
        } else {
            0nat
        }
    }
}

/// The id of edge `i`: `"{a}->{b}#{k}"`, where `k` counts the earlier edges between the same
/// endpoints.
pub open spec fn edge_id_of(edges: Seq<LayoutEdge>, i: int) -> Seq<char> {
    edges[i].a@ + "->"@ + edges[i].b@ + "#"@ + int_text(same_before_count(edges, i) as int)
}

/// The number of edges `j < i` with the same endpoints as edge `i`.
pub open spec fn same_before_count(edges: Seq<LayoutEdge>, i: int) -> nat {
    count_same(edges, i, i)
}

/// The number of edges `j < upto` with the same endpoints as edge `i`.
pub open spec fn count_same(edges: Seq<LayoutEdge>, i: int, upto: int) -> nat
    decreases upto,
{
    if upto <= 0 {
        0
    } else {
        count_same(edges, i, upto - 1) + if edges[upto - 1].a@ == edges[i].a@ && edges[upto - 1].b@ == edges[i].b@ {
            1nat
        } else {
            0nat
        }
    }
}

/// The edges with their ids; see [`edge_id_of`].
fn build_edge_specs(edges: &Vec<LayoutEdge>) -> (r: Vec<EdgeSpec>)
    requires
        edges@.len() < 0x1000_0000,
    ensures
        r@.len() == edges@.len(),
        forall|i: int|
            0 <= i < r@.len() ==> (#[trigger] r@[i]).edge_id@ == edge_id_of(edges@, i) && r@[i].source_id@ == edges@[i].a@
                && r@[i].target_id@ == edges@[i].b@,
{
    let mut out: Vec<EdgeSpec> = Vec::new();
    let mut i: usize = 0;
    while i < edges.len()
        invariant
            i <= edges@.len() < 0x1000_0000,
            out@.len() == i,
            forall|m: int|
                0 <= m < i ==> (#[trigger] out@[m]).edge_id@ == edge_id_of(edges@, m) && out@[m].source_id@ == edges@[m].a@
                    && out@[m].target_id@ == edges@[m].b@,
        decreases edges@.len() - i,
    {
        let e = &edges[i];
        let mut count: u64 = 0;
        let mut j: usize = 0;
        while j < i
            invariant
                i < edges@.len() < 0x1000_0000,
                j <= i,
                e == edges@[i as int],
                count == count_same(edges@, i as int, j as int),
                count <= j,
            decreases i - j,
        {
            let f = &edges[j];
            if crate::layout::ids::str_eq(f.a.as_str(), e.a.as_str()) && crate::layout::ids::str_eq(
                f.b.as_str(),
                e.b.as_str(),
            ) {
                count = count + 1;
            }
            j = j + 1;
        }
        let mut id: Vec<char> = Vec::new();
        push_str(&mut id, e.a.as_str());
        push_str(&mut id, "->");
        push_str(&mut id, e.b.as_str());
        push_str(&mut id, "#");
        push_int(&mut id, count as i64);
        proof {
            assert(id@ =~= edge_id_of(edges@, i as int));
        }
        out.push(
            EdgeSpec {
                edge_id: string_from_chars(id.as_slice()),
                source_id: e.a.clone(),
                target_id: e.b.clone(),
            },
        );
        i = i + 1;
    }
    out
}

/// The obstacle of a node: its box grown by the clearance.
pub open spec fn node_obstacle(r: RectI) -> Obstacle {
    Obstacle { x0: (r.x - 64) as i32, y0: (r.y - 64) as i32, x1: (r.x + r.w + 64) as i32, y1: (r.y + r.h + 64) as i32 }
}

/// Every placed box is within the router's range.
pub open spec fn boxes_ok(pos: Seq<(String, PositionedNode)>) -> bool {
    forall|k: int| 0 <= k < pos.len() ==> box_ok(#[trigger] pos[k].1.bbox)
}

/// The obstacles of the placed nodes (one per id, the last), ordered by top then left.
pub fn build_obstacles(positioned: &Vec<(String, PositionedNode)>) -> (r: Vec<Obstacle>)
    requires
        boxes_ok(positioned@),
    ensures
        forall|k: int| 0 <= k < r@.len() ==> obstacle_ok(#[trigger] r@[k]),
        forall|k: int|
            0 <= k < positioned@.len() && last_with_id(positioned@, (#[trigger] positioned@[k]).0@) == Some(k)
                ==> r@.contains(node_obstacle(positioned@[k].1.bbox)),
{
    let mut out: Vec<Obstacle> = Vec::new();
    let mut k: usize = 0;
    while k < positioned.len()
        invariant
            k <= positioned@.len(),
            boxes_ok(positioned@),
            forall|m: int| 0 <= m < out@.len() ==> obstacle_ok(#[trigger] out@[m]),
            forall|m: int|
                0 <= m < k && last_with_id(positioned@, (#[trigger] positioned@[m]).0@) == Some(m) ==> out@.contains(
                    node_obstacle(positioned@[m].1.bbox),
                ),
        decreases positioned@.len() - k,
    {
        let mut later = false;
        let mut j: usize = k + 1;
        while j < positioned.len()
            invariant
                k < j <= positioned@.len(),
                later ==> exists|m: int| k < m < positioned@.len() && (#[trigger] positioned@[m]).0@ == positioned@[k as int].0@,
            decreases positioned@.len() - j,
        {
            if crate::layout::ids::str_eq(positioned[j].0.as_str(), positioned[k].0.as_str()) {
                later = true;
            }
            j = j + 1;
        }
        let ghost before = out@;
        if !later {
            let b = positioned[k].1.bbox;
            proof {
                assert(box_ok(positioned@[k as int].1.bbox));
            }
            let o = obstacle_of(inflate(b, CLEARANCE_PX));
            let mut i: usize = out.len();
            while i > 0 && !(out[i - 1].y0 < o.y0 || (out[i - 1].y0 == o.y0 && out[i - 1].x0 <= o.x0))
                invariant
                    i <= out@.len(),
                decreases i,
            {
                i = i - 1;
            }
            out.insert(i, o);
            proof {
                assert(out@[i as int] == o);
                assert forall|m: int| 0 <= m < out@.len() implies obstacle_ok(#[trigger] out@[m]) by {
                    if m < i {
                        assert(out@[m] == before[m]);
                    } else if m > i {
                        assert(out@[m] == before[m - 1]);
                    }
                }
                assert forall|m: int|
                    0 <= m < k + 1 && last_with_id(positioned@, (#[trigger] positioned@[m]).0@) == Some(m) implies out@.contains(
                    node_obstacle(positioned@[m].1.bbox),
                ) by {
                    if m < k {
                        let t = choose|t: int| 0 <= t < before.len() && before[t] == node_obstacle(positioned@[m].1.bbox);
                        if t < i {
                            assert(out@[t] == before[t]);
                        } else {
                            assert(out@[t + 1] == before[t]);
                        }
                    }
                }
            }
        } else {
            proof {
                let id = positioned@[k as int].0@;
                lemma_last_with_id(positioned@, id);
            }
        }
        k = k + 1;
    }
    out
}

/// Consecutive points share a row or a column.
pub open spec fn orthogonal(s: Seq<PointI>) -> bool {
    forall|i: int| 0 < i < s.len() ==> (s[i - 1].x == (#[trigger] s[i]).x || s[i - 1].y == s[i].y)
}

/// Every point but the first and the last of `out` is an inner point of `input`.
pub open spec fn inner_from(out: Seq<PointI>, input: Seq<PointI>) -> bool {
    forall|k: int|
        0 < k < out.len() - 1 ==> exists|j: int| 0 < j < input.len() - 1 && input[j] == #[trigger] out[k]
}

/// The polyline without repeated points and without inner points on a straight line between
/// their neighbours.
#[verifier::rlimit(40)]
pub fn compress_points(points: Vec<PointI>) -> (r: Vec<PointI>)
    requires
        points@.len() >= 1,
    ensures
        r@.len() >= 1,
        points@.len() >= 2 && points@[0] != points@[1] ==> r@.len() >= 2,
        r@[0] == points@[0],
        r@.last() == points@.last(),
        orthogonal(points@) ==> orthogonal(r@),
        inner_from(r@, points@),
{
    if points.len() <= 2 {
        return points;
    }
    let n = points.len();
    let mut deduped: Vec<PointI> = Vec::new();
    deduped.push(points[0]);
    let mut i: usize = 1;
    while i < n
        invariant
            n == points@.len(),
            1 <= i <= n,
            1 <= deduped@.len() <= i,
            i >= 2 && points@[0] != points@[1] ==> deduped@.len() >= 2,
            deduped@[0] == points@[0],
            deduped@.last() == points@[i - 1],
            orthogonal(points@) ==> orthogonal(deduped@),
            forall|k: int| 0 < k < deduped@.len() - 1 ==> exists|j: int| 0 < j < i - 1 && points@[j] == #[trigger] deduped@[k],
        decreases n - i,
    {
        let p = points[i];
        let last = deduped[deduped.len() - 1];
        if !(last.x == p.x && last.y == p.y) {
            let ghost before = deduped@;
            deduped.push(p);
            proof {
                if orthogonal(points@) {
                    assert(points@[i as int - 1].x == points@[i as int].x || points@[i as int - 1].y == points@[i as int].y);
                    assert forall|t: int| 0 < t < deduped@.len() implies (deduped@[t - 1].x == (#[trigger] deduped@[t]).x
                        || deduped@[t - 1].y == deduped@[t].y) by {
                        if t < before.len() {
                            assert(deduped@[t] == before[t]);
                            assert(deduped@[t - 1] == before[t - 1]);
                        }
                    }
                }
                assert forall|k: int| 0 < k < deduped@.len() - 1 implies exists|j: int|
                    0 < j < i && points@[j] == #[trigger] deduped@[k] by {
                    assert(deduped@[k] == before[k]);
                    if k == before.len() - 1 {
                        assert(points@[i - 1] == deduped@[k]);
                    }
                }
            }
        }
        i = i + 1;
    }
    if deduped.len() <= 2 {
        return deduped;
    }
    let m = deduped.len();
    let mut out: Vec<PointI> = Vec::new();
    out.push(deduped[0]);
    out.push(deduped[1]);
    let mut t: usize = 2;
    while t < m
        invariant
            m == deduped@.len(),
            2 <= t <= m,
            out@.len() >= 2,
            out@[0] == deduped@[0],
            out@.last() == deduped@[t - 1],
            orthogonal(deduped@) ==> orthogonal(out@),
            forall|k: int| 0 < k < out@.len() - 1 ==> exists|j: int| 0 < j < t - 1 && deduped@[j] == #[trigger] out@[k],
        decreases m - t,
    {
        let p = deduped[t];
        let a = out[out.len() - 2];
        let b = out[out.len() - 1];
        let same_x = a.x == b.x && b.x == p.x;
        let same_y = a.y == b.y && b.y == p.y;
        let ghost before = out@;
        if same_x || same_y {
            let last = out.len() - 1;
            out.set(last, p);
            proof {
                assert forall|k: int| 0 < k < out@.len() - 1 implies exists|j: int|
                    0 < j < t && deduped@[j] == #[trigger] out@[k] by {
                    assert(out@[k] == before[k]);
                }
                if orthogonal(deduped@) {
                    assert forall|q: int| 0 < q < out@.len() implies (out@[q - 1].x == (#[trigger] out@[q]).x || out@[q
                        - 1].y == out@[q].y) by {
                        if q < out@.len() - 1 {
                            assert(out@[q] == before[q]);
                            assert(out@[q - 1] == before[q - 1]);
                        }
                    }
                }
            }
        } else {
            out.push(p);
            proof {
                assert forall|k: int| 0 < k < out@.len() - 1 implies exists|j: int|
                    0 < j < t && deduped@[j] == #[trigger] out@[k] by {
                    if k < before.len() - 1 {
                        assert(out@[k] == before[k]);
                    } else {
                        assert(out@[k] == b);
                        assert(deduped@[t - 1] == out@[k]);
                    }
                }
                if orthogonal(deduped@) {
                    assert(deduped@[t as int - 1].x == deduped@[t as int].x || deduped@[t as int - 1].y == deduped@[t as int].y);
                    assert forall|q: int| 0 < q < out@.len() implies (out@[q - 1].x == (#[trigger] out@[q]).x || out@[q
                        - 1].y == out@[q].y) by {
                        if q < out@.len() - 1 {
                            assert(out@[q] == before[q]);
                            assert(out@[q - 1] == before[q - 1]);
                        }
                    }
                }
            }
        }
        t = t + 1;
    }
    proof {
        assert forall|k: int| 0 < k < out@.len() - 1 implies exists|j: int|
            0 < j < points@.len() - 1 && points@[j] == #[trigger] out@[k] by {
            let j = choose|j: int| 0 < j < m - 1 && deduped@[j] == out@[k];
            let j2 = choose|j2: int| 0 < j2 < n - 1 && points@[j2] == deduped@[j];
        }
    }
    out
}

/// `u` and `v` are present grid points on one row or one column.
pub open spec fn seg(g: Graph, u: int, v: int) -> bool {
    &&& 0 <= u < g.points@.len()
    &&& 0 <= v < g.points@.len()
    &&& g.present@[u]
    &&& g.present@[v]
    &&& (g.points@[u].x == g.points@[v].x || g.points@[u].y == g.points@[v].y)
}

/// Tree links join grid points along rows or columns.
pub open spec fn tree_links_ok(g: Graph, tree_adj: Seq<Vec<usize>>) -> bool {
    &&& tree_adj.len() == g.points@.len()
    &&& forall|v: int, j: int|
        0 <= v < tree_adj.len() && 0 <= j < tree_adj[v]@.len() ==> seg(g, v, #[trigger] tree_adj[v]@[j] as int)
}

/// Parent links toward `root`: each reached vertex but the root hangs off a reached vertex one
/// level up, along a row or column.
pub open spec fn parents_ok(g: Graph, root: int, parent: Seq<Option<usize>>, depth: Seq<int>) -> bool {
    &&& parent.len() == g.points@.len()
    &&& depth.len() == g.points@.len()
    &&& 0 <= root < parent.len()
    &&& parent[root] == Some(root as usize)
    &&& depth[root] == 0
    &&& forall|v: int|
        0 <= v < parent.len() && v != root && #[trigger] parent[v] is Some ==> ({
            let p = parent[v]->0 as int;
            &&& 0 <= p < parent.len()
            &&& parent[p] is Some
            &&& depth[p] + 1 == depth[v]
            &&& seg(g, p, v)
        })
    &&& forall|v: int| 0 <= v < depth.len() ==> 0 <= #[trigger] depth[v]
}

/// The parent of each vertex reachable from `root` over the tree links, by depth-first search
/// (the root is its own parent), with the depth of each.
fn tree_parent_map(g: &Graph, root: usize, tree_adj: &Vec<Vec<usize>>) -> (r: (Vec<Option<usize>>, Ghost<Seq<int>>))
    requires
        graph_shape(*g),
        root < g.points@.len(),
        g.present@[root as int],
        tree_links_ok(*g, tree_adj@),
    ensures
        parents_ok(*g, root as int, r.0@, r.1@),
{
    let n = g.points.len();
    let mut parent: Vec<Option<usize>> = Vec::new();
    let mut k: usize = 0;
    while k < n
        invariant
            k <= n,
            parent@.len() == k,
            forall|v: int| 0 <= v < k ==> #[trigger] parent@[v] is None,
        decreases n - k,
    {
        parent.push(None);
        k = k + 1;
    }
    parent.set(root, Some(root));
    let ghost mut depth: Seq<int> = Seq::new(n as nat, |i: int| 0int);
    let ghost mut reached: Set<int> = set![root as int];
    let mut stack: Vec<usize> = Vec::new();
    stack.push(root);
    loop
        invariant
            graph_shape(*g),
            n == g.points@.len(),
            tree_links_ok(*g, tree_adj@),
            parents_ok(*g, root as int, parent@, depth),
            forall|i: int| 0 <= i < stack@.len() ==> (#[trigger] stack@[i]) < n && parent@[stack@[i] as int] is Some,
            reached.finite(),
            forall|v: int| #[trigger] reached.contains(v) ==> 0 <= v < n,
            forall|v: int| 0 <= v < n ==> (#[trigger] parent@[v] is Some <==> reached.contains(v)),
        decreases n - reached.len(), stack@.len(),
    {
        let cur = match stack.pop() {
            None => {
                break;
            },
            Some(c) => c,
        };
        let ghost reached0 = reached;
        let ghost popped_len = stack@.len();
        let deg = tree_adj[cur].len();
        let mut j: usize = 0;
        while j < deg
            invariant
                graph_shape(*g),
                n == g.points@.len(),
                tree_links_ok(*g, tree_adj@),
                cur < n,
                parent@[cur as int] is Some,
                deg == tree_adj@[cur as int]@.len(),
                j <= deg,
                parents_ok(*g, root as int, parent@, depth),
                forall|i: int| 0 <= i < stack@.len() ==> (#[trigger] stack@[i]) < n && parent@[stack@[i] as int] is Some,
                reached.finite(),
                reached0.subset_of(reached),
                reached.len() >= reached0.len(),
                reached.len() == reached0.len() ==> stack@.len() == popped_len,
                forall|v: int| #[trigger] reached.contains(v) ==> 0 <= v < n,
                forall|v: int| 0 <= v < n ==> (#[trigger] parent@[v] is Some <==> reached.contains(v)),
            decreases deg - j,
        {
            let next = tree_adj[cur][j];
            proof {
                assert(seg(*g, cur as int, tree_adj@[cur as int]@[j as int] as int));
            }
            if parent[next].is_none() {
                let ghost pre = parent@;
                let ghost depth0 = depth;
                parent.set(next, Some(cur));
                proof {
                    depth = depth.update(next as int, depth[cur as int] + 1);
                    assert(!reached.contains(next as int));
                    reached = reached.insert(next as int);
                    assert(seg(*g, cur as int, next as int));
                    assert forall|v: int|
                        0 <= v < parent@.len() && v != root && #[trigger] parent@[v] is Some implies ({
                            let p = parent@[v]->0 as int;
                            &&& 0 <= p < parent@.len()
                            &&& parent@[p] is Some
                            &&& depth[p] + 1 == depth[v]
                            &&& seg(*g, p, v)
                        }) by {
                        if v == next {
                            assert(parent@[v]->0 == cur);
                        }
                    }
                }
                stack.push(next);
            }
            j = j + 1;
        }
        proof {
            vstd::set_lib::lemma_int_range(0, n as int);
            assert(reached.subset_of(vstd::set_lib::set_int_range(0, n as int)));
            vstd::set_lib::lemma_len_subset(reached, vstd::set_lib::set_int_range(0, n as int));
            vstd::set_lib::lemma_len_subset(reached0, reached);
        }
    }
    (parent, Ghost(depth))
}

/// The tree walk from `root` to `leaf` along the parent links, if `leaf` was reached.
fn path_in_tree(
    g: &Graph,
    parent: &Vec<Option<usize>>,
    depth: Ghost<Seq<int>>,
    root: usize,
    leaf: usize,
) -> (r: Option<Vec<usize>>)
    requires
        parents_ok(*g, root as int, parent@, depth@),
        leaf < g.points@.len(),
    ensures
        r matches Some(p) ==> ({
            &&& p@.len() >= 1
            &&& p@[0] == root
            &&& p@.last() == leaf
            &&& forall|i: int| 0 <= i < p@.len() ==> (#[trigger] p@[i]) < g.points@.len()
            &&& forall|i: int| 0 < i < p@.len() ==> seg(*g, p@[i - 1] as int, #[trigger] p@[i] as int)
        }),
        r is Some <==> parent@[leaf as int] is Some,
{
    if parent[leaf].is_none() {
        return None;
    }
    let n = g.points.len();
    let mut back: Vec<usize> = Vec::new();
    back.push(leaf);
    let mut cur = leaf;
    while cur != root
        invariant
            parents_ok(*g, root as int, parent@, depth@),
            n == g.points@.len(),
            cur < n,
            parent@[cur as int] is Some,
            back@.len() >= 1,
            back@[0] == leaf,
            back@.last() == cur,
            forall|i: int| 0 <= i < back@.len() ==> (#[trigger] back@[i]) < n,
            forall|i: int| 0 < i < back@.len() ==> seg(*g, #[trigger] back@[i] as int, back@[i - 1] as int),
        decreases depth@[cur as int],
    {
        let p = parent[cur].unwrap();
        proof {
            assert(parent@[cur as int] is Some);
        }
        back.push(p);
        cur = p;
    }
    let m = back.len();
    let mut out: Vec<usize> = Vec::new();
    let mut i: usize = m;
    while i > 0
        invariant
            m == back@.len(),
            i <= m,
            out@.len() == m - i,
            forall|k: int| 0 <= k < out@.len() ==> #[trigger] out@[k] == back@[m - 1 - k],
        decreases i,
    {
        i = i - 1;
        out.push(back[i]);
    }
    proof {
        assert(out@[0] == back@[m - 1]);
        assert(out@.last() == back@[0]);
        assert forall|k: int| 0 <= k < out@.len() implies (#[trigger] out@[k]) < n by {
            assert(out@[k] == back@[m - 1 - k]);
        }
        assert forall|k: int| 0 < k < out@.len() implies seg(*g, out@[k - 1] as int, #[trigger] out@[k] as int) by {
            assert(out@[k] == back@[m - 1 - k]);
            assert(out@[k - 1] == back@[m - k]);
            assert(seg(*g, back@[m - k] as int, back@[m - k - 1] as int));
        }
    }
    Some(out)
}

/// One component of an ordering key.
pub enum KeyPart {
    Num(i64),
    Text(IdKey),
}

/// A text component carries its folded form.
pub open spec fn part_wf(p: KeyPart) -> bool {
    p matches KeyPart::Text(k) ==> k.folded@ == folded(k.text@)
}

/// Every component of every key is well formed.
pub open spec fn keys_wf(keys: Seq<Vec<KeyPart>>) -> bool {
    forall|i: int, j: int| 0 <= i < keys.len() && 0 <= j < keys[i]@.len() ==> part_wf(#[trigger] keys[i]@[j])
}

/// The order of key components: numbers before texts, numbers by value, texts by the router's
/// id order; -1, 0 or 1.
pub open spec fn part_order(a: KeyPart, b: KeyPart) -> i8 {
    match (a, b) {
        (KeyPart::Num(x), KeyPart::Num(y)) => if x < y {
            -1i8
        } else if x > y {
            1i8
        } else {
            0i8
        },
        (KeyPart::Text(x), KeyPart::Text(y)) => if id_lt(x.text@, y.text@) {
            -1i8
        } else if id_lt(y.text@, x.text@) {
            1i8
        } else {
            0i8
        },
        (KeyPart::Num(_), KeyPart::Text(_)) => -1i8,
        (KeyPart::Text(_), KeyPart::Num(_)) => 1i8,
    }
}

/// The components of a key from index `j` on.
pub open spec fn key_rest(s: Seq<KeyPart>, j: usize) -> Seq<KeyPart> {
    s.skip(j as int)
}

proof fn lemma_key_rest(s: Seq<KeyPart>, j: usize)
    requires
        j < s.len(),
        s.len() <= usize::MAX,
    ensures
        key_rest(s, j)[0] == s[j as int],
        key_rest(s, j).drop_first() == key_rest(s, (j + 1) as usize),
        key_rest(s, j).len() == s.len() - j,
{
    assert(key_rest(s, j).drop_first() =~= key_rest(s, (j + 1) as usize));
}

proof fn lemma_key_rest_len(s: Seq<KeyPart>, j: usize)
    requires
        j <= s.len(),
    ensures
        key_rest(s, j).len() == s.len() - j,
{
}

proof fn lemma_key_rest_start(s: Seq<KeyPart>)
    ensures
        key_rest(s, 0) == s,
{
    assert(s.skip(0) =~= s);
}

/// Key `a` comes strictly before key `b`: at the first component where they differ, or, when
/// one is a prefix of the other, by length.
pub open spec fn keys_before(a: Seq<KeyPart>, b: Seq<KeyPart>) -> bool
    decreases a.len(),
{
    if a.len() == 0 || b.len() == 0 {
        a.len() < b.len()
    } else if part_order(a[0], b[0]) != 0 {
        part_order(a[0], b[0]) < 0
    } else {
        keys_before(a.drop_first(), b.drop_first())
    }
}

/// Compares two key components: -1, 0 or 1.
fn part_cmp(a: &KeyPart, b: &KeyPart) -> (r: i8)
    requires
        part_wf(*a),
        part_wf(*b),
    ensures
        r == part_order(*a, *b),
{
    match (a, b) {
        (KeyPart::Num(x), KeyPart::Num(y)) => {
            if *x < *y {
                -1
            } else if *x > *y {
                1
            } else {
                0
            }
        },
        (KeyPart::Text(x), KeyPart::Text(y)) => {
            if key_lt(x, y) {
                -1
            } else if key_lt(y, x) {
                1
            } else {
                0
            }
        },
        (KeyPart::Num(_), KeyPart::Text(_)) => -1,
        (KeyPart::Text(_), KeyPart::Num(_)) => 1,
    }
}

/// Whether key `a` comes strictly before key `b`, component by component.
fn key_less(a: &Vec<KeyPart>, b: &Vec<KeyPart>) -> (r: bool)
    requires
        forall|j: int| 0 <= j < a@.len() ==> part_wf(#[trigger] a@[j]),
        forall|j: int| 0 <= j < b@.len() ==> part_wf(#[trigger] b@[j]),
    ensures
        r == keys_before(a@, b@),
{
    let mut j: usize = 0;
    proof {
        lemma_key_rest_start(a@);
        lemma_key_rest_start(b@);
    }
    while j < a.len() && j < b.len()
        invariant
            j <= a@.len(),
            j <= b@.len(),
            forall|t: int| 0 <= t < a@.len() ==> part_wf(#[trigger] a@[t]),
            forall|t: int| 0 <= t < b@.len() ==> part_wf(#[trigger] b@[t]),
            keys_before(a@, b@) == keys_before(key_rest(a@, j), key_rest(b@, j)),
        decreases a@.len() - j,
    {
        proof {
            lemma_key_rest(a@, j);
            lemma_key_rest(b@, j);
        }
        let c = part_cmp(&a[j], &b[j]);
        if c != 0 {
            return c < 0;
        }
        j = j + 1;
    }
    proof {
        lemma_key_rest_len(a@, j);
        lemma_key_rest_len(b@, j);
    }
    a.len() < b.len()
}

/// The indices `0..n`.
pub open spec fn index_range(n: int) -> Seq<usize> {
    Seq::new(n as nat, |i: int| i as usize)
}

/// The indices of the keys in key order, equal keys in index order.
fn sort_by_keys(keys: &Vec<Vec<KeyPart>>) -> (order: Vec<usize>)
    requires
        keys_wf(keys@),
    ensures
        order@.len() == keys@.len(),
        order@.to_multiset() == index_range(keys@.len() as int).to_multiset(),
        forall|k: int| 0 <= k < order@.len() ==> (#[trigger] order@[k]) < keys@.len(),
{
    broadcast use vstd::seq_lib::group_to_multiset_ensures;

    let n = keys.len();
    let mut order: Vec<usize> = Vec::new();
    let mut i: usize = 0;
    while i < n
        invariant
            n == keys@.len(),
            keys_wf(keys@),
            i <= n,
            order@.len() == i,
            order@.to_multiset() == index_range(i as int).to_multiset(),
            forall|k: int| 0 <= k < order@.len() ==> (#[trigger] order@[k]) < i,
        decreases n - i,
    {
        let mut pos: usize = order.len();
        while pos > 0 && key_less(&keys[i], &keys[order[pos - 1]])
            invariant
                n == keys@.len(),
                keys_wf(keys@),
                i < n,
                pos <= order@.len(),
                forall|k: int| 0 <= k < order@.len() ==> (#[trigger] order@[k]) < i,
            decreases pos,
        {
            proof {
                assert(order@[pos - 1] < i);
                assert forall|j: int| 0 <= j < keys@[i as int]@.len() implies part_wf(#[trigger] keys@[i as int]@[j]) by {}
            }
            pos = pos - 1;
        }
        let ghost before = order@;
        order.insert(pos, i);
        proof {
            vstd::seq_lib::to_multiset_insert(before, pos as int, i);
            assert(index_range(i + 1) =~= index_range(i as int).push(i));
            vstd::seq_lib::to_multiset_build(index_range(i as int), i);
            assert forall|k: int| 0 <= k < order@.len() implies (#[trigger] order@[k]) < i + 1 by {
                if k < pos {
                    assert(order@[k] == before[k]);
                } else if k > pos {
                    assert(order@[k] == before[k - 1]);
                }
            }
        }
        i = i + 1;
    }
    order
}

/// The magnitude `a / 2` (for `a = |2 * lo + size|`) as single precision rounds it: below
/// 2^23 half-way values go up, up to 2^24 they go to the even neighbour, and above that the
/// value is first rounded to an even integer with ties to the multiple of four.
pub open spec fn half_rounded(a: int) -> int {
    if a < 0x100_0000 {
        if a % 2 == 0 { a / 2 } else { (a + 1) / 2 }
    } else if a < 0x200_0000 {
        if a % 2 == 0 || (a / 2) % 2 == 0 { a / 2 } else { a / 2 + 1 }
    } else if a % 4 < 2 {
        2 * (a / 4)
    } else if a % 4 > 2 {
        2 * (a / 4) + 2
    } else if (a / 4) % 2 == 0 {
        2 * (a / 4)
    } else {
        2 * (a / 4) + 2
    }
}

/// The center of `[lo, lo + size]` rounded as above, with the sign of `2 * lo + size`
/// (half-way values move away from zero).
pub open spec fn rounded_center_value(lo: int, size: int) -> int {
    let twice = 2 * lo + size;
    if twice < 0 { -half_rounded(-twice) } else { half_rounded(twice) }
}

/// The rounded center coordinate of `[lo, lo + size]` as `lo + size / 2` in single precision,
/// rounded half away from zero: exact below 2^23, rounded to even at the single-precision
/// step above.
fn rounded_center(lo: i32, size: i32) -> (c: i32)
    requires
        in_range(lo as int, COORD_LIMIT as int),
        0 <= size <= COORD_LIMIT,
    ensures
        in_range(c as int, 2 * COORD_LIMIT as int),
        c == rounded_center_value(lo as int, size as int),
{
    let twice: i64 = 2 * (lo as i64) + (size as i64);
    let a: i64 = if twice < 0 { -twice } else { twice };
    let m: i64 = if a < 0x100_0000 {
        if a % 2 == 0 { a / 2 } else { (a + 1) / 2 }
    } else if a < 0x200_0000 {
        let k = a / 2;
        if a % 2 == 0 {
            k
        } else if k % 2 == 0 {
            k
        } else {
            k + 1
        }
    } else {
        let q = a / 4;
        let r = a % 4;
        if r < 2 {
            2 * q
        } else if r > 2 {
            2 * q + 2
        } else if q % 2 == 0 {
            2 * q
        } else {
            2 * q + 2
        }
    };
    let signed: i64 = if twice < 0 { -m } else { m };
    signed as i32
}

/// The first position at or after `i` where `s` holds `v`, or `s.len()` when there is none.
pub open spec fn first_from(s: Seq<i32>, v: i32, i: int) -> int
    decreases s.len() - i,
{
    if i < 0 || i >= s.len() {
        s.len() as int
    } else if s[i] == v {
        i
    } else {
        first_from(s, v, i + 1)
    }
}

/// The grid cell that `find_vertex` looks at for `p`: the first column at `p.x` and the first
/// row at `p.y`, when both exist.
pub open spec fn vertex_at(g: Graph, p: PointI) -> Option<usize> {
    let xi = first_from(g.xs@, p.x, 0);
    let yi = first_from(g.ys@, p.y, 0);
    if xi < g.xs@.len() && yi < g.ys@.len() && g.present@[cell(xi, yi, g.ys@.len() as int)] {
        Some(cell(xi, yi, g.ys@.len() as int) as usize)
    } else {
        None
    }
}

/// The vertex at grid point `p`, if it is present in the graph.
fn find_vertex(g: &Graph, p: PointI) -> (r: Option<usize>)
    requires
        g.points@.len() == g.xs@.len() * g.ys@.len(),
        g.present@.len() == g.points@.len(),
        g.points@.len() <= 0x1000_0000,
        forall|a: int, b: int|
            0 <= a < g.xs@.len() && 0 <= b < g.ys@.len() ==> g.points@[#[trigger] cell(a, b, g.ys@.len() as int)]
                == (PointI { x: g.xs@[a], y: g.ys@[b] }),
    ensures
        r == vertex_at(*g, p),
        r matches Some(v) ==> v < g.points@.len() && g.points@[v as int] == p && g.present@[v as int],
{
    let nx = g.xs.len();
    let ny = g.ys.len();
    let mut xi: usize = 0;
    while xi < nx && g.xs[xi] != p.x
        invariant
            nx == g.xs@.len(),
            xi <= nx,
            first_from(g.xs@, p.x, 0) == first_from(g.xs@, p.x, xi as int),
        decreases nx - xi,
    {
        xi = xi + 1;
    }
    let mut yi: usize = 0;
    while yi < ny && g.ys[yi] != p.y
        invariant
            ny == g.ys@.len(),
            yi <= ny,
            first_from(g.ys@, p.y, 0) == first_from(g.ys@, p.y, yi as int),
        decreases ny - yi,
    {
        yi = yi + 1;
    }
    assert(first_from(g.xs@, p.x, 0) == xi);
    assert(first_from(g.ys@, p.y, 0) == yi);
    if xi == nx || yi == ny {
        return None;
    }
    proof {
        crate::render::route_graph::lemma_cell_bound(xi as int, yi as int, nx as int, ny as int);
    }
    let v = xi * ny + yi;
    if g.present[v] {
        proof {
            assert(g.points@[cell(xi as int, yi as int, ny as int)] == (PointI { x: g.xs@[xi as int], y: g.ys@[yi as int] }));
        }
        Some(v)
    } else {
        None
    }
}

/// Where an edge leaves a source box: below its bottom center, past the clearance and any
/// obstacle.
pub open spec fn exit_point(b: RectI, obstacles: Seq<Obstacle>) -> PointI {
    PointI {
        x: center_x(b) as i32,
        y: pushed_below(center_x(b) as i32, b.y + b.h + CLEARANCE_PX + ROUTE_PAD_PX, obstacles) as i32,
    }
}

/// Where an edge enters a target box: above its top center, past the clearance and any
/// obstacle.
pub open spec fn entry_point(b: RectI, obstacles: Seq<Obstacle>) -> PointI {
    PointI { x: center_x(b) as i32, y: entry_y(b, obstacles) as i32 }
}

/// The bottom center of a source box, where its edges start.
pub open spec fn source_anchor(b: RectI) -> PointI {
    PointI { x: center_x(b) as i32, y: (b.y + b.h) as i32 }
}

/// The top center of a target box, where its edges end.
pub open spec fn target_anchor(b: RectI) -> PointI {
    PointI { x: center_x(b) as i32, y: b.y }
}

/// The ports of an edge between the boxes, as [`ports_for_edge`] computes them.
pub open spec fn ports_of(a: RectI, b: RectI, obstacles: Seq<Obstacle>, p: NodePorts) -> bool {
    &&& p.source_anchor == source_anchor(a)
    &&& p.source_exit == exit_point(a, obstacles)
    &&& p.target_entry == entry_point(b, obstacles)
    &&& p.target_anchor == target_anchor(b)
    &&& free(obstacles, p.source_exit)
    &&& free(obstacles, p.target_entry)
    &&& in_range(p.source_exit.y as int, push_limit())
    &&& in_range(p.target_entry.y as int, push_limit())
    &&& p.target_entry.y < b.y
    &&& p.target_entry.y as int == entry_y(b, obstacles)
}

proof fn lemma_ports_of(a: RectI, b: RectI, obstacles: Seq<Obstacle>, p: NodePorts)
    requires
        box_ok(a),
        box_ok(b),
        p.source_anchor == (PointI { x: center_x(a) as i32, y: (a.y + a.h) as i32 }),
        p.source_exit.x == center_x(a),
        p.source_exit.y == pushed_below(center_x(a) as i32, a.y + a.h + CLEARANCE_PX + ROUTE_PAD_PX, obstacles),
        p.target_entry.y == pushed_above(center_x(b) as i32, b.y - CLEARANCE_PX - ROUTE_PAD_PX, obstacles),
        free(obstacles, p.source_exit),
        p.target_entry.x == center_x(b),
        p.target_entry.y <= b.y - CLEARANCE_PX - ROUTE_PAD_PX,
        free(obstacles, p.target_entry),
        p.target_anchor == (PointI { x: center_x(b) as i32, y: b.y }),
        in_range(p.source_exit.y as int, 2 * COORD_LIMIT + 300),
        in_range(p.target_entry.y as int, 2 * COORD_LIMIT + 300),
    ensures
        ports_of(a, b, obstacles, p),
{
}

/// The first endpoint, scanning edges `i..` in order (source, then target), that names no
/// placed node.
pub open spec fn first_missing(pos: Seq<(String, PositionedNode)>, edges: Seq<LayoutEdge>, i: int) -> Option<Seq<char>>
    decreases edges.len() - i,
{
    if i >= edges.len() || i < 0 {
        None
    } else if box_of(pos, edges[i].a@) is None {
        Some(edges[i].a@)
    } else if box_of(pos, edges[i].b@) is None {
        Some(edges[i].b@)
    } else {
        first_missing(pos, edges, i + 1)
    }
}

/// The boxes and ports of every edge, or the first endpoint that names no placed node.
fn edge_ports(
    positioned: &Vec<(String, PositionedNode)>,
    edges: &Vec<LayoutEdge>,
    obstacles: &Vec<Obstacle>,
) -> (r: Result<(Vec<RectI>, Vec<RectI>, Vec<NodePorts>), String>)
    requires
        boxes_ok(positioned@),
        obstacles_ok(obstacles@),
    ensures
        match r {
            Ok((src, dst, ports)) => {
                &&& first_missing(positioned@, edges@, 0) is None
                &&& src@.len() == edges@.len()
                &&& dst@.len() == edges@.len()
                &&& ports@.len() == edges@.len()
                &&& forall|i: int|
                    0 <= i < edges@.len() ==> box_of(positioned@, (#[trigger] edges@[i]).a@) == Some(src@[i]) && box_of(
                        positioned@,
                        edges@[i].b@,
                    ) == Some(dst@[i]) && box_ok(src@[i]) && box_ok(dst@[i]) && ports_of(src@[i], dst@[i], obstacles@, ports@[i])
            },
            Err(id) => first_missing(positioned@, edges@, 0) == Some(id@),
        },
{
    let ghost pos = positioned@;
    let mut src: Vec<RectI> = Vec::new();
    let mut dst: Vec<RectI> = Vec::new();
    let mut ports: Vec<NodePorts> = Vec::new();
    let mut i: usize = 0;
    while i < edges.len()
        invariant
            boxes_ok(positioned@),
            obstacles_ok(obstacles@),
            i <= edges@.len(),
            first_missing(positioned@, edges@, 0) == first_missing(positioned@, edges@, i as int),
            src@.len() == i,
            dst@.len() == i,
            ports@.len() == i,
            forall|t: int|
                0 <= t < i ==> box_of(positioned@, (#[trigger] edges@[t]).a@) == Some(src@[t]) && box_of(
                    positioned@,
                    edges@[t].b@,
                ) == Some(dst@[t]) && box_ok(src@[t]) && box_ok(dst@[t]) && ports_of(src@[t], dst@[t], obstacles@, ports@[t]),
        decreases edges@.len() - i,
    {
        let e = &edges[i];
        let a = match lookup_box(positioned, e.a.as_str()) {
            Some(b) => b,
            None => {
                return Err(e.a.clone());
            },
        };
        let b = match lookup_box(positioned, e.b.as_str()) {
            Some(b) => b,
            None => {
                return Err(e.b.clone());
            },
        };
        proof {
            lemma_last_with_id(positioned@, e.a@);
            lemma_last_with_id(positioned@, e.b@);
            let ka = last_with_id(positioned@, e.a@)->0;
            let kb = last_with_id(positioned@, e.b@)->0;
            assert(box_ok(positioned@[ka].1.bbox));
            assert(box_ok(positioned@[kb].1.bbox));
        }
        let p = ports_for_edge(a, b, obstacles);
        proof {
            lemma_ports_of(a, b, obstacles@, p);
        }
        src.push(a);
        dst.push(b);
        ports.push(p);
        i = i + 1;
    }
    Ok((src, dst, ports))
}

proof fn lemma_linked_seg(g: Graph, u: int, v: int)
    requires
        graph_shape(g),
        0 <= u < g.points@.len(),
        linked(g, u, v),
    ensures
        seg(g, u, v),
        seg(g, v, u),
{
    let j = choose|j: int| 0 <= j < g.adj@[u]@.len() && (#[trigger] g.adj@[u]@[j]).to == v;
    assert(crate::render::route_graph::edge_ok(g, u, g.adj@[u]@[j]));
}

/// The first position at or after `i` in `links` of a link to `b`, or `links.len()`.
pub open spec fn first_link_to(links: Seq<AdjEdge>, b: usize, i: int) -> int
    decreases links.len() - i,
{
    if i < 0 || i >= links.len() {
        links.len() as int
    } else if links[i].to == b {
        i
    } else {
        first_link_to(links, b, i + 1)
    }
}

/// A count that goes up by one unless it is at its limit.
pub open spec fn bumped(count: u32) -> u32 {
    if count < u32::MAX { (count + 1) as u32 } else { count }
}

/// The reservation of a link after one more use by a route of source `source_ord` toward
/// target `target_ord`.
pub open spec fn reserved_after(
    cur: Option<Reservation>,
    is_collector: bool,
    source_ord: usize,
    target_ord: usize,
) -> Reservation {
    match cur {
        Some(Reservation::Source { primary, count }) => Reservation::Source {
            primary,
            count: if primary != source_ord { bumped(count) } else { count },
        },
        Some(Reservation::TargetCollector { target, count }) => Reservation::TargetCollector {
            target,
            count: if target == target_ord { bumped(count) } else { count },
        },
        None => if is_collector {
            Reservation::TargetCollector { target: target_ord, count: 1 }
        } else {
            Reservation::Source { primary: source_ord, count: 1 }
        },
    }
}

/// Records that a route of source `source_ord` toward target `target_ord` uses the link from
/// `a` to `b`: a first use reserves it for the target when it lies on a collector, else for
/// the source; a later use counts once more when it comes from another source (or, on a
/// collector, from the same target).
fn reserve_link(
    g: &Graph,
    reservations: &mut Vec<Option<Reservation>>,
    a: usize,
    b: usize,
    source_ord: usize,
    target_ord: usize,
)
    requires
        graph_shape(*g),
        a < g.points@.len(),
        linked(*g, a as int, b as int),
        old(reservations)@.len() == 2 * g.points@.len(),
    ensures
        final(reservations)@.len() == 2 * g.points@.len(),
        ({
            let links = g.adj@[a as int]@;
            let j = first_link_to(links, b, 0);
            if j < links.len() {
                let e = links[j];
                final(reservations)@ == old(reservations)@.update(
                    e.key as int,
                    Some(reserved_after(old(reservations)@[e.key as int], e.collector_target is Some, source_ord, target_ord)),
                )
            } else {
                final(reservations)@ == old(reservations)@
            }
        }),
{
    let deg = g.adj[a].len();
    let mut j: usize = 0;
    while j < deg && g.adj[a][j].to != b
        invariant
            graph_shape(*g),
            a < g.points@.len(),
            deg == g.adj@[a as int]@.len(),
            j <= deg,
            forall|t: int| 0 <= t < j ==> (#[trigger] g.adj@[a as int]@[t]).to != b,
            first_link_to(g.adj@[a as int]@, b, 0) == first_link_to(g.adj@[a as int]@, b, j as int),
        decreases deg - j,
    {
        j = j + 1;
    }
    assert(first_link_to(g.adj@[a as int]@, b, 0) == j);
    if j == deg {
        return;
    }
    let e = g.adj[a][j];
    proof {
        assert(crate::render::route_graph::edge_ok(*g, a as int, g.adj@[a as int]@[j as int]));
    }
    let key = e.key;
    let is_collector = e.collector_target.is_some();
    let updated = match reservations[key] {
        Some(Reservation::Source { primary, count }) => {
            if primary != source_ord {
                Reservation::Source { primary, count: if count < u32::MAX { count + 1 } else { count } }
            } else {
                Reservation::Source { primary, count }
            }
        },
        Some(Reservation::TargetCollector { target, count }) => {
            if target == target_ord {
                Reservation::TargetCollector { target, count: if count < u32::MAX { count + 1 } else { count } }
            } else {
                Reservation::TargetCollector { target, count }
            }
        },
        None => {
            if is_collector {
                Reservation::TargetCollector { target: target_ord, count: 1 }
            } else {
                Reservation::Source { primary: source_ord, count: 1 }
            }
        },
    };
    reservations.set(key, Some(updated));
}

/// The points of a routed edge are orthogonal from the source anchor to the target anchor,
/// with every inner point outside the obstacles.
pub open spec fn polyline_ok(pts: Seq<PointI>, a: RectI, b: RectI, obstacles: Seq<Obstacle>) -> bool {
    &&& pts.len() >= 2
    &&& pts[0] == source_anchor(a)
    &&& pts.last() == target_anchor(b)
    &&& orthogonal(pts)
    &&& forall|k: int| 0 < k < pts.len() - 1 ==> free(obstacles, #[trigger] pts[k])
}

/// Where route `k` of a group stands among all routes.
pub open spec fn group_routes_ok(
    routes: Seq<RouteI>,
    from: int,
    order: Seq<usize>,
    start: int,
    count: int,
    specs: Seq<EdgeSpec>,
    src: Seq<RectI>,
    dst: Seq<RectI>,
    obstacles: Seq<Obstacle>,
) -> bool {
    forall|k: int|
        0 <= k < count ==> ({
            let i = order[start + k] as int;
            let r = #[trigger] routes[from + k];
            &&& r.edge_id@ == specs[i].edge_id@
            &&& r.source_id@ == specs[i].source_id@
            &&& r.target_id@ == specs[i].target_id@
            &&& r.track_id@ == "auto"@
            &&& polyline_ok(r.points@, src[i], dst[i], obstacles)
        })
}

/// The routes of one source: the edges `order[start..end]` (all from that source), in that
/// order. Each is joined to the source's routing tree by a least-cost walk, then drawn from
/// the source anchor down the tree to its target anchor.
fn route_group(
    g: &Graph,
    obstacles: &Vec<Obstacle>,
    order: &Vec<usize>,
    start: usize,
    end: usize,
    specs: &Vec<EdgeSpec>,
    src: &Vec<RectI>,
    dst: &Vec<RectI>,
    ports: &Vec<NodePorts>,
    target_ord: &Vec<usize>,
    source_ord: usize,
    reservations: &mut Vec<Option<Reservation>>,
    routes: &mut Vec<RouteI>,
) -> (r: Result<(), RenderError>)
    requires
        graph_wf(*g, obstacles@),
        obstacles_ok(obstacles@),
        g.points@.len() == g.xs@.len() * g.ys@.len(),
        g.points@.len() <= 0x1000_0000,
        forall|a: int, b: int|
            0 <= a < g.xs@.len() && 0 <= b < g.ys@.len() ==> g.points@[#[trigger] cell(a, b, g.ys@.len() as int)]
                == (PointI { x: g.xs@[a], y: g.ys@[b] }),
        start < end <= order@.len(),
        specs@.len() == src@.len(),
        dst@.len() == src@.len(),
        ports@.len() == src@.len(),
        target_ord@.len() == src@.len(),
        forall|k: int| 0 <= k < order@.len() ==> (#[trigger] order@[k]) < src@.len(),
        forall|i: int| 0 <= i < src@.len() ==> box_ok(#[trigger] src@[i]) && box_ok(dst@[i]) && ports_of(src@[i], dst@[i], obstacles@, ports@[i]),
        forall|k: int| start <= k < end ==> src@[#[trigger] order@[k] as int] == src@[order@[start as int] as int],
        old(reservations)@.len() == 2 * g.points@.len(),
    ensures
        final(reservations)@.len() == 2 * g.points@.len(),
        final(routes)@.len() >= old(routes)@.len(),
        final(routes)@.subrange(0, old(routes)@.len() as int) == old(routes)@,
        r is Ok ==> final(routes)@.len() == old(routes)@.len() + (end - start) && group_routes_ok(
            final(routes)@,
            old(routes)@.len() as int,
            order@,
            start as int,
            end - start,
            specs@,
            src@,
            dst@,
            obstacles@,
        ),
        r is Err ==> r == Err::<(), RenderError>(RenderError::SvgRouteFailed),
{
    let ghost routes0 = routes@;
    let n = g.points.len();
    let first = order[start];
    let sbox = src[first];
    let root_ports = ports_for_edge(sbox, sbox, obstacles);
    let root_exit = root_ports.source_exit;
    if !is_free_point(root_exit, obstacles) {
        return Err(RenderError::SvgRouteFailed);
    }
    let root = match find_vertex(g, root_exit) {
        Some(v) => v,
        None => {
            return Err(RenderError::SvgRouteFailed);
        },
    };
    let mut leaves: Vec<usize> = Vec::new();
    let mut k: usize = start;
    while k < end
        invariant
            start <= k <= end <= order@.len(),
            leaves@.len() == k - start,
            forall|t: int| 0 <= t < leaves@.len() ==> (#[trigger] leaves@[t]) < n && g.points@[leaves@[t] as int]
                == ports@[order@[start + t] as int].target_entry && g.present@[leaves@[t] as int],
            n == g.points@.len(),
            g.points@.len() == g.xs@.len() * g.ys@.len(),
            g.present@.len() == n,
            n <= 0x1000_0000,
            forall|a: int, b: int|
                0 <= a < g.xs@.len() && 0 <= b < g.ys@.len() ==> g.points@[#[trigger] cell(a, b, g.ys@.len() as int)]
                    == (PointI { x: g.xs@[a], y: g.ys@[b] }),
            forall|t: int| 0 <= t < order@.len() ==> (#[trigger] order@[t]) < src@.len(),
            ports@.len() == src@.len(),
            reservations@.len() == 2 * g.points@.len(),
            routes@ == old(routes)@,
        decreases end - k,
    {
        let i = order[k];
        match find_vertex(g, ports[i].target_entry) {
            Some(v) => {
                leaves.push(v);
            },
            None => {
                return Err(RenderError::SvgRouteFailed);
            },
        }
        k = k + 1;
    }
    let mut tree_vertices: Vec<bool> = Vec::new();
    let mut tree_adj: Vec<Vec<usize>> = Vec::new();
    let mut v: usize = 0;
    while v < n
        invariant
            v <= n,
            tree_vertices@.len() == v,
            tree_adj@.len() == v,
            forall|t: int| 0 <= t < v ==> (#[trigger] tree_adj@[t])@.len() == 0,
        decreases n - v,
    {
        tree_vertices.push(false);
        tree_adj.push(Vec::new());
        v = v + 1;
    }
    tree_vertices.set(root, true);
    let m = end - start;
    let mut li: usize = 0;
    while li < m
        invariant
            graph_wf(*g, obstacles@),
            n == g.points@.len(),
            n <= 0x1000_0000,
            m == end - start,
            start < end <= order@.len(),
            leaves@.len() == m,
            li <= m,
            tree_vertices@.len() == n,
            tree_links_ok(*g, tree_adj@),
            reservations@.len() == 2 * n,
            target_ord@.len() == src@.len(),
            forall|t: int| 0 <= t < order@.len() ==> (#[trigger] order@[t]) < src@.len(),
            routes@ == old(routes)@,
            forall|t: int| 0 <= t < leaves@.len() ==> (#[trigger] leaves@[t]) < n,
        decreases m - li,
    {
        let leaf = leaves[li];
        let tord = target_ord[order[start + li]];
        let path = match dijkstra_path(g, &tree_vertices, leaf, reservations, source_ord, tord) {
            Some(p) => p,
            None => {
                return Err(RenderError::SvgRouteFailed);
            },
        };
        let plen = path.len();
        let mut w: usize = 1;
        while w < plen
            invariant
                graph_wf(*g, obstacles@),
                n == g.points@.len(),
                plen == path@.len(),
                walk(*g, path@),
                1 <= w <= plen,
                tree_links_ok(*g, tree_adj@),
                reservations@.len() == 2 * n,
            decreases plen - w,
        {
            let a = path[w - 1];
            let b = path[w];
            proof {
                assert(linked(*g, path@[w - 1] as int, path@[w as int] as int));
                assert(path@[w - 1] < n);
                lemma_linked_seg(*g, a as int, b as int);
            }
            let ghost adj0 = tree_adj@;
            let mut la: Vec<usize> = Vec::new();
            std::mem::swap(&mut la, &mut tree_adj[a]);
            la.push(b);
            tree_adj.set(a, la);
            let mut lb: Vec<usize> = Vec::new();
            std::mem::swap(&mut lb, &mut tree_adj[b]);
            lb.push(a);
            tree_adj.set(b, lb);
            proof {
                assert forall|x: int, j: int| 0 <= x < tree_adj@.len() && 0 <= j < tree_adj@[x]@.len() implies seg(
                    *g,
                    x,
                    #[trigger] tree_adj@[x]@[j] as int,
                ) by {
                    if x == b && j == tree_adj@[x]@.len() - 1 {
                    } else if x == a && j == tree_adj@[x]@.len() - 1 && a != b {
                    } else {
                        assert(tree_adj@[x]@[j] == adj0[x]@[j]);
                    }
                }
            }
            reserve_link(g, reservations, a, b, source_ord, tord);
            w = w + 1;
        }
        let mut q: usize = 0;
        while q < plen
            invariant
                n == g.points@.len(),
                plen == path@.len(),
                walk(*g, path@),
                tree_vertices@.len() == n,
            decreases plen - q,
        {
            tree_vertices.set(path[q], true);
            q = q + 1;
        }
        li = li + 1;
    }
    proof {
        assert(graph_shape(*g));
        assert(forall|i: int| 0 <= i < src@.len() ==> box_ok(#[trigger] src@[i]) && box_ok(dst@[i]) && ports_of(src@[i], dst@[i], obstacles@, ports@[i]));
    }
    let (parent, depth) = tree_parent_map(g, root, &tree_adj);
    proof {
        assert(forall|i: int| 0 <= i < src@.len() ==> box_ok(#[trigger] src@[i]) && box_ok(dst@[i]) && ports_of(src@[i], dst@[i], obstacles@, ports@[i]));
    }
    let mut li: usize = 0;
    while li < m
        invariant
            graph_wf(*g, obstacles@),
            obstacles_ok(obstacles@),
            n == g.points@.len(),
            m == end - start,
            start < end <= order@.len(),
            leaves@.len() == m,
            li <= m,
            parents_ok(*g, root as int, parent@, depth@),
            g.points@[root as int] == root_exit,
            root_exit == exit_point(sbox, obstacles@),
            sbox == src@[order@[start as int] as int],
            specs@.len() == src@.len(),
            dst@.len() == src@.len(),
            ports@.len() == src@.len(),
            forall|t: int| 0 <= t < order@.len() ==> (#[trigger] order@[t]) < src@.len(),
            forall|i: int| 0 <= i < src@.len() ==> box_ok(#[trigger] src@[i]) && box_ok(dst@[i]) && ports_of(src@[i], dst@[i], obstacles@, ports@[i]),
            forall|t: int| start <= t < end ==> src@[#[trigger] order@[t] as int] == src@[order@[start as int] as int],
            forall|t: int| 0 <= t < leaves@.len() ==> (#[trigger] leaves@[t]) < n && g.points@[leaves@[t] as int]
                == ports@[order@[start + t] as int].target_entry && g.present@[leaves@[t] as int],
            routes@.len() == routes0.len() + li,
            routes@.subrange(0, routes0.len() as int) == routes0,
            routes0 == old(routes)@,
            reservations@.len() == 2 * n,
            group_routes_ok(routes@, routes0.len() as int, order@, start as int, li as int, specs@, src@, dst@, obstacles@),
        decreases m - li,
    {
        let i = order[start + li];
        let leaf = leaves[li];
        let tpath = match path_in_tree(g, &parent, depth, root, leaf) {
            Some(p) => p,
            None => {
                return Err(RenderError::SvgRouteFailed);
            },
        };
        let p = ports[i];
        let mut raw: Vec<PointI> = Vec::new();
        raw.push(p.source_anchor);
        raw.push(p.source_exit);
        let tl = tpath.len();
        let mut t: usize = 1;
        proof {
            assert(src@[i as int] == sbox);
            assert(ports_of(src@[i as int], dst@[i as int], obstacles@, p));
            assert(p.source_exit == g.points@[tpath@[0] as int]);
        }
        while t < tl
            invariant
                graph_wf(*g, obstacles@),
                n == g.points@.len(),
                tl == tpath@.len(),
                tpath@.len() >= 1,
                forall|x: int| 0 <= x < tpath@.len() ==> (#[trigger] tpath@[x]) < n,
                forall|x: int| 0 < x < tpath@.len() ==> seg(*g, tpath@[x - 1] as int, #[trigger] tpath@[x] as int),
                1 <= t <= tl,
                raw@.len() == t + 1,
                raw@[0] == p.source_anchor,
                raw@.last() == g.points@[tpath@[t - 1] as int],
                p.source_anchor.x == p.source_exit.x,
                raw@[1] == p.source_exit,
                free(obstacles@, p.source_exit),
                orthogonal(raw@),
                forall|x: int| 0 < x < raw@.len() ==> free(obstacles@, #[trigger] raw@[x]),
            decreases tl - t,
        {
            let pt = g.points[tpath[t]];
            let ghost before = raw@;
            raw.push(pt);
            proof {
                assert(seg(*g, tpath@[t - 1] as int, tpath@[t as int] as int));
                assert(g.present@[tpath@[t as int] as int]);
                assert forall|x: int| 0 < x < raw@.len() implies (raw@[x - 1].x == (#[trigger] raw@[x]).x || raw@[x - 1].y
                    == raw@[x].y) by {
                    if x < before.len() {
                        assert(raw@[x] == before[x]);
                        assert(raw@[x - 1] == before[x - 1]);
                    }
                }
                assert forall|x: int| 0 < x < raw@.len() implies free(obstacles@, #[trigger] raw@[x]) by {
                    if x < before.len() {
                        assert(raw@[x] == before[x]);
                    }
                }
            }
            t = t + 1;
        }
        let ghost before = raw@;
        raw.push(p.target_anchor);
        proof {
            assert(tpath@.last() == leaf);
            assert(g.points@[leaf as int] == p.target_entry);
            assert forall|x: int| 0 < x < raw@.len() implies (raw@[x - 1].x == (#[trigger] raw@[x]).x || raw@[x - 1].y == raw@[x].y) by {
                if x < before.len() {
                    assert(raw@[x] == before[x]);
                    assert(raw@[x - 1] == before[x - 1]);
                }
            }
            assert forall|x: int| 0 < x < raw@.len() - 1 implies free(obstacles@, #[trigger] raw@[x]) by {
                assert(raw@[x] == before[x]);
            }
        }
        proof {
            crate::render::router_geom::lemma_pushed_below_bounds(
                center_x(src@[i as int]) as i32,
                src@[i as int].y + src@[i as int].h + CLEARANCE_PX + ROUTE_PAD_PX,
                obstacles@,
            );
            assert(raw@[1].y > raw@[0].y);
        }
        let pts = compress_points(raw);
        proof {
            assert forall|x: int| 0 < x < pts@.len() - 1 implies free(obstacles@, #[trigger] pts@[x]) by {
                let j = choose|j: int| 0 < j < raw@.len() - 1 && raw@[j] == pts@[x];
            }
        }
        let ghost r0 = routes@;
        routes.push(
            RouteI {
                edge_id: specs[i].edge_id.clone(),
                source_id: specs[i].source_id.clone(),
                target_id: specs[i].target_id.clone(),
                points: pts,
                junction_ids: Vec::new(),
                track_id: String::from_str("auto"),
            },
        );
        proof {
            reveal_strlit("auto");
            assert(routes@.subrange(0, routes0.len() as int) =~= routes0) by {
                assert(r0.subrange(0, routes0.len() as int) == routes0);
                assert forall|x: int| 0 <= x < routes0.len() implies routes@[x] == r0[x] by {}
            }
            assert forall|kk: int| 0 <= kk < li + 1 implies ({
                let ii = order@[start + kk] as int;
                let rr = #[trigger] routes@[routes0.len() + kk];
                &&& rr.edge_id@ == specs@[ii].edge_id@
                &&& rr.source_id@ == specs@[ii].source_id@
                &&& rr.target_id@ == specs@[ii].target_id@
                &&& rr.track_id@ == "auto"@
                &&& polyline_ok(rr.points@, src@[ii], dst@[ii], obstacles@)
            }) by {
                if kk < li {
                    assert(routes@[routes0.len() + kk] == r0[routes0.len() + kk]);
                } else {
                    assert(src@[i as int] == sbox);
                }
            }
        }
        li = li + 1;
    }
    Ok(())
}

/// How often `p` occurs in `s`.
pub open spec fn count_in(s: Seq<PointI>, p: PointI) -> nat
    decreases s.len(),
{
    if s.len() == 0 {
        0
    } else {
        count_in(s.drop_last(), p) + if s.last() == p {
            1nat
        } else {
            0nat
        }
    }
}

/// How often `p` occurs over all polylines.
pub open spec fn count_all(all: Seq<Seq<PointI>>, p: PointI) -> nat
    decreases all.len(),
{
    if all.len() == 0 {
        0
    } else {
        count_all(all.drop_last(), p) + count_in(all.last(), p)
    }
}

/// The junction id of a point: `"j:{x}:{y}"`.
pub open spec fn junction_text(p: PointI) -> Seq<char> {
    "j:"@ + int_text(p.x as int) + ":"@ + int_text(p.y as int)
}

/// The junction ids of the inner points `1..e` of `pts` that occur more than once over all
/// polylines, in order.
pub open spec fn junctions_upto(pts: Seq<PointI>, all: Seq<Seq<PointI>>, e: int) -> Seq<Seq<char>>
    decreases e,
{
    if e <= 1 {
        Seq::empty()
    } else {
        junctions_upto(pts, all, e - 1) + if count_all(all, pts[e - 1]) > 1 {
            seq![junction_text(pts[e - 1])]
        } else {
            Seq::empty()
        }
    }
}

/// The junction ids of a route: its inner points shared with another point of any route.
pub open spec fn junctions_of(pts: Seq<PointI>, all: Seq<Seq<PointI>>) -> Seq<Seq<char>> {
    junctions_upto(pts, all, pts.len() - 1)
}

/// The points of each route.
pub open spec fn route_points(routes: Seq<RouteI>) -> Seq<Seq<PointI>> {
    routes.map_values(|r: RouteI| r.points@)
}

/// The texts of a list of strings.
pub open spec fn texts(v: Seq<String>) -> Seq<Seq<char>> {
    v.map_values(|s: String| s@)
}

/// How often `p` occurs in `s`, counting at most two.
fn count_in_capped(s: &Vec<PointI>, p: PointI) -> (c: u64)
    ensures
        c == if count_in(s@, p) < 2 { count_in(s@, p) } else { 2 },
{
    let mut c: u64 = 0;
    let mut t: usize = 0;
    while t < s.len()
        invariant
            t <= s@.len(),
            c == if count_in(s@.take(t as int), p) < 2 { count_in(s@.take(t as int), p) } else { 2 },
        decreases s@.len() - t,
    {
        proof {
            assert(s@.take(t + 1).drop_last() =~= s@.take(t as int));
        }
        if s[t] == p && c < 2 {
            c = c + 1;
        }
        t = t + 1;
    }
    proof {
        assert(s@.take(s@.len() as int) =~= s@);
    }
    c
}

/// How often `p` occurs over all routes, counting at most two.
fn count_all_capped(routes: &Vec<RouteI>, p: PointI) -> (c: u64)
    ensures
        c == if count_all(route_points(routes@), p) < 2 { count_all(route_points(routes@), p) } else { 2 },
{
    let mut c: u64 = 0;
    let mut q: usize = 0;
    while q < routes.len()
        invariant
            q <= routes@.len(),
            c == if count_all(route_points(routes@.take(q as int)), p) < 2 {
                count_all(route_points(routes@.take(q as int)), p)
            } else {
                2
            },
        decreases routes@.len() - q,
    {
        let d = count_in_capped(&routes[q].points, p);
        proof {
            assert(route_points(routes@.take(q + 1)).drop_last() =~= route_points(routes@.take(q as int)));
            assert(route_points(routes@.take(q + 1)).last() == routes@[q as int].points@);
        }
        c = if c + d < 2 { c + d } else { 2 };
        q = q + 1;
    }
    proof {
        assert(routes@.take(routes@.len() as int) =~= routes@);
    }
    c
}

/// The junction ids of route `q`; see [`junctions_of`].
fn junction_ids_for_route(routes: &Vec<RouteI>, q: usize) -> (ids: Vec<String>)
    requires
        q < routes@.len(),
    ensures
        texts(ids@) == junctions_of(routes@[q as int].points@, route_points(routes@)),
{
    let pts = &routes[q].points;
    let n = pts.len();
    let mut ids: Vec<String> = Vec::new();
    if n < 2 {
        proof {
            assert(texts(ids@) =~= junctions_of(pts@, route_points(routes@)));
        }
        return ids;
    }
    let mut e: usize = 1;
    while e < n - 1
        invariant
            n == pts@.len(),
            n >= 2,
            1 <= e <= n - 1,
            pts@ == routes@[q as int].points@,
            texts(ids@) == junctions_upto(pts@, route_points(routes@), e as int),
        decreases n - 1 - e,
    {
        let p = pts[e];
        let c = count_all_capped(routes, p);
        let ghost before = ids@;
        if c > 1 {
            let mut text: Vec<char> = Vec::new();
            push_str(&mut text, "j:");
            push_int(&mut text, p.x as i64);
            push_str(&mut text, ":");
            push_int(&mut text, p.y as i64);
            proof {
                assert(text@ =~= junction_text(p));
            }
            ids.push(string_from_chars(text.as_slice()));
            proof {
                assert(texts(ids@) =~= texts(before).push(junction_text(p)));
            }
        }
        proof {
            assert(texts(ids@) =~= junctions_upto(pts@, route_points(routes@), e + 1));
        }
        e = e + 1;
    }
    ids
}

/// Sets every route's junction ids; see [`junctions_of`].
fn set_junctions(routes: &mut Vec<RouteI>)
    ensures
        final(routes)@.len() == old(routes)@.len(),
        route_points(final(routes)@) == route_points(old(routes)@),
        forall|q: int|
            0 <= q < final(routes)@.len() ==> {
                let r = #[trigger] final(routes)@[q];
                let o = old(routes)@[q];
                &&& r.edge_id == o.edge_id
                &&& r.source_id == o.source_id
                &&& r.target_id == o.target_id
                &&& r.points == o.points
                &&& r.track_id == o.track_id
                &&& texts(r.junction_ids@) == junctions_of(r.points@, route_points(old(routes)@))
            },
{
    let n = routes.len();
    let mut all_ids: Vec<Vec<String>> = Vec::new();
    let mut q: usize = 0;
    while q < n
        invariant
            n == routes@.len(),
            routes@ == old(routes)@,
            q <= n,
            all_ids@.len() == q,
            forall|t: int| 0 <= t < q ==> texts((#[trigger] all_ids@[t])@) == junctions_of(routes@[t].points@, route_points(routes@)),
        decreases n - q,
    {
        all_ids.push(junction_ids_for_route(routes, q));
        q = q + 1;
    }
    let mut q: usize = 0;
    while q < n
        invariant
            n == routes@.len(),
            n == old(routes)@.len(),
            q <= n,
            all_ids@.len() == n,
            forall|t: int| q <= t < n ==> texts((#[trigger] all_ids@[t])@) == junctions_of(old(routes)@[t].points@, route_points(old(routes)@)),
            forall|t: int|
                0 <= t < n ==> {
                    let r = #[trigger] routes@[t];
                    let o = old(routes)@[t];
                    &&& r.edge_id == o.edge_id
                    &&& r.source_id == o.source_id
                    &&& r.target_id == o.target_id
                    &&& r.points == o.points
                    &&& r.track_id == o.track_id
                    &&& t < q ==> texts(r.junction_ids@) == junctions_of(r.points@, route_points(old(routes)@))
                },
        decreases n - q,
    {
        let mut ids: Vec<String> = Vec::new();
        std::mem::swap(&mut ids, &mut all_ids[q]);
        std::mem::swap(&mut ids, &mut routes[q].junction_ids);
        q = q + 1;
    }
    proof {
        assert(route_points(routes@) =~= route_points(old(routes)@));
    }
}

/// The ordering key of a placed node: in dense mode first the distance of its rounded center
/// from the middle of the routing area, then its top, its left, and its id.
/// The distance between `a` and `b`.
pub open spec fn gap(a: int, b: int) -> int {
    if a < b { b - a } else { a - b }
}

/// Key part `p` is the text part of id `id`.
pub open spec fn text_part_of(p: KeyPart, id: Seq<char>) -> bool {
    match p {
        KeyPart::Text(t) => t.text@ == id,
        KeyPart::Num(_) => false,
    }
}

/// The first part of a node's key: in dense mode the distance of its rounded horizontal
/// center from `middle`, else nothing to tell nodes apart.
pub open spec fn node_spread(b: RectI, dense: bool, middle: int) -> int {
    if dense { gap(rounded_center_value(b.x as int, b.w as int), middle) } else { 0 }
}

fn node_key(id: &str, b: RectI, dense: bool, middle: i32) -> (k: Vec<KeyPart>)
    requires
        box_ok(b),
        in_range(middle as int, line_limit()),
    ensures
        forall|j: int| 0 <= j < k@.len() ==> part_wf(#[trigger] k@[j]),
        k@.len() == 4,
        k@[0] == KeyPart::Num(node_spread(b, dense, middle as int) as i64),
        k@[1] == KeyPart::Num(b.y as i64),
        k@[2] == KeyPart::Num(b.x as i64),
        text_part_of(k@[3], id@),
{
    let d: i64 = if dense {
        let diff = rounded_center(b.x, b.w) as i64 - middle as i64;
        if diff < 0 { -diff } else { diff }
    } else {
        0
    };
    let mut k: Vec<KeyPart> = Vec::new();
    k.push(KeyPart::Num(d));
    k.push(KeyPart::Num(b.y as i64));
    k.push(KeyPart::Num(b.x as i64));
    k.push(KeyPart::Text(id_key(id)));
    k
}

/// Twice the horizontal (or vertical) center of a box.
pub open spec fn twice_center_value(b: RectI, horizontal: bool) -> int {
    if horizontal { 2 * b.x + b.w } else { 2 * b.y + b.h }
}

fn twice_center(b: RectI, horizontal: bool) -> (c: i64)
    requires
        box_ok(b),
    ensures
        -0x400_0000 <= c <= 0x400_0000,
        c == twice_center_value(b, horizontal),
{
    if horizontal {
        2 * (b.x as i64) + (b.w as i64)
    } else {
        2 * (b.y as i64) + (b.h as i64)
    }
}

/// Over the first `j` edges, the sum of the distances (doubled) along one axis between the
/// centers of the targets of the edges that share edge `i`'s source and that source's center.
pub open spec fn spread_sum(
    specs: Seq<EdgeSpec>,
    src: Seq<RectI>,
    dst: Seq<RectI>,
    i: int,
    j: int,
    horizontal: bool,
) -> int
    decreases j,
{
    if j <= 0 {
        0
    } else {
        spread_sum(specs, src, dst, i, j - 1, horizontal) + if specs[j - 1].source_id@ == specs[i].source_id@ {
            gap(twice_center_value(dst[j - 1], horizontal), twice_center_value(src[i], horizontal))
        } else {
            0
        }
    }
}

/// Whether the targets of the edges from the source of edge `i` lie farther apart
/// horizontally than vertically, summed over those edges.
fn spread_is_horizontal(specs: &Vec<EdgeSpec>, src: &Vec<RectI>, dst: &Vec<RectI>, i: usize) -> (r: bool)
    requires
        i < specs@.len(),
        specs@.len() == src@.len(),
        dst@.len() == src@.len(),
        src@.len() < 0x1000_0000,
        forall|t: int| 0 <= t < src@.len() ==> box_ok(#[trigger] src@[t]),
        forall|t: int| 0 <= t < dst@.len() ==> box_ok(#[trigger] dst@[t]),
    ensures
        r == (spread_sum(specs@, src@, dst@, i as int, specs@.len() as int, true)
            >= spread_sum(specs@, src@, dst@, i as int, specs@.len() as int, false)),
{
    let sx = twice_center(src[i], true);
    let sy = twice_center(src[i], false);
    let mut sum_dx: i64 = 0;
    let mut sum_dy: i64 = 0;
    let mut j: usize = 0;
    while j < specs.len()
        invariant
            i < specs@.len(),
            specs@.len() == src@.len(),
            dst@.len() == src@.len(),
            src@.len() < 0x1000_0000,
            forall|t: int| 0 <= t < src@.len() ==> box_ok(#[trigger] src@[t]),
        forall|t: int| 0 <= t < dst@.len() ==> box_ok(#[trigger] dst@[t]),
            -0x400_0000 <= sx <= 0x400_0000,
            -0x400_0000 <= sy <= 0x400_0000,
            j <= specs@.len(),
            0 <= sum_dx <= j * 0x800_0000,
            0 <= sum_dy <= j * 0x800_0000,
            sx == twice_center_value(src@[i as int], true),
            sy == twice_center_value(src@[i as int], false),
            sum_dx == spread_sum(specs@, src@, dst@, i as int, j as int, true),
            sum_dy == spread_sum(specs@, src@, dst@, i as int, j as int, false),
        decreases specs@.len() - j,
    {
        if crate::layout::ids::str_eq(specs[j].source_id.as_str(), specs[i].source_id.as_str()) {
            let tx = twice_center(dst[j], true);
            let ty = twice_center(dst[j], false);
            let dx = if tx >= sx { tx - sx } else { sx - tx };
            let dy = if ty >= sy { ty - sy } else { sy - ty };
            sum_dx = sum_dx + dx;
            sum_dy = sum_dy + dy;
        }
        j = j + 1;
    }
    sum_dx >= sum_dy
}

/// The ordering key of an edge among the edges of its source: in dense mode first the
/// distance of its target's rounded center from the source's along the wider spread, then
/// that center along the wider spread and across it, the target's top, its left, and the
/// edge id.
/// The rounded center of a box along one axis.
pub open spec fn rounded_axis_center(b: RectI, along_x: bool) -> int {
    if along_x { rounded_center_value(b.x as int, b.w as int) } else { rounded_center_value(b.y as int, b.h as int) }
}

fn leaf_key(edge_id: &str, source: RectI, target: RectI, primary_is_x: bool, dense: bool) -> (k: Vec<KeyPart>)
    requires
        box_ok(source),
        box_ok(target),
    ensures
        forall|j: int| 0 <= j < k@.len() ==> part_wf(#[trigger] k@[j]),
        k@.len() == 6,
        k@[0] == KeyPart::Num((if dense {
            gap(rounded_axis_center(target, primary_is_x), rounded_axis_center(source, primary_is_x))
        } else {
            0
        }) as i64),
        k@[1] == KeyPart::Num(rounded_axis_center(target, primary_is_x) as i64),
        k@[2] == KeyPart::Num(rounded_axis_center(target, !primary_is_x) as i64),
        k@[3] == KeyPart::Num(target.y as i64),
        k@[4] == KeyPart::Num(target.x as i64),
        text_part_of(k@[5], edge_id@),
{
    let tx = rounded_center(target.x, target.w) as i64;
    let ty = rounded_center(target.y, target.h) as i64;
    let (primary, secondary) = if primary_is_x { (tx, ty) } else { (ty, tx) };
    let first: i64 = if dense {
        let sp = if primary_is_x {
            rounded_center(source.x, source.w) as i64
        } else {
            rounded_center(source.y, source.h) as i64
        };
        let diff = primary - sp;
        if diff < 0 { -diff } else { diff }
    } else {
        0
    };
    let mut k: Vec<KeyPart> = Vec::new();
    k.push(KeyPart::Num(first));
    k.push(KeyPart::Num(primary));
    k.push(KeyPart::Num(secondary));
    k.push(KeyPart::Num(target.y as i64));
    k.push(KeyPart::Num(target.x as i64));
    k.push(KeyPart::Text(id_key(edge_id)));
    k
}

/// From this many edges on, sources and targets are ordered from the middle outward.
pub const DENSE_EDGE_THRESHOLD: usize = 24;

/// `p` lies in no node's clearance box.
pub open spec fn clear_of_nodes(pos: Seq<(String, PositionedNode)>, p: PointI) -> bool {
    forall|k: int|
        0 <= k < pos.len() && last_with_id(pos, (#[trigger] pos[k]).0@) == Some(k) ==> !inside(node_obstacle(pos[k].1.bbox), p)
}

/// The polyline of an edge: orthogonal, from the bottom center of its source to the top
/// center of its target, every inner point clear of every node's clearance box.
pub open spec fn route_geometry_ok(pos: Seq<(String, PositionedNode)>, e: LayoutEdge, pts: Seq<PointI>) -> bool {
    &&& box_of(pos, e.a@) is Some
    &&& box_of(pos, e.b@) is Some
    &&& pts.len() >= 2
    &&& pts[0] == source_anchor(box_of(pos, e.a@)->0)
    &&& pts.last() == target_anchor(box_of(pos, e.b@)->0)
    &&& orthogonal(pts)
    &&& forall|k: int| 0 < k < pts.len() - 1 ==> clear_of_nodes(pos, #[trigger] pts[k])
}

/// Route `r` is the route of edge `i`.
pub open spec fn route_matches(pos: Seq<(String, PositionedNode)>, edges: Seq<LayoutEdge>, i: int, r: RouteI) -> bool {
    &&& r.edge_id@ == edge_id_of(edges, i)
    &&& r.source_id@ == edges[i].a@
    &&& r.target_id@ == edges[i].b@
    &&& r.track_id@ == "auto"@
    &&& route_geometry_ok(pos, edges[i], r.points@)
}

/// The routes are those of the edges, one each in some order, with their junction ids.
pub open spec fn routes_ok(pos: Seq<(String, PositionedNode)>, edges: Seq<LayoutEdge>, routes: Seq<RouteI>) -> bool {
    &&& routes.len() == edges.len()
    &&& exists|order: Seq<usize>|
        {
            &&& order.len() == edges.len()
            &&& order.to_multiset() == index_range(edges.len() as int).to_multiset()
            &&& forall|k: int|
                0 <= k < routes.len() ==> (order[k] as int) < edges.len() && route_matches(pos, edges, order[k] as int, #[trigger] routes[k])
        }
    &&& forall|k: int|
        0 <= k < routes.len() ==> texts((#[trigger] routes[k]).junction_ids@) == junctions_of(routes[k].points@, route_points(routes))
}

proof fn lemma_clear(pos: Seq<(String, PositionedNode)>, obstacles: Seq<Obstacle>, p: PointI)
    requires
        free(obstacles, p),
        forall|k: int|
            0 <= k < pos.len() && last_with_id(pos, (#[trigger] pos[k]).0@) == Some(k) ==> obstacles.contains(node_obstacle(pos[k].1.bbox)),
    ensures
        clear_of_nodes(pos, p),
{
    assert forall|k: int| 0 <= k < pos.len() && last_with_id(pos, (#[trigger] pos[k]).0@) == Some(k) implies !inside(
        node_obstacle(pos[k].1.bbox),
        p,
    ) by {
        let t = choose|t: int| 0 <= t < obstacles.len() && obstacles[t] == node_obstacle(pos[k].1.bbox);
        assert(!inside(obstacles[t], p));
    }
}

/// What routing starts from: the edge ids, the endpoint boxes and ports of every edge, and
/// the obstacles of every placed node.
pub open spec fn prepared(
    pos: Seq<(String, PositionedNode)>,
    edges: Seq<LayoutEdge>,
    specs: Seq<EdgeSpec>,
    src: Seq<RectI>,
    dst: Seq<RectI>,
    ports: Seq<NodePorts>,
    obstacles: Seq<Obstacle>,
) -> bool {
    &&& first_missing(pos, edges, 0) is None
    &&& obstacles_ok(obstacles)
    &&& specs.len() == edges.len()
    &&& src.len() == edges.len()
    &&& dst.len() == edges.len()
    &&& ports.len() == edges.len()
    &&& forall|t: int| 0 <= t < src.len() ==> box_ok(#[trigger] src[t])
    &&& forall|t: int| 0 <= t < dst.len() ==> box_ok(#[trigger] dst[t])
    &&& forall|t: int| 0 <= t < ports.len() ==> ports_of(src[t], dst[t], obstacles, #[trigger] ports[t])
    &&& forall|t: int|
        0 <= t < specs.len() ==> (#[trigger] specs[t]).edge_id@ == edge_id_of(edges, t) && specs[t].source_id@ == edges[t].a@
            && specs[t].target_id@ == edges[t].b@
    &&& forall|t: int|
        0 <= t < edges.len() ==> box_of(pos, (#[trigger] edges[t]).a@) == Some(src[t]) && box_of(pos, edges[t].b@) == Some(dst[t])
    &&& forall|k: int|
        0 <= k < pos.len() && last_with_id(pos, (#[trigger] pos[k]).0@) == Some(k) ==> obstacles.contains(node_obstacle(pos[k].1.bbox))
}

proof fn lemma_bounds(obstacles: Seq<Obstacle>, terminals: Seq<PointI>)
    requires
        obstacles_ok(obstacles),
        terminals.len() >= 1,
        forall|j: int|
            0 <= j < terminals.len() ==> in_range((#[trigger] terminals[j]).x as int, push_limit()) && in_range(
                terminals[j].y as int,
                push_limit(),
            ),
    ensures
        ({
            let b = bounds_of(obstacles, terminals);
            &&& in_range(b.0, push_limit() + 128)
            &&& in_range(b.1, push_limit() + 128)
            &&& in_range(b.2, push_limit() + 128)
            &&& in_range(b.3, push_limit() + 128)
            &&& b.0 <= b.1
            &&& b.2 <= b.3
            &&& forall|j: int| 0 <= j < terminals.len() ==> b.2 <= (#[trigger] terminals[j]).y - 128
        }),
{
    let xl = extent_values(obstacles, terminals, true, true);
    let xh = extent_values(obstacles, terminals, true, false);
    let yl = extent_values(obstacles, terminals, false, true);
    let yh = extent_values(obstacles, terminals, false, false);
    let lim = push_limit();
    let no = obstacles.len() as int;
    assert forall|i: int| 0 <= i < xl.len() implies -lim <= #[trigger] xl[i] <= lim && -lim <= xh[i] <= lim && -lim <= yl[i]
        <= lim && -lim <= yh[i] <= lim by {
        if i < no {
            assert(obstacle_ok(obstacles[i]));
        } else {
            assert(xl[i] == terminals[i - no].x as int);
            assert(in_range(terminals[i - no].x as int, lim));
        }
    }
    crate::render::router_geom::lemma_min_of_bounds(xl, i32::MAX as int, -lim);
    crate::render::router_geom::lemma_max_of_bounds(xh, i32::MIN as int, lim);
    crate::render::router_geom::lemma_min_of_bounds(yl, i32::MAX as int, -lim);
    crate::render::router_geom::lemma_max_of_bounds(yh, i32::MIN as int, lim);
    assert(xl[no] <= xh[no]);
    assert(yl[no] <= yh[no]);
    assert(forall|i: int| 0 <= i < xh.len() ==> #[trigger] xh[i] <= lim);
    assert(forall|i: int| 0 <= i < yh.len() ==> #[trigger] yh[i] <= lim);
    assert forall|j: int| 0 <= j < terminals.len() implies bounds_of(obstacles, terminals).2 <= (#[trigger] terminals[j]).y
        - 128 by {
        assert(yl[no + j] == terminals[j].y as int);
    }
}

/// Routes every edge over the placed nodes: each source's edges, sources in order, grow a
/// tree of least-cost orthogonal walks over the visibility graph from below the source to
/// above each target; each route runs from the source's bottom center down the tree to the
/// target's top center, and shared inner points become junctions.
///
/// An edge whose endpoint names no placed node fails with `SvgMissingNode` (the first such
/// endpoint, in edge order, source before target); a search that finds no walk, or a grid too
/// large for memory, fails with `SvgRouteFailed`.
pub fn route_edges(
    positioned: &Vec<(String, PositionedNode)>,
    edges: &Vec<LayoutEdge>,
    config: &SvgConfig,
) -> (r: Result<Vec<RouteI>, RenderError>)
    requires
        boxes_ok(positioned@),
        forall|i: int, j: int| 0 <= i < j < positioned@.len() ==> (#[trigger] positioned@[i]).0@ != (#[trigger] positioned@[j]).0@,
        edges@.len() < 0x1000_0000,
    ensures
        edges@.len() == 0 ==> (r matches Ok(v) && v@.len() == 0),
        match first_missing(positioned@, edges@, 0) {
            Some(id) => (r matches Err(RenderError::SvgMissingNode(s)) && s@ == id),
            None => r is Ok || r == Err::<Vec<RouteI>, RenderError>(RenderError::SvgRouteFailed),
        },
        r matches Ok(routes) ==> routes_ok(positioned@, edges@, routes@),
{
    if edges.len() == 0 {
        let v: Vec<RouteI> = Vec::new();
        proof {
            assert(routes_ok(positioned@, edges@, v@)) by {
                let order = Seq::<usize>::empty();
                assert(index_range(0) =~= Seq::<usize>::empty());
                assert(order.len() == edges@.len() && order.to_multiset() == index_range(edges@.len() as int).to_multiset()
                    && forall|k: int| 0 <= k < v@.len() ==> (order[k] as int) < edges@.len() && route_matches(positioned@, edges@, order[k] as int, #[trigger] v@[k]));
            }
        }
        return Ok(v);
    }
    let specs = build_edge_specs(edges);
    let m = specs.len();
    let dense = m >= DENSE_EDGE_THRESHOLD;
    let obstacles = build_obstacles(positioned);
    let (src, dst, ports) = match edge_ports(positioned, edges, &obstacles) {
        Ok(t) => t,
        Err(id) => {
            return Err(RenderError::SvgMissingNode(id));
        },
    };
    proof {
        assert forall|t: int| 0 <= t < edges@.len() implies box_ok(#[trigger] src@[t]) && box_ok(dst@[t]) && ports_of(
            src@[t],
            dst@[t],
            obstacles@,
            ports@[t],
        ) by {
            assert(box_of(positioned@, edges@[t].a@) == Some(src@[t]));
        }
        assert(first_missing(positioned@, edges@, 0) is None);
        assert(obstacles_ok(obstacles@));
        assert(specs@.len() == edges@.len());
        assert(src@.len() == edges@.len());
        assert(forall|t: int| 0 <= t < src@.len() ==> box_ok(#[trigger] src@[t]));
        assert forall|t: int| 0 <= t < dst@.len() implies box_ok(#[trigger] dst@[t]) by {
            assert(box_of(positioned@, edges@[t].a@) == Some(src@[t]));
        }
        assert(forall|t: int| 0 <= t < ports@.len() ==> ports_of(src@[t], dst@[t], obstacles@, #[trigger] ports@[t]));
        assert(forall|t: int| 0 <= t < specs@.len() ==> (#[trigger] specs@[t]).edge_id@ == edge_id_of(edges@, t) && specs@[t].source_id@ == edges@[t].a@
            && specs@[t].target_id@ == edges@[t].b@);
        assert(forall|t: int|
        0 <= t < edges@.len() ==> box_of(positioned@, (#[trigger] edges@[t]).a@) == Some(src@[t]) && box_of(positioned@, edges@[t].b@) == Some(dst@[t]));
        assert(forall|k: int|
        0 <= k < positioned@.len() && last_with_id(positioned@, (#[trigger] positioned@[k]).0@) == Some(k) ==> obstacles@.contains(node_obstacle(positioned@[k].1.bbox)));
        assert(prepared(positioned@, edges@, specs@, src@, dst@, ports@, obstacles@));
    }
    let mut terminals: Vec<PointI> = Vec::new();
    let mut i: usize = 0;
    while i < m
        invariant
            prepared(positioned@, edges@, specs@, src@, dst@, ports@, obstacles@),
            m == edges@.len(),
            m == src@.len(),
            ports@.len() == m,
            i <= m,
            terminals@.len() == 2 * i,
            forall|t: int| 0 <= t < m ==> box_ok(#[trigger] src@[t]) && box_ok(dst@[t]) && ports_of(src@[t], dst@[t], obstacles@, ports@[t]),
            forall|t: int| 0 <= t < i ==> terminals@[2 * t] == (#[trigger] ports@[t]).source_exit && terminals@[2 * t + 1] == ports@[t].target_entry,
            forall|j: int|
                0 <= j < terminals@.len() ==> in_range((#[trigger] terminals@[j]).x as int, push_limit()) && in_range(
                    terminals@[j].y as int,
                    push_limit(),
                ),
        decreases m - i,
    {
        proof {
            assert(box_ok(src@[i as int]) && box_ok(dst@[i as int]) && ports_of(src@[i as int], dst@[i as int], obstacles@, ports@[i as int]));
        }
        terminals.push(ports[i].source_exit);
        terminals.push(ports[i].target_entry);
        i = i + 1;
    }
    proof {
        assert(forall|t: int| 0 <= t < m ==> box_ok(#[trigger] src@[t]) && box_ok(dst@[t]) && ports_of(src@[t], dst@[t], obstacles@, ports@[t]));
    }
    let bounds = global_bounds(&obstacles, &terminals);
    proof {
        lemma_bounds(obstacles@, terminals@);
    }
    let middle_x = (bounds.0 + bounds.1) / 2;
    let middle_y = (bounds.2 + bounds.3) / 2;
    let mut tkeys: Vec<Vec<KeyPart>> = Vec::new();
    let mut i: usize = 0;
    while i < m
        invariant
            prepared(positioned@, edges@, specs@, src@, dst@, ports@, obstacles@),
            m == specs@.len(),
            m == dst@.len(),
            i <= m,
            tkeys@.len() == i,
            forall|t: int| 0 <= t < m ==> box_ok(#[trigger] dst@[t]),
            in_range(middle_x as int, line_limit()),
            keys_wf(tkeys@),
        decreases m - i,
    {
        let k = node_key(specs[i].target_id.as_str(), dst[i], dense, middle_x);
        let ghost before = tkeys@;
        tkeys.push(k);
        proof {
            assert forall|a: int, j: int| 0 <= a < tkeys@.len() && 0 <= j < tkeys@[a]@.len() implies part_wf(#[trigger] tkeys@[a]@[j]) by {
                if a < before.len() {
                    assert(tkeys@[a] == before[a]);
                }
            }
        }
        i = i + 1;
    }
    let torder = sort_by_keys(&tkeys);
    let mut tids: Vec<usize> = Vec::new();
    let mut k: usize = 0;
    while k < m
        invariant
            prepared(positioned@, edges@, specs@, src@, dst@, ports@, obstacles@),
            m == specs@.len(),
            torder@.len() == m,
            forall|t: int| 0 <= t < m ==> (#[trigger] torder@[t]) < m,
            forall|t: int| 0 <= t < tids@.len() ==> (#[trigger] tids@[t]) < m,
            tids@.len() <= k <= m,
        decreases m - k,
    {
        let e = torder[k];
        let fresh = if tids.len() == 0 {
            true
        } else {
            !crate::layout::ids::str_eq(specs[tids[tids.len() - 1]].target_id.as_str(), specs[e].target_id.as_str())
        };
        if fresh {
            tids.push(e);
        }
        k = k + 1;
    }
    let mut target_ord: Vec<usize> = Vec::new();
    let mut i: usize = 0;
    while i < m
        invariant
            prepared(positioned@, edges@, specs@, src@, dst@, ports@, obstacles@),
            m == specs@.len(),
            forall|t: int| 0 <= t < tids@.len() ==> (#[trigger] tids@[t]) < m,
            i <= m,
            target_ord@.len() == i,
        decreases m - i,
    {
        let mut p: usize = 0;
        while p < tids.len() && !crate::layout::ids::str_eq(specs[tids[p]].target_id.as_str(), specs[i].target_id.as_str())
            invariant
                prepared(positioned@, edges@, specs@, src@, dst@, ports@, obstacles@),
                m == specs@.len(),
                i < m,
                forall|t: int| 0 <= t < tids@.len() ==> (#[trigger] tids@[t]) < m,
                p <= tids@.len(),
            decreases tids@.len() - p,
        {
            p = p + 1;
        }
        target_ord.push(if p < tids.len() { p } else { 0 });
        i = i + 1;
    }
    let mut collectors: Vec<crate::render::router_geom::CollectorSpan> = Vec::new();
    let mut p: usize = 0;
    while p < tids.len()
        invariant
            prepared(positioned@, edges@, specs@, src@, dst@, ports@, obstacles@),
            m == specs@.len(),
            m == dst@.len(),
            m == ports@.len(),
            m == src@.len(),
            forall|t: int| 0 <= t < tids@.len() ==> (#[trigger] tids@[t]) < m,
            p <= tids@.len(),
            collectors@.len() == p,
            obstacles_ok(obstacles@),
            forall|t: int| 0 <= t < m ==> box_ok(#[trigger] src@[t]) && box_ok(dst@[t]) && ports_of(src@[t], dst@[t], obstacles@, ports@[t]),
            forall|t: int| 0 <= t < m ==> terminals@[2 * t] == (#[trigger] ports@[t]).source_exit && terminals@[2 * t + 1] == ports@[t].target_entry,
            terminals@.len() == 2 * m,
            forall|j: int| 0 <= j < terminals@.len() ==> bounds.2 <= (#[trigger] terminals@[j]).y - 128,
            in_range(bounds.2 as int, push_limit() + 128),
            bounds.2 <= middle_y,
            forall|j: int|
                0 <= j < collectors@.len() ==> in_range((#[trigger] collectors@[j]).x as int, push_limit()) && in_range(
                    collectors@[j].y_top as int,
                    push_limit() + 128,
                ) && in_range(collectors@[j].y_bottom as int, push_limit()),
        decreases tids@.len() - p,
    {
        let e = tids[p];
        proof {
            assert(box_ok(src@[e as int]) && box_ok(dst@[e as int]) && ports_of(src@[e as int], dst@[e as int], obstacles@, ports@[e as int]));
            assert(terminals@[2 * e + 1] == ports@[e as int].target_entry);
            assert(bounds.2 <= terminals@[2 * e + 1].y - 128);
        }
        let c = collector_for_target(p, dst[e], &obstacles, bounds.2, middle_y);
        proof {
            let b = dst@[e as int];
            let entry = entry_y(b, obstacles@);
            let start = crate::render::router_geom::clamp(middle_y as int, bounds.2 as int, entry - 1);
            crate::render::router_geom::lemma_raised_top_ge(obstacles@, center_x(b), start, entry);
        }
        let ghost before = collectors@;
        collectors.push(c);
        proof {
            assert forall|j: int| 0 <= j < collectors@.len() implies in_range((#[trigger] collectors@[j]).x as int, push_limit())
                && in_range(collectors@[j].y_top as int, push_limit() + 128) && in_range(collectors@[j].y_bottom as int, push_limit()) by {
                if j < before.len() {
                    assert(collectors@[j] == before[j]);
                }
            }
        }
        p = p + 1;
    }
    proof {
        assert(in_range(bounds.0 as int, push_limit() + 200));
    }
    let (xs, ys) = collect_lines(&obstacles, &terminals, &collectors, bounds);
    if xs.len() > 0x1000_0000 || ys.len() > 0x1000_0000 {
        return Err(RenderError::SvgRouteFailed);
    }
    let nxs = xs.len() as u64;
    let nys = ys.len() as u64;
    proof {
        assert(nxs * nys <= 0x1000_0000 * 0x1000_0000) by (nonlinear_arith)
            requires
                nxs <= 0x1000_0000,
                nys <= 0x1000_0000,
        ;
    }
    if nxs * nys > 0x1000_0000 {
        return Err(RenderError::SvgRouteFailed);
    }
    proof {
        assert forall|t: int| 0 <= t < xs@.len() implies in_range(#[trigger] xs@[t] as int, line_limit()) by {
            assert(crate::render::router_geom::int_set(xs@).contains(xs@[t] as int));
            crate::render::router_geom::lemma_lanes_union_within(
                crate::render::router_geom::axis_bases(obstacles@, terminals@, collectors@, bounds.0 as int, bounds.1 as int, true),
                bounds.0 as int,
                bounds.1 as int,
                xs@[t] as int,
            );
        }
        assert forall|t: int| 0 <= t < ys@.len() implies in_range(#[trigger] ys@[t] as int, line_limit()) by {
            assert(crate::render::router_geom::int_set(ys@).contains(ys@[t] as int));
            crate::render::router_geom::lemma_lanes_union_within(
                crate::render::router_geom::axis_bases(obstacles@, terminals@, collectors@, bounds.2 as int, bounds.3 as int, false),
                bounds.2 as int,
                bounds.3 as int,
                ys@[t] as int,
            );
        }
    }
    let graph = build_visibility_graph(&obstacles, &xs, &ys, bounds, &collectors);
    let mut ekeys: Vec<Vec<KeyPart>> = Vec::new();
    let mut i: usize = 0;
    while i < m
        invariant
            prepared(positioned@, edges@, specs@, src@, dst@, ports@, obstacles@),
            m == specs@.len(),
            m == src@.len(),
            m == dst@.len(),
            m < 0x1000_0000,
            i <= m,
            ekeys@.len() == i,
            forall|t: int| 0 <= t < src@.len() ==> box_ok(#[trigger] src@[t]),
            forall|t: int| 0 <= t < dst@.len() ==> box_ok(#[trigger] dst@[t]),
            in_range(middle_x as int, line_limit()),
            keys_wf(ekeys@),
        decreases m - i,
    {
        let mut key = node_key(specs[i].source_id.as_str(), src[i], dense, middle_x);
        let horizontal = spread_is_horizontal(&specs, &src, &dst, i);
        let leaf = leaf_key(specs[i].edge_id.as_str(), src[i], dst[i], horizontal, dense);
        let mut j: usize = 0;
        while j < leaf.len()
            invariant
                prepared(positioned@, edges@, specs@, src@, dst@, ports@, obstacles@),
                j <= leaf@.len(),
                forall|t: int| 0 <= t < key@.len() ==> part_wf(#[trigger] key@[t]),
                forall|t: int| 0 <= t < leaf@.len() ==> part_wf(#[trigger] leaf@[t]),
            decreases leaf@.len() - j,
        {
            let part = match &leaf[j] {
                KeyPart::Num(v) => KeyPart::Num(*v),
                KeyPart::Text(t) => KeyPart::Text(IdKey { text: crate::text::copy_chars(t.text.as_slice()), folded: crate::text::copy_chars(t.folded.as_slice()) }),
            };
            proof {
                assert(part_wf(leaf@[j as int]));
            }
            let ghost before = key@;
            key.push(part);
            proof {
                assert forall|t: int| 0 <= t < key@.len() implies part_wf(#[trigger] key@[t]) by {
                    if t < before.len() {
                        assert(key@[t] == before[t]);
                    }
                }
            }
            j = j + 1;
        }
        let ghost before = ekeys@;
        ekeys.push(key);
        proof {
            assert forall|a: int, j: int| 0 <= a < ekeys@.len() && 0 <= j < ekeys@[a]@.len() implies part_wf(#[trigger] ekeys@[a]@[j]) by {
                if a < before.len() {
                    assert(ekeys@[a] == before[a]);
                }
            }
        }
        i = i + 1;
    }
    let order = sort_by_keys(&ekeys);
    let n = graph.points.len();
    let mut reservations: Vec<Option<Reservation>> = Vec::new();
    let mut v: usize = 0;
    while v < 2 * n
        invariant
            prepared(positioned@, edges@, specs@, src@, dst@, ports@, obstacles@),
            n == graph.points@.len(),
            n <= 0x1000_0000,
            v <= 2 * n,
            reservations@.len() == v,
        decreases 2 * n - v,
    {
        reservations.push(None);
        v = v + 1;
    }
    let mut routes: Vec<RouteI> = Vec::new();
    let mut start: usize = 0;
    let mut source_ord: usize = 0;
    while start < m
        invariant
            prepared(positioned@, edges@, specs@, src@, dst@, ports@, obstacles@),
            m == specs@.len(),
            m == edges@.len(),
            m == src@.len(),
            m == dst@.len(),
            m == ports@.len(),
            m == target_ord@.len(),
            order@.len() == m,
            forall|t: int| 0 <= t < m ==> (#[trigger] order@[t]) < m,
            graph_wf(graph, obstacles@),
            obstacles_ok(obstacles@),
            graph.points@.len() == graph.xs@.len() * graph.ys@.len(),
            graph.points@.len() <= 0x1000_0000,
            forall|a: int, b: int|
                0 <= a < graph.xs@.len() && 0 <= b < graph.ys@.len() ==> graph.points@[#[trigger] cell(a, b, graph.ys@.len() as int)]
                    == (PointI { x: graph.xs@[a], y: graph.ys@[b] }),
            forall|t: int| 0 <= t < m ==> box_ok(#[trigger] src@[t]) && box_ok(dst@[t]) && ports_of(src@[t], dst@[t], obstacles@, ports@[t]),
            forall|t: int|
                0 <= t < m ==> (#[trigger] specs@[t]).edge_id@ == edge_id_of(edges@, t) && specs@[t].source_id@ == edges@[t].a@
                    && specs@[t].target_id@ == edges@[t].b@,
            forall|t: int|
                0 <= t < m ==> box_of(positioned@, (#[trigger] edges@[t]).a@) == Some(src@[t]) && box_of(positioned@, edges@[t].b@) == Some(dst@[t]),
            forall|k: int|
                0 <= k < positioned@.len() && last_with_id(positioned@, (#[trigger] positioned@[k]).0@) == Some(k) ==> obstacles@.contains(
                    node_obstacle(positioned@[k].1.bbox),
                ),
            reservations@.len() == 2 * graph.points@.len(),
            start <= m,
            source_ord <= start,
            routes@.len() == start,
            forall|k: int| 0 <= k < start ==> route_matches(positioned@, edges@, order@[k] as int, #[trigger] routes@[k]),
        decreases m - start,
    {
        let mut end = start + 1;
        while end < m && crate::layout::ids::str_eq(specs[order[end]].source_id.as_str(), specs[order[start]].source_id.as_str())
            invariant
                prepared(positioned@, edges@, specs@, src@, dst@, ports@, obstacles@),
                m == specs@.len(),
                m == src@.len(),
                order@.len() == m,
                forall|t: int| 0 <= t < m ==> (#[trigger] order@[t]) < m,
                forall|t: int|
                    0 <= t < m ==> (#[trigger] specs@[t]).source_id@ == edges@[t].a@,
                forall|t: int|
                    0 <= t < m ==> box_of(positioned@, (#[trigger] edges@[t]).a@) == Some(src@[t]),
                start < end <= m,
                forall|t: int| start <= t < end ==> src@[#[trigger] order@[t] as int] == src@[order@[start as int] as int],
            decreases m - end,
        {
            proof {
                let a = order@[end as int] as int;
                let b = order@[start as int] as int;
                assert(specs@[a].source_id@ == edges@[a].a@);
                assert(specs@[b].source_id@ == edges@[b].a@);
                assert(box_of(positioned@, edges@[a].a@) == Some(src@[a]));
                assert(box_of(positioned@, edges@[b].a@) == Some(src@[b]));
            }
            end = end + 1;
        }
        let ghost r0 = routes@;
        match route_group(
            &graph,
            &obstacles,
            &order,
            start,
            end,
            &specs,
            &src,
            &dst,
            &ports,
            &target_ord,
            source_ord,
            &mut reservations,
            &mut routes,
        ) {
            Ok(()) => {},
            Err(e) => {
                return Err(e);
            },
        }
        proof {
            assert forall|k: int| 0 <= k < end implies route_matches(positioned@, edges@, order@[k] as int, #[trigger] routes@[k]) by {
                if k < start {
                    assert(routes@[k] == r0[k]) by {
                        assert(routes@.subrange(0, r0.len() as int)[k] == routes@[k]);
                    }
                } else {
                    let ii = order@[k] as int;
                    let rr = routes@[k];
                    assert(rr == routes@[r0.len() + (k - start)]);
                    assert(polyline_ok(rr.points@, src@[ii], dst@[ii], obstacles@));
                    assert(box_of(positioned@, edges@[ii].a@) == Some(src@[ii]));
                    assert(box_of(positioned@, edges@[ii].b@) == Some(dst@[ii]));
                    assert forall|q: int| 0 < q < rr.points@.len() - 1 implies clear_of_nodes(positioned@, #[trigger] rr.points@[q]) by {
                        lemma_clear(positioned@, obstacles@, rr.points@[q]);
                    }
                }
            }
        }
        start = end;
        source_ord = source_ord + 1;
    }
    let ghost before = routes@;
    set_junctions(&mut routes);
    proof {
        assert forall|k: int| 0 <= k < routes@.len() implies (order@[k] as int) < edges@.len() && route_matches(
            positioned@,
            edges@,
            order@[k] as int,
            #[trigger] routes@[k],
        ) by {
            assert(route_matches(positioned@, edges@, order@[k] as int, before[k]));
        }
        assert(route_points(routes@) == route_points(before));
        assert(routes_ok(positioned@, edges@, routes@)) by {
            assert(order@.len() == edges@.len() && order@.to_multiset() == index_range(edges@.len() as int).to_multiset()
                && forall|k: int| 0 <= k < routes@.len() ==> (order@[k] as int) < edges@.len() && route_matches(positioned@, edges@, order@[k] as int, #[trigger] routes@[k]));
        }
    }
    Ok(routes)
}

} // verus!
