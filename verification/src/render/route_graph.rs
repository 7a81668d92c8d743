//! The orthogonal visibility graph of the edge router: grid points on the routing lines that
//! lie outside every obstacle, joined along free horizontal and vertical runs.
use vstd::prelude::*;

use crate::render::router_geom::{
    free, in_range, is_free_point, obstacles_ok, push_limit, strictly_increasing, CollectorSpan, Obstacle, PointI,
};

verus! {

/// A link from a grid point to a neighbouring one.
#[derive(Debug, Clone, Copy, PartialEq, Eq, Structural)]
pub struct AdjEdge {
    /// The neighbour's vertex index.
    pub to: usize,
    /// Whether the link is horizontal (else vertical).
    pub horizontal: bool,
    /// The link's length in pixels.
    pub len: i32,
    /// The index of the undirected link, shared by both directions.
    pub key: usize,
    /// The target whose collector this vertical link lies on, if any.
    pub collector_target: Option<usize>,
}

/// The visibility graph. Vertex `cell(xi, yi, ys.len())` is the grid point `(xs[xi], ys[yi])`;
/// it is `present` once a link touches it.
pub struct Graph {
    pub xs: Vec<i32>,
    pub ys: Vec<i32>,
    pub points: Vec<PointI>,
    pub present: Vec<bool>,
    pub adj: Vec<Vec<AdjEdge>>,
}

/// The coordinate range of routing lines.
pub open spec fn line_limit() -> int {
    push_limit() + 200
}

/// The vertex index of grid cell `(xi, yi)` in a grid with `ny` rows.
pub open spec fn cell(xi: int, yi: int, ny: int) -> int {
    xi * ny + yi
}

/// `e` is a positive-length axis-aligned link from `p` to `q`.
pub open spec fn aligned(p: PointI, q: PointI, e: AdjEdge) -> bool {
    &&& 0 < e.len
    &&& if e.horizontal {
        p.y == q.y && (p.x - q.x == e.len || q.x - p.x == e.len)
    } else {
        p.x == q.x && (p.y - q.y == e.len || q.y - p.y == e.len)
    }
}

/// The link `e` out of vertex `v` is sound.
pub open spec fn edge_ok(g: Graph, v: int, e: AdjEdge) -> bool {
    &&& e.to < g.points@.len()
    &&& g.present@[v]
    &&& g.present@[e.to as int]
    &&& aligned(g.points@[v], g.points@[e.to as int], e)
    &&& e.key < 2 * g.points@.len()
}

/// A point within the range of routing lines.
pub open spec fn point_in_lines(p: PointI) -> bool {
    in_range(p.x as int, line_limit()) && in_range(p.y as int, line_limit())
}

/// The graph's shape: one point, flag and link list per vertex; points within range; every
/// link sound.
pub open spec fn graph_shape(g: Graph) -> bool {
    &&& g.points@.len() == g.present@.len()
    &&& g.points@.len() == g.adj@.len()
    &&& forall|v: int| 0 <= v < g.points@.len() ==> point_in_lines(#[trigger] g.points@[v])
    &&& forall|v: int, j: int|
        0 <= v < g.adj@.len() && 0 <= j < g.adj@[v]@.len() ==> edge_ok(g, v, #[trigger] g.adj@[v]@[j])
}

/// The graph's invariant: its shape, and every present point outside every obstacle.
pub open spec fn graph_wf(g: Graph, obstacles: Seq<Obstacle>) -> bool {
    &&& graph_shape(g)
    &&& forall|v: int| 0 <= v < g.points@.len() && #[trigger] g.present@[v] ==> free(obstacles, g.points@[v])
}

/// There is a link from `u` to `v`.
pub open spec fn linked(g: Graph, u: int, v: int) -> bool {
    exists|j: int| 0 <= j < g.adj@[u]@.len() && (#[trigger] g.adj@[u]@[j]).to == v
}

/// Lines within range, strictly increasing.
pub open spec fn lines_ok(lines: Seq<i32>) -> bool {
    &&& strictly_increasing(lines)
    &&& forall|i: int| 0 <= i < lines.len() ==> in_range(#[trigger] lines[i] as int, line_limit())
}

pub proof fn lemma_cell_bound(xi: int, yi: int, nx: int, ny: int)
    requires
        0 <= xi < nx,
        0 <= yi < ny,
    ensures
        0 <= cell(xi, yi, ny) < nx * ny,
        cell(xi, yi, ny) + 1 <= (xi + 1) * ny,
        xi * ny <= cell(xi, yi, ny),
{
    assert(0 <= xi * ny + yi < nx * ny) by (nonlinear_arith)
        requires
            0 <= xi < nx,
            0 <= yi < ny,
    ;
    assert(xi * ny + yi + 1 <= (xi + 1) * ny) by (nonlinear_arith)
        requires
            0 <= yi < ny,
    ;
    assert(xi * ny <= xi * ny + yi);
}

proof fn lemma_cell_order(a: int, b: int, xi: int, ny: int)
    requires
        0 <= a < xi,
        0 <= b < ny,
    ensures
        cell(a, b, ny) < xi * ny,
{
    assert(a * ny + b < xi * ny) by (nonlinear_arith)
        requires
            0 <= a < xi,
            0 <= b < ny,
    ;
}

/// The grid points `(xs[xi], ys[yi])` in cell order, none present, no links.
fn empty_grid(xs: &Vec<i32>, ys: &Vec<i32>) -> (g: Graph)
    requires
        lines_ok(xs@),
        lines_ok(ys@),
        xs@.len() * ys@.len() <= 0x1000_0000,
    ensures
        g.xs@ == xs@,
        g.ys@ == ys@,
        g.points@.len() == xs@.len() * ys@.len(),
        g.present@.len() == g.points@.len(),
        g.adj@.len() == g.points@.len(),
        forall|v: int| 0 <= v < g.points@.len() ==> !(#[trigger] g.present@[v]),
        forall|v: int| 0 <= v < g.adj@.len() ==> (#[trigger] g.adj@[v])@.len() == 0,
        forall|v: int| 0 <= v < g.points@.len() ==> point_in_lines(#[trigger] g.points@[v]),
        forall|a: int, b: int|
            0 <= a < xs@.len() && 0 <= b < ys@.len() ==> g.points@[#[trigger] cell(a, b, ys@.len() as int)] == (PointI {
                x: xs@[a],
                y: ys@[b],
            }),
{
    let nx = xs.len();
    let ny = ys.len();
    let mut points: Vec<PointI> = Vec::new();
    let mut present: Vec<bool> = Vec::new();
    let mut adj: Vec<Vec<AdjEdge>> = Vec::new();
    let mut xi: usize = 0;
    while xi < nx
        invariant
            nx == xs@.len(),
            ny == ys@.len(),
            lines_ok(xs@),
            lines_ok(ys@),
            nx * ny <= 0x1000_0000,
            xi <= nx,
            points@.len() == xi * ny,
            present@.len() == points@.len(),
            adj@.len() == points@.len(),
            forall|v: int| 0 <= v < present@.len() ==> !(#[trigger] present@[v]),
            forall|v: int| 0 <= v < adj@.len() ==> (#[trigger] adj@[v])@.len() == 0,
            forall|v: int| 0 <= v < points@.len() ==> point_in_lines(#[trigger] points@[v]),
            forall|a: int, b: int|
                0 <= a < xi && 0 <= b < ny ==> points@[#[trigger] cell(a, b, ny as int)] == (PointI { x: xs@[a], y: ys@[b] }),
        decreases nx - xi,
    {
        proof {
            assert(xi * ny + ny <= nx * ny) by (nonlinear_arith)
                requires
                    xi < nx,
            ;
            assert((xi + 1) * ny == xi * ny + ny) by (nonlinear_arith);
        }
        let mut yi: usize = 0;
        while yi < ny
            invariant
                nx == xs@.len(),
                ny == ys@.len(),
                lines_ok(xs@),
                lines_ok(ys@),
                xi < nx,
                xi * ny + ny <= nx * ny <= 0x1000_0000,
                yi <= ny,
                points@.len() == xi * ny + yi,
                present@.len() == points@.len(),
                adj@.len() == points@.len(),
                forall|v: int| 0 <= v < present@.len() ==> !(#[trigger] present@[v]),
                forall|v: int| 0 <= v < adj@.len() ==> (#[trigger] adj@[v])@.len() == 0,
                forall|v: int| 0 <= v < points@.len() ==> point_in_lines(#[trigger] points@[v]),
                forall|a: int, b: int|
                    0 <= a < xi && 0 <= b < ny ==> points@[#[trigger] cell(a, b, ny as int)] == (PointI { x: xs@[a], y: ys@[b] }),
                forall|b: int| 0 <= b < yi ==> points@[#[trigger] cell(xi as int, b, ny as int)] == (PointI { x: xs@[xi as int], y: ys@[b] }),
            decreases ny - yi,
        {
            let ghost before = points@;
            proof {
                assert(in_range(xs@[xi as int] as int, line_limit()));
                assert(in_range(ys@[yi as int] as int, line_limit()));
            }
            points.push(PointI { x: xs[xi], y: ys[yi] });
            present.push(false);
            adj.push(Vec::new());
            proof {
                assert forall|a: int, b: int| 0 <= a < xi && 0 <= b < ny implies points@[#[trigger] cell(a, b, ny as int)] == (PointI {
                    x: xs@[a],
                    y: ys@[b],
                }) by {
                    lemma_cell_order(a, b, xi as int, ny as int);
                    assert(points@[cell(a, b, ny as int)] == before[cell(a, b, ny as int)]);
                }
                assert forall|b: int| 0 <= b < yi + 1 implies points@[#[trigger] cell(xi as int, b, ny as int)] == (PointI {
                    x: xs@[xi as int],
                    y: ys@[b],
                }) by {
                    if b < yi {
                        assert(points@[cell(xi as int, b, ny as int)] == before[cell(xi as int, b, ny as int)]);
                    }
                }
            }
            yi = yi + 1;
        }
        proof {
            assert forall|a: int, b: int| 0 <= a < xi + 1 && 0 <= b < ny implies points@[#[trigger] cell(a, b, ny as int)] == (PointI {
                x: xs@[a],
                y: ys@[b],
            }) by {
                if a == xi {
                    assert(points@[cell(xi as int, b, ny as int)] == (PointI { x: xs@[xi as int], y: ys@[b] }));
                }
            }
        }
        xi = xi + 1;
    }
    Graph { xs: copy_lines(xs), ys: copy_lines(ys), points, present, adj }
}

fn copy_lines(v: &Vec<i32>) -> (r: Vec<i32>)
    ensures
        r@ == v@,
{
    let mut r: Vec<i32> = Vec::new();
    let mut i: usize = 0;
    while i < v.len()
        invariant
            i <= v@.len(),
            r@ == v@.take(i as int),
        decreases v@.len() - i,
    {
        r.push(v[i]);
        proof {
            assert(v@.take(i + 1) =~= v@.take(i as int).push(v@[i as int]));
        }
        i = i + 1;
    }
    proof {
        assert(v@.take(v@.len() as int) =~= v@);
    }
    r
}

/// The link from grid point `a` (vertex `ai`) to `b` (vertex `bi`) toward `to`: horizontal when
/// the points share a row, with their distance as length and the undirected index
/// `2 * min(ai, bi)`, plus one for a vertical link.
pub open spec fn link_between(a: PointI, b: PointI, ai: int, bi: int, to: usize, collector_target: Option<usize>) -> AdjEdge {
    let horizontal = a.y == b.y;
    let len = if horizontal {
        if a.x >= b.x { a.x - b.x } else { b.x - a.x }
    } else {
        if a.y >= b.y { a.y - b.y } else { b.y - a.y }
    };
    let low = if ai < bi { ai } else { bi };
    AdjEdge {
        to,
        horizontal,
        len: len as i32,
        key: (2 * low + if horizontal { 0int } else { 1int }) as usize,
        collector_target,
    }
}

/// Every link list of `g1` extends that of the same vertex in `g0`.
pub open spec fn adj_grows(g0: Graph, g1: Graph) -> bool {
    &&& g1.adj@.len() == g0.adj@.len()
    &&& forall|v: int|
        0 <= v < g0.adj@.len() ==> (#[trigger] g0.adj@[v])@.len() <= g1.adj@[v]@.len() && forall|j: int|
            0 <= j < g0.adj@[v]@.len() ==> #[trigger] g1.adj@[v]@[j] == g0.adj@[v]@[j]
}

/// A link from vertex `u` to vertex `v` that carries collector target `ct`.
pub open spec fn has_link(g: Graph, u: int, v: int, ct: Option<usize>) -> bool {
    exists|j: int| 0 <= j < g.adj@[u]@.len() && (#[trigger] g.adj@[u]@[j]).to == v && g.adj@[u]@[j].collector_target == ct
}

/// Links stay when link lists only grow.
proof fn lemma_links_kept(g0: Graph, g1: Graph)
    requires
        adj_grows(g0, g1),
    ensures
        forall|u: int, v: int, ct: Option<usize>|
            0 <= u < g0.adj@.len() && has_link(g0, u, v, ct) ==> #[trigger] has_link(g1, u, v, ct),
{
    assert forall|u: int, v: int, ct: Option<usize>|
        0 <= u < g0.adj@.len() && has_link(g0, u, v, ct) implies #[trigger] has_link(g1, u, v, ct) by {
        let j = choose|j: int| 0 <= j < g0.adj@[u]@.len() && (#[trigger] g0.adj@[u]@[j]).to == v && g0.adj@[u]@[j].collector_target == ct;
        assert(g0.adj@[u]@.len() <= g1.adj@[u]@.len());
        assert(g1.adj@[u]@[j] == g0.adj@[u]@[j]);
    }
}

/// Links between grid cells stay when link lists only grow.
proof fn lemma_cell_links_kept(g0: Graph, g1: Graph, nx: int, ny: int)
    requires
        adj_grows(g0, g1),
        g0.adj@.len() == nx * ny,
    ensures
        forall|a: int, b: int, a2: int, b2: int, ct: Option<usize>|
            0 <= a < nx && 0 <= b < ny && has_link(g0, cell(a, b, ny), cell(a2, b2, ny), ct) ==> #[trigger] has_link(
                g1,
                cell(a, b, ny),
                cell(a2, b2, ny),
                ct,
            ),
{
    lemma_links_kept(g0, g1);
    assert forall|a: int, b: int, a2: int, b2: int, ct: Option<usize>|
        0 <= a < nx && 0 <= b < ny && has_link(g0, cell(a, b, ny), cell(a2, b2, ny), ct) implies #[trigger] has_link(
            g1,
            cell(a, b, ny),
            cell(a2, b2, ny),
            ct,
        ) by {
        lemma_cell_bound(a, b, nx, ny);
    }
}

/// Links two grid points if both are free and distinct: horizontally when they share a row,
/// else vertically.
fn add_undirected_edge(
    g: &mut Graph,
    obstacles: &Vec<Obstacle>,
    ai: usize,
    bi: usize,
    collector_target: Option<usize>,
)
    requires
        graph_wf(*old(g), obstacles@),
        ai < old(g).points@.len(),
        bi < old(g).points@.len(),
        old(g).points@.len() <= 0x1000_0000,
        old(g).points@[ai as int].y == old(g).points@[bi as int].y || old(g).points@[ai as int].x == old(g).points@[bi as int].x,
    ensures
        graph_wf(*final(g), obstacles@),
        final(g).xs@ == old(g).xs@,
        final(g).ys@ == old(g).ys@,
        final(g).points@ == old(g).points@,
        adj_grows(*old(g), *final(g)),
        ({
            let a = old(g).points@[ai as int];
            let b = old(g).points@[bi as int];
            if a != b && free(obstacles@, a) && free(obstacles@, b) {
                &&& final(g).present@ == old(g).present@.update(ai as int, true).update(bi as int, true)
                &&& final(g).adj@.len() == old(g).adj@.len()
                &&& final(g).adj@[ai as int]@ == old(g).adj@[ai as int]@.push(
                    link_between(a, b, ai as int, bi as int, bi, collector_target),
                )
                &&& final(g).adj@[bi as int]@ == old(g).adj@[bi as int]@.push(
                    link_between(a, b, ai as int, bi as int, ai, collector_target),
                )
                &&& forall|v: int| 0 <= v < old(g).adj@.len() && v != ai && v != bi ==> #[trigger] final(g).adj@[v] == old(g).adj@[v]
            } else {
                *final(g) == *old(g)
            }
        }),
{
    let a = g.points[ai];
    let b = g.points[bi];
    if a == b {
        return;
    }
    if !is_free_point(a, obstacles) || !is_free_point(b, obstacles) {
        return;
    }
    let (horizontal, len) = if a.y == b.y {
        (true, if a.x >= b.x { a.x - b.x } else { b.x - a.x })
    } else {
        (false, if a.y >= b.y { a.y - b.y } else { b.y - a.y })
    };
    if len <= 0 {
        return;
    }
    proof {
        assert(ai < 0x1000_0000 && bi < 0x1000_0000);
    }
    let low = if ai < bi { ai } else { bi };
    let key = 2 * low + if horizontal { 0 } else { 1 };
    let ghost g0 = *g;
    g.present.set(ai, true);
    g.present.set(bi, true);
    let mut la: Vec<AdjEdge> = Vec::new();
    std::mem::swap(&mut la, &mut g.adj[ai]);
    la.push(AdjEdge { to: bi, horizontal, len, key, collector_target });
    g.adj.set(ai, la);
    let mut lb: Vec<AdjEdge> = Vec::new();
    std::mem::swap(&mut lb, &mut g.adj[bi]);
    lb.push(AdjEdge { to: ai, horizontal, len, key, collector_target });
    g.adj.set(bi, lb);
    proof {
        let n = g.points@.len();
        assert forall|v: int| 0 <= v < n && #[trigger] g.present@[v] implies free(obstacles@, g.points@[v]) by {
            if v != ai && v != bi {
                assert(g0.present@[v]);
            }
        }
        assert forall|v: int, j: int| 0 <= v < g.adj@.len() && 0 <= j < g.adj@[v]@.len() implies edge_ok(
            *g,
            v,
            #[trigger] g.adj@[v]@[j],
        ) by {
            let e = g.adj@[v]@[j];
            if v == bi && j == g.adj@[v]@.len() - 1 {
                assert(e.to == ai);
            } else if v == ai && j == g.adj@[v]@.len() - 1 && v != bi {
                assert(e.to == bi);
            } else {
                assert(e == g0.adj@[v]@[j]);
                assert(edge_ok(g0, v, e));
            }
        }
    }
}

/// Where a stable insertion puts `x` into `s` (searching back from `i`): after the last element
/// not above it.
pub open spec fn interval_insert_pos(s: Seq<(i32, i32)>, x: (i32, i32), i: int) -> int
    decreases i,
{
    if i <= 0 || interval_le(s[i - 1], x) {
        i
    } else {
        interval_insert_pos(s, x, i - 1)
    }
}

/// The intervals sorted by start, then end, keeping the given order among equal ones.
pub open spec fn sort_intervals(raw: Seq<(i32, i32)>) -> Seq<(i32, i32)>
    decreases raw.len(),
{
    if raw.len() == 0 {
        Seq::empty()
    } else {
        let s = sort_intervals(raw.drop_last());
        s.insert(interval_insert_pos(s, raw.last(), s.len() as int), raw.last())
    }
}

/// Sorted intervals with each one that overlaps or touches the one before merged into it.
pub open spec fn merge_sorted(sorted: Seq<(i32, i32)>) -> Seq<(i32, i32)>
    decreases sorted.len(),
{
    if sorted.len() == 0 {
        Seq::empty()
    } else {
        let m = merge_sorted(sorted.drop_last());
        let x = sorted.last();
        if m.len() > 0 && x.0 <= m.last().1 + 1 {
            m.update(m.len() - 1, (m.last().0, if x.1 > m.last().1 { x.1 } else { m.last().1 }))
        } else {
            m.push(x)
        }
    }
}

/// The intervals sorted and merged.
pub open spec fn merged_intervals(raw: Seq<(i32, i32)>) -> Seq<(i32, i32)> {
    merge_sorted(sort_intervals(raw))
}

/// The `[x0, x1]` intervals of the obstacles that cross row `y`, in obstacle order.
pub open spec fn row_intervals(obstacles: Seq<Obstacle>, y: i32) -> Seq<(i32, i32)>
    decreases obstacles.len(),
{
    if obstacles.len() == 0 {
        Seq::empty()
    } else {
        let r = obstacles.last();
        row_intervals(obstacles.drop_last(), y) + (if y >= r.y0 && y <= r.y1 {
            seq![(r.x0, r.x1)]
        } else {
            Seq::empty()
        })
    }
}

/// The `[y0, y1]` intervals of the obstacles that cross column `x`, in obstacle order.
pub open spec fn column_intervals(obstacles: Seq<Obstacle>, x: i32) -> Seq<(i32, i32)>
    decreases obstacles.len(),
{
    if obstacles.len() == 0 {
        Seq::empty()
    } else {
        let r = obstacles.last();
        column_intervals(obstacles.drop_last(), x) + (if x >= r.x0 && x <= r.x1 {
            seq![(r.y0, r.y1)]
        } else {
            Seq::empty()
        })
    }
}

/// The spans of `[start, hi]` left free between the blocked intervals from index `k` on: before
/// each blocked interval what lies between the running start and it, the start then moving past
/// it; finally what remains up to `hi`.
pub open spec fn spans_from(blocked: Seq<(i32, i32)>, k: int, start: int, hi: int) -> Seq<(int, int)>
    decreases blocked.len() - k,
{
    if k < 0 || k >= blocked.len() {
        if start <= hi { seq![(start, hi)] } else { Seq::empty() }
    } else {
        let b = blocked[k];
        (if start <= b.0 - 1 { seq![(start, b.0 - 1)] } else { Seq::empty() }) + spans_from(blocked, k + 1, b.1 + 1, hi)
    }
}

/// The spans as integer pairs.
pub open spec fn int_pairs(v: Seq<(i32, i32)>) -> Seq<(int, int)> {
    v.map_values(|p: (i32, i32)| (p.0 as int, p.1 as int))
}

/// The target of the first collector from index `k` on at column `x` that covers `[a0, a1]`.
pub open spec fn covering_collector(by_top: Seq<CollectorSpan>, x: i32, a0: i32, a1: i32, k: int) -> Option<usize>
    decreases by_top.len() - k,
{
    if k < 0 || k >= by_top.len() {
        None
    } else {
        let s = by_top[k];
        let c0 = if s.y_top < s.y_bottom { s.y_top } else { s.y_bottom };
        let c1 = if s.y_top < s.y_bottom { s.y_bottom } else { s.y_top };
        if s.x == x && a0 >= c0 && a1 <= c1 {
            Some(s.target_ord)
        } else {
            covering_collector(by_top, x, a0, a1, k + 1)
        }
    }
}

/// The collector order: by top, then bottom.
pub open spec fn collector_le(a: CollectorSpan, b: CollectorSpan) -> bool {
    a.y_top < b.y_top || (a.y_top == b.y_top && a.y_bottom <= b.y_bottom)
}

/// Where a stable insertion puts collector `c` into `s` (searching back from `i`).
pub open spec fn collector_insert_pos(s: Seq<CollectorSpan>, c: CollectorSpan, i: int) -> int
    decreases i,
{
    if i <= 0 || collector_le(s[i - 1], c) {
        i
    } else {
        collector_insert_pos(s, c, i - 1)
    }
}

/// The collectors sorted by top, then bottom, keeping the given order among ties.
pub open spec fn sort_collectors(cs: Seq<CollectorSpan>) -> Seq<CollectorSpan>
    decreases cs.len(),
{
    if cs.len() == 0 {
        Seq::empty()
    } else {
        let s = sort_collectors(cs.drop_last());
        s.insert(collector_insert_pos(s, cs.last(), s.len() as int), cs.last())
    }
}

/// The merged intervals `[x0, x1]` of the obstacles that cross row `y`, in increasing order.
fn blocked_intervals_x(obstacles: &Vec<Obstacle>, y: i32) -> (r: Vec<(i32, i32)>)
    requires
        obstacles_ok(obstacles@),
    ensures
        r@ == merged_intervals(row_intervals(obstacles@, y)),
        forall|i: int|
            0 <= i < r@.len() ==> in_range((#[trigger] r@[i]).0 as int, line_limit()) && in_range(
                r@[i].1 as int,
                line_limit(),
            ),
{
    let mut raw: Vec<(i32, i32)> = Vec::new();
    let mut k: usize = 0;
    assert(obstacles@.take(0) =~= Seq::<Obstacle>::empty());
    while k < obstacles.len()
        invariant
            obstacles_ok(obstacles@),
            k <= obstacles@.len(),
            raw@ == row_intervals(obstacles@.take(k as int), y),
            forall|i: int|
                0 <= i < raw@.len() ==> in_range((#[trigger] raw@[i]).0 as int, line_limit()) && in_range(
                    raw@[i].1 as int,
                    line_limit(),
                ),
        decreases obstacles@.len() - k,
    {
        let r = obstacles[k];
        proof {
            assert(obstacles@.take(k + 1).drop_last() =~= obstacles@.take(k as int));
            assert(obstacles@.take(k + 1).last() == r);
            assert(crate::render::router_geom::obstacle_ok(obstacles@[k as int]));
        }
        let ghost before = raw@;
        if y >= r.y0 && y <= r.y1 {
            raw.push((r.x0, r.x1));
        }
        assert(raw@ =~= before + (if y >= r.y0 && y <= r.y1 { seq![(r.x0, r.x1)] } else { Seq::<(i32, i32)>::empty() }));
        k = k + 1;
    }
    assert(obstacles@.take(obstacles@.len() as int) =~= obstacles@);
    merge_intervals(raw)
}

/// The merged intervals `[y0, y1]` of the obstacles that cross column `x`, in increasing order.
fn blocked_intervals_y(obstacles: &Vec<Obstacle>, x: i32) -> (r: Vec<(i32, i32)>)
    requires
        obstacles_ok(obstacles@),
    ensures
        r@ == merged_intervals(column_intervals(obstacles@, x)),
        forall|i: int|
            0 <= i < r@.len() ==> in_range((#[trigger] r@[i]).0 as int, line_limit()) && in_range(
                r@[i].1 as int,
                line_limit(),
            ),
{
    let mut raw: Vec<(i32, i32)> = Vec::new();
    let mut k: usize = 0;
    assert(obstacles@.take(0) =~= Seq::<Obstacle>::empty());
    while k < obstacles.len()
        invariant
            obstacles_ok(obstacles@),
            k <= obstacles@.len(),
            raw@ == column_intervals(obstacles@.take(k as int), x),
            forall|i: int|
                0 <= i < raw@.len() ==> in_range((#[trigger] raw@[i]).0 as int, line_limit()) && in_range(
                    raw@[i].1 as int,
                    line_limit(),
                ),
        decreases obstacles@.len() - k,
    {
        let r = obstacles[k];
        proof {
            assert(obstacles@.take(k + 1).drop_last() =~= obstacles@.take(k as int));
            assert(obstacles@.take(k + 1).last() == r);
            assert(crate::render::router_geom::obstacle_ok(obstacles@[k as int]));
        }
        let ghost before = raw@;
        if x >= r.x0 && x <= r.x1 {
            raw.push((r.y0, r.y1));
        }
        assert(raw@ =~= before + (if x >= r.x0 && x <= r.x1 { seq![(r.y0, r.y1)] } else { Seq::<(i32, i32)>::empty() }));
        k = k + 1;
    }
    assert(obstacles@.take(obstacles@.len() as int) =~= obstacles@);
    merge_intervals(raw)
}

/// The pair order: by start, then by end.
pub open spec fn interval_le(a: (i32, i32), b: (i32, i32)) -> bool {
    a.0 < b.0 || (a.0 == b.0 && a.1 <= b.1)
}

proof fn lemma_interval_insert_pos(s: Seq<(i32, i32)>, x: (i32, i32), i: int)
    requires
        0 <= i <= s.len(),
    ensures
        0 <= interval_insert_pos(s, x, i) <= i,
    decreases i,
{
    if i > 0 && !interval_le(s[i - 1], x) {
        lemma_interval_insert_pos(s, x, i - 1);
    }
}

/// Sorts intervals by start then end (stably), then merges those that overlap or touch.
fn merge_intervals(raw: Vec<(i32, i32)>) -> (r: Vec<(i32, i32)>)
    requires
        forall|i: int|
            0 <= i < raw@.len() ==> in_range((#[trigger] raw@[i]).0 as int, line_limit()) && in_range(
                raw@[i].1 as int,
                line_limit(),
            ),
    ensures
        r@ == merged_intervals(raw@),
        forall|i: int|
            0 <= i < r@.len() ==> in_range((#[trigger] r@[i]).0 as int, line_limit()) && in_range(
                r@[i].1 as int,
                line_limit(),
            ),
{
    let mut sorted: Vec<(i32, i32)> = Vec::new();
    let mut k: usize = 0;
    assert(raw@.take(0) =~= Seq::<(i32, i32)>::empty());
    while k < raw.len()
        invariant
            k <= raw@.len(),
            sorted@ == sort_intervals(raw@.take(k as int)),
            forall|i: int|
                0 <= i < raw@.len() ==> in_range((#[trigger] raw@[i]).0 as int, line_limit()) && in_range(
                    raw@[i].1 as int,
                    line_limit(),
                ),
            forall|i: int|
                0 <= i < sorted@.len() ==> in_range((#[trigger] sorted@[i]).0 as int, line_limit()) && in_range(
                    sorted@[i].1 as int,
                    line_limit(),
                ),
        decreases raw@.len() - k,
    {
        let item = raw[k];
        let mut i: usize = sorted.len();
        proof {
            lemma_interval_insert_pos(sorted@, item, sorted@.len() as int);
        }
        while i > 0 && !(sorted[i - 1].0 < item.0 || (sorted[i - 1].0 == item.0 && sorted[i - 1].1 <= item.1))
            invariant
                i <= sorted@.len(),
                interval_insert_pos(sorted@, item, sorted@.len() as int) == interval_insert_pos(sorted@, item, i as int),
            decreases i,
        {
            i = i - 1;
        }
        let ghost before = sorted@;
        sorted.insert(i, item);
        proof {
            assert(raw@.take(k + 1).drop_last() =~= raw@.take(k as int));
            assert(raw@.take(k + 1).last() == item);
            assert forall|m: int| 0 <= m < sorted@.len() implies in_range((#[trigger] sorted@[m]).0 as int, line_limit())
                && in_range(sorted@[m].1 as int, line_limit()) by {
                if m < i {
                    assert(sorted@[m] == before[m]);
                } else if m > i {
                    assert(sorted@[m] == before[m - 1]);
                }
            }
        }
        k = k + 1;
    }
    assert(raw@.take(raw@.len() as int) =~= raw@);
    let mut merged: Vec<(i32, i32)> = Vec::new();
    let mut j: usize = 0;
    assert(sorted@.take(0) =~= Seq::<(i32, i32)>::empty());
    while j < sorted.len()
        invariant
            j <= sorted@.len(),
            merged@ == merge_sorted(sorted@.take(j as int)),
            forall|i: int|
                0 <= i < sorted@.len() ==> in_range((#[trigger] sorted@[i]).0 as int, line_limit()) && in_range(
                    sorted@[i].1 as int,
                    line_limit(),
                ),
            forall|i: int|
                0 <= i < merged@.len() ==> in_range((#[trigger] merged@[i]).0 as int, line_limit()) && in_range(
                    merged@[i].1 as int,
                    line_limit(),
                ),
        decreases sorted@.len() - j,
    {
        assert(sorted@.take(j + 1).drop_last() =~= sorted@.take(j as int));
        assert(sorted@.take(j + 1).last() == sorted@[j as int]);
        let (x0, x1) = sorted[j];
        let m = merged.len();
        if m > 0 && x0 <= merged[m - 1].1 + 1 {
            let last = merged[m - 1];
            let hi = if x1 > last.1 { x1 } else { last.1 };
            merged.set(m - 1, (last.0, hi));
        } else {
            merged.push((x0, x1));
        }
        j = j + 1;
    }
    assert(sorted@.take(sorted@.len() as int) =~= sorted@);
    merged
}

/// The free spans of `[lo, hi]` between the blocked intervals; see [`spans_from`].
fn free_spans(blocked: &Vec<(i32, i32)>, lo: i32, hi: i32) -> (r: Vec<(i32, i32)>)
    requires
        forall|i: int|
            0 <= i < blocked@.len() ==> in_range((#[trigger] blocked@[i]).0 as int, line_limit()) && in_range(
                blocked@[i].1 as int,
                line_limit(),
            ),
        in_range(lo as int, line_limit()),
        in_range(hi as int, line_limit()),
    ensures
        int_pairs(r@) == spans_from(blocked@, 0, lo as int, hi as int),
{
    let mut out: Vec<(i32, i32)> = Vec::new();
    let mut start = lo;
    let mut k: usize = 0;
    assert(int_pairs(out@) =~= Seq::<(int, int)>::empty());
    assert(spans_from(blocked@, 0, lo as int, hi as int) =~= int_pairs(out@) + spans_from(blocked@, 0, lo as int, hi as int));
    while k < blocked.len()
        invariant
            k <= blocked@.len(),
            forall|i: int|
                0 <= i < blocked@.len() ==> in_range((#[trigger] blocked@[i]).0 as int, line_limit()) && in_range(
                    blocked@[i].1 as int,
                    line_limit(),
                ),
            in_range(start as int, line_limit() + 1),
            spans_from(blocked@, 0, lo as int, hi as int) == int_pairs(out@) + spans_from(blocked@, k as int, start as int, hi as int),
        decreases blocked@.len() - k,
    {
        let (b0, b1) = blocked[k];
        let ghost before = int_pairs(out@);
        if start <= b0 - 1 {
            out.push((start, b0 - 1));
        }
        assert(int_pairs(out@) =~= before + (if start <= b0 - 1 { seq![(start as int, b0 - 1)] } else { Seq::<(int, int)>::empty() }));
        assert(before + ((if start <= b0 - 1 { seq![(start as int, b0 - 1)] } else { Seq::<(int, int)>::empty() }) + spans_from(blocked@, k + 1, b1 + 1, hi as int))
            =~= int_pairs(out@) + spans_from(blocked@, k + 1, b1 + 1, hi as int));
        start = b1 + 1;
        k = k + 1;
    }
    let ghost before = int_pairs(out@);
    if start <= hi {
        out.push((start, hi));
    }
    assert(int_pairs(out@) =~= before + spans_from(blocked@, k as int, start as int, hi as int));
    out
}

/// The target of the first collector at column `x` that covers the vertical segment between
/// `y0` and `y1`, in the order of `by_top`; see [`covering_collector`].
fn collector_target_for_segment(x: i32, y0: i32, y1: i32, by_top: &Vec<CollectorSpan>) -> (r: Option<usize>)
    ensures
        r == covering_collector(by_top@, x, if y0 < y1 { y0 } else { y1 }, if y0 < y1 { y1 } else { y0 }, 0),
{
    let a0 = if y0 < y1 { y0 } else { y1 };
    let a1 = if y0 < y1 { y1 } else { y0 };
    let mut k: usize = 0;
    while k < by_top.len()
        invariant
            k <= by_top@.len(),
            a0 == (if y0 < y1 { y0 } else { y1 }),
            a1 == (if y0 < y1 { y1 } else { y0 }),
            covering_collector(by_top@, x, a0, a1, 0) == covering_collector(by_top@, x, a0, a1, k as int),
        decreases by_top@.len() - k,
    {
        let s = by_top[k];
        if s.x == x {
            let c0 = if s.y_top < s.y_bottom { s.y_top } else { s.y_bottom };
            let c1 = if s.y_top < s.y_bottom { s.y_bottom } else { s.y_top };
            if a0 >= c0 && a1 <= c1 {
                return Some(s.target_ord);
            }
        }
        k = k + 1;
    }
    None
}

proof fn lemma_collector_insert_pos(s: Seq<CollectorSpan>, c: CollectorSpan, i: int)
    requires
        0 <= i <= s.len(),
    ensures
        0 <= collector_insert_pos(s, c, i) <= i,
    decreases i,
{
    if i > 0 && !collector_le(s[i - 1], c) {
        lemma_collector_insert_pos(s, c, i - 1);
    }
}

/// The collectors ordered by top, then bottom, keeping the given order among ties.
fn collectors_by_top(collectors: &Vec<CollectorSpan>) -> (r: Vec<CollectorSpan>)
    ensures
        r@ == sort_collectors(collectors@),
{
    let mut sorted: Vec<CollectorSpan> = Vec::new();
    let mut k: usize = 0;
    assert(collectors@.take(0) =~= Seq::<CollectorSpan>::empty());
    while k < collectors.len()
        invariant
            k <= collectors@.len(),
            sorted@ == sort_collectors(collectors@.take(k as int)),
        decreases collectors@.len() - k,
    {
        let c = collectors[k];
        let mut i: usize = sorted.len();
        proof {
            lemma_collector_insert_pos(sorted@, c, sorted@.len() as int);
        }
        while i > 0 && !(sorted[i - 1].y_top < c.y_top || (sorted[i - 1].y_top == c.y_top && sorted[i - 1].y_bottom
            <= c.y_bottom))
            invariant
                i <= sorted@.len(),
                collector_insert_pos(sorted@, c, sorted@.len() as int) == collector_insert_pos(sorted@, c, i as int),
            decreases i,
        {
            i = i - 1;
        }
        sorted.insert(i, c);
        proof {
            assert(collectors@.take(k + 1).drop_last() =~= collectors@.take(k as int));
            assert(collectors@.take(k + 1).last() == c);
        }
        k = k + 1;
    }
    assert(collectors@.take(collectors@.len() as int) =~= collectors@);
    sorted
}

/// `[lo, hi]` lies within one of the spans.
pub open spec fn within_span(spans: Seq<(int, int)>, lo: int, hi: int) -> bool {
    exists|k: int| 0 <= k < spans.len() && spans[k].0 <= lo && hi <= spans[k].1
}

/// Grid points `a` and `a + 1` of row `b` lie in `span` and outside every obstacle.
pub open spec fn row_pair_in(span: (i32, i32), obstacles: Seq<Obstacle>, xs: Seq<i32>, ys: Seq<i32>, a: int, b: int) -> bool {
    &&& span.0 <= xs[a] && xs[a + 1] <= span.1
    &&& free(obstacles, PointI { x: xs[a], y: ys[b] })
    &&& free(obstacles, PointI { x: xs[a + 1], y: ys[b] })
}

/// Grid points `a` and `b`, `b + 1` of column `a` lie in `span` and outside every obstacle.
pub open spec fn column_pair_in(span: (i32, i32), obstacles: Seq<Obstacle>, xs: Seq<i32>, ys: Seq<i32>, a: int, b: int) -> bool {
    &&& span.0 <= ys[b] && ys[b + 1] <= span.1
    &&& free(obstacles, PointI { x: xs[a], y: ys[b] })
    &&& free(obstacles, PointI { x: xs[a], y: ys[b + 1] })
}

/// Link `e` of vertex `u` joins grid points `a` and `a + 1` of row `b`, a wanted pair, with no
/// collector target.
pub open spec fn row_link_at(
    obstacles: Seq<Obstacle>,
    xs: Seq<i32>,
    ys: Seq<i32>,
    bounds: (i32, i32, i32, i32),
    a: int,
    b: int,
    u: int,
    e: AdjEdge,
) -> bool {
    let ny = ys.len() as int;
    &&& 0 <= a && a + 1 < xs.len() && 0 <= b < ny
    &&& row_link_wanted(obstacles, xs, ys, bounds, a, b)
    &&& e.collector_target == None::<usize>
    &&& ((u == cell(a, b, ny) && e.to == cell(a + 1, b, ny)) || (u == cell(a + 1, b, ny) && e.to == cell(a, b, ny)))
}

/// Link `e` of vertex `u` joins grid points `b` and `b + 1` of column `a`, a wanted pair,
/// carrying the target of the first covering collector of `by_top`.
pub open spec fn column_link_at(
    obstacles: Seq<Obstacle>,
    xs: Seq<i32>,
    ys: Seq<i32>,
    bounds: (i32, i32, i32, i32),
    by_top: Seq<CollectorSpan>,
    a: int,
    b: int,
    u: int,
    e: AdjEdge,
) -> bool {
    let ny = ys.len() as int;
    &&& 0 <= a < xs.len() && 0 <= b && b + 1 < ny
    &&& column_link_wanted(obstacles, xs, ys, bounds, a, b)
    &&& e.collector_target == covering_collector(by_top, xs[a], ys[b], ys[b + 1], 0)
    &&& ((u == cell(a, b, ny) && e.to == cell(a, b + 1, ny)) || (u == cell(a, b + 1, ny) && e.to == cell(a, b, ny)))
}

/// Link `e` of vertex `u` is a wanted link of a row or of a column.
pub open spec fn link_wanted(
    obstacles: Seq<Obstacle>,
    xs: Seq<i32>,
    ys: Seq<i32>,
    bounds: (i32, i32, i32, i32),
    by_top: Seq<CollectorSpan>,
    u: int,
    e: AdjEdge,
) -> bool {
    exists|a: int, b: int|
        #![trigger row_link_at(obstacles, xs, ys, bounds, a, b, u, e)]
        #![trigger column_link_at(obstacles, xs, ys, bounds, by_top, a, b, u, e)]
        row_link_at(obstacles, xs, ys, bounds, a, b, u, e) || column_link_at(obstacles, xs, ys, bounds, by_top, a, b, u, e)
}

/// Every link of `g` is wanted.
pub open spec fn links_wanted(
    g: Graph,
    obstacles: Seq<Obstacle>,
    xs: Seq<i32>,
    ys: Seq<i32>,
    bounds: (i32, i32, i32, i32),
    by_top: Seq<CollectorSpan>,
) -> bool {
    forall|u: int, j: int|
        0 <= u < g.adj@.len() && 0 <= j < g.adj@[u]@.len() ==> link_wanted(obstacles, xs, ys, bounds, by_top, u, #[trigger] g.adj@[u]@[j])
}

/// Adding one wanted link in each direction, or nothing, keeps every link wanted.
proof fn lemma_links_wanted_add(
    g0: Graph,
    g1: Graph,
    ai: int,
    bi: int,
    na: AdjEdge,
    nb: AdjEdge,
    obstacles: Seq<Obstacle>,
    xs: Seq<i32>,
    ys: Seq<i32>,
    bounds: (i32, i32, i32, i32),
    by_top: Seq<CollectorSpan>,
)
    requires
        links_wanted(g0, obstacles, xs, ys, bounds, by_top),
        adj_grows(g0, g1),
        0 <= ai < g0.adj@.len(),
        0 <= bi < g0.adj@.len(),
        forall|v: int| 0 <= v < g0.adj@.len() && v != ai && v != bi ==> #[trigger] g1.adj@[v] == g0.adj@[v],
        g1.adj@[ai]@ == g0.adj@[ai]@ || (g1.adj@[ai]@ == g0.adj@[ai]@.push(na) && link_wanted(obstacles, xs, ys, bounds, by_top, ai, na)),
        g1.adj@[bi]@ == g0.adj@[bi]@ || (g1.adj@[bi]@ == g0.adj@[bi]@.push(nb) && link_wanted(obstacles, xs, ys, bounds, by_top, bi, nb)),
    ensures
        links_wanted(g1, obstacles, xs, ys, bounds, by_top),
{
    assert forall|u: int, j: int|
        0 <= u < g1.adj@.len() && 0 <= j < g1.adj@[u]@.len() implies link_wanted(obstacles, xs, ys, bounds, by_top, u, #[trigger] g1.adj@[u]@[j]) by {
        if j < g0.adj@[u]@.len() {
            assert(g1.adj@[u]@[j] == g0.adj@[u]@[j]);
            assert(link_wanted(obstacles, xs, ys, bounds, by_top, u, g0.adj@[u]@[j]));
        } else if u == ai {
            assert(g1.adj@[u]@[j] == na);
        } else if u == bi {
            assert(g1.adj@[u]@[j] == nb);
        }
    }
}

/// Every wanted link of a row is there, both ways, with no collector target.
pub open spec fn rows_linked(g: Graph, obstacles: Seq<Obstacle>, xs: Seq<i32>, ys: Seq<i32>, bounds: (i32, i32, i32, i32)) -> bool {
    forall|a: int, b: int|
        0 <= a && a + 1 < xs.len() && 0 <= b < ys.len() && #[trigger] row_link_wanted(obstacles, xs, ys, bounds, a, b)
            ==> has_link(g, cell(a, b, ys.len() as int), cell(a + 1, b, ys.len() as int), None) && has_link(
            g,
            cell(a + 1, b, ys.len() as int),
            cell(a, b, ys.len() as int),
            None,
        )
}

/// Grid points `b` and `b + 1` of column `a` are linked both ways, carrying the target of the
/// first collector (in `by_top` order) that covers the stretch between them.
pub open spec fn column_linked(g: Graph, xs: Seq<i32>, ys: Seq<i32>, by_top: Seq<CollectorSpan>, a: int, b: int) -> bool {
    let ct = covering_collector(by_top, xs[a], ys[b], ys[b + 1], 0);
    &&& has_link(g, cell(a, b, ys.len() as int), cell(a, b + 1, ys.len() as int), ct)
    &&& has_link(g, cell(a, b + 1, ys.len() as int), cell(a, b, ys.len() as int), ct)
}

/// Grid points `a` and `a + 1` of row `b` are to be linked: the row lies within the bounds,
/// both points are outside every obstacle, and the stretch between them lies within one gap,
/// inside the bounds, between the obstacles that cross the row.
pub open spec fn row_link_wanted(
    obstacles: Seq<Obstacle>,
    xs: Seq<i32>,
    ys: Seq<i32>,
    bounds: (i32, i32, i32, i32),
    a: int,
    b: int,
) -> bool {
    let y = ys[b];
    &&& bounds.2 <= y <= bounds.3
    &&& within_span(spans_from(merged_intervals(row_intervals(obstacles, y)), 0, bounds.0 as int, bounds.1 as int), xs[a] as int, xs[a + 1] as int)
    &&& free(obstacles, PointI { x: xs[a], y })
    &&& free(obstacles, PointI { x: xs[a + 1], y })
}

/// Grid points `b` and `b + 1` of column `a` are to be linked, as for rows.
pub open spec fn column_link_wanted(
    obstacles: Seq<Obstacle>,
    xs: Seq<i32>,
    ys: Seq<i32>,
    bounds: (i32, i32, i32, i32),
    a: int,
    b: int,
) -> bool {
    let x = xs[a];
    &&& bounds.0 <= x <= bounds.1
    &&& within_span(spans_from(merged_intervals(column_intervals(obstacles, x)), 0, bounds.2 as int, bounds.3 as int), ys[b] as int, ys[b + 1] as int)
    &&& free(obstacles, PointI { x, y: ys[b] })
    &&& free(obstacles, PointI { x, y: ys[b + 1] })
}

/// The visibility graph over the grid lines `xs` and `ys` within `bounds`
/// (`(min_x, max_x, min_y, max_y)`): along each row, consecutive grid points inside one free
/// span are linked; then along each column likewise, each vertical link carrying the target
/// of the collector that covers it.
pub fn build_visibility_graph(
    obstacles: &Vec<Obstacle>,
    xs: &Vec<i32>,
    ys: &Vec<i32>,
    bounds: (i32, i32, i32, i32),
    collectors: &Vec<CollectorSpan>,
) -> (g: Graph)
    requires
        obstacles_ok(obstacles@),
        lines_ok(xs@),
        lines_ok(ys@),
        xs@.len() * ys@.len() <= 0x1000_0000,
        in_range(bounds.0 as int, line_limit()),
        in_range(bounds.1 as int, line_limit()),
        in_range(bounds.2 as int, line_limit()),
        in_range(bounds.3 as int, line_limit()),
    ensures
        graph_wf(g, obstacles@),
        g.xs@ == xs@,
        g.ys@ == ys@,
        g.points@.len() == xs@.len() * ys@.len(),
        forall|a: int, b: int|
            0 <= a < xs@.len() && 0 <= b < ys@.len() ==> g.points@[#[trigger] cell(a, b, ys@.len() as int)] == (PointI {
                x: xs@[a],
                y: ys@[b],
            }),
        rows_linked(g, obstacles@, xs@, ys@, bounds),
        forall|a: int, b: int|
            0 <= a < xs@.len() && 0 <= b && b + 1 < ys@.len() && #[trigger] column_link_wanted(obstacles@, xs@, ys@, bounds, a, b)
                ==> column_linked(g, xs@, ys@, sort_collectors(collectors@), a, b),
        links_wanted(g, obstacles@, xs@, ys@, bounds, sort_collectors(collectors@)),
{
    let (min_x, max_x, min_y, max_y) = bounds;
    let nx = xs.len();
    let ny = ys.len();
    let by_top = collectors_by_top(collectors);
    let mut g = empty_grid(xs, ys);
    let ghost pts = g.points@;
    let ghost ct = sort_collectors(collectors@);
    let mut yi: usize = 0;
    while yi < ny
        invariant
            obstacles_ok(obstacles@),
            nx == xs@.len(),
            ny == ys@.len(),
            nx * ny <= 0x1000_0000,
            in_range(min_x as int, line_limit()),
            in_range(max_x as int, line_limit()),
            graph_wf(g, obstacles@),
            g.xs@ == xs@,
            g.ys@ == ys@,
            g.points@ == pts,
            pts.len() == nx * ny,
            ct == sort_collectors(collectors@),
            links_wanted(g, obstacles@, xs@, ys@, bounds, ct),
            forall|a: int, b: int|
                0 <= a < nx && 0 <= b < ny ==> pts[#[trigger] cell(a, b, ny as int)] == (PointI { x: xs@[a], y: ys@[b] }),
            yi <= ny,
            lines_ok(xs@),
            bounds == (min_x, max_x, min_y, max_y),
            forall|a: int, b: int|
                0 <= a && a + 1 < nx && 0 <= b < yi && #[trigger] row_link_wanted(obstacles@, xs@, ys@, bounds, a, b) ==> has_link(
                    g,
                    cell(a, b, ny as int),
                    cell(a + 1, b, ny as int),
                    None,
                ) && has_link(g, cell(a + 1, b, ny as int), cell(a, b, ny as int), None),
        decreases ny - yi,
    {
        let y = ys[yi];
        if y >= min_y && y <= max_y {
            let blocked = blocked_intervals_x(obstacles, y);
            let spans = free_spans(&blocked, min_x, max_x);
            let mut s: usize = 0;
            while s < spans.len()
                invariant
                    obstacles_ok(obstacles@),
                    nx == xs@.len(),
                    ny == ys@.len(),
                    nx * ny <= 0x1000_0000,
                    yi < ny,
                    graph_wf(g, obstacles@),
                    g.xs@ == xs@,
                    g.ys@ == ys@,
                    g.points@ == pts,
                    pts.len() == nx * ny,
                    ct == sort_collectors(collectors@),
                    links_wanted(g, obstacles@, xs@, ys@, bounds, ct),
                    forall|a: int, b: int|
                        0 <= a < nx && 0 <= b < ny ==> pts[#[trigger] cell(a, b, ny as int)] == (PointI {
                            x: xs@[a],
                            y: ys@[b],
                        }),
                    s <= spans@.len(),
                    lines_ok(xs@),
                    bounds == (min_x, max_x, min_y, max_y),
                    y == ys@[yi as int],
                    min_y <= y <= max_y,
                    int_pairs(spans@) == spans_from(merged_intervals(row_intervals(obstacles@, y)), 0, min_x as int, max_x as int),
                    forall|a: int, b: int|
                        0 <= a && a + 1 < nx && 0 <= b < yi && #[trigger] row_link_wanted(obstacles@, xs@, ys@, bounds, a, b)
                            ==> has_link(g, cell(a, b, ny as int), cell(a + 1, b, ny as int), None) && has_link(
                            g,
                            cell(a + 1, b, ny as int),
                            cell(a, b, ny as int),
                            None,
                        ),
                    forall|a: int, k: int|
                        0 <= a && a + 1 < nx && 0 <= k < s && #[trigger] row_pair_in(spans@[k], obstacles@, xs@, ys@, a, yi as int)
                            ==> has_link(g, cell(a, yi as int, ny as int), cell(a + 1, yi as int, ny as int), None) && has_link(
                            g,
                            cell(a + 1, yi as int, ny as int),
                            cell(a, yi as int, ny as int),
                            None,
                        ),
                decreases spans@.len() - s,
            {
                let (f0, f1) = spans[s];
                let mut prev: Option<usize> = None;
                let mut xi: usize = 0;
                while xi < nx
                    invariant
                        obstacles_ok(obstacles@),
                        nx == xs@.len(),
                        ny == ys@.len(),
                        nx * ny <= 0x1000_0000,
                        yi < ny,
                        graph_wf(g, obstacles@),
                        g.xs@ == xs@,
                        g.ys@ == ys@,
                        g.points@ == pts,
                        pts.len() == nx * ny,
                        ct == sort_collectors(collectors@),
                        links_wanted(g, obstacles@, xs@, ys@, bounds, ct),
                        forall|a: int, b: int|
                            0 <= a < nx && 0 <= b < ny ==> pts[#[trigger] cell(a, b, ny as int)] == (PointI {
                                x: xs@[a],
                                y: ys@[b],
                            }),
                        xi <= nx,
                        prev matches Some(p) ==> p < xi,
                        lines_ok(xs@),
                        s < spans@.len(),
                        spans@[s as int] == (f0, f1),
                        bounds == (min_x, max_x, min_y, max_y),
                        y == ys@[yi as int],
                        min_y <= y <= max_y,
                        int_pairs(spans@) == spans_from(merged_intervals(row_intervals(obstacles@, y)), 0, min_x as int, max_x as int),
                        prev matches Some(p) ==> f0 <= xs@[p as int] <= f1 && forall|q: int| p < q < xi ==> !(f0 <= #[trigger] xs@[q] <= f1),
                        xi > 0 && f0 <= xs@[xi - 1] <= f1 ==> prev == Some((xi - 1) as usize),
                        forall|a: int, b: int|
                            0 <= a && a + 1 < nx && 0 <= b < yi && #[trigger] row_link_wanted(obstacles@, xs@, ys@, bounds, a, b)
                                ==> has_link(g, cell(a, b, ny as int), cell(a + 1, b, ny as int), None) && has_link(
                                g,
                                cell(a + 1, b, ny as int),
                                cell(a, b, ny as int),
                                None,
                            ),
                        forall|a: int, k: int|
                            0 <= a && a + 1 < nx && 0 <= k < s && #[trigger] row_pair_in(spans@[k], obstacles@, xs@, ys@, a, yi as int)
                                ==> has_link(g, cell(a, yi as int, ny as int), cell(a + 1, yi as int, ny as int), None) && has_link(
                                g,
                                cell(a + 1, yi as int, ny as int),
                                cell(a, yi as int, ny as int),
                                None,
                            ),
                        forall|a: int|
                            0 <= a && a + 1 < xi && #[trigger] row_pair_in(spans@[s as int], obstacles@, xs@, ys@, a, yi as int)
                                ==> has_link(g, cell(a, yi as int, ny as int), cell(a + 1, yi as int, ny as int), None) && has_link(
                                g,
                                cell(a + 1, yi as int, ny as int),
                                cell(a, yi as int, ny as int),
                                None,
                            ),
                    decreases nx - xi,
                {
                    let x = xs[xi];
                    if x >= f0 && x <= f1 {
                        if let Some(p) = prev {
                            proof {
                                lemma_cell_bound(p as int, yi as int, nx as int, ny as int);
                                lemma_cell_bound(xi as int, yi as int, nx as int, ny as int);
                                assert(pts[cell(p as int, yi as int, ny as int)].y == ys@[yi as int]);
                                assert(pts[cell(xi as int, yi as int, ny as int)].y == ys@[yi as int]);
                            }
                            let ai = p * ny + yi;
                            let bi = xi * ny + yi;
                            let ghost g0 = g;
                            proof {
                                if p + 1 < xi {
                                    assert(xs@[p as int] < xs@[p + 1] && xs@[p + 1] < xs@[xi as int]);
                                    assert(f0 <= xs@[p + 1] <= f1);
                                }
                                assert(p + 1 == xi);
                            }
                            add_undirected_edge(&mut g, obstacles, ai, bi, None);
                            proof {
                                let pa = pts[ai as int];
                                let pb = pts[bi as int];
                                assert(pa == (PointI { x: xs@[p as int], y: ys@[yi as int] }));
                                assert(pb == (PointI { x: xs@[xi as int], y: ys@[yi as int] }));
                                let na = link_between(pa, pb, ai as int, bi as int, bi, None);
                                let nb = link_between(pa, pb, ai as int, bi as int, ai, None);
                                if pa != pb && free(obstacles@, pa) && free(obstacles@, pb) {
                                    let sp = spans_from(merged_intervals(row_intervals(obstacles@, y)), 0, min_x as int, max_x as int);
                                    assert(sp[s as int] == (f0 as int, f1 as int));
                                    assert(row_link_wanted(obstacles@, xs@, ys@, bounds, p as int, yi as int));
                                    assert(row_link_at(obstacles@, xs@, ys@, bounds, p as int, yi as int, ai as int, na));
                                    assert(row_link_at(obstacles@, xs@, ys@, bounds, p as int, yi as int, bi as int, nb));
                                }
                                lemma_links_wanted_add(g0, g, ai as int, bi as int, na, nb, obstacles@, xs@, ys@, bounds, ct);
                                lemma_cell_links_kept(g0, g, nx as int, ny as int);
                                if p + 1 == xi && row_pair_in(spans@[s as int], obstacles@, xs@, ys@, p as int, yi as int) {
                                    assert(pts[cell(p as int, yi as int, ny as int)] == (PointI { x: xs@[p as int], y: ys@[yi as int] }));
                                    assert(pts[cell(xi as int, yi as int, ny as int)] == (PointI { x: xs@[xi as int], y: ys@[yi as int] }));
                                    assert(xs@[p as int] < xs@[xi as int]);
                                    let la = g.adj@[ai as int]@;
                                    assert(la[la.len() - 1].to == bi && la[la.len() - 1].collector_target == None::<usize>);
                                    assert(has_link(g, ai as int, bi as int, None));
                                    let lb = g.adj@[bi as int]@;
                                    assert(lb[lb.len() - 1].to == ai && lb[lb.len() - 1].collector_target == None::<usize>);
                                    assert(has_link(g, bi as int, ai as int, None));
                                }
                            }
                        }
                        prev = Some(xi);
                    }
                    xi = xi + 1;
                }
                proof {
                    assert forall|a: int, k: int|
                        0 <= a && a + 1 < nx && 0 <= k < s + 1 && #[trigger] row_pair_in(spans@[k], obstacles@, xs@, ys@, a, yi as int)
                            implies has_link(g, cell(a, yi as int, ny as int), cell(a + 1, yi as int, ny as int), None) && has_link(
                            g,
                            cell(a + 1, yi as int, ny as int),
                            cell(a, yi as int, ny as int),
                            None,
                        ) by {
                        if k == s {
                            assert(row_pair_in(spans@[s as int], obstacles@, xs@, ys@, a, yi as int));
                        }
                    }
                }
                s = s + 1;
            }
            proof {
                assert forall|a: int, b: int|
                    0 <= a && a + 1 < nx && 0 <= b < yi + 1 && #[trigger] row_link_wanted(obstacles@, xs@, ys@, bounds, a, b)
                        implies has_link(g, cell(a, b, ny as int), cell(a + 1, b, ny as int), None) && has_link(
                        g,
                        cell(a + 1, b, ny as int),
                        cell(a, b, ny as int),
                        None,
                    ) by {
                    if b == yi {
                        let sp = spans_from(merged_intervals(row_intervals(obstacles@, y)), 0, min_x as int, max_x as int);
                        let k = choose|k: int| 0 <= k < sp.len() && sp[k].0 <= xs@[a] as int && xs@[a + 1] as int <= sp[k].1;
                        assert(int_pairs(spans@)[k] == sp[k]);
                        assert(row_pair_in(spans@[k], obstacles@, xs@, ys@, a, yi as int));
                    }
                }
            }
        } else {
            proof {
                assert forall|a: int, b: int|
                    0 <= a && a + 1 < nx && 0 <= b < yi + 1 && #[trigger] row_link_wanted(obstacles@, xs@, ys@, bounds, a, b)
                        implies has_link(g, cell(a, b, ny as int), cell(a + 1, b, ny as int), None) && has_link(
                        g,
                        cell(a + 1, b, ny as int),
                        cell(a, b, ny as int),
                        None,
                    ) by {
                    if b == yi {
                        assert(!row_link_wanted(obstacles@, xs@, ys@, bounds, a, b));
                    }
                }
            }
        }
        yi = yi + 1;
    }
    let mut xi: usize = 0;
    while xi < nx
        invariant
            obstacles_ok(obstacles@),
            nx == xs@.len(),
            ny == ys@.len(),
            nx * ny <= 0x1000_0000,
            in_range(min_y as int, line_limit()),
            in_range(max_y as int, line_limit()),
            graph_wf(g, obstacles@),
            g.xs@ == xs@,
            g.ys@ == ys@,
            g.points@ == pts,
            pts.len() == nx * ny,
            ct == sort_collectors(collectors@),
            links_wanted(g, obstacles@, xs@, ys@, bounds, ct),
            forall|a: int, b: int|
                0 <= a < nx && 0 <= b < ny ==> pts[#[trigger] cell(a, b, ny as int)] == (PointI { x: xs@[a], y: ys@[b] }),
            xi <= nx,
            lines_ok(ys@),
            bounds == (min_x, max_x, min_y, max_y),
            by_top@ == sort_collectors(collectors@),
            rows_linked(g, obstacles@, xs@, ys@, bounds),
            forall|a: int, b: int|
                0 <= a < xi && 0 <= b && b + 1 < ny && #[trigger] column_link_wanted(obstacles@, xs@, ys@, bounds, a, b)
                    ==> column_linked(g, xs@, ys@, by_top@, a, b),
        decreases nx - xi,
    {
        let x = xs[xi];
        if x >= min_x && x <= max_x {
            let blocked = blocked_intervals_y(obstacles, x);
            let spans = free_spans(&blocked, min_y, max_y);
            let mut s: usize = 0;
            while s < spans.len()
                invariant
                    obstacles_ok(obstacles@),
                    nx == xs@.len(),
                    ny == ys@.len(),
                    nx * ny <= 0x1000_0000,
                    xi < nx,
                    graph_wf(g, obstacles@),
                    g.xs@ == xs@,
                    g.ys@ == ys@,
                    g.points@ == pts,
                    pts.len() == nx * ny,
                    ct == sort_collectors(collectors@),
                    links_wanted(g, obstacles@, xs@, ys@, bounds, ct),
                    forall|a: int, b: int|
                        0 <= a < nx && 0 <= b < ny ==> pts[#[trigger] cell(a, b, ny as int)] == (PointI {
                            x: xs@[a],
                            y: ys@[b],
                        }),
                    s <= spans@.len(),
                    lines_ok(ys@),
                    bounds == (min_x, max_x, min_y, max_y),
                    by_top@ == sort_collectors(collectors@),
                    x == xs@[xi as int],
                    min_x <= x <= max_x,
                    int_pairs(spans@) == spans_from(merged_intervals(column_intervals(obstacles@, x)), 0, min_y as int, max_y as int),
                    rows_linked(g, obstacles@, xs@, ys@, bounds),
                    forall|a: int, b: int|
                        0 <= a < xi && 0 <= b && b + 1 < ny && #[trigger] column_link_wanted(obstacles@, xs@, ys@, bounds, a, b)
                            ==> column_linked(g, xs@, ys@, by_top@, a, b),
                    forall|b: int, k: int|
                        0 <= b && b + 1 < ny && 0 <= k < s && #[trigger] column_pair_in(spans@[k], obstacles@, xs@, ys@, xi as int, b)
                            ==> column_linked(g, xs@, ys@, by_top@, xi as int, b),
                decreases spans@.len() - s,
            {
                let (f0, f1) = spans[s];
                let mut prev: Option<usize> = None;
                let mut yi: usize = 0;
                while yi < ny
                    invariant
                        obstacles_ok(obstacles@),
                        nx == xs@.len(),
                        ny == ys@.len(),
                        nx * ny <= 0x1000_0000,
                        xi < nx,
                        graph_wf(g, obstacles@),
                        g.xs@ == xs@,
                        g.ys@ == ys@,
                        g.points@ == pts,
                        pts.len() == nx * ny,
                        ct == sort_collectors(collectors@),
                        links_wanted(g, obstacles@, xs@, ys@, bounds, ct),
                        forall|a: int, b: int|
                            0 <= a < nx && 0 <= b < ny ==> pts[#[trigger] cell(a, b, ny as int)] == (PointI {
                                x: xs@[a],
                                y: ys@[b],
                            }),
                        yi <= ny,
                        prev matches Some(p) ==> p < yi,
                        lines_ok(ys@),
                        by_top@ == sort_collectors(collectors@),
                        x == xs@[xi as int],
                        s < spans@.len(),
                        spans@[s as int] == (f0, f1),
                        yi > 0 && f0 <= ys@[yi - 1] <= f1 ==> prev == Some((yi - 1) as usize),
                        bounds == (min_x, max_x, min_y, max_y),
                        min_x <= x <= max_x,
                        int_pairs(spans@) == spans_from(merged_intervals(column_intervals(obstacles@, x)), 0, min_y as int, max_y as int),
                        prev matches Some(p) ==> f0 <= ys@[p as int] <= f1 && forall|q: int| p < q < yi ==> !(f0 <= #[trigger] ys@[q] <= f1),
                        rows_linked(g, obstacles@, xs@, ys@, bounds),
                        forall|a: int, b: int|
                            0 <= a < xi && 0 <= b && b + 1 < ny && #[trigger] column_link_wanted(obstacles@, xs@, ys@, bounds, a, b)
                                ==> column_linked(g, xs@, ys@, by_top@, a, b),
                        forall|b: int, k: int|
                            0 <= b && b + 1 < ny && 0 <= k < s && #[trigger] column_pair_in(spans@[k], obstacles@, xs@, ys@, xi as int, b)
                                ==> column_linked(g, xs@, ys@, by_top@, xi as int, b),
                        forall|b: int|
                            0 <= b && b + 1 < yi && #[trigger] column_pair_in(spans@[s as int], obstacles@, xs@, ys@, xi as int, b)
                                ==> column_linked(g, xs@, ys@, by_top@, xi as int, b),
                    decreases ny - yi,
                {
                    let yv = ys[yi];
                    if yv >= f0 && yv <= f1 {
                        if let Some(p) = prev {
                            proof {
                                lemma_cell_bound(xi as int, p as int, nx as int, ny as int);
                                lemma_cell_bound(xi as int, yi as int, nx as int, ny as int);
                                assert(pts[cell(xi as int, p as int, ny as int)].x == xs@[xi as int]);
                                assert(pts[cell(xi as int, yi as int, ny as int)].x == xs@[xi as int]);
                            }
                            let ai = xi * ny + p;
                            let bi = xi * ny + yi;
                            let target = collector_target_for_segment(x, ys[p], yv, &by_top);
                            let ghost g0 = g;
                            proof {
                                if p + 1 < yi {
                                    assert(ys@[p as int] < ys@[p + 1] && ys@[p + 1] < ys@[yi as int]);
                                    assert(f0 <= ys@[p + 1] <= f1);
                                }
                                assert(p + 1 == yi);
                            }
                            add_undirected_edge(&mut g, obstacles, ai, bi, target);
                            proof {
                                let pa = pts[ai as int];
                                let pb = pts[bi as int];
                                assert(pa == (PointI { x: xs@[xi as int], y: ys@[p as int] }));
                                assert(pb == (PointI { x: xs@[xi as int], y: ys@[yi as int] }));
                                let na = link_between(pa, pb, ai as int, bi as int, bi, target);
                                let nb = link_between(pa, pb, ai as int, bi as int, ai, target);
                                if pa != pb && free(obstacles@, pa) && free(obstacles@, pb) {
                                    let sp = spans_from(merged_intervals(column_intervals(obstacles@, x)), 0, min_y as int, max_y as int);
                                    assert(sp[s as int] == (f0 as int, f1 as int));
                                    assert(column_link_wanted(obstacles@, xs@, ys@, bounds, xi as int, p as int));
                                    assert(column_link_at(obstacles@, xs@, ys@, bounds, ct, xi as int, p as int, ai as int, na));
                                    assert(column_link_at(obstacles@, xs@, ys@, bounds, ct, xi as int, p as int, bi as int, nb));
                                }
                                lemma_links_wanted_add(g0, g, ai as int, bi as int, na, nb, obstacles@, xs@, ys@, bounds, ct);
                                lemma_cell_links_kept(g0, g, nx as int, ny as int);
                                if p + 1 == yi && column_pair_in(spans@[s as int], obstacles@, xs@, ys@, xi as int, p as int) {
                                    assert(pts[cell(xi as int, p as int, ny as int)] == (PointI { x: xs@[xi as int], y: ys@[p as int] }));
                                    assert(pts[cell(xi as int, yi as int, ny as int)] == (PointI { x: xs@[xi as int], y: ys@[yi as int] }));
                                    assert(ys@[p as int] < ys@[yi as int]);
                                    let la = g.adj@[ai as int]@;
                                    assert(la[la.len() - 1].to == bi && la[la.len() - 1].collector_target == target);
                                    assert(has_link(g, ai as int, bi as int, target));
                                    let lb = g.adj@[bi as int]@;
                                    assert(lb[lb.len() - 1].to == ai && lb[lb.len() - 1].collector_target == target);
                                    assert(has_link(g, bi as int, ai as int, target));
                                    assert(column_linked(g, xs@, ys@, by_top@, xi as int, p as int));
                                }
                            }
                        }
                        prev = Some(yi);
                    }
                    yi = yi + 1;
                }
                proof {
                    assert forall|b: int, k: int|
                        0 <= b && b + 1 < ny && 0 <= k < s + 1 && #[trigger] column_pair_in(spans@[k], obstacles@, xs@, ys@, xi as int, b)
                            implies column_linked(g, xs@, ys@, by_top@, xi as int, b) by {
                        if k == s {
                            assert(column_pair_in(spans@[s as int], obstacles@, xs@, ys@, xi as int, b));
                        }
                    }
                }
                s = s + 1;
            }
            proof {
                assert forall|a: int, b: int|
                    0 <= a < xi + 1 && 0 <= b && b + 1 < ny && #[trigger] column_link_wanted(obstacles@, xs@, ys@, bounds, a, b)
                        implies column_linked(g, xs@, ys@, by_top@, a, b) by {
                    if a == xi {
                        let sp = spans_from(merged_intervals(column_intervals(obstacles@, x)), 0, min_y as int, max_y as int);
                        let k = choose|k: int| 0 <= k < sp.len() && sp[k].0 <= ys@[b] as int && ys@[b + 1] as int <= sp[k].1;
                        assert(int_pairs(spans@)[k] == sp[k]);
                        assert(column_pair_in(spans@[k], obstacles@, xs@, ys@, xi as int, b));
                    }
                }
            }
        } else {
            proof {
                assert forall|a: int, b: int|
                    0 <= a < xi + 1 && 0 <= b && b + 1 < ny && #[trigger] column_link_wanted(obstacles@, xs@, ys@, bounds, a, b)
                        implies column_linked(g, xs@, ys@, by_top@, a, b) by {
                    if a == xi {
                        assert(!column_link_wanted(obstacles@, xs@, ys@, bounds, a, b));
                    }
                }
            }
        }
        xi = xi + 1;
    }
    g
}

} // verus!
