//! Least-cost search over the visibility graph: a binary min-heap of search states and the
//! bend- and congestion-aware shortest path between a routing tree and a target entry.
use vstd::prelude::*;

use crate::render::route_graph::{aligned, graph_shape, line_limit, linked, point_in_lines, AdjEdge, Graph};
use crate::render::router_geom::in_range;

verus! {

/// A search state waiting in the frontier.
#[derive(Debug, Clone, Copy, PartialEq, Eq, Structural)]
pub struct HeapItem {
    pub cost: i64,
    pub goal_dist: i32,
    pub pos_y: i32,
    pub pos_x: i32,
    /// 0: no direction yet, 1: horizontal, 2: vertical.
    pub dir: usize,
    pub node: usize,
}

/// Frontier order: by cost, then distance to the goal, then y, x, direction and vertex.
pub open spec fn item_le(a: HeapItem, b: HeapItem) -> bool {
    if a.cost != b.cost {
        a.cost < b.cost
    } else if a.goal_dist != b.goal_dist {
        a.goal_dist < b.goal_dist
    } else if a.pos_y != b.pos_y {
        a.pos_y < b.pos_y
    } else if a.pos_x != b.pos_x {
        a.pos_x < b.pos_x
    } else if a.dir != b.dir {
        a.dir < b.dir
    } else {
        a.node <= b.node
    }
}

/// Whether `a` comes strictly before `b` in frontier order.
fn item_lt(a: &HeapItem, b: &HeapItem) -> (r: bool)
    ensures
        r == (item_le(*a, *b) && *a != *b),
{
    if a.cost != b.cost {
        a.cost < b.cost
    } else if a.goal_dist != b.goal_dist {
        a.goal_dist < b.goal_dist
    } else if a.pos_y != b.pos_y {
        a.pos_y < b.pos_y
    } else if a.pos_x != b.pos_x {
        a.pos_x < b.pos_x
    } else if a.dir != b.dir {
        a.dir < b.dir
    } else {
        a.node < b.node
    }
}

/// The parent slot of slot `i` in a binary heap.
pub open spec fn parent(i: int) -> int {
    (i - 1) / 2
}

/// Every slot after the first holds an item no smaller than its parent's.
pub open spec fn heap_ok(s: Seq<HeapItem>) -> bool {
    forall|i: int| 0 < i < s.len() ==> item_le(s[parent(i)], #[trigger] s[i])
}

/// A binary min-heap of frontier items.
pub struct MinHeap {
    pub items: Vec<HeapItem>,
}

/// Swapping two slots keeps every item of the sequence.
proof fn lemma_swap_keeps(before: Seq<HeapItem>, after: Seq<HeapItem>, i: int, j: int)
    requires
        0 <= i < before.len(),
        0 <= j < before.len(),
        after.len() == before.len(),
        after[i] == before[j],
        after[j] == before[i],
        forall|k: int| 0 <= k < before.len() && k != i && k != j ==> after[k] == before[k],
    ensures
        forall|x: HeapItem| before.contains(x) ==> #[trigger] after.contains(x),
{
    assert forall|x: HeapItem| before.contains(x) implies #[trigger] after.contains(x) by {
        let k = choose|k: int| 0 <= k < before.len() && before[k] == x;
        if k == i {
            assert(after[j] == x);
        } else if k == j {
            assert(after[i] == x);
        } else {
            assert(after[k] == x);
        }
    }
}

proof fn lemma_root_min(s: Seq<HeapItem>, i: int)
    requires
        heap_ok(s),
        0 <= i < s.len(),
    ensures
        item_le(s[0], s[i]),
    decreases i,
{
    if i > 0 {
        lemma_root_min(s, parent(i));
        assert(item_le(s[parent(i)], s[i]));
    }
}

impl MinHeap {
    pub fn new() -> (h: MinHeap)
        ensures
            h.items@.len() == 0,
    {
        MinHeap { items: Vec::new() }
    }

    /// Adds an item.
    pub fn push(&mut self, item: HeapItem)
        requires
            heap_ok(old(self).items@),
        ensures
            heap_ok(final(self).items@),
            final(self).items@.len() == old(self).items@.len() + 1,
            forall|k: int|
                0 <= k < final(self).items@.len() ==> #[trigger] final(self).items@[k] == item || old(
                    self,
                ).items@.contains(final(self).items@[k]),
            final(self).items@.contains(item),
            forall|x: HeapItem| old(self).items@.contains(x) ==> #[trigger] final(self).items@.contains(x),
    {
        let ghost start = self.items@;
        self.items.push(item);
        proof {
            assert(self.items@[self.items@.len() - 1] == item);
            assert forall|x: HeapItem| start.contains(x) implies #[trigger] self.items@.contains(x) by {
                let k = choose|k: int| 0 <= k < start.len() && start[k] == x;
                assert(self.items@[k] == x);
            }
        }
        let mut i: usize = self.items.len() - 1;
        loop
            invariant
                i < self.items@.len(),
                self.items@.len() == start.len() + 1,
                forall|j: int| 0 < j < self.items@.len() && j != i ==> item_le(self.items@[parent(j)], #[trigger] self.items@[j]),
                forall|j: int|
                    0 < j < self.items@.len() && parent(j) == i && i > 0 ==> item_le(
                        self.items@[parent(i as int)],
                        #[trigger] self.items@[j],
                    ),
                forall|k: int|
                    0 <= k < self.items@.len() ==> #[trigger] self.items@[k] == item || start.contains(self.items@[k]),
                self.items@.contains(item),
                forall|x: HeapItem| start.contains(x) ==> #[trigger] self.items@.contains(x),
            ensures
                heap_ok(self.items@),
                self.items@.len() == start.len() + 1,
                forall|k: int|
                    0 <= k < self.items@.len() ==> #[trigger] self.items@[k] == item || start.contains(self.items@[k]),
                self.items@.contains(item),
                forall|x: HeapItem| start.contains(x) ==> #[trigger] self.items@.contains(x),
            decreases i,
        {
            if i == 0 {
                break;
            }
            let p = (i - 1) / 2;
            if !item_lt(&self.items[i], &self.items[p]) {
                break;
            }
            let ghost before = self.items@;
            let a = self.items[i];
            let b = self.items[p];
            self.items.set(i, b);
            self.items.set(p, a);
            proof {
                let s = self.items@;
                assert(p == parent(i as int));
                assert forall|j: int| 0 < j < s.len() && j != p implies item_le(s[parent(j)], #[trigger] s[j]) by {
                    if j == i {
                    } else if parent(j) == i {
                        assert(item_le(before[parent(i as int)], before[j]));
                    } else if parent(j) == p {
                        assert(item_le(before[p as int], before[j]));
                    } else {
                        assert(item_le(before[parent(j)], before[j]));
                    }
                }
                assert forall|j: int| 0 < j < s.len() && parent(j) == p && p > 0 implies item_le(
                    s[parent(p as int)],
                    #[trigger] s[j],
                ) by {
                    assert(item_le(before[parent(p as int)], before[p as int]));
                    if j != i {
                        assert(item_le(before[p as int], before[j]));
                    }
                }
                assert forall|k: int| 0 <= k < s.len() implies #[trigger] s[k] == item || start.contains(s[k]) by {
                    if k == i {
                        assert(before[p as int] == item || start.contains(before[p as int]));
                    } else if k == p {
                        assert(before[i as int] == item || start.contains(before[i as int]));
                    } else {
                        assert(before[k] == s[k]);
                    }
                }
                lemma_swap_keeps(before, s, i as int, p as int);
            }
            i = p;
        }
    }

    /// Removes and returns a least item, if any.
    pub fn pop(&mut self) -> (r: Option<HeapItem>)
        requires
            heap_ok(old(self).items@),
        ensures
            heap_ok(final(self).items@),
            match r {
                None => old(self).items@.len() == 0 && final(self).items@.len() == 0,
                Some(top) => {
                    &&& final(self).items@.len() + 1 == old(self).items@.len()
                    &&& old(self).items@.contains(top)
                    &&& forall|k: int| 0 <= k < old(self).items@.len() ==> item_le(top, #[trigger] old(self).items@[k])
                },
            },
            forall|k: int| 0 <= k < final(self).items@.len() ==> old(self).items@.contains(#[trigger] final(self).items@[k]),
            r matches Some(top) ==> forall|x: HeapItem|
                old(self).items@.contains(x) && x != top ==> #[trigger] final(self).items@.contains(x),
    {
        let ghost start = self.items@;
        let n = self.items.len();
        if n == 0 {
            return None;
        }
        let top = self.items[0];
        proof {
            assert forall|k: int| 0 <= k < start.len() implies item_le(top, #[trigger] start[k]) by {
                lemma_root_min(start, k);
            }
            assert(start[0] == top);
        }
        let last = self.items.pop().unwrap();
        if n == 1 {
            return Some(top);
        }
        self.items.set(0, last);
        proof {
            assert(last == start[n - 1]);
            assert forall|k: int| 0 <= k < self.items@.len() implies start.contains(#[trigger] self.items@[k]) by {
                if k == 0 {
                    assert(start[n - 1] == self.items@[k]);
                } else {
                    assert(start[k] == self.items@[k]);
                }
            }
            assert forall|x: HeapItem| start.contains(x) && x != top implies #[trigger] self.items@.contains(x) by {
                let k = choose|k: int| 0 <= k < start.len() && start[k] == x;
                if k == n - 1 {
                    assert(self.items@[0] == x);
                } else {
                    assert(self.items@[k] == x);
                }
            }
            assert forall|j: int| 0 < j < self.items@.len() && parent(j) != 0 implies item_le(
                self.items@[parent(j)],
                #[trigger] self.items@[j],
            ) by {
                assert(item_le(start[parent(j)], start[j]));
            }
        }
        let len = self.items.len();
        let mut i: usize = 0;
        loop
            invariant
                len == self.items@.len(),
                len + 1 == start.len(),
                i < len,
                forall|j: int| 0 < j < len && parent(j) != i ==> item_le(self.items@[parent(j)], #[trigger] self.items@[j]),
                forall|j: int|
                    0 < j < len && parent(j) == i && i > 0 ==> item_le(self.items@[parent(i as int)], #[trigger] self.items@[j]),
                forall|k: int| 0 <= k < len ==> start.contains(#[trigger] self.items@[k]),
                forall|x: HeapItem| start.contains(x) && x != top ==> #[trigger] self.items@.contains(x),
            ensures
                len == self.items@.len(),
                heap_ok(self.items@),
                forall|k: int| 0 <= k < len ==> start.contains(#[trigger] self.items@[k]),
                forall|x: HeapItem| start.contains(x) && x != top ==> #[trigger] self.items@.contains(x),
            decreases len - i,
        {
            if i >= len / 2 {
                proof {
                    assert forall|j: int| 0 < j < len implies item_le(self.items@[parent(j)], #[trigger] self.items@[j]) by {
                        if parent(j) == i {
                            assert(j >= 2 * i + 1);
                        }
                    }
                }
                break;
            }
            let c1 = 2 * i + 1;
            let c2 = 2 * i + 2;
            let c = if c2 < len && item_lt(&self.items[c2], &self.items[c1]) {
                c2
            } else {
                c1
            };
            if !item_lt(&self.items[c], &self.items[i]) {
                proof {
                    assert forall|j: int| 0 < j < len implies item_le(self.items@[parent(j)], #[trigger] self.items@[j]) by {
                        if parent(j) == i {
                            assert(j == c1 || j == c2);
                        }
                    }
                }
                break;
            }
            let ghost before = self.items@;
            let a = self.items[i];
            let b = self.items[c];
            self.items.set(i, b);
            self.items.set(c, a);
            proof {
                let s = self.items@;
                assert(parent(c as int) == i);
                assert forall|j: int| 0 < j < len && parent(j) != c implies item_le(s[parent(j)], #[trigger] s[j]) by {
                    if j == c {
                    } else if parent(j) == i {
                        assert(j == c1 || j == c2);
                    } else if j == i {
                        assert(item_le(before[parent(i as int)], before[c as int]));
                    } else {
                        assert(item_le(before[parent(j)], before[j]));
                    }
                }
                assert forall|j: int| 0 < j < len && parent(j) == c && c > 0 implies item_le(s[parent(c as int)], #[trigger] s[j]) by {
                    assert(item_le(before[c as int], before[j]));
                }
                assert forall|k: int| 0 <= k < len implies start.contains(#[trigger] s[k]) by {
                    if k == i {
                        assert(start.contains(before[c as int]));
                    } else if k == c {
                        assert(start.contains(before[i as int]));
                    } else {
                        assert(before[k] == s[k]);
                    }
                }
                lemma_swap_keeps(before, s, i as int, c as int);
            }
            i = c;
        }
        Some(top)
    }
}

/// How a link is already used by earlier routes.
#[derive(Debug, Clone, Copy, PartialEq, Eq, Structural)]
pub enum Reservation {
    /// Used by routes of source `primary` (`count` times by others since).
    Source { primary: usize, count: u32 },
    /// Part of the collector of target `target`, used `count` times.
    TargetCollector { target: usize, count: u32 },
}

/// Lengths count double except on collectors, so that collectors cost half.
pub const LENGTH_SCALE: i64 = 2;

/// The cost of a change of direction.
pub const BEND_PENALTY: i64 = 64;

/// The cost of each earlier use of a link by another source (up to six).
pub const CONGESTION_PENALTY: i64 = 128;

/// The cost of each earlier use of a link by the same source (up to eight).
pub const SAME_SOURCE_OVERLAP_PENALTY: i64 = 12;

/// The smaller of two counts.
pub open spec fn cap(v: u32, limit: int) -> int {
    if v < limit { v as int } else { limit }
}

/// The cost of taking link `e`: its scaled length, a bend penalty, and penalties for links that
/// other routes already use (none on collectors).
pub open spec fn step_cost_of(e: AdjEdge, bend: bool, congestion: u32, same_source_overlap: u32) -> int {
    let collector = e.collector_target is Some;
    (if collector { e.len as int } else { e.len * LENGTH_SCALE })
        + (if bend { BEND_PENALTY as int } else { 0 })
        + (if collector || congestion == 0 { 0 } else { CONGESTION_PENALTY * cap(congestion, 6) })
        + (if collector || same_source_overlap == 0 { 0 } else { SAME_SOURCE_OVERLAP_PENALTY * cap(same_source_overlap, 8) })
}

/// The cost of taking a link; see [`step_cost_of`].
pub fn step_cost(edge: &AdjEdge, bend: bool, congestion: u32, same_source_overlap: u32) -> (c: i64)
    requires
        0 < edge.len <= 2 * line_limit(),
    ensures
        c == step_cost_of(*edge, bend, congestion, same_source_overlap),
        1 <= c <= 0x1000_0000,
{
    let length = edge.len as i64;
    let collector = edge.collector_target.is_some();
    let length_cost = if collector { length } else { length * LENGTH_SCALE };
    let bend_cost = if bend { BEND_PENALTY } else { 0 };
    let congestion_cost = if collector || congestion == 0 {
        0
    } else {
        let capped: i64 = if congestion < 6 { congestion as i64 } else { 6 };
        CONGESTION_PENALTY * capped
    };
    let same_source_cost = if collector || same_source_overlap == 0 {
        0
    } else {
        let capped: i64 = if same_source_overlap < 8 { same_source_overlap as i64 } else { 8 };
        SAME_SOURCE_OVERLAP_PENALTY * capped
    };
    length_cost + bend_cost + congestion_cost + same_source_cost
}

/// The index of search state `(v, dir)`.
pub open spec fn st(v: int, dir: int) -> int {
    3 * v + dir
}

proof fn lemma_st_unique(u: int, d: int, v: int, e: int)
    requires
        0 <= d < 3,
        0 <= e < 3,
        st(u, d) == st(v, e),
    ensures
        u == v,
        d == e,
{
}

/// `p` is a walk along links of the graph.
pub open spec fn walk(g: Graph, p: Seq<usize>) -> bool {
    &&& p.len() >= 1
    &&& forall|i: int| 0 <= i < p.len() ==> (#[trigger] p[i]) < g.points@.len()
    &&& forall|i: int| 0 < i < p.len() ==> linked(g, p[i - 1] as int, #[trigger] p[i] as int)
}

/// The frontier item of state `(node, dir)` at `cost`.
fn frontier_item(g: &Graph, goal_point: crate::render::router_geom::PointI, node: usize, dir: usize, cost: i64) -> (it: HeapItem)
    requires
        graph_shape(*g),
        node < g.points@.len(),
        point_in_lines(goal_point),
    ensures
        it.node == node,
        it.dir == dir,
        it.cost == cost,
{
    let p = g.points[node];
    proof {
        assert(point_in_lines(g.points@[node as int]));
    }
    let dx = if p.x >= goal_point.x { p.x - goal_point.x } else { goal_point.x - p.x };
    let dy = if p.y >= goal_point.y { p.y - goal_point.y } else { goal_point.y - p.y };
    HeapItem { cost, goal_dist: dx + dy, pos_y: p.y, pos_x: p.x, dir, node }
}

/// Link `e` is closed to a route of source `this_source` toward `allowed_target`, given its
/// reservation `res`: it lies on another target's collector, is reserved as another target's
/// collector, or has been used `u32::MAX` times by routes of other sources.
pub open spec fn link_closed(e: AdjEdge, res: Option<Reservation>, this_source: usize, allowed_target: usize) -> bool {
    ||| (e.collector_target matches Some(t) && t != allowed_target)
    ||| (res matches Some(Reservation::Source { primary, count }) && primary != this_source && count == u32::MAX)
    ||| (res matches Some(Reservation::TargetCollector { target, .. }) && target != allowed_target)
}

/// Some link from `u` to `v` is open.
pub open spec fn open_step(
    g: Graph,
    res: Seq<Option<Reservation>>,
    u: int,
    v: int,
    this_source: usize,
    allowed_target: usize,
) -> bool {
    exists|j: int|
        0 <= j < g.adj@[u]@.len() && (#[trigger] g.adj@[u]@[j]).to == v && !link_closed(
            g.adj@[u]@[j],
            res[g.adj@[u]@[j].key as int],
            this_source,
            allowed_target,
        )
}

/// `p` is a walk along open links.
pub open spec fn open_walk(
    g: Graph,
    res: Seq<Option<Reservation>>,
    p: Seq<usize>,
    this_source: usize,
    allowed_target: usize,
) -> bool {
    &&& p.len() >= 1
    &&& forall|i: int| 0 <= i < p.len() ==> (#[trigger] p[i]) < g.points@.len()
    &&& forall|i: int| 0 < i < p.len() ==> open_step(g, res, p[i - 1] as int, #[trigger] p[i] as int, this_source, allowed_target)
}

/// The direction in which a link is entered: 1 horizontal, 2 vertical.
pub open spec fn step_dir(e: AdjEdge) -> int {
    if e.horizontal { 1 } else { 2 }
}

/// Some state of vertex `u` has a finite distance.
pub open spec fn reached(dist: Seq<i64>, u: int) -> bool {
    ||| dist[st(u, 0)] < i64::MAX
    ||| dist[st(u, 1)] < i64::MAX
    ||| dist[st(u, 2)] < i64::MAX
}

/// Every open link among the first `upto` links of `u` leads to a state with a finite distance.
#[verifier::opaque]
pub open spec fn expanded(
    g: Graph,
    res: Seq<Option<Reservation>>,
    dist: Seq<i64>,
    u: int,
    upto: int,
    this_source: usize,
    allowed_target: usize,
) -> bool {
    forall|j: int|
        0 <= j < upto && !link_closed(#[trigger] g.adj@[u]@[j], res[g.adj@[u]@[j].key as int], this_source, allowed_target)
            ==> dist[st(g.adj@[u]@[j].to as int, step_dir(g.adj@[u]@[j]))] < i64::MAX
}

/// Every state with a finite distance that is not settled waits in the frontier at that
/// distance.
#[verifier::opaque]
pub open spec fn frontier_covers(items: Seq<HeapItem>, dist: Seq<i64>, done: Seq<bool>, n: int) -> bool {
    forall|u: int, d: int|
        0 <= u < n && 0 <= d < 3 && #[trigger] dist[st(u, d)] < i64::MAX && !done[st(u, d)] ==> exists|x: HeapItem|
            #[trigger] items.contains(x) && x.node == u && x.dir == d && x.cost == dist[st(u, d)]
}

/// Lowering distances keeps links expanded.
proof fn lemma_expanded_mono(
    g: Graph,
    res: Seq<Option<Reservation>>,
    before: Seq<i64>,
    after: Seq<i64>,
    u: int,
    upto: int,
    this_source: usize,
    allowed_target: usize,
)
    requires
        graph_shape(g),
        0 <= u < g.points@.len(),
        upto <= g.adj@[u]@.len(),
        before.len() == 3 * g.points@.len(),
        after.len() == before.len(),
        forall|t: int| 0 <= t < before.len() && #[trigger] before[t] < i64::MAX ==> after[t] < i64::MAX,
        expanded(g, res, before, u, upto, this_source, allowed_target),
    ensures
        expanded(g, res, after, u, upto, this_source, allowed_target),
{
    reveal(expanded);
    assert forall|j: int|
        0 <= j < upto && !link_closed(#[trigger] g.adj@[u]@[j], res[g.adj@[u]@[j].key as int], this_source, allowed_target)
            implies after[st(g.adj@[u]@[j].to as int, step_dir(g.adj@[u]@[j]))] < i64::MAX by {
        assert(crate::render::route_graph::edge_ok(g, u, g.adj@[u]@[j]));
        let t = st(g.adj@[u]@[j].to as int, step_dir(g.adj@[u]@[j]));
        assert(before[t] < i64::MAX);
    }
}

/// One more link of `u` expanded, distances only lowered.
proof fn lemma_expanded_extend(
    g: Graph,
    res: Seq<Option<Reservation>>,
    before: Seq<i64>,
    after: Seq<i64>,
    u: int,
    j: int,
    this_source: usize,
    allowed_target: usize,
)
    requires
        graph_shape(g),
        0 <= u < g.points@.len(),
        0 <= j < g.adj@[u]@.len(),
        before.len() == 3 * g.points@.len(),
        after.len() == before.len(),
        forall|t: int| 0 <= t < before.len() && #[trigger] before[t] < i64::MAX ==> after[t] < i64::MAX,
        expanded(g, res, before, u, j, this_source, allowed_target),
        link_closed(g.adj@[u]@[j], res[g.adj@[u]@[j].key as int], this_source, allowed_target)
            || after[st(g.adj@[u]@[j].to as int, step_dir(g.adj@[u]@[j]))] < i64::MAX,
    ensures
        expanded(g, res, after, u, j + 1, this_source, allowed_target),
{
    lemma_expanded_mono(g, res, before, after, u, j, this_source, allowed_target);
    reveal(expanded);
}

/// A state whose distance was lowered to `it.cost`, with `it` added to the frontier, is
/// covered, and so are the others.
proof fn lemma_cover_push(
    h0: Seq<HeapItem>,
    h1: Seq<HeapItem>,
    d0: Seq<i64>,
    d1: Seq<i64>,
    done: Seq<bool>,
    n: int,
    it: HeapItem,
)
    requires
        frontier_covers(h0, d0, done, n),
        h1.contains(it),
        forall|x: HeapItem| h0.contains(x) ==> #[trigger] h1.contains(x),
        0 <= it.node < n,
        it.dir < 3,
        d0.len() == 3 * n,
        d1 == d0.update(st(it.node as int, it.dir as int), it.cost),
    ensures
        frontier_covers(h1, d1, done, n),
{
    reveal(frontier_covers);
    assert forall|u: int, d: int|
        0 <= u < n && 0 <= d < 3 && #[trigger] d1[st(u, d)] < i64::MAX && !done[st(u, d)] implies exists|x: HeapItem|
            #[trigger] h1.contains(x) && x.node == u && x.dir == d && x.cost == d1[st(u, d)] by {
        if st(u, d) == st(it.node as int, it.dir as int) {
            lemma_st_unique(u, d, it.node as int, it.dir as int);
            assert(h1.contains(it));
        } else {
            assert(d0[st(u, d)] == d1[st(u, d)]);
            let x = choose|x: HeapItem| h0.contains(x) && x.node == u && x.dir == d && x.cost == d0[st(u, d)];
            assert(h1.contains(x));
        }
    }
}

/// After the least item `top` leaves the frontier, every state stays covered once `top`'s
/// state is settled, or when `top` was stale.
proof fn lemma_cover_pop(h0: Seq<HeapItem>, h1: Seq<HeapItem>, dist: Seq<i64>, done: Seq<bool>, n: int, top: HeapItem)
    requires
        frontier_covers(h0, dist, done, n),
        forall|x: HeapItem| h0.contains(x) && x != top ==> #[trigger] h1.contains(x),
        0 <= top.node < n,
        top.dir < 3,
        dist.len() == 3 * n,
        done.len() == 3 * n,
    ensures
        frontier_covers(h1, dist, done.update(st(top.node as int, top.dir as int), true), n),
        top.cost != dist[st(top.node as int, top.dir as int)] || done[st(top.node as int, top.dir as int)]
            ==> frontier_covers(h1, dist, done, n),
{
    reveal(frontier_covers);
    let s = st(top.node as int, top.dir as int);
    let done1 = done.update(s, true);
    assert forall|u: int, d: int|
        0 <= u < n && 0 <= d < 3 && #[trigger] dist[st(u, d)] < i64::MAX && !done1[st(u, d)] implies exists|x: HeapItem|
            #[trigger] h1.contains(x) && x.node == u && x.dir == d && x.cost == dist[st(u, d)] by {
        if st(u, d) == s {
            lemma_st_unique(u, d, top.node as int, top.dir as int);
        }
        assert(done[st(u, d)] == done1[st(u, d)]);
        let x = choose|x: HeapItem| h0.contains(x) && x.node == u && x.dir == d && x.cost == dist[st(u, d)];
        assert(h1.contains(x));
    }
    if top.cost != dist[s] || done[s] {
        assert forall|u: int, d: int|
            0 <= u < n && 0 <= d < 3 && #[trigger] dist[st(u, d)] < i64::MAX && !done[st(u, d)] implies exists|x: HeapItem|
                #[trigger] h1.contains(x) && x.node == u && x.dir == d && x.cost == dist[st(u, d)] by {
            let x = choose|x: HeapItem| h0.contains(x) && x.node == u && x.dir == d && x.cost == dist[st(u, d)];
            if x == top {
                lemma_st_unique(u, d, top.node as int, top.dir as int);
            }
            assert(h1.contains(x));
        }
    }
}

/// An empty frontier that covers every state leaves none reached and unsettled.
proof fn lemma_cover_empty(h: Seq<HeapItem>, dist: Seq<i64>, done: Seq<bool>, n: int)
    requires
        frontier_covers(h, dist, done, n),
        h.len() == 0,
    ensures
        forall|u: int, d: int| 0 <= u < n && 0 <= d < 3 && #[trigger] dist[st(u, d)] < i64::MAX ==> done[st(u, d)],
{
    reveal(frontier_covers);
    assert forall|u: int, d: int| 0 <= u < n && 0 <= d < 3 && #[trigger] dist[st(u, d)] < i64::MAX implies done[st(u, d)] by {
        if !done[st(u, d)] {
            let x = choose|x: HeapItem| h.contains(x) && x.node == u && x.dir == d && x.cost == dist[st(u, d)];
            assert(h.contains(x));
        }
    }
}

/// Along an open walk from a start, every vertex is reached when the reached states are all
/// settled and every settled state has been expanded.
proof fn lemma_reached_along(
    g: Graph,
    res: Seq<Option<Reservation>>,
    starts: Seq<bool>,
    dist: Seq<i64>,
    done: Seq<bool>,
    this_source: usize,
    allowed_target: usize,
    p: Seq<usize>,
    k: int,
)
    requires
        graph_shape(g),
        dist.len() == 3 * g.points@.len(),
        done.len() == dist.len(),
        forall|u: int| 0 <= u < g.points@.len() && #[trigger] starts[u] ==> dist[st(u, 0)] < i64::MAX,
        forall|u: int, d: int|
            0 <= u < g.points@.len() && 0 <= d < 3 && #[trigger] dist[st(u, d)] < i64::MAX ==> done[st(u, d)],
        forall|u: int, d: int|
            0 <= u < g.points@.len() && 0 <= d < 3 && #[trigger] done[st(u, d)] ==> expanded(
                g,
                res,
                dist,
                u,
                g.adj@[u]@.len() as int,
                this_source,
                allowed_target,
            ),
        open_walk(g, res, p, this_source, allowed_target),
        starts[p[0] as int],
        0 <= k < p.len(),
    ensures
        reached(dist, p[k] as int),
    decreases k,
{
    if k == 0 {
        assert(p[0] < g.points@.len());
    } else {
        lemma_reached_along(g, res, starts, dist, done, this_source, allowed_target, p, k - 1);
        let u = p[k - 1] as int;
        assert(u < g.points@.len());
        let d: int = if dist[st(u, 0)] < i64::MAX { 0 } else if dist[st(u, 1)] < i64::MAX { 1 } else { 2 };
        assert(dist[st(u, d)] < i64::MAX);
        assert(done[st(u, d)]);
        assert(open_step(g, res, u, p[k] as int, this_source, allowed_target));
        reveal(expanded);
        let j = choose|j: int|
            0 <= j < g.adj@[u]@.len() && (#[trigger] g.adj@[u]@[j]).to == p[k] && !link_closed(
                g.adj@[u]@[j],
                res[g.adj@[u]@[j].key as int],
                this_source,
                allowed_target,
            );
        assert(expanded(g, res, dist, u, g.adj@[u]@.len() as int, this_source, allowed_target));
        assert(dist[st(g.adj@[u]@[j].to as int, step_dir(g.adj@[u]@[j]))] < i64::MAX);
    }
}

/// The least-cost walk from any vertex flagged in `starts` to `goal`, where each step costs
/// [`step_cost_of`] given the reservations of earlier routes: links on another target's
/// collector are closed, and so are links reserved as another target's collector or used
/// `u32::MAX` times. Returns `None` when no walk exists.
#[verifier::rlimit(100)]
pub fn dijkstra_path(
    g: &Graph,
    starts: &Vec<bool>,
    goal: usize,
    reservations: &Vec<Option<Reservation>>,
    this_source: usize,
    allowed_target: usize,
) -> (r: Option<Vec<usize>>)
    requires
        graph_shape(*g),
        g.points@.len() <= 0x1000_0000,
        starts@.len() == g.points@.len(),
        reservations@.len() == 2 * g.points@.len(),
    ensures
        r matches Some(p) ==> walk(*g, p@) && open_walk(*g, reservations@, p@, this_source, allowed_target) && starts@[p@[0] as int]
            && p@.last() == goal,
        r is None ==> forall|p: Seq<usize>|
            open_walk(*g, reservations@, p, this_source, allowed_target) && starts@[p[0] as int] ==> p.last() != goal,
{
    let n = g.points.len();
    if goal >= n {
        return None;
    }
    let goal_point = g.points[goal];
    proof {
        assert(point_in_lines(g.points@[goal as int]));
    }
    let total = 3 * n;
    let mut dist: Vec<i64> = Vec::new();
    let mut prev: Vec<Option<(usize, usize)>> = Vec::new();
    let mut done: Vec<bool> = Vec::new();
    let mut k: usize = 0;
    while k < total
        invariant
            k <= total,
            dist@.len() == k,
            prev@.len() == k,
            done@.len() == k,
            forall|s: int| 0 <= s < k ==> #[trigger] dist@[s] == i64::MAX,
            forall|s: int| 0 <= s < k ==> #[trigger] prev@[s] is None,
            forall|s: int| 0 <= s < k ==> !#[trigger] done@[s],
        decreases total - k,
    {
        dist.push(i64::MAX);
        prev.push(None);
        done.push(false);
        k = k + 1;
    }
    let mut heap = MinHeap::new();
    assert(frontier_covers(heap.items@, dist@, done@, n as int)) by {
        reveal(frontier_covers);
    }
    let mut v: usize = 0;
    while v < n
        invariant
            graph_shape(*g),
            n == g.points@.len(),
            n <= 0x1000_0000,
            total == 3 * n,
            starts@.len() == n,
            point_in_lines(goal_point),
            v <= n,
            dist@.len() == total,
            prev@.len() == total,
            done@.len() == total,
            forall|s: int| 0 <= s < total ==> (#[trigger] dist@[s] == 0 || dist@[s] == i64::MAX),
            forall|s: int| 0 <= s < total ==> #[trigger] prev@[s] is None,
            forall|s: int| 0 <= s < total ==> !#[trigger] done@[s],
            forall|u: int, d: int| 0 <= u < n && 0 <= d < 3 && #[trigger] dist@[st(u, d)] == 0 ==> d == 0 && starts@[u],
            forall|u: int| 0 <= u < v && #[trigger] starts@[u] ==> dist@[st(u, 0)] < i64::MAX,
            frontier_covers(heap.items@, dist@, done@, n as int),
            heap_ok(heap.items@),
            forall|i: int|
                0 <= i < heap.items@.len() ==> (#[trigger] heap.items@[i]).node < n && heap.items@[i].dir < 3
                    && heap.items@[i].cost == 0,
        decreases n - v,
    {
        if starts[v] {
            proof {
                assert forall|u: int, d: int| 0 <= u < n && 0 <= d < 3 && st(u, d) == 3 * v implies u == v && d == 0 by {
                    lemma_st_unique(u, d, v as int, 0);
                }
            }
            let ghost d0 = dist@;
            let ghost h0 = heap.items@;
            dist.set(3 * v, 0);
            let it = frontier_item(g, goal_point, v, 0, 0);
            heap.push(it);
            proof {
                lemma_cover_push(h0, heap.items@, d0, dist@, done@, n as int, it);
            }
        }
        v = v + 1;
    }
    let ghost mut doneset: Set<int> = Set::empty();
    let ghost mut settled: int = 0;
    loop
        invariant
            graph_shape(*g),
            n == g.points@.len(),
            n <= 0x1000_0000,
            total == 3 * n,
            starts@.len() == n,
            reservations@.len() == 2 * n,
            goal < n,
            point_in_lines(goal_point),
            dist@.len() == total,
            prev@.len() == total,
            done@.len() == total,
            heap_ok(heap.items@),
            forall|i: int|
                0 <= i < heap.items@.len() ==> (#[trigger] heap.items@[i]).node < n && heap.items@[i].dir < 3
                    && 0 <= heap.items@[i].cost < i64::MAX,
            forall|s: int| 0 <= s < total ==> 0 <= #[trigger] dist@[s],
            forall|s: int| 0 <= s < total && #[trigger] dist@[s] < i64::MAX ==> dist@[s] <= settled * 0x1000_0000,
            forall|u: int, d: int|
                0 <= u < n && 0 <= d < 3 && #[trigger] prev@[st(u, d)] is Some ==> ({
                    let (w, e) = prev@[st(u, d)]->0;
                    &&& w < n
                    &&& e < 3
                    &&& linked(*g, w as int, u)
                    &&& open_step(*g, reservations@, w as int, u, this_source, allowed_target)
                    &&& dist@[st(w as int, e as int)] < dist@[st(u, d)]
                }),
            forall|u: int, d: int|
                0 <= u < n && 0 <= d < 3 && #[trigger] dist@[st(u, d)] < i64::MAX && prev@[st(u, d)] is None ==> starts@[u],
            forall|u: int| 0 <= u < n && #[trigger] starts@[u] ==> dist@[st(u, 0)] < i64::MAX,
            frontier_covers(heap.items@, dist@, done@, n as int),
            forall|u: int, d: int|
                0 <= u < n && 0 <= d < 3 && #[trigger] done@[st(u, d)] ==> u != goal && expanded(
                    *g,
                    reservations@,
                    dist@,
                    u,
                    g.adj@[u]@.len() as int,
                    this_source,
                    allowed_target,
                ),
            doneset.finite(),
            forall|s: int| #[trigger] doneset.contains(s) ==> 0 <= s < total,
            forall|s: int| 0 <= s < total ==> (#[trigger] done@[s] <==> doneset.contains(s)),
            settled == doneset.len(),
            0 <= settled <= total,
        decreases total - settled, heap.items@.len(),
    {
        let ghost h0 = heap.items@;
        let popped = heap.pop();
        let item = match popped {
            None => {
                proof {
                    lemma_cover_empty(h0, dist@, done@, n as int);
                    assert forall|p: Seq<usize>|
                        open_walk(*g, reservations@, p, this_source, allowed_target) && starts@[p[0] as int] implies p.last()
                            != goal by {
                        lemma_reached_along(*g, reservations@, starts@, dist@, done@, this_source, allowed_target, p, p.len() - 1);
                        let u = p[p.len() - 1] as int;
                        assert(u < n);
                        let d: int = if dist@[st(u, 0)] < i64::MAX { 0 } else if dist@[st(u, 1)] < i64::MAX { 1 } else { 2 };
                        assert(dist@[st(u, d)] < i64::MAX);
                        assert(done@[st(u, d)]);
                    }
                }
                return None;
            },
            Some(it) => it,
        };
        proof {
            lemma_cover_pop(h0, heap.items@, dist@, done@, n as int, item);
        }
        let idx = item.node;
        let dir = item.dir;
        let s = 3 * idx + dir;
        if item.cost != dist[s] || done[s] {
            continue;
        }
        let ghost done0 = done@;
        done.set(s, true);
        proof {
            assert(done@ == done0.update(st(item.node as int, item.dir as int), true));
            assert forall|u: int, d: int|
                0 <= u < n && 0 <= d < 3 && #[trigger] done@[st(u, d)] && !(u == idx && d == dir) implies u != goal && expanded(
                    *g,
                    reservations@,
                    dist@,
                    u,
                    g.adj@[u]@.len() as int,
                    this_source,
                    allowed_target,
                ) by {
                if st(u, d) == s {
                    lemma_st_unique(u, d, idx as int, dir as int);
                }
                assert(done0[st(u, d)]);
            }
        }
        proof {
            assert(!doneset.contains(s as int));
            doneset = doneset.insert(s as int);
            settled = settled + 1;
            vstd::set_lib::lemma_int_range(0, total as int);
            assert(doneset.subset_of(vstd::set_lib::set_int_range(0, total as int)));
            vstd::set_lib::lemma_len_subset(doneset, vstd::set_lib::set_int_range(0, total as int));
            assert forall|t: int| 0 <= t < total && #[trigger] dist@[t] < i64::MAX implies dist@[t] <= settled * 0x1000_0000 by {
            }
        }
        if idx == goal {
            return Some(trace_back(g, &dist, &prev, starts, reservations, this_source, allowed_target, idx, dir));
        }
        let ghost base = item.cost as int;
        let deg = g.adj[idx].len();
        assert(expanded(*g, reservations@, dist@, idx as int, 0, this_source, allowed_target)) by {
            reveal(expanded);
        }
        let mut j: usize = 0;
        while j < deg
            invariant
                graph_shape(*g),
                n == g.points@.len(),
                n <= 0x1000_0000,
                total == 3 * n,
                starts@.len() == n,
                reservations@.len() == 2 * n,
                goal < n,
                point_in_lines(goal_point),
                idx < n,
                dir < 3,
                deg == g.adj@[idx as int]@.len(),
                item.cost == dist@[st(idx as int, dir as int)],
                0 <= item.cost <= (settled - 1) * 0x1000_0000,
                1 <= settled <= total,
                dist@.len() == total,
                prev@.len() == total,
                done@.len() == total,
                heap_ok(heap.items@),
                forall|i: int|
                    0 <= i < heap.items@.len() ==> (#[trigger] heap.items@[i]).node < n && heap.items@[i].dir < 3
                        && 0 <= heap.items@[i].cost < i64::MAX,
                forall|t: int| 0 <= t < total ==> 0 <= #[trigger] dist@[t],
                forall|t: int| 0 <= t < total && #[trigger] dist@[t] < i64::MAX ==> dist@[t] <= settled * 0x1000_0000,
                forall|u: int, d: int|
                    0 <= u < n && 0 <= d < 3 && #[trigger] prev@[st(u, d)] is Some ==> ({
                        let (w, e) = prev@[st(u, d)]->0;
                        &&& w < n
                        &&& e < 3
                        &&& linked(*g, w as int, u)
                        &&& open_step(*g, reservations@, w as int, u, this_source, allowed_target)
                        &&& dist@[st(w as int, e as int)] < dist@[st(u, d)]
                    }),
                forall|u: int, d: int|
                    0 <= u < n && 0 <= d < 3 && #[trigger] dist@[st(u, d)] < i64::MAX && prev@[st(u, d)] is None ==> starts@[u],
                forall|u: int| 0 <= u < n && #[trigger] starts@[u] ==> dist@[st(u, 0)] < i64::MAX,
                frontier_covers(heap.items@, dist@, done@, n as int),
                forall|u: int, d: int|
                    0 <= u < n && 0 <= d < 3 && #[trigger] done@[st(u, d)] && !(u == idx && d == dir) ==> u != goal && expanded(
                        *g,
                        reservations@,
                        dist@,
                        u,
                        g.adj@[u]@.len() as int,
                        this_source,
                        allowed_target,
                    ),
                idx != goal,
                done@[st(idx as int, dir as int)],
                expanded(*g, reservations@, dist@, idx as int, j as int, this_source, allowed_target),
                j <= deg,
            decreases deg - j,
        {
            let edge = g.adj[idx][j];
            let ghost d0 = dist@;
            let ghost h0 = heap.items@;
            proof {
                assert(crate::render::route_graph::edge_ok(*g, idx as int, g.adj@[idx as int]@[j as int]));
                assert(point_in_lines(g.points@[idx as int]));
                assert(point_in_lines(g.points@[edge.to as int]));
            }
            let mut blocked = false;
            if let Some(t) = edge.collector_target {
                if t != allowed_target {
                    blocked = true;
                }
            }
            let mut congestion: u32 = 0;
            let mut same_source_overlap: u32 = 0;
            if !blocked {
                match reservations[edge.key] {
                    None => {},
                    Some(Reservation::Source { primary, count }) => {
                        if primary == this_source {
                            same_source_overlap = count;
                        } else {
                            congestion = count;
                        }
                    },
                    Some(Reservation::TargetCollector { target, count: _ }) => {
                        if target != allowed_target {
                            congestion = u32::MAX;
                        }
                    },
                }
            }
            if !blocked && congestion != u32::MAX {
                let next = edge.to;
                let next_dir: usize = if edge.horizontal { 1 } else { 2 };
                let bend = dir != 0 && dir != next_dir;
                let step = step_cost(&edge, bend, congestion, same_source_overlap);
                let next_cost = item.cost + step;
                let ns = 3 * next + next_dir;
                if next_cost < dist[ns] {
                    proof {
                        assert(linked(*g, idx as int, next as int)) by {
                            assert(g.adj@[idx as int]@[j as int].to == next);
                        }
                        assert(!link_closed(edge, reservations@[edge.key as int], this_source, allowed_target));
                        assert(open_step(*g, reservations@, idx as int, next as int, this_source, allowed_target)) by {
                            assert(g.adj@[idx as int]@[j as int].to == next);
                            assert(g.adj@[idx as int]@[j as int] == edge);
                        }
                    }
                    dist.set(ns, next_cost);
                    prev.set(ns, Some((idx, dir)));
                    let it = frontier_item(g, goal_point, next, next_dir, next_cost);
                    heap.push(it);
                    proof {
                        assert forall|u: int, d: int|
                            0 <= u < n && 0 <= d < 3 && #[trigger] prev@[st(u, d)] is Some implies ({
                                let (w, e) = prev@[st(u, d)]->0;
                                &&& w < n
                                &&& e < 3
                                &&& linked(*g, w as int, u)
                                &&& open_step(*g, reservations@, w as int, u, this_source, allowed_target)
                                &&& dist@[st(w as int, e as int)] < dist@[st(u, d)]
                            }) by {
                            if st(u, d) == ns as int {
                                lemma_st_unique(u, d, next as int, next_dir as int);
                            }
                        }
                        assert forall|u: int, d: int|
                            0 <= u < n && 0 <= d < 3 && #[trigger] dist@[st(u, d)] < i64::MAX && prev@[st(u, d)] is None implies starts@[u] by {
                            if st(u, d) == ns as int {
                                lemma_st_unique(u, d, next as int, next_dir as int);
                            }
                        }
                        lemma_cover_push(h0, heap.items@, d0, dist@, done@, n as int, it);
                    }
                    assert(dist@[ns as int] < i64::MAX);
                } else {
                    assert(dist@[ns as int] < i64::MAX);
                }
                assert(ns == st(edge.to as int, step_dir(edge)));
            } else {
                assert(link_closed(edge, reservations@[edge.key as int], this_source, allowed_target));
            }
            proof {
                assert(edge == g.adj@[idx as int]@[j as int]);
                assert forall|t: int| 0 <= t < total && #[trigger] d0[t] < i64::MAX implies dist@[t] < i64::MAX by {}
                lemma_expanded_extend(*g, reservations@, d0, dist@, idx as int, j as int, this_source, allowed_target);
                assert forall|u: int, d: int|
                    0 <= u < n && 0 <= d < 3 && #[trigger] done@[st(u, d)] && !(u == idx && d == dir) implies u != goal && expanded(
                        *g,
                        reservations@,
                        dist@,
                        u,
                        g.adj@[u]@.len() as int,
                        this_source,
                        allowed_target,
                    ) by {
                    lemma_expanded_mono(*g, reservations@, d0, dist@, u, g.adj@[u]@.len() as int, this_source, allowed_target);
                }
                assert forall|u: int| 0 <= u < n && #[trigger] starts@[u] implies dist@[st(u, 0)] < i64::MAX by {
                    assert(d0[st(u, 0)] < i64::MAX);
                }
            }
            j = j + 1;
        }
    }
}

/// The walk that led to state `(node, dir)`, read back along the recorded predecessors.
fn trace_back(
    g: &Graph,
    dist: &Vec<i64>,
    prev: &Vec<Option<(usize, usize)>>,
    starts: &Vec<bool>,
    reservations: &Vec<Option<Reservation>>,
    this_source: usize,
    allowed_target: usize,
    node: usize,
    dir: usize,
) -> (p: Vec<usize>)
    requires
        graph_shape(*g),
        node < g.points@.len(),
        dir < 3,
        g.points@.len() <= 0x1000_0000,
        starts@.len() == g.points@.len(),
        dist@.len() == 3 * g.points@.len(),
        prev@.len() == 3 * g.points@.len(),
        dist@[st(node as int, dir as int)] < i64::MAX,
        forall|s: int| 0 <= s < dist@.len() ==> 0 <= #[trigger] dist@[s],
        forall|u: int, d: int|
            0 <= u < g.points@.len() && 0 <= d < 3 && #[trigger] prev@[st(u, d)] is Some ==> ({
                let (w, e) = prev@[st(u, d)]->0;
                &&& w < g.points@.len()
                &&& e < 3
                &&& linked(*g, w as int, u)
                &&& open_step(*g, reservations@, w as int, u, this_source, allowed_target)
                &&& dist@[st(w as int, e as int)] < dist@[st(u, d)]
            }),
        forall|u: int, d: int|
            0 <= u < g.points@.len() && 0 <= d < 3 && #[trigger] dist@[st(u, d)] < i64::MAX && prev@[st(u, d)] is None
                ==> starts@[u],
    ensures
        walk(*g, p@),
        open_walk(*g, reservations@, p@, this_source, allowed_target),
        starts@[p@[0] as int],
        p@.last() == node,
{
    let n = g.points.len();
    let mut back: Vec<usize> = Vec::new();
    back.push(node);
    let mut cur = node;
    let mut cur_dir = dir;
    loop
        invariant
            n == g.points@.len(),
            n <= 0x1000_0000,
            dist@.len() == 3 * n,
            prev@.len() == 3 * n,
            cur < n,
            cur_dir < 3,
            dist@[st(cur as int, cur_dir as int)] < i64::MAX,
            forall|s: int| 0 <= s < dist@.len() ==> 0 <= #[trigger] dist@[s],
            forall|u: int, d: int|
                0 <= u < n && 0 <= d < 3 && #[trigger] prev@[st(u, d)] is Some ==> ({
                    let (w, e) = prev@[st(u, d)]->0;
                    &&& w < n
                    &&& e < 3
                    &&& linked(*g, w as int, u)
                    &&& open_step(*g, reservations@, w as int, u, this_source, allowed_target)
                    &&& dist@[st(w as int, e as int)] < dist@[st(u, d)]
                }),
            back@.len() >= 1,
            back@[0] == node,
            back@.last() == cur,
            forall|i: int| 0 <= i < back@.len() ==> (#[trigger] back@[i]) < n,
            forall|i: int| 0 < i < back@.len() ==> linked(*g, #[trigger] back@[i] as int, back@[i - 1] as int),
            forall|i: int|
                0 < i < back@.len() ==> open_step(*g, reservations@, #[trigger] back@[i] as int, back@[i - 1] as int, this_source, allowed_target),
        ensures
            back@.len() >= 1,
            back@[0] == node,
            back@.last() == cur,
            cur < n,
            cur_dir < 3,
            dist@[st(cur as int, cur_dir as int)] < i64::MAX,
            prev@[st(cur as int, cur_dir as int)] is None,
            forall|i: int| 0 <= i < back@.len() ==> (#[trigger] back@[i]) < n,
            forall|i: int| 0 < i < back@.len() ==> linked(*g, #[trigger] back@[i] as int, back@[i - 1] as int),
            forall|i: int|
                0 < i < back@.len() ==> open_step(*g, reservations@, #[trigger] back@[i] as int, back@[i - 1] as int, this_source, allowed_target),
        decreases dist@[st(cur as int, cur_dir as int)],
    {
        match prev[3 * cur + cur_dir] {
            None => {
                break;
            },
            Some((w, e)) => {
                proof {
                    assert(prev@[st(cur as int, cur_dir as int)] is Some);
                }
                back.push(w);
                cur = w;
                cur_dir = e;
            },
        }
    }
    let m = back.len();
    let mut p: Vec<usize> = Vec::new();
    let mut i: usize = m;
    while i > 0
        invariant
            m == back@.len(),
            i <= m,
            p@.len() == m - i,
            forall|k: int| 0 <= k < p@.len() ==> #[trigger] p@[k] == back@[m - 1 - k],
        decreases i,
    {
        i = i - 1;
        p.push(back[i]);
    }
    proof {
        assert(p@[0] == cur);
        assert(p@.last() == back@[0]);
        assert forall|k: int| 0 <= k < p@.len() implies (#[trigger] p@[k]) < n by {
            assert(p@[k] == back@[m - 1 - k]);
        }
        assert forall|k: int| 0 < k < p@.len() implies linked(*g, p@[k - 1] as int, #[trigger] p@[k] as int) by {
            assert(p@[k] == back@[m - 1 - k]);
            assert(p@[k - 1] == back@[m - 1 - (k - 1)]);
            assert(linked(*g, back@[m - k] as int, back@[m - k - 1] as int));
        }
        assert forall|k: int| 0 < k < p@.len() implies open_step(
            *g,
            reservations@,
            p@[k - 1] as int,
            #[trigger] p@[k] as int,
            this_source,
            allowed_target,
        ) by {
            assert(p@[k] == back@[m - 1 - k]);
            assert(p@[k - 1] == back@[m - 1 - (k - 1)]);
            assert(open_step(*g, reservations@, back@[m - k] as int, back@[m - k - 1] as int, this_source, allowed_target));
        }
    }
    p
}

} // verus!
