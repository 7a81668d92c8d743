//! Geometry of the orthogonal edge router: obstacles, ports, bounds, and grid lines.
use vstd::prelude::*;

use crate::render::geom::RectI;

verus! {

/// Clearance kept around every node, in pixels.
pub const CLEARANCE_PX: i32 = 64;

/// Distance between parallel routing lanes, in pixels.
pub const SPACING_PX: i32 = 32;

/// Step by which ports and collectors move off an obstacle, in pixels.
pub const ROUTE_PAD_PX: i32 = 1;

/// Largest coordinate magnitude the router accepts, so that no derived coordinate overflows.
pub const COORD_LIMIT: i32 = 16777216;

/// A grid point of the router.
#[derive(Debug, Clone, Copy, PartialEq, Eq, Structural, Hash)]
pub struct PointI {
    pub x: i32,
    pub y: i32,
}

/// A closed obstacle rectangle `[x0, x1] x [y0, y1]`.
#[derive(Debug, Clone, Copy, PartialEq, Eq, Structural)]
pub struct Obstacle {
    pub x0: i32,
    pub y0: i32,
    pub x1: i32,
    pub y1: i32,
}

/// A vertical segment reserved for the edges into one target.
#[derive(Debug, Clone, Copy, PartialEq, Eq, Structural)]
pub struct CollectorSpan {
    pub target_ord: usize,
    pub x: i32,
    pub y_top: i32,
    pub y_bottom: i32,
}

/// Where an edge leaves its source and enters its target.
#[derive(Debug, Clone, Copy, PartialEq, Eq, Structural)]
pub struct NodePorts {
    pub source_anchor: PointI,
    pub source_exit: PointI,
    pub target_entry: PointI,
    pub target_anchor: PointI,
}

/// A value within the router's coordinate range.
pub open spec fn in_range(v: int, limit: int) -> bool {
    -limit <= v <= limit
}

/// A node box the router can handle: coordinates within the limit, size between 0 and the limit.
pub open spec fn box_ok(r: RectI) -> bool {
    &&& in_range(r.x as int, COORD_LIMIT as int)
    &&& in_range(r.y as int, COORD_LIMIT as int)
    &&& 0 <= r.w <= COORD_LIMIT
    &&& 0 <= r.h <= COORD_LIMIT
}

/// An obstacle built from an acceptable node box.
pub open spec fn obstacle_ok(o: Obstacle) -> bool {
    &&& in_range(o.x0 as int, 2 * COORD_LIMIT + 256)
    &&& in_range(o.x1 as int, 2 * COORD_LIMIT + 256)
    &&& in_range(o.y0 as int, 2 * COORD_LIMIT + 256)
    &&& in_range(o.y1 as int, 2 * COORD_LIMIT + 256)
    &&& o.x0 <= o.x1
    &&& o.y0 <= o.y1
}

/// The rectangle grown by `pad` (at least 0) on every side.
pub fn inflate(rect: RectI, pad: i32) -> (r: RectI)
    requires
        box_ok(rect),
        0 <= pad <= 64,
    ensures
        r == (RectI { x: (rect.x - pad) as i32, y: (rect.y - pad) as i32, w: (rect.w + 2 * pad) as i32, h: (rect.h + 2 * pad) as i32 }),
{
    RectI { x: rect.x - pad, y: rect.y - pad, w: rect.w + 2 * pad, h: rect.h + 2 * pad }
}

/// The obstacle covering a rectangle.
pub fn obstacle_of(r: RectI) -> (o: Obstacle)
    requires
        in_range(r.x as int, COORD_LIMIT as int + 64),
        in_range(r.y as int, COORD_LIMIT as int + 64),
        0 <= r.w <= COORD_LIMIT + 128,
        0 <= r.h <= COORD_LIMIT + 128,
    ensures
        o == (Obstacle { x0: r.x, y0: r.y, x1: (r.x + r.w) as i32, y1: (r.y + r.h) as i32 }),
        obstacle_ok(o),
{
    Obstacle { x0: r.x, y0: r.y, x1: r.x + r.w, y1: r.y + r.h }
}

/// `p` lies in the closed obstacle.
pub open spec fn inside(o: Obstacle, p: PointI) -> bool {
    o.x0 <= p.x <= o.x1 && o.y0 <= p.y <= o.y1
}

/// `p` lies in no obstacle.
pub open spec fn free(obstacles: Seq<Obstacle>, p: PointI) -> bool {
    forall|k: int| 0 <= k < obstacles.len() ==> !inside(#[trigger] obstacles[k], p)
}

/// Whether `p` lies in no obstacle.
pub fn is_free_point(p: PointI, obstacles: &Vec<Obstacle>) -> (r: bool)
    ensures
        r == free(obstacles@, p),
{
    let mut k: usize = 0;
    while k < obstacles.len()
        invariant
            k <= obstacles@.len(),
            forall|m: int| 0 <= m < k ==> !inside(#[trigger] obstacles@[m], p),
        decreases obstacles@.len() - k,
    {
        let o = obstacles[k];
        if p.x >= o.x0 && p.x <= o.x1 && p.y >= o.y0 && p.y <= o.y1 {
            return false;
        }
        k = k + 1;
    }
    true
}

/// The first obstacle (in list order) that holds `p`.
pub open spec fn holder(obstacles: Seq<Obstacle>, p: PointI) -> Option<int>
    decreases obstacles.len(),
{
    if obstacles.len() == 0 {
        None
    } else {
        match holder(obstacles.drop_last(), p) {
            Some(k) => Some(k),
            None => if inside(obstacles.last(), p) {
                Some(obstacles.len() - 1)
            } else {
                None
            },
        }
    }
}

proof fn lemma_holder(obstacles: Seq<Obstacle>, p: PointI)
    ensures
        match holder(obstacles, p) {
            Some(k) => 0 <= k < obstacles.len() && inside(obstacles[k], p) && forall|m: int|
                0 <= m < k ==> !inside(#[trigger] obstacles[m], p),
            None => free(obstacles, p),
        },
    decreases obstacles.len(),
{
    if obstacles.len() > 0 {
        lemma_holder(obstacles.drop_last(), p);
        assert forall|m: int| 0 <= m < obstacles.len() - 1 implies obstacles.drop_last()[m] == obstacles[m] by {}
    }
}

/// The first obstacle (in list order) that holds `p`.
fn first_holding(obstacles: &Vec<Obstacle>, p: PointI) -> (r: Option<usize>)
    ensures
        match r {
            Some(k) => k < obstacles@.len() && inside(obstacles@[k as int], p) && holder(obstacles@, p) == Some(k as int),
            None => free(obstacles@, p) && holder(obstacles@, p) is None,
        },
{
    let mut k: usize = 0;
    while k < obstacles.len()
        invariant
            k <= obstacles@.len(),
            forall|m: int| 0 <= m < k ==> !inside(#[trigger] obstacles@[m], p),
        decreases obstacles@.len() - k,
    {
        let o = obstacles[k];
        if p.x >= o.x0 && p.x <= o.x1 && p.y >= o.y0 && p.y <= o.y1 {
            proof {
                lemma_holder(obstacles@, p);
                match holder(obstacles@, p) {
                    Some(j) => {
                        if j > k {
                            assert(!inside(obstacles@[k as int], p));
                        }
                    },
                    None => {
                        assert(!inside(obstacles@[k as int], p));
                    },
                }
            }
            return Some(k);
        }
        k = k + 1;
    }
    proof {
        lemma_holder(obstacles@, p);
        if holder(obstacles@, p) is Some {
            let j = holder(obstacles@, p)->0;
            assert(!inside(obstacles@[j], p));
        }
    }
    None
}

/// The limit of pushed coordinates.
pub open spec fn push_limit() -> int {
    2 * COORD_LIMIT + 300
}

/// `y` moved down past each obstacle holding `(x, y)` in turn, until the point is free.
pub open spec fn pushed_below(x: i32, y: int, obstacles: Seq<Obstacle>) -> int
    decreases push_limit() - y,
{
    match holder(obstacles, PointI { x, y: y as i32 }) {
        None => y,
        Some(k) => if y < obstacles[k].y1 + 1 <= push_limit() {
            pushed_below(x, obstacles[k].y1 + 1, obstacles)
        } else {
            y
        },
    }
}

/// Pushing down never moves a point up, nor past the push limit.
pub proof fn lemma_pushed_below_bounds(x: i32, y: int, obstacles: Seq<Obstacle>)
    requires
        y <= push_limit(),
    ensures
        y <= pushed_below(x, y, obstacles) <= push_limit(),
    decreases push_limit() - y,
{
    match holder(obstacles, PointI { x, y: y as i32 }) {
        None => {},
        Some(k) => {
            if y < obstacles[k].y1 + 1 <= push_limit() {
                lemma_pushed_below_bounds(x, obstacles[k].y1 + 1, obstacles);
            }
        },
    }
}

/// `y` moved up past each obstacle holding `(x, y)` in turn, until the point is free.
pub open spec fn pushed_above(x: i32, y: int, obstacles: Seq<Obstacle>) -> int
    decreases y + push_limit(),
{
    match holder(obstacles, PointI { x, y: y as i32 }) {
        None => y,
        Some(k) => if -push_limit() <= obstacles[k].y0 - 1 < y {
            pushed_above(x, obstacles[k].y0 - 1, obstacles)
        } else {
            y
        },
    }
}

/// Every obstacle is acceptable.
pub open spec fn obstacles_ok(obstacles: Seq<Obstacle>) -> bool {
    forall|k: int| 0 <= k < obstacles.len() ==> obstacle_ok(#[trigger] obstacles[k])
}

/// Moves `y` down past every obstacle that holds `(x, y)`, until the point is free.
pub fn push_below_obstacles(x: i32, y: i32, obstacles: &Vec<Obstacle>) -> (r: i32)
    requires
        obstacles_ok(obstacles@),
        in_range(y as int, 2 * COORD_LIMIT + 300),
    ensures
        r >= y,
        r == pushed_below(x, y as int, obstacles@),
        free(obstacles@, PointI { x, y: r }),
        in_range(r as int, 2 * COORD_LIMIT + 300),
{
    let mut cur = y;
    loop
        invariant
            obstacles_ok(obstacles@),
            cur >= y,
            pushed_below(x, y as int, obstacles@) == pushed_below(x, cur as int, obstacles@),
            in_range(cur as int, 2 * COORD_LIMIT + 300),
        decreases 2 * COORD_LIMIT + 300 - cur,
    {
        match first_holding(obstacles, PointI { x, y: cur }) {
            None => {
                return cur;
            },
            Some(k) => {
                cur = obstacles[k].y1 + ROUTE_PAD_PX;
            },
        }
    }
}

/// Moves `y` up past every obstacle that holds `(x, y)`, until the point is free.
pub fn push_above_obstacles(x: i32, y: i32, obstacles: &Vec<Obstacle>) -> (r: i32)
    requires
        obstacles_ok(obstacles@),
        in_range(y as int, 2 * COORD_LIMIT + 300),
    ensures
        r <= y,
        r == pushed_above(x, y as int, obstacles@),
        free(obstacles@, PointI { x, y: r }),
        in_range(r as int, 2 * COORD_LIMIT + 300),
{
    let mut cur = y;
    loop
        invariant
            obstacles_ok(obstacles@),
            cur <= y,
            pushed_above(x, y as int, obstacles@) == pushed_above(x, cur as int, obstacles@),
            in_range(cur as int, 2 * COORD_LIMIT + 300),
        decreases cur + 2 * COORD_LIMIT + 300,
    {
        match first_holding(obstacles, PointI { x, y: cur }) {
            None => {
                return cur;
            },
            Some(k) => {
                cur = obstacles[k].y0 - ROUTE_PAD_PX;
            },
        }
    }
}

/// The horizontal center of a box (rounded toward negative infinity for odd widths).
pub open spec fn center_x(r: RectI) -> int {
    r.x + r.w / 2
}

/// The horizontal center of a box.
pub fn node_center_x(bbox: RectI) -> (x: i32)
    requires
        box_ok(bbox),
    ensures
        x == center_x(bbox),
{
    bbox.x + bbox.w / 2
}

/// The ports of an edge: the source's bottom center, pushed down below the clearance and any
/// obstacle, and the target's top center, pushed up likewise.
pub fn ports_for_edge(source: RectI, target: RectI, obstacles: &Vec<Obstacle>) -> (p: NodePorts)
    requires
        box_ok(source),
        box_ok(target),
        obstacles_ok(obstacles@),
    ensures
        p.source_anchor == (PointI { x: center_x(source) as i32, y: (source.y + source.h) as i32 }),
        p.source_exit.x == center_x(source),
        p.source_exit.y == pushed_below(center_x(source) as i32, source.y + source.h + CLEARANCE_PX + ROUTE_PAD_PX, obstacles@),
        p.target_entry.y == pushed_above(center_x(target) as i32, target.y - CLEARANCE_PX - ROUTE_PAD_PX, obstacles@),
        p.source_exit.y >= source.y + source.h + CLEARANCE_PX + ROUTE_PAD_PX,
        free(obstacles@, p.source_exit),
        p.target_entry.x == center_x(target),
        p.target_entry.y <= target.y - CLEARANCE_PX - ROUTE_PAD_PX,
        free(obstacles@, p.target_entry),
        p.target_anchor == (PointI { x: center_x(target) as i32, y: target.y }),
        in_range(p.source_exit.y as int, 2 * COORD_LIMIT + 300),
        in_range(p.target_entry.y as int, 2 * COORD_LIMIT + 300),
{
    let sx = node_center_x(source);
    let tx = node_center_x(target);
    let source_anchor = PointI { x: sx, y: source.y + source.h };
    let source_exit = PointI {
        x: sx,
        y: push_below_obstacles(sx, source.y + source.h + CLEARANCE_PX + ROUTE_PAD_PX, obstacles),
    };
    let target_entry = PointI {
        x: tx,
        y: push_above_obstacles(tx, target.y - CLEARANCE_PX - ROUTE_PAD_PX, obstacles),
    };
    let target_anchor = PointI { x: tx, y: target.y };
    NodePorts { source_anchor, source_exit, target_entry, target_anchor }
}

/// The smallest of `init` and the values.
pub open spec fn min_of(s: Seq<int>, init: int) -> int
    decreases s.len(),
{
    if s.len() == 0 {
        init
    } else {
        let m = min_of(s.drop_last(), init);
        if s.last() < m {
            s.last()
        } else {
            m
        }
    }
}

/// The largest of `init` and the values.
pub open spec fn max_of(s: Seq<int>, init: int) -> int
    decreases s.len(),
{
    if s.len() == 0 {
        init
    } else {
        let m = max_of(s.drop_last(), init);
        if s.last() > m {
            s.last()
        } else {
            m
        }
    }
}

/// The x (when `horizontal`) or y extent values of the obstacles and terminals: the low sides
/// (when `low`) or the high sides.
pub open spec fn extent_values(obstacles: Seq<Obstacle>, terminals: Seq<PointI>, horizontal: bool, low: bool) -> Seq<int> {
    obstacles.map_values(
        |o: Obstacle|
            if horizontal {
                if low { o.x0 as int } else { o.x1 as int }
            } else {
                if low { o.y0 as int } else { o.y1 as int }
            },
    ) + terminals.map_values(|t: PointI| if horizontal { t.x as int } else { t.y as int })
}

/// The routing area: the extent of obstacles and terminals with a 128px margin, as
/// `(min_x, max_x, min_y, max_y)`.
pub open spec fn bounds_of(obstacles: Seq<Obstacle>, terminals: Seq<PointI>) -> (int, int, int, int) {
    (
        min_of(extent_values(obstacles, terminals, true, true), i32::MAX as int) - 128,
        max_of(extent_values(obstacles, terminals, true, false), i32::MIN as int) + 128,
        min_of(extent_values(obstacles, terminals, false, true), i32::MAX as int) - 128,
        max_of(extent_values(obstacles, terminals, false, false), i32::MIN as int) + 128,
    )
}

/// The routing area of the obstacles and terminals; see [`bounds_of`].
pub fn global_bounds(obstacles: &Vec<Obstacle>, terminals: &Vec<PointI>) -> (r: (i32, i32, i32, i32))
    requires
        obstacles_ok(obstacles@),
        forall|j: int|
            0 <= j < terminals@.len() ==> in_range((#[trigger] terminals@[j]).x as int, push_limit()) && in_range(
                terminals@[j].y as int,
                push_limit(),
            ),
    ensures
        r.0 == bounds_of(obstacles@, terminals@).0,
        r.1 == bounds_of(obstacles@, terminals@).1,
        r.2 == bounds_of(obstacles@, terminals@).2,
        r.3 == bounds_of(obstacles@, terminals@).3,
{
    let ghost xl = extent_values(obstacles@, terminals@, true, true);
    let ghost xh = extent_values(obstacles@, terminals@, true, false);
    let ghost yl = extent_values(obstacles@, terminals@, false, true);
    let ghost yh = extent_values(obstacles@, terminals@, false, false);
    let mut min_x = i32::MAX;
    let mut max_x = i32::MIN;
    let mut min_y = i32::MAX;
    let mut max_y = i32::MIN;
    let n = obstacles.len();
    let mut k: usize = 0;
    while k < n
        invariant
            k <= n == obstacles@.len(),
            xl == extent_values(obstacles@, terminals@, true, true),
            xh == extent_values(obstacles@, terminals@, true, false),
            yl == extent_values(obstacles@, terminals@, false, true),
            yh == extent_values(obstacles@, terminals@, false, false),
            obstacles_ok(obstacles@),
            -push_limit() <= min_x && max_x <= push_limit() && -push_limit() <= min_y && max_y <= push_limit(),
            min_x == min_of(xl.take(k as int), i32::MAX as int),
            max_x == max_of(xh.take(k as int), i32::MIN as int),
            min_y == min_of(yl.take(k as int), i32::MAX as int),
            max_y == max_of(yh.take(k as int), i32::MIN as int),
        decreases n - k,
    {
        let r = obstacles[k];
        proof {
            assert(xl.take(k + 1).drop_last() =~= xl.take(k as int));
            assert(xh.take(k + 1).drop_last() =~= xh.take(k as int));
            assert(yl.take(k + 1).drop_last() =~= yl.take(k as int));
            assert(yh.take(k + 1).drop_last() =~= yh.take(k as int));
            assert(xl[k as int] == r.x0 as int);
            assert(xh[k as int] == r.x1 as int);
            assert(yl[k as int] == r.y0 as int);
            assert(yh[k as int] == r.y1 as int);
        }
        if r.x0 < min_x {
            min_x = r.x0;
        }
        if r.x1 > max_x {
            max_x = r.x1;
        }
        if r.y0 < min_y {
            min_y = r.y0;
        }
        if r.y1 > max_y {
            max_y = r.y1;
        }
        k = k + 1;
    }
    let m = terminals.len();
    let mut j: usize = 0;
    while j < m
        invariant
            n == obstacles@.len(),
            j <= m == terminals@.len(),
            xl == extent_values(obstacles@, terminals@, true, true),
            xh == extent_values(obstacles@, terminals@, true, false),
            yl == extent_values(obstacles@, terminals@, false, true),
            yh == extent_values(obstacles@, terminals@, false, false),
            forall|i: int|
                0 <= i < terminals@.len() ==> in_range((#[trigger] terminals@[i]).x as int, push_limit()) && in_range(
                    terminals@[i].y as int,
                    push_limit(),
                ),
            -push_limit() <= min_x && max_x <= push_limit() && -push_limit() <= min_y && max_y <= push_limit(),
            min_x == min_of(xl.take(n + j), i32::MAX as int),
            max_x == max_of(xh.take(n + j), i32::MIN as int),
            min_y == min_of(yl.take(n + j), i32::MAX as int),
            max_y == max_of(yh.take(n + j), i32::MIN as int),
        decreases m - j,
    {
        let t = terminals[j];
        proof {
            assert(xl.take(n + j + 1).drop_last() =~= xl.take(n + j));
            assert(xh.take(n + j + 1).drop_last() =~= xh.take(n + j));
            assert(yl.take(n + j + 1).drop_last() =~= yl.take(n + j));
            assert(yh.take(n + j + 1).drop_last() =~= yh.take(n + j));
            assert(xl[n + j] == t.x as int);
            assert(xh[n + j] == t.x as int);
            assert(yl[n + j] == t.y as int);
            assert(yh[n + j] == t.y as int);
        }
        if t.x < min_x {
            min_x = t.x;
        }
        if t.x > max_x {
            max_x = t.x;
        }
        if t.y < min_y {
            min_y = t.y;
        }
        if t.y > max_y {
            max_y = t.y;
        }
        j = j + 1;
    }
    proof {
        assert(xl.take(n + m) =~= xl);
        assert(xh.take(n + m) =~= xh);
        assert(yl.take(n + m) =~= yl);
        assert(yh.take(n + m) =~= yh);
    }
    (min_x - 128, max_x + 128, min_y - 128, max_y + 128)
}

/// `v` clamped to `[lo, hi]`.
pub open spec fn clamp(v: int, lo: int, hi: int) -> int {
    if v < lo {
        lo
    } else if v > hi {
        hi
    } else {
        v
    }
}

/// Strictly increasing values.
pub open spec fn strictly_increasing(s: Seq<i32>) -> bool {
    forall|i: int, j: int| 0 <= i < j < s.len() ==> s[i] < s[j]
}

/// The values of a list as integers.
pub open spec fn int_set(s: Seq<i32>) -> Set<int> {
    Set::new(|v: int| exists|i: int| 0 <= i < s.len() && s[i] as int == v)
}

/// Lane `k` around `base`, clamped to `[lo, hi]`.
pub open spec fn lane(base: int, k: int, lo: int, hi: int) -> int {
    clamp(base + 32 * k, lo, hi)
}

/// The nine lanes around `base`, 32px apart, clamped to `[lo, hi]`.
pub open spec fn lanes(base: int, lo: int, hi: int) -> Set<int> {
    Set::new(|v: int| exists|k: int| -4 <= k <= 4 && v == #[trigger] lane(base, k, lo, hi))
}

/// Adds `v` to a strictly increasing list.
fn insert_value(lines: &mut Vec<i32>, v: i32)
    requires
        strictly_increasing(old(lines)@),
    ensures
        strictly_increasing(final(lines)@),
        int_set(final(lines)@) == int_set(old(lines)@).insert(v as int),
{
    let mut i: usize = 0;
    while i < lines.len() && lines[i] < v
        invariant
            i <= lines@.len(),
            forall|m: int| 0 <= m < i ==> lines@[m] < v,
        decreases lines@.len() - i,
    {
        i = i + 1;
    }
    let ghost before = lines@;
    if i < lines.len() && lines[i] == v {
        proof {
            assert(int_set(before) =~= int_set(before).insert(v as int)) by {
                assert(before[i as int] as int == v as int);
            }
        }
        return;
    }
    lines.insert(i, v);
    proof {
        assert forall|a: int, b: int| 0 <= a < b < lines@.len() implies lines@[a] < lines@[b] by {
            if b < i {
            } else if a > i {
                assert(before[a - 1] < before[b - 1]);
            } else if a == i {
                assert(v < before[b - 1]);
            } else if b == i {
            } else {
                assert(before[a] < before[b - 1]);
            }
        }
        assert forall|x: int| int_set(lines@).contains(x) <==> int_set(before).insert(v as int).contains(x) by {
            if int_set(lines@).contains(x) {
                let m = choose|m: int| 0 <= m < lines@.len() && lines@[m] as int == x;
                if m < i {
                    assert(before[m] == lines@[m]);
                } else if m > i {
                    assert(before[m - 1] == lines@[m]);
                }
            }
            if int_set(before).contains(x) {
                let m = choose|m: int| 0 <= m < before.len() && before[m] as int == x;
                if m < i {
                    assert(lines@[m] == before[m]);
                } else {
                    assert(lines@[m + 1] == before[m]);
                }
            }
            if x == v {
                assert(lines@[i as int] == v);
            }
        }
        assert(int_set(lines@) =~= int_set(before).insert(v as int));
    }
}

/// Adds the lanes around `base` to a strictly increasing list; see [`lanes`].
fn insert_lanes(lines: &mut Vec<i32>, base: i32, lo: i32, hi: i32)
    requires
        strictly_increasing(old(lines)@),
        in_range(base as int, push_limit() + 200),
        lo <= hi,
    ensures
        strictly_increasing(final(lines)@),
        int_set(final(lines)@) == int_set(old(lines)@).union(lanes(base as int, lo as int, hi as int)),
{
    let ghost start = int_set(lines@);
    let mut k: i32 = -4;
    while k <= 4
        invariant
            -4 <= k <= 5,
            lo <= hi,
            in_range(base as int, push_limit() + 200),
            strictly_increasing(lines@),
            int_set(lines@) == start.union(
                Set::new(|v: int| exists|j: int| -4 <= j < k && v == #[trigger] lane(base as int, j, lo as int, hi as int)),
            ),
        decreases 5 - k,
    {
        let raw = base + k * 32;
        let v = if raw < lo {
            lo
        } else if raw > hi {
            hi
        } else {
            raw
        };
        let ghost before = int_set(lines@);
        insert_value(lines, v);
        proof {
            assert(v as int == lane(base as int, k as int, lo as int, hi as int));
            assert(int_set(lines@) =~= start.union(
                Set::new(|x: int| exists|j: int| -4 <= j < k + 1 && x == #[trigger] lane(base as int, j, lo as int, hi as int)),
            )) by {
                assert forall|x: int| #![trigger int_set(lines@).contains(x)]
                    int_set(lines@).contains(x) <==> start.union(
                    Set::new(|y: int| exists|j: int| -4 <= j < k + 1 && y == #[trigger] lane(base as int, j, lo as int, hi as int)),
                ).contains(x) by {
                    if exists|j: int| -4 <= j < k + 1 && x == #[trigger] lane(base as int, j, lo as int, hi as int) {
                        let j = choose|j: int| -4 <= j < k + 1 && x == #[trigger] lane(base as int, j, lo as int, hi as int);
                        if j < k {
                            assert(before.contains(x));
                        }
                    }
                }
            }
        }
        k = k + 1;
    }
    proof {
        assert(int_set(lines@) =~= start.union(lanes(base as int, lo as int, hi as int)));
    }
}

/// The values of a list as integers, in order.
pub open spec fn as_ints(s: Seq<i32>) -> Seq<int> {
    s.map_values(|b: i32| b as int)
}

/// The union of the lanes around each base.
pub open spec fn lanes_union(bases: Seq<int>, lo: int, hi: int) -> Set<int>
    decreases bases.len(),
{
    if bases.len() == 0 {
        Set::empty()
    } else {
        lanes_union(bases.drop_last(), lo, hi).union(lanes(bases.last(), lo, hi))
    }
}

/// The lane bases of the routing area along one axis: both sides of each obstacle (one pixel
/// outside), each terminal, each collector, and the area's own edges.
pub open spec fn axis_bases(
    obstacles: Seq<Obstacle>,
    terminals: Seq<PointI>,
    collectors: Seq<CollectorSpan>,
    lo: int,
    hi: int,
    horizontal: bool,
) -> Seq<int> {
    obstacle_bases(obstacles, horizontal) + terminals.map_values(|t: PointI| if horizontal { t.x as int } else { t.y as int })
        + collector_bases(collectors, horizontal) + seq![lo, hi]
}

/// Both sides of each obstacle along one axis, one pixel outside.
pub open spec fn obstacle_bases(obstacles: Seq<Obstacle>, horizontal: bool) -> Seq<int>
    decreases obstacles.len(),
{
    if obstacles.len() == 0 {
        Seq::empty()
    } else {
        let o = obstacles.last();
        obstacle_bases(obstacles.drop_last(), horizontal) + if horizontal {
            seq![o.x0 - 1, o.x1 + 1]
        } else {
            seq![o.y0 - 1, o.y1 + 1]
        }
    }
}

/// The x of each collector, or both ends of each collector along y.
pub open spec fn collector_bases(collectors: Seq<CollectorSpan>, horizontal: bool) -> Seq<int>
    decreases collectors.len(),
{
    if collectors.len() == 0 {
        Seq::empty()
    } else {
        let c = collectors.last();
        collector_bases(collectors.drop_last(), horizontal) + if horizontal {
            seq![c.x as int]
        } else {
            seq![c.y_top as int, c.y_bottom as int]
        }
    }
}

/// Adds the lanes around each base.
fn insert_all_lanes(lines: &mut Vec<i32>, bases: &Vec<i32>, lo: i32, hi: i32)
    requires
        strictly_increasing(old(lines)@),
        forall|i: int| 0 <= i < bases@.len() ==> in_range((#[trigger] bases@[i]) as int, push_limit() + 200),
        lo <= hi,
    ensures
        strictly_increasing(final(lines)@),
        int_set(final(lines)@) == int_set(old(lines)@).union(
            lanes_union(as_ints(bases@), lo as int, hi as int),
        ),
{
    let ghost start = int_set(lines@);
    let ghost all = as_ints(bases@);
    let mut k: usize = 0;
    while k < bases.len()
        invariant
            k <= bases@.len(),
            all == as_ints(bases@),
            forall|i: int| 0 <= i < bases@.len() ==> in_range((#[trigger] bases@[i]) as int, push_limit() + 200),
            lo <= hi,
            strictly_increasing(lines@),
            int_set(lines@) == start.union(lanes_union(all.take(k as int), lo as int, hi as int)),
        decreases bases@.len() - k,
    {
        insert_lanes(lines, bases[k], lo, hi);
        proof {
            assert(all.take(k + 1).drop_last() =~= all.take(k as int));
            assert(int_set(lines@) =~= start.union(lanes_union(all.take(k + 1), lo as int, hi as int)));
        }
        k = k + 1;
    }
    proof {
        assert(all.take(bases@.len() as int) =~= all);
    }
}

/// The bases of one axis as a list; see [`axis_bases`].
fn axis_base_list(
    obstacles: &Vec<Obstacle>,
    terminals: &Vec<PointI>,
    collectors: &Vec<CollectorSpan>,
    lo: i32,
    hi: i32,
    horizontal: bool,
) -> (r: Vec<i32>)
    requires
        obstacles_ok(obstacles@),
    ensures
        as_ints(r@) == axis_bases(obstacles@, terminals@, collectors@, lo as int, hi as int, horizontal),
{
    let mut out: Vec<i32> = Vec::new();
    let mut k: usize = 0;
    while k < obstacles.len()
        invariant
            k <= obstacles@.len(),
            obstacles_ok(obstacles@),
            as_ints(out@) == obstacle_bases(obstacles@.take(k as int), horizontal),
        decreases obstacles@.len() - k,
    {
        let o = obstacles[k];
        if horizontal {
            out.push(o.x0 - 1);
            out.push(o.x1 + 1);
        } else {
            out.push(o.y0 - 1);
            out.push(o.y1 + 1);
        }
        proof {
            assert(obstacles@.take(k + 1).drop_last() =~= obstacles@.take(k as int));
            assert(as_ints(out@) =~= obstacle_bases(obstacles@.take(k + 1), horizontal));
        }
        k = k + 1;
    }
    proof {
        assert(obstacles@.take(obstacles@.len() as int) =~= obstacles@);
    }
    let ghost after_obstacles = as_ints(out@);
    let ghost term = terminals@.map_values(|t: PointI| if horizontal { t.x as int } else { t.y as int });
    let mut j: usize = 0;
    while j < terminals.len()
        invariant
            j <= terminals@.len(),
            term == terminals@.map_values(|t: PointI| if horizontal { t.x as int } else { t.y as int }),
            as_ints(out@) == after_obstacles + term.take(j as int),
        decreases terminals@.len() - j,
    {
        let t = terminals[j];
        let ghost prev = out@;
        let v = if horizontal { t.x } else { t.y };
        out.push(v);
        proof {
            assert(term[j as int] == v as int);
            assert(out@ == prev.push(v));
            assert(as_ints(prev) == after_obstacles + term.take(j as int));
            let expected = after_obstacles + term.take(j + 1);
            assert(as_ints(prev).len() == prev.len());
            assert forall|i: int| 0 <= i < out@.len() implies #[trigger] as_ints(out@)[i] == expected[i] by {
                assert(as_ints(out@)[i] == out@[i] as int);
                if i < prev.len() {
                    assert(out@[i] == prev[i]);
                    assert(as_ints(prev)[i] == prev[i] as int);
                    assert(as_ints(prev)[i] == (after_obstacles + term.take(j as int))[i]);
                } else {
                    assert(i == after_obstacles.len() + j);
                    assert(expected[i] == term.take(j + 1)[j as int]);
                }
            }
            assert(as_ints(out@) =~= after_obstacles + term.take(j + 1));
        }
        j = j + 1;
    }
    proof {
        assert(term.take(terminals@.len() as int) =~= term);
    }
    let ghost after_terminals = as_ints(out@);
    let mut c: usize = 0;
    while c < collectors.len()
        invariant
            c <= collectors@.len(),
            as_ints(out@) == after_terminals + collector_bases(collectors@.take(c as int), horizontal),
        decreases collectors@.len() - c,
    {
        let span = collectors[c];
        let ghost prev = out@;
        if horizontal {
            out.push(span.x);
        } else {
            out.push(span.y_top);
            out.push(span.y_bottom);
        }
        proof {
            let pc = collectors@.take(c + 1);
            assert(pc.drop_last() =~= collectors@.take(c as int));
            assert(pc.last() == span);
            let expected = after_terminals + collector_bases(pc, horizontal);
            assert(as_ints(prev) == after_terminals + collector_bases(collectors@.take(c as int), horizontal));
            assert(as_ints(prev).len() == prev.len());
            assert(out@.len() == expected.len());
            assert forall|i: int| 0 <= i < out@.len() implies #[trigger] as_ints(out@)[i] == expected[i] by {
                assert(as_ints(out@)[i] == out@[i] as int);
                if i < prev.len() {
                    assert(out@[i] == prev[i]);
                    assert(as_ints(prev)[i] == prev[i] as int);
                    assert(as_ints(prev)[i] == expected[i]);
                }
            }
            assert(as_ints(out@) =~= expected);
        }
        c = c + 1;
    }
    proof {
        assert(collectors@.take(collectors@.len() as int) =~= collectors@);
    }
    out.push(lo);
    out.push(hi);
    proof {
        assert(as_ints(out@) =~= axis_bases(obstacles@, terminals@, collectors@, lo as int, hi as int, horizontal));
    }
    out
}

/// Every base of an axis lies in the push range.
proof fn lemma_axis_bases_in_range(
    obstacles: Seq<Obstacle>,
    terminals: Seq<PointI>,
    collectors: Seq<CollectorSpan>,
    lo: int,
    hi: int,
    horizontal: bool,
)
    requires
        obstacles_ok(obstacles),
        forall|j: int|
            0 <= j < terminals.len() ==> in_range((#[trigger] terminals[j]).x as int, push_limit()) && in_range(
                terminals[j].y as int,
                push_limit(),
            ),
        forall|j: int|
            0 <= j < collectors.len() ==> in_range((#[trigger] collectors[j]).x as int, push_limit()) && in_range(
                collectors[j].y_top as int,
                push_limit() + 128,
            ) && in_range(collectors[j].y_bottom as int, push_limit()),
        in_range(lo, push_limit() + 200),
        in_range(hi, push_limit() + 200),
    ensures
        forall|i: int|
            0 <= i < axis_bases(obstacles, terminals, collectors, lo, hi, horizontal).len() ==> in_range(
                #[trigger] axis_bases(obstacles, terminals, collectors, lo, hi, horizontal)[i],
                push_limit() + 200,
            ),
{
    lemma_obstacle_bases_in_range(obstacles, horizontal);
    lemma_collector_bases_in_range(collectors, horizontal);
}

proof fn lemma_obstacle_bases_in_range(obstacles: Seq<Obstacle>, horizontal: bool)
    requires
        obstacles_ok(obstacles),
    ensures
        forall|i: int| 0 <= i < obstacle_bases(obstacles, horizontal).len() ==> in_range(
            #[trigger] obstacle_bases(obstacles, horizontal)[i],
            push_limit() + 200,
        ),
    decreases obstacles.len(),
{
    if obstacles.len() > 0 {
        let init = obstacles.drop_last();
        assert forall|k: int| 0 <= k < init.len() implies obstacle_ok(#[trigger] init[k]) by {
            assert(init[k] == obstacles[k]);
        }
        lemma_obstacle_bases_in_range(init, horizontal);
        let o = obstacles[obstacles.len() - 1];
        assert(obstacle_ok(o));
        let head = obstacle_bases(init, horizontal);
        let all = obstacle_bases(obstacles, horizontal);
        assert forall|i: int| 0 <= i < all.len() implies in_range(#[trigger] all[i], push_limit() + 200) by {
            if i < head.len() {
                assert(all[i] == head[i]);
            }
        }
    }
}

proof fn lemma_collector_bases_in_range(collectors: Seq<CollectorSpan>, horizontal: bool)
    requires
        forall|j: int|
            0 <= j < collectors.len() ==> in_range((#[trigger] collectors[j]).x as int, push_limit()) && in_range(
                collectors[j].y_top as int,
                push_limit() + 128,
            ) && in_range(collectors[j].y_bottom as int, push_limit()),
    ensures
        forall|i: int| 0 <= i < collector_bases(collectors, horizontal).len() ==> in_range(
            #[trigger] collector_bases(collectors, horizontal)[i],
            push_limit() + 200,
        ),
    decreases collectors.len(),
{
    if collectors.len() > 0 {
        let init = collectors.drop_last();
        assert forall|j: int|
            0 <= j < init.len() implies in_range((#[trigger] init[j]).x as int, push_limit()) && in_range(
                init[j].y_top as int,
                push_limit() + 128,
            ) && in_range(init[j].y_bottom as int, push_limit()) by {
            assert(init[j] == collectors[j]);
        }
        lemma_collector_bases_in_range(init, horizontal);
        let c = collectors[collectors.len() - 1];
        assert(in_range(c.x as int, push_limit()));
        let head = collector_bases(init, horizontal);
        let all = collector_bases(collectors, horizontal);
        assert forall|i: int| 0 <= i < all.len() implies in_range(#[trigger] all[i], push_limit() + 200) by {
            if i < head.len() {
                assert(all[i] == head[i]);
            }
        }
    }
}

/// The x and y grid lines of the routing area: the lanes around every base of each axis,
/// clamped to the area, sorted and without duplicates.
pub fn collect_lines(
    obstacles: &Vec<Obstacle>,
    terminals: &Vec<PointI>,
    collectors: &Vec<CollectorSpan>,
    bounds: (i32, i32, i32, i32),
) -> (r: (Vec<i32>, Vec<i32>))
    requires
        obstacles_ok(obstacles@),
        forall|j: int|
            0 <= j < terminals@.len() ==> in_range((#[trigger] terminals@[j]).x as int, push_limit()) && in_range(
                terminals@[j].y as int,
                push_limit(),
            ),
        forall|j: int|
            0 <= j < collectors@.len() ==> in_range((#[trigger] collectors@[j]).x as int, push_limit()) && in_range(
                collectors@[j].y_top as int,
                push_limit() + 128,
            ) && in_range(collectors@[j].y_bottom as int, push_limit()),
        in_range(bounds.0 as int, push_limit() + 200),
        in_range(bounds.1 as int, push_limit() + 200),
        in_range(bounds.2 as int, push_limit() + 200),
        in_range(bounds.3 as int, push_limit() + 200),
        bounds.0 <= bounds.1,
        bounds.2 <= bounds.3,
    ensures
        strictly_increasing(r.0@),
        strictly_increasing(r.1@),
        int_set(r.0@) == lanes_union(
            axis_bases(obstacles@, terminals@, collectors@, bounds.0 as int, bounds.1 as int, true),
            bounds.0 as int,
            bounds.1 as int,
        ),
        int_set(r.1@) == lanes_union(
            axis_bases(obstacles@, terminals@, collectors@, bounds.2 as int, bounds.3 as int, false),
            bounds.2 as int,
            bounds.3 as int,
        ),
{
    let (min_x, max_x, min_y, max_y) = bounds;
    let x_bases = axis_base_list(obstacles, terminals, collectors, min_x, max_x, true);
    let y_bases = axis_base_list(obstacles, terminals, collectors, min_y, max_y, false);
    proof {
        lemma_axis_bases_in_range(obstacles@, terminals@, collectors@, min_x as int, max_x as int, true);
        lemma_axis_bases_in_range(obstacles@, terminals@, collectors@, min_y as int, max_y as int, false);
        assert forall|i: int| 0 <= i < x_bases@.len() implies in_range((#[trigger] x_bases@[i]) as int, push_limit() + 200) by {
            assert(as_ints(x_bases@)[i] == x_bases@[i] as int);
        }
        assert forall|i: int| 0 <= i < y_bases@.len() implies in_range((#[trigger] y_bases@[i]) as int, push_limit() + 200) by {
            assert(as_ints(y_bases@)[i] == y_bases@[i] as int);
        }
    }
    let mut xs: Vec<i32> = Vec::new();
    let mut ys: Vec<i32> = Vec::new();
    proof {
        assert(int_set(xs@) =~= Set::empty());
        assert(int_set(ys@) =~= Set::empty());
    }
    insert_all_lanes(&mut xs, &x_bases, min_x, max_x);
    insert_all_lanes(&mut ys, &y_bases, min_y, max_y);
    proof {
        assert(int_set(xs@) =~= lanes_union(
            axis_bases(obstacles@, terminals@, collectors@, min_x as int, max_x as int, true),
            min_x as int,
            max_x as int,
        ));
        assert(int_set(ys@) =~= lanes_union(
            axis_bases(obstacles@, terminals@, collectors@, min_y as int, max_y as int, false),
            min_y as int,
            max_y as int,
        ));
    }
    (xs, ys)
}

/// The obstacle holds `x` horizontally and has its bottom edge in `[y_top, entry)`.
pub open spec fn blocks(o: Obstacle, x: int, y_top: int, entry: int) -> bool {
    o.x0 <= x <= o.x1 && y_top <= o.y1 < entry
}

/// The first obstacle that blocks a collector at `x` growing from `y_top` down to `entry`.
pub open spec fn blocker(obstacles: Seq<Obstacle>, x: int, y_top: int, entry: int) -> Option<int>
    decreases obstacles.len(),
{
    if obstacles.len() == 0 {
        None
    } else {
        match blocker(obstacles.drop_last(), x, y_top, entry) {
            Some(k) => Some(k),
            None => if blocks(obstacles.last(), x, y_top, entry) {
                Some(obstacles.len() - 1)
            } else {
                None
            },
        }
    }
}

proof fn lemma_blocker(obstacles: Seq<Obstacle>, x: int, y_top: int, entry: int)
    ensures
        match blocker(obstacles, x, y_top, entry) {
            Some(k) => 0 <= k < obstacles.len() && blocks(obstacles[k], x, y_top, entry) && forall|m: int|
                0 <= m < k ==> !blocks(#[trigger] obstacles[m], x, y_top, entry),
            None => forall|m: int| 0 <= m < obstacles.len() ==> !blocks(#[trigger] obstacles[m], x, y_top, entry),
        },
    decreases obstacles.len(),
{
    if obstacles.len() > 0 {
        lemma_blocker(obstacles.drop_last(), x, y_top, entry);
        assert forall|m: int| 0 <= m < obstacles.len() - 1 implies obstacles.drop_last()[m] == obstacles[m] by {}
    }
}

/// The top of a collector raised past each blocking obstacle in turn.
pub open spec fn raised_top(obstacles: Seq<Obstacle>, x: int, y_top: int, entry: int) -> int
    decreases entry - y_top,
{
    match blocker(obstacles, x, y_top, entry) {
        None => y_top,
        Some(k) => if y_top < obstacles[k].y1 + 1 <= entry {
            raised_top(obstacles, x, obstacles[k].y1 + 1, entry)
        } else {
            y_top
        },
    }
}

fn first_blocker(obstacles: &Vec<Obstacle>, x: i32, y_top: i32, entry: i32) -> (r: Option<usize>)
    ensures
        match r {
            Some(k) => blocker(obstacles@, x as int, y_top as int, entry as int) == Some(k as int) && k < obstacles@.len(),
            None => blocker(obstacles@, x as int, y_top as int, entry as int) is None,
        },
{
    let mut k: usize = 0;
    while k < obstacles.len()
        invariant
            k <= obstacles@.len(),
            forall|m: int| 0 <= m < k ==> !blocks(#[trigger] obstacles@[m], x as int, y_top as int, entry as int),
        decreases obstacles@.len() - k,
    {
        let o = obstacles[k];
        if x >= o.x0 && x <= o.x1 && y_top <= o.y1 && o.y1 < entry {
            proof {
                lemma_blocker(obstacles@, x as int, y_top as int, entry as int);
                match blocker(obstacles@, x as int, y_top as int, entry as int) {
                    Some(j) => {
                        if j > k {
                            assert(!blocks(obstacles@[k as int], x as int, y_top as int, entry as int));
                        }
                    },
                    None => {
                        assert(!blocks(obstacles@[k as int], x as int, y_top as int, entry as int));
                    },
                }
            }
            return Some(k);
        }
        k = k + 1;
    }
    proof {
        lemma_blocker(obstacles@, x as int, y_top as int, entry as int);
        if blocker(obstacles@, x as int, y_top as int, entry as int) is Some {
            let j = blocker(obstacles@, x as int, y_top as int, entry as int)->0;
            assert(!blocks(obstacles@[j], x as int, y_top as int, entry as int));
        }
    }
    None
}

/// The y where an edge enters the target above its box.
pub open spec fn entry_y(bbox: RectI, obstacles: Seq<Obstacle>) -> int {
    pushed_above(center_x(bbox) as i32, bbox.y - CLEARANCE_PX - ROUTE_PAD_PX, obstacles)
}

/// The collector of a target: the vertical at its entry x, from the center band (clamped to
/// the area) raised past blocking obstacles, down to its entry.
pub fn collector_for_target(
    target_ord: usize,
    target_bbox: RectI,
    obstacles: &Vec<Obstacle>,
    min_y: i32,
    center_y: i32,
) -> (c: CollectorSpan)
    requires
        box_ok(target_bbox),
        obstacles_ok(obstacles@),
        min_y <= entry_y(target_bbox, obstacles@) - 1,
    ensures
        ({
            let entry = entry_y(target_bbox, obstacles@);
            let top = raised_top(obstacles@, center_x(target_bbox), clamp(center_y as int, min_y as int, entry - 1), entry);
            c == CollectorSpan {
                target_ord,
                x: center_x(target_bbox) as i32,
                y_top: (if top < entry - 1 { top } else { entry - 1 }) as i32,
                y_bottom: entry as i32,
            }
        }),
{
    let ports = ports_for_edge(target_bbox, target_bbox, obstacles);
    let x = ports.target_entry.x;
    let entry = ports.target_entry.y;
    let mut y_top = if center_y < min_y {
        min_y
    } else if center_y > entry - 1 {
        entry - 1
    } else {
        center_y
    };
    let ghost start = y_top;
    loop
        invariant
            obstacles_ok(obstacles@),
            y_top <= entry,
            raised_top(obstacles@, x as int, start as int, entry as int) == raised_top(obstacles@, x as int, y_top as int, entry as int),
        ensures
            y_top <= entry,
            raised_top(obstacles@, x as int, start as int, entry as int) == y_top,
        decreases entry - y_top,
    {
        match first_blocker(obstacles, x, y_top, entry) {
            None => {
                break;
            },
            Some(k) => {
                proof {
                    lemma_blocker(obstacles@, x as int, y_top as int, entry as int);
                    assert(obstacle_ok(obstacles@[k as int]));
                }
                y_top = obstacles[k].y1 + ROUTE_PAD_PX;
            },
        }
    }

    let top = if y_top < entry - 1 { y_top } else { entry - 1 };
    CollectorSpan { target_ord, x, y_top: top, y_bottom: entry }
}

/// The smallest value is at most each value and, when every value and `init` are at least
/// `lo`, at least `lo`.
pub proof fn lemma_min_of_bounds(s: Seq<int>, init: int, lo: int)
    ensures
        forall|j: int| 0 <= j < s.len() ==> min_of(s, init) <= #[trigger] s[j],
        min_of(s, init) <= init,
        (lo <= init && forall|j: int| 0 <= j < s.len() ==> lo <= #[trigger] s[j]) ==> lo <= min_of(s, init),
    decreases s.len(),
{
    if s.len() > 0 {
        lemma_min_of_bounds(s.drop_last(), init, lo);
        assert forall|j: int| 0 <= j < s.len() implies min_of(s, init) <= #[trigger] s[j] by {
            if j < s.len() - 1 {
                assert(s[j] == s.drop_last()[j]);
            }
        }
        if lo <= init && forall|j: int| 0 <= j < s.len() ==> lo <= #[trigger] s[j] {
            assert forall|j: int| 0 <= j < s.drop_last().len() implies lo <= #[trigger] s.drop_last()[j] by {
                assert(s.drop_last()[j] == s[j]);
            }
        }
    }
}

/// The largest value is at least each value and, when every value and `init` are at most
/// `hi`, at most `hi`.
pub proof fn lemma_max_of_bounds(s: Seq<int>, init: int, hi: int)
    ensures
        forall|j: int| 0 <= j < s.len() ==> max_of(s, init) >= #[trigger] s[j],
        max_of(s, init) >= init,
        (init <= hi && forall|j: int| 0 <= j < s.len() ==> #[trigger] s[j] <= hi) ==> max_of(s, init) <= hi,
    decreases s.len(),
{
    if s.len() > 0 {
        lemma_max_of_bounds(s.drop_last(), init, hi);
        assert forall|j: int| 0 <= j < s.len() implies max_of(s, init) >= #[trigger] s[j] by {
            if j < s.len() - 1 {
                assert(s[j] == s.drop_last()[j]);
            }
        }
        if init <= hi && forall|j: int| 0 <= j < s.len() ==> #[trigger] s[j] <= hi {
            assert forall|j: int| 0 <= j < s.drop_last().len() implies #[trigger] s.drop_last()[j] <= hi by {
                assert(s.drop_last()[j] == s[j]);
            }
        }
    }
}

/// Every lane lies in `[lo, hi]`.
pub proof fn lemma_lanes_union_within(bases: Seq<int>, lo: int, hi: int, v: int)
    requires
        lo <= hi,
        lanes_union(bases, lo, hi).contains(v),
    ensures
        lo <= v <= hi,
    decreases bases.len(),
{
    if bases.len() > 0 {
        if lanes_union(bases.drop_last(), lo, hi).contains(v) {
            lemma_lanes_union_within(bases.drop_last(), lo, hi, v);
        } else {
            let k = choose|k: int| -4 <= k <= 4 && v == #[trigger] lane(bases.last(), k, lo, hi);
        }
    }
}

/// Raising a collector top never moves it up.
pub proof fn lemma_raised_top_ge(obstacles: Seq<Obstacle>, x: int, y_top: int, entry: int)
    ensures
        raised_top(obstacles, x, y_top, entry) >= y_top,
    decreases entry - y_top,
{
    match blocker(obstacles, x, y_top, entry) {
        None => {},
        Some(k) => {
            if y_top < obstacles[k].y1 + 1 <= entry {
                lemma_raised_top_ge(obstacles, x, obstacles[k].y1 + 1, entry);
            }
        },
    }
}

} // verus!
