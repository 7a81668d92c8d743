//! Layering, ordering, and coordinate assignment over a node graph.
//!
//! Nodes are the indices `0..n` of an [`IdTable`](crate::layout::ids::IdTable), whose ids are
//! sorted, so comparing indices is comparing ids: every tie-break by id is a tie-break by index.
use vstd::prelude::*;

use crate::layout::lists::{all_below, empty_lists, insert_sorted_unique, strictly_sorted};

verus! {

/// Errors of the layering stage; node payloads are node indices.
#[derive(Debug, Clone, Copy, PartialEq, Eq)]
pub enum LayerError {
    BackboneOrderFailed,
    NodeHasNoIncoming(usize),
    MissingRank(usize),
    MissingLayer(usize),
    MissingPosition(usize),
    MissingX(usize),
}

/// The plain view of a list of node lists.
pub open spec fn view_lists(v: Seq<Vec<usize>>) -> Seq<Seq<usize>> {
    v.map_values(|l: Vec<usize>| l@)
}

/// Every edge joins nodes below `n`.
pub open spec fn edges_within(edges: Seq<(usize, usize)>, n: nat) -> bool {
    forall|k: int| 0 <= k < edges.len() ==> (#[trigger] edges[k]).0 < n && edges[k].1 < n
}

/// `out` and `inc` are the sorted successor and predecessor lists of `edges` over nodes `0..n`.
pub open spec fn is_adjacency_of(
    n: nat,
    edges: Seq<(usize, usize)>,
    out: Seq<Seq<usize>>,
    inc: Seq<Seq<usize>>,
) -> bool {
    &&& out.len() == n
    &&& inc.len() == n
    &&& forall|v: int| 0 <= v < n ==> strictly_sorted(#[trigger] out[v])
    &&& forall|v: int| 0 <= v < n ==> strictly_sorted(#[trigger] inc[v])
    &&& forall|v: usize, w: usize| v < n ==> (out[v as int].contains(w) <==> edges.contains((v, w)))
    &&& forall|v: usize, w: usize| v < n ==> (inc[v as int].contains(w) <==> edges.contains((w, v)))
}

/// Successor and predecessor lists agree with each other over nodes `0..n`.
pub open spec fn consistent_adjacency(n: nat, out: Seq<Seq<usize>>, inc: Seq<Seq<usize>>) -> bool {
    &&& out.len() == n
    &&& inc.len() == n
    &&& forall|v: int| 0 <= v < n ==> strictly_sorted(#[trigger] out[v]) && all_below(out[v], n)
    &&& forall|v: int| 0 <= v < n ==> strictly_sorted(#[trigger] inc[v]) && all_below(inc[v], n)
    &&& forall|v: usize, w: usize|
        v < n && w < n ==> (out[v as int].contains(w) <==> inc[w as int].contains(v))
}

/// Every predecessor of `v` is in `done`.
pub open spec fn preds_done(inc: Seq<Seq<usize>>, done: Set<usize>, v: usize) -> bool {
    forall|j: int| 0 <= j < inc[v as int].len() ==> done.contains(#[trigger] inc[v as int][j])
}

/// `v` is not yet placed and all its predecessors are.
pub open spec fn ready(n: nat, inc: Seq<Seq<usize>>, done: Set<usize>, v: usize) -> bool {
    v < n && !done.contains(v) && preds_done(inc, done, v)
}

/// `order` places every node of `0..n` after all of its predecessors.
pub open spec fn is_topological(n: nat, inc: Seq<Seq<usize>>, order: Seq<usize>) -> bool {
    &&& forall|v: usize| v < n ==> order.contains(v)
    &&& forall|k: int|
        0 <= k < order.len() ==> #[trigger] order[k] < n && preds_done(
            inc,
            order.take(k).to_set(),
            order[k],
        )
}

/// The graph has a topological order, i.e. no cycle.
pub open spec fn acyclic(n: nat, inc: Seq<Seq<usize>>) -> bool {
    exists|order: Seq<usize>| is_topological(n, inc, order)
}

/// Each step of `order` takes the smallest node whose predecessors are all placed.
pub open spec fn greedy_order(n: nat, inc: Seq<Seq<usize>>, order: Seq<usize>) -> bool {
    forall|k: int|
        0 <= k < order.len() ==> ready(n, inc, order.take(k).to_set(), #[trigger] order[k])
            && forall|w: usize| ready(n, inc, order.take(k).to_set(), w) ==> order[k] <= w
}

/// Number of elements of `s` outside `done`.
pub open spec fn count_undone(s: Seq<usize>, done: Set<usize>) -> nat
    decreases s.len(),
{
    if s.len() == 0 {
        0
    } else {
        count_undone(s.drop_last(), done) + (if done.contains(s.last()) {
            0nat
        } else {
            1nat
        })
    }
}

proof fn lemma_count_zero(s: Seq<usize>, done: Set<usize>)
    ensures
        count_undone(s, done) == 0 <==> forall|j: int| 0 <= j < s.len() ==> done.contains(s[j]),
        count_undone(s, done) <= s.len(),
    decreases s.len(),
{
    if s.len() > 0 {
        lemma_count_zero(s.drop_last(), done);
        if count_undone(s, done) == 0 {
            assert forall|j: int| 0 <= j < s.len() implies done.contains(s[j]) by {
                if j < s.len() - 1 {
                    assert(s.drop_last()[j] == s[j]);
                }
            }
        }
        if forall|j: int| 0 <= j < s.len() ==> done.contains(s[j]) {
            assert forall|j: int| 0 <= j < s.drop_last().len() implies done.contains(
                s.drop_last()[j],
            ) by {
                assert(s.drop_last()[j] == s[j]);
            }
        }
    }
}

proof fn lemma_count_empty(s: Seq<usize>)
    ensures
        count_undone(s, Set::empty()) == s.len(),
    decreases s.len(),
{
    if s.len() > 0 {
        lemma_count_empty(s.drop_last());
    }
}

proof fn lemma_count_insert(s: Seq<usize>, done: Set<usize>, x: usize)
    requires
        strictly_sorted(s),
        !done.contains(x),
    ensures
        s.contains(x) ==> count_undone(s, done.insert(x)) + 1 == count_undone(s, done),
        !s.contains(x) ==> count_undone(s, done.insert(x)) == count_undone(s, done),
    decreases s.len(),
{
    if s.len() > 0 {
        let t = s.drop_last();
        assert(strictly_sorted(t));
        lemma_count_insert(t, done, x);
        if s.last() == x {
            assert(!t.contains(x)) by {
                if t.contains(x) {
                    let k = choose|k: int| 0 <= k < t.len() && t[k] == x;
                    assert(s[k] < s[s.len() - 1]);
                }
            }
        } else {
            if s.contains(x) {
                let k = choose|k: int| 0 <= k < s.len() && s[k] == x;
                assert(t[k] == x);
            }
            if t.contains(x) {
                let k = choose|k: int| 0 <= k < t.len() && t[k] == x;
                assert(s[k] == x);
            }
        }
    }
}

/// Builds sorted successor and predecessor lists for `edges` over nodes `0..n`.
pub fn build_adjacency(n: usize, edges: &[(usize, usize)]) -> (r: (Vec<Vec<usize>>, Vec<Vec<usize>>))
    requires
        edges_within(edges@, n as nat),
    ensures
        is_adjacency_of(n as nat, edges@, view_lists(r.0@), view_lists(r.1@)),
{
    let mut outgoing = empty_lists(n);
    let mut incoming = empty_lists(n);
    let mut k: usize = 0;
    while k < edges.len()
        invariant
            edges_within(edges@, n as nat),
            k <= edges.len(),
            outgoing@.len() == n,
            incoming@.len() == n,
            forall|v: int| 0 <= v < n ==> strictly_sorted(#[trigger] outgoing@[v]@),
            forall|v: int| 0 <= v < n ==> strictly_sorted(#[trigger] incoming@[v]@),
            forall|v: usize, w: usize|
                v < n ==> (outgoing@[v as int]@.contains(w) <==> edges@.take(k as int).contains(
                    (v, w),
                )),
            forall|v: usize, w: usize|
                v < n ==> (incoming@[v as int]@.contains(w) <==> edges@.take(k as int).contains(
                    (w, v),
                )),
        decreases edges.len() - k,
    {
        let (a, b) = edges[k];
        let ghost before_out = outgoing@;
        let ghost before_inc = incoming@;
        insert_sorted_unique(&mut outgoing[a], b);
        insert_sorted_unique(&mut incoming[b], a);
        proof {
            let pre = edges@.take(k as int);
            let post = edges@.take(k + 1);
            assert(post =~= pre.push((a, b)));
            assert forall|v: usize, w: usize| v < n implies (outgoing@[v as int]@.contains(w)
                <==> post.contains((v, w))) by {
                if post.contains((v, w)) && !pre.contains((v, w)) {
                    let j = choose|j: int| 0 <= j < post.len() && post[j] == (v, w);
                    assert(j == k);
                }
                if pre.contains((v, w)) {
                    let j = choose|j: int| 0 <= j < pre.len() && pre[j] == (v, w);
                    assert(post[j] == (v, w));
                }
                if v != a {
                    assert(outgoing@[v as int] == before_out[v as int]);
                } else {
                    assert(outgoing@[v as int]@.contains(w) <==> (before_out[v as int]@.contains(w)
                        || w == b));
                    assert(before_out[v as int]@.contains(w) <==> pre.contains((v, w)));
                    if w == b {
                        assert(post[k as int] == (v, w));
                    }
                }
            }
            assert forall|v: usize, w: usize| v < n implies (incoming@[v as int]@.contains(w)
                <==> post.contains((w, v))) by {
                if post.contains((w, v)) && !pre.contains((w, v)) {
                    let j = choose|j: int| 0 <= j < post.len() && post[j] == (w, v);
                    assert(j == k);
                }
                if pre.contains((w, v)) {
                    let j = choose|j: int| 0 <= j < pre.len() && pre[j] == (w, v);
                    assert(post[j] == (w, v));
                }
                if v != b {
                    assert(incoming@[v as int] == before_inc[v as int]);
                } else {
                    assert(incoming@[v as int]@.contains(w) <==> (before_inc[v as int]@.contains(w)
                        || w == a));
                    assert(before_inc[v as int]@.contains(w) <==> pre.contains((w, v)));
                    if w == a {
                        assert(post[k as int] == (w, v));
                    }
                }
            }
        }
        k = k + 1;
    }
    assert(edges@.take(edges.len() as int) =~= edges@);
    (outgoing, incoming)
}

/// Successor and predecessor lists of the backbone edges over nodes `0..n`.
pub fn build_backbone_adjacency(n: usize, backbone_edges: &[(usize, usize)]) -> (r: (
    Vec<Vec<usize>>,
    Vec<Vec<usize>>,
))
    requires
        edges_within(backbone_edges@, n as nat),
    ensures
        is_adjacency_of(n as nat, backbone_edges@, view_lists(r.0@), view_lists(r.1@)),
{
    build_adjacency(n, backbone_edges)
}

/// The number of predecessors of each node.
fn initialize_in_degree(n: usize, incoming: &Vec<Vec<usize>>) -> (r: Vec<usize>)
    requires
        incoming@.len() == n,
    ensures
        r@.len() == n,
        forall|v: int| 0 <= v < n ==> #[trigger] r@[v] == incoming@[v]@.len(),
{
    let mut r: Vec<usize> = Vec::new();
    let mut v: usize = 0;
    while v < n
        invariant
            v <= n,
            incoming@.len() == n,
            r@.len() == v,
            forall|u: int| 0 <= u < v ==> #[trigger] r@[u] == incoming@[u]@.len(),
        decreases n - v,
    {
        r.push(incoming[v].len());
        v = v + 1;
    }
    r
}

/// The nodes with no predecessors, in increasing order.
fn collect_zero_in_degree(degree: &Vec<usize>) -> (r: Vec<usize>)
    ensures
        strictly_sorted(r@),
        forall|v: usize| r@.contains(v) <==> v < degree@.len() && degree@[v as int] == 0,
{
    let mut r: Vec<usize> = Vec::new();
    let mut v: usize = 0;
    while v < degree.len()
        invariant
            v <= degree@.len(),
            strictly_sorted(r@),
            all_below(r@, v as nat),
            forall|u: usize| r@.contains(u) <==> u < v && degree@[u as int] == 0,
        decreases degree.len() - v,
    {
        if degree[v] == 0 {
            let ghost before = r@;
            r.push(v);
            proof {
                assert forall|u: usize| r@.contains(u) <==> u < v + 1 && degree@[u as int] == 0 by {
                    if r@.contains(u) && u != v {
                        let k = choose|k: int| 0 <= k < r@.len() && r@[k] == u;
                        assert(before[k] == u);
                    }
                    if u < v && degree@[u as int] == 0 {
                        let k = choose|k: int| 0 <= k < before.len() && before[k] == u;
                        assert(r@[k] == u);
                    }
                    if u == v {
                        assert(r@[r@.len() - 1] == v);
                    }
                }
            }
        }
        v = v + 1;
    }
    r
}

/// Removes the first element of a non-empty list.
fn pop_front(v: &mut Vec<usize>) -> (x: usize)
    requires
        old(v)@.len() > 0,
    ensures
        x == old(v)@[0],
        final(v)@ == old(v)@.drop_first(),
{
    v.remove(0)
}

/// Topological-sort invariant over the placed prefix `order`.
spec fn kahn_state(
    n: nat,
    inc: Seq<Seq<usize>>,
    order: Seq<usize>,
    remaining: Seq<usize>,
    available: Seq<usize>,
) -> bool {
    &&& remaining.len() == n
    &&& greedy_order(n, inc, order)
    &&& forall|v: usize| v < n && !order.to_set().contains(v) ==> remaining[v as int]
        == count_undone(inc[v as int], order.to_set())
    &&& strictly_sorted(available)
    &&& forall|v: usize| available.contains(v) <==> ready(n, inc, order.to_set(), v)
}

proof fn lemma_ready_after_place(
    n: nat,
    inc: Seq<Seq<usize>>,
    out: Seq<Seq<usize>>,
    done: Set<usize>,
    x: usize,
    v: usize,
)
    requires
        consistent_adjacency(n, out, inc),
        ready(n, inc, done, x),
        v < n,
        !out[x as int].contains(v),
        v != x,
    ensures
        ready(n, inc, done.insert(x), v) == ready(n, inc, done, v),
{
    assert(!inc[v as int].contains(x));
    if ready(n, inc, done.insert(x), v) {
        assert forall|j: int| 0 <= j < inc[v as int].len() implies done.contains(
            #[trigger] inc[v as int][j],
        ) by {
            assert(done.insert(x).contains(inc[v as int][j]));
            if inc[v as int][j] == x {
                assert(inc[v as int].contains(x));
            }
        }
    }
}

/// Some node is ready whenever a topological order exists and not every node is placed.
proof fn lemma_some_ready(n: nat, inc: Seq<Seq<usize>>, topo: Seq<usize>, done: Set<usize>, v: usize)
    requires
        is_topological(n, inc, topo),
        v < n,
        !done.contains(v),
    ensures
        exists|w: usize| ready(n, inc, done, w),
{
    assert(topo.contains(v));
    let k = choose|k: int| 0 <= k < topo.len() && topo[k] == v;
    lemma_first_undone(n, inc, topo, done, k);
}

proof fn lemma_first_undone(
    n: nat,
    inc: Seq<Seq<usize>>,
    topo: Seq<usize>,
    done: Set<usize>,
    k: int,
)
    requires
        is_topological(n, inc, topo),
        0 <= k < topo.len(),
        !done.contains(topo[k]),
    ensures
        exists|w: usize| ready(n, inc, done, w),
    decreases k,
{
    let earlier = exists|m: int| 0 <= m < k && !done.contains(topo[m]);
    if earlier {
        let m = choose|m: int| 0 <= m < k && !done.contains(topo[m]);
        lemma_first_undone(n, inc, topo, done, m);
    } else {
        let w = topo[k];
        assert(preds_done(inc, topo.take(k).to_set(), w));
        assert forall|j: int| 0 <= j < inc[w as int].len() implies done.contains(
            #[trigger] inc[w as int][j],
        ) by {
            let p = inc[w as int][j];
            assert(topo.take(k).to_set().contains(p));
            let m = choose|m: int| 0 <= m < topo.take(k).len() && topo.take(k)[m] == p;
            assert(topo[m] == p);
        }
        assert(ready(n, inc, done, w));
    }
}

/// Facts about a greedy prefix: no node twice, all nodes below `n`, and fewer than `n` nodes
/// while some node is missing.
proof fn lemma_greedy_facts(n: nat, inc: Seq<Seq<usize>>, order: Seq<usize>)
    requires
        greedy_order(n, inc, order),
        n <= usize::MAX,
    ensures
        order.no_duplicates(),
        order.to_set().finite(),
        order.to_set().len() == order.len(),
        order.len() <= n,
        (exists|v: usize| v < n && !order.to_set().contains(v)) ==> order.len() < n,
        order.len() == n ==> forall|v: usize| v < n ==> order.contains(v),
{
    assert forall|i: int, j: int| 0 <= i < j < order.len() implies order[i] != order[j] by {
        assert(ready(n, inc, order.take(j).to_set(), order[j]));
        assert(order.take(j)[i] == order[i]);
        assert(order.take(j).to_set().contains(order[i]));
    }
    let all = Set::new(|v: usize| v < n);
    assert(order.to_set().subset_of(all)) by {
        assert forall|v: usize| order.to_set().contains(v) implies all.contains(v) by {
            let k = choose|k: int| 0 <= k < order.len() && order[k] == v;
            assert(ready(n, inc, order.take(k).to_set(), order[k]));
        }
    }
    order.unique_seq_to_set();
    lemma_range_set_len(n);
    vstd::set_lib::lemma_len_subset(order.to_set(), all);
    if exists|v: usize| v < n && !order.to_set().contains(v) {
        let v = choose|v: usize| v < n && !order.to_set().contains(v);
        order.to_set().lemma_subset_not_in_lt(all, v);
    }
    if order.len() == n {
        vstd::set_lib::lemma_subset_equality(order.to_set(), all);
        assert forall|v: usize| v < n implies order.contains(v) by {
            assert(all.contains(v));
            assert(order.to_set().contains(v));
        }
    }
}

/// A greedy order over all `n` nodes is topological.
proof fn lemma_greedy_topological(n: nat, inc: Seq<Seq<usize>>, order: Seq<usize>)
    requires
        greedy_order(n, inc, order),
        order.len() == n,
        n <= usize::MAX,
    ensures
        is_topological(n, inc, order),
{
    lemma_greedy_facts(n, inc, order);
    assert forall|k: int| 0 <= k < order.len() implies #[trigger] order[k] < n && preds_done(
        inc,
        order.take(k).to_set(),
        order[k],
    ) by {
        assert(ready(n, inc, order.take(k).to_set(), order[k]));
    }
}

proof fn lemma_range_set_len(n: nat)
    requires
        n <= usize::MAX,
    ensures
        Set::new(|v: usize| v < n).finite(),
        Set::new(|v: usize| v < n).len() == n,
    decreases n,
{
    let s = Set::new(|v: usize| v < n);
    if n == 0 {
        assert(s =~= Set::empty());
    } else {
        lemma_range_set_len((n - 1) as nat);
        let t = Set::new(|v: usize| v < (n - 1) as nat);
        assert(s =~= t.insert((n - 1) as usize));
    }
}

/// Decrements the remaining-predecessor count of each child; a child whose count reaches zero
/// becomes available.
fn update_in_degree(children: &Vec<usize>, remaining: &mut Vec<usize>, available: &mut Vec<usize>)
    requires
        strictly_sorted(children@),
        all_below(children@, old(remaining)@.len()),
        strictly_sorted(old(available)@),
    ensures
        final(remaining)@.len() == old(remaining)@.len(),
        forall|v: usize|
            v < old(remaining)@.len() ==> #[trigger] final(remaining)@[v as int] == if children@.contains(
                v,
            ) {
                if old(remaining)@[v as int] > 0 {
                    (old(remaining)@[v as int] - 1) as usize
                } else {
                    0
                }
            } else {
                old(remaining)@[v as int]
            },
        strictly_sorted(final(available)@),
        forall|v: usize|
            #[trigger] final(available)@.contains(v) <==> (old(available)@.contains(v) || (
                children@.contains(v) && old(remaining)@[v as int] <= 1)),
{
    let mut i: usize = 0;
    while i < children.len()
        invariant
            strictly_sorted(children@),
            all_below(children@, old(remaining)@.len()),
            i <= children.len(),
            remaining@.len() == old(remaining)@.len(),
            forall|v: usize|
                v < old(remaining)@.len() ==> #[trigger] remaining@[v as int] == if children@.take(
                    i as int,
                ).contains(v) {
                    if old(remaining)@[v as int] > 0 {
                        (old(remaining)@[v as int] - 1) as usize
                    } else {
                        0
                    }
                } else {
                    old(remaining)@[v as int]
                },
            strictly_sorted(available@),
            forall|v: usize|
                #[trigger] available@.contains(v) <==> (old(available)@.contains(v) || (children@.take(
                    i as int,
                ).contains(v) && old(remaining)@[v as int] <= 1)),
        decreases children.len() - i,
    {
        let child = children[i];
        let ghost pre_rem = remaining@;
        let ghost pre_avail = available@;
        proof {
            assert(!children@.take(i as int).contains(child)) by {
                if children@.take(i as int).contains(child) {
                    let k = choose|k: int| 0 <= k < i && children@.take(i as int)[k] == child;
                    assert(children@[k] < children@[i as int]);
                }
            }
        }
        let old_count = remaining[child];
        let new_count: usize = if old_count > 0 {
            old_count - 1
        } else {
            0
        };
        remaining.set(child, new_count);
        if new_count == 0 {
            insert_sorted_unique(available, child);
        }
        proof {
            let pre = children@.take(i as int);
            let post = children@.take(i + 1);
            assert(post =~= pre.push(child));
            assert forall|v: usize| #[trigger] post.contains(v) <==> (pre.contains(v) || v == child) by {
                if post.contains(v) && v != child {
                    let k = choose|k: int| 0 <= k < post.len() && post[k] == v;
                    assert(pre[k] == v);
                }
                if pre.contains(v) {
                    let k = choose|k: int| 0 <= k < pre.len() && pre[k] == v;
                    assert(post[k] == v);
                }
                if v == child {
                    assert(post[i as int] == v);
                }
            }
            assert forall|v: usize| v < old(remaining)@.len() implies #[trigger] remaining@[v as int]
                == if post.contains(v) {
                if old(remaining)@[v as int] > 0 {
                    (old(remaining)@[v as int] - 1) as usize
                } else {
                    0
                }
            } else {
                old(remaining)@[v as int]
            } by {
                if v == child {
                    assert(post.contains(child));
                } else {
                    assert(remaining@[v as int] == pre_rem[v as int]);
                    assert(post.contains(v) == pre.contains(v));
                }
            }
        }
        i = i + 1;
    }
    assert(children@.take(children.len() as int) =~= children@);
}

/// Nodes in deterministic topological order: each step places the smallest node whose
/// predecessors are all placed. Fails exactly when the graph has a cycle.
pub fn topo_sort(n: usize, outgoing: &Vec<Vec<usize>>, incoming: &Vec<Vec<usize>>) -> (r: Result<
    Vec<usize>,
    LayerError,
>)
    requires
        consistent_adjacency(n as nat, view_lists(outgoing@), view_lists(incoming@)),
    ensures
        r is Ok <==> acyclic(n as nat, view_lists(incoming@)),
        r matches Ok(order) ==> order@.len() == n && greedy_order(
            n as nat,
            view_lists(incoming@),
            order@,
        ) && is_topological(n as nat, view_lists(incoming@), order@),
        r matches Err(e) ==> e == LayerError::BackboneOrderFailed,
{
    let ghost inc = view_lists(incoming@);
    let ghost out = view_lists(outgoing@);
    let degree = initialize_in_degree(n, incoming);
    let mut available = collect_zero_in_degree(&degree);
    let mut remaining = degree;
    let mut order: Vec<usize> = Vec::new();
    proof {
        assert(order@.to_set() =~= Set::<usize>::empty());
        assert forall|v: usize| v < n implies remaining@[v as int] == count_undone(
            inc[v as int],
            order@.to_set(),
        ) by {
            lemma_count_empty(inc[v as int]);
        }
        assert forall|v: usize| available@.contains(v) <==> ready(
            n as nat,
            inc,
            order@.to_set(),
            v,
        ) by {
            if v < n {
                lemma_count_empty(inc[v as int]);
                lemma_count_zero(inc[v as int], order@.to_set());
            }
        }
        assert(greedy_order(n as nat, inc, order@));
    }
    while available.len() > 0
        invariant
            consistent_adjacency(n as nat, out, inc),
            inc == view_lists(incoming@),
            out == view_lists(outgoing@),
            kahn_state(n as nat, inc, order@, remaining@, available@),
        decreases n - order@.len(),
    {
        let ghost done = order@.to_set();
        let ghost avail0 = available@;
        let ghost rem0 = remaining@;
        let ghost order0 = order@;
        let next = pop_front(&mut available);
        proof {
            assert(avail0[0] == next);
            assert(avail0.contains(next));
            assert(ready(n as nat, inc, done, next));
            lemma_greedy_facts(n as nat, inc, order0);
            assert(!inc[next as int].contains(next)) by {
                if inc[next as int].contains(next) {
                    let j = choose|j: int| 0 <= j < inc[next as int].len() && inc[next as int][j] == next;
                    assert(done.contains(inc[next as int][j]));
                }
            }
        }
        order.push(next);
        proof {
            assert(order@ == order0.push(next));
            order0.lemma_push_to_set_commute(next);
            assert(order@.to_set() =~= done.insert(next));
            assert(order@.take(order0.len() as int) =~= order0);
            assert forall|k: int| 0 <= k < order@.len() implies ready(
                n as nat,
                inc,
                order@.take(k).to_set(),
                #[trigger] order@[k],
            ) && forall|w: usize| ready(n as nat, inc, order@.take(k).to_set(), w) ==> order@[k] <= w by {
                if k < order0.len() {
                    assert(order@.take(k) =~= order0.take(k));
                    assert(order@[k] == order0[k]);
                } else {
                    assert forall|w: usize| ready(n as nat, inc, order@.take(k).to_set(), w) implies next
                        <= w by {
                        assert(avail0.contains(w));
                        let j = choose|j: int| 0 <= j < avail0.len() && avail0[j] == w;
                        if j > 0 {
                            assert(avail0[0] < avail0[j]);
                        }
                    }
                }
            }
        }
        let ghost avail1 = available@;
        assert(avail1 == avail0.drop_first());
        let kids_vec = &outgoing[next];
        assert(kids_vec@ == out[next as int]);
        assert(remaining@ == rem0);
        assert(available@ == avail1);
        update_in_degree(kids_vec, &mut remaining, &mut available);
        assert(strictly_sorted(available@));
        assert forall|v: usize| available@.contains(v) <==> (avail1.contains(v) || (kids_vec@.contains(v)
                && rem0[v as int] <= 1)) by {
            assert(available@.contains(v) <==> (avail1.contains(v) || (kids_vec@.contains(v)
                && rem0[v as int] <= 1)));
        }
        proof {
            let done2 = order@.to_set();
            let kids = out[next as int];
            assert(kids == outgoing@[next as int]@);
            assert forall|v: usize| v < n && !done2.contains(v) implies remaining@[v as int]
                == count_undone(inc[v as int], done2) by {
                assert(kids.contains(v) <==> inc[v as int].contains(next));
                lemma_count_insert(inc[v as int], done, next);
            }
            assert(done2 =~= done.insert(next));
            assert forall|v: usize| available@.contains(v) <==> ready(n as nat, inc, done2, v) by {
                assert(available@.contains(v) <==> (avail1.contains(v) || (kids.contains(v)
                    && rem0[v as int] <= 1)));
                assert(avail0.drop_first().contains(v) <==> (avail0.contains(v) && v != next)) by {
                    if avail0.drop_first().contains(v) {
                        let j = choose|j: int| 0 <= j < avail0.drop_first().len() && avail0.drop_first()[j] == v;
                        assert(avail0[j + 1] == v);
                        assert(avail0[0] < avail0[j + 1]);
                    }
                    if avail0.contains(v) && v != next {
                        let j = choose|j: int| 0 <= j < avail0.len() && avail0[j] == v;
                        assert(j != 0);
                        assert(avail0.drop_first()[j - 1] == v);
                    }
                }
                if v >= n {
                    assert(!kids.contains(v)) by {
                        if kids.contains(v) {
                            let j = choose|j: int| 0 <= j < kids.len() && kids[j] == v;
                            assert(all_below(kids, n as nat));
                        }
                    }
                    assert(!avail0.contains(v));
                } else if v == next {
                    assert(!kids.contains(next));
                    assert(done2.contains(next));
                } else if kids.contains(v) {
                    assert(inc[v as int].contains(next));
                    assert(!done.contains(v)) by {
                        if done.contains(v) {
                            let k = choose|k: int| 0 <= k < order0.len() && order0[k] == v;
                            assert(ready(n as nat, inc, order0.take(k).to_set(), order0[k]));
                            let j = choose|j: int| 0 <= j < inc[v as int].len() && inc[v as int][j] == next;
                            assert(order0.take(k).to_set().contains(next));
                            let m = choose|m: int| 0 <= m < order0.take(k).len() && order0.take(k)[m] == next;
                            assert(order0[m] == next);
                            assert(done.contains(next));
                        }
                    }
                    lemma_count_insert(inc[v as int], done, next);
                    lemma_count_zero(inc[v as int], done2);
                    assert(!avail0.contains(v)) by {
                        if avail0.contains(v) {
                            let j = choose|j: int| 0 <= j < inc[v as int].len() && inc[v as int][j] == next;
                            assert(done.contains(inc[v as int][j]));
                        }
                    }
                    assert(rem0[v as int] == count_undone(inc[v as int], done));
                } else {
                    lemma_ready_after_place(n as nat, inc, out, done, next, v);
                }
            }
        }
    }
    proof {
        lemma_greedy_facts(n as nat, inc, order@);
    }
    if order.len() != n {
        proof {
            if acyclic(n as nat, inc) {
                let topo = choose|topo: Seq<usize>| is_topological(n as nat, inc, topo);
                if forall|v: usize| v < n ==> order@.to_set().contains(v) {
                    let all = Set::new(|v: usize| v < n);
                    assert(all.subset_of(order@.to_set()));
                    lemma_range_set_len(n as nat);
                    vstd::set_lib::lemma_len_subset(all, order@.to_set());
                    assert(false);
                }
                let v = choose|v: usize| v < n && !order@.to_set().contains(v);
                lemma_some_ready(n as nat, inc, topo, order@.to_set(), v);
                let w = choose|w: usize| ready(n as nat, inc, order@.to_set(), w);
                assert(available@.contains(w));
            }
        }
        return Err(LayerError::BackboneOrderFailed);
    }
    proof {
        lemma_greedy_topological(n as nat, inc, order@);
    }
    Ok(order)
}

/// Every known rank is a non-negative `i32` below `bound`.
pub open spec fn ranks_bounded(rank: Seq<Option<i32>>, bound: int) -> bool {
    forall|v: int| 0 <= v < rank.len() ==> (#[trigger] rank[v] matches Some(r) ==> 0 <= r < bound)
}

/// `p` has a rank, and one more than it is at most `bound`.
pub open spec fn ranked_below(rank: Seq<Option<i32>>, p: usize, bound: int) -> bool {
    match rank[p as int] {
        Some(x) => x + 1 <= bound,
        None => false,
    }
}

/// `best` is one more than the largest rank among `preds`, all of which are ranked.
pub open spec fn one_above_preds(rank: Seq<Option<i32>>, preds: Seq<usize>, best: int) -> bool {
    &&& preds.len() > 0
    &&& forall|j: int| 0 <= j < preds.len() ==> ranked_below(rank, #[trigger] preds[j], best)
    &&& exists|j: int| 0 <= j < preds.len() && rank[#[trigger] preds[j] as int] == Some((best - 1) as i32)
}

/// `v` is ranked one above the largest rank among its predecessors.
pub open spec fn longest_path_rank(rank: Seq<Option<i32>>, preds: Seq<usize>, v: usize) -> bool {
    match rank[v as int] {
        Some(x) => one_above_preds(rank, preds, x as int),
        None => false,
    }
}

/// One more than the largest rank among the predecessors of a node.
fn max_parent_rank(node: usize, incoming: &Vec<Vec<usize>>, rank: &Vec<Option<i32>>) -> (r: Result<
    i32,
    LayerError,
>)
    requires
        node < incoming@.len(),
        all_below(incoming@[node as int]@, rank@.len()),
        ranks_bounded(rank@, i32::MAX as int),
    ensures
        ({
            let preds = incoming@[node as int]@;
            match r {
                Ok(best) => one_above_preds(rank@, preds, best as int),
                Err(LayerError::NodeHasNoIncoming(v)) => v == node && preds.len() == 0,
                Err(LayerError::MissingRank(p)) => preds.contains(p) && rank@[p as int] is None,
                Err(_) => false,
            }
        }),
        r is Ok <==> (incoming@[node as int]@.len() > 0 && forall|j: int|
            0 <= j < incoming@[node as int]@.len() ==> rank@[incoming@[node as int]@[j] as int] is Some),
{
    let preds = &incoming[node];
    if preds.len() == 0 {
        return Err(LayerError::NodeHasNoIncoming(node));
    }
    let mut best: i32 = 0;
    let mut j: usize = 0;
    while j < preds.len()
        invariant
            preds@ == incoming@[node as int]@,
            preds@.len() > 0,
            all_below(preds@, rank@.len()),
            ranks_bounded(rank@, i32::MAX as int),
            j <= preds@.len(),
            forall|m: int| 0 <= m < j ==> ranked_below(rank@, #[trigger] preds@[m], best as int),
            j > 0 ==> exists|m: int| 0 <= m < j && rank@[#[trigger] preds@[m] as int] == Some((best - 1) as i32),
        decreases preds@.len() - j,
    {
        let p = preds[j];
        match rank[p] {
            None => {
                assert(preds@.contains(p));
                return Err(LayerError::MissingRank(p));
            },
            Some(x) => {
                let candidate = x + 1;
                if j == 0 || candidate > best {
                    best = candidate;
                }
            },
        }
        j = j + 1;
    }
    Ok(best)
}

/// Longest-path ranks: roots get 0; each other node of `order` gets one more than the largest
/// rank of its predecessors.
pub open spec fn rank_ready(
    roots: Seq<usize>,
    order: Seq<usize>,
    inc: Seq<Seq<usize>>,
    k: int,
) -> bool {
    let v = order[k];
    let known = |p: usize| roots.contains(p) || order.take(k).contains(p);
    known(v) || (inc[v as int].len() > 0 && forall|j: int|
        0 <= j < inc[v as int].len() ==> known(#[trigger] inc[v as int][j]))
}

/// Assigns longest-path ranks from the roots, visiting nodes in `order`.
pub fn assign_ranks(roots: &[usize], order: &[usize], incoming: &Vec<Vec<usize>>) -> (r: Result<
    Vec<Option<i32>>,
    LayerError,
>)
    requires
        all_below(roots@, incoming@.len()),
        all_below(order@, incoming@.len()),
        forall|v: int| 0 <= v < incoming@.len() ==> all_below(#[trigger] incoming@[v]@, incoming@.len()),
        order@.len() < i32::MAX,
    ensures
        r is Ok <==> forall|k: int| 0 <= k < order@.len() ==> rank_ready(
            roots@,
            order@,
            view_lists(incoming@),
            k,
        ),
        r matches Ok(rank) ==> {
            &&& rank@.len() == incoming@.len()
            &&& forall|v: usize|
                v < incoming@.len() ==> (rank@[v as int] is Some <==> (roots@.contains(v)
                    || order@.contains(v)))
            &&& forall|v: usize| #[trigger] roots@.contains(v) ==> rank@[v as int] == Some(0i32)
            &&& forall|v: usize|
                order@.contains(v) && !roots@.contains(v) ==> longest_path_rank(rank@, incoming@[v as int]@, v)
            &&& ranks_bounded(rank@, order@.len() + 1int)
        },
        r matches Err(e) ==> (e is NodeHasNoIncoming || e is MissingRank),
{
    let n = incoming.len();
    let mut rank: Vec<Option<i32>> = Vec::new();
    let mut v: usize = 0;
    while v < n
        invariant
            v <= n,
            n == incoming@.len(),
            rank@.len() == v,
            forall|u: int| 0 <= u < v ==> rank@[u] is None,
        decreases n - v,
    {
        rank.push(None);
        v = v + 1;
    }
    let mut k: usize = 0;
    while k < roots.len()
        invariant
            k <= roots@.len(),
            n == incoming@.len(),
            rank@.len() == n,
            all_below(roots@, n as nat),
            forall|u: usize| u < n ==> (#[trigger] rank@[u as int] is Some <==> roots@.take(k as int).contains(u)),
            forall|u: usize| u < n ==> (rank@[u as int] is Some ==> rank@[u as int] == Some(0i32)),
        decreases roots@.len() - k,
    {
        let root = roots[k];
        rank.set(root, Some(0));
        proof {
            let pre = roots@.take(k as int);
            let post = roots@.take(k + 1);
            assert(post =~= pre.push(root));
            assert forall|u: usize| u < n implies (#[trigger] rank@[u as int] is Some <==> post.contains(u)) by {
                if post.contains(u) && u != root {
                    let m = choose|m: int| 0 <= m < post.len() && post[m] == u;
                    assert(pre[m] == u);
                }
                if pre.contains(u) {
                    let m = choose|m: int| 0 <= m < pre.len() && pre[m] == u;
                    assert(post[m] == u);
                }
                if u == root {
                    assert(post[k as int] == u);
                }
            }
        }
        k = k + 1;
    }
    assert(roots@.take(roots@.len() as int) =~= roots@);
    let ghost inc = view_lists(incoming@);
    let mut i: usize = 0;
    while i < order.len()
        invariant
            i <= order@.len(),
            order@.len() < i32::MAX,
            n == incoming@.len(),
            inc == view_lists(incoming@),
            rank@.len() == n,
            all_below(roots@, n as nat),
            all_below(order@, n as nat),
            forall|v: int| 0 <= v < n ==> all_below(#[trigger] incoming@[v]@, n as nat),
            forall|u: usize|
                u < n ==> (#[trigger] rank@[u as int] is Some <==> (roots@.contains(u) || order@.take(
                    i as int,
                ).contains(u))),
            forall|u: usize| #[trigger] roots@.contains(u) ==> rank@[u as int] == Some(0i32),
            forall|u: usize|
                order@.take(i as int).contains(u) && !roots@.contains(u) ==> longest_path_rank(rank@, incoming@[u as int]@, u),
            ranks_bounded(rank@, i + 1int),
            forall|m: int| 0 <= m < i ==> rank_ready(roots@, order@, inc, m),
        decreases order@.len() - i,
    {
        let node = order[i];
        let pre = Ghost(order@.take(i as int));
        let post = Ghost(order@.take(i + 1));
        proof {
            assert(post@ =~= pre@.push(node));
            assert forall|u: usize| #[trigger] post@.contains(u) <==> (pre@.contains(u) || u == node) by {
                if post@.contains(u) && u != node {
                    let m = choose|m: int| 0 <= m < post@.len() && post@[m] == u;
                    assert(pre@[m] == u);
                }
                if pre@.contains(u) {
                    let m = choose|m: int| 0 <= m < pre@.len() && pre@[m] == u;
                    assert(post@[m] == u);
                }
                if u == node {
                    assert(post@[i as int] == u);
                }
            }
        }
        if rank[node].is_some() {
            proof {
                assert(rank_ready(roots@, order@, inc, i as int));
            }
            i = i + 1;
            continue;
        }
        let next_rank = match max_parent_rank(node, incoming, &rank) {
            Ok(x) => x,
            Err(e) => {
                proof {
                    assert(!rank_ready(roots@, order@, inc, i as int)) by {
                        let preds = incoming@[node as int]@;
                        if preds.len() > 0 {
                            let j = choose|j: int| 0 <= j < preds.len() && rank@[preds[j] as int] is None;
                            assert(!roots@.contains(preds[j]));
                            assert(!order@.take(i as int).contains(preds[j]));
                        }
                    }
                }
                return Err(e);
            },
        };
        rank.set(node, Some(next_rank));
        proof {
            assert(rank_ready(roots@, order@, inc, i as int)) by {
                let preds = incoming@[node as int]@;
                assert forall|j: int| 0 <= j < preds.len() implies (roots@.contains(#[trigger] inc[node as int][j])
                    || order@.take(i as int).contains(inc[node as int][j])) by {
                    assert(inc[node as int] == preds);
                }
            }
        }
        i = i + 1;
    }
    proof {
        assert(order@.take(order@.len() as int) =~= order@);
    }
    Ok(rank)
}

/// The largest rank, or 0 when there is none larger.
fn max_rank(rank: &Vec<Option<i32>>) -> (m: i32)
    ensures
        m >= 0,
        forall|v: int| 0 <= v < rank@.len() ==> (#[trigger] rank@[v] matches Some(x) ==> x <= m),
        m == 0 || exists|v: int| 0 <= v < rank@.len() && rank@[v] == Some(m),
{
    let mut m: i32 = 0;
    let mut v: usize = 0;
    while v < rank.len()
        invariant
            v <= rank@.len(),
            m >= 0,
            forall|u: int| 0 <= u < v ==> (#[trigger] rank@[u] matches Some(x) ==> x <= m),
            m == 0 || exists|u: int| 0 <= u < v && rank@[u] == Some(m),
        decreases rank@.len() - v,
    {
        if let Some(x) = rank[v] {
            if x > m {
                m = x;
            }
        }
        v = v + 1;
    }
    m
}

/// `v` has rank `y`.
pub open spec fn has_rank(rank: Seq<Option<i32>>, v: int, y: int) -> bool {
    0 <= v < rank.len() && match rank[v] {
        Some(x) => x == y,
        None => false,
    }
}

/// The nodes of each rank `0..=max_rank`, in increasing node order.
fn group_by_rank(rank: &Vec<Option<i32>>, max_rank: usize) -> (layers: Vec<Vec<usize>>)
    requires
        max_rank < usize::MAX,
    ensures
        layers@.len() == max_rank + 1,
        forall|y: int| 0 <= y <= max_rank ==> strictly_sorted(#[trigger] layers@[y]@),
        forall|y: int, v: usize|
            0 <= y <= max_rank ==> (#[trigger] layers@[y]@.contains(v) <==> has_rank(rank@, v as int, y)),
{
    let mut layers = empty_lists(max_rank + 1);
    let mut v: usize = 0;
    while v < rank.len()
        invariant
            v <= rank@.len(),
            max_rank < usize::MAX,
            layers@.len() == max_rank + 1,
            forall|y: int| 0 <= y <= max_rank ==> strictly_sorted(#[trigger] layers@[y]@),
            forall|y: int, u: usize|
                0 <= y <= max_rank ==> (#[trigger] layers@[y]@.contains(u) <==> u < v && has_rank(
                    rank@,
                    u as int,
                    y,
                )),
            forall|y: int| 0 <= y <= max_rank ==> all_below(#[trigger] layers@[y]@, v as nat),
        decreases rank@.len() - v,
    {
        let ghost before = layers@;
        if let Some(x) = rank[v] {
            if x >= 0 && (x as usize) <= max_rank {
                let y = x as usize;
                layers[y].push(v);
                proof {
                    assert forall|z: int, u: usize| 0 <= z <= max_rank implies (#[trigger] layers@[z]@.contains(u)
                        <==> u < v + 1 && has_rank(rank@, u as int, z)) by {
                        if z != y {
                            assert(layers@[z] == before[z]);
                        } else {
                            if layers@[z]@.contains(u) && u != v {
                                let k = choose|k: int| 0 <= k < layers@[z]@.len() && layers@[z]@[k] == u;
                                assert(before[z]@[k] == u);
                                assert(before[z]@.contains(u));
                            }
                            if u < v && has_rank(rank@, u as int, z) {
                                assert(before[z]@.contains(u));
                                let k = choose|k: int| 0 <= k < before[z]@.len() && before[z]@[k] == u;
                                assert(layers@[z]@[k] == u);
                            }
                            if u == v {
                                assert(layers@[z]@[layers@[z]@.len() - 1] == v);
                            }
                        }
                    }
                    assert forall|z: int| 0 <= z <= max_rank implies strictly_sorted(#[trigger] layers@[z]@)
                        && all_below(layers@[z]@, (v + 1) as nat) by {
                        if z != y {
                            assert(layers@[z] == before[z]);
                        } else {
                            assert(all_below(before[z]@, v as nat));
                        }
                    }
                }
            } else {
                proof {
                    assert forall|z: int, u: usize| 0 <= z <= max_rank implies (#[trigger] layers@[z]@.contains(u)
                        <==> u < v + 1 && has_rank(rank@, u as int, z)) by {
                        assert(layers@[z] == before[z]);
                    }
                }
            }
        } else {
            proof {
                assert forall|z: int, u: usize| 0 <= z <= max_rank implies (#[trigger] layers@[z]@.contains(u)
                    <==> u < v + 1 && has_rank(rank@, u as int, z)) by {
                    assert(layers@[z] == before[z]);
                }
            }
        }
        proof {
            if layers@ == before {
                assert forall|z: int| 0 <= z <= max_rank implies all_below(#[trigger] layers@[z]@, (v + 1) as nat) by {
                    assert(all_below(layers@[z]@, v as nat));
                }
            }
        }
        v = v + 1;
    }
    layers
}

/// Strict order by key, then by node.
pub open spec fn pair_lt(a: (u64, usize), b: (u64, usize)) -> bool {
    a.0 < b.0 || (a.0 == b.0 && a.1 < b.1)
}

/// Strictly increasing by key, then by node.
pub open spec fn sorted_pairs(s: Seq<(u64, usize)>) -> bool {
    forall|i: int, j: int| 0 <= i < j < s.len() ==> pair_lt(s[i], s[j])
}

/// Sorts keyed nodes by key, then by node.
pub(crate) fn sort_pairs(items: &Vec<(u64, usize)>) -> (r: Vec<(u64, usize)>)
    requires
        items@.no_duplicates(),
    ensures
        sorted_pairs(r@),
        r@.len() == items@.len(),
        forall|x: (u64, usize)| r@.contains(x) <==> items@.contains(x),
{
    let mut r: Vec<(u64, usize)> = Vec::new();
    let mut k: usize = 0;
    while k < items.len()
        invariant
            items@.no_duplicates(),
            k <= items@.len(),
            sorted_pairs(r@),
            r@.len() == k,
            forall|x: (u64, usize)| r@.contains(x) <==> items@.take(k as int).contains(x),
        decreases items@.len() - k,
    {
        let x = items[k];
        let mut i: usize = 0;
        while i < r.len() && (r[i].0 < x.0 || (r[i].0 == x.0 && r[i].1 < x.1))
            invariant
                i <= r@.len(),
                forall|m: int| 0 <= m < i ==> pair_lt(r@[m], x),
            decreases r@.len() - i,
        {
            i = i + 1;
        }
        let ghost before = r@;
        proof {
            assert(!before.contains(x)) by {
                if before.contains(x) {
                    let m = choose|m: int| 0 <= m < k && items@.take(k as int)[m] == x;
                    assert(items@[m] == items@[k as int]);
                }
            }
            assert forall|m: int| i <= m < before.len() implies pair_lt(x, before[m]) by {
                if m > i {
                    assert(pair_lt(before[i as int], before[m]));
                }
                assert(before[i as int] != x);
            }
        }
        r.insert(i, x);
        proof {
            let pre = items@.take(k as int);
            let post = items@.take(k + 1);
            assert(post =~= pre.push(x));
            assert forall|y: (u64, usize)| r@.contains(y) <==> post.contains(y) by {
                if r@.contains(y) {
                    let m = choose|m: int| 0 <= m < r@.len() && r@[m] == y;
                    if m < i {
                        assert(before[m] == y);
                    } else if m > i {
                        assert(before[m - 1] == y);
                    }
                    if y != x {
                        assert(before.contains(y));
                        let t = choose|t: int| 0 <= t < pre.len() && pre[t] == y;
                        assert(post[t] == y);
                    } else {
                        assert(post[k as int] == x);
                    }
                }
                if post.contains(y) {
                    let t = choose|t: int| 0 <= t < post.len() && post[t] == y;
                    if t < k {
                        assert(pre[t] == y);
                        assert(before.contains(y));
                        let m = choose|m: int| 0 <= m < before.len() && before[m] == y;
                        if m < i {
                            assert(r@[m] == y);
                        } else {
                            assert(r@[m + 1] == y);
                        }
                    } else {
                        assert(r@[i as int] == x);
                    }
                }
            }
        }
        k = k + 1;
    }
    assert(items@.take(items@.len() as int) =~= items@);
    r
}

/// Arrangement that puts the even positions of `s` first and then the odd positions in
/// reverse, so the later (heavier) entries of `s` gather in the middle.
pub open spec fn centered(s: Seq<usize>) -> Seq<usize> {
    Seq::new(
        s.len(),
        |i: int|
            if i < (s.len() + 1) / 2 {
                s[2 * i]
            } else {
                s[2 * (s.len() - 1 - i) + 1]
            },
    )
}

/// `s` lists nodes strictly increasing by (count, node).
pub open spec fn sorted_by_count(counts: Seq<usize>, s: Seq<usize>) -> bool {
    forall|i: int, j: int|
        0 <= i < j < s.len() ==> counts[s[i] as int] < counts[s[j] as int] || (counts[s[i] as int]
            == counts[s[j] as int] && s[i] < s[j])
}

/// `layer` holds exactly the nodes of `members`, sorted by (incoming count, node) and then
/// arranged by [`centered`].
pub open spec fn arranged_by_count(counts: Seq<usize>, members: Set<usize>, layer: Seq<usize>) -> bool {
    exists|s: Seq<usize>|
        #![trigger centered(s)]
        sorted_by_count(counts, s) && s.to_set() == members && layer == centered(s)
}

/// Orders a layer by incoming count then id, and centers the heaviest nodes.
fn incoming_heavy_centered(layer: &Vec<usize>, incoming_count: &Vec<usize>) -> (r: Vec<usize>)
    requires
        strictly_sorted(layer@),
        all_below(layer@, incoming_count@.len()),
    ensures
        arranged_by_count(incoming_count@, layer@.to_set(), r@),
        r@.len() == layer@.len(),
{
    let mut items: Vec<(u64, usize)> = Vec::new();
    let mut k: usize = 0;
    while k < layer.len()
        invariant
            strictly_sorted(layer@),
            all_below(layer@, incoming_count@.len()),
            k <= layer@.len(),
            items@.len() == k,
            forall|m: int| 0 <= m < k ==> #[trigger] items@[m] == (incoming_count@[layer@[m] as int] as u64, layer@[m]),
        decreases layer@.len() - k,
    {
        let v = layer[k];
        items.push((incoming_count[v] as u64, v));
        k = k + 1;
    }
    proof {
        assert(items@.no_duplicates()) by {
            assert forall|i: int, j: int| 0 <= i < j < items@.len() implies items@[i] != items@[j] by {
                assert(layer@[i] < layer@[j]);
            }
        }
    }
    let sorted = sort_pairs(&items);
    let mut odd: Vec<usize> = Vec::new();
    let mut even: Vec<usize> = Vec::new();
    let ghost s = sorted@.map_values(|p: (u64, usize)| p.1);
    let mut i: usize = 0;
    while i < sorted.len()
        invariant
            i <= sorted@.len(),
            s == sorted@.map_values(|p: (u64, usize)| p.1),
            odd@.len() == (i + 1) / 2,
            even@.len() == i / 2,
            forall|m: int| 0 <= m < odd@.len() ==> #[trigger] odd@[m] == s[2 * m],
            forall|m: int| 0 <= m < even@.len() ==> #[trigger] even@[m] == s[2 * m + 1],
        decreases sorted@.len() - i,
    {
        if i % 2 == 0 {
            odd.push(sorted[i].1);
        } else {
            even.push(sorted[i].1);
        }
        i = i + 1;
    }
    let mut r = odd;
    let mut j: usize = even.len();
    let ghost h = r@.len();
    while j > 0
        invariant
            j <= even@.len(),
            h == (s.len() + 1) / 2,
            even@.len() == s.len() / 2,
            r@.len() == h + (even@.len() - j),
            forall|m: int| 0 <= m < h ==> #[trigger] r@[m] == s[2 * m],
            forall|m: int| h <= m < r@.len() ==> #[trigger] r@[m] == even@[even@.len() - 1 - (m - h)],
            forall|m: int| 0 <= m < even@.len() ==> #[trigger] even@[m] == s[2 * m + 1],
        decreases j,
    {
        r.push(even[j - 1]);
        j = j - 1;
    }
    proof {
        assert(r@ =~= centered(s));
        assert(sorted_by_count(incoming_count@, s)) by {
            assert forall|a: int, b: int| 0 <= a < b < s.len() implies incoming_count@[s[a] as int]
                < incoming_count@[s[b] as int] || (incoming_count@[s[a] as int] == incoming_count@[s[b] as int]
                && s[a] < s[b]) by {
                assert(pair_lt(sorted@[a], sorted@[b]));
                assert(sorted@.contains(sorted@[a]));
                assert(items@.contains(sorted@[a]));
                assert(items@.contains(sorted@[b]));
                let ia = choose|t: int| 0 <= t < items@.len() && items@[t] == sorted@[a];
                let ib = choose|t: int| 0 <= t < items@.len() && items@[t] == sorted@[b];
                assert(items@[ia] == (incoming_count@[layer@[ia] as int] as u64, layer@[ia]));
                assert(items@[ib] == (incoming_count@[layer@[ib] as int] as u64, layer@[ib]));
            }
        }
        assert forall|v: usize| s.contains(v) <==> layer@.contains(v) by {
            if s.contains(v) {
                let t = choose|t: int| 0 <= t < s.len() && s[t] == v;
                assert(sorted@.contains(sorted@[t]));
                assert(items@.contains(sorted@[t]));
                let m = choose|m: int| 0 <= m < items@.len() && items@[m] == sorted@[t];
                assert(layer@[m] == v);
            }
            if layer@.contains(v) {
                let m = choose|m: int| 0 <= m < layer@.len() && layer@[m] == v;
                assert(items@.contains(items@[m]));
                assert(sorted@.contains(items@[m]));
                let t = choose|t: int| 0 <= t < sorted@.len() && sorted@[t] == items@[m];
                assert(s[t] == v);
            }
        }
        assert(s.to_set() =~= layer@.to_set());
        assert(arranged_by_count(incoming_count@, layer@.to_set(), r@));
    }
    r
}

/// The nodes of rank `y`.
pub open spec fn rank_members(rank: Seq<Option<i32>>, y: int) -> Set<usize> {
    Set::new(|v: usize| has_rank(rank, v as int, y))
}

/// Layers of the ranked nodes: layer `y` holds the nodes of rank `y`, ordered by incoming
/// count then node and centered; also returns the largest rank.
pub fn build_layers(rank: &Vec<Option<i32>>, incoming_count: &Vec<usize>) -> (r: Result<
    (Vec<Vec<usize>>, usize),
    LayerError,
>)
    requires
        incoming_count@.len() == rank@.len(),
    ensures
        r matches Ok((layers, max)) && {
            &&& forall|v: int| 0 <= v < rank@.len() ==> (#[trigger] rank@[v] matches Some(x) ==> x <= max)
            &&& (max == 0 || exists|v: int| 0 <= v < rank@.len() && rank@[v] == Some(max as i32))
            &&& max <= i32::MAX
            &&& layers@.len() == max + 1
            &&& forall|y: int|
                0 <= y <= max ==> arranged_by_count(incoming_count@, rank_members(rank@, y), (#[trigger] layers@[y])@)
        },
{
    let m = max_rank(rank);
    let max = m as usize;
    let grouped = group_by_rank(rank, max);
    let mut layers: Vec<Vec<usize>> = Vec::new();
    let mut y: usize = 0;
    while y <= max
        invariant
            y <= max + 1,
            max < usize::MAX,
            grouped@.len() == max + 1,
            incoming_count@.len() == rank@.len(),
            layers@.len() == y,
            forall|z: int| 0 <= z <= max ==> strictly_sorted(#[trigger] grouped@[z]@),
            forall|z: int, v: usize|
                0 <= z <= max ==> (#[trigger] grouped@[z]@.contains(v) <==> has_rank(rank@, v as int, z)),
            forall|z: int|
                0 <= z < y ==> arranged_by_count(incoming_count@, rank_members(rank@, z), (#[trigger] layers@[z])@),
        decreases max + 1 - y,
    {
        proof {
            assert forall|v: int| 0 <= v < grouped@[y as int]@.len() implies grouped@[y as int]@[v] < incoming_count@.len() by {
                assert(grouped@[y as int]@.contains(grouped@[y as int]@[v]));
            }
        }
        let arranged = incoming_heavy_centered(&grouped[y], incoming_count);
        proof {
            assert(grouped@[y as int]@.to_set() =~= rank_members(rank@, y as int));
        }
        layers.push(arranged);
        proof {
            assert(layers@[y as int] == arranged);
        }
        y = y + 1;
    }
    Ok((layers, max))
}

/// `a -> b` joins consecutive layers: both are ranked and `b` is one rank below `a`.
pub open spec fn layer_edge(rank: Seq<Option<i32>>, a: usize, b: usize) -> bool {
    &&& a < rank.len()
    &&& b < rank.len()
    &&& rank[a as int] is Some
    &&& rank[b as int] is Some
    &&& rank[b as int]->0 == rank[a as int]->0 + 1
}

/// Both ends of every edge are ranked.
pub open spec fn ranked_edges(edges: Seq<(usize, usize)>, rank: Seq<Option<i32>>) -> bool {
    forall|k: int|
        0 <= k < edges.len() ==> rank[(#[trigger] edges[k]).0 as int] is Some && rank[edges[k].1 as int] is Some
}

/// Predecessors and successors of each node in the adjacent layers: the edges `a -> b` with
/// `rank(b) == rank(a) + 1`. Fails on an edge end without a rank.
pub fn layer_neighbors(rank: &Vec<Option<i32>>, backbone_edges: &[(usize, usize)]) -> (r: Result<
    (Vec<Vec<usize>>, Vec<Vec<usize>>),
    LayerError,
>)
    requires
        edges_within(backbone_edges@, rank@.len()),
    ensures
        r is Ok <==> ranked_edges(backbone_edges@, rank@),
        r matches Err(e) ==> e is MissingRank,
        r matches Ok((pred, succ)) ==> {
            &&& pred@.len() == rank@.len()
            &&& succ@.len() == rank@.len()
            &&& forall|v: int| 0 <= v < rank@.len() ==> strictly_sorted(#[trigger] pred@[v]@)
            &&& forall|v: int| 0 <= v < rank@.len() ==> strictly_sorted(#[trigger] succ@[v]@)
            &&& forall|v: usize, w: usize|
                #![trigger pred@[v as int]@.contains(w)]
                v < rank@.len() ==> (pred@[v as int]@.contains(w) <==> backbone_edges@.contains((w, v))
                    && layer_edge(rank@, w, v))
            &&& forall|v: usize, w: usize|
                #![trigger succ@[v as int]@.contains(w)]
                v < rank@.len() ==> (succ@[v as int]@.contains(w) <==> backbone_edges@.contains((v, w))
                    && layer_edge(rank@, v, w))
        },
{
    let n = rank.len();
    let mut pred = empty_lists(n);
    let mut succ = empty_lists(n);
    let mut k: usize = 0;
    while k < backbone_edges.len()
        invariant
            n == rank@.len(),
            edges_within(backbone_edges@, n as nat),
            k <= backbone_edges@.len(),
            ranked_edges(backbone_edges@.take(k as int), rank@),
            pred@.len() == n,
            succ@.len() == n,
            forall|v: int| 0 <= v < n ==> strictly_sorted(#[trigger] pred@[v]@),
            forall|v: int| 0 <= v < n ==> strictly_sorted(#[trigger] succ@[v]@),
            forall|v: usize, w: usize|
                #![trigger pred@[v as int]@.contains(w)]
                v < n ==> (pred@[v as int]@.contains(w) <==> backbone_edges@.take(k as int).contains((w, v))
                    && layer_edge(rank@, w, v)),
            forall|v: usize, w: usize|
                #![trigger succ@[v as int]@.contains(w)]
                v < n ==> (succ@[v as int]@.contains(w) <==> backbone_edges@.take(k as int).contains((v, w))
                    && layer_edge(rank@, v, w)),
        decreases backbone_edges@.len() - k,
    {
        let (a, b) = backbone_edges[k];
        proof {
            assert(backbone_edges@[k as int] == (a, b));
        }
        let rank_a = match rank[a] {
            Some(x) => x,
            None => {
                return Err(LayerError::MissingRank(a));
            },
        };
        let rank_b = match rank[b] {
            Some(x) => x,
            None => {
                return Err(LayerError::MissingRank(b));
            },
        };
        let ghost before_pred = pred@;
        let ghost before_succ = succ@;
        let linked = (rank_b as i64) == (rank_a as i64) + 1;
        if linked {
            insert_sorted_unique(&mut pred[b], a);
            insert_sorted_unique(&mut succ[a], b);
        }
        proof {
            let pre = backbone_edges@.take(k as int);
            let post = backbone_edges@.take(k + 1);
            assert(post =~= pre.push((a, b)));
            assert(linked == layer_edge(rank@, a, b));
            assert forall|j: int| 0 <= j < post.len() implies rank@[(#[trigger] post[j]).0 as int] is Some
                && rank@[post[j].1 as int] is Some by {
                if j < k {
                    assert(post[j] == pre[j]);
                }
            }
            assert forall|v: usize, w: usize| v < n implies (pred@[v as int]@.contains(w) <==> post.contains((w, v))
                && layer_edge(rank@, w, v)) by {
                if post.contains((w, v)) && !pre.contains((w, v)) {
                    let j = choose|j: int| 0 <= j < post.len() && post[j] == (w, v);
                    assert(j == k);
                }
                if pre.contains((w, v)) {
                    let j = choose|j: int| 0 <= j < pre.len() && pre[j] == (w, v);
                    assert(post[j] == (w, v));
                }
                assert(before_pred[v as int]@.contains(w) <==> pre.contains((w, v)) && layer_edge(rank@, w, v));
                if v != b || !linked {
                    assert(pred@[v as int] == before_pred[v as int]);
                } else {
                    assert(pred@[v as int]@.contains(w) <==> (before_pred[v as int]@.contains(w) || w == a));
                    if w == a {
                        assert(post[k as int] == (w, v));
                    }
                }
            }
            assert forall|v: usize, w: usize| v < n implies (succ@[v as int]@.contains(w) <==> post.contains((v, w))
                && layer_edge(rank@, v, w)) by {
                if post.contains((v, w)) && !pre.contains((v, w)) {
                    let j = choose|j: int| 0 <= j < post.len() && post[j] == (v, w);
                    assert(j == k);
                }
                if pre.contains((v, w)) {
                    let j = choose|j: int| 0 <= j < pre.len() && pre[j] == (v, w);
                    assert(post[j] == (v, w));
                }
                assert(before_succ[v as int]@.contains(w) <==> pre.contains((v, w)) && layer_edge(rank@, v, w));
                if v != a || !linked {
                    assert(succ@[v as int] == before_succ[v as int]);
                } else {
                    assert(succ@[v as int]@.contains(w) <==> (before_succ[v as int]@.contains(w) || w == b));
                    if w == b {
                        assert(post[k as int] == (v, w));
                    }
                }
            }
        }
        k = k + 1;
    }
    proof {
        assert(backbone_edges@.take(backbone_edges@.len() as int) =~= backbone_edges@);
    }
    Ok((pred, succ))
}

} // verus!
