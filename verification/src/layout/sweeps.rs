//! Crossing reduction: alternating median sweeps over the layers.
//!
//! A node's key in a sweep is the median position of its neighbors in the adjacent layer
//! (its own position when it has none); each layer is re-sorted by (key, node).
use vstd::prelude::*;
use vstd::relations::{sorted_by, total_ordering};

use crate::layout::lists::all_below;
use crate::layout::ordering::{pair_lt, sort_pairs, sorted_pairs, view_lists, LayerError};

verus! {

/// `<=` on positions.
pub open spec fn leq_usize() -> spec_fn(usize, usize) -> bool {
    |a: usize, b: usize| a <= b
}

/// The values of `s` in increasing order.
pub open spec fn sorted_values(s: Seq<usize>) -> Seq<usize> {
    s.sort_by(leq_usize())
}

proof fn lemma_leq_usize_total()
    ensures
        total_ordering(leq_usize()),
{
    let leq = leq_usize();
    assert(vstd::relations::reflexive(leq));
    assert(vstd::relations::antisymmetric(leq));
    assert(vstd::relations::transitive(leq));
    assert(vstd::relations::strongly_connected(leq));
}

/// Sorts positions in increasing order.
fn sort_values(v: &Vec<usize>) -> (r: Vec<usize>)
    ensures
        r@ == sorted_values(v@),
{
    broadcast use vstd::seq_lib::group_to_multiset_ensures;

    let mut r: Vec<usize> = Vec::new();
    let mut k: usize = 0;
    while k < v.len()
        invariant
            k <= v@.len(),
            sorted_by(r@, leq_usize()),
            r@.to_multiset() == v@.take(k as int).to_multiset(),
        decreases v@.len() - k,
    {
        let x = v[k];
        let mut i: usize = 0;
        while i < r.len() && r[i] < x
            invariant
                i <= r@.len(),
                forall|m: int| 0 <= m < i ==> r@[m] < x,
            decreases r@.len() - i,
        {
            i = i + 1;
        }
        let ghost before = r@;
        r.insert(i, x);
        proof {
            let leq = leq_usize();
            assert forall|a: int, b: int| 0 <= a < b < r@.len() implies #[trigger] leq(r@[a], r@[b]) by {
                if b < i {
                    assert(leq(before[a], before[b]));
                } else if a > i {
                    assert(leq(before[a - 1], before[b - 1]));
                } else if a == i {
                    if i < before.len() {
                        assert(leq(before[i as int], before[b - 1]));
                    }
                } else {
                    assert(b >= i);
                }
            }
            let lo = before.subrange(0, i as int);
            let hi = before.subrange(i as int, before.len() as int);
            assert(before =~= lo + hi);
            assert(r@ =~= lo.push(x) + hi);
            vstd::seq_lib::lemma_multiset_commutative(lo, hi);
            vstd::seq_lib::lemma_multiset_commutative(lo.push(x), hi);
            assert(v@.take(k + 1) =~= v@.take(k as int).push(x));
            broadcast use vstd::multiset::group_multiset_axioms;
            lo.to_multiset_ensures();
            v@.take(k as int).to_multiset_ensures();
            assert(lo.push(x).to_multiset() =~= lo.to_multiset().insert(x));
            assert(r@.to_multiset() =~= before.to_multiset().insert(x));
        }
        k = k + 1;
    }
    proof {
        assert(v@.take(v@.len() as int) =~= v@);
        lemma_leq_usize_total();
        v@.lemma_sort_by_ensures(leq_usize());
        vstd::seq_lib::lemma_sorted_unique(r@, sorted_values(v@), leq_usize());
    }
    r
}

/// Median of sorted values: the middle one, or the floor of the mean of the two middle ones.
pub open spec fn median_of_sorted(s: Seq<usize>) -> int {
    let mid = s.len() / 2;
    if s.len() % 2 == 1 {
        s[mid as int] as int
    } else {
        (s[mid - 1] + s[mid as int]) / 2
    }
}

/// The sort key of a node: the median of its neighbor positions, or `fallback` without any.
pub open spec fn median_key_of(values: Seq<usize>, fallback: usize) -> int {
    if values.len() == 0 {
        fallback as int
    } else {
        median_of_sorted(sorted_values(values))
    }
}

/// Median of the values, or `fallback` when there are none.
fn median_key(values: &Vec<usize>, fallback: usize) -> (k: usize)
    ensures
        k == median_key_of(values@, fallback),
{
    if values.len() == 0 {
        return fallback;
    }
    let sorted = sort_values(values);
    proof {
        lemma_leq_usize_total();
        values@.lemma_sort_by_ensures(leq_usize());
        values@.to_multiset_ensures();
        sorted@.to_multiset_ensures();
        assert(sorted@.len() == values@.len());
    }
    let mid = sorted.len() / 2;
    if sorted.len() % 2 == 1 {
        sorted[mid]
    } else {
        let a = sorted[mid - 1];
        let b = sorted[mid];
        assert(a <= b) by {
            assert(sorted_by(sorted@, leq_usize()));
            let leq = leq_usize();
            assert(leq(sorted@[mid - 1], sorted@[mid as int]));
        }
        a + (b - a) / 2
    }
}

/// Every layer lists distinct nodes below `n`.
pub open spec fn layers_valid(layers: Seq<Seq<usize>>, n: nat) -> bool {
    forall|y: int| 0 <= y < layers.len() ==> all_below(#[trigger] layers[y], n) && layers[y].no_duplicates()
}

/// Each layer of `after` holds the same nodes as that of `before`.
pub open spec fn same_members(before: Seq<Seq<usize>>, after: Seq<Seq<usize>>) -> bool {
    &&& after.len() == before.len()
    &&& forall|y: int|
        0 <= y < before.len() ==> (#[trigger] after[y]).to_set() == before[y].to_set() && after[y].len()
            == before[y].len()
}

/// `pos` with each node of `layer` moved to its index in `layer`.
pub open spec fn positions_after(layer: Seq<usize>, pos: Seq<Option<usize>>) -> Seq<Option<usize>> {
    Seq::new(
        pos.len(),
        |v: int|
            if layer.contains(v as usize) {
                Some(layer.index_of(v as usize) as usize)
            } else {
                pos[v]
            },
    )
}

/// Records the index of every node of `layer` as its position.
fn update_positions(layer: &Vec<usize>, positions: &mut Vec<Option<usize>>)
    requires
        all_below(layer@, old(positions)@.len()),
        layer@.no_duplicates(),
    ensures
        final(positions)@ == positions_after(layer@, old(positions)@),
{
    let ghost start = positions@;
    let count = positions.len();
    let mut i: usize = 0;
    while i < layer.len()
        invariant
            i <= layer@.len(),
            start.len() == count,
            all_below(layer@, start.len()),
            layer@.no_duplicates(),
            positions@.len() == start.len(),
            forall|v: int|
                0 <= v < start.len() ==> #[trigger] positions@[v] == (if layer@.take(i as int).contains(
                    v as usize,
                ) {
                    Some(layer@.index_of(v as usize) as usize)
                } else {
                    start[v]
                }),
        decreases layer@.len() - i,
    {
        let v = layer[i];
        let ghost prev = positions@;
        positions.set(v, Some(i));
        proof {
            assert(layer@.index_of(v) == i) by {
                assert(layer@[i as int] == v);
                assert(layer@.contains(v));
                let j = layer@.index_of(v);
                assert(layer@[j] == v);
            }
            assert forall|w: int| 0 <= w < start.len() implies #[trigger] positions@[w] == (if layer@.take(
                i + 1,
            ).contains(w as usize) {
                Some(layer@.index_of(w as usize) as usize)
            } else {
                start[w]
            }) by {
                let t = layer@.take(i as int);
                assert(layer@.take(i + 1) =~= t.push(v));
                if w != v as int {
                    assert(positions@[w] == prev[w]);
                    if t.push(v).contains(w as usize) {
                        let k = choose|k: int| 0 <= k < t.push(v).len() && t.push(v)[k] == w as usize;
                        if k < t.len() {
                            assert(t[k] == w as usize);
                            assert(t.contains(w as usize));
                        } else {
                            assert(t.push(v)[k] == v);
                        }
                    }
                    if t.contains(w as usize) {
                        let k = choose|k: int| 0 <= k < t.len() && t[k] == w as usize;
                        assert(t.push(v)[k] == w as usize);
                        assert(t.push(v).contains(w as usize));
                    }
                    assert(layer@.take(i + 1).contains(w as usize) == t.contains(w as usize));
                    assert(prev[w] == (if t.contains(w as usize) {
                        Some(layer@.index_of(w as usize) as usize)
                    } else {
                        start[w]
                    }));
                } else {
                    assert(t.push(v)[t.len() as int] == v);
                    assert(w as usize == v);
                    assert(positions@[w] == Some(i));
                    assert(layer@.take(i + 1).contains(v));
                    assert(layer@.index_of(w as usize) == i);
                }
            }
        }
        i = i + 1;
    }
    proof {
        assert(layer@.take(layer@.len() as int) =~= layer@);
        assert(positions@ =~= positions_after(layer@, start));
    }
}

/// Positions after recording every layer in turn, starting with none.
pub open spec fn positions_of_layers(layers: Seq<Seq<usize>>, n: nat) -> Seq<Option<usize>>
    decreases layers.len(),
{
    if layers.len() == 0 {
        Seq::new(n, |v: int| None)
    } else {
        positions_after(layers.last(), positions_of_layers(layers.drop_last(), n))
    }
}

/// The position of every node of the layers: its index in its layer.
fn rebuild_positions(layers: &Vec<Vec<usize>>, n: usize) -> (r: Vec<Option<usize>>)
    requires
        layers_valid(view_lists(layers@), n as nat),
    ensures
        r@ == positions_of_layers(view_lists(layers@), n as nat),
{
    let mut positions: Vec<Option<usize>> = Vec::new();
    let mut v: usize = 0;
    while v < n
        invariant
            v <= n,
            positions@ =~= Seq::new(v as nat, |w: int| None::<usize>),
        decreases n - v,
    {
        positions.push(None);
        v = v + 1;
    }
    let ghost all = view_lists(layers@);
    let mut k: usize = 0;
    while k < layers.len()
        invariant
            k <= layers@.len(),
            all == view_lists(layers@),
            layers_valid(all, n as nat),
            positions@ == positions_of_layers(all.take(k as int), n as nat),
            positions@.len() == n,
        decreases layers@.len() - k,
    {
        proof {
            assert(all[k as int] == layers@[k as int]@);
            assert(all_below(all[k as int], n as nat));
        }
        update_positions(&layers[k], &mut positions);
        proof {
            assert(all.take(k + 1).drop_last() =~= all.take(k as int));
            assert(all.take(k + 1).last() == layers@[k as int]@);
        }
        k = k + 1;
    }
    proof {
        assert(all.take(layers@.len() as int) =~= all);
    }
    positions
}

/// Every listed neighbor has a position.
pub open spec fn positioned(neighbors: Seq<usize>, pos: Seq<Option<usize>>) -> bool {
    forall|j: int| 0 <= j < neighbors.len() ==> (#[trigger] neighbors[j]) < pos.len() && pos[neighbors[j] as int] is Some
}

/// The positions of the listed neighbors.
pub open spec fn neighbor_positions(neighbors: Seq<usize>, pos: Seq<Option<usize>>) -> Seq<usize> {
    neighbors.map_values(|w: usize| pos[w as int]->0)
}

/// The positions of a node's neighbors, in list order.
fn collect_neighbor_positions(neighbors: &Vec<usize>, positions: &Vec<Option<usize>>) -> (r: Result<
    Vec<usize>,
    LayerError,
>)
    ensures
        r is Ok <==> positioned(neighbors@, positions@),
        r matches Ok(p) ==> p@ == neighbor_positions(neighbors@, positions@),
        r matches Err(e) ==> e is MissingPosition,
{
    let mut out: Vec<usize> = Vec::new();
    let mut j: usize = 0;
    while j < neighbors.len()
        invariant
            j <= neighbors@.len(),
            positioned(neighbors@.take(j as int), positions@),
            out@ == neighbor_positions(neighbors@.take(j as int), positions@),
        decreases neighbors@.len() - j,
    {
        let w = neighbors[j];
        if w >= positions.len() {
            proof {
                assert(neighbors@[j as int] == w);
            }
            return Err(LayerError::MissingPosition(w));
        }
        match positions[w] {
            Some(p) => {
                out.push(p);
                proof {
                    assert(neighbors@.take(j + 1) =~= neighbors@.take(j as int).push(w));
                    assert(out@ =~= neighbor_positions(neighbors@.take(j + 1), positions@));
                }
            },
            None => {
                proof {
                    assert(neighbors@[j as int] == w);
                }
                return Err(LayerError::MissingPosition(w));
            },
        }
        j = j + 1;
    }
    proof {
        assert(neighbors@.take(neighbors@.len() as int) =~= neighbors@);
    }
    Ok(out)
}

/// The sweep key of node `v`.
pub open spec fn node_key(nbrs: Seq<Seq<usize>>, pos: Seq<Option<usize>>, v: usize) -> int {
    median_key_of(neighbor_positions(nbrs[v as int], pos), pos[v as int]->0)
}

/// Every node of the layer and every one of its neighbors has a position.
pub open spec fn layer_ready(layer: Seq<usize>, nbrs: Seq<Seq<usize>>, pos: Seq<Option<usize>>) -> bool {
    forall|i: int|
        0 <= i < layer.len() ==> (#[trigger] layer[i]) < pos.len() && pos[layer[i] as int] is Some
            && positioned(nbrs[layer[i] as int], pos)
}

/// Each node of the layer with its sweep key.
fn build_keyed(layer: &Vec<usize>, nbrs: &Vec<Vec<usize>>, positions: &Vec<Option<usize>>) -> (r: Result<
    Vec<(u64, usize)>,
    LayerError,
>)
    requires
        all_below(layer@, nbrs@.len()),
    ensures
        r is Ok <==> layer_ready(layer@, view_lists(nbrs@), positions@),
        r matches Ok(k) ==> k@.len() == layer@.len() && forall|i: int|
            0 <= i < layer@.len() ==> (#[trigger] k@[i]).1 == layer@[i] && k@[i].0 as int == node_key(
                view_lists(nbrs@),
                positions@,
                layer@[i],
            ),
        r matches Err(e) ==> e is MissingPosition,
{
    let ghost nb = view_lists(nbrs@);
    let mut keyed: Vec<(u64, usize)> = Vec::new();
    let mut i: usize = 0;
    while i < layer.len()
        invariant
            i <= layer@.len(),
            all_below(layer@, nbrs@.len()),
            nb == view_lists(nbrs@),
            layer_ready(layer@.take(i as int), nb, positions@),
            keyed@.len() == i,
            forall|m: int|
                0 <= m < i ==> (#[trigger] keyed@[m]).1 == layer@[m] && keyed@[m].0 as int == node_key(
                    nb,
                    positions@,
                    layer@[m],
                ),
        decreases layer@.len() - i,
    {
        let v = layer[i];
        if v >= positions.len() {
            proof {
                assert(layer@[i as int] == v);
            }
            return Err(LayerError::MissingPosition(v));
        }
        let fallback = match positions[v] {
            Some(p) => p,
            None => {
                proof {
                    assert(layer@[i as int] == v);
                }
                return Err(LayerError::MissingPosition(v));
            },
        };
        let found = collect_neighbor_positions(&nbrs[v], positions);
        let values = match found {
            Ok(values) => values,
            Err(e) => {
                proof {
                    assert(layer@[i as int] == v);
                    assert(nb[v as int] == nbrs@[v as int]@);
                }
                return Err(e);
            },
        };
        let key = median_key(&values, fallback);
        keyed.push((key as u64, v));
        proof {
            assert(nb[v as int] == nbrs@[v as int]@);
            assert(layer@.take(i + 1) =~= layer@.take(i as int).push(v));
        }
        i = i + 1;
    }
    proof {
        assert(layer@.take(layer@.len() as int) =~= layer@);
    }
    Ok(keyed)
}

/// `u` comes before `v` in a swept layer: smaller key, or equal key and smaller node.
pub open spec fn node_before(nbrs: Seq<Seq<usize>>, pos: Seq<Option<usize>>, u: usize, v: usize) -> bool {
    node_key(nbrs, pos, u) < node_key(nbrs, pos, v) || (node_key(nbrs, pos, u) == node_key(nbrs, pos, v)
        && u < v)
}

/// `s` is strictly increasing by (key, node).
pub open spec fn sorted_by_key(nbrs: Seq<Seq<usize>>, pos: Seq<Option<usize>>, s: Seq<usize>) -> bool {
    forall|i: int, j: int| 0 <= i < j < s.len() ==> node_before(nbrs, pos, #[trigger] s[i], #[trigger] s[j])
}

/// The nodes of `layer` sorted by (key, node).
pub open spec fn reordered(layer: Seq<usize>, nbrs: Seq<Seq<usize>>, pos: Seq<Option<usize>>) -> Seq<usize> {
    choose|s: Seq<usize>| sorted_by_key(nbrs, pos, s) && s.to_set() == layer.to_set()
}

/// There is only one arrangement of a set of nodes that is strictly increasing by (key, node).
pub proof fn lemma_sorted_by_key_unique(
    nbrs: Seq<Seq<usize>>,
    pos: Seq<Option<usize>>,
    a: Seq<usize>,
    b: Seq<usize>,
)
    requires
        sorted_by_key(nbrs, pos, a),
        sorted_by_key(nbrs, pos, b),
        a.to_set() == b.to_set(),
    ensures
        a == b,
    decreases a.len(),
{
    if a.len() == 0 {
        if b.len() > 0 {
            assert(b.to_set().contains(b[0]));
        }
        assert(a =~= b);
    } else if b.len() == 0 {
        assert(a.to_set().contains(a[0]));
    } else {
        assert(a.to_set().contains(a[0]));
        assert(b.to_set().contains(b[0]));
        let j = choose|j: int| 0 <= j < b.len() && b[j] == a[0];
        let i = choose|i: int| 0 <= i < a.len() && a[i] == b[0];
        if a[0] != b[0] {
            assert(j > 0 && i > 0);
            assert(node_before(nbrs, pos, b[0], b[j]));
            assert(node_before(nbrs, pos, a[0], a[i]));
            assert(false);
        }
        let a1 = a.drop_first();
        let b1 = b.drop_first();
        assert forall|x: usize| a1.to_set().contains(x) <==> b1.to_set().contains(x) by {
            if a1.contains(x) {
                let m = choose|m: int| 0 <= m < a1.len() && a1[m] == x;
                assert(node_before(nbrs, pos, a[0], a[m + 1]));
                assert(x != a[0]);
                assert(a.to_set().contains(x));
                let t = choose|t: int| 0 <= t < b.len() && b[t] == x;
                assert(t != 0);
                assert(b1[t - 1] == x);
            }
            if b1.contains(x) {
                let m = choose|m: int| 0 <= m < b1.len() && b1[m] == x;
                assert(node_before(nbrs, pos, b[0], b[m + 1]));
                assert(x != b[0]);
                assert(b.to_set().contains(x));
                let t = choose|t: int| 0 <= t < a.len() && a[t] == x;
                assert(t != 0);
                assert(a1[t - 1] == x);
            }
        }
        assert(a1.to_set() =~= b1.to_set());
        assert(sorted_by_key(nbrs, pos, a1)) by {
            assert forall|p: int, q: int| 0 <= p < q < a1.len() implies node_before(nbrs, pos, #[trigger] a1[p], #[trigger] a1[q]) by {
                assert(node_before(nbrs, pos, a[p + 1], a[q + 1]));
            }
        }
        assert(sorted_by_key(nbrs, pos, b1)) by {
            assert forall|p: int, q: int| 0 <= p < q < b1.len() implies node_before(nbrs, pos, #[trigger] b1[p], #[trigger] b1[q]) by {
                assert(node_before(nbrs, pos, b[p + 1], b[q + 1]));
            }
        }
        lemma_sorted_by_key_unique(nbrs, pos, a1, b1);
        assert(a =~= b) by {
            assert forall|k: int| 0 <= k < a.len() implies a[k] == b[k] by {
                if k > 0 {
                    assert(a[k] == a1[k - 1]);
                    assert(b[k] == b1[k - 1]);
                }
            }
        }
    }
}

/// Re-sorts a layer by (key, node) and records the new positions; on a missing position the
/// layer and the positions are left as they were.
fn reorder_layer(layer: &mut Vec<usize>, nbrs: &Vec<Vec<usize>>, positions: &mut Vec<Option<usize>>) -> (r: Result<
    (),
    LayerError,
>)
    requires
        old(layer)@.no_duplicates(),
        all_below(old(layer)@, nbrs@.len()),
        old(positions)@.len() == nbrs@.len(),
    ensures
        r is Ok <==> layer_ready(old(layer)@, view_lists(nbrs@), old(positions)@),
        r is Ok ==> final(layer)@ == reordered(old(layer)@, view_lists(nbrs@), old(positions)@)
            && final(positions)@ == positions_after(final(layer)@, old(positions)@),
        r is Err ==> final(layer)@ == old(layer)@ && final(positions)@ == old(positions)@,
        r matches Err(e) ==> e is MissingPosition,
        final(layer)@.to_set() == old(layer)@.to_set(),
        final(layer)@.len() == old(layer)@.len(),
        final(layer)@.no_duplicates(),
        all_below(final(layer)@, nbrs@.len()),
        final(positions)@.len() == old(positions)@.len(),
{
    let ghost nb = view_lists(nbrs@);
    let ghost pos0 = positions@;
    let ghost layer0 = layer@;
    let keyed = match build_keyed(layer, nbrs, positions) {
        Ok(k) => k,
        Err(e) => {
            return Err(e);
        },
    };
    proof {
        assert(keyed@.no_duplicates()) by {
            assert forall|i: int, j: int| 0 <= i < keyed@.len() && 0 <= j < keyed@.len() && i != j implies keyed@[i]
                != keyed@[j] by {
                assert(keyed@[i].1 == layer0[i]);
                assert(keyed@[j].1 == layer0[j]);
            }
        }
    }
    let sorted = sort_pairs(&keyed);
    let mut fresh: Vec<usize> = Vec::new();
    let mut i: usize = 0;
    while i < sorted.len()
        invariant
            i <= sorted@.len(),
            fresh@.len() == i,
            forall|m: int| 0 <= m < i ==> #[trigger] fresh@[m] == sorted@[m].1,
        decreases sorted@.len() - i,
    {
        fresh.push(sorted[i].1);
        i = i + 1;
    }
    proof {
        assert forall|a: int| 0 <= a < fresh@.len() implies sorted@[a].0 as int == node_key(nb, pos0, #[trigger] fresh@[a])
            && layer0.contains(fresh@[a]) by {
            assert(sorted@.contains(sorted@[a]));
            assert(keyed@.contains(sorted@[a]));
            let m = choose|m: int| 0 <= m < keyed@.len() && keyed@[m] == sorted@[a];
            assert(keyed@[m].1 == layer0[m]);
        }
        assert(sorted_by_key(nb, pos0, fresh@)) by {
            assert forall|a: int, b: int| 0 <= a < b < fresh@.len() implies node_before(nb, pos0, #[trigger] fresh@[a], #[trigger] fresh@[b]) by {
                assert(pair_lt(sorted@[a], sorted@[b]));
                assert(sorted@[a].0 as int == node_key(nb, pos0, fresh@[a]));
                assert(sorted@[b].0 as int == node_key(nb, pos0, fresh@[b]));
            }
        }
        assert forall|x: usize| fresh@.to_set().contains(x) <==> layer0.to_set().contains(x) by {
            if layer0.contains(x) {
                let m = choose|m: int| 0 <= m < layer0.len() && layer0[m] == x;
                assert(keyed@[m].1 == x);
                assert(keyed@.contains(keyed@[m]));
                assert(sorted@.contains(keyed@[m]));
                let a = choose|a: int| 0 <= a < sorted@.len() && sorted@[a] == keyed@[m];
                assert(fresh@[a] == x);
            }
            if fresh@.contains(x) {
                let a = choose|a: int| 0 <= a < fresh@.len() && fresh@[a] == x;
                assert(layer0.contains(fresh@[a]));
            }
        }
        assert(fresh@.to_set() =~= layer0.to_set());
        let chosen = reordered(layer0, nb, pos0);
        assert(sorted_by_key(nb, pos0, chosen) && chosen.to_set() == layer0.to_set());
        lemma_sorted_by_key_unique(nb, pos0, chosen, fresh@);
        assert(fresh@.no_duplicates()) by {
            assert forall|a: int, b: int| 0 <= a < fresh@.len() && 0 <= b < fresh@.len() && a != b implies fresh@[a]
                != fresh@[b] by {
                if a < b {
                    assert(node_before(nb, pos0, fresh@[a], fresh@[b]));
                } else {
                    assert(node_before(nb, pos0, fresh@[b], fresh@[a]));
                }
            }
        }
        assert(all_below(fresh@, nbrs@.len())) by {
            assert forall|a: int| 0 <= a < fresh@.len() implies fresh@[a] < nbrs@.len() by {
                assert(layer0.contains(fresh@[a]));
            }
        }
    }
    *layer = fresh;
    update_positions(layer, positions);
    Ok(())
}

/// One reorder step: the re-sorted layer and the positions after it, or `None` when a
/// position is missing.
pub open spec fn reorder_step(layer: Seq<usize>, nbrs: Seq<Seq<usize>>, pos: Seq<Option<usize>>) -> Option<
    (Seq<usize>, Seq<Option<usize>>),
> {
    if layer_ready(layer, nbrs, pos) {
        let r = reordered(layer, nbrs, pos);
        Some((r, positions_after(r, pos)))
    } else {
        None
    }
}

/// Reorders layers `y..=max` from the top down, each against predecessors' positions.
pub open spec fn sweep_down_from(
    layers: Seq<Seq<usize>>,
    pos: Seq<Option<usize>>,
    nbrs: Seq<Seq<usize>>,
    y: int,
    max: int,
) -> Option<(Seq<Seq<usize>>, Seq<Option<usize>>)>
    decreases max + 1 - y,
{
    if y > max {
        Some((layers, pos))
    } else if y < 0 || y >= layers.len() {
        None
    } else {
        match reorder_step(layers[y], nbrs, pos) {
            Some((l, p)) => sweep_down_from(layers.update(y, l), p, nbrs, y + 1, max),
            None => None,
        }
    }
}

/// Reorders layers `k-1, k-2, ..., 0` from the bottom up, each against successors' positions.
pub open spec fn sweep_up_from(
    layers: Seq<Seq<usize>>,
    pos: Seq<Option<usize>>,
    nbrs: Seq<Seq<usize>>,
    k: nat,
) -> Option<(Seq<Seq<usize>>, Seq<Option<usize>>)>
    decreases k,
{
    if k == 0 {
        Some((layers, pos))
    } else if k - 1 >= layers.len() {
        None
    } else {
        match reorder_step(layers[k - 1], nbrs, pos) {
            Some((l, p)) => sweep_up_from(layers.update(k - 1, l), p, nbrs, (k - 1) as nat),
            None => None,
        }
    }
}

/// The layers and positions after `rounds` rounds of a downward then an upward sweep.
pub open spec fn sweep_rounds(
    layers: Seq<Seq<usize>>,
    pos: Seq<Option<usize>>,
    pred: Seq<Seq<usize>>,
    succ: Seq<Seq<usize>>,
    max: nat,
    rounds: nat,
) -> Option<(Seq<Seq<usize>>, Seq<Option<usize>>)>
    decreases rounds,
{
    if rounds == 0 {
        Some((layers, pos))
    } else {
        match sweep_rounds(layers, pos, pred, succ, max, (rounds - 1) as nat) {
            Some((l, p)) => match sweep_down_from(l, p, pred, 1, max as int) {
                Some((l2, p2)) => sweep_up_from(l2, p2, succ, max),
                None => None,
            },
            None => None,
        }
    }
}

/// Reorders layers `1..=max` against their predecessors.
fn sweep_down(
    layers: &mut Vec<Vec<usize>>,
    max_layer_index: usize,
    pred: &Vec<Vec<usize>>,
    positions: &mut Vec<Option<usize>>,
) -> (r: Result<(), LayerError>)
    requires
        layers_valid(view_lists(old(layers)@), pred@.len()),
        old(positions)@.len() == pred@.len(),
        max_layer_index < usize::MAX,
    ensures
        layers_valid(view_lists(final(layers)@), pred@.len()),
        same_members(view_lists(old(layers)@), view_lists(final(layers)@)),
        final(positions)@.len() == pred@.len(),
        match sweep_down_from(view_lists(old(layers)@), old(positions)@, view_lists(pred@), 1, max_layer_index as int) {
            Some((l, p)) => r is Ok && view_lists(final(layers)@) == l && final(positions)@ == p,
            None => r is Err,
        },
{
    let ghost nb = view_lists(pred@);
    let ghost first = view_lists(layers@);
    let ghost whole = sweep_down_from(first, positions@, nb, 1, max_layer_index as int);
    let mut y: usize = 1;
    while y <= max_layer_index
        invariant
            1 <= y <= max_layer_index + 1,
            max_layer_index < usize::MAX,
            nb == view_lists(pred@),
            first == view_lists(old(layers)@),
            whole == sweep_down_from(first, old(positions)@, nb, 1, max_layer_index as int),
            positions@.len() == pred@.len(),
            layers_valid(view_lists(layers@), pred@.len()),
            same_members(first, view_lists(layers@)),
            whole == sweep_down_from(view_lists(layers@), positions@, nb, y as int, max_layer_index as int),
        decreases max_layer_index + 1 - y,
    {
        if y >= layers.len() {
            return Err(LayerError::MissingLayer(y));
        }
        let ghost before = view_lists(layers@);
        let ghost pos_before = positions@;
        proof {
            assert(before[y as int] == layers@[y as int]@);
            assert(all_below(before[y as int], pred@.len()));
        }
        let result = reorder_layer(&mut layers[y], pred, positions);
        proof {
            let after = view_lists(layers@);
            assert(after =~= before.update(y as int, layers@[y as int]@));
            assert forall|z: int| 0 <= z < after.len() implies all_below(#[trigger] after[z], pred@.len())
                && after[z].no_duplicates() by {
                if z != y {
                    assert(after[z] == before[z]);
                }
            }
            assert forall|z: int| 0 <= z < first.len() implies (#[trigger] after[z]).to_set() == first[z].to_set()
                && after[z].len() == first[z].len() by {
                if z != y {
                    assert(after[z] == before[z]);
                }
                assert(before[z].to_set() == first[z].to_set());
            }
        }
        match result {
            Ok(()) => {},
            Err(e) => {
                return Err(e);
            },
        }
        y = y + 1;
    }
    Ok(())
}

/// Reorders layers `max-1` down to `0` against their successors.
fn sweep_up(
    layers: &mut Vec<Vec<usize>>,
    max_layer_index: usize,
    succ: &Vec<Vec<usize>>,
    positions: &mut Vec<Option<usize>>,
) -> (r: Result<(), LayerError>)
    requires
        layers_valid(view_lists(old(layers)@), succ@.len()),
        old(positions)@.len() == succ@.len(),
    ensures
        layers_valid(view_lists(final(layers)@), succ@.len()),
        same_members(view_lists(old(layers)@), view_lists(final(layers)@)),
        final(positions)@.len() == succ@.len(),
        match sweep_up_from(view_lists(old(layers)@), old(positions)@, view_lists(succ@), max_layer_index as nat) {
            Some((l, p)) => r is Ok && view_lists(final(layers)@) == l && final(positions)@ == p,
            None => r is Err,
        },
{
    let ghost nb = view_lists(succ@);
    let ghost first = view_lists(layers@);
    let ghost whole = sweep_up_from(first, positions@, nb, max_layer_index as nat);
    let mut k: usize = max_layer_index;
    while k > 0
        invariant
            k <= max_layer_index,
            nb == view_lists(succ@),
            first == view_lists(old(layers)@),
            whole == sweep_up_from(first, old(positions)@, nb, max_layer_index as nat),
            positions@.len() == succ@.len(),
            layers_valid(view_lists(layers@), succ@.len()),
            same_members(first, view_lists(layers@)),
            whole == sweep_up_from(view_lists(layers@), positions@, nb, k as nat),
        decreases k,
    {
        let y = k - 1;
        if y >= layers.len() {
            return Err(LayerError::MissingLayer(y));
        }
        let ghost before = view_lists(layers@);
        proof {
            assert(before[y as int] == layers@[y as int]@);
            assert(all_below(before[y as int], succ@.len()));
        }
        let result = reorder_layer(&mut layers[y], succ, positions);
        proof {
            let after = view_lists(layers@);
            assert(after =~= before.update(y as int, layers@[y as int]@));
            assert forall|z: int| 0 <= z < after.len() implies all_below(#[trigger] after[z], succ@.len())
                && after[z].no_duplicates() by {
                if z != y {
                    assert(after[z] == before[z]);
                }
            }
            assert forall|z: int| 0 <= z < first.len() implies (#[trigger] after[z]).to_set() == first[z].to_set()
                && after[z].len() == first[z].len() by {
                if z != y {
                    assert(after[z] == before[z]);
                }
                assert(before[z].to_set() == first[z].to_set());
            }
        }
        match result {
            Ok(()) => {},
            Err(e) => {
                return Err(e);
            },
        }
        k = y;
    }
    Ok(())
}

/// Reduces crossings with eight rounds of a downward sweep (by predecessor medians) and an
/// upward sweep (by successor medians). Nodes are `0..n` with `n` the length of the neighbor
/// tables; positions start as each node's index in its layer.
pub fn median_sweeps(
    layers: &mut Vec<Vec<usize>>,
    max_layer_index: usize,
    predecessor_by_layer: &Vec<Vec<usize>>,
    successor_by_layer: &Vec<Vec<usize>>,
) -> (r: Result<(), LayerError>)
    requires
        successor_by_layer@.len() == predecessor_by_layer@.len(),
        layers_valid(view_lists(old(layers)@), predecessor_by_layer@.len()),
        max_layer_index < usize::MAX,
    ensures
        same_members(view_lists(old(layers)@), view_lists(final(layers)@)),
        layers_valid(view_lists(final(layers)@), predecessor_by_layer@.len()),
        match sweep_rounds(
            view_lists(old(layers)@),
            positions_of_layers(view_lists(old(layers)@), predecessor_by_layer@.len()),
            view_lists(predecessor_by_layer@),
            view_lists(successor_by_layer@),
            max_layer_index as nat,
            8,
        ) {
            Some((l, _)) => r is Ok && view_lists(final(layers)@) == l,
            None => r is Err,
        },
{
    let n = predecessor_by_layer.len();
    let mut positions = rebuild_positions(layers, n);
    let ghost first = view_lists(layers@);
    let ghost pred = view_lists(predecessor_by_layer@);
    let ghost succ = view_lists(successor_by_layer@);
    let ghost pos0 = positions@;
    proof {
        lemma_positions_of_layers_len(first, n as nat);
    }
    let mut round: usize = 0;
    while round < 8
        invariant
            round <= 8,
            n == predecessor_by_layer@.len(),
            first == view_lists(old(layers)@),
            pos0 == positions_of_layers(first, n as nat),
            successor_by_layer@.len() == n,
            max_layer_index < usize::MAX,
            pred == view_lists(predecessor_by_layer@),
            succ == view_lists(successor_by_layer@),
            positions@.len() == n,
            layers_valid(view_lists(layers@), n as nat),
            same_members(first, view_lists(layers@)),
            sweep_rounds(first, pos0, pred, succ, max_layer_index as nat, round as nat) == Some(
                (view_lists(layers@), positions@),
            ),
        decreases 8 - round,
    {
        let ghost mid = view_lists(layers@);
        let down = sweep_down(layers, max_layer_index, predecessor_by_layer, &mut positions);
        proof {
            assert forall|z: int| 0 <= z < first.len() implies (#[trigger] view_lists(layers@)[z]).to_set()
                == first[z].to_set() && view_lists(layers@)[z].len() == first[z].len() by {
                assert(mid[z].to_set() == first[z].to_set());
            }
        }
        match down {
            Ok(()) => {},
            Err(e) => {
                proof {
                    lemma_rounds_stop(first, pos0, pred, succ, max_layer_index as nat, (round + 1) as nat, 8);
                }
                return Err(e);
            },
        }
        let ghost mid2 = view_lists(layers@);
        let up = sweep_up(layers, max_layer_index, successor_by_layer, &mut positions);
        proof {
            assert forall|z: int| 0 <= z < first.len() implies (#[trigger] view_lists(layers@)[z]).to_set()
                == first[z].to_set() && view_lists(layers@)[z].len() == first[z].len() by {
                assert(mid2[z].to_set() == first[z].to_set());
            }
        }
        match up {
            Ok(()) => {},
            Err(e) => {
                proof {
                    lemma_rounds_stop(first, pos0, pred, succ, max_layer_index as nat, (round + 1) as nat, 8);
                }
                return Err(e);
            },
        }
        round = round + 1;
    }
    Ok(())
}

/// Once a round fails, every later round count fails too.
proof fn lemma_rounds_stop(
    layers: Seq<Seq<usize>>,
    pos: Seq<Option<usize>>,
    pred: Seq<Seq<usize>>,
    succ: Seq<Seq<usize>>,
    max: nat,
    k: nat,
    m: nat,
)
    requires
        k <= m,
        sweep_rounds(layers, pos, pred, succ, max, k) is None,
    ensures
        sweep_rounds(layers, pos, pred, succ, max, m) is None,
    decreases m - k,
{
    if k < m {
        lemma_rounds_stop(layers, pos, pred, succ, max, k + 1, m);
    }
}

/// Recording layers keeps one position slot per node.
proof fn lemma_positions_of_layers_len(layers: Seq<Seq<usize>>, n: nat)
    ensures
        positions_of_layers(layers, n).len() == n,
    decreases layers.len(),
{
    if layers.len() > 0 {
        lemma_positions_of_layers_len(layers.drop_last(), n);
    }
}

} // verus!
