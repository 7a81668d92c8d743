use aurora_shared::layout::ids::IdTable;
use aurora_shared::layout::ordering::{
    assign_ranks, build_backbone_adjacency, build_layers, layer_neighbors, topo_sort, LayerError,
};
use aurora_shared::layout::sweeps::median_sweeps;

fn table(values: &[&str]) -> IdTable {
    let ids: Vec<String> = values.iter().map(|v| v.to_string()).collect();
    IdTable::new(&ids)
}

fn idx(t: &IdTable, id: &str) -> usize {
    t.index_of(id).expect("known id")
}

fn edges(t: &IdTable, pairs: &[(&str, &str)]) -> Vec<(usize, usize)> {
    pairs.iter().map(|(a, b)| (idx(t, a), idx(t, b))).collect()
}

fn incoming_count(incoming: &[Vec<usize>]) -> Vec<usize> {
    incoming.iter().map(|preds| preds.len()).collect()
}

fn names(t: &IdTable, layer: &[usize]) -> Vec<String> {
    layer.iter().map(|&v| t.ids[v].clone()).collect()
}

#[test]
fn assign_ranks_prefers_longest_path() {
    let t = table(&["A", "B", "C", "D"]);
    let e = edges(&t, &[("A", "B"), ("A", "C"), ("B", "D"), ("C", "D")]);
    let (outgoing, incoming) = build_backbone_adjacency(t.len(), &e);
    let order = topo_sort(t.len(), &outgoing, &incoming).expect("topo order");
    let ranks = assign_ranks(&[idx(&t, "A")], &order, &incoming).expect("ranks");

    assert_eq!(ranks[idx(&t, "A")], Some(0));
    assert_eq!(ranks[idx(&t, "B")], Some(1));
    assert_eq!(ranks[idx(&t, "C")], Some(1));
    assert_eq!(ranks[idx(&t, "D")], Some(2));
}

#[test]
fn topo_sort_rejects_cycles() {
    let t = table(&["A", "B"]);
    let e = edges(&t, &[("A", "B"), ("B", "A")]);
    let (outgoing, incoming) = build_backbone_adjacency(t.len(), &e);
    let result = topo_sort(t.len(), &outgoing, &incoming);

    assert!(matches!(result, Err(LayerError::BackboneOrderFailed)));
}

#[test]
fn median_sweeps_are_deterministic() {
    let t = table(&["A", "B", "C", "D"]);
    let e = edges(&t, &[("A", "B"), ("A", "C"), ("B", "D"), ("C", "D")]);
    let (outgoing, incoming) = build_backbone_adjacency(t.len(), &e);
    let order = topo_sort(t.len(), &outgoing, &incoming).expect("topo order");
    let ranks = assign_ranks(&[idx(&t, "A")], &order, &incoming).expect("ranks");
    let counts = incoming_count(&incoming);
    let (mut layers, max_layer_index) = build_layers(&ranks, &counts).expect("layers");
    let (predecessor_by_layer, successor_by_layer) = layer_neighbors(&ranks, &e).expect("neighbors");

    let mut second_layers = layers.clone();
    median_sweeps(&mut layers, max_layer_index, &predecessor_by_layer, &successor_by_layer)
        .expect("sweeps");
    median_sweeps(&mut second_layers, max_layer_index, &predecessor_by_layer, &successor_by_layer)
        .expect("sweeps");

    assert_eq!(layers, second_layers);
}

fn simple_two_layer_crossings(upper: &[usize], lower: &[usize], successor_by_layer: &[Vec<usize>]) -> usize {
    let mut pairs: Vec<(usize, usize)> = Vec::new();
    for (source_pos, source) in upper.iter().enumerate() {
        for target in &successor_by_layer[*source] {
            if let Some(target_pos) = lower.iter().position(|n| n == target) {
                pairs.push((source_pos, target_pos));
            }
        }
    }
    let mut crossings = 0usize;
    for i in 0..pairs.len() {
        for j in i + 1..pairs.len() {
            let (a0, b0) = pairs[i];
            let (a1, b1) = pairs[j];
            if (a0 < a1 && b0 > b1) || (a0 > a1 && b0 < b1) {
                crossings += 1;
            }
        }
    }
    crossings
}

#[test]
fn median_sweeps_reduces_simple_crossing() {
    let t = table(&["A", "B", "C", "D"]);
    let (a, b, c, d) = (idx(&t, "A"), idx(&t, "B"), idx(&t, "C"), idx(&t, "D"));
    let mut layers = vec![vec![a, b], vec![c, d]];
    let mut predecessor_by_layer = vec![Vec::new(); t.len()];
    predecessor_by_layer[c] = vec![b];
    predecessor_by_layer[d] = vec![a];
    let mut successor_by_layer = vec![Vec::new(); t.len()];
    successor_by_layer[a] = vec![d];
    successor_by_layer[b] = vec![c];

    median_sweeps(&mut layers, 1, &predecessor_by_layer, &successor_by_layer).expect("sweeps");

    let crossings = simple_two_layer_crossings(&layers[0], &layers[1], &successor_by_layer);
    assert_eq!(crossings, 0, "layers not uncrossed: {:?}", layers);
}

#[test]
fn id_table_sorts_and_dedups() {
    let t = table(&["b", "a", "c", "a"]);
    assert_eq!(t.ids, vec!["a".to_string(), "b".to_string(), "c".to_string()]);
    assert_eq!(t.index_of("c"), Some(2));
    assert_eq!(t.index_of("z"), None);
}

#[test]
fn topo_sort_takes_smallest_ready_node() {
    let t = table(&["A", "B", "C"]);
    let e = edges(&t, &[("C", "A")]);
    let (outgoing, incoming) = build_backbone_adjacency(t.len(), &e);
    let order = topo_sort(t.len(), &outgoing, &incoming).expect("order");
    assert_eq!(names(&t, &order), vec!["B", "C", "A"]);
}

#[test]
fn build_layers_centers_heaviest_nodes() {
    // Ranks: all at 0; incoming counts 3, 1, 2, 0 for nodes 0..4.
    let ranks = vec![Some(0), Some(0), Some(0), Some(0)];
    let counts = vec![3, 1, 2, 0];
    let (layers, max) = build_layers(&ranks, &counts).expect("layers");
    assert_eq!(max, 0);
    // Sorted by count: 3(0), 1(1), 2(2), 0(3); even positions 3, 2 then odd reversed 0, 1.
    assert_eq!(layers, vec![vec![3, 2, 0, 1]]);
}

#[test]
fn layer_neighbors_keeps_adjacent_layer_edges_only() {
    let ranks = vec![Some(0), Some(1), Some(2)];
    let e = vec![(0, 1), (1, 2), (0, 2)];
    let (pred, succ) = layer_neighbors(&ranks, &e).expect("neighbors");
    assert_eq!(pred, vec![vec![], vec![0], vec![1]]);
    assert_eq!(succ, vec![vec![1], vec![2], vec![]]);
    let missing = layer_neighbors(&vec![Some(0), None], &vec![(0, 1)]);
    assert_eq!(missing, Err(LayerError::MissingRank(1)));
}

#[test]
fn median_sweeps_reports_missing_layer() {
    let mut layers = vec![vec![0]];
    let pred = vec![Vec::new()];
    let succ = vec![Vec::new()];
    assert!(median_sweeps(&mut layers, 1, &pred, &succ).is_err());
}
