use aurora_shared::render::route_graph::build_visibility_graph;
use aurora_shared::render::router_geom::{CollectorSpan, Obstacle};

fn links(g: &aurora_shared::render::route_graph::Graph, v: usize) -> Vec<(usize, Option<usize>)> {
    let mut out: Vec<(usize, Option<usize>)> = g.adj[v].iter().map(|e| (e.to, e.collector_target)).collect();
    out.sort();
    out
}

#[test]
fn visibility_graph_links_every_open_neighbour() {
    let g = build_visibility_graph(&vec![], &vec![0, 10], &vec![0, 10], (0, 10, 0, 10), &vec![]);
    // Vertex index is xi * ys.len() + yi.
    assert_eq!(links(&g, 0), vec![(1, None), (2, None)]);
    assert_eq!(links(&g, 3), vec![(1, None), (2, None)]);
}

#[test]
fn visibility_graph_marks_collector_links() {
    let collectors = vec![CollectorSpan { target_ord: 3, x: 0, y_top: 0, y_bottom: 10 }];
    let g = build_visibility_graph(&vec![], &vec![0, 10], &vec![0, 10], (0, 10, 0, 10), &collectors);
    assert_eq!(links(&g, 0), vec![(1, Some(3)), (2, None)]);
    assert_eq!(links(&g, 2), vec![(0, None), (3, None)]);
}

#[test]
fn visibility_graph_cuts_links_through_obstacles() {
    let obstacles = vec![Obstacle { x0: 4, y0: -2, x1: 6, y1: 2 }];
    let g = build_visibility_graph(&obstacles, &vec![0, 10], &vec![0, 10], (0, 10, 0, 10), &vec![]);
    assert_eq!(links(&g, 0), vec![(1, None)]);
    assert_eq!(links(&g, 1), vec![(0, None), (3, None)]);
}
