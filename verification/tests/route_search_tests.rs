use aurora_shared::render::route_graph::{AdjEdge, Graph};
use aurora_shared::render::route_search::{dijkstra_path, Reservation};
use aurora_shared::render::router_geom::PointI;

fn two_point_graph(collector: Option<usize>) -> Graph {
    Graph {
        xs: vec![0, 10],
        ys: vec![0],
        points: vec![PointI { x: 0, y: 0 }, PointI { x: 10, y: 0 }],
        present: vec![true, true],
        adj: vec![
            vec![AdjEdge { to: 1, horizontal: true, len: 10, key: 0, collector_target: collector }],
            vec![AdjEdge { to: 0, horizontal: true, len: 10, key: 0, collector_target: collector }],
        ],
    }
}

#[test]
fn dijkstra_follows_an_open_link() {
    let g = two_point_graph(None);
    let r = dijkstra_path(&g, &vec![true, false], 1, &vec![None; 4], 0, 0);
    assert_eq!(r, Some(vec![0, 1]));
}

#[test]
fn dijkstra_starting_on_the_goal_stays() {
    let g = two_point_graph(None);
    let r = dijkstra_path(&g, &vec![false, true], 1, &vec![None; 4], 0, 0);
    assert_eq!(r, Some(vec![1]));
}

#[test]
fn dijkstra_refuses_another_targets_collector() {
    let g = two_point_graph(Some(5));
    assert_eq!(dijkstra_path(&g, &vec![true, false], 1, &vec![None; 4], 0, 0), None);
    assert_eq!(dijkstra_path(&g, &vec![true, false], 1, &vec![None; 4], 0, 5), Some(vec![0, 1]));
}

#[test]
fn dijkstra_refuses_a_link_reserved_for_another_target() {
    let g = two_point_graph(None);
    let mut res = vec![None; 4];
    res[0] = Some(Reservation::TargetCollector { target: 7, count: 1 });
    assert_eq!(dijkstra_path(&g, &vec![true, false], 1, &res, 0, 0), None);
    assert_eq!(dijkstra_path(&g, &vec![true, false], 1, &res, 0, 7), Some(vec![0, 1]));
}

#[test]
fn dijkstra_refuses_a_saturated_link_of_another_source() {
    let g = two_point_graph(None);
    let mut res = vec![None; 4];
    res[0] = Some(Reservation::Source { primary: 3, count: u32::MAX });
    assert_eq!(dijkstra_path(&g, &vec![true, false], 1, &res, 0, 0), None);
    assert_eq!(dijkstra_path(&g, &vec![true, false], 1, &res, 3, 0), Some(vec![0, 1]));
    res[0] = Some(Reservation::Source { primary: 3, count: 2 });
    assert_eq!(dijkstra_path(&g, &vec![true, false], 1, &res, 0, 0), Some(vec![0, 1]));
}

#[test]
fn dijkstra_without_start_or_with_missing_goal_finds_nothing() {
    let g = two_point_graph(None);
    assert_eq!(dijkstra_path(&g, &vec![false, false], 1, &vec![None; 4], 0, 0), None);
    assert_eq!(dijkstra_path(&g, &vec![true, false], 5, &vec![None; 4], 0, 0), None);
}
