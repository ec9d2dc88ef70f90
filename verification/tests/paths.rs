use routing_core::algorithms::a_star::{a_star, a_star_parallel_batch};
use routing_core::algorithms::dijkstra::{dijkstra, dijkstra_parallel_batch};
use routing_core::graph::Graph;

/// Edges 0->1 (1), 1->2 (2), 0->2 (5): the two-hop route wins.
fn triangle() -> Graph {
    let mut g = Graph::new();
    g.add_edge(0, 1, 1);
    g.add_edge(1, 2, 2);
    g.add_edge(0, 2, 5);
    g
}

#[test]
fn triangle_shortest_route() {
    let g = triangle();
    let (d, p) = dijkstra(&g, 0, 2);
    assert_eq!(d, Some(3));
    assert_eq!(p, vec![0, 1, 2]);
}

#[test]
fn both_solvers_agree_on_triangle() {
    let g = triangle();
    for s in 0..3u32 {
        for t in 0..3u32 {
            let (dd, dp) = dijkstra(&g, s, t);
            let (ad, ap) = a_star(&g, s, t);
            assert_eq!(dd, ad);
            assert_eq!(dp, ap);
        }
    }
}

#[test]
fn same_source_and_target() {
    let g = triangle();
    assert_eq!(dijkstra(&g, 1, 1), (Some(0), vec![1]));
    assert_eq!(a_star(&g, 1, 1), (Some(0), vec![1]));
}

#[test]
fn out_of_range_index_is_unreachable() {
    let g = triangle();
    assert_eq!(dijkstra(&g, 0, 7), (None, vec![]));
    assert_eq!(dijkstra(&g, 7, 0), (None, vec![]));
    assert_eq!(a_star(&g, 0, 7), (None, vec![]));
    assert_eq!(a_star(&g, 7, 0), (None, vec![]));
}

#[test]
fn no_edges_means_unreachable() {
    let mut g = Graph::new();
    g.ensure_node(2);
    assert_eq!(g.node_count(), 3);
    assert_eq!(dijkstra(&g, 0, 2), (None, vec![]));
    assert_eq!(a_star(&g, 0, 2), (None, vec![]));
}

#[test]
fn edges_are_one_directional() {
    let mut g = Graph::new();
    g.add_edge(0, 1, 4);
    assert_eq!(dijkstra(&g, 0, 1), (Some(4), vec![0, 1]));
    assert_eq!(dijkstra(&g, 1, 0), (None, vec![]));
}

#[test]
fn repeated_query_is_identical() {
    let g = triangle();
    let first = dijkstra(&g, 0, 2);
    let second = dijkstra(&g, 0, 2);
    assert_eq!(first, second);
    let first = a_star(&g, 0, 2);
    let second = a_star(&g, 0, 2);
    assert_eq!(first, second);
}

#[test]
fn batch_matches_sequential_queries() {
    let g = triangle();
    let queries: Vec<(u32, u32)> = vec![(0, 2), (2, 0), (1, 1), (7, 0), (0, 1)];
    let batch = dijkstra_parallel_batch(&g, &queries);
    assert_eq!(batch.len(), queries.len());
    for (i, (s, t)) in queries.iter().enumerate() {
        let (d, p) = dijkstra(&g, *s, *t);
        assert_eq!(batch[i].distance, d);
        assert_eq!(batch[i].path, p);
    }
    let batch = a_star_parallel_batch(&g, &queries);
    assert_eq!(batch.len(), queries.len());
    for (i, (s, t)) in queries.iter().enumerate() {
        let (d, p) = a_star(&g, *s, *t);
        assert_eq!(batch[i].distance, d);
        assert_eq!(batch[i].path, p);
    }
}

#[test]
fn empty_batch_yields_empty_results() {
    let g = triangle();
    let queries: Vec<(u32, u32)> = Vec::new();
    assert!(dijkstra_parallel_batch(&g, &queries).is_empty());
    assert!(a_star_parallel_batch(&g, &queries).is_empty());
}

#[test]
fn batch_results_keep_input_order() {
    let g = triangle();
    let queries: Vec<(u32, u32)> = vec![(0, 2), (0, 1), (1, 2)];
    let batch = dijkstra_parallel_batch(&g, &queries);
    assert_eq!(batch[0].distance, Some(3));
    assert_eq!(batch[1].distance, Some(1));
    assert_eq!(batch[2].distance, Some(2));
}

/// Known limitation, not an optimality claim: negative weights are
/// accepted, and with them a label-setting search may answer with a
/// suboptimal route. The observed output is deterministic.
#[test]
fn negative_weights_observed_behaviour() {
    // the improvement still propagates here: the answer is the true optimum
    let mut g = Graph::new();
    g.add_edge(0, 1, -1);
    g.add_edge(1, 2, 1);
    assert_eq!(dijkstra(&g, 0, 2), (Some(0), vec![0, 1, 2]));
    assert_eq!(a_star(&g, 0, 2), (Some(0), vec![0, 1, 2]));

    // the target is extracted before the negative shortcut is found:
    // the reported distance 2 exceeds the optimal 3 + (-10) = -7
    let mut g = Graph::new();
    g.add_edge(0, 1, 2);
    g.add_edge(0, 2, 3);
    g.add_edge(2, 1, -10);
    assert_eq!(dijkstra(&g, 0, 1), (Some(2), vec![0, 1]));
    assert_eq!(a_star(&g, 0, 1), (Some(2), vec![0, 1]));
}

#[test]
fn parallel_edges_take_the_lighter_one() {
    let mut g = Graph::new();
    g.add_edge(0, 1, 5);
    g.add_edge(0, 1, 2);
    assert_eq!(dijkstra(&g, 0, 1), (Some(2), vec![0, 1]));
}

#[test]
fn reported_distance_equals_path_weight() {
    let mut g = Graph::new();
    g.add_edge(0, 1, 7);
    g.add_edge(1, 2, -3);
    g.add_edge(2, 3, 11);
    g.add_edge(0, 3, 100);
    let (d, p) = dijkstra(&g, 0, 3);
    assert_eq!(p, vec![0, 1, 2, 3]);
    assert_eq!(d, Some(7 - 3 + 11));
    let (d, p) = a_star(&g, 0, 3);
    assert_eq!(p, vec![0, 1, 2, 3]);
    assert_eq!(d, Some(15));
}

#[test]
fn graph_store_grows_and_never_shrinks() {
    let mut g = Graph::new();
    assert_eq!(g.node_count(), 0);
    g.ensure_node(4);
    assert_eq!(g.node_count(), 5);
    g.ensure_node(1);
    assert_eq!(g.node_count(), 5);
    // endpoints are registered implicitly
    g.add_edge(9, 2, 1);
    assert_eq!(g.node_count(), 10);
    assert_eq!(g.neighbors(9).len(), 1);
    assert_eq!(g.neighbors(4).len(), 0);
}

#[test]
fn heuristic_is_the_constant_zero() {
    let g = triangle();
    assert_eq!(g.heuristic(0, 2), 0);
    assert_eq!(g.heuristic(2, 2), 0);
}
