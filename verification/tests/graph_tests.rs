use graph_distance::graph::Graph;
use graph_distance::traverse::bfs_order;
use graph_distance::traverse::distance_totals;
use graph_distance::traverse::sum_depths;

#[test]
fn test_average_distance() {
    let edge_list: Vec<(u64, u64)> = vec![(1, 2), (2, 3), (3, 4), (4, 5)];
    let graph = Graph::build_graph(&edge_list);
    let (sum, count) = distance_totals(&graph).unwrap();
    let average = sum as f32 / count as f32;
    assert_eq!(average, 2.0);
}

#[test]
fn test_duplicate_edges_idempotent() {
    let once = Graph::build_graph(&vec![(1, 2), (2, 3)]);
    let twice = Graph::build_graph(&vec![(1, 2), (1, 2), (2, 3), (2, 3)]);
    assert_eq!(once.vertex_count(), twice.vertex_count());
    for i in 0..once.vertex_count() {
        assert_eq!(once.vertex_at(i), twice.vertex_at(i));
    }
    for a in 0..4u64 {
        for b in 0..4u64 {
            assert_eq!(once.has_edge(a, b), twice.has_edge(a, b));
        }
    }
    assert!(once.has_edge(1, 2));
    assert!(once.has_edge(2, 3));
    assert!(!once.has_edge(2, 1));
}

#[test]
fn test_both_endpoints_become_vertices() {
    let g = Graph::build_graph(&vec![(10, 20)]);
    assert_eq!(g.vertex_count(), 2);
    assert!(g.has_vertex(10));
    assert!(g.has_vertex(20));
    assert!(g.has_edge(10, 20));
    assert!(!g.has_edge(20, 10));
}

#[test]
fn test_sparse_identifiers() {
    let g = Graph::build_graph(&vec![(1000000007, 3), (3, 999999999999)]);
    assert!(g.has_vertex(1000000007));
    assert!(g.has_vertex(999999999999));
    let (sum, count) = distance_totals(&g).unwrap();
    // 1000000007->3 (1), 1000000007->999999999999 (2), 3->999999999999 (1)
    assert_eq!(sum, 4);
    assert_eq!(count, 3);
}

#[test]
fn test_empty_graph_average_zero() {
    let g = Graph::build_graph(&vec![]);
    assert_eq!(g.vertex_count(), 0);
    let (sum, count) = distance_totals(&g).unwrap();
    assert_eq!(sum, 0);
    assert_eq!(count, 0);
}

#[test]
fn test_single_vertex_average_zero() {
    let g = Graph::build_graph(&vec![(5, 5)]);
    assert_eq!(g.vertex_count(), 1);
    let (sum, count) = distance_totals(&g).unwrap();
    assert_eq!(sum, 0);
    assert_eq!(count, 0);
}

#[test]
fn test_self_loop_never_counted() {
    let plain = Graph::build_graph(&vec![(1, 2)]);
    let looped = Graph::build_graph(&vec![(1, 2), (2, 2)]);
    assert_eq!(distance_totals(&plain).unwrap(), (1, 1));
    assert_eq!(distance_totals(&looped).unwrap(), (1, 1));
}

#[test]
fn test_path_graph_depths() {
    let g = Graph::build_graph(&vec![(1, 2), (2, 3), (3, 4), (4, 5)]);
    let from1 = bfs_order(&g, 1);
    assert_eq!(from1, vec![(1, 0), (2, 1), (3, 2), (4, 3), (5, 4)]);
    assert_eq!(sum_depths(&from1), Some(10));
    assert_eq!(from1.len() - 1, 4);
    let from2 = bfs_order(&g, 2);
    assert_eq!(sum_depths(&from2), Some(6));
    assert_eq!(from2.len() - 1, 3);
    let from3 = bfs_order(&g, 3);
    assert_eq!(sum_depths(&from3), Some(3));
    assert_eq!(from3.len() - 1, 2);
    let from4 = bfs_order(&g, 4);
    assert_eq!(sum_depths(&from4), Some(1));
    assert_eq!(from4.len() - 1, 1);
    let from5 = bfs_order(&g, 5);
    assert_eq!(sum_depths(&from5), Some(0));
    assert_eq!(from5.len() - 1, 0);
    let (sum, count) = distance_totals(&g).unwrap();
    assert_eq!((sum, count), (20, 10));
}

#[test]
fn test_bfs_depths_monotone_and_neighbors_at_one() {
    let g = Graph::build_graph(&vec![(1, 2), (1, 3), (2, 4), (3, 4), (4, 1)]);
    let order = bfs_order(&g, 1);
    assert_eq!(order[0], (1, 0));
    // direct neighbors of the source sit at depth exactly one
    for &(v, d) in order.iter() {
        if v == 2 || v == 3 {
            assert_eq!(d, 1);
        }
    }
    // depths never decrease in discovery order
    for w in order.windows(2) {
        assert!(w[0].1 <= w[1].1);
    }
    // each vertex appears once
    for i in 0..order.len() {
        for j in (i + 1)..order.len() {
            assert_ne!(order[i].0, order[j].0);
        }
    }
}

#[test]
fn test_disconnected_components() {
    let g = Graph::build_graph(&vec![(1, 2), (3, 4)]);
    let (sum, count) = distance_totals(&g).unwrap();
    assert_eq!(sum, 2);
    assert_eq!(count, 2);
}

#[test]
fn test_sink_vertex_is_still_a_source() {
    // 2 has no outgoing arcs but is reached by 1 and 3
    let g = Graph::build_graph(&vec![(1, 2), (3, 2)]);
    let from2 = bfs_order(&g, 2);
    assert_eq!(from2, vec![(2, 0)]);
    let (sum, count) = distance_totals(&g).unwrap();
    assert_eq!((sum, count), (2, 2));
}

#[test]
fn test_cycle_graph() {
    let g = Graph::build_graph(&vec![(1, 2), (2, 3), (3, 1)]);
    // from each vertex: the two others at depths 1 and 2
    let (sum, count) = distance_totals(&g).unwrap();
    assert_eq!(count, 6);
    assert_eq!(sum, 9);
    let average = sum as f32 / count as f32;
    assert_eq!(average, 1.5);
}
