use fast_transit_network_analytics::algorithms::bfs_par::bfs_undirected_par;
use fast_transit_network_analytics::algorithms::bfs_seq::bfs_undirected;
use fast_transit_network_analytics::algorithms::wcc_par::wcc_par;
use fast_transit_network_analytics::algorithms::wcc_seq::wcc;
use fast_transit_network_analytics::graph::CsrGraph;
use fast_transit_network_analytics::GraphError;

fn graph(lines: &[&str], build_rev: bool) -> CsrGraph {
    CsrGraph::from_edge_list(lines, false, build_rev).unwrap()
}

#[test]
fn bfs_small_graph() {
    let g = graph(&["0 1", "1 2", "2 3", "3 0"], true);
    let dist = bfs_undirected(&g, 0);
    assert_eq!(dist, vec![0, 1, 2, 1]);
}

#[test]
fn bfs_par_matches_seq() {
    let g = graph(&["0 1", "1 2", "2 3", "3 0"], true);
    let dist = bfs_undirected_par(&g, 0).unwrap();
    assert_eq!(dist, vec![0, 1, 2, 1]);
}

#[test]
fn wcc_two_components() {
    let g = graph(&["0 1", "1 0", "2 3"], true);
    let comp = wcc(&g);
    assert_eq!(comp[0], 0);
    assert_eq!(comp[1], 0);
    assert_eq!(comp[2], 2);
    assert_eq!(comp[3], 2);
}

#[test]
fn wcc_par_two_components() {
    let g = graph(&["0 1", "1 0", "2 3"], true);
    let comp = wcc_par(&g).unwrap();
    assert_eq!(comp[0], 0);
    assert_eq!(comp[1], 0);
    assert_eq!(comp[2], 2);
    assert_eq!(comp[3], 2);
}

#[test]
fn bfs_marks_unreachable_vertices() {
    let g = graph(&["0 1", "2 3"], true);
    assert_eq!(bfs_undirected(&g, 1), vec![1, 0, -1, -1]);
    assert_eq!(bfs_undirected_par(&g, 1).unwrap(), vec![1, 0, -1, -1]);
}

#[test]
fn bfs_source_outside_graph() {
    let g = graph(&["0 1", "1 2"], true);
    assert_eq!(bfs_undirected(&g, 7), vec![-1, -1, -1]);
    assert_eq!(bfs_undirected_par(&g, 7).unwrap(), vec![-1, -1, -1]);
}

#[test]
fn bfs_empty_graph() {
    let g = graph(&[], true);
    assert_eq!(g.n, 0);
    assert_eq!(bfs_undirected(&g, 0), Vec::<i64>::new());
    assert_eq!(bfs_undirected_par(&g, 0).unwrap(), Vec::<i64>::new());
}

#[test]
fn bfs_without_reverse_follows_out_edges_only() {
    let g = graph(&["0 1", "1 2", "3 0"], false);
    assert_eq!(bfs_undirected(&g, 0), vec![0, 1, 2, -1]);
}

#[test]
fn bfs_par_needs_reverse_arrays() {
    let g = graph(&["0 1", "1 2"], false);
    assert_eq!(bfs_undirected_par(&g, 0), Err(GraphError::MissingReverse));
    // A source outside the graph needs no traversal.
    assert_eq!(bfs_undirected_par(&g, 9).unwrap(), vec![-1, -1, -1]);
}

#[test]
fn bfs_takes_shortest_route() {
    // 0 -> 1 -> 2 -> 3 -> 4 and a shortcut 0 -> 4.
    let g = graph(&["0 1", "1 2", "2 3", "3 4", "0 4"], true);
    assert_eq!(bfs_undirected(&g, 0), vec![0, 1, 2, 2, 1]);
    assert_eq!(bfs_undirected_par(&g, 0).unwrap(), vec![0, 1, 2, 2, 1]);
    assert_eq!(bfs_undirected(&g, 2), vec![2, 1, 0, 1, 2]);
}

#[test]
fn wcc_labels_with_smallest_vertex() {
    let g = graph(&["4 3", "3 1", "5 6", "2 2"], true);
    assert_eq!(wcc(&g), vec![0, 1, 2, 1, 1, 5, 5]);
    assert_eq!(wcc_par(&g).unwrap(), vec![0, 1, 2, 1, 1, 5, 5]);
}

#[test]
fn wcc_without_reverse_labels_with_smallest_reacher() {
    // Directed: 2 -> 0 and 1 -> 3; vertex 0 cannot reach 2.
    let g = graph(&["2 0", "1 3"], false);
    assert_eq!(wcc(&g), vec![0, 1, 2, 1]);
}

#[test]
fn wcc_par_needs_reverse_arrays() {
    let g = graph(&["0 1"], false);
    assert_eq!(wcc_par(&g), Err(GraphError::MissingReverse));
    let empty = graph(&[], false);
    assert_eq!(wcc_par(&empty).unwrap(), Vec::<u32>::new());
}
