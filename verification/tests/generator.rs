use rand::rngs::StdRng;
use rand::SeedableRng;

use fast_transit_network_analytics::algorithms::bfs_par::bfs_undirected_par;
use fast_transit_network_analytics::algorithms::bfs_seq::bfs_undirected;
use fast_transit_network_analytics::algorithms::wcc_par::wcc_par;
use fast_transit_network_analytics::algorithms::wcc_seq::wcc;
use fast_transit_network_analytics::generator::er::{chunk_seed, chunk_sizes, generate_erdos_renyi};
use fast_transit_network_analytics::graph::CsrGraph;

fn edge_list_text(nodes: u32, edges: u64, seed: u64) -> Vec<String> {
    let mut rng = StdRng::seed_from_u64(seed);
    generate_erdos_renyi(nodes, edges, &mut rng)
        .iter()
        .map(|(s, d)| format!("{} {}", s, d))
        .collect()
}

fn make_graph(nodes: u32, edges: u64, seed: u64) -> CsrGraph {
    let lines = edge_list_text(nodes, edges, seed);
    let refs: Vec<&str> = lines.iter().map(|l| l.as_str()).collect();
    CsrGraph::from_edge_list(&refs, false, true).unwrap()
}

#[test]
fn er_generator_format() {
    let lines = edge_list_text(4, 5, 7);
    assert_eq!(lines.len(), 5);
    for line in &lines {
        let parts: Vec<&str> = line.split_whitespace().collect();
        assert_eq!(parts.len(), 2);
        let u: u32 = parts[0].parse().unwrap();
        let v: u32 = parts[1].parse().unwrap();
        assert!(u < 4);
        assert!(v < 4);
    }
}

#[test]
fn bfs_seq_par_equal() {
    let g = make_graph(16, 64, 42);
    let seq = bfs_undirected(&g, 0);
    let par = bfs_undirected_par(&g, 0).unwrap();
    assert_eq!(seq, par);
}

#[test]
fn wcc_seq_par_equal() {
    let g = make_graph(20, 80, 7);
    let seq = wcc(&g);
    let par = wcc_par(&g).unwrap();
    assert_eq!(seq, par);
}

#[test]
fn generator_is_deterministic_per_seed() {
    let a = edge_list_text(100, 50, 3);
    let b = edge_list_text(100, 50, 3);
    assert_eq!(a, b);
    let mut rng = StdRng::seed_from_u64(3);
    let edges = generate_erdos_renyi(1, 10, &mut rng);
    assert_eq!(edges, vec![(0, 0); 10]);
    let mut rng = StdRng::seed_from_u64(3);
    assert!(generate_erdos_renyi(0, 0, &mut rng).is_empty());
}

#[test]
fn generated_edges_stay_below_node_count() {
    let mut rng = StdRng::seed_from_u64(11);
    let edges = generate_erdos_renyi(3, 1000, &mut rng);
    assert_eq!(edges.len(), 1000);
    assert!(edges.iter().all(|&(s, d)| s < 3 && d < 3));
    // Both ends vary: the draws are not the bound handed back.
    assert!(edges.iter().any(|&(s, _)| s == 0));
    assert!(edges.iter().any(|&(_, d)| d == 2));
}

#[test]
fn chunk_sizes_split_evenly() {
    assert_eq!(chunk_sizes(10, 4), vec![3, 3, 2, 2]);
    assert_eq!(chunk_sizes(3, 5), vec![1, 1, 1, 0, 0]);
    assert_eq!(chunk_sizes(0, 2), vec![0, 0]);
    assert_eq!(chunk_sizes(u64::MAX, 1), vec![u64::MAX]);
}

#[test]
fn chunk_seed_mixes_index() {
    assert_eq!(chunk_seed(0, 0), 0x9e3779b97f4a7c15);
    assert_eq!(chunk_seed(42, 1), 42 ^ 0x9e3779b97f4a7c16);
}
