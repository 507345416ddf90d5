use fast_transit_network_analytics::graph::parse::parse_edge;
use fast_transit_network_analytics::graph::construct::prefix_sum;
use fast_transit_network_analytics::graph::CsrGraph;
use fast_transit_network_analytics::{EdgeErrorKind, GraphError};

#[test]
fn csr_construction_direct() {
    let g = CsrGraph::from_edge_list(&["0 1", "0 2", "1 2", "2 0"], false, true).unwrap();
    assert_eq!(g.n, 3);
    assert_eq!(g.m, 4);
    assert_eq!(g.offsets, vec![0, 2, 3, 4]);
    assert_eq!(g.edges, vec![1, 2, 2, 0]);
    assert!(g.rev_offsets.is_some());
}

#[test]
fn csr_remap() {
    let g = CsrGraph::from_edge_list(&["10 20", "20 10"], true, false).unwrap();
    assert_eq!(g.n, 2);
    assert_eq!(g.m, 2);
    assert_eq!(g.offsets, vec![0, 1, 2]);
    assert_eq!(g.edges, vec![1, 0]);
}

// Edge lists with 5 vertices / 6 edges and 10 vertices / 20 edges.
const SAMPLE_SMALL: [&str; 6] = ["0 1", "1 2", "2 3", "3 4", "4 0", "0 2"];
const SAMPLE_BIG: [&str; 20] = [
    "0 1", "1 2", "2 3", "3 4", "4 5", "5 6", "6 7", "7 8", "8 9", "9 0",
    "0 5", "1 6", "2 7", "3 8", "4 9", "0 2", "2 4", "4 6", "6 8", "8 0",
];

#[test]
fn csr_from_bench_file() {
    let g = CsrGraph::from_edge_list(&SAMPLE_SMALL, false, true).unwrap();
    assert_eq!(g.n, 5);
    assert_eq!(g.m, 6);
    let g = CsrGraph::from_edge_list(&SAMPLE_BIG, false, true).unwrap();
    assert_eq!(g.n, 10);
    assert_eq!(g.m, 20);
}

#[test]
fn csr_reverse_arrays_hold_sources_in_order() {
    let g = CsrGraph::from_edge_list(&["0 1", "0 2", "1 2", "2 0"], false, true).unwrap();
    assert_eq!(g.rev_offsets, Some(vec![0, 1, 2, 4]));
    assert_eq!(g.rev_edges, Some(vec![2, 0, 0, 1]));
    assert_eq!(g.out_neighbors(0), &[1, 2]);
    assert_eq!(g.in_neighbors(2), Some(&[0u32, 1][..]));
    assert_eq!(g.in_neighbors(0), Some(&[2u32][..]));
}

#[test]
fn csr_without_reverse_arrays() {
    let g = CsrGraph::from_edge_list(&["0 1"], false, false).unwrap();
    assert!(g.rev_offsets.is_none());
    assert!(g.rev_edges.is_none());
    assert_eq!(g.in_neighbors(0), None);
}

#[test]
fn csr_skips_blank_lines_and_extra_fields() {
    let g = CsrGraph::from_edge_list(&["", "  \t", "3 1 ignored fields", "\u{a0}1\u{2003}0\r"], false, false).unwrap();
    assert_eq!(g.n, 4);
    assert_eq!(g.m, 2);
    assert_eq!(g.offsets, vec![0, 0, 1, 1, 2]);
    assert_eq!(g.edges, vec![0, 1]);
}

#[test]
fn csr_direct_vertex_count_is_max_id_plus_one() {
    let g = CsrGraph::from_edge_list(&["7 2"], false, false).unwrap();
    assert_eq!(g.n, 8);
    assert_eq!(g.offsets, vec![0, 0, 0, 0, 0, 0, 0, 0, 1]);
    assert_eq!(g.edges, vec![2]);
}

#[test]
fn csr_empty_edge_list() {
    let g = CsrGraph::from_edge_list(&["", " "], false, true).unwrap();
    assert_eq!(g.n, 0);
    assert_eq!(g.m, 0);
    assert_eq!(g.offsets, vec![0]);
    assert_eq!(g.rev_offsets, Some(vec![0]));
}

#[test]
fn csr_remap_orders_ids() {
    let g = CsrGraph::from_edge_list(&["300 7", "7 5000000000", "5000000000 300"], true, true).unwrap();
    // 7 -> 0, 300 -> 1, 5000000000 -> 2
    assert_eq!(g.n, 3);
    assert_eq!(g.offsets, vec![0, 1, 2, 3]);
    assert_eq!(g.edges, vec![2, 0, 1]);
    assert_eq!(g.rev_edges, Some(vec![1, 2, 0]));
}

#[test]
fn csr_errors_name_the_line() {
    assert_eq!(
        CsrGraph::from_edge_list(&["0 1", "", "x 2"], false, true).unwrap_err(),
        GraphError::InvalidEdge { line: 3, kind: EdgeErrorKind::InvalidSrc }
    );
    assert_eq!(
        CsrGraph::from_edge_list(&["5"], true, true).unwrap_err(),
        GraphError::InvalidEdge { line: 1, kind: EdgeErrorKind::MissingDst }
    );
    assert_eq!(
        CsrGraph::from_edge_list(&["0 1", "1 -2"], false, false).unwrap_err(),
        GraphError::InvalidEdge { line: 2, kind: EdgeErrorKind::InvalidDst }
    );
}

#[test]
fn csr_direct_ids_must_fit_u32() {
    assert_eq!(
        CsrGraph::from_edge_list(&["0 4294967296", "x"], false, false).unwrap_err(),
        GraphError::VertexIdTooLarge
    );
    // The first offending line decides.
    assert_eq!(
        CsrGraph::from_edge_list(&["x", "0 4294967296"], false, false).unwrap_err(),
        GraphError::InvalidEdge { line: 1, kind: EdgeErrorKind::InvalidSrc }
    );
    // Remapping accepts any u64 id.
    let g = CsrGraph::from_edge_list(&["0 4294967296"], true, false).unwrap();
    assert_eq!(g.edges, vec![1]);
}

#[test]
fn parse_edge_reads_u64_fields() {
    assert_eq!(parse_edge("1 2"), Ok((1, 2)));
    assert_eq!(parse_edge("  +3\t18446744073709551615 9"), Ok((3, u64::MAX)));
    assert_eq!(parse_edge(""), Err(EdgeErrorKind::MissingSrc));
    assert_eq!(parse_edge("   "), Err(EdgeErrorKind::MissingSrc));
    assert_eq!(parse_edge("+"), Err(EdgeErrorKind::InvalidSrc));
    assert_eq!(parse_edge("-1 2"), Err(EdgeErrorKind::InvalidSrc));
    assert_eq!(parse_edge("18446744073709551616 2"), Err(EdgeErrorKind::InvalidSrc));
    assert_eq!(parse_edge("4"), Err(EdgeErrorKind::MissingDst));
    assert_eq!(parse_edge("4 2x"), Err(EdgeErrorKind::InvalidDst));
    assert_eq!(parse_edge("4 ++2"), Err(EdgeErrorKind::InvalidDst));
}

#[test]
fn prefix_sum_running_totals() {
    assert_eq!(prefix_sum(&[2, 1, 1]), vec![0, 2, 3, 4]);
    assert_eq!(prefix_sum(&[]), vec![0]);
}
