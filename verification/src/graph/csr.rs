use vstd::prelude::*;

use crate::error::GraphError;
use super::construct::{build_direct, direct_vertex_count, narrow_edges};
use super::parse::{lemma_parsed_ids_fit, lines_view, parse_edge_lines, parse_edge_lines_exec};
use super::remap::{endpoint_ids, remap_edges, remap_ids};
use super::construct::build_csr;

verus! {

/// A directed graph in compressed sparse row form.
///
/// The out-neighbours of vertex `v` are `edges[offsets[v]..offsets[v + 1]]`.
/// When the reverse arrays are present, the in-neighbours of `v` are
/// `rev_edges[rev_offsets[v]..rev_offsets[v + 1]]`.
#[derive(Clone, Debug)]
pub struct CsrGraph {
    pub n: usize,
    pub m: usize,
    pub offsets: Vec<usize>,
    pub edges: Vec<u32>,
    pub rev_offsets: Option<Vec<usize>>,
    pub rev_edges: Option<Vec<u32>>,
}

/// An offset array of a CSR structure over `n` vertices and `len` targets:
/// `n + 1` non-decreasing entries, the last one within the target array.
pub open spec fn offsets_wf(offsets: Seq<usize>, n: int, len: int) -> bool {
    &&& offsets.len() == n + 1
    &&& forall|i: int, j: int| 0 <= i <= j <= n ==> offsets[i] <= offsets[j]
    &&& offsets[n] <= len
}

/// Every target of a CSR structure is a vertex.
pub open spec fn targets_wf(targets: Seq<u32>, n: int) -> bool {
    forall|i: int| 0 <= i < targets.len() ==> targets[i] < n
}

/// What reading an edge list gives: the first line that is not an edge
/// (or, with ids taken as they are, whose ids exceed `u32::MAX`) is an
/// error; otherwise the CSR form of the edges, either over the ids as they
/// are (`0..=max_id`) or, with `remap`, over the ranks of the distinct ids.
pub open spec fn edge_list_graph(
    lines: Seq<Seq<char>>,
    remap: bool,
    build_rev: bool,
    res: Result<CsrGraph, GraphError>,
) -> bool {
    match parse_edge_lines(lines, !remap) {
        Err(e) => res == Err::<CsrGraph, GraphError>(e),
        Ok(es) => if remap {
            if endpoint_ids(es).len() > u32::MAX {
                res == Err::<CsrGraph, GraphError>(GraphError::TooManyVertices)
            } else {
                res matches Ok(g) && g.is_csr_of(remap_edges(es), endpoint_ids(es).len(), build_rev)
            }
        } else {
            if direct_vertex_count(es) > usize::MAX {
                res == Err::<CsrGraph, GraphError>(GraphError::VertexIdTooLarge)
            } else {
                res matches Ok(g) && g.is_csr_of(narrow_edges(es), direct_vertex_count(es) as nat, build_rev)
            }
        },
    }
}

impl CsrGraph {
    /// Reads a graph from the lines of an edge list (`<src> <dst>` per
    /// line, blank lines skipped, further fields ignored).
    ///
    /// Without `remap` the ids are the vertices and the graph has
    /// `max_id + 1` vertices (none for an empty list); with `remap` the
    /// distinct ids are numbered in increasing order from 0. With
    /// `build_rev` the reverse (in-neighbour) arrays are built as well.
    pub fn from_edge_list(lines: &[&str], remap: bool, build_rev: bool) -> (res: Result<CsrGraph, GraphError>)
        ensures
            edge_list_graph(lines_view(lines@), remap, build_rev, res),
    {
        let edges = match parse_edge_lines_exec(lines, !remap) {
            Ok(es) => es,
            Err(e) => {
                return Err(e);
            },
        };
        if remap {
            match remap_ids(&edges) {
                Some((mapped, n)) => Ok(build_csr(&mapped, n, build_rev)),
                None => Err(GraphError::TooManyVertices),
            }
        } else {
            proof {
                lemma_parsed_ids_fit(lines_view(lines@));
                let parsed = parse_edge_lines(lines_view(lines@), true).unwrap();
                assert(parsed == edges@);
                assert forall|i: int| 0 <= i < edges@.len() implies (#[trigger] edges@[i]).0 <= u32::MAX
                    && edges@[i].1 <= u32::MAX by {
                    assert(parsed[i] == edges@[i]);
                }
            }
            match build_direct(&edges, build_rev) {
                Some(g) => Ok(g),
                None => Err(GraphError::VertexIdTooLarge),
            }
        }
    }

    /// Whether both reverse arrays are present.
    pub open spec fn has_reverse(&self) -> bool {
        self.rev_offsets is Some && self.rev_edges is Some
    }

    /// The structural invariant that the neighbour queries and the
    /// algorithms rely on.
    pub open spec fn wf(&self) -> bool {
        &&& self.n <= u32::MAX as int + 1
        &&& offsets_wf(self.offsets@, self.n as int, self.edges@.len() as int)
        &&& targets_wf(self.edges@, self.n as int)
        &&& self.has_reverse() ==> {
            &&& offsets_wf(self.rev_offsets.unwrap()@, self.n as int, self.rev_edges.unwrap()@.len() as int)
            &&& targets_wf(self.rev_edges.unwrap()@, self.n as int)
        }
    }

    /// The out-neighbours of `v`, in stored order.
    pub open spec fn out_nbrs(&self, v: int) -> Seq<u32> {
        self.edges@.subrange(self.offsets@[v] as int, self.offsets@[v + 1] as int)
    }

    /// The in-neighbours of `v`, in stored order (empty without reverse arrays).
    pub open spec fn in_nbrs(&self, v: int) -> Seq<u32> {
        if self.has_reverse() {
            self.rev_edges.unwrap()@.subrange(
                self.rev_offsets.unwrap()@[v] as int,
                self.rev_offsets.unwrap()@[v + 1] as int,
            )
        } else {
            Seq::empty()
        }
    }

    /// Returns the out-neighbours of `v`.
    pub fn out_neighbors(&self, v: u32) -> (res: &[u32])
        requires
            self.wf(),
            v < self.n,
        ensures
            res@ == self.out_nbrs(v as int),
    {
        let v = v as usize;
        let start = self.offsets[v];
        let end = self.offsets[v + 1];
        &self.edges.as_slice()[start..end]
    }

    /// Returns the in-neighbours of `v`, or `None` when the graph holds no
    /// reverse arrays.
    pub fn in_neighbors(&self, v: u32) -> (res: Option<&[u32]>)
        requires
            self.wf(),
            v < self.n,
        ensures
            res is Some <==> self.has_reverse(),
            res matches Some(s) ==> s@ == self.in_nbrs(v as int),
    {
        match (&self.rev_offsets, &self.rev_edges) {
            (Some(offsets), Some(edges)) => {
                let v = v as usize;
                let start = offsets[v];
                let end = offsets[v + 1];
                Some(&edges.as_slice()[start..end])
            },
            _ => None,
        }
    }
}

} // verus!
