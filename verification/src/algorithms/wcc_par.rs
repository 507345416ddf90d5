use vstd::prelude::*;

use crate::algorithms::bfs_par::lemma_candidates;
use crate::algorithms::bfs_seq::visit_neighbors;
use crate::algorithms::frontier::{expand_frontier, frontier_candidates};
use crate::error::GraphError;
use crate::graph::csr::CsrGraph;
use crate::graph::reach::{
    count_of, count_of_le_len, lemma_arc_in_graph_at, lemma_closed_labels_contain_walks,
    lemma_count_of_update, lemma_walk_ends_in_graph, lemma_walk_extend,
    lemma_walk_zero,
};

verus! {

/// Weakly connected components with every breadth-first search run level by
/// level, each level's frontier expanded as one batch; it follows the same arcs as
/// [`wcc`] and returns the same labels: every vertex is labelled with the
/// smallest vertex that reaches it.
///
/// Fails with `MissingReverse` when the graph has vertices but no reverse
/// offsets.
///
/// [`wcc`]: crate::algorithms::wcc_seq::wcc
#[verifier::rlimit(80)]
#[verifier::spinoff_prover]
pub fn wcc_par(graph: &CsrGraph) -> (res: Result<Vec<u32>, GraphError>)
    requires
        graph.wf(),
        graph.n <= u32::MAX,
    ensures
        res is Err <==> (graph.n > 0 && graph.rev_offsets is None),
        res matches Err(e) ==> e == GraphError::MissingReverse,
        res matches Ok(comp) ==> graph.is_component_labels(comp@),
{
    let n = graph.n;
    if n == 0 {
        let out: Vec<u32> = Vec::new();
        return Ok(out);
    }
    if graph.rev_offsets.is_none() {
        return Err(GraphError::MissingReverse);
    }
    let mut labels: Vec<i64> = vec![-1i64; n];
    assert(forall|w: int| 0 <= w < n ==> labels@[w] == -1);

    let mut v: usize = 0;
    while v < n
        invariant
            graph.wf(),
            n == graph.n,
            n <= u32::MAX,
            0 <= v <= n,
            labels@.len() == n,
            forall|w: int| 0 <= w < n ==> -1 <= #[trigger] labels@[w] < v,
            forall|w: int|
                0 <= w < n ==> (#[trigger] labels@[w] != -1 <==> exists|u: int|
                    0 <= u < v && #[trigger] graph.reachable(u, w)),
            forall|w: int|
                0 <= w < n && #[trigger] labels@[w] != -1 ==> graph.reachable(labels@[w] as int, w),
            forall|w: int, u: int|
                0 <= w < n && labels@[w] != -1 && 0 <= u < labels@[w] ==> !#[trigger] graph.reachable(u, w),
        decreases n - v,
    {
        let ghost vi = v as int;
        assert forall|x: int, y: int|
            0 <= x < n && labels@[x] != -1 && #[trigger] graph.has_arc(x, y) implies labels@[y] != -1 by {
            let u = choose|u: int| 0 <= u < vi && #[trigger] graph.reachable(u, x);
            let k = choose|k: nat| #[trigger] graph.walk(u, x, k);
            lemma_walk_extend(graph, u, x, y, k);
            lemma_walk_ends_in_graph(graph, u, y, k + 1);
            assert(graph.reachable(u, y));
        }
        if labels[v] != -1 {
            proof {
                assert forall|w: int| 0 <= w < n implies (#[trigger] labels@[w] != -1 <==> exists|u: int|
                    0 <= u < vi + 1 && #[trigger] graph.reachable(u, w)) by {
                    if graph.reachable(vi, w) {
                        let k = choose|k: nat| #[trigger] graph.walk(vi, w, k);
                        lemma_closed_labels_contain_walks(graph, labels@, -1i64, vi, w, k);
                    }
                }
            }
            v += 1;
            continue;
        }
        let comp_id = v as i64;
        let ghost l0 = labels@;
        proof {
            count_of_le_len(labels@, -1i64);
            lemma_count_of_update(labels@, -1i64, vi, comp_id);
            lemma_walk_zero(graph, vi);
        }
        labels.set(v, comp_id);
        let mut frontier: Vec<u32> = Vec::new();
        frontier.push(v as u32);
        assert(frontier@[0] == vi);

        while frontier.len() > 0
            invariant
                graph.wf(),
                n == graph.n,
                n <= u32::MAX,
                0 <= vi < n,
                comp_id == vi,
                l0.len() == n,
                l0[vi] == -1,
                labels@.len() == n,
                labels@[vi] == comp_id,
                frontier@.len() <= n,
                forall|w: int| 0 <= w < n && l0[w] != -1 ==> #[trigger] labels@[w] == l0[w],
                forall|w: int| 0 <= w < n && l0[w] == -1 ==> #[trigger] labels@[w] == -1 || labels@[w] == comp_id,
                forall|i: int| 0 <= i < frontier@.len() ==> #[trigger] frontier@[i] < n,
                forall|i: int| 0 <= i < frontier@.len() ==> l0[#[trigger] frontier@[i] as int] == -1,
                forall|i: int| 0 <= i < frontier@.len() ==> labels@[#[trigger] frontier@[i] as int] == comp_id,
                forall|w: int|
                    0 <= w < n && l0[w] == -1 && #[trigger] labels@[w] != -1 ==> graph.reachable(vi, w),
                forall|w: int, y: int|
                    0 <= w < n && l0[w] == -1 && labels@[w] != -1 && #[trigger] graph.has_arc(w, y) && labels@[y]
                        == -1 ==> exists|i: int| 0 <= i < frontier@.len() && #[trigger] frontier@[i] == w,
            decreases count_of(labels@, -1i64) + frontier@.len(),
        {
            let ghost d0 = labels@;
            let ghost f0 = frontier@;
            proof {
                count_of_le_len(labels@, -1i64);
            }
            let cands = expand_frontier(graph, &labels, &frontier);
            let mut next: Vec<u32> = Vec::new();
            let mut i: usize = 0;
            while i < cands.len()
                invariant
                    graph.wf(),
                    n == graph.n,
                    0 <= vi < n,
                    comp_id == vi,
                    d0.len() == n,
                    labels@.len() == n,
                    cands@.len() == f0.len(),
                    0 <= i <= cands@.len(),
                    forall|k: int| 0 <= k < f0.len() ==> #[trigger] f0[k] < n,
                    forall|k: int|
                        0 <= k < f0.len() ==> #[trigger] cands@[k]@ == frontier_candidates(graph, d0, f0[k] as int),
                    forall|w: int| 0 <= w < n && d0[w] != -1 ==> #[trigger] labels@[w] == d0[w],
                    forall|w: int| 0 <= w < n && d0[w] == -1 ==> #[trigger] labels@[w] == -1 || labels@[w] == comp_id,
                    forall|k: int, j: int|
                        0 <= k < i && 0 <= j < cands@[k]@.len() ==> labels@[#[trigger] cands@[k]@[j] as int] != -1,
                    forall|k: int| 0 <= k < next@.len() ==> #[trigger] next@[k] < n && d0[next@[k] as int] == -1
                        && labels@[next@[k] as int] == comp_id,
                    forall|w: int|
                        0 <= w < n && d0[w] == -1 && #[trigger] labels@[w] != -1 ==> exists|k: int|
                            0 <= k < next@.len() && #[trigger] next@[k] == w,
                    forall|w: int|
                        0 <= w < n && d0[w] == -1 && #[trigger] labels@[w] != -1 ==> exists|k: int, j: int|
                            0 <= k < i && 0 <= j < cands@[k]@.len() && #[trigger] cands@[k]@[j] as int == w,
                    next@.len() + count_of(labels@, -1i64) == count_of(d0, -1i64),
                decreases cands@.len() - i,
            {
                let list = &cands[i];
                proof {
                    lemma_candidates(graph, d0, f0[i as int] as int);
                    assert forall|j: int| 0 <= j < list@.len() implies list@[j] < labels@.len() by {
                        lemma_arc_in_graph_at(graph, f0[i as int] as int, list@[j] as int);
                    }
                }
                let ghost dd = labels@;
                let ghost nn = next@;
                visit_neighbors(&mut labels, &mut next, list.as_slice(), comp_id);
                proof {
                    assert forall|k: int| 0 <= k < next@.len() implies #[trigger] next@[k] < n
                        && d0[next@[k] as int] == -1 && labels@[next@[k] as int] == comp_id by {
                        if k < nn.len() {
                            assert(next@.subrange(0, nn.len() as int)[k] == nn[k]);
                        }
                    }
                    assert forall|w: int| 0 <= w < n && d0[w] == -1 && #[trigger] labels@[w] != -1 implies exists|k: int|
                        0 <= k < next@.len() && #[trigger] next@[k] == w by {
                        if dd[w] != -1 {
                            let k = choose|k: int| 0 <= k < nn.len() && #[trigger] nn[k] == w;
                            assert(next@.subrange(0, nn.len() as int)[k] == nn[k]);
                        }
                    }
                    assert forall|w: int| 0 <= w < n && d0[w] == -1 && #[trigger] labels@[w] != -1 implies exists|k: int, j: int|
                        0 <= k < i + 1 && 0 <= j < cands@[k]@.len() && #[trigger] cands@[k]@[j] as int == w by {
                        if dd[w] == -1 {
                            let j = choose|j: int| 0 <= j < list@.len() && #[trigger] list@[j] as int == w;
                            assert(cands@[i as int]@[j] as int == w);
                        }
                    }
                    assert forall|k: int, j: int|
                        0 <= k < i + 1 && 0 <= j < cands@[k]@.len() implies labels@[#[trigger] cands@[k]@[j] as int] != -1 by {
                        if k < i {
                            lemma_candidates(graph, d0, f0[k] as int);
                            assert(cands@[k]@[j] == frontier_candidates(graph, d0, f0[k] as int)[j]);
                            lemma_arc_in_graph_at(graph, f0[k] as int, cands@[k]@[j] as int);
                            assert(dd[cands@[k]@[j] as int] != -1);
                        } else {
                            assert(list@[j] == cands@[k]@[j]);
                        }
                    }
                }
                i += 1;
            }
            proof {
                count_of_le_len(labels@, -1i64);
                assert forall|w: int| 0 <= w < n && l0[w] == -1 && #[trigger] labels@[w] != -1 implies graph.reachable(vi, w) by {
                    if d0[w] == -1 {
                        let (k, j) = choose|k: int, j: int|
                            0 <= k < i && 0 <= j < cands@[k]@.len() && #[trigger] cands@[k]@[j] as int == w;
                        let x = f0[k] as int;
                        lemma_candidates(graph, d0, x);
                        assert(graph.has_arc(x, frontier_candidates(graph, d0, x)[j] as int));
                        assert(graph.reachable(vi, x));
                        let m = choose|m: nat| #[trigger] graph.walk(vi, x, m);
                        lemma_walk_extend(graph, vi, x, w, m);
                        assert(graph.reachable(vi, w));
                    }
                }
                assert forall|w: int, y: int|
                    0 <= w < n && l0[w] == -1 && labels@[w] != -1 && #[trigger] graph.has_arc(w, y) && labels@[y]
                        == -1 implies exists|k: int| 0 <= k < next@.len() && #[trigger] next@[k] == w by {
                    lemma_arc_in_graph_at(graph, w, y);
                    if d0[w] == -1 {
                    } else if d0[y] == -1 {
                        // `w` was labelled before this level: it was on the frontier.
                        let k = choose|k: int| 0 <= k < f0.len() && #[trigger] f0[k] == w;
                        lemma_candidates(graph, d0, w);
                        assert(frontier_candidates(graph, d0, w).contains(y as u32));
                        let j = choose|j: int| 0 <= j < cands@[k]@.len() && cands@[k]@[j] == y as u32;
                        assert(labels@[cands@[k]@[j] as int] != -1);
                    }
                }
            }
            frontier = next;
        }
        proof {
            let cv = labels@;
            assert forall|w: int| 0 <= w < n implies (#[trigger] cv[w] != -1 <==> exists|u: int|
                0 <= u < vi + 1 && #[trigger] graph.reachable(u, w)) by {
                if graph.reachable(vi, w) {
                    assert forall|x: int, y: int|
                        0 <= x < n && cv[x] != -1 && #[trigger] graph.has_arc(x, y) implies cv[y] != -1 by {
                        if l0[x] != -1 {
                            assert(l0[y] != -1);
                        }
                    }
                    let k = choose|k: nat| #[trigger] graph.walk(vi, w, k);
                    lemma_closed_labels_contain_walks(graph, cv, -1i64, vi, w, k);
                }
            }
            assert forall|w: int, u: int|
                0 <= w < n && cv[w] != -1 && 0 <= u < cv[w] implies !#[trigger] graph.reachable(u, w) by {
                if l0[w] == -1 && graph.reachable(u, w) {
                    assert(cv[w] == comp_id);
                    assert(l0[w] != -1);
                }
            }
        }
        v += 1;
    }
    proof {
        assert forall|w: int| 0 <= w < n implies #[trigger] labels@[w] != -1 by {
            lemma_walk_zero(graph, w);
            assert(graph.reachable(w, w));
        }
    }
    let mut out: Vec<u32> = Vec::new();
    let mut i: usize = 0;
    while i < n
        invariant
            n == graph.n,
            n <= u32::MAX,
            labels@.len() == n,
            0 <= i <= n,
            out@.len() == i,
            forall|w: int| 0 <= w < n ==> 0 <= #[trigger] labels@[w] < n,
            forall|k: int| 0 <= k < i ==> #[trigger] out@[k] as int == labels@[k] as int,
        decreases n - i,
    {
        out.push(labels[i] as u32);
        i += 1;
    }
    proof {
        assert forall|w: int| 0 <= w < n implies graph.reachable(#[trigger] out@[w] as int, w) by {
            assert(out@[w] as int == labels@[w] as int);
        }
        assert forall|w: int, u: int| 0 <= w < n && 0 <= u < out@[w] implies !#[trigger] graph.reachable(u, w) by {
            assert(out@[w] as int == labels@[w] as int);
        }
    }
    Ok(out)
}

} // verus!
