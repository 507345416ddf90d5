use vstd::prelude::*;

use crate::algorithms::bfs_seq::visit_neighbors;
use crate::algorithms::frontier::{expand_frontier, frontier_candidates, lemma_unvisited_members, unvisited};
use crate::error::GraphError;
use crate::graph::csr::CsrGraph;
use crate::graph::reach::{
    count_of, count_of_le_len, lemma_arc_split, lemma_count_of_constant, lemma_count_of_update,
    lemma_bfs_labels_are_distances, lemma_bfs_outside_source, lemma_walk_extend, lemma_walk_zero, lemma_arc_in_graph_at,
};

verus! {

/// A candidate of frontier vertex `u` is an unvisited vertex joined to `u`
/// by an arc, and every unvisited vertex joined to `u` is a candidate.
pub(crate) proof fn lemma_candidates(g: &CsrGraph, marks: Seq<i64>, u: int)
    requires
        g.wf(),
        0 <= u < g.n,
        marks.len() == g.n,
    ensures
        forall|k: int|
            0 <= k < frontier_candidates(g, marks, u).len() ==> g.has_arc(
                u,
                #[trigger] frontier_candidates(g, marks, u)[k] as int,
            ),
        forall|w: int| g.has_arc(u, w) && marks[w] == -1 ==> #[trigger] frontier_candidates(g, marks, u).contains(w as u32),
{
    let outs = g.out_nbrs(u);
    let ins = g.in_nbrs(u);
    lemma_unvisited_members(outs, marks);
    lemma_unvisited_members(ins, marks);
    let a = unvisited(outs, marks);
    let b = unvisited(ins, marks);
    let c = frontier_candidates(g, marks, u);
    assert forall|k: int| 0 <= k < c.len() implies g.has_arc(u, #[trigger] c[k] as int) by {
        if k < a.len() {
            assert(c[k] == a[k]);
            assert(outs.contains(a[k]));
            let j = choose|j: int| 0 <= j < outs.len() && outs[j] == a[k];
            assert(outs[j] as int == c[k] as int);
        } else {
            assert(c[k] == b[k - a.len()]);
            assert(ins.contains(b[k - a.len()]));
            let j = choose|j: int| 0 <= j < ins.len() && ins[j] == b[k - a.len()];
            assert(ins[j] as int == c[k] as int);
        }
    }
    assert forall|w: int| g.has_arc(u, w) && marks[w] == -1 implies #[trigger] c.contains(w as u32) by {
        lemma_arc_split(g, u, w);
        if g.out_arc(u, w) {
            let j = choose|j: int| 0 <= j < outs.len() && #[trigger] outs[j] as int == w;
            assert(outs[j] == w as u32);
            assert(a.contains(outs[j]));
            let k = choose|k: int| 0 <= k < a.len() && a[k] == outs[j];
            assert(c[k] == a[k]);
        } else {
            let j = choose|j: int| 0 <= j < ins.len() && #[trigger] ins[j] as int == w;
            assert(ins[j] == w as u32);
            assert(b.contains(ins[j]));
            let k = choose|k: int| 0 <= k < b.len() && b[k] == ins[j];
            assert(c[k + a.len()] == b[k]);
        }
    }
}

/// Level-synchronous breadth-first search from `source`: each level's
/// frontier is expanded as one batch against the marks of the levels before
/// it; it follows the same arcs as [`bfs_undirected`] and
/// returns the same distances.
///
/// Fails with `MissingReverse` when `source` is a vertex and the graph holds
/// no reverse offsets.
///
/// [`bfs_undirected`]: crate::algorithms::bfs_seq::bfs_undirected
#[verifier::rlimit(80)]
#[verifier::spinoff_prover]
pub fn bfs_undirected_par(graph: &CsrGraph, source: u32) -> (res: Result<Vec<i64>, GraphError>)
    requires
        graph.wf(),
    ensures
        res is Err <==> (graph.n > 0 && source < graph.n && graph.rev_offsets is None),
        res matches Err(e) ==> e == GraphError::MissingReverse,
        res matches Ok(dist) ==> graph.is_bfs_distances(source as int, dist@),
{
    let n = graph.n;
    let mut dist: Vec<i64> = vec![-1i64; n];
    assert(forall|v: int| 0 <= v < n ==> dist@[v] == -1);
    if n == 0 {
        return Ok(dist);
    }
    if source as usize >= n {
        proof {
            lemma_bfs_outside_source(graph, source as int, dist@);
        }
        return Ok(dist);
    }
    if graph.rev_offsets.is_none() {
        return Err(GraphError::MissingReverse);
    }
    let ghost s = source as int;
    proof {
        lemma_count_of_constant(dist@, -1i64);
        lemma_count_of_update(dist@, -1i64, s, 0i64);
        lemma_walk_zero(graph, s);
    }
    dist.set(source as usize, 0);
    let mut frontier: Vec<u32> = Vec::new();
    frontier.push(source);
    assert(frontier@[0] == source);
    let mut level: i64 = 0;

    while frontier.len() > 0
        invariant
            graph.wf(),
            n == graph.n,
            0 <= s < n,
            dist@.len() == n,
            dist@[s] == 0,
            0 <= level,
            level + count_of(dist@, -1i64) <= n,
            frontier@.len() > 0 ==> level + count_of(dist@, -1i64) < n,
            frontier@.len() <= n,
            forall|v: int| 0 <= v < n ==> -1 <= #[trigger] dist@[v] <= level,
            forall|i: int| 0 <= i < frontier@.len() ==> #[trigger] frontier@[i] < n,
            forall|i: int| 0 <= i < frontier@.len() ==> dist@[#[trigger] frontier@[i] as int] == level,
            forall|v: int|
                0 <= v < n && #[trigger] dist@[v] == level ==> exists|i: int|
                    0 <= i < frontier@.len() && #[trigger] frontier@[i] == v,
            forall|x: int, w: int|
                0 <= x < n && dist@[x] != -1 && dist@[x] < level && #[trigger] graph.has_arc(x, w) ==> dist@[w]
                    != -1 && dist@[w] <= dist@[x] + 1,
            forall|v: int|
                0 <= v < n && #[trigger] dist@[v] != -1 ==> graph.walk(s, v, dist@[v] as nat),
        decreases count_of(dist@, -1i64) + frontier@.len(),
    {
        let ghost d0 = dist@;
        let ghost f0 = frontier@;
        let ghost c0 = count_of(dist@, -1i64);
        level += 1;
        let cands = expand_frontier(graph, &dist, &frontier);
        let mut next: Vec<u32> = Vec::new();
        let mut i: usize = 0;
        while i < cands.len()
            invariant
                graph.wf(),
                n == graph.n,
                0 <= s < n,
                1 <= level,
                d0.len() == n,
                dist@.len() == n,
                cands@.len() == f0.len(),
                0 <= i <= cands@.len(),
                forall|k: int| 0 <= k < f0.len() ==> #[trigger] f0[k] < n,
                forall|k: int| 0 <= k < f0.len() ==> d0[#[trigger] f0[k] as int] == level - 1,
                forall|k: int|
                    0 <= k < f0.len() ==> #[trigger] cands@[k]@ == frontier_candidates(graph, d0, f0[k] as int),
                forall|v: int| 0 <= v < n && d0[v] != -1 ==> #[trigger] dist@[v] == d0[v],
                forall|v: int| 0 <= v < n && d0[v] == -1 ==> #[trigger] dist@[v] == -1 || dist@[v] == level,
                forall|k: int, j: int|
                    0 <= k < i && 0 <= j < cands@[k]@.len() ==> dist@[#[trigger] cands@[k]@[j] as int] != -1,
                forall|k: int| 0 <= k < next@.len() ==> #[trigger] next@[k] < n && dist@[next@[k] as int] == level,
                forall|v: int|
                    0 <= v < n && d0[v] == -1 && #[trigger] dist@[v] != -1 ==> exists|k: int|
                        0 <= k < next@.len() && #[trigger] next@[k] == v,
                forall|v: int|
                    0 <= v < n && d0[v] == -1 && #[trigger] dist@[v] != -1 ==> exists|k: int, j: int|
                        0 <= k < i && 0 <= j < cands@[k]@.len() && #[trigger] cands@[k]@[j] as int == v,
                next@.len() + count_of(dist@, -1i64) == count_of(d0, -1i64),
            decreases cands@.len() - i,
        {
            let list = &cands[i];
            proof {
                lemma_candidates(graph, d0, f0[i as int] as int);
                assert forall|j: int| 0 <= j < list@.len() implies list@[j] < dist@.len() by {
                    lemma_arc_in_graph_at(graph, f0[i as int] as int, list@[j] as int);
                }
            }
            let ghost dd = dist@;
            let ghost nn = next@;
            visit_neighbors(&mut dist, &mut next, list.as_slice(), level);
            proof {
                assert forall|k: int| 0 <= k < next@.len() implies #[trigger] next@[k] < n
                    && dist@[next@[k] as int] == level by {
                    if k < nn.len() {
                        assert(next@.subrange(0, nn.len() as int)[k] == nn[k]);
                    }
                }
                assert forall|v: int| 0 <= v < n && d0[v] == -1 && #[trigger] dist@[v] != -1 implies exists|k: int|
                    0 <= k < next@.len() && #[trigger] next@[k] == v by {
                    if dd[v] != -1 {
                        let k = choose|k: int| 0 <= k < nn.len() && #[trigger] nn[k] == v;
                        assert(next@.subrange(0, nn.len() as int)[k] == nn[k]);
                    }
                }
                assert forall|v: int| 0 <= v < n && d0[v] == -1 && #[trigger] dist@[v] != -1 implies exists|k: int, j: int|
                    0 <= k < i + 1 && 0 <= j < cands@[k]@.len() && #[trigger] cands@[k]@[j] as int == v by {
                    if dd[v] == -1 {
                        let j = choose|j: int| 0 <= j < list@.len() && #[trigger] list@[j] as int == v;
                        assert(cands@[i as int]@[j] as int == v);
                    }
                }
                assert forall|k: int, j: int|
                    0 <= k < i + 1 && 0 <= j < cands@[k]@.len() implies dist@[#[trigger] cands@[k]@[j] as int] != -1 by {
                    if k < i {
                        lemma_candidates(graph, d0, f0[k] as int);
                        assert(cands@[k]@[j] == frontier_candidates(graph, d0, f0[k] as int)[j]);
                        lemma_arc_in_graph_at(graph, f0[k] as int, cands@[k]@[j] as int);
                        assert(dd[cands@[k]@[j] as int] != -1);
                    } else {
                        assert(list@[j] == cands@[k]@[j]);
                    }
                }
            }
            i += 1;
        }
        proof {
            count_of_le_len(dist@, -1i64);
            // Arcs leaving the old frontier now end at labelled vertices.
            assert forall|x: int, w: int|
                0 <= x < n && dist@[x] != -1 && dist@[x] < level && #[trigger] graph.has_arc(x, w) implies dist@[w]
                    != -1 && dist@[w] <= dist@[x] + 1 by {
                assert(d0[x] != -1);
                if d0[x] < level - 1 {
                    assert(d0[w] != -1);
                } else {
                    let k = choose|k: int| 0 <= k < f0.len() && #[trigger] f0[k] == x;
                    lemma_candidates(graph, d0, x);
                    lemma_arc_in_graph_at(graph, x, w);
                    if d0[w] == -1 {
                        assert(frontier_candidates(graph, d0, x).contains(w as u32));
                        let j = choose|j: int| 0 <= j < cands@[k]@.len() && cands@[k]@[j] == w as u32;
                        assert(dist@[cands@[k]@[j] as int] != -1);
                    }
                }
            }
            assert forall|v: int| 0 <= v < n && #[trigger] dist@[v] != -1 implies graph.walk(s, v, dist@[v] as nat) by {
                if d0[v] == -1 {
                    let (k, j) = choose|k: int, j: int|
                        0 <= k < i && 0 <= j < cands@[k]@.len() && #[trigger] cands@[k]@[j] as int == v;
                    let x = f0[k] as int;
                    lemma_candidates(graph, d0, x);
                    assert(graph.has_arc(x, frontier_candidates(graph, d0, x)[j] as int));
                    lemma_walk_extend(graph, s, x, v, (level - 1) as nat);
                }
            }
            assert forall|v: int| 0 <= v < n implies -1 <= #[trigger] dist@[v] <= level by {
                assert(-1 <= d0[v] < level);
            }
            assert forall|v: int| 0 <= v < n && #[trigger] dist@[v] == level implies exists|k: int|
                0 <= k < next@.len() && #[trigger] next@[k] == v by {
            }
        }
        frontier = next;
    }
    proof {
        assert forall|x: int, w: int|
            0 <= x < n && dist@[x] != -1 && #[trigger] graph.has_arc(x, w) implies dist@[w] != -1
                && dist@[w] <= dist@[x] + 1 by {
            if dist@[x] == level {
                let i = choose|i: int| 0 <= i < frontier@.len() && #[trigger] frontier@[i] == x;
            }
        }
        lemma_bfs_labels_are_distances(graph, s, dist@);
    }
    Ok(dist)
}

} // verus!
