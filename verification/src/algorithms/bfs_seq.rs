use vstd::prelude::*;

use crate::graph::csr::CsrGraph;
use crate::graph::reach::{count_of, count_of_le_len, lemma_count_of_constant, lemma_count_of_update, lemma_walk_extend, lemma_walk_zero, lemma_bfs_labels_are_distances, lemma_bfs_outside_source};

verus! {

/// Marks every still unvisited vertex of `nbrs` with `level` and appends it
/// to `queue`, in the order of `nbrs`.
pub(crate) fn visit_neighbors(dist: &mut Vec<i64>, queue: &mut Vec<u32>, nbrs: &[u32], level: i64)
    requires
        level >= 0,
        forall|j: int| 0 <= j < nbrs@.len() ==> nbrs@[j] < old(dist)@.len(),
    ensures
        final(dist)@.len() == old(dist)@.len(),
        forall|v: int|
            0 <= v < old(dist)@.len() && old(dist)@[v] != -1 ==> #[trigger] final(dist)@[v] == old(dist)@[v],
        forall|v: int|
            0 <= v < old(dist)@.len() && old(dist)@[v] == -1 ==> #[trigger] final(dist)@[v] == -1
                || final(dist)@[v] == level,
        forall|j: int| 0 <= j < nbrs@.len() ==> final(dist)@[#[trigger] nbrs@[j] as int] != -1,
        final(queue)@.len() >= old(queue)@.len(),
        final(queue)@.subrange(0, old(queue)@.len() as int) == old(queue)@,
        forall|i: int|
            old(queue)@.len() <= i < final(queue)@.len() ==> {
                &&& #[trigger] final(queue)@[i] < old(dist)@.len()
                &&& old(dist)@[final(queue)@[i] as int] == -1
                &&& final(dist)@[final(queue)@[i] as int] == level
            },
        forall|v: int|
            0 <= v < old(dist)@.len() && old(dist)@[v] == -1 && #[trigger] final(dist)@[v] != -1
                ==> exists|i: int| old(queue)@.len() <= i < final(queue)@.len() && #[trigger] final(queue)@[i] == v,
        forall|v: int|
            0 <= v < old(dist)@.len() && old(dist)@[v] == -1 && #[trigger] final(dist)@[v] != -1
                ==> exists|j: int| 0 <= j < nbrs@.len() && #[trigger] nbrs@[j] as int == v,
        final(queue)@.len() + count_of(final(dist)@, -1i64) == old(queue)@.len() + count_of(old(dist)@, -1i64),
{
    let ghost d0 = dist@;
    let ghost q0 = queue@;
    let mut j: usize = 0;
    while j < nbrs.len()
        invariant
            0 <= j <= nbrs@.len(),
            level >= 0,
            forall|k: int| 0 <= k < nbrs@.len() ==> nbrs@[k] < d0.len(),
            dist@.len() == d0.len(),
            forall|v: int| 0 <= v < d0.len() && d0[v] != -1 ==> #[trigger] dist@[v] == d0[v],
            forall|v: int| 0 <= v < d0.len() && d0[v] == -1 ==> #[trigger] dist@[v] == -1 || dist@[v] == level,
            forall|k: int| 0 <= k < j ==> dist@[#[trigger] nbrs@[k] as int] != -1,
            queue@.len() >= q0.len(),
            queue@.subrange(0, q0.len() as int) == q0,
            forall|i: int|
                q0.len() <= i < queue@.len() ==> {
                    &&& #[trigger] queue@[i] < d0.len()
                    &&& d0[queue@[i] as int] == -1
                    &&& dist@[queue@[i] as int] == level
                },
            forall|v: int|
                0 <= v < d0.len() && d0[v] == -1 && #[trigger] dist@[v] != -1
                    ==> exists|i: int| q0.len() <= i < queue@.len() && #[trigger] queue@[i] == v,
            forall|v: int|
                0 <= v < d0.len() && d0[v] == -1 && #[trigger] dist@[v] != -1
                    ==> exists|k: int| 0 <= k < j && #[trigger] nbrs@[k] as int == v,
            queue@.len() + count_of(dist@, -1i64) == q0.len() + count_of(d0, -1i64),
        decreases nbrs@.len() - j,
    {
        let v = nbrs[j];
        if dist[v as usize] == -1 {
            proof {
                lemma_count_of_update(dist@, -1i64, v as int, level);
            }
            let ghost before = queue@;
            dist.set(v as usize, level);
            queue.push(v);
            assert(queue@[queue@.len() - 1] == v);
            assert forall|w: int|
                0 <= w < d0.len() && d0[w] == -1 && #[trigger] dist@[w] != -1
                    implies exists|i: int| q0.len() <= i < queue@.len() && #[trigger] queue@[i] == w by {
                if w != v as int {
                    let i = choose|i: int| q0.len() <= i < before.len() && #[trigger] before[i] == w;
                    assert(queue@[i] == w);
                } else {
                    assert(queue@[queue@.len() - 1] == w);
                }
            }
            assert forall|w: int|
                0 <= w < d0.len() && d0[w] == -1 && #[trigger] dist@[w] != -1
                    implies exists|k: int| 0 <= k < j + 1 && #[trigger] nbrs@[k] as int == w by {
                if w == v as int {
                    assert(nbrs@[j as int] as int == w);
                }
            }
            assert(queue@.subrange(0, q0.len() as int) =~= q0) by {
                assert(before.subrange(0, q0.len() as int) == q0);
            }
        }
        j += 1;
    }
}

/// Breadth-first search from `source` that follows out-edges and, when the
/// graph holds reverse arrays, in-edges as well (so on a graph built with
/// reverse arrays it treats the graph as undirected).
///
/// Returns, for every vertex, the number of steps of a shortest walk from
/// `source`, or `-1` for the vertices that cannot be reached (all of them
/// when `source` is not a vertex).
#[verifier::rlimit(60)]
#[verifier::spinoff_prover]
pub fn bfs_undirected(graph: &CsrGraph, source: u32) -> (dist: Vec<i64>)
    requires
        graph.wf(),
    ensures
        graph.is_bfs_distances(source as int, dist@),
{
    let n = graph.n;
    let mut dist: Vec<i64> = vec![-1i64; n];
    assert(forall|v: int| 0 <= v < n ==> dist@[v] == -1);
    if n == 0 {
        return dist;
    }
    if source as usize >= n {
        proof {
            lemma_bfs_outside_source(graph, source as int, dist@);
        }
        return dist;
    }
    let ghost s = source as int;
    proof {
        lemma_count_of_constant(dist@, -1i64);
        lemma_count_of_update(dist@, -1i64, s, 0i64);
        lemma_walk_zero(graph, s);
    }
    dist.set(source as usize, 0);
    let mut queue: Vec<u32> = Vec::new();
    queue.push(source);
    assert(queue@[0] == source);
    let mut head: usize = 0;

    while head < queue.len()
        invariant
            graph.wf(),
            n == graph.n,
            0 <= s < n,
            dist@.len() == n,
            dist@[s] == 0,
            0 <= head <= queue@.len(),
            queue@.len() + count_of(dist@, -1i64) == n,
            forall|i: int| 0 <= i < queue@.len() ==> #[trigger] queue@[i] < n,
            forall|i: int| 0 <= i < queue@.len() ==> 0 <= #[trigger] dist@[queue@[i] as int] <= i,
            forall|v: int|
                0 <= v < n && #[trigger] dist@[v] != -1 ==> exists|i: int|
                    0 <= i < queue@.len() && #[trigger] queue@[i] == v,
            forall|v: int| 0 <= v < n ==> #[trigger] dist@[v] >= -1,
            forall|i: int, j: int|
                0 <= i <= j < queue@.len() ==> dist@[#[trigger] queue@[i] as int] <= dist@[#[trigger] queue@[j] as int],
            head < queue@.len() ==> forall|j: int|
                0 <= j < queue@.len() ==> dist@[#[trigger] queue@[j] as int] <= dist@[queue@[head as int] as int] + 1,
            forall|i: int, w: int|
                0 <= i < head && #[trigger] graph.has_arc(queue@[i] as int, w) ==> dist@[w] != -1
                    && dist@[w] <= dist@[queue@[i] as int] + 1,
            forall|v: int|
                0 <= v < n && #[trigger] dist@[v] != -1 ==> graph.walk(s, v, dist@[v] as nat),
        decreases n - head,
    {
        proof {
            count_of_le_len(dist@, -1i64);
        }
        let u = queue[head];
        let du = dist[u as usize];
        let ghost hd = head as int;
        let ghost d0 = dist@;
        let ghost q0 = queue@;
        assert(du <= hd);
        head += 1;
        let out = graph.out_neighbors(u);
        proof {
            assert forall|j: int| 0 <= j < out@.len() implies out@[j] < dist@.len() by {
                assert(out@[j] == graph.edges@[graph.offsets@[u as int] + j]);
            }
        }
        visit_neighbors(&mut dist, &mut queue, out, du + 1);
        let ghost d1 = dist@;
        let ghost q1 = queue@;
        match graph.in_neighbors(u) {
            Some(ins) => {
                proof {
                    assert forall|j: int| 0 <= j < ins@.len() implies ins@[j] < dist@.len() by {
                        assert(ins@[j] == graph.rev_edges.unwrap()@[graph.rev_offsets.unwrap()@[u as int] + j]);
                    }
                }
                visit_neighbors(&mut dist, &mut queue, ins, du + 1);
            },
            None => {},
        }
        proof {
            // Entries present before the visit keep their index and label.
            assert forall|i: int| 0 <= i < q0.len() implies #[trigger] queue@[i] == q0[i] by {
                assert(queue@.subrange(0, q1.len() as int)[i] == q1[i]);
                assert(q1.subrange(0, q0.len() as int)[i] == q0[i]);
            }
            assert forall|v: int| 0 <= v < n && d0[v] != -1 implies #[trigger] dist@[v] == d0[v] by {
                assert(d1[v] == d0[v]);
            }
            assert forall|i: int| 0 <= i < queue@.len() implies #[trigger] queue@[i] < n
                && 0 <= dist@[queue@[i] as int] <= i by {
                if i < q0.len() {
                    assert(queue@[i] == q0[i]);
                } else if i < q1.len() {
                    assert(queue@.subrange(0, q1.len() as int)[i] == q1[i]);
                }
            }
            assert forall|v: int| 0 <= v < n && #[trigger] dist@[v] != -1 implies exists|i: int|
                0 <= i < queue@.len() && #[trigger] queue@[i] == v by {
                if d0[v] != -1 {
                    let i = choose|i: int| 0 <= i < q0.len() && #[trigger] q0[i] == v;
                    assert(queue@[i] == v);
                } else if d1[v] != -1 {
                    let i = choose|i: int| q0.len() <= i < q1.len() && #[trigger] q1[i] == v;
                    assert(queue@.subrange(0, q1.len() as int)[i] == q1[i]);
                    assert(queue@[i] == v);
                }
            }
            assert forall|v: int| 0 <= v < n implies #[trigger] dist@[v] >= -1 by {
                assert(d0[v] >= -1 && d1[v] >= -1);
            }
            // Every label is at most du + 1, and the new ones are exactly du + 1.
            assert forall|j: int| 0 <= j < queue@.len() implies dist@[#[trigger] queue@[j] as int] <= du + 1
                && (j >= q0.len() ==> dist@[queue@[j] as int] == du + 1) && (j >= hd ==> dist@[queue@[j] as int] >= du) by {
                if j < q0.len() {
                    assert(queue@[j] == q0[j]);
                    assert(d0[q0[j] as int] <= d0[q0[hd] as int] + 1);
                    if j >= hd {
                        assert(d0[q0[hd] as int] <= d0[q0[j] as int]);
                    }
                } else if j < q1.len() {
                    assert(queue@.subrange(0, q1.len() as int)[j] == q1[j]);
                }
            }
            assert forall|i: int, j: int| 0 <= i <= j < queue@.len() implies dist@[#[trigger] queue@[i] as int]
                <= dist@[#[trigger] queue@[j] as int] by {
                if j < q0.len() {
                    assert(queue@[i] == q0[i]);
                    assert(queue@[j] == q0[j]);
                    assert(d0[q0[i] as int] <= d0[q0[j] as int]);
                } else if i >= q0.len() {
                } else {
                    assert(dist@[queue@[i] as int] <= du + 1);
                }
            }
            if head < queue@.len() {
                assert forall|j: int| 0 <= j < queue@.len() implies dist@[#[trigger] queue@[j] as int]
                    <= dist@[queue@[head as int] as int] + 1 by {
                    assert(dist@[queue@[j] as int] <= du + 1);
                    assert(dist@[queue@[head as int] as int] >= du);
                }
            }
            assert forall|v: int| 0 <= v < n && #[trigger] dist@[v] != -1 implies graph.walk(s, v, dist@[v] as nat) by {
                if d0[v] != -1 {
                } else {
                    assert(dist@[v] == du + 1);
                    assert(graph.walk(s, u as int, du as nat));
                    assert(graph.has_arc(u as int, v));
                    lemma_walk_extend(graph, s, u as int, v, du as nat);
                }
            }
        }
    }
    proof {
        assert forall|x: int, w: int|
            0 <= x < n && dist@[x] != -1 && #[trigger] graph.has_arc(x, w) implies dist@[w] != -1
                && dist@[w] <= dist@[x] + 1 by {
            let i = choose|i: int| 0 <= i < queue@.len() && #[trigger] queue@[i] == x;
            assert(graph.has_arc(queue@[i] as int, w));
        }
        lemma_bfs_labels_are_distances(graph, s, dist@);
    }
    dist
}

} // verus!
