use vstd::prelude::*;

use crate::graph::csr::CsrGraph;
use crate::graph::reach::{
    count_of, count_of_le_len, lemma_closed_labels_contain_walks,
    lemma_count_of_update, lemma_walk_ends_in_graph, lemma_walk_extend, lemma_walk_zero, lemma_arc_split,
};

verus! {

/// Gives every still unlabelled vertex of `nbrs` the label `id` and appends
/// it to `queue`, in the order of `nbrs`.
fn label_neighbors(comp: &mut Vec<u32>, queue: &mut Vec<u32>, nbrs: &[u32], id: u32)
    requires
        id != u32::MAX,
        forall|j: int| 0 <= j < nbrs@.len() ==> nbrs@[j] < old(comp)@.len(),
    ensures
        final(comp)@.len() == old(comp)@.len(),
        forall|v: int|
            0 <= v < old(comp)@.len() && old(comp)@[v] != u32::MAX ==> #[trigger] final(comp)@[v] == old(comp)@[v],
        forall|v: int|
            0 <= v < old(comp)@.len() && old(comp)@[v] == u32::MAX ==> #[trigger] final(comp)@[v] == u32::MAX
                || final(comp)@[v] == id,
        forall|j: int| 0 <= j < nbrs@.len() ==> final(comp)@[#[trigger] nbrs@[j] as int] != u32::MAX,
        final(queue)@.len() >= old(queue)@.len(),
        final(queue)@.subrange(0, old(queue)@.len() as int) == old(queue)@,
        forall|i: int|
            old(queue)@.len() <= i < final(queue)@.len() ==> {
                &&& #[trigger] final(queue)@[i] < old(comp)@.len()
                &&& old(comp)@[final(queue)@[i] as int] == u32::MAX
                &&& final(comp)@[final(queue)@[i] as int] == id
            },
        forall|v: int|
            0 <= v < old(comp)@.len() && old(comp)@[v] == u32::MAX && #[trigger] final(comp)@[v] != u32::MAX
                ==> exists|i: int| old(queue)@.len() <= i < final(queue)@.len() && #[trigger] final(queue)@[i] == v,
        forall|v: int|
            0 <= v < old(comp)@.len() && old(comp)@[v] == u32::MAX && #[trigger] final(comp)@[v] != u32::MAX
                ==> exists|j: int| 0 <= j < nbrs@.len() && #[trigger] nbrs@[j] as int == v,
        final(queue)@.len() + count_of(final(comp)@, u32::MAX) == old(queue)@.len() + count_of(old(comp)@, u32::MAX),
{
    let ghost c0 = comp@;
    let ghost q0 = queue@;
    let mut j: usize = 0;
    while j < nbrs.len()
        invariant
            0 <= j <= nbrs@.len(),
            id != u32::MAX,
            forall|k: int| 0 <= k < nbrs@.len() ==> nbrs@[k] < c0.len(),
            comp@.len() == c0.len(),
            forall|v: int| 0 <= v < c0.len() && c0[v] != u32::MAX ==> #[trigger] comp@[v] == c0[v],
            forall|v: int| 0 <= v < c0.len() && c0[v] == u32::MAX ==> #[trigger] comp@[v] == u32::MAX || comp@[v] == id,
            forall|k: int| 0 <= k < j ==> comp@[#[trigger] nbrs@[k] as int] != u32::MAX,
            queue@.len() >= q0.len(),
            queue@.subrange(0, q0.len() as int) == q0,
            forall|i: int|
                q0.len() <= i < queue@.len() ==> {
                    &&& #[trigger] queue@[i] < c0.len()
                    &&& c0[queue@[i] as int] == u32::MAX
                    &&& comp@[queue@[i] as int] == id
                },
            forall|v: int|
                0 <= v < c0.len() && c0[v] == u32::MAX && #[trigger] comp@[v] != u32::MAX
                    ==> exists|i: int| q0.len() <= i < queue@.len() && #[trigger] queue@[i] == v,
            forall|v: int|
                0 <= v < c0.len() && c0[v] == u32::MAX && #[trigger] comp@[v] != u32::MAX
                    ==> exists|k: int| 0 <= k < j && #[trigger] nbrs@[k] as int == v,
            queue@.len() + count_of(comp@, u32::MAX) == q0.len() + count_of(c0, u32::MAX),
        decreases nbrs@.len() - j,
    {
        let v = nbrs[j];
        if comp[v as usize] == u32::MAX {
            proof {
                lemma_count_of_update(comp@, u32::MAX, v as int, id);
            }
            let ghost before = queue@;
            comp.set(v as usize, id);
            queue.push(v);
            assert(queue@[queue@.len() - 1] == v);
            assert forall|w: int|
                0 <= w < c0.len() && c0[w] == u32::MAX && #[trigger] comp@[w] != u32::MAX
                    implies exists|i: int| q0.len() <= i < queue@.len() && #[trigger] queue@[i] == w by {
                if w != v as int {
                    let i = choose|i: int| q0.len() <= i < before.len() && #[trigger] before[i] == w;
                    assert(queue@[i] == w);
                } else {
                    assert(queue@[queue@.len() - 1] == w);
                }
            }
            assert forall|w: int|
                0 <= w < c0.len() && c0[w] == u32::MAX && #[trigger] comp@[w] != u32::MAX
                    implies exists|k: int| 0 <= k < j + 1 && #[trigger] nbrs@[k] as int == w by {
                if w == v as int {
                    assert(nbrs@[j as int] as int == w);
                }
            }
            assert(queue@.subrange(0, q0.len() as int) =~= q0) by {
                assert(before.subrange(0, q0.len() as int) == q0);
            }
        }
        j += 1;
    }
}

/// Weakly connected components: follows out-edges and, when the graph holds
/// reverse arrays, in-edges as well.
///
/// Vertices are scanned in increasing order; each vertex that is still
/// unlabelled starts a breadth-first search that labels everything it
/// reaches with that vertex. The result labels every vertex with the
/// smallest vertex that reaches it, so on a graph built with reverse arrays
/// every vertex carries the smallest vertex of its weakly connected
/// component.
#[verifier::rlimit(60)]
#[verifier::spinoff_prover]
pub fn wcc(graph: &CsrGraph) -> (comp: Vec<u32>)
    requires
        graph.wf(),
        graph.n <= u32::MAX,
    ensures
        graph.is_component_labels(comp@),
{
    let n = graph.n;
    let mut comp: Vec<u32> = vec![u32::MAX; n];
    assert(forall|w: int| 0 <= w < n ==> comp@[w] == u32::MAX);

    let mut v: usize = 0;
    while v < n
        invariant
            graph.wf(),
            n == graph.n,
            n <= u32::MAX,
            0 <= v <= n,
            comp@.len() == n,
            forall|w: int|
                0 <= w < n ==> (#[trigger] comp@[w] != u32::MAX <==> exists|u: int|
                    0 <= u < v && #[trigger] graph.reachable(u, w)),
            forall|w: int|
                0 <= w < n && #[trigger] comp@[w] != u32::MAX ==> graph.reachable(comp@[w] as int, w),
            forall|w: int, u: int|
                0 <= w < n && comp@[w] != u32::MAX && 0 <= u < comp@[w] ==> !#[trigger] graph.reachable(u, w),
        decreases n - v,
    {
        let ghost vi = v as int;
        // The labelled vertices are closed under arcs.
        assert forall|x: int, y: int|
            0 <= x < n && comp@[x] != u32::MAX && #[trigger] graph.has_arc(x, y) implies comp@[y] != u32::MAX by {
            let u = choose|u: int| 0 <= u < vi && #[trigger] graph.reachable(u, x);
            let k = choose|k: nat| #[trigger] graph.walk(u, x, k);
            lemma_walk_extend(graph, u, x, y, k);
            lemma_walk_ends_in_graph(graph, u, y, k + 1);
            assert(graph.reachable(u, y));
        }
        if comp[v] != u32::MAX {
            proof {
                assert forall|w: int| 0 <= w < n implies (#[trigger] comp@[w] != u32::MAX <==> exists|u: int|
                    0 <= u < vi + 1 && #[trigger] graph.reachable(u, w)) by {
                    if graph.reachable(vi, w) {
                        let k = choose|k: nat| #[trigger] graph.walk(vi, w, k);
                        lemma_closed_labels_contain_walks(graph, comp@, u32::MAX, vi, w, k);
                    }
                }
            }
            v += 1;
            continue;
        }
        let comp_id = v as u32;
        let ghost c0 = comp@;
        proof {
            count_of_le_len(comp@, u32::MAX);
            lemma_count_of_update(comp@, u32::MAX, vi, comp_id);
            lemma_walk_zero(graph, vi);
        }
        comp.set(v, comp_id);
        let mut queue: Vec<u32> = Vec::new();
        queue.push(v as u32);
        assert(queue@[0] == comp_id);
        let ghost total = count_of(c0, u32::MAX);
        let mut head: usize = 0;

        while head < queue.len()
            invariant
                graph.wf(),
                n == graph.n,
                n <= u32::MAX,
                0 <= vi < n,
                comp_id == vi,
                c0.len() == n,
                c0[vi] == u32::MAX,
                comp@.len() == n,
                0 <= head <= queue@.len(),
                queue@.len() > 0,
                queue@[0] == comp_id,
                queue@.len() + count_of(comp@, u32::MAX) == total,
                forall|w: int| 0 <= w < n && c0[w] != u32::MAX ==> #[trigger] comp@[w] == c0[w],
                forall|i: int| 0 <= i < queue@.len() ==> #[trigger] queue@[i] < n,
                forall|i: int| 0 <= i < queue@.len() ==> c0[#[trigger] queue@[i] as int] == u32::MAX,
                forall|i: int| 0 <= i < queue@.len() ==> comp@[#[trigger] queue@[i] as int] == comp_id,
                forall|w: int|
                    0 <= w < n && c0[w] == u32::MAX && #[trigger] comp@[w] != u32::MAX ==> exists|i: int|
                        0 <= i < queue@.len() && #[trigger] queue@[i] == w,
                forall|w: int| 0 <= w < n && c0[w] == u32::MAX ==> #[trigger] comp@[w] == u32::MAX || comp@[w] == comp_id,
                forall|i: int| 0 <= i < queue@.len() ==> graph.reachable(vi, #[trigger] queue@[i] as int),
                forall|i: int, w: int|
                    0 <= i < head && #[trigger] graph.has_arc(queue@[i] as int, w) ==> comp@[w] != u32::MAX,
            decreases total - head,
        {
            proof {
                count_of_le_len(comp@, u32::MAX);
            }
            let u = queue[head];
            let ghost hd = head as int;
            let ghost d0 = comp@;
            let ghost q0 = queue@;
            head += 1;
            let out = graph.out_neighbors(u);
            proof {
                assert forall|j: int| 0 <= j < out@.len() implies out@[j] < comp@.len() by {
                    assert(out@[j] == graph.edges@[graph.offsets@[u as int] + j]);
                }
            }
            label_neighbors(&mut comp, &mut queue, out, comp_id);
            let ghost d1 = comp@;
            let ghost q1 = queue@;
            match graph.in_neighbors(u) {
                Some(ins) => {
                    proof {
                        assert forall|j: int| 0 <= j < ins@.len() implies ins@[j] < comp@.len() by {
                            assert(ins@[j] == graph.rev_edges.unwrap()@[graph.rev_offsets.unwrap()@[u as int] + j]);
                        }
                    }
                    label_neighbors(&mut comp, &mut queue, ins, comp_id);
                },
                None => {},
            }
            proof {
                assert forall|i: int| 0 <= i < q0.len() implies #[trigger] queue@[i] == q0[i] by {
                    assert(queue@.subrange(0, q1.len() as int)[i] == q1[i]);
                    assert(q1.subrange(0, q0.len() as int)[i] == q0[i]);
                }
                assert forall|w: int| 0 <= w < n && d0[w] != u32::MAX implies #[trigger] comp@[w] == d0[w] by {
                    assert(d1[w] == d0[w]);
                }
                assert forall|i: int| 0 <= i < queue@.len() implies #[trigger] queue@[i] < n
                    && c0[queue@[i] as int] == u32::MAX && comp@[queue@[i] as int] == comp_id
                    && graph.reachable(vi, queue@[i] as int) by {
                    if i < q0.len() {
                        assert(queue@[i] == q0[i]);
                    } else {
                        let w = queue@[i] as int;
                        if i < q1.len() {
                            assert(queue@.subrange(0, q1.len() as int)[i] == q1[i]);
                            assert(d0[w] == u32::MAX);
                            assert(d1[w] != u32::MAX);
                            let j = choose|j: int| 0 <= j < out@.len() && #[trigger] out@[j] as int == w;
                            assert(graph.out_nbrs(u as int)[j] as int == w);
                            assert(graph.has_arc(u as int, w));
                        } else {
                            assert(d1[w] == u32::MAX);
                            let ins = graph.in_nbrs(u as int);
                            let j = choose|j: int| 0 <= j < ins.len() && #[trigger] ins[j] as int == w;
                            assert(graph.has_arc(u as int, w));
                        }
                        assert(graph.reachable(vi, u as int));
                        let k = choose|k: nat| #[trigger] graph.walk(vi, u as int, k);
                        lemma_walk_extend(graph, vi, u as int, w, k);
                        assert(graph.reachable(vi, w));
                    }
                }
                assert forall|w: int| 0 <= w < n && c0[w] == u32::MAX && #[trigger] comp@[w] != u32::MAX
                    implies exists|i: int| 0 <= i < queue@.len() && #[trigger] queue@[i] == w by {
                    if d0[w] != u32::MAX {
                        let i = choose|i: int| 0 <= i < q0.len() && #[trigger] q0[i] == w;
                        assert(queue@[i] == w);
                    } else if d1[w] != u32::MAX {
                        let i = choose|i: int| q0.len() <= i < q1.len() && #[trigger] q1[i] == w;
                        assert(queue@.subrange(0, q1.len() as int)[i] == q1[i]);
                        assert(queue@[i] == w);
                    }
                }
                assert forall|i: int, w: int|
                    0 <= i < head && #[trigger] graph.has_arc(queue@[i] as int, w) implies comp@[w] != u32::MAX by {
                    if i < hd {
                        assert(queue@[i] == q0[i]);
                        assert(graph.has_arc(q0[i] as int, w));
                    } else {
                        assert(queue@[i] == u);
                        lemma_arc_split(graph, u as int, w);
                        if graph.out_arc(u as int, w) {
                            let j = choose|j: int| 0 <= j < out@.len() && #[trigger] out@[j] as int == w;
                            assert(d1[out@[j] as int] != u32::MAX);
                        } else {
                            let ins = graph.in_nbrs(u as int);
                            let j = choose|j: int| 0 <= j < ins.len() && #[trigger] ins[j] as int == w;
                            assert(comp@[ins[j] as int] != u32::MAX);
                        }
                    }
                }
            }
        }
        proof {
            let cv = comp@;
            assert(cv[queue@[0] as int] == comp_id);
            assert forall|w: int| 0 <= w < n implies (#[trigger] cv[w] != u32::MAX <==> exists|u: int|
                0 <= u < vi + 1 && #[trigger] graph.reachable(u, w)) by {
                if cv[w] != u32::MAX {
                    if c0[w] == u32::MAX {
                        let i = choose|i: int| 0 <= i < queue@.len() && #[trigger] queue@[i] == w;
                        assert(graph.reachable(vi, queue@[i] as int));
                    }
                }
                if graph.reachable(vi, w) {
                    assert forall|x: int, y: int|
                        0 <= x < n && cv[x] != u32::MAX && #[trigger] graph.has_arc(x, y) implies cv[y] != u32::MAX by {
                        if c0[x] != u32::MAX {
                            assert(c0[y] != u32::MAX);
                        } else {
                            let i = choose|i: int| 0 <= i < queue@.len() && #[trigger] queue@[i] == x;
                            assert(graph.has_arc(queue@[i] as int, y));
                        }
                    }
                    let k = choose|k: nat| #[trigger] graph.walk(vi, w, k);
                    lemma_closed_labels_contain_walks(graph, cv, u32::MAX, vi, w, k);
                }
            }
            assert forall|w: int| 0 <= w < n && #[trigger] cv[w] != u32::MAX implies graph.reachable(cv[w] as int, w) by {
                if c0[w] == u32::MAX {
                    let i = choose|i: int| 0 <= i < queue@.len() && #[trigger] queue@[i] == w;
                    assert(graph.reachable(vi, queue@[i] as int));
                }
            }
            assert forall|w: int, u: int|
                0 <= w < n && cv[w] != u32::MAX && 0 <= u < cv[w] implies !#[trigger] graph.reachable(u, w) by {
                if c0[w] == u32::MAX && graph.reachable(u, w) {
                    assert(cv[w] == comp_id);
                    assert(c0[w] != u32::MAX);
                }
            }
        }
        v += 1;
    }
    proof {
        assert forall|w: int| 0 <= w < n implies graph.reachable(#[trigger] comp@[w] as int, w) by {
            lemma_walk_zero(graph, w);
            assert(graph.reachable(w, w));
        }
    }
    comp
}

} // verus!
