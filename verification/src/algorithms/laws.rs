use vstd::prelude::*;

use crate::graph::csr::CsrGraph;
use crate::graph::construct::lemma_csr_with_reverse_is_symmetric;
use crate::graph::reach::{lemma_arc_in_graph_at, lemma_walk_extend, lemma_walk_last_step, lemma_walk_zero};

verus! {

/// Breadth-first distances are determined by the graph and the source: any
/// two results of `bfs_undirected` and `bfs_undirected_par` on the same
/// graph and source are equal.
pub proof fn lemma_bfs_distances_unique(g: &CsrGraph, s: int, d1: Seq<i64>, d2: Seq<i64>)
    requires
        g.is_bfs_distances(s, d1),
        g.is_bfs_distances(s, d2),
    ensures
        d1 == d2,
{
    assert forall|v: int| 0 <= v < d1.len() implies d1[v] == d2[v] by {
        if g.reachable(s, v) {
            if d1[v] < d2[v] {
                assert(!g.walk(s, v, d1[v] as nat));
            } else if d2[v] < d1[v] {
                assert(!g.walk(s, v, d2[v] as nat));
            }
        }
    }
    assert(d1 =~= d2);
}

/// Component labels are determined by the graph: any two results of `wcc`
/// and `wcc_par` on the same graph are equal.
pub proof fn lemma_component_labels_unique(g: &CsrGraph, c1: Seq<u32>, c2: Seq<u32>)
    requires
        g.is_component_labels(c1),
        g.is_component_labels(c2),
    ensures
        c1 == c2,
{
    assert forall|v: int| 0 <= v < c1.len() implies c1[v] == c2[v] by {
        assert(g.reachable(c1[v] as int, v));
        assert(g.reachable(c2[v] as int, v));
        if c1[v] < c2[v] {
            assert(!g.reachable(c1[v] as int, v));
        } else if c2[v] < c1[v] {
            assert(!g.reachable(c2[v] as int, v));
        }
    }
    assert(c1 =~= c2);
}

/// A walk from `a` to `b` followed by a walk from `b` to `c` is a walk from
/// `a` to `c`.
pub proof fn lemma_walk_concat(g: &CsrGraph, a: int, b: int, c: int, k1: nat, k2: nat)
    requires
        g.walk(a, b, k1),
        g.walk(b, c, k2),
    ensures
        g.walk(a, c, k1 + k2),
    decreases k2,
{
    if k2 == 0 {
        let p = choose|p: Seq<int>| #![trigger g.is_walk(p), p.len()]
            g.is_walk(p) && p.len() == k2 + 1 && p[0] == b && p.last() == c;
    } else {
        lemma_walk_last_step(g, b, c, (k2 - 1) as nat);
        let x = choose|x: int| #[trigger] g.walk(b, x, (k2 - 1) as nat) && g.has_arc(x, c);
        lemma_walk_concat(g, a, b, x, k1, (k2 - 1) as nat);
        lemma_walk_extend(g, a, x, c, (k1 + k2 - 1) as nat);
    }
}

/// In a graph whose arcs all run both ways, walks can be reversed.
pub proof fn lemma_walk_reverse(g: &CsrGraph, a: int, b: int, k: nat)
    requires
        g.wf(),
        forall|x: int, y: int| #[trigger] g.has_arc(x, y) ==> g.has_arc(y, x),
        g.walk(a, b, k),
    ensures
        g.walk(b, a, k),
    decreases k,
{
    if k == 0 {
        let p = choose|p: Seq<int>| #![trigger g.is_walk(p), p.len()]
            g.is_walk(p) && p.len() == k + 1 && p[0] == a && p.last() == b;
    } else {
        lemma_walk_last_step(g, a, b, (k - 1) as nat);
        let x = choose|x: int| #[trigger] g.walk(a, x, (k - 1) as nat) && g.has_arc(x, b);
        lemma_walk_reverse(g, a, x, (k - 1) as nat);
        lemma_arc_in_graph_at(g, x, b);
        lemma_walk_zero(g, b);
        assert(g.has_arc(b, x));
        lemma_walk_extend(g, b, b, x, 0);
        lemma_walk_concat(g, b, x, a, 1, (k - 1) as nat);
    }
}

/// On a graph whose arcs all run both ways (such as one built with reverse
/// arrays), two vertices carry the same component label exactly when they
/// are connected.
pub proof fn lemma_same_label_iff_connected(g: &CsrGraph, comp: Seq<u32>, u: int, v: int)
    requires
        g.wf(),
        forall|x: int, y: int| #[trigger] g.has_arc(x, y) ==> g.has_arc(y, x),
        g.is_component_labels(comp),
        0 <= u < g.n,
        0 <= v < g.n,
    ensures
        comp[u] == comp[v] <==> g.reachable(u, v),
{
    let cu = comp[u] as int;
    let cv = comp[v] as int;
    assert(g.reachable(cu, u));
    assert(g.reachable(cv, v));
    let ku = choose|k: nat| #[trigger] g.walk(cu, u, k);
    let kv = choose|k: nat| #[trigger] g.walk(cv, v, k);
    if comp[u] == comp[v] {
        lemma_walk_reverse(g, cu, u, ku);
        lemma_walk_concat(g, u, cu, v, ku, kv);
        assert(g.reachable(u, v));
    }
    if g.reachable(u, v) {
        let k = choose|k: nat| #[trigger] g.walk(u, v, k);
        lemma_walk_concat(g, cu, u, v, ku, k);
        assert(g.reachable(cu, v));
        lemma_walk_reverse(g, u, v, k);
        lemma_walk_concat(g, cv, v, u, kv, k);
        assert(g.reachable(cv, u));
        if cu < cv {
            assert(!g.reachable(cu, v));
        } else if cv < cu {
            assert(!g.reachable(cv, u));
        }
    }
}

} // verus!

verus! {

/// On a graph built with reverse arrays (from an edge list, as the
/// command-line tool does), two vertices get the same weakly connected
/// component label exactly when they are connected.
pub proof fn lemma_components_of_graph_with_reverse(
    g: &CsrGraph,
    edges: Seq<(u32, u32)>,
    n: nat,
    comp: Seq<u32>,
    u: int,
    v: int,
)
    requires
        g.is_csr_of(edges, n, true),
        g.is_component_labels(comp),
        0 <= u < n,
        0 <= v < n,
    ensures
        comp[u] == comp[v] <==> g.reachable(u, v),
{
    assert forall|x: int, y: int| #[trigger] g.has_arc(x, y) implies g.has_arc(y, x) by {
        lemma_csr_with_reverse_is_symmetric(g, edges, n, x, y);
    }
    lemma_same_label_iff_connected(g, comp, u, v);
}

} // verus!
