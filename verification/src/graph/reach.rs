use vstd::prelude::*;

use super::csr::CsrGraph;

verus! {

impl CsrGraph {
    /// `v` is one of the out-neighbours of `u`.
    pub open spec fn out_arc(&self, u: int, v: int) -> bool {
        exists|i: int| 0 <= i < self.out_nbrs(u).len() && #[trigger] self.out_nbrs(u)[i] as int == v
    }

    /// `v` is one of the in-neighbours of `u` (only with reverse arrays).
    pub open spec fn in_arc(&self, u: int, v: int) -> bool {
        exists|i: int| 0 <= i < self.in_nbrs(u).len() && #[trigger] self.in_nbrs(u)[i] as int == v
    }

    /// One traversal step of the algorithms: from vertex `u` to `v` along an
    /// out-edge of `u`, or against an in-edge of `u` when reverse arrays exist.
    pub open spec fn has_arc(&self, u: int, v: int) -> bool {
        0 <= u < self.n && (self.out_arc(u, v) || self.in_arc(u, v))
    }

    /// `p` is a walk: a non-empty sequence of vertices joined by arcs.
    pub open spec fn is_walk(&self, p: Seq<int>) -> bool {
        &&& p.len() > 0
        &&& 0 <= p[0] < self.n
        &&& forall|i: int| 0 <= i < p.len() - 1 ==> #[trigger] self.has_arc(p[i], p[i + 1])
    }

    /// There is a walk of exactly `k` steps from vertex `s` to `v`.
    pub open spec fn walk(&self, s: int, v: int, k: nat) -> bool {
        exists|p: Seq<int>|
            #![trigger self.is_walk(p), p.len()]
            self.is_walk(p) && p.len() == k + 1 && p[0] == s && p.last() == v
    }

    /// `v` can be reached from `s`.
    pub open spec fn reachable(&self, s: int, v: int) -> bool {
        exists|k: nat| #[trigger] self.walk(s, v, k)
    }

    /// `dist` holds, for every vertex reachable from `s`, the number of steps
    /// of a shortest walk from `s`, and `-1` for every other vertex.
    pub open spec fn is_bfs_distances(&self, s: int, dist: Seq<i64>) -> bool {
        &&& dist.len() == self.n
        &&& forall|v: int| 0 <= v < self.n && !#[trigger] self.reachable(s, v) ==> dist[v] == -1
        &&& forall|v: int|
            0 <= v < self.n && #[trigger] self.reachable(s, v) ==> {
                &&& dist[v] >= 0
                &&& self.walk(s, v, dist[v] as nat)
                &&& forall|k: nat| k < dist[v] ==> !#[trigger] self.walk(s, v, k)
            }
    }

    /// `comp` labels every vertex with the smallest vertex that reaches it.
    pub open spec fn is_component_labels(&self, comp: Seq<u32>) -> bool {
        &&& comp.len() == self.n
        &&& forall|v: int| 0 <= v < self.n ==> self.reachable(#[trigger] comp[v] as int, v)
        &&& forall|v: int, u: int| 0 <= v < self.n && 0 <= u < comp[v] ==> !#[trigger] self.reachable(u, v)
    }
}

/// The number of entries of `s` equal to `x`.
pub open spec fn count_of<T>(s: Seq<T>, x: T) -> nat
    decreases s.len(),
{
    if s.len() == 0 {
        0
    } else {
        count_of(s.drop_last(), x) + if s.last() == x { 1nat } else { 0nat }
    }
}

/// Overwriting one occurrence of `x` with another value lowers its count by one.
pub proof fn lemma_count_of_update<T>(s: Seq<T>, x: T, i: int, y: T)
    requires
        0 <= i < s.len(),
        s[i] == x,
        y != x,
    ensures
        count_of(s.update(i, y), x) + 1 == count_of(s, x),
    decreases s.len(),
{
    let t = s.update(i, y);
    if i == s.len() - 1 {
        assert(t.drop_last() =~= s.drop_last());
    } else {
        lemma_count_of_update(s.drop_last(), x, i, y);
        assert(t.drop_last() =~= s.drop_last().update(i, y));
    }
}

/// Every entry of a constant sequence counts.
pub proof fn lemma_count_of_constant<T>(s: Seq<T>, x: T)
    requires
        forall|i: int| 0 <= i < s.len() ==> s[i] == x,
    ensures
        count_of(s, x) == s.len(),
    decreases s.len(),
{
    if s.len() > 0 {
        lemma_count_of_constant(s.drop_last(), x);
    }
}

/// A walk of `k + 1` steps ends with an arc from the end of a walk of `k` steps.
pub proof fn lemma_walk_extend(g: &CsrGraph, s: int, x: int, v: int, k: nat)
    requires
        g.walk(s, x, k),
        g.has_arc(x, v),
    ensures
        g.walk(s, v, k + 1),
{
    let p = choose|p: Seq<int>| #![trigger g.is_walk(p), p.len()]
        g.is_walk(p) && p.len() == k + 1 && p[0] == s && p.last() == x;
    let q = p.push(v);
    assert forall|i: int| 0 <= i < q.len() - 1 implies #[trigger] g.has_arc(q[i], q[i + 1]) by {
        if i < p.len() - 1 {
            assert(g.has_arc(p[i], p[i + 1]));
        }
    }
    assert(g.is_walk(q));
}

/// The empty walk.
pub proof fn lemma_walk_zero(g: &CsrGraph, s: int)
    requires
        0 <= s < g.n,
    ensures
        g.walk(s, s, 0),
{
    let p = seq![s];
    assert(g.is_walk(p));
}

} // verus!

verus! {

/// A walk of `k + 1` steps passes through the end of a walk of `k` steps.
pub proof fn lemma_walk_last_step(g: &CsrGraph, s: int, v: int, k: nat)
    requires
        g.walk(s, v, k + 1),
    ensures
        exists|x: int| #[trigger] g.walk(s, x, k) && g.has_arc(x, v),
{
    let p = choose|p: Seq<int>| #![trigger g.is_walk(p), p.len()]
        g.is_walk(p) && p.len() == k + 2 && p[0] == s && p.last() == v;
    let q = p.drop_last();
    assert forall|i: int| 0 <= i < q.len() - 1 implies #[trigger] g.has_arc(q[i], q[i + 1]) by {
        assert(g.has_arc(p[i], p[i + 1]));
    }
    assert(g.is_walk(q));
    assert(g.has_arc(p[k as int], p[k as int + 1]));
    assert(g.walk(s, q.last(), k));
}

/// Every vertex of a walk in a well-formed graph is a vertex of the graph.
pub proof fn lemma_walk_ends_in_graph(g: &CsrGraph, s: int, v: int, k: nat)
    requires
        g.wf(),
        g.walk(s, v, k),
    ensures
        0 <= s < g.n,
        0 <= v < g.n,
    decreases k,
{
    if k == 0 {
    } else {
        lemma_walk_last_step(g, s, v, (k - 1) as nat);
        let x = choose|x: int| #[trigger] g.walk(s, x, (k - 1) as nat) && g.has_arc(x, v);
        lemma_walk_ends_in_graph(g, s, x, (k - 1) as nat);
        lemma_arc_in_graph(g, x, v);
    }
}

/// Both ends of an arc of a well-formed graph are vertices.
pub proof fn lemma_arc_in_graph(g: &CsrGraph, u: int, v: int)
    requires
        g.wf(),
        g.has_arc(u, v),
    ensures
        0 <= v < g.n,
{
    if g.out_arc(u, v) {
        let i = choose|i: int| 0 <= i < g.out_nbrs(u).len() && #[trigger] g.out_nbrs(u)[i] as int == v;
        assert(g.out_nbrs(u)[i] == g.edges@[g.offsets@[u] + i]);
    } else {
        let i = choose|i: int| 0 <= i < g.in_nbrs(u).len() && #[trigger] g.in_nbrs(u)[i] as int == v;
        assert(g.in_nbrs(u)[i] == g.rev_edges.unwrap()@[g.rev_offsets.unwrap()@[u] + i]);
    }
}

} // verus!

verus! {

/// A count never exceeds the length.
pub proof fn count_of_le_len<T>(s: Seq<T>, x: T)
    ensures
        count_of(s, x) <= s.len(),
    decreases s.len(),
{
    if s.len() > 0 {
        count_of_le_len(s.drop_last(), x);
    }
}

} // verus!

verus! {

/// Labels that start at 0 on `s` and grow by at most one along every arc
/// leaving a labelled vertex are lower bounds of the walk lengths from `s`.
pub proof fn lemma_labels_bound_walks(g: &CsrGraph, s: int, d: Seq<i64>, v: int, k: nat)
    requires
        g.wf(),
        d.len() == g.n,
        0 <= s < g.n,
        d[s] == 0,
        forall|x: int, w: int|
            0 <= x < g.n && d[x] != -1 && #[trigger] g.has_arc(x, w) ==> d[w] != -1 && d[w] <= d[x] + 1,
        g.walk(s, v, k),
    ensures
        d[v] != -1,
        d[v] <= k,
    decreases k,
{
    if k == 0 {
        let p = choose|p: Seq<int>| #![trigger g.is_walk(p), p.len()]
            g.is_walk(p) && p.len() == k + 1 && p[0] == s && p.last() == v;
    } else {
        lemma_walk_last_step(g, s, v, (k - 1) as nat);
        let x = choose|x: int| #[trigger] g.walk(s, x, (k - 1) as nat) && g.has_arc(x, v);
        lemma_labels_bound_walks(g, s, d, x, (k - 1) as nat);
        lemma_walk_ends_in_graph(g, s, x, (k - 1) as nat);
    }
}

} // verus!

verus! {

/// A set of labelled vertices that contains `s` and is closed under arcs
/// contains every vertex reachable from `s`.
pub proof fn lemma_closed_labels_contain_walks<T>(g: &CsrGraph, comp: Seq<T>, unset: T, s: int, w: int, k: nat)
    requires
        g.wf(),
        comp.len() == g.n,
        0 <= s < g.n,
        comp[s] != unset,
        forall|x: int, y: int|
            0 <= x < g.n && comp[x] != unset && #[trigger] g.has_arc(x, y) ==> comp[y] != unset,
        g.walk(s, w, k),
    ensures
        comp[w] != unset,
    decreases k,
{
    if k == 0 {
        let p = choose|p: Seq<int>| #![trigger g.is_walk(p), p.len()]
            g.is_walk(p) && p.len() == k + 1 && p[0] == s && p.last() == w;
    } else {
        lemma_walk_last_step(g, s, w, (k - 1) as nat);
        let x = choose|x: int| #[trigger] g.walk(s, x, (k - 1) as nat) && g.has_arc(x, w);
        lemma_closed_labels_contain_walks(g, comp, unset, s, x, (k - 1) as nat);
        lemma_walk_ends_in_graph(g, s, x, (k - 1) as nat);
    }
}

} // verus!

verus! {

/// An arc is an out-arc or an in-arc.
pub proof fn lemma_arc_split(g: &CsrGraph, u: int, v: int)
    requires
        g.has_arc(u, v),
    ensures
        g.out_arc(u, v) || g.in_arc(u, v),
{
}

} // verus!

verus! {

/// Both ends of an arc of a well-formed graph are vertices.
pub proof fn lemma_arc_in_graph_at(g: &CsrGraph, u: int, v: int)
    requires
        g.wf(),
        g.has_arc(u, v),
    ensures
        0 <= u < g.n,
        0 <= v < g.n,
{
    lemma_arc_in_graph(g, u, v);
}

} // verus!

verus! {

/// Labels that are sound (each labelled vertex is the end of a walk from `s`
/// of its label's length), start at 0 on `s`, and grow by at most one along
/// every arc leaving a labelled vertex are the breadth-first distances.
pub proof fn lemma_bfs_labels_are_distances(g: &CsrGraph, s: int, d: Seq<i64>)
    requires
        g.wf(),
        d.len() == g.n,
        0 <= s < g.n,
        d[s] == 0,
        forall|v: int| 0 <= v < g.n ==> #[trigger] d[v] >= -1,
        forall|x: int, w: int|
            0 <= x < g.n && d[x] != -1 && #[trigger] g.has_arc(x, w) ==> d[w] != -1 && d[w] <= d[x] + 1,
        forall|v: int| 0 <= v < g.n && #[trigger] d[v] != -1 ==> g.walk(s, v, d[v] as nat),
    ensures
        g.is_bfs_distances(s, d),
{
    assert forall|v: int| 0 <= v < g.n && !#[trigger] g.reachable(s, v) implies d[v] == -1 by {
        if d[v] != -1 {
            assert(g.walk(s, v, d[v] as nat));
        }
    }
    assert forall|v: int| 0 <= v < g.n && #[trigger] g.reachable(s, v) implies {
        &&& d[v] >= 0
        &&& g.walk(s, v, d[v] as nat)
        &&& forall|k: nat| k < d[v] ==> !#[trigger] g.walk(s, v, k)
    } by {
        let k0 = choose|k: nat| #[trigger] g.walk(s, v, k);
        lemma_labels_bound_walks(g, s, d, v, k0);
        assert forall|k: nat| k < d[v] implies !#[trigger] g.walk(s, v, k) by {
            if g.walk(s, v, k) {
                lemma_labels_bound_walks(g, s, d, v, k);
            }
        }
    }
}

/// When `s` is not a vertex, nothing is reachable from it and all distances are `-1`.
pub proof fn lemma_bfs_outside_source(g: &CsrGraph, s: int, d: Seq<i64>)
    requires
        g.wf(),
        !(0 <= s < g.n),
        d.len() == g.n,
        forall|v: int| 0 <= v < g.n ==> d[v] == -1,
    ensures
        g.is_bfs_distances(s, d),
{
    assert forall|v: int| 0 <= v < g.n implies !#[trigger] g.reachable(s, v) by {
        if g.reachable(s, v) {
            let k = choose|k: nat| #[trigger] g.walk(s, v, k);
            lemma_walk_ends_in_graph(g, s, v, k);
        }
    }
}

} // verus!
