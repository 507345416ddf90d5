use vstd::prelude::*;

use super::csr::{offsets_wf, targets_wf, CsrGraph};

verus! {

/// The endpoint of `e` by which it is grouped: its source, or its
/// destination when `reverse` holds.
pub open spec fn key_of(e: (u32, u32), reverse: bool) -> u32 {
    if reverse { e.1 } else { e.0 }
}

/// The other endpoint of `e`.
pub open spec fn val_of(e: (u32, u32), reverse: bool) -> u32 {
    if reverse { e.0 } else { e.1 }
}

/// The other endpoints of the edges whose key is `v`, in edge order.
pub open spec fn grouped(edges: Seq<(u32, u32)>, reverse: bool, v: int) -> Seq<u32>
    decreases edges.len(),
{
    if edges.len() == 0 {
        Seq::empty()
    } else {
        let rest = grouped(edges.drop_last(), reverse, v);
        if key_of(edges.last(), reverse) as int == v {
            rest.push(val_of(edges.last(), reverse))
        } else {
            rest
        }
    }
}

/// The number of edges whose key is `v`.
pub open spec fn count_key(edges: Seq<(u32, u32)>, reverse: bool, v: int) -> nat
    decreases edges.len(),
{
    if edges.len() == 0 {
        0
    } else {
        count_key(edges.drop_last(), reverse, v) + if key_of(edges.last(), reverse) as int == v {
            1nat
        } else {
            0nat
        }
    }
}

/// The number of edges whose key is below `v`.
pub open spec fn count_below(edges: Seq<(u32, u32)>, reverse: bool, v: int) -> nat
    decreases edges.len(),
{
    if edges.len() == 0 {
        0
    } else {
        count_below(edges.drop_last(), reverse, v) + if (key_of(edges.last(), reverse) as int) < v {
            1nat
        } else {
            0nat
        }
    }
}

/// Both endpoints of every edge are below `n`.
pub open spec fn edges_below(edges: Seq<(u32, u32)>, n: int) -> bool {
    forall|i: int| 0 <= i < edges.len() ==> (#[trigger] edges[i]).0 < n && edges[i].1 < n
}

/// The sum of a sequence.
pub open spec fn seq_sum(s: Seq<usize>) -> int
    decreases s.len(),
{
    if s.len() == 0 {
        0
    } else {
        seq_sum(s.drop_last()) + s.last()
    }
}

impl CsrGraph {
    /// The graph is the CSR form of `edges` over `n` vertices: the
    /// out-neighbours of each vertex are the destinations of its edges in
    /// edge order, and, with `build_rev`, the in-neighbours of each vertex
    /// are the sources of the edges into it in edge order.
    pub open spec fn is_csr_of(&self, edges: Seq<(u32, u32)>, n: nat, build_rev: bool) -> bool {
        &&& self.wf()
        &&& self.n == n
        &&& self.m == edges.len()
        &&& self.edges@.len() == edges.len()
        &&& forall|v: int| 0 <= v <= n ==> #[trigger] self.offsets@[v] == count_below(edges, false, v)
        &&& forall|v: int| 0 <= v < n ==> #[trigger] self.out_nbrs(v) == grouped(edges, false, v)
        &&& if build_rev {
            &&& self.has_reverse()
            &&& self.rev_edges.unwrap()@.len() == edges.len()
            &&& forall|v: int|
                0 <= v <= n ==> #[trigger] self.rev_offsets.unwrap()@[v] == count_below(edges, true, v)
            &&& forall|v: int| 0 <= v < n ==> #[trigger] self.in_nbrs(v) == grouped(edges, true, v)
        } else {
            self.rev_offsets is None && self.rev_edges is None
        }
    }
}

/// Counting one more edge below `v + 1` adds the edges whose key is `v`.
pub proof fn lemma_count_below_succ(edges: Seq<(u32, u32)>, reverse: bool, v: int)
    ensures
        count_below(edges, reverse, v + 1) == count_below(edges, reverse, v) + count_key(edges, reverse, v),
    decreases edges.len(),
{
    if edges.len() > 0 {
        lemma_count_below_succ(edges.drop_last(), reverse, v);
    }
}

/// `count_below` does not decrease with its bound.
pub proof fn lemma_count_below_mono(edges: Seq<(u32, u32)>, reverse: bool, v: int, w: int)
    requires
        v <= w,
    ensures
        count_below(edges, reverse, v) <= count_below(edges, reverse, w),
    decreases edges.len(),
{
    if edges.len() > 0 {
        lemma_count_below_mono(edges.drop_last(), reverse, v, w);
    }
}

/// When every key is below `n`, all edges are counted below `n`.
pub proof fn lemma_count_below_all(edges: Seq<(u32, u32)>, reverse: bool, n: int)
    requires
        edges_below(edges, n),
    ensures
        count_below(edges, reverse, n) == edges.len(),
    decreases edges.len(),
{
    if edges.len() > 0 {
        assert(edges_below(edges.drop_last(), n)) by {
            assert forall|i: int| 0 <= i < edges.len() - 1 implies (#[trigger] edges.drop_last()[i]).0 < n
                && edges.drop_last()[i].1 < n by {
                assert(edges.drop_last()[i] == edges[i]);
            }
        }
        lemma_count_below_all(edges.drop_last(), reverse, n);
        assert(edges[edges.len() - 1] == edges.last());
    }
}

/// Counting over a prefix counts no more than over the whole.
pub proof fn lemma_count_key_prefix(edges: Seq<(u32, u32)>, reverse: bool, v: int, k: int)
    requires
        0 <= k <= edges.len(),
    ensures
        count_key(edges.take(k), reverse, v) <= count_key(edges, reverse, v),
    decreases edges.len(),
{
    if k == edges.len() {
        assert(edges.take(k) =~= edges);
    } else {
        assert(edges.drop_last().take(k) =~= edges.take(k));
        lemma_count_key_prefix(edges.drop_last(), reverse, v, k);
    }
}

/// Returns the running sums of `degrees`: entry `i` is the sum of the first
/// `i` degrees, and one more entry holds the total.
pub fn prefix_sum(degrees: &[usize]) -> (offsets: Vec<usize>)
    requires
        seq_sum(degrees@) <= usize::MAX,
    ensures
        offsets@.len() == degrees@.len() + 1,
        forall|i: int| 0 <= i <= degrees@.len() ==> #[trigger] offsets@[i] == seq_sum(degrees@.take(i)),
{
    let mut offsets: Vec<usize> = Vec::new();
    let mut sum: usize = 0;
    let mut i: usize = 0;
    assert(degrees@.take(0) =~= Seq::<usize>::empty());
    while i < degrees.len()
        invariant
            0 <= i <= degrees@.len(),
            seq_sum(degrees@) <= usize::MAX,
            offsets@.len() == i,
            sum == seq_sum(degrees@.take(i as int)),
            forall|j: int| 0 <= j < i ==> #[trigger] offsets@[j] == seq_sum(degrees@.take(j)),
        decreases degrees@.len() - i,
    {
        offsets.push(sum);
        assert(degrees@.take(i + 1).drop_last() =~= degrees@.take(i as int));
        proof {
            lemma_seq_sum_prefix(degrees@, i + 1);
        }
        sum = sum + degrees[i];
        i = i + 1;
    }
    offsets.push(sum);
    assert(degrees@.take(degrees@.len() as int) =~= degrees@);
    offsets
}

/// A prefix sum never exceeds the whole sum.
pub proof fn lemma_seq_sum_prefix(s: Seq<usize>, k: int)
    requires
        0 <= k <= s.len(),
    ensures
        0 <= seq_sum(s.take(k)) <= seq_sum(s),
    decreases s.len(),
{
    if k == s.len() {
        assert(s.take(k) =~= s);
        lemma_seq_sum_nonneg(s);
    } else {
        assert(s.drop_last().take(k) =~= s.take(k));
        lemma_seq_sum_prefix(s.drop_last(), k);
    }
}

/// A sum of sizes is not negative.
pub proof fn lemma_seq_sum_nonneg(s: Seq<usize>)
    ensures
        seq_sum(s) >= 0,
    decreases s.len(),
{
    if s.len() > 0 {
        lemma_seq_sum_nonneg(s.drop_last());
    }
}

/// No key is below 0.
pub proof fn lemma_count_below_zero(edges: Seq<(u32, u32)>, reverse: bool)
    ensures
        count_below(edges, reverse, 0) == 0,
    decreases edges.len(),
{
    if edges.len() > 0 {
        lemma_count_below_zero(edges.drop_last(), reverse);
    }
}

/// The sums of the first `v` per-key counts count the edges below `v`.
pub proof fn lemma_degree_sums(edges: Seq<(u32, u32)>, reverse: bool, deg: Seq<usize>, v: int)
    requires
        0 <= v <= deg.len(),
        forall|u: int| 0 <= u < deg.len() ==> #[trigger] deg[u] == count_key(edges, reverse, u),
    ensures
        seq_sum(deg.take(v)) == count_below(edges, reverse, v),
    decreases v,
{
    if v == 0 {
        assert(deg.take(0) =~= Seq::<usize>::empty());
        lemma_count_below_zero(edges, reverse);
    } else {
        lemma_degree_sums(edges, reverse, deg, v - 1);
        assert(deg.take(v).drop_last() =~= deg.take(v - 1));
        lemma_count_below_succ(edges, reverse, v - 1);
    }
}

/// Counts, for each vertex below `n`, the edges whose key is that vertex.
fn count_degrees(edges: &Vec<(u32, u32)>, n: usize, reverse: bool) -> (deg: Vec<usize>)
    requires
        edges_below(edges@, n as int),
    ensures
        deg@.len() == n,
        forall|v: int| 0 <= v < n ==> #[trigger] deg@[v] == count_key(edges@, reverse, v),
{
    let mut deg: Vec<usize> = vec![0usize; n];
    assert(forall|v: int| 0 <= v < n ==> deg@[v] == 0);
    let mut i: usize = 0;
    assert(edges@.take(0) =~= Seq::<(u32, u32)>::empty());
    while i < edges.len()
        invariant
            0 <= i <= edges@.len(),
            edges_below(edges@, n as int),
            deg@.len() == n,
            forall|v: int| 0 <= v < n ==> #[trigger] deg@[v] == count_key(edges@.take(i as int), reverse, v),
            forall|v: int| 0 <= v < n ==> #[trigger] deg@[v] <= i,
        decreases edges@.len() - i,
    {
        let e = edges[i];
        let k = if reverse { e.1 } else { e.0 };
        assert(edges@[i as int] == e);
        assert(edges@.take(i + 1).drop_last() =~= edges@.take(i as int));
        assert(edges@.take(i + 1).last() == e);
        let d = deg[k as usize];
        deg.set(k as usize, d + 1);
        i = i + 1;
    }
    assert(edges@.take(edges@.len() as int) =~= edges@);
    deg
}

/// Groups the edges by key in counting-sort fashion: returns the offsets of
/// each vertex's group and the other endpoints, group after group, each
/// group in edge order.
fn scatter(edges: &Vec<(u32, u32)>, n: usize, reverse: bool) -> (res: (Vec<usize>, Vec<u32>))
    requires
        edges_below(edges@, n as int),
    ensures
        offsets_wf(res.0@, n as int, res.1@.len() as int),
        targets_wf(res.1@, n as int),
        res.1@.len() == edges@.len(),
        forall|v: int| 0 <= v <= n ==> #[trigger] res.0@[v] == count_below(edges@, reverse, v),
        forall|v: int|
            0 <= v < n ==> #[trigger] res.1@.subrange(res.0@[v] as int, res.0@[v + 1] as int) == grouped(
                edges@,
                reverse,
                v,
            ),
{
    let m = edges.len();
    let deg = count_degrees(edges, n, reverse);
    proof {
        lemma_degree_sums(edges@, reverse, deg@, n as int);
        assert(deg@.take(n as int) =~= deg@);
        lemma_count_below_all(edges@, reverse, n as int);
    }
    let offsets = prefix_sum(deg.as_slice());
    proof {
        assert forall|v: int| 0 <= v <= n implies #[trigger] offsets@[v] == count_below(edges@, reverse, v) by {
            lemma_degree_sums(edges@, reverse, deg@, v);
        }
        assert forall|v: int| 0 <= v < n implies #[trigger] offsets@[v + 1] == offsets@[v] + count_key(
            edges@,
            reverse,
            v,
        ) by {
            lemma_count_below_succ(edges@, reverse, v);
        }
        assert forall|v: int, w: int| 0 <= v <= w <= n implies offsets@[v] <= offsets@[w] by {
            lemma_count_below_mono(edges@, reverse, v, w);
        }
    }
    let mut targets: Vec<u32> = vec![0u32; m];
    proof {
        if m > 0 {
            assert(edges@[0].0 < n);
        }
    }
    assert(forall|j: int| 0 <= j < m ==> targets@[j] < n);
    let mut write_pos: Vec<usize> = Vec::new();
    let mut v: usize = 0;
    while v < n
        invariant
            0 <= v <= n,
            offsets@.len() == n + 1,
            write_pos@.len() == v,
            forall|u: int| 0 <= u < v ==> #[trigger] write_pos@[u] == offsets@[u],
        decreases n - v,
    {
        write_pos.push(offsets[v]);
        v = v + 1;
    }
    let mut i: usize = 0;
    assert(edges@.take(0) =~= Seq::<(u32, u32)>::empty());
    assert forall|u: int| 0 <= u < n implies #[trigger] targets@.subrange(
        offsets@[u] as int,
        write_pos@[u] as int,
    ) == grouped(edges@.take(0), reverse, u) by {
        assert(write_pos@[u] == offsets@[u]);
        assert(offsets@[u] <= offsets@[n as int]);
        assert(targets@.subrange(offsets@[u] as int, write_pos@[u] as int) =~= Seq::<u32>::empty());
    }
    while i < m
        invariant
            0 <= i <= m,
            m == edges@.len(),
            edges_below(edges@, n as int),
            offsets@.len() == n + 1,
            offsets@[n as int] == m,
            forall|u: int| 0 <= u <= n ==> #[trigger] offsets@[u] == count_below(edges@, reverse, u),
            forall|u: int| 0 <= u < n ==> #[trigger] offsets@[u + 1] == offsets@[u] + count_key(edges@, reverse, u),
            forall|u: int, w: int| 0 <= u <= w <= n ==> offsets@[u] <= offsets@[w],
            targets@.len() == m,
            forall|j: int| 0 <= j < m ==> #[trigger] targets@[j] < n,
            write_pos@.len() == n,
            forall|u: int|
                0 <= u < n ==> #[trigger] write_pos@[u] == offsets@[u] + count_key(edges@.take(i as int), reverse, u),
            forall|u: int|
                0 <= u < n ==> #[trigger] targets@.subrange(offsets@[u] as int, write_pos@[u] as int) == grouped(
                    edges@.take(i as int),
                    reverse,
                    u,
                ),
        decreases m - i,
    {
        let e = edges[i];
        let k = if reverse { e.1 } else { e.0 };
        let val = if reverse { e.0 } else { e.1 };
        let ghost ki = k as int;
        let ghost pre = edges@.take(i as int);
        let ghost cur = edges@.take(i + 1);
        assert(edges@[i as int] == e);
        assert(cur.drop_last() =~= pre);
        assert(cur.last() == e);
        proof {
            lemma_count_key_prefix(edges@, reverse, ki, i + 1);
            assert forall|u: int| 0 <= u < n implies count_key(pre, reverse, u) <= count_key(edges@, reverse, u) by {
                lemma_count_key_prefix(edges@, reverse, u, i as int);
            }
        }
        let pos = write_pos[k as usize];
        assert(pos < offsets@[ki + 1]);
        let ghost t0 = targets@;
        let ghost w0 = write_pos@;
        targets.set(pos, val);
        write_pos.set(k as usize, pos + 1);
        proof {
            assert forall|u: int| 0 <= u < n implies #[trigger] targets@.subrange(
                offsets@[u] as int,
                write_pos@[u] as int,
            ) == grouped(cur, reverse, u) by {
                if u == ki {
                    assert(targets@.subrange(offsets@[u] as int, write_pos@[u] as int) =~= t0.subrange(
                        offsets@[u] as int,
                        w0[u] as int,
                    ).push(val));
                } else {
                    assert(write_pos@[u] == w0[u]);
                    assert(count_key(pre, reverse, u) <= count_key(edges@, reverse, u));
                    assert(w0[u] <= offsets@[u + 1]);
                    assert(pos >= offsets@[ki]);
                    if u < ki {
                        assert(offsets@[u + 1] <= offsets@[ki]);
                    } else {
                        assert(offsets@[ki + 1] <= offsets@[u]);
                    }
                    assert(targets@.subrange(offsets@[u] as int, write_pos@[u] as int) =~= t0.subrange(
                        offsets@[u] as int,
                        w0[u] as int,
                    ));
                }
            }
        }
        i = i + 1;
    }
    assert(edges@.take(m as int) =~= edges@);
    assert forall|v: int| 0 <= v < n implies #[trigger] targets@.subrange(
        offsets@[v] as int,
        offsets@[v + 1] as int,
    ) == grouped(edges@, reverse, v) by {
        assert(write_pos@[v] == offsets@[v + 1]);
    }
    (offsets, targets)
}

/// Builds the CSR form of `edges` over `n` vertices, with the reverse
/// arrays when `build_rev` holds.
pub fn build_csr(edges: &Vec<(u32, u32)>, n: usize, build_rev: bool) -> (g: CsrGraph)
    requires
        edges_below(edges@, n as int),
        n <= u32::MAX as int + 1,
    ensures
        g.is_csr_of(edges@, n as nat, build_rev),
{
    let (offsets, targets) = scatter(edges, n, false);
    let (rev_offsets, rev_edges) = if build_rev {
        let (ro, re) = scatter(edges, n, true);
        (Some(ro), Some(re))
    } else {
        (None, None)
    };
    let g = CsrGraph { n, m: edges.len(), offsets, edges: targets, rev_offsets, rev_edges };
    assert forall|v: int| 0 <= v < n implies #[trigger] g.out_nbrs(v) == grouped(edges@, false, v) by {}
    if build_rev {
        assert forall|v: int| 0 <= v < n implies #[trigger] g.in_nbrs(v) == grouped(edges@, true, v) by {}
    }
    g
}

} // verus!

verus! {

/// The largest id of `edges` (0 for no edges).
pub open spec fn max_endpoint(edges: Seq<(u64, u64)>) -> int
    decreases edges.len(),
{
    if edges.len() == 0 {
        0
    } else {
        let m = max_endpoint(edges.drop_last());
        let e = edges.last();
        let a = if e.0 > e.1 { e.0 as int } else { e.1 as int };
        if a > m { a } else { m }
    }
}

/// The number of vertices when ids are taken as they are: one more than the
/// largest id, or 0 for no edges.
pub open spec fn direct_vertex_count(edges: Seq<(u64, u64)>) -> int {
    if edges.len() == 0 { 0 } else { max_endpoint(edges) + 1 }
}

/// `edges` with its ids taken as `u32`.
pub open spec fn narrow_edges(edges: Seq<(u64, u64)>) -> Seq<(u32, u32)> {
    edges.map_values(|e: (u64, u64)| (e.0 as u32, e.1 as u32))
}

/// Every id is at most the largest one.
pub proof fn lemma_max_endpoint_bounds(edges: Seq<(u64, u64)>, k: int)
    requires
        0 <= k < edges.len(),
    ensures
        edges[k].0 <= max_endpoint(edges),
        edges[k].1 <= max_endpoint(edges),
        max_endpoint(edges) >= 0,
    decreases edges.len(),
{
    if k < edges.len() - 1 {
        lemma_max_endpoint_bounds(edges.drop_last(), k);
        assert(edges.drop_last()[k] == edges[k]);
    } else if edges.len() > 1 {
        lemma_max_endpoint_bounds(edges.drop_last(), 0);
    }
}

/// The largest id is at most any common bound of the ids.
pub proof fn lemma_max_endpoint_at_most(edges: Seq<(u64, u64)>, bound: int)
    requires
        bound >= 0,
        forall|i: int| 0 <= i < edges.len() ==> (#[trigger] edges[i]).0 <= bound && edges[i].1 <= bound,
    ensures
        max_endpoint(edges) <= bound,
    decreases edges.len(),
{
    if edges.len() > 0 {
        assert forall|i: int| 0 <= i < edges.len() - 1 implies (#[trigger] edges.drop_last()[i]).0 <= bound
            && edges.drop_last()[i].1 <= bound by {
            assert(edges.drop_last()[i] == edges[i]);
        }
        lemma_max_endpoint_at_most(edges.drop_last(), bound);
        assert(edges[edges.len() - 1] == edges.last());
    }
}

/// Returns the largest id of `edges` (0 for no edges).
fn largest_id(edges: &Vec<(u64, u64)>) -> (res: u64)
    ensures
        res == max_endpoint(edges@),
{
    let mut best: u64 = 0;
    let mut i: usize = 0;
    assert(edges@.take(0) =~= Seq::<(u64, u64)>::empty());
    while i < edges.len()
        invariant
            0 <= i <= edges@.len(),
            best == max_endpoint(edges@.take(i as int)),
        decreases edges@.len() - i,
    {
        let e = edges[i];
        assert(edges@.take(i + 1).drop_last() =~= edges@.take(i as int));
        assert(edges@.take(i + 1).last() == e);
        let a = if e.0 > e.1 { e.0 } else { e.1 };
        if a > best {
            best = a;
        }
        i = i + 1;
    }
    assert(edges@.take(edges@.len() as int) =~= edges@);
    best
}

/// The ids of `edges` taken as `u32`.
fn narrow(edges: &Vec<(u64, u64)>) -> (res: Vec<(u32, u32)>)
    requires
        forall|i: int| 0 <= i < edges@.len() ==> (#[trigger] edges@[i]).0 <= u32::MAX && edges@[i].1 <= u32::MAX,
    ensures
        res@ == narrow_edges(edges@),
{
    let mut res: Vec<(u32, u32)> = Vec::new();
    let mut i: usize = 0;
    while i < edges.len()
        invariant
            0 <= i <= edges@.len(),
            forall|k: int| 0 <= k < edges@.len() ==> (#[trigger] edges@[k]).0 <= u32::MAX && edges@[k].1 <= u32::MAX,
            res@ == narrow_edges(edges@).take(i as int),
        decreases edges@.len() - i,
    {
        let e = edges[i];
        assert(edges@[i as int] == e);
        res.push((e.0 as u32, e.1 as u32));
        assert(res@ =~= narrow_edges(edges@).take(i + 1));
        i = i + 1;
    }
    assert(narrow_edges(edges@).take(edges@.len() as int) =~= narrow_edges(edges@));
    res
}

/// Builds the CSR form of `edges` with ids taken as they are: the vertices
/// are `0..=max_id`. Fails when that count exceeds `usize::MAX`.
pub fn build_direct(edges: &Vec<(u64, u64)>, build_rev: bool) -> (res: Option<CsrGraph>)
    requires
        forall|i: int| 0 <= i < edges@.len() ==> (#[trigger] edges@[i]).0 <= u32::MAX && edges@[i].1 <= u32::MAX,
    ensures
        match res {
            Some(g) => direct_vertex_count(edges@) <= usize::MAX && g.is_csr_of(
                narrow_edges(edges@),
                direct_vertex_count(edges@) as nat,
                build_rev,
            ),
            None => direct_vertex_count(edges@) > usize::MAX,
        },
{
    let m = edges.len();
    let max_id = largest_id(edges);
    proof {
        lemma_max_endpoint_at_most(edges@, u32::MAX as int);
    }
    let n: usize = if m == 0 {
        0
    } else {
        if max_id as u128 >= usize::MAX as u128 {
            return None;
        }
        (max_id + 1) as usize
    };
    let narrowed = narrow(edges);
    proof {
        assert forall|k: int| 0 <= k < narrowed@.len() implies (#[trigger] narrowed@[k]).0 < n && narrowed@[k].1 < n by {
            lemma_max_endpoint_bounds(edges@, k);
        }
    }
    let g = build_csr(&narrowed, n, build_rev);
    Some(g)
}

} // verus!

verus! {

/// `edges` holds an edge from `a` to `b`.
pub open spec fn has_edge(edges: Seq<(u32, u32)>, a: int, b: int) -> bool {
    exists|k: int| 0 <= k < edges.len() && (#[trigger] edges[k]).0 as int == a && edges[k].1 as int == b
}

/// The group of `v` holds `x` exactly when an edge with key `v` has `x` at
/// its other end.
pub proof fn lemma_grouped_members(edges: Seq<(u32, u32)>, reverse: bool, v: int, x: int)
    ensures
        (exists|j: int| 0 <= j < grouped(edges, reverse, v).len() && #[trigger] grouped(edges, reverse, v)[j] as int == x)
            <==> (if reverse { has_edge(edges, x, v) } else { has_edge(edges, v, x) }),
    decreases edges.len(),
{
    if edges.len() > 0 {
        let init = edges.drop_last();
        lemma_grouped_members(init, reverse, v, x);
        let g0 = grouped(init, reverse, v);
        let g1 = grouped(edges, reverse, v);
        let e = edges.last();
        if exists|j: int| 0 <= j < g1.len() && #[trigger] g1[j] as int == x {
            let j = choose|j: int| 0 <= j < g1.len() && #[trigger] g1[j] as int == x;
            if j < g0.len() {
                assert(g1[j] == g0[j]);
                if reverse {
                    let k = choose|k: int| 0 <= k < init.len() && (#[trigger] init[k]).0 as int == x && init[k].1 as int == v;
                    assert(edges[k] == init[k]);
                } else {
                    let k = choose|k: int| 0 <= k < init.len() && (#[trigger] init[k]).0 as int == v && init[k].1 as int == x;
                    assert(edges[k] == init[k]);
                }
            } else {
                assert(edges[edges.len() - 1] == e);
            }
        }
        let has = if reverse { has_edge(edges, x, v) } else { has_edge(edges, v, x) };
        if has {
            let k = if reverse {
                choose|k: int| 0 <= k < edges.len() && (#[trigger] edges[k]).0 as int == x && edges[k].1 as int == v
            } else {
                choose|k: int| 0 <= k < edges.len() && (#[trigger] edges[k]).0 as int == v && edges[k].1 as int == x
            };
            if k < edges.len() - 1 {
                assert(init[k] == edges[k]);
                let j = choose|j: int| 0 <= j < g0.len() && #[trigger] g0[j] as int == x;
                assert(g1[j] == g0[j]);
            } else {
                assert(g1[g1.len() - 1] as int == x);
            }
        }
    }
}

/// A graph built with reverse arrays is symmetric: every step from `u` to
/// `v` can be taken back from `v` to `u`, so its traversals treat it as
/// undirected.
pub proof fn lemma_csr_with_reverse_is_symmetric(g: &CsrGraph, edges: Seq<(u32, u32)>, n: nat, u: int, v: int)
    requires
        g.is_csr_of(edges, n, true),
        g.has_arc(u, v),
    ensures
        g.has_arc(v, u),
{
    crate::graph::reach::lemma_arc_in_graph(g, u, v);
    if g.out_arc(u, v) {
        let i = choose|i: int| 0 <= i < g.out_nbrs(u).len() && #[trigger] g.out_nbrs(u)[i] as int == v;
        lemma_grouped_members(edges, false, u, v);
        assert(grouped(edges, false, u)[i] as int == v);
        lemma_grouped_members(edges, true, v, u);
        let j = choose|j: int| 0 <= j < grouped(edges, true, v).len() && #[trigger] grouped(edges, true, v)[j] as int == u;
        assert(g.in_nbrs(v)[j] as int == u);
    } else {
        let i = choose|i: int| 0 <= i < g.in_nbrs(u).len() && #[trigger] g.in_nbrs(u)[i] as int == v;
        lemma_grouped_members(edges, true, u, v);
        assert(grouped(edges, true, u)[i] as int == v);
        lemma_grouped_members(edges, false, v, u);
        let j = choose|j: int| 0 <= j < grouped(edges, false, v).len() && #[trigger] grouped(edges, false, v)[j] as int == u;
        assert(g.out_nbrs(v)[j] as int == u);
    }
}

} // verus!
