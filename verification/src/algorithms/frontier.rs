use vstd::prelude::*;

use crate::graph::csr::CsrGraph;

verus! {

/// The entries of `nbrs`, in order, whose mark is still `-1`.
pub open spec fn unvisited(nbrs: Seq<u32>, marks: Seq<i64>) -> Seq<u32>
    decreases nbrs.len(),
{
    if nbrs.len() == 0 {
        Seq::empty()
    } else {
        let rest = unvisited(nbrs.drop_last(), marks);
        if marks[nbrs.last() as int] == -1 {
            rest.push(nbrs.last())
        } else {
            rest
        }
    }
}

/// The unvisited out-neighbours of `u` followed by its unvisited in-neighbours.
pub open spec fn frontier_candidates(g: &CsrGraph, marks: Seq<i64>, u: int) -> Seq<u32> {
    unvisited(g.out_nbrs(u), marks) + unvisited(g.in_nbrs(u), marks)
}

/// Every unvisited entry of `nbrs` is kept, and everything kept is an
/// unvisited entry of `nbrs`.
pub proof fn lemma_unvisited_members(nbrs: Seq<u32>, marks: Seq<i64>)
    ensures
        forall|j: int|
            0 <= j < nbrs.len() && marks[nbrs[j] as int] == -1 ==> unvisited(nbrs, marks).contains(
                #[trigger] nbrs[j],
            ),
        forall|k: int|
            0 <= k < unvisited(nbrs, marks).len() ==> marks[#[trigger] unvisited(nbrs, marks)[k] as int] == -1
                && nbrs.contains(unvisited(nbrs, marks)[k]),
    decreases nbrs.len(),
{
    if nbrs.len() > 0 {
        let init = nbrs.drop_last();
        lemma_unvisited_members(init, marks);
        let r = unvisited(init, marks);
        assert forall|j: int|
            0 <= j < nbrs.len() && marks[nbrs[j] as int] == -1 implies unvisited(nbrs, marks).contains(
                #[trigger] nbrs[j],
            ) by {
            if j < nbrs.len() - 1 {
                assert(init[j] == nbrs[j]);
                assert(r.contains(init[j]));
                let k = choose|k: int| 0 <= k < r.len() && r[k] == init[j];
                assert(unvisited(nbrs, marks)[k] == nbrs[j]);
            } else {
                assert(unvisited(nbrs, marks).last() == nbrs[j]);
            }
        }
        assert forall|k: int| 0 <= k < unvisited(nbrs, marks).len() implies marks[#[trigger] unvisited(
            nbrs,
            marks,
        )[k] as int] == -1 && nbrs.contains(unvisited(nbrs, marks)[k]) by {
            if k < r.len() {
                assert(unvisited(nbrs, marks)[k] == r[k]);
                let j = choose|j: int| 0 <= j < init.len() && init[j] == r[k];
                assert(nbrs[j] == r[k]);
            } else {
                assert(nbrs[nbrs.len() - 1] == unvisited(nbrs, marks)[k]);
            }
        }
    }
}

/// Appends the entries of `nbrs` whose mark is `-1`, in order.
fn push_unvisited(res: &mut Vec<u32>, nbrs: &[u32], marks: &Vec<i64>)
    requires
        forall|j: int| 0 <= j < nbrs@.len() ==> nbrs@[j] < marks@.len(),
    ensures
        final(res)@ == old(res)@ + unvisited(nbrs@, marks@),
{
    let ghost r0 = res@;
    let mut j: usize = 0;
    assert(nbrs@.take(0) =~= Seq::<u32>::empty());
    assert(r0 + unvisited(nbrs@.take(0), marks@) =~= r0);
    while j < nbrs.len()
        invariant
            0 <= j <= nbrs@.len(),
            forall|k: int| 0 <= k < nbrs@.len() ==> nbrs@[k] < marks@.len(),
            res@ == r0 + unvisited(nbrs@.take(j as int), marks@),
        decreases nbrs@.len() - j,
    {
        let v = nbrs[j];
        assert(nbrs@.take(j + 1).drop_last() =~= nbrs@.take(j as int));
        assert(nbrs@.take(j + 1).last() == v);
        if marks[v as usize] == -1 {
            res.push(v);
            assert(res@ =~= r0 + unvisited(nbrs@.take(j + 1), marks@));
        }
        j += 1;
    }
    assert(nbrs@.take(nbrs@.len() as int) =~= nbrs@);
}

/// Returns the unvisited out-neighbours of `u` followed by its unvisited
/// in-neighbours, where a vertex is unvisited while its mark is `-1`.
pub fn unvisited_neighbors(graph: &CsrGraph, marks: &Vec<i64>, u: u32) -> (res: Vec<u32>)
    requires
        graph.wf(),
        u < graph.n,
        marks@.len() == graph.n,
    ensures
        res@ == frontier_candidates(graph, marks@, u as int),
{
    let mut res: Vec<u32> = Vec::new();
    let out = graph.out_neighbors(u);
    proof {
        assert forall|j: int| 0 <= j < out@.len() implies out@[j] < marks@.len() by {
            assert(out@[j] == graph.edges@[graph.offsets@[u as int] + j]);
        }
    }
    push_unvisited(&mut res, out, marks);
    match graph.in_neighbors(u) {
        Some(ins) => {
            proof {
                assert forall|j: int| 0 <= j < ins@.len() implies ins@[j] < marks@.len() by {
                    assert(ins@[j] == graph.rev_edges.unwrap()@[graph.rev_offsets.unwrap()@[u as int] + j]);
                }
            }
            push_unvisited(&mut res, ins, marks);
        },
        None => {
            assert(unvisited(graph.in_nbrs(u as int), marks@) =~= Seq::<u32>::empty());
        },
    }
    assert(res@ =~= frontier_candidates(graph, marks@, u as int));
    res
}

/// Computes the candidates of every frontier vertex: entry `i` of the result
/// is what `unvisited_neighbors` gives for `frontier[i]`, for every `i`.
pub(crate) fn expand_frontier(graph: &CsrGraph, marks: &Vec<i64>, frontier: &Vec<u32>) -> (res: Vec<Vec<u32>>)
    requires
        graph.wf(),
        marks@.len() == graph.n,
        forall|i: int| 0 <= i < frontier@.len() ==> frontier@[i] < graph.n,
    ensures
        res@.len() == frontier@.len(),
        forall|i: int|
            0 <= i < frontier@.len() ==> #[trigger] res@[i]@ == frontier_candidates(graph, marks@, frontier@[i] as int),
{
    let mut res: Vec<Vec<u32>> = Vec::new();
    let mut i: usize = 0;
    while i < frontier.len()
        invariant
            0 <= i <= frontier@.len(),
            graph.wf(),
            marks@.len() == graph.n,
            forall|k: int| 0 <= k < frontier@.len() ==> frontier@[k] < graph.n,
            res@.len() == i,
            forall|k: int| 0 <= k < i ==> #[trigger] res@[k]@ == frontier_candidates(graph, marks@, frontier@[k] as int),
        decreases frontier@.len() - i,
    {
        let cands = unvisited_neighbors(graph, marks, frontier[i]);
        res.push(cands);
        i = i + 1;
    }
    res
}

} // verus!
