use vstd::prelude::*;

use std::collections::{BTreeSet, HashMap};
use vstd::std_specs::iter::IteratorSpec;

use super::construct::edges_below;

verus! {

broadcast use vstd::std_specs::btree::group_btree_axioms, vstd::laws_cmp::group_laws_cmp,
    vstd::std_specs::btree::axiom_spec_btree_keys_iter, vstd::std_specs::hash::group_hash_axioms;

/// The vertex ids that occur in `edges`.
pub open spec fn endpoint_ids(edges: Seq<(u64, u64)>) -> Set<u64>
    decreases edges.len(),
{
    if edges.len() == 0 {
        Set::empty()
    } else {
        endpoint_ids(edges.drop_last()).insert(edges.last().0).insert(edges.last().1)
    }
}

/// Sorts `ids` in ascending order by insertion: each entry is placed after
/// every smaller-or-equal entry already placed (linear work on input that is
/// already ascending).
fn sort_ids(ids: &mut Vec<u64>)
    ensures
        final(ids)@.to_multiset() == old(ids)@.to_multiset(),
        forall|i: int, j: int| 0 <= i <= j < final(ids)@.len() ==> final(ids)@[i] <= final(ids)@[j],
{
    let mut out: Vec<u64> = Vec::new();
    let mut k: usize = 0;
    assert(ids@.take(0) =~= Seq::<u64>::empty());
    while k < ids.len()
        invariant
            0 <= k <= ids@.len(),
            ids@ == old(ids)@,
            out@.to_multiset() == ids@.take(k as int).to_multiset(),
            forall|i: int, j: int| 0 <= i <= j < out@.len() ==> out@[i] <= out@[j],
        decreases ids@.len() - k,
    {
        let x = ids[k];
        let mut pos: usize = out.len();
        while pos > 0 && out[pos - 1] > x
            invariant
                pos <= out@.len(),
                forall|j: int| pos <= j < out@.len() ==> out@[j] > x,
            decreases pos,
        {
            pos = pos - 1;
        }
        let ghost before = out@;
        proof {
            assert forall|j: int| 0 <= j < pos implies before[j] <= x by {
                assert(before[j] <= before[pos - 1]);
            }
            vstd::seq_lib::to_multiset_insert(before, pos as int, x);
            vstd::seq_lib::to_multiset_build(ids@.take(k as int), x);
            assert(ids@.take(k + 1) =~= ids@.take(k as int).push(x));
        }
        out.insert(pos, x);
        assert forall|i: int, j: int| 0 <= i <= j < out@.len() implies out@[i] <= out@[j] by {
            if j < pos {
            } else if i > pos {
                assert(out@[i] == before[i - 1] && out@[j] == before[j - 1]);
            } else if i == pos {
                if j > pos {
                    assert(out@[j] == before[j - 1]);
                }
            } else {
                if j > pos {
                    assert(out@[j] == before[j - 1]);
                    assert(before[i] <= x);
                }
            }
        }
        k = k + 1;
    }
    assert(ids@.take(ids@.len() as int) =~= ids@);
    *ids = out;
}

/// Keeps the first of each run of equal entries of an ascending sequence.
fn dedup_sorted(sorted: &Vec<u64>) -> (res: Vec<u64>)
    requires
        forall|i: int, j: int| 0 <= i <= j < sorted@.len() ==> sorted@[i] <= sorted@[j],
    ensures
        res@.to_set() == sorted@.to_set(),
        forall|i: int, j: int| 0 <= i < j < res@.len() ==> res@[i] < res@[j],
{
    let mut res: Vec<u64> = Vec::new();
    let mut i: usize = 0;
    assert(sorted@.take(0).to_set() =~= Set::<u64>::empty());
    assert(res@.to_set() =~= Set::<u64>::empty());
    while i < sorted.len()
        invariant
            0 <= i <= sorted@.len(),
            forall|a: int, b: int| 0 <= a <= b < sorted@.len() ==> sorted@[a] <= sorted@[b],
            res@.to_set() == sorted@.take(i as int).to_set(),
            forall|a: int, b: int| 0 <= a < b < res@.len() ==> res@[a] < res@[b],
            i > 0 ==> res@.len() > 0 && res@.last() == sorted@[i - 1],
            i == 0 ==> res@.len() == 0,
        decreases sorted@.len() - i,
    {
        let x = sorted[i];
        let ghost before = res@;
        assert(sorted@.take(i + 1) =~= sorted@.take(i as int).push(x));
        if res.len() == 0 || res[res.len() - 1] != x {
            res.push(x);
            assert(res@ =~= before.push(x));
            proof {
                before.lemma_push_to_set_commute(x);
                sorted@.take(i as int).lemma_push_to_set_commute(x);
            }
            assert forall|a: int, b: int| 0 <= a < b < res@.len() implies res@[a] < res@[b] by {
                if b == res@.len() - 1 && a < b {
                    if i > 0 {
                        assert(sorted@[i - 1] <= x);
                        assert(before[a] <= before.last());
                    }
                }
            }
        } else {
            proof {
                sorted@.take(i as int).lemma_push_to_set_commute(x);
            }
            assert(before.contains(x));
            assert(res@.to_set() =~= res@.to_set().insert(x));
        }
        i = i + 1;
    }
    assert(sorted@.take(sorted@.len() as int) =~= sorted@);
    res
}

/// Sequences with the same elements, counted with multiplicity, hold the same set.
proof fn lemma_same_multiset_same_set(a: Seq<u64>, b: Seq<u64>)
    requires
        a.to_multiset() == b.to_multiset(),
    ensures
        a.to_set() == b.to_set(),
{
    assert forall|x: u64| a.to_set().contains(x) <==> b.to_set().contains(x) by {
        vstd::seq_lib::to_multiset_contains(a, x);
        vstd::seq_lib::to_multiset_contains(b, x);
    }
    assert(a.to_set() =~= b.to_set());
}

/// The distinct ids of `edges`, in increasing order.
fn sorted_ids(edges: &Vec<(u64, u64)>) -> (ids: Vec<u64>)
    ensures
        ids@.to_set() == endpoint_ids(edges@),
        forall|i: int, j: int| 0 <= i < j < ids@.len() ==> ids@[i] < ids@[j],
{
    let mut set: BTreeSet<u64> = BTreeSet::new();
    let mut i: usize = 0;
    assert(edges@.take(0) =~= Seq::<(u64, u64)>::empty());
    while i < edges.len()
        invariant
            0 <= i <= edges@.len(),
            set@ == endpoint_ids(edges@.take(i as int)),
        decreases edges@.len() - i,
    {
        let e = edges[i];
        assert(edges@.take(i + 1).drop_last() =~= edges@.take(i as int));
        set.insert(e.0);
        set.insert(e.1);
        i = i + 1;
    }
    assert(edges@.take(edges@.len() as int) =~= edges@);
    let mut ids: Vec<u64> = Vec::new();
    let ghost full = vstd::std_specs::btree::spec_btree_keys_iter(&set).remaining().unref();
    for x in it: set.iter()
        invariant
            it.seq().unref() == full,
            ids@ == it.seq().unref().take(it.index()),
            it.seq().unref().to_set() == endpoint_ids(edges@),
    {
        ids.push(*x);
        assert(ids@ =~= it.seq().unref().take(it.index() + 1));
    }
    assert(ids@ =~= full);
    let ghost unsorted = ids@;
    sort_ids(&mut ids);
    proof {
        lemma_same_multiset_same_set(ids@, unsorted);
    }
    let res = dedup_sorted(&ids);
    res
}

/// The number of distinct ids of `ids` below `x`: the position of `x` when
/// the distinct ids are listed in increasing order.
pub open spec fn rank(ids: Set<u64>, x: u64) -> nat {
    ids.filter(|y: u64| y < x).len()
}

/// `edges` with every id replaced by its rank among the ids of `edges`.
pub open spec fn remap_edges(edges: Seq<(u64, u64)>) -> Seq<(u32, u32)> {
    let ids = endpoint_ids(edges);
    edges.map_values(|e: (u64, u64)| (rank(ids, e.0) as u32, rank(ids, e.1) as u32))
}

/// The ids of an increasing sequence are ranked by their positions.
proof fn lemma_rank_is_position(ids: Seq<u64>, j: int)
    requires
        0 <= j < ids.len(),
        forall|a: int, b: int| 0 <= a < b < ids.len() ==> ids[a] < ids[b],
    ensures
        rank(ids.to_set(), ids[j]) == j,
{
    let below = ids.to_set().filter(|y: u64| y < ids[j]);
    let prefix = ids.take(j);
    assert forall|y: u64| below.contains(y) <==> prefix.to_set().contains(y) by {
        if below.contains(y) {
            let k = choose|k: int| 0 <= k < ids.len() && ids[k] == y;
            if k >= j {
                if k > j {
                    assert(ids[j] < ids[k]);
                }
            }
            assert(prefix[k] == y);
        }
        if prefix.to_set().contains(y) {
            let k = choose|k: int| 0 <= k < prefix.len() && prefix[k] == y;
            assert(ids[k] == y);
        }
    }
    assert(below =~= prefix.to_set());
    assert(prefix.no_duplicates()) by {
        assert forall|a: int, b: int| 0 <= a < prefix.len() && 0 <= b < prefix.len() && a != b implies prefix[a]
            != prefix[b] by {
            if a < b {
                assert(ids[a] < ids[b]);
            } else {
                assert(ids[b] < ids[a]);
            }
        }
    }
    prefix.unique_seq_to_set();
}

/// The ids of an increasing sequence number as many as its entries.
proof fn lemma_increasing_len(ids: Seq<u64>)
    requires
        forall|a: int, b: int| 0 <= a < b < ids.len() ==> ids[a] < ids[b],
    ensures
        ids.to_set().len() == ids.len(),
{
    assert(ids.no_duplicates()) by {
        assert forall|a: int, b: int| 0 <= a < ids.len() && 0 <= b < ids.len() && a != b implies ids[a]
            != ids[b] by {
            if a < b {
                assert(ids[a] < ids[b]);
            } else {
                assert(ids[b] < ids[a]);
            }
        }
    }
    ids.unique_seq_to_set();
}

/// Replaces every id of `edges` by its rank among the ids of `edges`, and
/// returns the number of distinct ids; `None` when they are more than
/// `u32::MAX`.
pub fn remap_ids(edges: &Vec<(u64, u64)>) -> (res: Option<(Vec<(u32, u32)>, usize)>)
    ensures
        match res {
            Some((mapped, n)) => {
                &&& n == endpoint_ids(edges@).len()
                &&& n <= u32::MAX
                &&& mapped@ == remap_edges(edges@)
                &&& edges_below(mapped@, n as int)
            },
            None => endpoint_ids(edges@).len() > u32::MAX,
        },
{
    let ids = sorted_ids(edges);
    let n = ids.len();
    let ghost s = endpoint_ids(edges@);
    proof {
        lemma_increasing_len(ids@);
    }
    if n > 0xFFFF_FFFF {
        return None;
    }
    let mut mapping: HashMap<u64, u32> = HashMap::with_capacity(n);
    let mut i: usize = 0;
    while i < n
        invariant
            0 <= i <= n,
            n == ids@.len(),
            n <= u32::MAX,
            forall|a: int, b: int| 0 <= a < b < ids@.len() ==> ids@[a] < ids@[b],
            forall|j: int| 0 <= j < i ==> #[trigger] mapping@.contains_key(ids@[j]) && mapping@[ids@[j]] == j,
        decreases n - i,
    {
        let id = ids[i];
        mapping.insert(id, i as u32);
        assert forall|j: int| 0 <= j < i + 1 implies #[trigger] mapping@.contains_key(ids@[j]) && mapping@[ids@[j]]
            == j by {
            if j < i {
                assert(ids@[j] < ids@[i as int]);
            }
        }
        i = i + 1;
    }
    let mut mapped: Vec<(u32, u32)> = Vec::new();
    let mut k: usize = 0;
    while k < edges.len()
        invariant
            0 <= k <= edges@.len(),
            n == ids@.len(),
            s == endpoint_ids(edges@),
            ids@.to_set() == s,
            forall|a: int, b: int| 0 <= a < b < ids@.len() ==> ids@[a] < ids@[b],
            forall|j: int| 0 <= j < n ==> #[trigger] mapping@.contains_key(ids@[j]) && mapping@[ids@[j]] == j,
            mapped@ == remap_edges(edges@).take(k as int),
            edges_below(mapped@, n as int),
        decreases edges@.len() - k,
    {
        let e = edges[k];
        proof {
            lemma_endpoints_contain(edges@, k as int);
        }
        let ghost j0 = choose|j: int| 0 <= j < ids@.len() && ids@[j] == e.0;
        let ghost j1 = choose|j: int| 0 <= j < ids@.len() && ids@[j] == e.1;
        proof {
            lemma_rank_is_position(ids@, j0);
            lemma_rank_is_position(ids@, j1);
            assert(mapping@.contains_key(ids@[j0]));
            assert(mapping@.contains_key(ids@[j1]));
        }
        let a = *mapping.get(&e.0).unwrap();
        let b = *mapping.get(&e.1).unwrap();
        mapped.push((a, b));
        assert(mapped@ =~= remap_edges(edges@).take(k + 1));
        k = k + 1;
    }
    assert(remap_edges(edges@).take(edges@.len() as int) =~= remap_edges(edges@));
    Some((mapped, n))
}

/// Both ids of every edge are ids of the list.
pub proof fn lemma_endpoints_contain(edges: Seq<(u64, u64)>, k: int)
    requires
        0 <= k < edges.len(),
    ensures
        endpoint_ids(edges).contains(edges[k].0),
        endpoint_ids(edges).contains(edges[k].1),
    decreases edges.len(),
{
    if k < edges.len() - 1 {
        lemma_endpoints_contain(edges.drop_last(), k);
        assert(edges.drop_last()[k] == edges[k]);
    }
}

} // verus!

verus! {

/// Renumbering keeps the order of the ids and numbers them from 0 to one
/// less than their count, so distinct ids get distinct vertices.
pub proof fn lemma_rank_order(ids: Set<u64>, x: u64, y: u64)
    requires
        ids.finite(),
        ids.contains(x),
        ids.contains(y),
        x < y,
    ensures
        rank(ids, x) < rank(ids, y),
        rank(ids, y) < ids.len(),
{
    let fx = ids.filter(|z: u64| z < x);
    let fy = ids.filter(|z: u64| z < y);
    assert(fx.subset_of(fy));
    assert(fy.contains(x) && !fx.contains(x));
    vstd::set_lib::lemma_len_subset(fx.insert(x), fy);
    assert(fx.insert(x).len() == fx.len() + 1);
    assert(fy.subset_of(ids) && !fy.contains(y));
    vstd::set_lib::lemma_len_subset(fy.insert(y), ids);
}

/// The ids of an edge list are finitely many.
proof fn lemma_endpoint_ids_finite(edges: Seq<(u64, u64)>)
    ensures
        endpoint_ids(edges).finite(),
    decreases edges.len(),
{
    if edges.len() > 0 {
        lemma_endpoint_ids_finite(edges.drop_last());
    }
}

/// One end of an edge: its destination when `dst` holds, else its source.
pub open spec fn edge_end<T>(e: (T, T), dst: bool) -> T {
    if dst {
        e.1
    } else {
        e.0
    }
}

/// Renumbering the ids of an edge list (as `from_edge_list` does with
/// `remap`) keeps how any two ends of its edges compare: one id is below
/// another exactly when its new number is below the other's, and two ids are
/// equal exactly when their new numbers are, every new number being below
/// the count of distinct ids.
pub proof fn lemma_remap_keeps_id_order(edges: Seq<(u64, u64)>, i: int, di: bool, j: int, dj: bool)
    requires
        0 <= i < edges.len(),
        0 <= j < edges.len(),
        endpoint_ids(edges).len() <= u32::MAX,
    ensures
        ({
            let x = edge_end(edges[i], di);
            let y = edge_end(edges[j], dj);
            let mx = edge_end(remap_edges(edges)[i], di);
            let my = edge_end(remap_edges(edges)[j], dj);
            &&& (x < y <==> mx < my)
            &&& (x == y <==> mx == my)
            &&& mx < endpoint_ids(edges).len()
        }),
{
    let ids = endpoint_ids(edges);
    let x = edge_end(edges[i], di);
    let y = edge_end(edges[j], dj);
    lemma_endpoint_ids_finite(edges);
    lemma_endpoints_contain(edges, i);
    lemma_endpoints_contain(edges, j);
    assert(ids.contains(x) && ids.contains(y));
    let fx = ids.filter(|z: u64| z < x);
    assert(fx.subset_of(ids.remove(x)));
    vstd::set_lib::lemma_len_subset(fx, ids.remove(x));
    assert(rank(ids, x) < ids.len());
    let fy = ids.filter(|z: u64| z < y);
    assert(fy.subset_of(ids.remove(y)));
    vstd::set_lib::lemma_len_subset(fy, ids.remove(y));
    assert(rank(ids, y) < ids.len());
    if x < y {
        lemma_rank_order(ids, x, y);
    } else if y < x {
        lemma_rank_order(ids, y, x);
    }
    let r = remap_edges(edges);
    assert(edge_end(r[i], di) == rank(ids, x) as u32);
    assert(edge_end(r[j], dj) == rank(ids, y) as u32);
}

} // verus!
