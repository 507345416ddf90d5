use vstd::prelude::*;

use rand::rngs::StdRng;
use rand::Rng;

verus! {

/// The random number generator that the generator draws from.
#[verifier::external_type_specification]
#[verifier::external_body]
pub struct ExStdRng(StdRng);

/// Draws a number uniformly from `0..bound`.
///
/// Trusted: `Rng::gen_range(0..bound)` of rand returns a value of the range
/// (it panics on an empty range, which `requires` rules out). Which value
/// comes out depends on the generator's state and is not stated.
#[verifier::external_body]
fn uniform_below(rng: &mut StdRng, bound: u32) -> (r: u32)
    requires
        bound > 0,
    ensures
        r < bound,
{
    rng.gen_range(0..bound)
}

/// The edges that a sequence of draws stands for, two draws per edge: edge
/// `i` has draw `2 * i` as its source and the draw after it, `2 * i + 1`, as
/// its destination.
pub fn edges_from_draws(draws: &Vec<u32>) -> (res: Vec<(u32, u32)>)
    requires
        draws@.len() % 2 == 0,
    ensures
        res@.len() * 2 == draws@.len(),
        forall|i: int|
            0 <= i < res@.len() ==> (#[trigger] res@[i]).0 == draws@[2 * i] && res@[i].1 == draws@[2 * i + 1],
{
    let mut res: Vec<(u32, u32)> = Vec::new();
    let mut k: usize = 0;
    while k < draws.len() / 2
        invariant
            0 <= k <= draws@.len() / 2,
            draws@.len() % 2 == 0,
            res@.len() == k,
            forall|i: int|
                0 <= i < res@.len() ==> (#[trigger] res@[i]).0 == draws@[2 * i] && res@[i].1 == draws@[2 * i + 1],
        decreases draws@.len() / 2 - k,
    {
        let src = draws[2 * k];
        let dst = draws[2 * k + 1];
        res.push((src, dst));
        k = k + 1;
    }
    res
}

/// Draws `edges` edges of an Erdős–Rényi random graph over `nodes`
/// vertices: for each edge a source and then a destination, each uniform in
/// `0..nodes`; the draws are paired up by [`edges_from_draws`].
pub fn generate_erdos_renyi(nodes: u32, edges: u64, rng: &mut StdRng) -> (res: Vec<(u32, u32)>)
    requires
        nodes > 0 || edges == 0,
    ensures
        res@.len() == edges,
        forall|i: int| 0 <= i < res@.len() ==> (#[trigger] res@[i]).0 < nodes && res@[i].1 < nodes,
{
    let mut draws: Vec<u32> = Vec::new();
    let mut k: u64 = 0;
    while k < edges
        invariant
            0 <= k <= edges,
            nodes > 0 || edges == 0,
            draws@.len() == 2 * k,
            forall|j: int| 0 <= j < draws@.len() ==> #[trigger] draws@[j] < nodes,
        decreases edges - k,
    {
        let src = uniform_below(rng, nodes);
        draws.push(src);
        let dst = uniform_below(rng, nodes);
        draws.push(dst);
        k = k + 1;
    }
    let res = edges_from_draws(&draws);
    assert forall|i: int| 0 <= i < res@.len() implies (#[trigger] res@[i]).0 < nodes && res@[i].1 < nodes by {
        assert(draws@[2 * i] < nodes && draws@[2 * i + 1] < nodes);
    }
    res
}

/// The number of edges that each of `parts` generator tasks draws so that
/// together they draw `edges`: the first `edges % parts` tasks draw one
/// more than the others.
pub fn chunk_sizes(edges: u64, parts: u64) -> (res: Vec<u64>)
    requires
        parts > 0,
    ensures
        res@.len() == parts,
        forall|i: int|
            0 <= i < parts ==> #[trigger] res@[i] == edges / parts + if i < edges % parts { 1int } else { 0int },
        sum_u64(res@) == edges,
{
    let base = edges / parts;
    let rem = edges % parts;
    let mut res: Vec<u64> = Vec::new();
    let mut i: u64 = 0;
    while i < parts
        invariant
            0 <= i <= parts,
            parts > 0,
            base == edges / parts,
            rem == edges % parts,
            res@.len() == i,
            forall|j: int| 0 <= j < i ==> #[trigger] res@[j] == base + if j < rem { 1int } else { 0int },
            sum_u64(res@) == base * i + if i < rem { i as int } else { rem as int },
        decreases parts - i,
    {
        let extra: u64 = if i < rem { 1 } else { 0 };
        proof {
            assert(base * i + rem <= edges) by (nonlinear_arith)
                requires
                    base == edges / parts,
                    rem == edges % parts,
                    i < parts,
                    parts > 0,
            {
                assert(edges == base * parts + rem);
            }
        }
        proof {
            assert(base + extra <= edges) by (nonlinear_arith)
                requires
                    base == edges / parts,
                    rem == edges % parts,
                    parts > 0,
                    extra <= 1,
                    extra == 1 ==> rem >= 1,
            {
                assert(edges == base * parts + rem);
                assert(base <= base * parts);
            }
        }
        let ghost before = res@;
        res.push(base + extra);
        assert(res@.drop_last() =~= before);
        proof {
            assert(base * (i + 1) == base * i + base) by (nonlinear_arith);
        }
        i = i + 1;
    }
    proof {
        assert(edges == base * parts + rem) by (nonlinear_arith)
            requires
                base == edges / parts,
                rem == edges % parts,
                parts > 0,
        {}
    }
    res
}

/// The sum of a sequence of counts.
pub open spec fn sum_u64(s: Seq<u64>) -> int
    decreases s.len(),
{
    if s.len() == 0 {
        0
    } else {
        sum_u64(s.drop_last()) + s.last()
    }
}

/// The seed of generator task `i`: the base seed mixed with `i` and a
/// golden-ratio constant.
pub fn chunk_seed(seed: u64, i: u64) -> (res: u64)
    requires
        i <= u64::MAX - 0x9e3779b97f4a7c15,
    ensures
        res == seed ^ ((i + 0x9e3779b97f4a7c15) as u64),
{
    seed ^ (i + 0x9e3779b97f4a7c15)
}

} // verus!
