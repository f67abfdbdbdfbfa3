//! Benchmark query sets: random source/target node pairs.
use rand::rngs::StdRng;
use rand::Rng;
use rand::SeedableRng;
use vstd::prelude::*;

verus! {

#[verifier::external_type_specification]
#[verifier::external_body]
pub struct ExStdRng(StdRng);

/// rand's `SeedableRng::seed_from_u64` for `StdRng`: a generator whose state
/// comes from `seed`. Nothing is stated of that state.
#[verifier::external_body]
fn seeded_rng(seed: u64) -> StdRng {
    StdRng::seed_from_u64(seed)
}

/// rand's `Rng::random_range` on the range `0..n`: a value drawn from that
/// range (which one rests on the generator). rand panics on an empty range,
/// so `n` is positive.
#[verifier::external_body]
fn random_below(rng: &mut StdRng, n: u32) -> (r: u32)
    requires
        n > 0,
    ensures
        r < n,
{
    rng.random_range(0..n)
}

/// `count` random (source, target) node pairs drawn with a generator seeded
/// from `seed`, every node below `num_nodes`. Which nodes come out rests on
/// the generator; the coordinates of a pair are looked up by the caller.
pub fn generate_random_queries(num_nodes: u32, count: usize, seed: u64) -> (pairs: Vec<(u32, u32)>)
    requires
        count > 0 ==> num_nodes > 0,
    ensures
        pairs@.len() == count,
        forall|i: int| 0 <= i < count ==> #[trigger] pairs@[i].0 < num_nodes && pairs@[i].1 < num_nodes,
{
    let mut rng = seeded_rng(seed);
    let mut pairs: Vec<(u32, u32)> = Vec::new();
    let mut i: usize = 0;
    while i < count
        invariant
            i <= count,
            count > 0 ==> num_nodes > 0,
            pairs@.len() == i,
            forall|j: int| 0 <= j < i ==> #[trigger] pairs@[j].0 < num_nodes && pairs@[j].1 < num_nodes,
        decreases count - i,
    {
        let from_node = random_below(&mut rng, num_nodes);
        let to_node = random_below(&mut rng, num_nodes);
        pairs.push((from_node, to_node));
        i = i + 1;
    }
    pairs
}

} // verus!
