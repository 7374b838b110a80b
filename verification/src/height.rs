use vstd::prelude::*;
use vstd::std_specs::bits::{axiom_u64_trailing_zeros, u64_trailing_zeros};
use crate::node::HEIGHT;

verus! {

/// One step of the xor-shift stream that the heights are drawn from.
pub open spec fn xorshift(seed: u64) -> u64 {
    let a = seed ^ (seed << 13);
    let b = a ^ (a >> 17);
    b ^ (b << 5)
}

/// The height that a seed proposes: one more than the number of its
/// trailing zero bits, and `HEIGHT` at most. Each height is half as likely as
/// the one below it.
pub open spec fn proposed_height(seed: u64) -> usize {
    if u64_trailing_zeros(seed) + 1 < HEIGHT {
        (u64_trailing_zeros(seed) + 1) as usize
    } else {
        HEIGHT
    }
}

/// Advances the seed by one step.
pub fn advance(seed: u64) -> (next: u64)
    ensures
        next == xorshift(seed),
{
    let a: u64 = seed ^ (seed << 13);
    let b: u64 = a ^ (a >> 17);
    b ^ (b << 5)
}

/// The height that `seed` proposes.
pub fn propose(seed: u64) -> (height: usize)
    ensures
        height == proposed_height(seed),
        1 <= height <= HEIGHT,
{
    proof {
        axiom_u64_trailing_zeros(seed);
    }
    let zeros: u32 = seed.trailing_zeros();
    if zeros + 1 < 32 {
        (zeros + 1) as usize
    } else {
        HEIGHT
    }
}

/// A seed drawn by `rand::random` from the thread's random number
/// generator. Nothing is claimed of its value.
#[verifier::external_body]
fn random_seed() -> (seed: u64) {
    rand::random::<u64>()
}

/// The counters of a list: how many entries it holds, the greatest height
/// drawn so far, and the seed of the height stream.
pub struct ListState {
    pub len: usize,
    pub max_height: usize,
    pub seed: u64,
}

impl ListState {
    /// The state of an empty list whose height stream starts at `seed`.
    pub fn with_seed(seed: u64) -> (state: Self)
        ensures
            state.len == 0,
            state.max_height == 1,
            state.seed == seed,
    {
        ListState { len: 0, max_height: 1, seed }
    }

    /// The state of an empty list with a random seed.
    pub fn new() -> (state: Self)
        ensures
            state.len == 0,
            state.max_height == 1,
    {
        Self::with_seed(random_seed())
    }
}

} // verus!
