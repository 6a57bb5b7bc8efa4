//! Trusted interface to the `rand` crate, and the catalog index sampler used
//! by the randomized search policy.

use vstd::prelude::*;

verus! {

use crate::tetra::TETRAS_COUNT;

#[verifier::external_type_specification]
#[verifier::external_body]
pub struct ExThreadRng(rand::rngs::ThreadRng);

/// Relies on `rand::rng`: a handle to the thread-local generator.
#[verifier::external_body]
fn fresh_rng() -> (r: rand::rngs::ThreadRng) {
    rand::rng()
}

/// Relies on `rand::RngExt::random_range`: a draw from `0..n` lies below
/// `n`. Nothing else is assumed of the drawn value.
#[verifier::external_body]
fn sample_below(rng: &mut rand::rngs::ThreadRng, n: usize) -> (r: usize)
    requires
        n >= 1,
    ensures
        r < n,
{
    <rand::rngs::ThreadRng as rand::RngExt>::random_range(rng, 0..n)
}

/// Source of shuffled catalog orders for the randomized policy.
pub struct RandomTetras {
    rng: rand::rngs::ThreadRng,
}

impl RandomTetras {
    pub fn new() -> Self {
        Self { rng: fresh_rng() }
    }

    /// One shuffled pass over the catalog: `TETRAS_COUNT` indices, each slot
    /// independently resampled from the catalog range, so an orientation may
    /// appear more than once and others not at all. This skew is deliberate.
    pub fn finite_iter(&mut self) -> (r: Vec<usize>)
        ensures
            r@.len() == TETRAS_COUNT,
            forall|i: int| 0 <= i < r@.len() ==> #[trigger] r@[i] < TETRAS_COUNT,
    {
        let mut r: Vec<usize> = Vec::new();
        let mut i: usize = 0;
        while i < TETRAS_COUNT
            invariant
                r@.len() == i,
                i <= TETRAS_COUNT,
                forall|j: int| 0 <= j < r@.len() ==> #[trigger] r@[j] < TETRAS_COUNT,
            decreases TETRAS_COUNT - i,
        {
            let idx = sample_below(&mut self.rng, TETRAS_COUNT);
            r.push(idx);
            i = i + 1;
        }
        r
    }
}

} // verus!
