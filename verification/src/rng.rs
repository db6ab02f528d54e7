use rand::distributions::Bernoulli;
use rand::rngs::StdRng;
use rand::seq::SliceRandom;
use rand::Rng;
use vstd::prelude::*;

verus! {

/// The seeded generator of rand, carried through the operators as it is.
#[verifier::external_type_specification]
#[verifier::external_body]
pub struct ExStdRng(StdRng);

/// rand's Bernoulli distribution; built outside the library from a probability.
#[verifier::external_type_specification]
#[verifier::external_body]
pub struct ExBernoulli(Bernoulli);

/// Draws with rand's `Rng::gen_range` over `0..n`. rand asserts that the range is
/// not empty and samples a value inside it; which value depends on the generator's
/// state, so only the range is claimed.
#[verifier::external_body]
pub(crate) fn random_below(rng: &mut StdRng, n: usize) -> (r: usize)
    requires
        n > 0,
    ensures
        r < n,
{
    rng.gen_range(0..n)
}

/// Flips a fair coin with rand's `Rng::gen_ratio(1, 2)` (the same draw as
/// `gen_bool(0.5)`). The outcome depends on the generator's state: nothing is claimed.
#[verifier::external_body]
pub(crate) fn fair_coin(rng: &mut StdRng) -> bool {
    rng.gen_ratio(1, 2)
}

/// Samples `d` with rand's `Rng::sample` (what `gen_bool(p)` does with
/// `Bernoulli::new(p)`). The outcome depends on the generator's state: nothing is claimed.
#[verifier::external_body]
pub(crate) fn bernoulli_trial(rng: &mut StdRng, d: &Bernoulli) -> bool {
    rng.sample(d)
}

/// Shuffles `v` in place with rand's `SliceRandom::shuffle`, a Fisher-Yates pass
/// of swaps: the result holds the same elements, each as often as before. Their
/// order depends on the generator's state and is not claimed.
#[verifier::external_body]
pub(crate) fn shuffle_indices(v: &mut Vec<usize>, rng: &mut StdRng)
    ensures
        final(v)@.len() == old(v)@.len(),
        final(v)@.to_multiset() == old(v)@.to_multiset(),
{
    v.shuffle(rng)
}

} // verus!
