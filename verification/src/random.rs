//! The calls into `rand` that the input generators make.

use vstd::prelude::*;
use rand::distr::Distribution;
use rand::rngs::ThreadRng;
use rand::seq::SliceRandom;
use rand::RngExt;

verus! {

/// `rand`'s handle to the thread-local random number generator.
#[verifier::external_type_specification]
#[verifier::external_body]
pub struct ExThreadRng(ThreadRng);

/// Calls `rand::rng`, which hands out the thread-local generator. Nothing is
/// stated of the handle; `rand` panics here only when the operating system
/// cannot seed the generator, which no precondition can rule out.
#[verifier::external_body]
pub(crate) fn thread_rng() -> ThreadRng {
    rand::rng()
}

/// Builds `rand::distr::Uniform` over the half-open range `from..to` with
/// `Uniform::try_from` (which fails only on an empty range, excluded here) and
/// draws one value with `Distribution::sample`. The source of `rand` shows the
/// value is `from` plus a draw below the width of the range, so it lies in
/// the range; which value comes out is left to chance.
#[verifier::external_body]
pub(crate) fn sample_uniform_u32(rng: &mut ThreadRng, from: u32, to: u32) -> (value: u32)
    requires
        from < to,
    ensures
        from <= value < to,
{
    rand::distr::Uniform::try_from(from..to).unwrap().sample(rng)
}

/// Calls `RngExt::random` for a `u32`: any value may come out.
#[verifier::external_body]
pub(crate) fn random_u32(rng: &mut ThreadRng) -> u32 {
    rng.random::<u32>()
}

/// Calls `SliceRandom::shuffle`, which permutes the elements in place
/// (a Fisher-Yates shuffle in `rand`'s source): the same elements, each as
/// often, in an order left to chance.
#[verifier::external_body]
pub(crate) fn shuffle_u16(values: &mut Vec<u16>, rng: &mut ThreadRng)
    ensures
        final(values)@.to_multiset() == old(values)@.to_multiset(),
{
    values.shuffle(rng)
}

} // verus!
