use rand::RngExt;
use vstd::prelude::*;

verus! {

/// The seedable generator that shuffles decks.
#[verifier::external_type_specification]
#[verifier::external_body]
pub struct ExStdRng(rand::rngs::StdRng);

/// A generator together with the record of every draw made from it: for
/// each draw, in order, the upper bound asked for and the index drawn.
pub struct RandomSource {
    pub rng: rand::rngs::StdRng,
    pub draws: Ghost<Seq<(usize, usize)>>,
}

impl RandomSource {
    /// A source that draws from `rng`, with no draws made yet.
    pub fn new(rng: rand::rngs::StdRng) -> (source: RandomSource)
        ensures
            source.rng == rng,
            source.draws@ == Seq::<(usize, usize)>::empty(),
    {
        RandomSource { rng, draws: Ghost(Seq::empty()) }
    }

    /// A source seeded from the operating system, with no draws made yet.
    pub fn from_entropy() -> (source: RandomSource)
        ensures
            source.draws@ == Seq::<(usize, usize)>::empty(),
    {
        RandomSource::new(fresh_rng())
    }
}

/// Draws an index from `0..=upper` with `rand::RngExt::random_range` on the
/// source's generator. Claimed: the result lies in the range (the range is
/// never empty, so the call does not panic), and the draw, with its bound,
/// is appended to the source's record. Which value comes out depends on the
/// generator's state and is left open.
#[verifier::external_body]
pub(crate) fn random_index(source: &mut RandomSource, upper: usize) -> (r: usize)
    ensures
        r <= upper,
        final(source).draws@ == old(source).draws@.push((upper, r)),
{
    source.rng.random_range(0..=upper)
}

/// A generator seeded from the operating system through `rand::make_rng`.
/// Nothing is claimed of its state; `make_rng` panics only where the
/// operating system gives no entropy, which no argument can rule out.
#[verifier::external_body]
pub(crate) fn fresh_rng() -> (rng: rand::rngs::StdRng) {
    rand::make_rng()
}

} // verus!
