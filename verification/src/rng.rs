//! The random numbers that course generation and selection draw.

use rand::Rng;
use vstd::prelude::*;

verus! {

/// The thread-local generator of the `rand` crate.
#[verifier::external_type_specification]
#[verifier::external_body]
pub struct ExThreadRng(rand::rngs::ThreadRng);

/// Calls `rand::rng()`, a handle to this thread's generator. Nothing is
/// claimed of it. The first call on a thread seeds the generator from the
/// operating system's entropy source and panics if that source fails; that
/// depends on the machine, not on any argument, so no `requires` rules it
/// out.
#[verifier::external_body]
pub fn thread_rng() -> rand::rngs::ThreadRng {
    rand::rng()
}

/// A number drawn at random, together with the inclusive range it was
/// drawn from. Only `random_range_inclusive` makes one, so the range a
/// `Draw` records is the range that was handed to the generator.
pub struct Draw {
    drawn: usize,
    low: usize,
    high: usize,
}

impl Draw {
    /// The number drawn lies in the range it was drawn from.
    #[verifier::type_invariant]
    spec fn in_range(&self) -> bool {
        self.low <= self.drawn <= self.high
    }

    /// The number drawn.
    pub closed spec fn drawn(&self) -> usize {
        self.drawn
    }

    /// The least number the draw could give.
    pub closed spec fn low(&self) -> usize {
        self.low
    }

    /// The greatest number the draw could give.
    pub closed spec fn high(&self) -> usize {
        self.high
    }

    /// The number drawn.
    pub fn value(&self) -> (value: usize)
        ensures
            value == self.drawn(),
            self.low() <= value <= self.high(),
    {
        proof {
            use_type_invariant(self);
        }
        self.drawn
    }
}

/// Calls `Rng::random_range` on `low..=high` and records that range beside
/// the result. Claimed: the result lies in that range, as the method's
/// documentation says; which value comes out is chance and is not claimed.
/// The recorded bounds are the arguments themselves. The method panics on an
/// empty range, which `requires` rules out.
#[verifier::external_body]
pub fn random_range_inclusive(rng: &mut rand::rngs::ThreadRng, low: usize, high: usize) -> (draw:
    Draw)
    requires
        low <= high,
    ensures
        draw.low() == low,
        draw.high() == high,
        low <= draw.drawn() <= high,
{
    Draw { drawn: rng.random_range(low..=high), low, high }
}

} // verus!
