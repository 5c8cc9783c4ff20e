//! Chances as exact ratios, and the Bernoulli trials drawn with them.

use rand::rngs::ThreadRng;
use vstd::prelude::*;

verus! {

#[verifier::external_type_specification]
#[verifier::external_body]
pub struct ExThreadRng(rand::rngs::ThreadRng);

/// Relies on rand::thread_rng: it hands out the generator of the current
/// thread; nothing is promised of its state.
pub assume_specification[ rand::thread_rng ]() -> rand::rngs::ThreadRng;

/// Relies on rand::Rng::gen_ratio: true with chance `numerator / denominator`,
/// always true when `numerator == denominator`, never when `numerator == 0`;
/// it panics when `denominator == 0` or `numerator > denominator`.
#[verifier::external_body]
fn gen_ratio(rng: &mut ThreadRng, numerator: u32, denominator: u32) -> (r: bool)
    requires
        0 < denominator,
        numerator <= denominator,
    ensures
        numerator == 0 ==> !r,
        numerator == denominator ==> r,
{
    rand::Rng::gen_ratio(rng, numerator, denominator)
}

/// A chance in [0, 1], held as `numerator / denominator`.
#[derive(Clone, Copy, Debug)]
pub struct Probability {
    numerator: u32,
    denominator: u32,
}

impl Probability {
    pub closed spec fn num(&self) -> nat {
        self.numerator as nat
    }

    pub closed spec fn den(&self) -> nat {
        self.denominator as nat
    }

    /// The denominator is positive and the ratio is at most one.
    pub open spec fn wf(&self) -> bool {
        0 < self.den() && self.num() <= self.den()
    }

    /// A trial with this chance never succeeds.
    pub open spec fn is_never(&self) -> bool {
        self.num() == 0
    }

    /// A trial with this chance always succeeds.
    pub open spec fn is_always(&self) -> bool {
        self.num() == self.den()
    }

    /// The chance `numerator / denominator`; a ratio above one is taken as
    /// one, and a zero denominator is refused.
    pub fn new(numerator: u32, denominator: u32) -> (r: Option<Probability>)
        ensures
            r is None <==> denominator == 0,
            r matches Some(p) ==> p.wf() && p.den() == denominator && p.num() == if numerator
                <= denominator {
                numerator
            } else {
                denominator
            },
    {
        if denominator == 0 {
            None
        } else if numerator <= denominator {
            Some(Probability { numerator, denominator })
        } else {
            Some(Probability { numerator: denominator, denominator })
        }
    }

    /// The chance zero.
    pub fn never() -> (r: Probability)
        ensures
            r.wf(),
            r.is_never(),
            !r.is_always(),
    {
        Probability { numerator: 0, denominator: 1 }
    }

    /// The chance one.
    pub fn always() -> (r: Probability)
        ensures
            r.wf(),
            r.is_always(),
            !r.is_never(),
    {
        Probability { numerator: 1, denominator: 1 }
    }

    pub fn numerator(&self) -> (r: u32)
        ensures
            r == self.num(),
    {
        self.numerator
    }

    pub fn denominator(&self) -> (r: u32)
        ensures
            r == self.den(),
    {
        self.denominator
    }

    /// One Bernoulli trial with this chance, drawn from `rng`.
    pub fn trial(&self, rng: &mut ThreadRng) -> (r: bool)
        requires
            self.wf(),
        ensures
            self.is_never() ==> !r,
            self.is_always() ==> r,
    {
        gen_ratio(rng, self.numerator, self.denominator)
    }
}

} // verus!
