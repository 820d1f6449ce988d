//! The random source threaded through generation and mutation, and the few
//! draws the operators make from it.
use vstd::prelude::*;
use rand::rngs::StdRng;
use rand::seq::SliceRandom;
use rand::Rng;
use crate::ast::UntypedAst;

verus! {

/// rand's `StdRng`, the seedable generator threaded through every random draw;
/// opaque to proofs.
#[verifier::external_type_specification]
#[verifier::external_body]
pub struct ExStdRng(StdRng);

/// Relies on rand's `Rng::gen_range` over `0..n`: a value below `n` (it panics
/// on an empty range).
#[verifier::external_body]
pub(crate) fn index_below(rng: &mut StdRng, n: usize) -> (r: usize)
    requires
        n > 0,
    ensures
        r < n,
{
    rng.gen_range(0..n)
}

/// Relies on rand's `Rng::gen_range` over `lo..hi` for `i32`: a value in the
/// half-open range (it panics on an empty range).
#[verifier::external_body]
pub(crate) fn int_between(rng: &mut StdRng, lo: i32, hi: i32) -> (r: i32)
    requires
        lo < hi,
    ensures
        lo <= r < hi,
{
    rng.gen_range(lo..hi)
}

/// Relies on rand's `Rng::gen_ratio`: true with probability
/// `numerator / denominator`; never true for a zero numerator, always true when
/// the two are equal (it panics when `denominator` is zero or below `numerator`).
#[verifier::external_body]
pub(crate) fn trial(rng: &mut StdRng, numerator: u32, denominator: u32) -> (r: bool)
    requires
        0 < denominator,
        numerator <= denominator,
    ensures
        numerator == 0 ==> !r,
        numerator == denominator ==> r,
{
    rng.gen_ratio(numerator, denominator)
}

/// Relies on rand's `Rng::gen::<bool>`: a fair coin.
#[verifier::external_body]
pub(crate) fn coin(rng: &mut StdRng) -> (r: bool) {
    rng.gen::<bool>()
}

/// Relies on rand's `SliceRandom::shuffle`: the same elements, reordered.
#[verifier::external_body]
pub(crate) fn shuffle_programs(rng: &mut StdRng, v: &mut Vec<UntypedAst>)
    ensures
        final(v)@.to_multiset() == old(v)@.to_multiset(),
{
    v.shuffle(rng)
}

/// A probability given as a fraction, for the per-node trials of mutation.
#[derive(Clone, Copy)]
pub struct Probability {
    pub numerator: u32,
    pub denominator: u32,
}

impl Probability {
    /// The fraction is a probability: a positive denominator not below the numerator.
    pub open spec fn wf(&self) -> bool {
        0 < self.denominator && self.numerator <= self.denominator
    }

    /// Probability zero.
    pub fn never() -> (r: Probability)
        ensures
            r.wf(),
            r.numerator == 0,
    {
        Probability { numerator: 0, denominator: 1 }
    }

    /// Builds `numerator / denominator`, or `None` when that is not a probability.
    pub fn new(numerator: u32, denominator: u32) -> (r: Option<Probability>)
        ensures
            r is Some <==> (0 < denominator && numerator <= denominator),
            r matches Some(p) ==> p.numerator == numerator && p.denominator == denominator,
    {
        if denominator == 0 || numerator > denominator {
            None
        } else {
            Some(Probability { numerator, denominator })
        }
    }

    /// One trial that succeeds with this probability.
    pub fn hit(&self, rng: &mut StdRng) -> (r: bool)
        requires
            self.wf(),
        ensures
            self.numerator == 0 ==> !r,
            self.numerator == self.denominator ==> r,
    {
        trial(rng, self.numerator, self.denominator)
    }
}

} // verus!
