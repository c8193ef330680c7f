use crate::error::WalkError;
use rand::distributions::{Bernoulli, BernoulliError, Distribution};
use rand::rngs::SmallRng;
use vstd::prelude::*;

verus! {

#[verifier::external_type_specification]
#[verifier::external_body]
pub struct ExBernoulli(Bernoulli);

#[verifier::external_type_specification]
#[verifier::external_body]
pub struct ExBernoulliError(BernoulliError);

#[verifier::external_type_specification]
#[verifier::external_body]
pub struct ExSmallRng(SmallRng);

/// Relies on rand's `Bernoulli::from_ratio`: it fails exactly when the
/// denominator is zero or the numerator exceeds it.
pub assume_specification[ Bernoulli::from_ratio ](numerator: u32, denominator: u32) -> (r: Result<
    Bernoulli,
    BernoulliError,
>)
    ensures
        r.is_ok() <==> (denominator != 0 && numerator <= denominator),
;

/// A biased coin: `true` with probability `numerator / denominator`.
pub struct Coin {
    bern: Bernoulli,
    num: u32,
    den: u32,
}

impl Coin {
    #[verifier::type_invariant]
    spec fn wf(self) -> bool {
        &&& self.den > 0
        &&& self.num <= self.den
    }

    /// Numerator of the success probability.
    pub closed spec fn numerator(self) -> nat {
        self.num as nat
    }

    /// Denominator of the success probability.
    pub closed spec fn denominator(self) -> nat {
        self.den as nat
    }

    /// The coin never shows `true` (probability zero).
    pub open spec fn never(self) -> bool {
        self.numerator() == 0
    }

    /// The coin always shows `true` (probability one).
    pub open spec fn always(self) -> bool {
        self.numerator() == self.denominator()
    }

    /// Builds the coin with success probability `numerator / denominator`,
    /// or reports `InvalidProbability` when that ratio is not in `[0, 1]`.
    pub fn new(numerator: u32, denominator: u32) -> (r: Result<Coin, WalkError>)
        ensures
            r is Ok <==> (denominator != 0 && numerator <= denominator),
            r matches Ok(c) ==> c.numerator() == numerator && c.denominator() == denominator,
            r matches Err(e) ==> e == WalkError::InvalidProbability,
    {
        match Bernoulli::from_ratio(numerator, denominator) {
            Ok(bern) => Ok(Coin { bern, num: numerator, den: denominator }),
            Err(_) => Err(WalkError::InvalidProbability),
        }
    }

    /// Numerator of the success probability.
    pub fn numerator_of(&self) -> (r: u32)
        ensures
            r == self.numerator(),
    {
        self.num
    }

    /// Denominator of the success probability.
    pub fn denominator_of(&self) -> (r: u32)
        ensures
            r == self.denominator(),
            r > 0,
            self.numerator() <= r,
    {
        proof {
            use_type_invariant(self);
        }
        self.den
    }
}

/// Relies on rand's `Distribution::sample_iter` for `Bernoulli`: it yields
/// `k` flips of the coin. A `Coin` holds the `Bernoulli` that
/// `Bernoulli::from_ratio` built from its own ratio, and rand's `sample`
/// returns `true` for the ratio one and never for the ratio zero.
#[verifier::external_body]
pub(crate) fn flips(coin: &Coin, rng: &mut SmallRng, k: usize) -> (r: Vec<bool>)
    ensures
        r@.len() == k,
        coin.never() ==> forall|i: int| 0 <= i < k ==> !r@[i],
        coin.always() ==> forall|i: int| 0 <= i < k ==> r@[i],
{
    coin.bern.sample_iter(rng).take(k).collect()
}

} // verus!
