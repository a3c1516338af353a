//! The random source that every stage of a generation draws from.

use rand::rngs::StdRng;
use rand::{Rng, SeedableRng};
use vstd::prelude::*;

verus! {

/// `rand::rngs::StdRng`, the generator behind the dice. Of what it holds
/// only what `rng_state` names is known.
#[verifier::external_type_specification]
#[verifier::external_body]
pub struct ExStdRng(StdRng);

/// What a generator holds: the state of its cipher, as bytes. `StdRng` is
/// a stream cipher run in counter mode. Once made it reads no clock, no
/// entropy and nothing of the machine, so all that it gives from now on
/// follows from this state alone, the same in every process.
pub uninterp spec fn rng_state(rng: StdRng) -> Seq<u8>;

/// The state in which `StdRng::seed_from_u64` makes a generator: the seed
/// is spread over the key of the cipher by a fixed recurrence.
pub uninterp spec fn seeded_state(seed: u64) -> Seq<u8>;

/// What `Rng::gen_range` gives for the range `low..high` of `u32` in a
/// state, and the state that it leaves. The value is computed from words
/// of the cipher's stream, as many as the sampling takes; no chance enters.
pub uninterp spec fn range_drawn(state: Seq<u8>, low: u32, high: u32) -> (u32, Seq<u8>);

/// What `Rng::gen_ratio` gives in a state, and the state that it leaves.
/// The answer is computed from the cipher's stream; no chance enters.
pub uninterp spec fn ratio_drawn(state: Seq<u8>, numerator: u32, denominator: u32) -> (bool, Seq<u8>);

/// `StdRng::seed_from_u64`: a generator started from `seed`. The seed
/// alone decides its state.
#[verifier::external_body]
fn rng_seeded(seed: u64) -> (rng: StdRng)
    ensures
        rng_state(rng) == seeded_state(seed),
{
    StdRng::seed_from_u64(seed)
}

/// `Rng::gen_range` on the half-open range `low..high`: some value of the
/// range. Which one, and the state that the generator is left in, follow
/// from the state that it was in. The range must hold a value, as the
/// generator panics on an empty one.
#[verifier::external_body]
fn rng_range(rng: &mut StdRng, low: u32, high: u32) -> (value: u32)
    requires
        low < high,
    ensures
        low <= value < high,
        (value, rng_state(*final(rng))) == range_drawn(rng_state(*old(rng)), low, high),
{
    rng.gen_range(low..high)
}

/// `Rng::gen_ratio`: a coin that shows `true` with chance
/// `numerator / denominator`. It always does so where the two are equal and
/// never where `numerator` is zero. What it shows, and the state that the
/// generator is left in, follow from the state that it was in. The
/// generator panics on a zero denominator and on a numerator above the
/// denominator.
#[verifier::external_body]
fn rng_ratio(rng: &mut StdRng, numerator: u32, denominator: u32) -> (hit: bool)
    requires
        0 < denominator,
        numerator <= denominator,
    ensures
        numerator == denominator ==> hit,
        numerator == 0 ==> !hit,
        (hit, rng_state(*final(rng))) == ratio_drawn(rng_state(*old(rng)), numerator, denominator),
{
    rng.gen_ratio(numerator, denominator)
}

/// A probability given as a ratio of two whole numbers.
#[derive(Clone, Copy, Debug)]
pub struct Chance {
    numerator: u32,
    denominator: u32,
}

impl Chance {
    #[verifier::type_invariant]
    spec fn inv(self) -> bool {
        0 < self.denominator && self.numerator <= self.denominator
    }

    pub closed spec fn spec_numerator(&self) -> u32 {
        self.numerator
    }

    pub closed spec fn spec_denominator(&self) -> u32 {
        self.denominator
    }

    /// The chance `numerator / denominator`, or `None` where that is no
    /// probability: on a zero denominator and on a ratio above one.
    pub fn new(numerator: u32, denominator: u32) -> (chance: Option<Chance>)
        ensures
            chance is Some <==> 0 < denominator && numerator <= denominator,
            chance matches Some(c) ==> c.spec_numerator() == numerator && c.spec_denominator()
                == denominator,
    {
        if 0 < denominator && numerator <= denominator {
            Some(Chance { numerator, denominator })
        } else {
            None
        }
    }

    /// The chance with which a dummy room is left without any link.
    pub fn dummy_skip() -> (chance: Chance)
        ensures
            chance.spec_numerator() == 1,
            chance.spec_denominator() == 2,
    {
        Chance { numerator: 1, denominator: 2 }
    }

    /// The chance with which two linked rooms are merged into one.
    pub fn merge() -> (chance: Chance)
        ensures
            chance.spec_numerator() == 1,
            chance.spec_denominator() == 10,
    {
        Chance { numerator: 1, denominator: 10 }
    }

    #[verifier::when_used_as_spec(spec_numerator)]
    pub fn numerator(&self) -> (n: u32)
        ensures
            n == self.spec_numerator(),
    {
        self.numerator
    }

    #[verifier::when_used_as_spec(spec_denominator)]
    pub fn denominator(&self) -> (d: u32)
        ensures
            d == self.spec_denominator(),
            d > 0,
            self.spec_numerator() <= d,
    {
        proof {
            use_type_invariant(self);
        }
        self.denominator
    }

    /// Whether every draw with this chance shows `true`.
    pub open spec fn certain(&self) -> bool {
        self.spec_numerator() == self.spec_denominator()
    }

    /// Whether no draw with this chance shows `true`.
    pub open spec fn never(&self) -> bool {
        self.spec_numerator() == 0
    }
}

/// A seeded random source. All draws of one generation come from one of
/// these, in a fixed order.
pub struct Dice {
    rng: StdRng,
}

/// What `Dice::between` gives in a state, and the state that it leaves: a
/// draw from `low..high`, or `low` and the same state where that range is
/// empty.
pub open spec fn between_drawn(state: Seq<u8>, low: u32, high: u32) -> (u32, Seq<u8>) {
    if low < high {
        range_drawn(state, low, high)
    } else {
        (low, state)
    }
}

/// What `Dice::flip` gives in a state, and the state that it leaves.
pub open spec fn flip_drawn(state: Seq<u8>, chance: Chance) -> (bool, Seq<u8>) {
    ratio_drawn(state, chance.spec_numerator(), chance.spec_denominator())
}

impl Dice {
    /// The state of the source, which decides all further draws.
    pub closed spec fn view(&self) -> Seq<u8> {
        rng_state(self.rng)
    }

    /// A source started from `seed`.
    pub fn from_seed(seed: u64) -> (dice: Dice)
        ensures
            dice@ == seeded_state(seed),
    {
        Dice { rng: rng_seeded(seed) }
    }

    /// A value of `low..high`, drawn uniformly.
    pub fn range(&mut self, low: u32, high: u32) -> (value: u32)
        requires
            low < high,
        ensures
            low <= value < high,
            (value, final(self)@) == range_drawn(old(self)@, low, high),
    {
        rng_range(&mut self.rng, low, high)
    }

    /// A value of `low..high`, drawn uniformly; where that range is empty,
    /// `low` itself, without a draw.
    pub fn between(&mut self, low: u32, high: u32) -> (value: u32)
        ensures
            low <= value,
            value < high || value == low,
            (value, final(self)@) == between_drawn(old(self)@, low, high),
    {
        if low < high {
            rng_range(&mut self.rng, low, high)
        } else {
            low
        }
    }

    /// An index into a list of `len` items, drawn uniformly.
    pub fn index(&mut self, len: usize) -> (at: usize)
        requires
            0 < len <= u32::MAX,
        ensures
            at < len,
            (at as u32, final(self)@) == range_drawn(old(self)@, 0, len as u32),
    {
        rng_range(&mut self.rng, 0, len as u32) as usize
    }

    /// A coin that shows `true` with the given chance.
    pub fn flip(&mut self, chance: Chance) -> (hit: bool)
        ensures
            chance.certain() ==> hit,
            chance.never() ==> !hit,
            (hit, final(self)@) == flip_drawn(old(self)@, chance),
    {
        proof {
            use_type_invariant(chance);
        }
        rng_ratio(&mut self.rng, chance.numerator, chance.denominator)
    }
}

} // verus!
