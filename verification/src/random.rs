//! Random numbers.

use crate::float;
use crate::float::{ArgminFloat, Real};
use crate::whole::Whole;
use rand::rngs::StdRng;
use rand::seq::SliceRandom;
use rand::{Rng, SeedableRng};
use rand_xoshiro::Xoshiro256PlusPlus;
use vstd::prelude::*;

verus! {

/// What is left of a stream of words after the first `n` of them.
pub open spec fn ahead(words: Map<nat, u64>, n: nat) -> Map<nat, u64> {
    Map::new(|i: nat| true, |i: nat| words[i + n])
}

/// A generator of random numbers.
///
/// All the numbers that a generator gives follow from the stream of words that it has yet to give.
/// A generator that is implemented outside of verified code leaves open what its words are and
/// which numbers follow from them, and is trusted to give them in their order.
pub trait RandomSource {
    /// The words that the generator has yet to give, by their position in the stream.
    closed spec fn words(&self) -> Map<nat, u64> {
        arbitrary()
    }

    /// The number below `bound` that follows from a stream of words, and what is left of the
    /// stream after it has been drawn.
    closed spec fn index_from(words: Map<nat, u64>, bound: usize) -> (usize, Map<nat, u64>) {
        arbitrary()
    }

    /// The first of the upcoming words, any number. The others stay upcoming.
    fn word(&mut self) -> (r: u64)
        ensures
            r == ahead(old(self).words(), 0)[0],
            ahead(final(self).words(), 0) == ahead(ahead(old(self).words(), 0), 1),
    ;

    /// A number below `bound`.
    fn index_below(&mut self, bound: usize) -> (r: usize)
        requires
            bound > 0,
        ensures
            r < bound,
            (r, ahead(final(self).words(), 0)) == Self::index_from(
                ahead(old(self).words(), 0),
                bound,
            ),
    ;
}

/// The stream of words that a generator has yet to give.
pub open spec fn stream<R: RandomSource>(rng: R) -> Map<nat, u64> {
    ahead(rng.words(), 0)
}

/// What is left of what is left of a stream.
pub proof fn lemma_ahead(words: Map<nat, u64>, a: nat, b: nat)
    ensures
        ahead(ahead(words, a), b) == ahead(words, a + b),
{
    assert(ahead(ahead(words, a), b) =~= ahead(words, a + b));
}

/// A generator of random numbers of type `F` from a range.
pub trait RangeSource<F: Real>: RandomSource {
    /// The number from `low` to `high` that follows from a stream of words, and what is left of
    /// the stream after it has been drawn.
    closed spec fn between_from(words: Map<nat, u64>, low: F, high: F) -> (F, Map<nat, u64>) {
        arbitrary()
    }

    /// A number from `low` to `high`.
    fn between(&mut self, low: F, high: F) -> (r: F)
        requires
            low.spec_less(high),
            float::finite(low),
            float::finite(high),
            float::finite(high.spec_minus(low)),
        ensures
            float::at_most(low, r),
            float::at_most(r, high),
            (r, ahead(final(self).words(), 0)) == Self::between_from(
                ahead(old(self).words(), 0),
                low,
                high,
            ),
    ;
}

/// How a generator draws numbers from ranges.
pub open spec fn ranging<F: Real, R: RangeSource<F>>() -> spec_fn(Map<nat, u64>, F, F) -> (
    F,
    Map<nat, u64>,
) {
    |words: Map<nat, u64>, low: F, high: F| R::between_from(words, low, high)
}

/// A generator of random numbers of type `F` that follow a distribution around zero.
pub trait NoiseSource<F: Real>: RandomSource {
    /// The number from the normal distribution with the given standard deviation that follows from
    /// a stream of words, and what is left of the stream after it has been drawn.
    closed spec fn normal_from(words: Map<nat, u64>, deviation: F) -> (F, Map<nat, u64>) {
        arbitrary()
    }

    /// The number from the Cauchy distribution with the given scale that follows from a stream of
    /// words, and what is left of the stream after it has been drawn.
    closed spec fn cauchy_from(words: Map<nat, u64>, scale: F) -> (F, Map<nat, u64>) {
        arbitrary()
    }

    /// A number that follows the normal distribution with the given standard deviation.
    fn normal(&mut self, deviation: F) -> (r: F)
        requires
            float::finite(deviation),
        ensures
            (r, ahead(final(self).words(), 0)) == Self::normal_from(
                ahead(old(self).words(), 0),
                deviation,
            ),
    ;

    /// A number that follows the Cauchy distribution with the given scale.
    fn cauchy(&mut self, scale: F) -> (r: F)
        requires
            float::zero::<F>().spec_less(scale),
        ensures
            (r, ahead(final(self).words(), 0)) == Self::cauchy_from(
                ahead(old(self).words(), 0),
                scale,
            ),
    ;
}

/// `rand::rngs::StdRng`, the standard generator of the `rand` crate.
#[verifier::external_type_specification]
#[verifier::external_body]
pub struct ExStdRng(StdRng);

/// Calls `SeedableRng::from_os_rng` for `StdRng`. The generator's state is chosen by the operating
/// system, so nothing is known of it.
#[verifier::external_body]
pub(crate) fn std_rng() -> (r: StdRng) {
    StdRng::from_os_rng()
}

/// The words that a generator has yet to give, by their position in the stream. They follow from
/// the state of the generator: its key, its counter and the block that it holds.
pub uninterp spec fn std_words(rng: StdRng) -> Map<nat, u64>;

/// Calls `Rng::random` for a `u64`, which takes the first of the generator's upcoming words and
/// leaves the others.
#[verifier::external_body]
fn std_rng_word(rng: &mut StdRng) -> (r: u64)
    ensures
        r == std_words(*old(rng))[0],
        forall|i: nat| #[trigger] std_words(*final(rng))[i] == std_words(*old(rng))[i + 1],
{
    rng.random::<u64>()
}

/// The number below `bound` that `Rng::random_range` draws for a `StdRng` that has yet to give
/// `words`, and the words that are left after it.
pub uninterp spec fn drawn_index(words: Map<nat, u64>, bound: usize) -> (usize, Map<nat, u64>);

/// Calls `Rng::random_range` with a range of `usize` that starts at zero, which gives a number in
/// that range. The range must not be empty. The number follows from the bound and the upcoming
/// words of the generator, of which it takes as many halves as it needs; which number it is, and
/// how many halves it takes, is left open.
#[verifier::external_body]
fn std_rng_index(rng: &mut StdRng, bound: usize) -> (r: usize)
    requires
        bound > 0,
    ensures
        r < bound,
        (r, ahead(std_words(*final(rng)), 0)) == drawn_index(
            ahead(std_words(*old(rng)), 0),
            bound,
        ),
{
    rng.random_range(0..bound)
}

/// The number from `low` up to, but not including, `high` that `Rng::random_range` draws for a
/// `StdRng` that has yet to give `words`, and the words that are left after it.
pub uninterp spec fn drawn_integer(
    words: Map<nat, u64>,
    low: i64,
    high: i64,
) -> (i64, Map<nat, u64>);

/// Calls `Rng::random_range` with a range of `i64`, which gives a number in that range. The range
/// must not be empty. The number follows from the range and the upcoming words of the generator;
/// which number it is, and how many words it takes, is left open.
#[verifier::external_body]
fn std_rng_integer(rng: &mut StdRng, low: i64, high: i64) -> (r: i64)
    requires
        low < high,
    ensures
        low <= r < high,
        (r, ahead(std_words(*final(rng)), 0)) == drawn_integer(
            ahead(std_words(*old(rng)), 0),
            low,
            high,
        ),
{
    rng.random_range(low..high)
}

/// `rand_xoshiro::Xoshiro256PlusPlus`, a generator whose numbers follow from its seed.
#[verifier::external_type_specification]
#[verifier::external_body]
pub struct ExXoshiro256PlusPlus(Xoshiro256PlusPlus);

/// The words that a generator has yet to give, by their position in the stream.
pub uninterp spec fn upcoming(rng: Xoshiro256PlusPlus) -> Map<nat, u64>;

/// The words that `Xoshiro256PlusPlus` gives after `seed_from_u64(seed)`.
pub uninterp spec fn seeded_stream(seed: u64) -> Map<nat, u64>;

/// What `SliceRandom::partial_shuffle` leaves in a slice that held `items`, with a generator that
/// has yet to give `words`.
pub uninterp spec fn partially_shuffled(
    items: Seq<usize>,
    words: Map<nat, u64>,
    amount: usize,
) -> Seq<usize>;

/// Calls `SeedableRng::seed_from_u64` for `Xoshiro256PlusPlus`. What the generator gives follows
/// from the seed alone.
#[verifier::external_body]
pub(crate) fn seeded(seed: u64) -> (r: Xoshiro256PlusPlus)
    ensures
        upcoming(r) == seeded_stream(seed),
{
    Xoshiro256PlusPlus::seed_from_u64(seed)
}

/// Calls `Rng::random` for a `u64`, which takes the first of the generator's upcoming words and
/// leaves the others.
#[verifier::external_body]
pub(crate) fn next_word(rng: &mut Xoshiro256PlusPlus) -> (r: u64)
    ensures
        r == upcoming(*old(rng))[0],
        forall|i: nat| #[trigger] upcoming(*final(rng))[i] == upcoming(*old(rng))[i + 1],
{
    rng.random::<u64>()
}

/// Calls `SliceRandom::partial_shuffle`, which exchanges elements of the slice. Which elements it
/// exchanges follows from the length of the slice, the amount and the upcoming words of the
/// generator. How many words it takes is left open.
#[verifier::external_body]
pub(crate) fn partial_shuffle(items: &mut Vec<usize>, rng: &mut Xoshiro256PlusPlus, amount: usize)
    ensures
        final(items)@ == partially_shuffled(old(items)@, upcoming(*old(rng)), amount),
        final(items)@.to_multiset() == old(items)@.to_multiset(),
{
    items.partial_shuffle(rng, amount);
}

impl RandomSource for StdRng {
    open spec fn words(&self) -> Map<nat, u64> {
        std_words(*self)
    }

    open spec fn index_from(words: Map<nat, u64>, bound: usize) -> (usize, Map<nat, u64>) {
        drawn_index(words, bound)
    }

    fn word(&mut self) -> (r: u64) {
        let ghost before = std_words(*self);
        let r: u64 = std_rng_word(self);
        assert(ahead(std_words(*self), 0) =~= ahead(ahead(before, 0), 1));
        r
    }

    fn index_below(&mut self, bound: usize) -> (r: usize) {
        std_rng_index(self, bound)
    }
}

impl RangeSource<Whole> for StdRng {
    open spec fn between_from(words: Map<nat, u64>, low: Whole, high: Whole) -> (
        Whole,
        Map<nat, u64>,
    ) {
        match (low, high) {
            (Whole::Finite(a), Whole::Finite(b)) => {
                let (n, rest) = drawn_integer(words, a, b);
                (Whole::Finite(n), rest)
            },
            _ => (low, words),
        }
    }

    /// An integer from `low` up to, but not including, `high`.
    fn between(&mut self, low: Whole, high: Whole) -> (r: Whole)
        ensures
            r.spec_less(high),
    {
        match (low, high) {
            (Whole::Finite(a), Whole::Finite(b)) => Whole::Finite(std_rng_integer(self, a, b)),
            _ => low,
        }
    }
}

/// Whether `u` is one of the equally spaced numbers from zero up to, but not including, one that
/// a generator is asked for.
pub open spec fn is_unit<F: Real>(u: F) -> bool {
    exists|k: u64| k < 0x20_0000_0000_0000 && u == #[trigger] F::spec_unit(k)
}

/// The number from zero up to, but not including, one that word `d` of a stream stands for: its
/// upper 53 bits, divided by 2^53.
pub open spec fn unit_at<F: Real>(words: Map<nat, u64>, d: nat) -> F {
    F::spec_unit(words[d] >> 11)
}

/// A number from zero up to, but not including, one: what the first of the upcoming words stands
/// for.
pub fn unit_draw<F: Real, R: RandomSource>(rng: &mut R) -> (u: F)
    ensures
        u == unit_at::<F>(stream(*old(rng)), 0),
        stream(*final(rng)) == ahead(stream(*old(rng)), 1),
        is_unit(u),
{
    let word: u64 = rng.word();
    let k: u64 = word >> 11;
    assert(word >> 11 < 0x20_0000_0000_0000u64) by (bit_vector);
    F::unit(k)
}

/// Every word of a stream stands for a number that a generator may be asked for.
pub proof fn law_unit_at<F: Real>(words: Map<nat, u64>, d: nat)
    ensures
        is_unit(unit_at::<F>(words, d)),
{
    let word: u64 = words[d];
    assert(word >> 11 < 0x20_0000_0000_0000u64) by (bit_vector);
}

/// The numbers that a generator is asked for lie from zero up to, but not including, one.
pub proof fn law_unit_within<F: ArgminFloat>(u: F::Wide)
    requires
        is_unit(u),
    ensures
        float::at_most(float::zero(), u),
        u.spec_less(float::one()),
{
    let k = choose|k: u64| k < 0x20_0000_0000_0000 && u == #[trigger] F::Wide::spec_unit(k);
    F::unit_laws(k);
}

} // verus!
