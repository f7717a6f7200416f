//! Deterministic sequence generation: a seeded ChaCha20 generator drawing
//! uniformly below a bound, modelled as an abstract stream so that the
//! filling loop and its callers are verified against it.

use vstd::prelude::*;
use rand::Rng;
use rand::SeedableRng;

verus! {

#[verifier::external_type_specification]
#[verifier::external_body]
pub struct ExChaCha20Rng(rand_chacha::ChaCha20Rng);

/// The value of the `index`-th draw (counting from zero) taken from a
/// ChaCha20 generator seeded with `seed` through a uniform integer
/// sampler over `[0, bound)`, when every draw uses that same bound.
pub uninterp spec fn chacha_uniform(seed: u64, bound: usize, index: nat) -> usize;

/// A seeded source of uniformly distributed integers below a fixed bound.
///
/// The seed and bound are recorded beside the generator state, and a
/// ghost draw counter ties each value taken from it to one position of
/// the abstract stream `chacha_uniform(seed, bound, _)`.
pub struct UniformSource {
    rng: rand_chacha::ChaCha20Rng,
    seed: u64,
    bound: usize,
    drawn: Ghost<nat>,
}

/// Relies on rand_chacha::ChaCha20Rng::seed_from_u64: the generator state
/// it returns is determined by the seed alone, reproducibly across runs.
#[verifier::external_body]
fn chacha_from_seed(seed: u64) -> rand_chacha::ChaCha20Rng {
    rand_chacha::ChaCha20Rng::seed_from_u64(seed)
}

impl UniformSource {
    /// The seed the generator was created from.
    pub closed spec fn seed(self) -> u64 {
        self.seed
    }

    /// The exclusive upper bound every draw stays below.
    pub closed spec fn bound(self) -> usize {
        self.bound
    }

    /// How many values have been drawn so far.
    pub closed spec fn drawn(self) -> nat {
        self.drawn@
    }

    /// A fresh source: ChaCha20 seeded with `seed`, sampling below `bound`.
    pub fn new(seed: u64, bound: usize) -> (s: UniformSource)
        requires
            bound > 0,
        ensures
            s.seed() == seed,
            s.bound() == bound,
            s.drawn() == 0,
    {
        UniformSource { rng: chacha_from_seed(seed), seed, bound, drawn: Ghost(0nat) }
    }

    /// Relies on rand::Rng::sample through rand::distributions::Uniform,
    /// a sampler for the half-open range `[0, bound)`: the draw lies
    /// below the bound, and both the ChaCha20 stream and the uniform
    /// sampling algorithm are fixed, so the value is determined by the
    /// seed, the bound and how many draws came before it. `Uniform::new`
    /// panics when the range is empty, which the precondition rules out.
    #[verifier::external_body]
    fn next_value(&mut self) -> (r: usize)
        requires
            old(self).bound() > 0,
        ensures
            final(self).seed() == old(self).seed(),
            final(self).bound() == old(self).bound(),
            final(self).drawn() == old(self).drawn() + 1,
            r == chacha_uniform(old(self).seed(), old(self).bound(), old(self).drawn()),
            r < old(self).bound(),
    {
        self.rng.sample(rand::distributions::Uniform::new(0, self.bound))
    }
}

/// The first `n` values of the stream a source seeded with `seed` and
/// bounded by `bound` draws from.
pub open spec fn generated_seq(seed: u64, bound: usize, n: nat) -> Seq<usize> {
    Seq::new(n, |k: int| chacha_uniform(seed, bound, k as nat))
}

/// Appends `count` freshly drawn values to `array`: afterwards the array
/// holds its old contents followed by the next `count` values of the
/// source's stream, each below the source's bound.
pub fn init_array(array: &mut Vec<usize>, src: &mut UniformSource, count: usize)
    requires
        old(src).bound() > 0,
    ensures
        final(src).seed() == old(src).seed(),
        final(src).bound() == old(src).bound(),
        final(src).drawn() == old(src).drawn() + count,
        final(array)@ == old(array)@ + Seq::new(
            count as nat,
            |k: int| chacha_uniform(old(src).seed(), old(src).bound(), (old(src).drawn() + k) as nat),
        ),
        forall|k: int|
            old(array)@.len() <= k < final(array)@.len() ==> final(array)@[k] < old(src).bound(),
{
    let mut c: usize = 0;
    while c < count
        invariant
            c <= count,
            old(src).bound() > 0,
            src.seed() == old(src).seed(),
            src.bound() == old(src).bound(),
            src.drawn() == old(src).drawn() + c,
            array@ == old(array)@ + Seq::new(
                c as nat,
                |k: int|
                    chacha_uniform(old(src).seed(), old(src).bound(), (old(src).drawn() + k) as nat),
            ),
            forall|k: int| old(array)@.len() <= k < array@.len() ==> array@[k] < old(src).bound(),
        decreases count - c,
    {
        let v: usize = src.next_value();
        array.push(v);
        c = c + 1;
        proof {
            assert(array@ =~= old(array)@ + Seq::new(
                c as nat,
                |k: int|
                    chacha_uniform(old(src).seed(), old(src).bound(), (old(src).drawn() + k) as nat),
            ));
        }
    }
}

/// Generates the test array: `length` values drawn from a ChaCha20 source
/// seeded with zero, each below `length`. The result is a fixed function
/// of `length`, so repeated runs yield the same array.
pub fn generate(length: usize) -> (r: Vec<usize>)
    ensures
        r@.len() == length,
        r@ == generated_seq(0, length, length as nat),
        forall|k: int| 0 <= k < length ==> r@[k] < length,
{
    let mut array: Vec<usize> = Vec::new();
    if length > 0 {
        let mut src = UniformSource::new(0, length);
        init_array(&mut array, &mut src, length);
    }
    proof {
        assert(array@ =~= generated_seq(0, length, length as nat));
    }
    array
}

} // verus!
