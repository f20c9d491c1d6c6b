//! Random numbers.
//!
//! The generator is `rand::rngs::StdRng`. What it hands out is arbitrary
//! within the range that was asked for. Contracts speak of it by a record of the
//! numbers, which exists for the proofs alone.
use rand::rngs::StdRng;
use rand::Rng;
use rand::RngExt;
use rand::SeedableRng;
use vstd::prelude::*;

verus! {

/// `rand::rngs::StdRng`, an opaque generator.
#[verifier::external_type_specification]
#[verifier::external_body]
pub struct ExStdRng(StdRng);

/// `SeedableRng::seed_from_u64`. Nothing is stated of the generator.
#[verifier::external_body]
fn std_rng_seeded(seed: u64) -> (r: StdRng) {
    StdRng::seed_from_u64(seed)
}

/// `Rng::next_u64`. Any number may come.
#[verifier::external_body]
fn std_rng_next_u64(rng: &mut StdRng) -> (r: u64) {
    rng.next_u64()
}

/// `Rng::fill_bytes` on one byte. Any byte may come.
#[verifier::external_body]
fn std_rng_fill_byte(rng: &mut StdRng) -> (r: u8) {
    let mut byte = [0u8; 1];
    rng.fill_bytes(&mut byte);
    byte[0]
}

/// `RngExt::random` for a byte. Any byte may come.
#[verifier::external_body]
fn std_rng_random_byte(rng: &mut StdRng) -> (r: u8) {
    rng.random::<u8>()
}

/// `RngExt::random_range` on `low..high`: a number of that range. The range
/// must not be empty.
#[verifier::external_body]
fn std_rng_range(rng: &mut StdRng, low: usize, high: usize) -> (r: usize)
    requires
        low < high,
    ensures
        low <= r < high,
{
    rng.random_range(low..high)
}

/// `RngExt::random_range` on `low..=high` for 64 bits: a number of that range.
/// The range must not be empty.
#[verifier::external_body]
fn std_rng_range_inclusive(rng: &mut StdRng, low: u64, high: u64) -> (r: u64)
    requires
        low <= high,
    ensures
        low <= r <= high,
{
    rng.random_range(low..=high)
}

/// `RngExt::random_range` on `low..=high` for 128 bits: a number of that
/// range. The range must not be empty.
#[verifier::external_body]
fn std_rng_range_wide(rng: &mut StdRng, low: i128, high: i128) -> (r: i128)
    requires
        low <= high,
    ensures
        low <= r <= high,
{
    rng.random_range(low..=high)
}

/// The number of values of [`EngineRng::unit`].
pub const UNIT_STEPS: u64 = 0x20_0000_0000_0000;

/// The random number generator of a test case.
pub struct EngineRng {
    inner: StdRng,
    handed: Ghost<Seq<int>>,
}

impl EngineRng {
    /// The numbers that the generator has handed out, in order.
    pub closed spec fn handed(&self) -> Seq<int> {
        self.handed@
    }

    /// A generator that starts from `seed`.
    pub fn seeded(seed: u64) -> (r: Self)
        ensures
            r.handed() == Seq::<int>::empty(),
    {
        EngineRng { inner: std_rng_seeded(seed), handed: Ghost(Seq::empty()) }
    }

    /// Another generator, seeded by this one.
    pub fn spawn(&mut self) -> (r: Self)
        ensures
            r.handed() == Seq::<int>::empty(),
            exists|seed: u64| final(self).handed() == #[trigger] old(self).handed().push(seed as int),
    {
        let seed: u64 = self.next_u64();
        EngineRng::seeded(seed)
    }

    /// Sixty-four random bits.
    pub fn next_u64(&mut self) -> (r: u64)
        ensures
            final(self).handed() == old(self).handed().push(r as int),
    {
        let r: u64 = std_rng_next_u64(&mut self.inner);
        self.handed = Ghost(self.handed@.push(r as int));
        r
    }

    /// One byte of entropy.
    pub fn fill_byte(&mut self) -> (r: u8)
        ensures
            final(self).handed() == old(self).handed().push(r as int),
    {
        let r: u8 = std_rng_fill_byte(&mut self.inner);
        self.handed = Ghost(self.handed@.push(r as int));
        r
    }

    /// A random byte.
    pub fn byte(&mut self) -> (r: u8)
        ensures
            final(self).handed() == old(self).handed().push(r as int),
    {
        let r: u8 = std_rng_random_byte(&mut self.inner);
        self.handed = Ghost(self.handed@.push(r as int));
        r
    }

    /// A random number below one, in units of two to the minus fifty-third.
    pub fn unit(&mut self) -> (r: u64)
        ensures
            r < UNIT_STEPS,
            final(self).handed() == old(self).handed().push(r as int),
    {
        let bits: u64 = std_rng_next_u64(&mut self.inner);
        assert(bits >> 11 < 0x20_0000_0000_0000u64) by (bit_vector);
        let r: u64 = bits >> 11;
        self.handed = Ghost(self.handed@.push(r as int));
        r
    }

    /// A random index below `count`.
    pub fn index(&mut self, count: usize) -> (r: usize)
        requires
            count > 0,
        ensures
            r < count,
            final(self).handed() == old(self).handed().push(r as int),
    {
        self.range(0, count)
    }

    /// A random number of `low..high`.
    pub fn range(&mut self, low: usize, high: usize) -> (r: usize)
        requires
            low < high,
        ensures
            low <= r < high,
            final(self).handed() == old(self).handed().push(r as int),
    {
        let r: usize = std_rng_range(&mut self.inner, low, high);
        self.handed = Ghost(self.handed@.push(r as int));
        r
    }

    /// A random number of `low..=high`.
    pub fn range_inclusive(&mut self, low: u64, high: u64) -> (r: u64)
        requires
            low <= high,
        ensures
            low <= r <= high,
            final(self).handed() == old(self).handed().push(r as int),
    {
        let r: u64 = std_rng_range_inclusive(&mut self.inner, low, high);
        self.handed = Ghost(self.handed@.push(r as int));
        r
    }

    /// A random number of `low..=high`.
    pub fn range_wide(&mut self, low: i128, high: i128) -> (r: i128)
        requires
            low <= high,
        ensures
            low <= r <= high,
            final(self).handed() == old(self).handed().push(r as int),
    {
        let r: i128 = std_rng_range_wide(&mut self.inner, low, high);
        self.handed = Ghost(self.handed@.push(r as int));
        r
    }
}

} // verus!
