//! A small deterministic pseudo-random source for exploration.

use crate::binary64::Binary64;
use crate::clock::is_reading;
use crate::clock::nanos_at;
use crate::clock::now_nanos;
use crate::clock::truncate_span;
use std::time::SystemTime;
use vstd::arithmetic::power2::*;
use vstd::prelude::*;

verus! {

/// The odd constant by which the generator's state moves on.
pub const GOLDEN_GAMMA: u64 = 0x9E37_79B9_7F4A_7C15;

/// Source of pseudo-random values for selection. A trait, so that callers can
/// put a fixed sequence in its place.
pub trait RandomSource: Sized {
    /// Whether a source in state `before` can draw `r` from `[0, 1)` and be in
    /// state `after` then. A source that says nothing of its draws can draw
    /// anything.
    open spec fn unit_draw(before: Self, r: Binary64, after: Self) -> bool {
        true
    }

    /// Whether a source in state `before` can draw `r` from the numbers below
    /// `upper` and be in state `after` then.
    open spec fn bounded_draw(before: Self, upper: usize, r: usize, after: Self) -> bool {
        true
    }

    /// A value in `[0, 1)`.
    fn next_unit_float(&mut self) -> (r: Binary64)
        ensures
            is_unit_fraction(r),
            Self::unit_draw(*old(self), r, *final(self)),
    ;

    /// A value below `upper`.
    fn next_bounded(&mut self, upper: usize) -> (r: usize)
        requires
            upper > 0,
        ensures
            r < upper,
            Self::bounded_draw(*old(self), upper, r, *final(self)),
    ;
}

/// Whether a value lies in `[0, 1)`.
pub open spec fn is_unit_fraction(value: Binary64) -> bool {
    value.is_nonnegative_finite() && 0 <= value.units() < crate::binary64::unit()
}

/// Zero lies in `[0, 1)`.
pub proof fn lemma_zero_is_unit_fraction()
    ensures
        is_unit_fraction(Binary64 { bits: 0 }),
{
    assert(crate::binary64::magnitude(0) == 0);
    crate::binary64::lemma_unit_positive();
}

/// The state that follows a state.
pub open spec fn next_state(state: u64) -> u64 {
    state.wrapping_add(GOLDEN_GAMMA)
}

/// The output that belongs to a state: its bits, mixed twice by a shift and a
/// multiplication, and shifted once more.
pub open spec fn mixed(state: u64) -> u64 {
    let first = (state ^ (state >> 30)).wrapping_mul(0xBF58_476D_1CE4_E5B9);
    let second = (first ^ (first >> 27)).wrapping_mul(0x94D0_49BB_1331_11EB);
    second ^ (second >> 31)
}

/// A seed of zero counts as one.
pub open spec fn seeded(seed: u64) -> u64 {
    if seed == 0 {
        1
    } else {
        seed
    }
}

/// The seed made of a clock reading in nanoseconds, or of a fixed number where
/// there is none, and of a process id in the upper half.
pub open spec fn entropy_seed(nanos: Option<u128>, process_id: u32) -> u64 {
    crate::clock::low_bits(nanos, GOLDEN_GAMMA) ^ ((process_id as u64) << 32)
}

/// A splitmix64 generator. Good enough for exploration, and for nothing that
/// has to be unpredictable.
pub struct DefaultRng {
    state: u64,
}

impl View for DefaultRng {
    type V = u64;

    closed spec fn view(&self) -> u64 {
        self.state
    }
}

impl DefaultRng {
    pub fn from_seed(seed: u64) -> (r: DefaultRng)
        ensures
            r@ == seeded(seed),
    {
        DefaultRng {
            state: if seed == 0 {
                1
            } else {
                seed
            },
        }
    }

    /// A generator seeded from a clock reading and a process id.
    pub fn from_entropy(nanos: Option<u128>, process_id: u32) -> (r: DefaultRng)
        ensures
            r@ == seeded(entropy_seed(nanos, process_id)),
    {
        DefaultRng::from_seed(truncate_span(nanos, GOLDEN_GAMMA) ^ ((process_id as u64) << 32))
    }

    /// A generator seeded from the system clock and the id of the process.
    pub fn from_system_time(process_id: u32) -> (r: DefaultRng)
        ensures
            exists|time: SystemTime|
                #[trigger] is_reading(time) && r@ == seeded(
                    entropy_seed(nanos_at(time), process_id),
                ),
    {
        DefaultRng::from_entropy(now_nanos(), process_id)
    }

    pub fn next_u64(&mut self) -> (r: u64)
        ensures
            final(self)@ == next_state(old(self)@),
            r == mixed(final(self)@),
    {
        self.state = self.state.wrapping_add(GOLDEN_GAMMA);
        let mut z: u64 = self.state;
        z = (z ^ (z >> 30)).wrapping_mul(0xBF58_476D_1CE4_E5B9);
        z = (z ^ (z >> 27)).wrapping_mul(0x94D0_49BB_1331_11EB);
        z ^ (z >> 31)
    }
}

impl RandomSource for DefaultRng {
    /// The upper 53 bits of the next output, over two to the fifty-third.
    open spec fn unit_draw(before: DefaultRng, r: Binary64, after: DefaultRng) -> bool {
        &&& after@ == next_state(before@)
        &&& r == Binary64::cast((mixed(after@) >> 11) as nat).over(Binary64::cast(pow2(53)))
    }

    /// The next output modulo the bound.
    open spec fn bounded_draw(
        before: DefaultRng,
        upper: usize,
        r: usize,
        after: DefaultRng,
    ) -> bool {
        &&& after@ == next_state(before@)
        &&& r == (mixed(after@) as usize) % upper
    }

    fn next_unit_float(&mut self) -> (r: Binary64)
        ensures
            r.units() == (mixed(final(self)@) >> 11) * pow2(1021),
    {
        let output: u64 = self.next_u64();
        assert(output >> 11 < 0x20_0000_0000_0000) by (bit_vector);
        proof {
            lemma2_to64_rest();
        }
        Binary64::unit_fraction(output >> 11)
    }

    fn next_bounded(&mut self, upper: usize) -> (r: usize) {
        self.next_u64() as usize % upper
    }
}

/// A generator's state decides what it draws and the state that follows.
pub proof fn lemma_default_rng_is_deterministic(
    before: DefaultRng,
    upper: usize,
    unit_a: Binary64,
    after_unit_a: DefaultRng,
    unit_b: Binary64,
    after_unit_b: DefaultRng,
    bounded_a: usize,
    after_bounded_a: DefaultRng,
    bounded_b: usize,
    after_bounded_b: DefaultRng,
)
    requires
        DefaultRng::unit_draw(before, unit_a, after_unit_a),
        DefaultRng::unit_draw(before, unit_b, after_unit_b),
        DefaultRng::bounded_draw(before, upper, bounded_a, after_bounded_a),
        DefaultRng::bounded_draw(before, upper, bounded_b, after_bounded_b),
    ensures
        unit_a == unit_b,
        after_unit_a == after_unit_b,
        bounded_a == bounded_b,
        after_bounded_a == after_bounded_b,
{
}

/// The generator is splitmix64: its state moves on by a fixed odd number, and its
/// output is mixed from it by two multiplications.
pub proof fn lemma_generator_is_splitmix(state: u64)
    ensures
        next_state(state) == (state + 0x9E37_79B9_7F4A_7C15) % 0x1_0000_0000_0000_0000,
        ({
            let first = (((state ^ (state >> 30)) * 0xBF58_476D_1CE4_E5B9)
                % 0x1_0000_0000_0000_0000) as u64;
            let second = (((first ^ (first >> 27)) * 0x94D0_49BB_1331_11EB)
                % 0x1_0000_0000_0000_0000) as u64;
            mixed(state) == second ^ (second >> 31)
        }),
{
}

/// The values drawn are the upper 53 bits of the output over 2^53, and the output
/// modulo the bound; a seed of zero counts as one.
pub proof fn lemma_draws_follow_the_output(
    before: DefaultRng,
    unit: Binary64,
    after_unit: DefaultRng,
    upper: usize,
    bounded: usize,
    after_bounded: DefaultRng,
)
    requires
        DefaultRng::unit_draw(before, unit, after_unit),
        DefaultRng::bounded_draw(before, upper, bounded, after_bounded),
        upper > 0,
    ensures
        after_unit@ == next_state(before@),
        after_bounded@ == next_state(before@),
        bounded < upper,
        bounded == (mixed(next_state(before@)) as usize) % upper,
        unit.bits < 0x7FF0_0000_0000_0000,
        unit.units() * 0x20_0000_0000_0000 == (mixed(next_state(before@)) >> 11)
            * crate::binary64::unit(),
        seeded(0) == 1,
        forall|seed: u64| seed > 0 ==> #[trigger] seeded(seed) == seed,
{
    let output = mixed(next_state(before@));
    let k: int = (output >> 11) as int;
    assert(output >> 11 < 0x20_0000_0000_0000) by (bit_vector);
    lemma2_to64_rest();
    lemma_pow2_adds(53, 1021);
    crate::binary64::lemma_unit_fraction(k as nat);
    assert((k * pow2(1021)) * 0x20_0000_0000_0000 == k * (pow2(53) * pow2(1021)))
        by (nonlinear_arith)
        requires
            pow2(53) == 0x20_0000_0000_0000,
    ;
}

/// The seed that is made of a clock reading and a process id differs from the lower 64
/// bits of the reading by the id in its upper half.
pub proof fn lemma_entropy_of_clock_and_process(nanos: u128, process_id: u32)
    ensures
        nanos <= 0xFFFF_FFFF_FFFF_FFFF ==> entropy_seed(Some(nanos), process_id) ^ (nanos as u64)
            == process_id * 0x1_0000_0000,
        entropy_seed(None, process_id) ^ 0x9E37_79B9_7F4A_7C15 == process_id * 0x1_0000_0000,
{
    let low = nanos as u64;
    let id = process_id as u64;
    assert(id <= 0xFFFF_FFFF ==> (low ^ (id << 32)) ^ low == id * 0x1_0000_0000) by (bit_vector);
    assert(id <= 0xFFFF_FFFF ==> (0x9E37_79B9_7F4A_7C15u64 ^ (id << 32)) ^ 0x9E37_79B9_7F4A_7C15u64
        == id * 0x1_0000_0000) by (bit_vector);
}

} // verus!
