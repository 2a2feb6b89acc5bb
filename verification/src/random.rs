//! Seeded xorshift generator of 32-bit words, and the bit patterns from
//! which its callers make their random fractions.

use vstd::prelude::*;

verus! {

/// The 23 low bits of a word: those that a single-precision number keeps
/// for its fraction.
pub const FRACTION_MASK: u32 = 0x007f_ffff;

/// Sign and exponent bits of the single-precision number `1.0`.
pub const ONE_BITS: u32 = 0x3f80_0000;

/// Bit pattern of the single-precision number `2.0`: the first pattern
/// above all those of the numbers from `1.0` up to `2.0`.
pub const TWO_BITS: u32 = 0x4000_0000;

/// One step of the generator: three rounds of shift and exclusive or on a
/// 32-bit word, by 13 to the left, 17 to the right and 5 to the left.
pub open spec fn xor_shift_step(seed: u32) -> u32 {
    let a = seed ^ (seed << 13u32);
    let b = a ^ (a >> 17u32);
    b ^ (b << 5u32)
}

/// The word that a generator holds after `draws` steps from `seed`.
pub open spec fn state_after(seed: u32, draws: nat) -> u32
    decreases draws,
{
    if draws == 0 {
        seed
    } else {
        xor_shift_step(state_after(seed, (draws - 1) as nat))
    }
}

/// Bit pattern of the single-precision number from `1.0` up to `2.0` whose
/// fraction is the 23 low bits of `word`.
pub open spec fn unit_pattern(word: u32) -> u32 {
    (word & FRACTION_MASK) | ONE_BITS
}

/// A generator and the word it holds, which is never zero.
pub struct RngXorShift {
    seed: u32,
}

impl RngXorShift {
    /// The word that the generator holds.
    pub closed spec fn view(&self) -> u32 {
        self.seed
    }

    /// Zero would stay zero at every step, so no generator holds it.
    #[verifier::type_invariant]
    pub open spec fn wf(self) -> bool {
        self@ != 0
    }

    /// Makes a generator that starts from `seed`.
    pub fn new(seed: u32) -> (rng: Self)
        requires
            seed != 0,
        ensures
            rng.wf(),
            rng@ == seed,
    {
        RngXorShift { seed }
    }

    /// Takes one step and returns the word then held.
    pub fn xor_shift(&mut self) -> (word: u32)
        ensures
            final(self).wf(),
            final(self)@ == xor_shift_step(old(self)@),
            word == final(self)@,
    {
        proof {
            use_type_invariant(&*self);
            lemma_step_keeps_nonzero(self.seed);
        }
        let first: u32 = self.seed ^ (self.seed << 13);
        let second: u32 = first ^ (first >> 17);
        self.seed = second ^ (second << 5);
        self.seed
    }

    /// Takes one step and returns the bit pattern of a single-precision
    /// number from `1.0` up to `2.0`, made of the low bits of the word then
    /// held.
    pub fn unit_bits(&mut self) -> (bits: u32)
        ensures
            final(self).wf(),
            final(self)@ == xor_shift_step(old(self)@),
            bits == unit_pattern(final(self)@),
            ONE_BITS <= bits < TWO_BITS,
    {
        let word: u32 = self.xor_shift();
        proof {
            lemma_unit_pattern_range(word);
        }
        (word & FRACTION_MASK) | ONE_BITS
    }
}

/// Zero is a fixed point of the step.
pub proof fn lemma_zero_absorbs()
    ensures
        xor_shift_step(0) == 0,
{
    assert(xor_shift_step(0u32) == 0u32) by (bit_vector);
}

/// A step never leads from another word to zero.
pub proof fn lemma_step_keeps_nonzero(seed: u32)
    requires
        seed != 0,
    ensures
        xor_shift_step(seed) != 0,
{
    assert(seed != 0 ==> xor_shift_step(seed) != 0) by (bit_vector);
}

/// No number of steps leads from a seed other than zero to zero.
pub proof fn lemma_state_stays_nonzero(seed: u32, draws: nat)
    requires
        seed != 0,
    ensures
        state_after(seed, draws) != 0,
    decreases draws,
{
    if draws > 0 {
        lemma_state_stays_nonzero(seed, (draws - 1) as nat);
        lemma_step_keeps_nonzero(state_after(seed, (draws - 1) as nat));
    }
}

/// Steps add up: `more` steps from where `steps` steps have led are
/// `steps + more` steps from the seed. So the word that a call returns
/// depends on the seed and on the number of calls before it, and on nothing
/// else.
pub proof fn lemma_steps_add_up(seed: u32, steps: nat, more: nat)
    ensures
        state_after(state_after(seed, steps), more) == state_after(seed, steps + more),
    decreases more,
{
    if more > 0 {
        lemma_steps_add_up(seed, steps, (more - 1) as nat);
    }
}

/// The pattern has a clear sign bit, the exponent of `1.0`, and the 23 low
/// bits of the word as its fraction. So it lies from the pattern of `1.0`
/// up to, and not at, the pattern of `2.0`.
pub proof fn lemma_unit_pattern_range(word: u32)
    ensures
        ONE_BITS <= unit_pattern(word) < TWO_BITS,
        unit_pattern(word) - ONE_BITS == word % 0x80_0000,
{
    assert(0x3f80_0000u32 <= ((word & 0x007f_ffffu32) | 0x3f80_0000u32) < 0x4000_0000u32)
        by (bit_vector);
    assert(((word & 0x007f_ffffu32) | 0x3f80_0000u32) - 0x3f80_0000u32 == word % 0x80_0000u32)
        by (bit_vector);
}

/// A generator is the word it holds and nothing more.
pub proof fn lemma_word_is_all(first: RngXorShift, second: RngXorShift)
    requires
        first@ == second@,
    ensures
        first == second,
{
}

/// Two generators that hold the same word go through the same words from
/// then on, and hand out the same bit patterns, draw after draw.
pub proof fn lemma_same_seed_same_draws(first: RngXorShift, second: RngXorShift, draws: nat)
    requires
        first.wf(),
        second.wf(),
        first@ == second@,
    ensures
        state_after(first@, draws) == state_after(second@, draws),
        unit_pattern(state_after(first@, draws)) == unit_pattern(state_after(second@, draws)),
{
}

} // verus!
