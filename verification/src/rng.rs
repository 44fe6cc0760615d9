//! Deterministic, seedable RNG (PCG-XSH-RR 64/32).
//!
//! Determinism is a feature: every published number must be reproducible from its seed.

use vstd::prelude::*;

verus! {

/// The LCG multiplier of PCG-XSH-RR 64/32.
pub const PCG_MULT: u64 = 6364136223846793005;

/// One state transition: `state * MULT + inc`, modulo `2^64`.
pub open spec fn pcg_step(state: u64, inc: u64) -> u64 {
    vstd::wrapping::u64_specs::wrapping_add(vstd::wrapping::u64_specs::wrapping_mul(state, PCG_MULT), inc)
}

/// Rotating a 32-bit word right by `rot` places (taken modulo 32).
pub open spec fn rotr32(x: u32, rot: u32) -> u32 {
    let r = (rot % 32) as u32;
    if r == 0 {
        x
    } else {
        (x >> r) | (x << ((32 - r) as u32))
    }
}

/// The 32-bit output PCG-XSH-RR derives from the state before a step.
pub open spec fn pcg_output(old: u64) -> u32 {
    rotr32((((old >> 18u64) ^ old) >> 27u64) as u32, (old >> 59u64) as u32)
}

/// PCG-XSH-RR, a small deterministic generator with independent streams.
///
/// Deterministic by seed is load-bearing: every result must be reproducible from its seed alone.
#[derive(Clone)]
pub struct Pcg {
    state: u64,
    inc: u64,
}

impl Pcg {
    /// The current 64-bit state.
    pub closed spec fn state_of(&self) -> u64 {
        self.state
    }

    /// The stream increment, always odd.
    pub closed spec fn inc_of(&self) -> u64 {
        self.inc
    }

    /// The generator `new(seed, stream)` builds: one step from zero, the seed added, one more step.
    pub open spec fn spec_new(seed: u64, stream: u64) -> (u64, u64) {
        let inc = ((stream as int * 2) % 0x1_0000_0000_0000_0000) as u64 | 1u64;
        let s1 = pcg_step(0, inc);
        let s2 = vstd::wrapping::u64_specs::wrapping_add(s1, seed);
        (pcg_step(s2, inc), inc)
    }

    /// A generator on `stream`, started at `seed`. Different streams do not correlate.
    pub fn new(seed: u64, stream: u64) -> (r: Self)
        ensures
            r.state_of() == Self::spec_new(seed, stream).0,
            r.inc_of() == Self::spec_new(seed, stream).1,
            r.inc_of() % 2 == 1,
    {
        let inc = (stream << 1u64) | 1u64;
        assert(stream << 1u64 == ((stream as int * 2) % 0x1_0000_0000_0000_0000) as u64)
            by (bit_vector);
        assert(((stream << 1u64) | 1u64) % 2 == 1) by (bit_vector);
        let mut r = Pcg { state: 0, inc };
        r.next_u32();
        r.state = r.state.wrapping_add(seed);
        r.next_u32();
        r
    }

    /// The next 32 bits, advancing the state once.
    pub fn next_u32(&mut self) -> (out: u32)
        ensures
            out == pcg_output(old(self).state_of()),
            final(self).state_of() == pcg_step(old(self).state_of(), old(self).inc_of()),
            final(self).inc_of() == old(self).inc_of(),
    {
        let old = self.state;
        self.state = old.wrapping_mul(6364136223846793005).wrapping_add(self.inc);
        let xorshifted = (((old >> 18u64) ^ old) >> 27u64) as u32;
        let rot = (old >> 59u64) as u32;
        rotate_right32(xorshifted, rot)
    }

    /// 64 uniform bits, as two draws: the first in the high half, the second in the low half.
    pub fn next_u64(&mut self) -> (out: u64)
        ensures
            out == (pcg_output(old(self).state_of()) as u64) * 0x1_0000_0000 + pcg_output(
                pcg_step(old(self).state_of(), old(self).inc_of()),
            ) as u64,
            final(self).state_of() == pcg_step(
                pcg_step(old(self).state_of(), old(self).inc_of()),
                old(self).inc_of(),
            ),
            final(self).inc_of() == old(self).inc_of(),
    {
        let hi = self.next_u32() as u64;
        let lo = self.next_u32() as u64;
        assert((hi << 32u64) | lo == hi * 0x1_0000_0000 + lo) by (bit_vector)
            requires
                hi < 0x1_0000_0000,
                lo < 0x1_0000_0000,
        ;
        (hi << 32u64) | lo
    }

    /// The 53-bit numerator of a uniform draw in `[0, 1)`: 26 bits of one draw above 27 of the
    /// next. Divided by `2^53` it is the generator's uniform double.
    pub fn unit53(&mut self) -> (out: u64)
        ensures
            out == ((pcg_output(old(self).state_of()) >> 6u32) as u64) * 0x800_0000 + (pcg_output(
                pcg_step(old(self).state_of(), old(self).inc_of()),
            ) >> 5u32) as u64,
            out < 0x20_0000_0000_0000,
            final(self).state_of() == pcg_step(
                pcg_step(old(self).state_of(), old(self).inc_of()),
                old(self).inc_of(),
            ),
            final(self).inc_of() == old(self).inc_of(),
    {
        let a = self.next_u32();
        let b = self.next_u32();
        let hi = (a >> 6u32) as u64;
        let lo = (b >> 5u32) as u64;
        assert(hi < 0x400_0000 && lo < 0x800_0000) by (bit_vector)
            requires
                hi == (a >> 6u32) as u64,
                lo == (b >> 5u32) as u64,
        ;
        assert((hi << 27u64) | lo == hi * 0x800_0000 + lo) by (bit_vector)
            requires
                hi < 0x400_0000,
                lo < 0x800_0000,
        ;
        (hi << 27u64) | lo
    }
}

/// `x` rotated right by `rot` places, the bits shifted out re-entering at the top.
fn rotate_right32(x: u32, rot: u32) -> (r: u32)
    ensures
        r == rotr32(x, rot),
{
    let k = rot % 32;
    if k == 0 {
        x
    } else {
        (x >> k) | (x << (32 - k))
    }
}

} // verus!
