//! A small seeded pseudorandom source (SplitMix64), owned by each soup and generator.

use vstd::prelude::*;

verus! {

pub const GAMMA: u64 = 0x9E37_79B9_7F4A_7C15;

pub const MIX_A: u64 = 0xBF58_476D_1CE4_E5B9;

pub const MIX_B: u64 = 0x94D0_49BB_1331_11EB;

/// The state that follows `s`.
pub open spec fn advance(s: u64) -> u64 {
    s.wrapping_add(GAMMA)
}

/// The output drawn from state `z`.
#[verifier::opaque]
pub open spec fn mix(z: u64) -> u64 {
    let a = (z ^ (z >> 30u64)).wrapping_mul(MIX_A);
    let b = (a ^ (a >> 27u64)).wrapping_mul(MIX_B);
    b ^ (b >> 31u64)
}

/// The initial state for a seed: its bytes folded in order.
pub open spec fn fold_seed(bytes: Seq<u8>) -> u64
    decreases bytes.len(),
{
    if bytes.len() == 0 {
        0
    } else {
        fold_seed(bytes.drop_last()).wrapping_mul(257).wrapping_add(bytes.last() as u64)
    }
}

pub struct Rng {
    state: u64,
}

impl Rng {
    pub closed spec fn state(&self) -> u64 {
        self.state
    }

    /// A source whose state is fixed by the 32 bytes of `seed`.
    pub fn from_seed(seed: [u8; 32]) -> (r: Rng)
        ensures
            r.state() == fold_seed(seed@),
    {
        let mut state: u64 = 0;
        let mut i: usize = 0;
        while i < 32
            invariant
                i <= 32,
                seed@.len() == 32,
                state == fold_seed(seed@.take(i as int)),
            decreases 32 - i,
        {
            assert(seed@.take(i + 1).drop_last() =~= seed@.take(i as int));
            state = state.wrapping_mul(257).wrapping_add(seed[i] as u64);
            i = i + 1;
        }
        assert(seed@.take(32) =~= seed@);
        Rng { state }
    }

    /// A source started directly from a 64-bit state.
    pub fn from_state(state: u64) -> (r: Rng)
        ensures
            r.state() == state,
    {
        Rng { state }
    }

    /// The next 64 pseudorandom bits.
    pub fn next_u64(&mut self) -> (r: u64)
        ensures
            final(self).state() == advance(old(self).state()),
            r == mix(advance(old(self).state())),
    {
        proof {
            reveal(mix);
        }
        self.state = self.state.wrapping_add(GAMMA);
        let z = self.state;
        let a = (z ^ (z >> 30u64)).wrapping_mul(MIX_A);
        let b = (a ^ (a >> 27u64)).wrapping_mul(MIX_B);
        b ^ (b >> 31u64)
    }

    /// A number drawn below `bound`.
    pub fn below(&mut self, bound: u64) -> (r: u64)
        requires
            bound > 0,
        ensures
            final(self).state() == advance(old(self).state()),
            r == mix(advance(old(self).state())) % bound,
            r < bound,
    {
        let x = self.next_u64();
        x % bound
    }

    /// True with probability `ppm` in a million.
    pub fn chance(&mut self, ppm: u32) -> (r: bool)
        ensures
            final(self).state() == advance(old(self).state()),
            r == (mix(advance(old(self).state())) % 1_000_000 < ppm as u64),
    {
        let x = self.below(1_000_000);
        x < ppm as u64
    }
}

} // verus!
