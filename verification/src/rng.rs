use vstd::prelude::*;

verus! {

/// The seed a default generator starts from, so even unconfigured runs are
/// reproducible.
pub const DEFAULT_SEED: u64 = 0x5EED_C0DE_1234_ABCD;

/// The state after one SplitMix64 step from `state`.
pub open spec fn splitmix_state(state: u64) -> u64 {
    vstd::wrapping::u64_specs::wrapping_add(state, 0x9E37_79B9_7F4A_7C15u64)
}

/// The SplitMix64 output for the advanced state `s`.
pub open spec fn splitmix_output(s: u64) -> u64 {
    let z1 = vstd::wrapping::u64_specs::wrapping_mul(s ^ (s >> 30u64), 0xBF58_476D_1CE4_E5B9u64);
    let z2 = vstd::wrapping::u64_specs::wrapping_mul(z1 ^ (z1 >> 27u64), 0x94D0_49BB_1331_11EBu64);
    z2 ^ (z2 >> 31u64)
}

/// A small seedable pseudo-random generator (SplitMix64): the same seed
/// always yields the same sequence.
#[derive(Debug, Clone)]
pub struct Rng {
    state: u64,
}

impl Rng {
    pub closed spec fn spec_state(&self) -> u64 {
        self.state
    }

    pub fn seeded(seed: u64) -> (r: Self)
        ensures
            r.spec_state() == seed,
    {
        Rng { state: seed }
    }

    /// The next pseudo-random `u64`.
    pub fn next_u64(&mut self) -> (r: u64)
        ensures
            final(self).spec_state() == splitmix_state(old(self).spec_state()),
            r == splitmix_output(final(self).spec_state()),
    {
        self.state = self.state.wrapping_add(0x9E37_79B9_7F4A_7C15);
        let mut z = self.state;
        z = (z ^ (z >> 30)).wrapping_mul(0xBF58_476D_1CE4_E5B9);
        z = (z ^ (z >> 27)).wrapping_mul(0x94D0_49BB_1331_11EB);
        z ^ (z >> 31)
    }
}

impl Default for Rng {
    fn default() -> (r: Self)
        ensures
            r.spec_state() == DEFAULT_SEED,
    {
        Rng::seeded(DEFAULT_SEED)
    }
}

} // verus!
