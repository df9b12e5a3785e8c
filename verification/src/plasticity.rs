use vstd::prelude::*;

verus! {

/// The default reward-modulated plasticity rule: a graded error becomes a
/// signed teaching signal, scaled by eligibility, learning rate and `gain`,
/// the largest single-edge step at full strength.
#[derive(Debug, Clone, Copy, PartialEq, Eq, Structural)]
pub struct ProportionalPlasticity {
    gain: i16,
}

/// The gain of the default rule.
pub const DEFAULT_GAIN: i16 = 10;

impl ProportionalPlasticity {
    pub fn new(gain: i16) -> (r: Self)
        ensures
            r.gain() == gain,
    {
        ProportionalPlasticity { gain }
    }

    pub closed spec fn spec_gain(self) -> i16 {
        self.gain
    }

    #[verifier::when_used_as_spec(spec_gain)]
    pub fn gain(self) -> (r: i16)
        ensures
            r == self.spec_gain(),
    {
        self.gain
    }
}

impl Default for ProportionalPlasticity {
    fn default() -> (r: Self)
        ensures
            r.gain() == DEFAULT_GAIN,
    {
        ProportionalPlasticity { gain: DEFAULT_GAIN }
    }
}

} // verus!
