use vstd::prelude::*;

use crate::text::{decimal, push_decimal};

verus! {

/// The most steps a single run may take.
#[derive(Debug, Clone, Copy, PartialEq, Eq, Structural, Hash)]
pub struct StepLimit(usize);

/// The step limit of a default runtime.
pub const DEFAULT_STEP_LIMIT: usize = 64;

impl StepLimit {
    pub fn new(steps: usize) -> (r: Self)
        ensures
            r.get() == steps,
    {
        StepLimit(steps)
    }

    pub closed spec fn spec_get(self) -> usize {
        self.0
    }

    #[verifier::when_used_as_spec(spec_get)]
    pub fn get(self) -> (r: usize)
        ensures
            r == self.spec_get(),
    {
        self.0
    }

    /// The limit as decimal text.
    pub fn to_string(self) -> (r: String)
        ensures
            r@ == decimal(self.get() as nat),
    {
        let mut s = String::new();
        push_decimal(&mut s, self.0 as u64);
        s
    }
}

impl Default for StepLimit {
    fn default() -> (r: Self)
        ensures
            r.get() == DEFAULT_STEP_LIMIT,
    {
        StepLimit(DEFAULT_STEP_LIMIT)
    }
}

} // verus!
