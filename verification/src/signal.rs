use vstd::prelude::*;

verus! {

/// How urgent a signal is; gates may admit on it.
#[derive(Debug, Clone, Copy, PartialEq, Eq, Structural, PartialOrd, Ord, Hash)]
pub struct Priority(i16);

impl Priority {
    pub fn new(value: i16) -> (r: Self)
        ensures
            r.get() == value,
    {
        Priority(value)
    }

    pub closed spec fn spec_get(self) -> i16 {
        self.0
    }

    #[verifier::when_used_as_spec(spec_get)]
    pub fn get(self) -> (r: i16)
        ensures
            r == self.spec_get(),
    {
        self.0
    }
}

impl Default for Priority {
    fn default() -> (r: Self)
        ensures
            r.get() == 0,
    {
        Priority(0)
    }
}

/// The oscillation phase a signal is carried in; phase gates route on it.
#[derive(Debug, Clone, Copy, PartialEq, Eq, Structural, PartialOrd, Ord, Hash)]
pub struct Phase(u16);

impl Phase {
    pub fn new(value: u16) -> (r: Self)
        ensures
            r.get() == value,
    {
        Phase(value)
    }

    pub closed spec fn spec_get(self) -> u16 {
        self.0
    }

    #[verifier::when_used_as_spec(spec_get)]
    pub fn get(self) -> (r: u16)
        ensures
            r == self.spec_get(),
    {
        self.0
    }
}

impl Default for Phase {
    fn default() -> (r: Self)
        ensures
            r.get() == 0,
    {
        Phase(0)
    }
}

/// A typed payload travelling through the routing core, with its priority and
/// phase.
#[derive(Debug, Clone, PartialEq, Eq)]
pub struct Signal<P> {
    payload: P,
    priority: Priority,
    phase: Phase,
}

impl<P> Signal<P> {
    /// A signal at the default priority and phase.
    pub fn new(payload: P) -> (r: Self)
        ensures
            r.spec_payload() == payload,
            r.spec_priority().get() == 0,
            r.spec_phase().get() == 0,
    {
        Signal { payload, priority: Priority(0), phase: Phase(0) }
    }

    /// A signal at the given priority and the default phase.
    pub fn with_priority(payload: P, priority: Priority) -> (r: Self)
        ensures
            r.spec_payload() == payload,
            r.spec_priority() == priority,
            r.spec_phase().get() == 0,
    {
        Signal { payload, priority, phase: Phase(0) }
    }

    /// The same signal carried in `phase`.
    pub fn with_phase(self, phase: Phase) -> (r: Self)
        ensures
            r.spec_payload() == self.spec_payload(),
            r.spec_priority() == self.spec_priority(),
            r.spec_phase() == phase,
    {
        Signal { payload: self.payload, priority: self.priority, phase }
    }

    pub closed spec fn spec_payload(&self) -> P {
        self.payload
    }

    pub closed spec fn spec_priority(&self) -> Priority {
        self.priority
    }

    pub closed spec fn spec_phase(&self) -> Phase {
        self.phase
    }

    pub fn payload(&self) -> (r: &P)
        ensures
            *r == self.spec_payload(),
    {
        &self.payload
    }

    pub fn priority(&self) -> (r: Priority)
        ensures
            r == self.spec_priority(),
    {
        self.priority
    }

    pub fn phase(&self) -> (r: Phase)
        ensures
            r == self.spec_phase(),
    {
        self.phase
    }

    pub fn into_payload(self) -> (r: P)
        ensures
            r == self.spec_payload(),
    {
        self.payload
    }

    /// Transform the payload, keeping the priority and phase.
    pub fn map<Q, F: FnOnce(P) -> Q>(self, transform: F) -> (r: Signal<Q>)
        requires
            call_requires(transform, (self.spec_payload(),)),
        ensures
            call_ensures(transform, (self.spec_payload(),), r.spec_payload()),
            r.spec_priority() == self.spec_priority(),
            r.spec_phase() == self.spec_phase(),
    {
        let priority = self.priority;
        let phase = self.phase;
        Signal { payload: transform(self.payload), priority, phase }
    }
}

} // verus!
