use std::sync::Arc;
use std::sync::atomic::AtomicBool;
use std::sync::atomic::Ordering;

use vstd::prelude::*;

use crate::signal::{Phase, Priority, Signal};

verus! {

/// Decides whether a route admits a signal. Implementations are free to
/// consult anything, so the routing core treats each answer as an input.
pub trait Gate<P> {
    /// `answer` is an answer this gate may give for `signal`; unless a gate
    /// says otherwise, either answer.
    closed spec fn may_admit(&self, signal: &Signal<P>, answer: bool) -> bool {
        true
    }

    fn admits(&self, signal: &Signal<P>) -> (r: bool)
        ensures
            self.may_admit(signal, r),
    ;
}

/// A gate that admits every signal.
#[derive(Debug, Clone, Copy, Default)]
pub struct Allow;

impl<P> Gate<P> for Allow {
    open spec fn may_admit(&self, signal: &Signal<P>, answer: bool) -> bool {
        answer
    }

    fn admits(&self, _signal: &Signal<P>) -> (r: bool)
        ensures
            r,
    {
        true
    }
}

/// A gate that admits nothing.
#[derive(Debug, Clone, Copy, Default)]
pub struct DropSignal;

impl<P> Gate<P> for DropSignal {
    open spec fn may_admit(&self, signal: &Signal<P>, answer: bool) -> bool {
        !answer
    }

    fn admits(&self, _signal: &Signal<P>) -> (r: bool)
        ensures
            !r,
    {
        false
    }
}

/// Admits signals whose priority is at least `minimum`.
#[derive(Debug, Clone, Copy)]
pub struct MinPriority {
    minimum: Priority,
}

impl MinPriority {
    pub fn new(minimum: Priority) -> (r: Self)
        ensures
            r.spec_minimum() == minimum,
    {
        MinPriority { minimum }
    }

    pub closed spec fn spec_minimum(self) -> Priority {
        self.minimum
    }

    pub fn minimum(self) -> (r: Priority)
        ensures
            r == self.spec_minimum(),
    {
        self.minimum
    }
}

impl<P> Gate<P> for MinPriority {
    open spec fn may_admit(&self, signal: &Signal<P>, answer: bool) -> bool {
        answer == (signal.spec_priority().get() >= self.spec_minimum().get())
    }

    fn admits(&self, signal: &Signal<P>) -> (r: bool)
        ensures
            r == (signal.spec_priority().get() >= self.spec_minimum().get()),
    {
        signal.priority().get() >= self.minimum.get()
    }
}

/// A phase gate: admits a signal only when its phase is one this route is
/// active in, so one graph routes differently per phase without rewiring.
#[derive(Debug, Clone)]
pub struct PhaseGate {
    active: Vec<Phase>,
}

impl PhaseGate {
    /// Active in any of the given phases.
    pub fn new(phases: Vec<Phase>) -> (r: Self)
        ensures
            r.spec_active() == phases@,
    {
        PhaseGate { active: phases }
    }

    /// Active in exactly one phase.
    pub fn at(phase: Phase) -> (r: Self)
        ensures
            r.spec_active() == seq![phase],
    {
        let mut active = Vec::new();
        active.push(phase);
        PhaseGate { active }
    }

    pub closed spec fn spec_active(&self) -> Seq<Phase> {
        self.active@
    }
}

impl<P> Gate<P> for PhaseGate {
    open spec fn may_admit(&self, signal: &Signal<P>, answer: bool) -> bool {
        answer == self.spec_active().contains(signal.spec_phase())
    }

    fn admits(&self, signal: &Signal<P>) -> (r: bool)
        ensures
            r == self.spec_active().contains(signal.spec_phase()),
    {
        let phase = signal.phase();
        let mut i: usize = 0;
        while i < self.active.len()
            invariant
                i <= self.active@.len(),
                phase == signal.spec_phase(),
                forall|j: int| 0 <= j < i ==> self.active@[j] != phase,
            decreases self.active@.len() - i,
        {
            if self.active[i] == phase {
                assert(self.active@[i as int] == phase);
                return true;
            }
            i = i + 1;
        }
        false
    }
}

/// A shared, cloneable switch that top-down state toggles to release a
/// [`Disinhibit`] gate. All clones share one flag.
#[derive(Debug, Clone, Default)]
pub struct Release {
    released: Arc<AtomicBool>,
}

impl Release {
    pub fn new() -> Self {
        Release { released: Arc::new(AtomicBool::new(false)) }
    }

    /// Open the disinhibitory gate for every clone.
    pub fn release(&self) {
        self.released.store(true, Ordering::Relaxed);
    }

    /// Re-engage the inhibitor for every clone.
    pub fn hold(&self) {
        self.released.store(false, Ordering::Relaxed);
    }

    /// Whether the switch is currently released. The flag is shared with every
    /// clone, so the answer reflects whatever another holder last set.
    pub fn is_released(&self) -> bool {
        self.released.load(Ordering::Relaxed)
    }
}

/// A disinhibitory gate combinator: it defers to `inhibitor`, except that while
/// its [`Release`] switch is active it admits regardless.
#[derive(Debug, Clone)]
pub struct Disinhibit<I> {
    inhibitor: I,
    release: Release,
}

impl<I> Disinhibit<I> {
    pub fn new(inhibitor: I, release: Release) -> (r: Self)
        ensures
            r.spec_inhibitor() == inhibitor,
    {
        Disinhibit { inhibitor, release }
    }

    pub closed spec fn spec_inhibitor(&self) -> I {
        self.inhibitor
    }
}

impl<P, I: Gate<P>> Gate<P> for Disinhibit<I> {
    /// Admitted whenever the switch is released, which is shared state and
    /// may read either way; a refusal is always the inhibitor's refusal.
    open spec fn may_admit(&self, signal: &Signal<P>, answer: bool) -> bool {
        answer || self.spec_inhibitor().may_admit(signal, false)
    }

    fn admits(&self, signal: &Signal<P>) -> (r: bool) {
        self.release.is_released() || self.inhibitor.admits(signal)
    }
}

} // verus!
