use std::sync::Arc;
use std::sync::atomic::AtomicUsize;
use std::sync::atomic::Ordering;

use vstd::prelude::*;

use crate::gate::Gate;
use crate::signal::Signal;

verus! {

/// Whether a circuit with `threshold` has opened after `failures`.
pub open spec fn circuit_open(failures: usize, threshold: usize) -> bool {
    failures >= threshold
}

/// A circuit breaker gate: it admits signals while closed, and once recorded
/// failures reach its threshold it opens and denies everything, isolating the
/// route. Clones share one failure count, so the clone installed on a route and
/// the clone a supervisor keeps observe the same circuit.
#[derive(Debug)]
pub struct CircuitBreaker {
    failures: Arc<AtomicUsize>,
    threshold: usize,
}

impl CircuitBreaker {
    /// A closed breaker that opens after `threshold` failures; a threshold of
    /// zero is treated as one.
    pub fn new(threshold: usize) -> (r: Self)
        ensures
            r.threshold() == if threshold == 0 {
                1
            } else {
                threshold
            },
    {
        let threshold = if threshold == 0 {
            1
        } else {
            threshold
        };
        CircuitBreaker { failures: Arc::new(AtomicUsize::new(0)), threshold }
    }

    pub closed spec fn spec_threshold(&self) -> usize {
        self.threshold
    }

    /// The number of failures at which the circuit opens (at least one).
    #[verifier::when_used_as_spec(spec_threshold)]
    pub fn threshold(&self) -> (r: usize)
        ensures
            r == self.spec_threshold(),
            r >= 1,
    {
        proof {
            use_type_invariant(self);
        }
        self.threshold
    }

    #[verifier::type_invariant]
    spec fn inv(&self) -> bool {
        self.threshold >= 1
    }

    /// Record one failure.
    pub fn trip(&self) {
        self.failures.fetch_add(1, Ordering::Relaxed);
    }

    /// Close the breaker again, clearing the failure count.
    pub fn reset(&self) {
        self.failures.store(0, Ordering::Relaxed);
    }

    /// Failures recorded since the last reset. The count is shared with every
    /// clone, so it reflects whatever the other holders recorded.
    pub fn failures(&self) -> usize {
        self.failures.load(Ordering::Relaxed)
    }

    /// Whether `failures` recorded failures open this circuit.
    pub fn opens_at(&self, failures: usize) -> (r: bool)
        ensures
            r == circuit_open(failures, self.threshold()),
    {
        failures >= self.threshold
    }

    /// Whether the circuit is open, judged by [`opens_at`](Self::opens_at) on
    /// one reading of the shared count. The count is shared with every clone
    /// and not modelled here, so nothing is stated of the reading.
    pub fn is_open(&self) -> bool {
        self.opens_at(self.failures())
    }
}

impl Clone for CircuitBreaker {
    /// Another handle on the same circuit.
    fn clone(&self) -> (r: Self)
        ensures
            r.threshold() == self.threshold(),
    {
        proof {
            use_type_invariant(self);
        }
        CircuitBreaker { failures: Arc::clone(&self.failures), threshold: self.threshold }
    }
}

impl<P> Gate<P> for CircuitBreaker {
    /// Either answer: it depends on the shared failure count, which is not
    /// modelled here.
    open spec fn may_admit(&self, signal: &Signal<P>, answer: bool) -> bool {
        true
    }

    /// Admits while the circuit is closed.
    fn admits(&self, _signal: &Signal<P>) -> bool {
        !self.is_open()
    }
}

} // verus!
