use vstd::prelude::*;

use crate::edge::EdgeId;
use crate::id::{Endpoint, EndpointId, ModuleId};
use crate::signal::Signal;

verus! {

/// One traversed hop of a run: the route's source and target.
#[derive(Debug, PartialEq, Eq)]
pub struct TraceStep {
    from: EndpointId,
    to: ModuleId,
}

impl View for TraceStep {
    type V = (Endpoint, Seq<char>);

    closed spec fn view(&self) -> (Endpoint, Seq<char>) {
        (self.from@, self.to@)
    }
}

/// The abstract value of a trajectory: its edges in order.
pub open spec fn trace_view(steps: Seq<TraceStep>) -> Seq<(Endpoint, Seq<char>)> {
    steps.map_values(|s: TraceStep| s@)
}

impl TraceStep {
    pub fn new(from: EndpointId, to: ModuleId) -> (r: Self)
        ensures
            r@ == (from@, to@),
    {
        TraceStep { from, to }
    }

    pub fn from(&self) -> (r: &EndpointId)
        ensures
            r@ == self@.0,
    {
        &self.from
    }

    pub fn to(&self) -> (r: &ModuleId)
        ensures
            r@ == self@.1,
    {
        &self.to
    }

    /// This step's `(from, to)` edge identity.
    pub fn edge(&self) -> (r: EdgeId)
        ensures
            r@ == self@,
    {
        EdgeId::new(self.from.clone(), self.to.clone())
    }
}

impl Clone for TraceStep {
    fn clone(&self) -> (r: Self)
        ensures
            r@ == self@,
    {
        TraceStep { from: self.from.clone(), to: self.to.clone() }
    }
}

/// How a run ended.
#[derive(Debug, Clone, PartialEq, Eq)]
pub enum RunStatus<P> {
    /// A module stopped the run with this final signal.
    Stopped(Signal<P>),
    /// Module `at` dropped the signal.
    Dropped { at: ModuleId },
    /// No route from `at` fired for `signal`.
    NoRoute { at: EndpointId, signal: Signal<P> },
    /// The run was halted at `at` (cancelled, or a stalled edge).
    Halted { at: EndpointId },
}

/// A finished run: how it ended and the hops it took.
#[derive(Debug, Clone, PartialEq, Eq)]
pub struct RunReport<P> {
    status: RunStatus<P>,
    steps: Vec<TraceStep>,
}

impl<P> RunReport<P> {
    pub fn new(status: RunStatus<P>, steps: Vec<TraceStep>) -> (r: Self)
        ensures
            r.spec_status() == status,
            r.spec_steps() == steps@,
    {
        RunReport { status, steps }
    }

    pub closed spec fn spec_status(&self) -> RunStatus<P> {
        self.status
    }

    pub closed spec fn spec_steps(&self) -> Seq<TraceStep> {
        self.steps@
    }

    pub fn status(&self) -> (r: &RunStatus<P>)
        ensures
            *r == self.spec_status(),
    {
        &self.status
    }

    pub fn into_status(self) -> (r: RunStatus<P>)
        ensures
            r == self.spec_status(),
    {
        self.status
    }

    pub fn steps(&self) -> (r: &[TraceStep])
        ensures
            r@ == self.spec_steps(),
    {
        self.steps.as_slice()
    }
}

} // verus!
