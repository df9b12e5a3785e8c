use vstd::prelude::*;

use crate::edge::EdgeId;
use crate::id::{Endpoint, EndpointId, ModuleId};

verus! {

/// A single observable transition of a run, or of learning on the routing
/// table; an event log receives these in order.
#[derive(Debug, Clone, PartialEq, Eq)]
pub enum RunEvent {
    /// A signal was routed from `from` into module `to`, about to be handled.
    Entered { from: EndpointId, to: ModuleId },
    /// Module `at` emitted a signal to continue routing.
    Emitted { at: ModuleId },
    /// Module `at` stopped the run with a final signal.
    Stopped { at: ModuleId },
    /// Module `at` dropped the signal, ending the run.
    Dropped { at: ModuleId },
    /// The run was halted at `at`.
    Halted { at: EndpointId },
    /// `edge` was selected for the `count`-th time in one run, past the stall
    /// threshold.
    Stalled { edge: EdgeId, count: usize },
    /// The learned weight of every route on `edge` changed by `delta`.
    Reinforced { edge: EdgeId, delta: i16 },
}

/// The abstract value of a run event.
pub enum EventView {
    Entered(Endpoint, Seq<char>),
    Emitted(Seq<char>),
    Stopped(Seq<char>),
    Dropped(Seq<char>),
    Halted(Endpoint),
    Stalled((Endpoint, Seq<char>), usize),
    Reinforced((Endpoint, Seq<char>), i16),
}

impl View for RunEvent {
    type V = EventView;

    open spec fn view(&self) -> EventView {
        match self {
            RunEvent::Entered { from, to } => EventView::Entered(from@, to@),
            RunEvent::Emitted { at } => EventView::Emitted(at@),
            RunEvent::Stopped { at } => EventView::Stopped(at@),
            RunEvent::Dropped { at } => EventView::Dropped(at@),
            RunEvent::Halted { at } => EventView::Halted(at@),
            RunEvent::Stalled { edge, count } => EventView::Stalled(edge@, *count),
            RunEvent::Reinforced { edge, delta } => EventView::Reinforced(edge@, *delta),
        }
    }
}

/// The views of an event log.
pub open spec fn event_views(events: Seq<RunEvent>) -> Seq<EventView> {
    events.map_values(|e: RunEvent| e@)
}

} // verus!
