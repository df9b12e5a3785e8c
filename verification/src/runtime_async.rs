use vstd::prelude::*;

use crate::error::RuntimeError;
use crate::event::{event_views, EventView, RunEvent};
use crate::gate::Gate;
use crate::id::{Endpoint, EndpointId, InputId, ModuleId};
use crate::limit::StepLimit;
use crate::module::{ModuleError, ModuleOutput};
use crate::report::{trace_view, RunReport, RunStatus, TraceStep};
use crate::route::{Route, RouteView, Weight};
use crate::routing::{admission_record, select_ambiguous, select_declines, select_picks, RoutingError, RoutingTable};
use crate::signal::Signal;
use crate::stop::StopToken;

verus! {

/// The decisions of a run whose modules are awaited by the caller. The
/// caller holds the modules; this type holds the wiring. A run alternates
/// [`advance`](AsyncRuntime::advance), which picks the next module or ends
/// the run, and [`resume`](AsyncRuntime::resume), which takes what the
/// awaited module returned.
#[verifier::reject_recursive_types(P)]
pub struct AsyncRuntime<P> {
    modules: Vec<ModuleId>,
    routing: RoutingTable<P>,
    step_limit: StepLimit,
    stop: Option<StopToken>,
}

/// Where a run of an [`AsyncRuntime`] stands between awaits: its position
/// and the hops taken so far.
pub struct AsyncRun {
    at: EndpointId,
    steps: Vec<TraceStep>,
}

impl AsyncRun {
    pub closed spec fn spec_at(&self) -> Endpoint {
        self.at@
    }

    pub closed spec fn spec_trail(&self) -> Seq<(Endpoint, Seq<char>)> {
        trace_view(self.steps@)
    }

    /// Where the run stands.
    pub fn at(&self) -> (r: &EndpointId)
        ensures
            r@ == self.spec_at(),
    {
        &self.at
    }

    /// How many hops the run has taken.
    pub fn step_count(&self) -> (r: usize)
        ensures
            r == self.spec_trail().len(),
    {
        self.steps.len()
    }

    fn take_steps(&mut self) -> (r: Vec<TraceStep>)
        ensures
            trace_view(r@) == old(self).spec_trail(),
            final(self).spec_at() == old(self).spec_at(),
            final(self).spec_trail() == Seq::<(Endpoint, Seq<char>)>::empty(),
    {
        let mut taken: Vec<TraceStep> = Vec::new();
        std::mem::swap(&mut taken, &mut self.steps);
        assert(trace_view(self.steps@) =~= Seq::<(Endpoint, Seq<char>)>::empty());
        taken
    }
}

/// What to do next in a run.
pub enum AsyncStep<P> {
    /// Await module `to` on `signal`, then hand its output to `resume`.
    Await { to: ModuleId, signal: Signal<P> },
    /// The run is over.
    Done(Result<RunReport<P>, RuntimeError>),
}

/// What a module's output means for the run.
pub enum AsyncResume<P> {
    /// The module emitted `0`: advance with it.
    Next(Signal<P>),
    /// The run is over.
    Done(Result<RunReport<P>, RuntimeError>),
}

impl<P> AsyncRuntime<P> {
    /// Module ids are unique, and every route joins registered modules.
    pub closed spec fn wf(&self) -> bool {
        &&& forall|i: int, j: int| 0 <= i < j < self.modules@.len() ==> self.modules@[i]@ != self.modules@[j]@
        &&& forall|i: int| 0 <= i < self.routing@.len() ==> {
            &&& self.spec_modules().contains(#[trigger] self.routing@[i].to)
            &&& self.routing@[i].from matches Endpoint::Module(m) ==> self.spec_modules().contains(m)
        }
    }

    /// The registered module ids, in registration order.
    pub closed spec fn spec_modules(&self) -> Seq<Seq<char>> {
        self.modules@.map_values(|m: ModuleId| m@)
    }

    pub closed spec fn spec_routes(&self) -> Seq<RouteView> {
        self.routing@
    }

    pub closed spec fn spec_limit(&self) -> usize {
        self.step_limit.get()
    }

    pub closed spec fn spec_stoppable(&self) -> bool {
        self.stop is Some
    }

    /// Whether route `i`'s gate may answer `answer` for `signal`.
    pub closed spec fn gate_admits(&self, i: int, signal: Signal<P>, answer: bool) -> bool {
        self.routing.gate_admits(i, signal, answer)
    }

    /// The first routes of `self`, as many as `other` has, have the gates of
    /// `other`'s.
    pub open spec fn keeps_gates(&self, other: &Self) -> bool {
        forall|i: int, s: Signal<P>, a: bool|
            0 <= i < other.spec_routes().len() ==> #[trigger] self.gate_admits(i, s, a) == other.gate_admits(i, s, a)
    }

    /// `adm` records answers the gates may give for `signal` at `from`: every
    /// route leaving `from` answers as its gate may, and the others are not
    /// asked.
    pub open spec fn answers(&self, from: Endpoint, signal: Signal<P>, adm: Seq<bool>) -> bool {
        &&& admission_record(self.spec_routes(), from, adm)
        &&& forall|i: int|
            0 <= i < self.spec_routes().len() && self.spec_routes()[i].from == from ==> #[trigger] self.gate_admits(
                i,
                signal,
                adm[i],
            )
    }

    /// An empty runtime: no modules, no routes, no stop token.
    pub fn new(step_limit: StepLimit) -> (r: Self)
        ensures
            r.wf(),
            r.spec_modules() == Seq::<Seq<char>>::empty(),
            r.spec_routes() == Seq::<RouteView>::empty(),
            r.spec_limit() == step_limit.get(),
            !r.spec_stoppable(),
    {
        let r = AsyncRuntime { modules: Vec::new(), routing: RoutingTable::new(), step_limit, stop: None };
        assert(r.spec_modules() =~= Seq::<Seq<char>>::empty());
        r
    }

    /// Attach a cooperative cancellation handle, checked at each step
    /// boundary, between awaited modules.
    pub fn with_stop_token(self, stop: StopToken) -> (r: Self)
        requires
            self.wf(),
        ensures
            r.wf(),
            r.spec_modules() == self.spec_modules(),
            r.spec_routes() == self.spec_routes(),
            r.spec_limit() == self.spec_limit(),
            r.spec_stoppable(),
            r.keeps_gates(&self),
    {
        AsyncRuntime { stop: Some(stop), ..self }
    }

    fn find(&self, id: &ModuleId) -> (r: bool)
        ensures
            r == self.spec_modules().contains(id@),
    {
        let mut k: usize = 0;
        while k < self.modules.len()
            invariant
                k <= self.modules@.len(),
                forall|j: int| 0 <= j < k ==> self.spec_modules()[j] != id@,
            decreases self.modules@.len() - k,
        {
            if self.modules[k].same(id) {
                assert(self.spec_modules()[k as int] == id@);
                return true;
            }
            k = k + 1;
        }
        false
    }

    /// Register a module id; refused if it is taken. The module itself stays
    /// with the caller, which awaits it when a run reaches it.
    pub fn insert_module(&mut self, id: ModuleId) -> (r: Result<(), RuntimeError>)
        requires
            old(self).wf(),
        ensures
            final(self).wf(),
            final(self).spec_routes() == old(self).spec_routes(),
            final(self).keeps_gates(old(self)),
            final(self).spec_limit() == old(self).spec_limit(),
            final(self).spec_stoppable() == old(self).spec_stoppable(),
            match r {
                Ok(()) => !old(self).spec_modules().contains(id@) && final(self).spec_modules()
                    == old(self).spec_modules().push(id@),
                Err(RuntimeError::DuplicateModule { id: d }) => d@ == id@ && old(self).spec_modules().contains(
                    id@,
                ) && final(self).spec_modules() == old(self).spec_modules(),
                Err(_) => false,
            },
    {
        if self.find(&id) {
            return Err(RuntimeError::DuplicateModule { id });
        }
        let ghost ids = self.spec_modules();
        let ghost idv = id@;
        self.modules.push(id);
        assert(self.spec_modules() =~= ids.push(idv));
        proof {
            let nids = self.spec_modules();
            assert forall|m: Seq<char>| ids.contains(m) implies nids.contains(m) by {
                let k = choose|k: int| 0 <= k < ids.len() && ids[k] == m;
                assert(nids[k] == m);
            }
            assert forall|i: int, j: int| 0 <= i < j < self.modules@.len() implies self.modules@[i]@
                != self.modules@[j]@ by {
                assert(nids[i] == self.modules@[i]@);
                assert(nids[j] == self.modules@[j]@);
                if j < ids.len() {
                    assert(nids[i] == ids[i]);
                    assert(nids[j] == ids[j]);
                }
            }
        }
        Ok(())
    }

    /// Add an excitatory, cost-free route `from -> to` through `gate`; both
    /// ends must be registered modules (an input end needs no registration).
    pub fn add_route<G: Gate<P> + 'static>(
        &mut self,
        from: EndpointId,
        to: ModuleId,
        weight: Weight,
        gate: G,
    ) -> (r: Result<(), RuntimeError>)
        requires
            old(self).wf(),
        ensures
            final(self).wf(),
            final(self).spec_modules() == old(self).spec_modules(),
            final(self).keeps_gates(old(self)),
            final(self).spec_limit() == old(self).spec_limit(),
            final(self).spec_stoppable() == old(self).spec_stoppable(),
            match r {
                Ok(()) => {
                    &&& from@ matches Endpoint::Module(m) ==> old(self).spec_modules().contains(m)
                    &&& old(self).spec_modules().contains(to@)
                    &&& final(self).spec_routes() == old(self).spec_routes().push(RouteView {
                        from: from@,
                        to: to@,
                        base: weight.get(),
                        learned: 0,
                        bias: 0,
                        sign: crate::route::Sign::Excitatory,
                        cost: 0,
                    })
                    &&& forall|s: Signal<P>, a: bool|
                        #[trigger] final(self).gate_admits(old(self).spec_routes().len() as int, s, a)
                            == gate.may_admit(&s, a)
                },
                Err(RuntimeError::MissingModule { id }) => {
                    &&& final(self).spec_routes() == old(self).spec_routes()
                    &&& {
                        ||| from@ == Endpoint::Module(id@) && !old(self).spec_modules().contains(id@)
                        ||| (from@ matches Endpoint::Module(m) ==> old(self).spec_modules().contains(m))
                            && id@ == to@ && !old(self).spec_modules().contains(id@)
                    }
                },
                Err(_) => false,
            },
    {
        if let Some(m) = from.module() {
            if !self.find(m) {
                return Err(RuntimeError::MissingModule { id: m.clone() });
            }
        }
        if !self.find(&to) {
            return Err(RuntimeError::MissingModule { id: to });
        }
        self.routing.push(Route::new(from, to, weight, gate));
        Ok(())
    }

    /// Add a route from an input endpoint.
    pub fn add_input_route<G: Gate<P> + 'static>(
        &mut self,
        from: InputId,
        to: ModuleId,
        weight: Weight,
        gate: G,
    ) -> (r: Result<(), RuntimeError>)
        requires
            old(self).wf(),
        ensures
            final(self).wf(),
            final(self).spec_modules() == old(self).spec_modules(),
            final(self).keeps_gates(old(self)),
            final(self).spec_limit() == old(self).spec_limit(),
            final(self).spec_stoppable() == old(self).spec_stoppable(),
            match r {
                Ok(()) => {
                    &&& old(self).spec_modules().contains(to@)
                    &&& final(self).spec_routes() == old(self).spec_routes().push(RouteView {
                        from: Endpoint::Input(from@),
                        to: to@,
                        base: weight.get(),
                        learned: 0,
                        bias: 0,
                        sign: crate::route::Sign::Excitatory,
                        cost: 0,
                    })
                    &&& forall|s: Signal<P>, a: bool|
                        #[trigger] final(self).gate_admits(old(self).spec_routes().len() as int, s, a)
                            == gate.may_admit(&s, a)
                },
                Err(RuntimeError::MissingModule { id }) => {
                    &&& final(self).spec_routes() == old(self).spec_routes()
                    &&& id@ == to@ && !old(self).spec_modules().contains(id@)
                },
                Err(_) => false,
            },
    {
        self.add_route(EndpointId::Input(from), to, weight, gate)
    }

    /// Add a route from one module to another.
    pub fn add_module_route<G: Gate<P> + 'static>(
        &mut self,
        from: ModuleId,
        to: ModuleId,
        weight: Weight,
        gate: G,
    ) -> (r: Result<(), RuntimeError>)
        requires
            old(self).wf(),
        ensures
            final(self).wf(),
            final(self).spec_modules() == old(self).spec_modules(),
            final(self).keeps_gates(old(self)),
            final(self).spec_limit() == old(self).spec_limit(),
            final(self).spec_stoppable() == old(self).spec_stoppable(),
            match r {
                Ok(()) => {
                    &&& old(self).spec_modules().contains(from@)
                    &&& old(self).spec_modules().contains(to@)
                    &&& final(self).spec_routes() == old(self).spec_routes().push(RouteView {
                        from: Endpoint::Module(from@),
                        to: to@,
                        base: weight.get(),
                        learned: 0,
                        bias: 0,
                        sign: crate::route::Sign::Excitatory,
                        cost: 0,
                    })
                    &&& forall|s: Signal<P>, a: bool|
                        #[trigger] final(self).gate_admits(old(self).spec_routes().len() as int, s, a)
                            == gate.may_admit(&s, a)
                },
                Err(RuntimeError::MissingModule { id }) => {
                    &&& final(self).spec_routes() == old(self).spec_routes()
                    &&& {
                        ||| id@ == from@ && !old(self).spec_modules().contains(id@)
                        ||| old(self).spec_modules().contains(from@) && id@ == to@
                            && !old(self).spec_modules().contains(id@)
                    }
                },
                Err(_) => false,
            },
    {
        self.add_route(EndpointId::Module(from), to, weight, gate)
    }

    /// Begin a run at input `entry`, with no hops taken.
    pub fn start(&self, entry: InputId) -> (r: AsyncRun)
        ensures
            r.spec_at() == Endpoint::Input(entry@),
            r.spec_trail() == Seq::<(Endpoint, Seq<char>)>::empty(),
    {
        let r = AsyncRun { at: EndpointId::Input(entry), steps: Vec::new() };
        assert(r.spec_trail() =~= Seq::<(Endpoint, Seq<char>)>::empty());
        r
    }

    /// One step boundary of a run carrying `signal`: halt if the stop token
    /// fired, fail once the step limit is used up, select a route, and either
    /// end the run (no route fires, or selection is ambiguous) or record the
    /// hop, announce it in `events`, and name the module to await.
    pub fn advance(&self, run: &mut AsyncRun, signal: Signal<P>, events: &mut Vec<RunEvent>) -> (r: AsyncStep<P>)
        requires
            self.wf(),
        ensures
            final(run).spec_at() == old(run).spec_at(),
            match r {
                AsyncStep::Await { to, signal: s } => {
                    &&& s == signal
                    &&& old(run).spec_trail().len() < self.spec_limit()
                    &&& self.spec_modules().contains(to@)
                    &&& exists|adm: Seq<bool>, i: int|
                        #[trigger] self.answers(old(run).spec_at(), signal, adm)
                            && #[trigger] select_picks(self.spec_routes(), old(run).spec_at(), adm, i)
                            && self.spec_routes()[i].to == to@
                    &&& final(run).spec_trail() == old(run).spec_trail().push(
                        (old(run).spec_at(), to@),
                    )
                    &&& event_views(final(events)@) == event_views(old(events)@).push(
                        EventView::Entered(old(run).spec_at(), to@),
                    )
                },
                AsyncStep::Done(Ok(report)) => {
                    &&& trace_view(report.spec_steps()) == old(run).spec_trail()
                    &&& final(run).spec_trail() == Seq::<(Endpoint, Seq<char>)>::empty()
                    &&& match report.spec_status() {
                        RunStatus::Halted { at } => {
                            &&& at@ == old(run).spec_at()
                            &&& self.spec_stoppable()
                            &&& event_views(final(events)@) == event_views(old(events)@).push(
                                EventView::Halted(at@),
                            )
                        },
                        RunStatus::NoRoute { at, signal: s } => {
                            &&& at@ == old(run).spec_at()
                            &&& s == signal
                            &&& old(run).spec_trail().len() < self.spec_limit()
                            &&& exists|adm: Seq<bool>|
                                #[trigger] self.answers(old(run).spec_at(), signal, adm)
                                    && select_declines(self.spec_routes(), old(run).spec_at(), adm)
                            &&& final(events)@ == old(events)@
                        },
                        _ => false,
                    }
                },
                AsyncStep::Done(Err(e)) => {
                    &&& final(run).spec_trail() == old(run).spec_trail()
                    &&& final(events)@ == old(events)@
                    &&& match e {
                        RuntimeError::StepLimitExceeded { limit, at } => {
                            &&& limit.get() == self.spec_limit()
                            &&& at@ == old(run).spec_at()
                            &&& old(run).spec_trail().len() >= self.spec_limit()
                        },
                        RuntimeError::Routing(RoutingError::AmbiguousRoute { from, weight }) => {
                            &&& from@ == old(run).spec_at()
                            &&& old(run).spec_trail().len() < self.spec_limit()
                            &&& exists|adm: Seq<bool>|
                                #[trigger] self.answers(old(run).spec_at(), signal, adm)
                                    && select_ambiguous(
                                    self.spec_routes(),
                                    old(run).spec_at(),
                                    adm,
                                    weight.get() as int,
                                )
                        },
                        _ => false,
                    }
                },
            },
    {
        if let Some(stop) = &self.stop {
            if stop.is_stopped() {
                let at = run.at.clone();
                let ghost before = events@;
                events.push(RunEvent::Halted { at: at.clone() });
                assert(event_views(events@) =~= event_views(before).push(EventView::Halted(at@)));
                let steps = run.take_steps();
                return AsyncStep::Done(Ok(RunReport::new(RunStatus::Halted { at }, steps)));
            }
        }
        if run.steps.len() >= self.step_limit.get() {
            return AsyncStep::Done(
                Err(RuntimeError::StepLimitExceeded { limit: self.step_limit, at: run.at.clone() }),
            );
        }
        let adm = self.routing.admissions(&run.at, &signal);
        assert(self.answers(run.at@, signal, adm@));
        let chosen = match self.routing.select_among(&run.at, &adm) {
            Ok(choice) => choice,
            Err(e) => {
                return AsyncStep::Done(Err(RuntimeError::Routing(e)));
            },
        };
        let i = match chosen {
            Some(i) => i,
            None => {
                let at = run.at.clone();
                let steps = run.take_steps();
                return AsyncStep::Done(Ok(RunReport::new(RunStatus::NoRoute { at, signal }, steps)));
            },
        };
        let to = self.routing.route(i).to().clone();
        assert(self.spec_modules().contains(to@));
        let ghost trail = run.spec_trail();
        let ghost before = events@;
        run.steps.push(TraceStep::new(run.at.clone(), to.clone()));
        assert(run.spec_trail() =~= trail.push((run.at@, to@)));
        events.push(RunEvent::Entered { from: run.at.clone(), to: to.clone() });
        assert(event_views(events@) =~= event_views(before).push(EventView::Entered(run.at@, to@)));
        AsyncStep::Await { to, signal }
    }

    /// End a run while a module is still being awaited, as a stop request
    /// does: the run halts where it stands, with the hops taken so far, and
    /// the halt is announced in `events`.
    pub fn cancel(&self, run: &mut AsyncRun, events: &mut Vec<RunEvent>) -> (r: RunReport<P>)
        ensures
            r.spec_status() matches RunStatus::Halted { at } && at@ == old(run).spec_at(),
            trace_view(r.spec_steps()) == old(run).spec_trail(),
            final(run).spec_at() == old(run).spec_at(),
            final(run).spec_trail() == Seq::<(Endpoint, Seq<char>)>::empty(),
            event_views(final(events)@) == event_views(old(events)@).push(EventView::Halted(old(run).spec_at())),
    {
        let at = run.at.clone();
        let ghost before = events@;
        events.push(RunEvent::Halted { at: at.clone() });
        assert(event_views(events@) =~= event_views(before).push(EventView::Halted(at@)));
        let steps = run.take_steps();
        RunReport::new(RunStatus::Halted { at }, steps)
    }

    /// Take what awaited module `to` returned: an emitted signal moves the run
    /// to `to` and continues; a stop, a drop or a failure ends the run.
    pub fn resume(
        &self,
        run: &mut AsyncRun,
        to: ModuleId,
        output: Result<ModuleOutput<P>, ModuleError>,
        events: &mut Vec<RunEvent>,
    ) -> (r: AsyncResume<P>)
        ensures
            match output {
                Ok(ModuleOutput::Emit(next)) => {
                    &&& r == AsyncResume::Next(next)
                    &&& final(run).spec_at() == Endpoint::Module(to@)
                    &&& final(run).spec_trail() == old(run).spec_trail()
                    &&& event_views(final(events)@) == event_views(old(events)@).push(
                        EventView::Emitted(to@),
                    )
                },
                Ok(ModuleOutput::Stop(last)) => {
                    &&& r matches AsyncResume::Done(Ok(report)) && report.spec_status() == RunStatus::Stopped(
                        last,
                    ) && trace_view(report.spec_steps()) == old(run).spec_trail()
                    &&& final(run).spec_trail() == Seq::<(Endpoint, Seq<char>)>::empty()
                    &&& event_views(final(events)@) == event_views(old(events)@).push(
                        EventView::Stopped(to@),
                    )
                },
                Ok(ModuleOutput::Drop) => {
                    &&& r matches AsyncResume::Done(Ok(report)) && report.spec_status() matches RunStatus::Dropped {
                        at,
                    } && at@ == to@ && trace_view(report.spec_steps()) == old(run).spec_trail()
                    &&& final(run).spec_trail() == Seq::<(Endpoint, Seq<char>)>::empty()
                    &&& event_views(final(events)@) == event_views(old(events)@).push(
                        EventView::Dropped(to@),
                    )
                },
                Err(source) => {
                    &&& r matches AsyncResume::Done(Err(RuntimeError::Module { id, source: s })) && id@
                        == to@ && s == source
                    &&& final(run).spec_trail() == old(run).spec_trail()
                    &&& final(events)@ == old(events)@
                },
            },
    {
        let ghost before = events@;
        match output {
            Ok(ModuleOutput::Emit(next)) => {
                events.push(RunEvent::Emitted { at: to.clone() });
                assert(event_views(events@) =~= event_views(before).push(EventView::Emitted(to@)));
                run.at = EndpointId::Module(to);
                AsyncResume::Next(next)
            },
            Ok(ModuleOutput::Stop(last)) => {
                let ghost tv = to@;
                events.push(RunEvent::Stopped { at: to });
                assert(event_views(events@) =~= event_views(before).push(EventView::Stopped(tv)));
                let steps = run.take_steps();
                AsyncResume::Done(Ok(RunReport::new(RunStatus::Stopped(last), steps)))
            },
            Ok(ModuleOutput::Drop) => {
                events.push(RunEvent::Dropped { at: to.clone() });
                assert(event_views(events@) =~= event_views(before).push(EventView::Dropped(to@)));
                let steps = run.take_steps();
                AsyncResume::Done(Ok(RunReport::new(RunStatus::Dropped { at: to }, steps)))
            },
            Err(source) => AsyncResume::Done(Err(RuntimeError::Module { id: to, source })),
        }
    }

    pub fn module_count(&self) -> (r: usize)
        ensures
            r == self.spec_modules().len(),
    {
        self.modules.len()
    }

    pub fn route_count(&self) -> (r: usize)
        ensures
            r == self.spec_routes().len(),
    {
        self.routing.len()
    }
}

impl<P> Default for AsyncRuntime<P> {
    fn default() -> (r: Self)
        ensures
            r.wf(),
            r.spec_modules() == Seq::<Seq<char>>::empty(),
            r.spec_routes() == Seq::<RouteView>::empty(),
            r.spec_limit() == crate::limit::DEFAULT_STEP_LIMIT,
            !r.spec_stoppable(),
    {
        AsyncRuntime::new(StepLimit::default())
    }
}

} // verus!
