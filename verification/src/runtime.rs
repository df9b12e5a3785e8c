use vstd::prelude::*;

use crate::edge::EdgeId;
use crate::error::RuntimeError;
use crate::event::{event_views, EventView, RunEvent};
use crate::gate::Gate;
use crate::graph::ModuleGraph;
use crate::id::{Endpoint, EndpointId, InputId, ModuleId};
use crate::limit::StepLimit;
use crate::module::{Module, ModuleError, ModuleOutput};
use crate::profile::RoutingProfile;
use crate::report::{trace_view, RunReport, RunStatus, TraceStep};
use crate::route::{Cost, Route, RouteView, Weight};
use crate::routing::{
    admission_record, credited, select_ambiguous, effective_credits, homeostasis, learned_snapshot, margin_declines,
    margin_picks, reports_credit, saturated_total, select_declines, select_picks, top_ranked, unbiased,
    with_biases, with_snapshot, RoutingError, RoutingTable,
};
use crate::signal::Signal;
use crate::stop::StopToken;

verus! {

/// Where a run stands after `steps`: the entry input, or the last module.
pub open spec fn position(entry: Seq<char>, steps: Seq<(Endpoint, Seq<char>)>) -> Endpoint {
    if steps.len() == 0 {
        Endpoint::Input(entry)
    } else {
        Endpoint::Module(steps.last().1)
    }
}

/// Each step leaves from where the previous one arrived, starting at `entry`.
pub open spec fn chained(entry: Seq<char>, steps: Seq<(Endpoint, Seq<char>)>) -> bool {
    forall|k: int| 0 <= k < steps.len() ==> (#[trigger] steps[k]).0 == position(entry, steps.take(k))
}

/// Route `i` fires from `from` under the runtime's discipline, given the
/// gates' answers `adm`: plain selection, or NoGo selection with `margin`.
pub open spec fn fires(rs: Seq<RouteView>, margin: Option<i16>, from: Endpoint, adm: Seq<bool>, i: int) -> bool {
    match margin {
        None => select_picks(rs, from, adm, i),
        Some(m) => margin_picks(rs, from, adm, m, i),
    }
}

/// `adm` records answers the gates may give for `signal` at `from`, where
/// `gates(i, signal, a)` says that route `i`'s gate may answer `a`: every
/// route leaving `from` answers as its gate may, and the others are not asked.
pub open spec fn answered<P>(
    rs: Seq<RouteView>,
    gates: spec_fn(int, Signal<P>, bool) -> bool,
    from: Endpoint,
    signal: Signal<P>,
    adm: Seq<bool>,
) -> bool {
    &&& admission_record(rs, from, adm)
    &&& forall|i: int| 0 <= i < rs.len() && rs[i].from == from ==> #[trigger] gates(i, signal, adm[i])
}

/// Route `i` fires from `from` for `signal` for some answers its gates may give.
pub open spec fn fireable<P>(
    rs: Seq<RouteView>,
    gates: spec_fn(int, Signal<P>, bool) -> bool,
    margin: Option<i16>,
    from: Endpoint,
    signal: Signal<P>,
    i: int,
) -> bool {
    exists|adm: Seq<bool>| #[trigger] answered(rs, gates, from, signal, adm) && fires(rs, margin, from, adm, i)
}

/// Selection from `from` fires nothing for `signal` for some answers its
/// gates may give.
pub open spec fn declinable<P>(
    rs: Seq<RouteView>,
    gates: spec_fn(int, Signal<P>, bool) -> bool,
    margin: Option<i16>,
    from: Endpoint,
    signal: Signal<P>,
) -> bool {
    exists|adm: Seq<bool>| #[trigger] answered(rs, gates, from, signal, adm) && match margin {
        None => select_declines(rs, from, adm),
        Some(m) => margin_declines(rs, from, adm, m),
    }
}

/// The total cost of the routes `idx`.
pub open spec fn cost_sum(rs: Seq<RouteView>, idx: Seq<int>) -> int
    decreases idx.len(),
{
    if idx.len() == 0 {
        0
    } else {
        cost_sum(rs, idx.drop_last()) + rs[idx.last()].cost
    }
}

/// How many times `edge` occurs in `steps`.
pub open spec fn occurrences(steps: Seq<(Endpoint, Seq<char>)>, edge: (Endpoint, Seq<char>)) -> nat
    decreases steps.len(),
{
    if steps.len() == 0 {
        0
    } else {
        occurrences(steps.drop_last(), edge) + if steps.last() == edge {
            1nat
        } else {
            0nat
        }
    }
}

/// `steps` is a trajectory through `rs` from `entry`, step `k` taken along
/// route `idx[k]` carrying `sigs[k]`, each route firing from where the run
/// stood for the signal it carried.
pub open spec fn walked<P>(
    rs: Seq<RouteView>,
    gates: spec_fn(int, Signal<P>, bool) -> bool,
    margin: Option<i16>,
    entry: Seq<char>,
    steps: Seq<(Endpoint, Seq<char>)>,
    idx: Seq<int>,
    sigs: Seq<Signal<P>>,
) -> bool {
    &&& idx.len() == steps.len()
    &&& sigs.len() == steps.len() + 1
    &&& chained(entry, steps)
    &&& forall|k: int|
        0 <= k < steps.len() ==> {
            &&& 0 <= #[trigger] idx[k] < rs.len()
            &&& rs[idx[k]].edge() == steps[k]
            &&& fireable(rs, gates, margin, steps[k].0, sigs[k], idx[k])
        }
}

/// The modules of the first `n` steps each emitted the signal that the next
/// step carried, as `outputs(module, signal, outcome)` says they may.
pub open spec fn emitted<P>(
    outputs: spec_fn(Seq<char>, Signal<P>, Result<ModuleOutput<P>, ModuleError>) -> bool,
    steps: Seq<(Endpoint, Seq<char>)>,
    sigs: Seq<Signal<P>>,
    n: int,
) -> bool {
    forall|k: int|
        0 <= k < n ==> outputs(
            (#[trigger] steps[k]).1,
            sigs[k],
            Ok::<ModuleOutput<P>, ModuleError>(ModuleOutput::Emit(sigs[k + 1])),
        )
}

/// The events a run emits for `steps` when every module emitted onward:
/// `Entered` then `Emitted`, per step.
pub open spec fn passage_events(steps: Seq<(Endpoint, Seq<char>)>) -> Seq<EventView>
    decreases steps.len(),
{
    if steps.len() == 0 {
        Seq::empty()
    } else {
        passage_events(steps.drop_last()) + seq![
            EventView::Entered(steps.last().0, steps.last().1),
            EventView::Emitted(steps.last().1),
        ]
    }
}

/// The settings of a runtime that a run reads.
pub struct RunConfig {
    pub routes: Seq<RouteView>,
    pub modules: Seq<Seq<char>>,
    pub limit: usize,
    pub budget: Option<u64>,
    pub margin: Option<i16>,
    pub stall: Option<usize>,
    pub stoppable: bool,
}

/// What a finished run reports, given the runtime's settings `c`, what its
/// gates may answer (`gates`) and its modules may report (`outputs`), the
/// entry input, the initial signal, and the events it appended to the log.
pub open spec fn run_outcome<P>(
    c: RunConfig,
    gates: spec_fn(int, Signal<P>, bool) -> bool,
    outputs: spec_fn(Seq<char>, Signal<P>, Result<ModuleOutput<P>, ModuleError>) -> bool,
    entry: Seq<char>,
    initial: Signal<P>,
    report: RunReport<P>,
    events: Seq<EventView>,
) -> bool {
    exists|idx: Seq<int>, sigs: Seq<Signal<P>>|
        #[trigger] outcome_along(c, gates, outputs, entry, initial, report, events, idx, sigs)
}

/// A finished run reports this, having taken step `k` along route `idx[k]`
/// carrying `sigs[k]`.
pub open spec fn outcome_along<P>(
    c: RunConfig,
    gates: spec_fn(int, Signal<P>, bool) -> bool,
    outputs: spec_fn(Seq<char>, Signal<P>, Result<ModuleOutput<P>, ModuleError>) -> bool,
    entry: Seq<char>,
    initial: Signal<P>,
    report: RunReport<P>,
    events: Seq<EventView>,
    idx: Seq<int>,
    sigs: Seq<Signal<P>>,
) -> bool {
    let steps = trace_view(report.spec_steps());
    let at = position(entry, steps);
    let n = steps.len() as int;
    {
        &&& walked(c.routes, gates, c.margin, entry, steps, idx, sigs)
        &&& sigs[0] == initial
        &&& steps.len() <= c.limit
        &&& c.budget matches Some(b) ==> cost_sum(c.routes, idx) <= b
        &&& c.stall matches Some(t) ==> forall|k: int|
            0 <= k < steps.len() ==> occurrences(steps, #[trigger] steps[k]) <= t
        &&& match report.spec_status() {
            RunStatus::Stopped(s) => {
                &&& n > 0
                &&& emitted(outputs, steps, sigs, n - 1)
                &&& outputs(steps[n - 1].1, sigs[n - 1], Ok::<ModuleOutput<P>, ModuleError>(ModuleOutput::Stop(s)))
                &&& events == passage_events(steps.drop_last()) + seq![
                    EventView::Entered(steps.last().0, steps.last().1),
                    EventView::Stopped(steps.last().1),
                ]
            },
            RunStatus::Dropped { at: m } => {
                &&& n > 0
                &&& m@ == steps.last().1
                &&& emitted(outputs, steps, sigs, n - 1)
                &&& outputs(steps[n - 1].1, sigs[n - 1], Ok::<ModuleOutput<P>, ModuleError>(ModuleOutput::Drop))
                &&& events == passage_events(steps.drop_last()) + seq![
                    EventView::Entered(steps.last().0, steps.last().1),
                    EventView::Dropped(steps.last().1),
                ]
            },
            RunStatus::NoRoute { at: a, signal } => {
                &&& a@ == at
                &&& signal == sigs[n]
                &&& emitted(outputs, steps, sigs, n)
                &&& steps.len() < c.limit
                &&& events == passage_events(steps)
                &&& (declinable(c.routes, gates, c.margin, at, signal) || exists|i: int|
                    #[trigger] fireable(c.routes, gates, c.margin, at, signal, i) && (c.budget matches Some(b)
                        && cost_sum(c.routes, idx) + c.routes[i].cost > b))
            },
            RunStatus::Halted { at: a } => {
                &&& a@ == at
                &&& emitted(outputs, steps, sigs, n)
                &&& {
                    ||| c.stoppable && events == passage_events(steps) + seq![
                        EventView::Halted(at),
                    ]
                    ||| exists|i: int|
                        #[trigger] fireable(c.routes, gates, c.margin, at, sigs[n], i) && (c.stall matches Some(t)
                            && occurrences(steps, c.routes[i].edge()) == t && events
                            == passage_events(steps) + seq![
                            EventView::Stalled(c.routes[i].edge(), (t + 1) as usize),
                            EventView::Halted(at),
                        ])
                }
            },
        }
    }
}

/// A failed run ends in `e` after taking `steps` along routes `idx` carrying
/// `sigs`, having appended `events` to the log.
pub open spec fn failure_along<P>(
    c: RunConfig,
    gates: spec_fn(int, Signal<P>, bool) -> bool,
    outputs: spec_fn(Seq<char>, Signal<P>, Result<ModuleOutput<P>, ModuleError>) -> bool,
    entry: Seq<char>,
    initial: Signal<P>,
    events: Seq<EventView>,
    e: RuntimeError,
    steps: Seq<(Endpoint, Seq<char>)>,
    idx: Seq<int>,
    sigs: Seq<Signal<P>>,
) -> bool {
    let n = steps.len() as int;
    &&& walked(c.routes, gates, c.margin, entry, steps, idx, sigs)
    &&& sigs[0] == initial
    &&& steps.len() <= c.limit
    &&& c.budget matches Some(b) ==> cost_sum(c.routes, idx) <= b
    &&& c.stall matches Some(t) ==> forall|k: int| 0 <= k < steps.len() ==> occurrences(steps, #[trigger] steps[k]) <= t
    &&& match e {
        RuntimeError::StepLimitExceeded { limit, at } => {
            &&& limit.get() == c.limit
            &&& steps.len() == c.limit
            &&& emitted(outputs, steps, sigs, n)
            &&& at@ == position(entry, steps)
            &&& events == passage_events(steps)
        },
        RuntimeError::Routing(RoutingError::AmbiguousRoute { from, weight }) => {
            &&& c.margin is None
            &&& steps.len() < c.limit
            &&& emitted(outputs, steps, sigs, n)
            &&& from@ == position(entry, steps)
            &&& events == passage_events(steps)
            &&& exists|adm: Seq<bool>|
                #[trigger] answered(c.routes, gates, from@, sigs[n], adm) && select_ambiguous(
                    c.routes,
                    from@,
                    adm,
                    weight.get() as int,
                )
        },
        RuntimeError::Module { id, source } => {
            &&& n > 0
            &&& id@ == steps.last().1
            &&& c.modules.contains(id@)
            &&& emitted(outputs, steps, sigs, n - 1)
            &&& outputs(steps[n - 1].1, sigs[n - 1], Err::<ModuleOutput<P>, ModuleError>(source))
            &&& events == passage_events(steps.drop_last()) + seq![
                EventView::Entered(steps.last().0, steps.last().1),
            ]
        },
        RuntimeError::DuplicateModule { .. } => false,
        RuntimeError::MissingModule { .. } => false,
    }
}

/// What a failed run reports, given the runtime's settings, gates and
/// modules, the entry input, the initial signal, and the events it appended
/// to the log: it failed after some trajectory the routes allow, as
/// [`failure_along`] says.
pub open spec fn run_failure<P>(
    c: RunConfig,
    gates: spec_fn(int, Signal<P>, bool) -> bool,
    outputs: spec_fn(Seq<char>, Signal<P>, Result<ModuleOutput<P>, ModuleError>) -> bool,
    entry: Seq<char>,
    initial: Signal<P>,
    events: Seq<EventView>,
    e: RuntimeError,
) -> bool {
    exists|steps: Seq<(Endpoint, Seq<char>)>, idx: Seq<int>, sigs: Seq<Signal<P>>|
        #[trigger] failure_along(c, gates, outputs, entry, initial, events, e, steps, idx, sigs)
}

/// A registered module and the id it was registered under.
#[verifier::reject_recursive_types(P)]
struct ModuleSlot<P> {
    id: ModuleId,
    handler: Box<dyn Module<P>>,
}

/// Every slot registered as `id` holds a module that may report `out` for
/// `signal`.
spec fn slots_may<P>(slots: Seq<ModuleSlot<P>>, id: Seq<char>, signal: Signal<P>, out: Result<ModuleOutput<P>, ModuleError>) -> bool {
    forall|k: int| 0 <= k < slots.len() && slots[k].id@ == id ==> #[trigger] slots[k].handler.may_output(signal, out)
}

proof fn lemma_slots_agree<P>(
    a: Seq<ModuleSlot<P>>,
    b: Seq<ModuleSlot<P>>,
    id: Seq<char>,
    signal: Signal<P>,
    out: Result<ModuleOutput<P>, ModuleError>,
)
    requires
        a.len() == b.len(),
        forall|k: int| 0 <= k < a.len() ==> (#[trigger] a[k]).id == b[k].id,
        forall|k: int|
            0 <= k < a.len() ==> #[trigger] a[k].handler.may_output(signal, out) == b[k].handler.may_output(signal, out),
    ensures
        slots_may(a, id, signal, out) == slots_may(b, id, signal, out),
{
    if slots_may(a, id, signal, out) {
        assert forall|k: int| 0 <= k < b.len() && b[k].id@ == id implies #[trigger] b[k].handler.may_output(signal, out) by {
            assert(a[k].id == b[k].id);
            assert(a[k].handler.may_output(signal, out));
        }
    }
    if slots_may(b, id, signal, out) {
        assert forall|k: int| 0 <= k < a.len() && a[k].id@ == id implies #[trigger] a[k].handler.may_output(signal, out) by {
            assert(a[k].id == b[k].id);
            assert(b[k].handler.may_output(signal, out));
        }
    }
}

proof fn lemma_slots_push<P>(
    a: Seq<ModuleSlot<P>>,
    slot: ModuleSlot<P>,
    id: Seq<char>,
    signal: Signal<P>,
    out: Result<ModuleOutput<P>, ModuleError>,
)
    requires
        forall|k: int| 0 <= k < a.len() ==> (#[trigger] a[k]).id@ != slot.id@,
    ensures
        slots_may(a.push(slot), id, signal, out) == if id == slot.id@ {
            slot.handler.may_output(signal, out)
        } else {
            slots_may(a, id, signal, out)
        },
{
    let b = a.push(slot);
    assert(b[a.len() as int] == slot);
    assert forall|k: int| 0 <= k < a.len() implies #[trigger] b[k] == a[k] by {}
    if id == slot.id@ {
        if slot.handler.may_output(signal, out) {
            assert forall|k: int| 0 <= k < b.len() && b[k].id@ == id implies #[trigger] b[k].handler.may_output(signal, out) by {
                if k < a.len() {
                    assert(a[k].id@ != slot.id@);
                }
            }
        }
    } else {
        if slots_may(a, id, signal, out) {
            assert forall|k: int| 0 <= k < b.len() && b[k].id@ == id implies #[trigger] b[k].handler.may_output(signal, out) by {
                if k < a.len() {
                    assert(a[k].handler.may_output(signal, out));
                }
            }
        }
        if slots_may(b, id, signal, out) {
            assert forall|k: int| 0 <= k < a.len() && a[k].id@ == id implies #[trigger] a[k].handler.may_output(signal, out) by {
                assert(b[k].handler.may_output(signal, out));
            }
        }
    }
}

/// A module as a runtime holds it.
struct Held<M> {
    module: M,
}

impl<P, M: Module<P>> Module<P> for Held<M> {
    closed spec fn module_id(&self) -> Seq<char> {
        self.module.module_id()
    }

    closed spec fn may_output(&self, signal: Signal<P>, out: Result<ModuleOutput<P>, ModuleError>) -> bool {
        self.module.may_output(signal, out)
    }

    fn id(&self) -> (r: &ModuleId) {
        self.module.id()
    }

    fn handle(&mut self, signal: Signal<P>) -> (r: Result<ModuleOutput<P>, ModuleError>) {
        self.module.handle(signal)
    }
}

impl<P> ModuleSlot<P> {
    fn new<M: Module<P> + 'static>(id: ModuleId, module: M) -> (r: Self)
        ensures
            r.id@ == id@,
            forall|s: Signal<P>, o: Result<ModuleOutput<P>, ModuleError>|
                #[trigger] r.handler.may_output(s, o) == module.may_output(s, o),
    {
        ModuleSlot { id, handler: Box::new(Held { module }) }
    }
}

proof fn lemma_walk_extend<P>(
    rs: Seq<RouteView>,
    gates: spec_fn(int, Signal<P>, bool) -> bool,
    margin: Option<i16>,
    entry: Seq<char>,
    steps: Seq<(Endpoint, Seq<char>)>,
    idx: Seq<int>,
    sigs: Seq<Signal<P>>,
    i: int,
    next: Signal<P>,
)
    requires
        walked(rs, gates, margin, entry, steps, idx, sigs),
        0 <= i < rs.len(),
        rs[i].from == position(entry, steps),
        fireable(rs, gates, margin, position(entry, steps), sigs.last(), i),
    ensures
        walked(rs, gates, margin, entry, steps.push(rs[i].edge()), idx.push(i), sigs.push(next)),
{
    let s2 = steps.push(rs[i].edge());
    let i2 = idx.push(i);
    let g2 = sigs.push(next);
    assert forall|k: int| 0 <= k < s2.len() implies (#[trigger] s2[k]).0 == position(entry, s2.take(k)) by {
        if k < steps.len() {
            assert(s2.take(k) =~= steps.take(k));
            assert(s2[k] == steps[k]);
        } else {
            assert(s2.take(k) =~= steps);
        }
    }
    assert forall|k: int| 0 <= k < s2.len() implies {
        &&& 0 <= #[trigger] i2[k] < rs.len()
        &&& rs[i2[k]].edge() == s2[k]
        &&& fireable(rs, gates, margin, s2[k].0, g2[k], i2[k])
    } by {
        assert(g2[k] == sigs[k]);
        if k < steps.len() {
            assert(i2[k] == idx[k]);
            assert(s2[k] == steps[k]);
        }
    }
}

proof fn lemma_emitted_extend<P>(
    outputs: spec_fn(Seq<char>, Signal<P>, Result<ModuleOutput<P>, ModuleError>) -> bool,
    steps: Seq<(Endpoint, Seq<char>)>,
    sigs: Seq<Signal<P>>,
    e: (Endpoint, Seq<char>),
    next: Signal<P>,
)
    requires
        sigs.len() == steps.len() + 1,
        emitted(outputs, steps, sigs, steps.len() as int),
    ensures
        emitted(outputs, steps.push(e), sigs.push(next), steps.len() as int),
        outputs(e.1, sigs.last(), Ok::<ModuleOutput<P>, ModuleError>(ModuleOutput::Emit(next))) ==> emitted(
            outputs,
            steps.push(e),
            sigs.push(next),
            steps.len() + 1 as int,
        ),
{
    let s2 = steps.push(e);
    let g2 = sigs.push(next);
    assert forall|k: int| 0 <= k < steps.len() implies outputs(
        (#[trigger] s2[k]).1,
        g2[k],
        Ok::<ModuleOutput<P>, ModuleError>(ModuleOutput::Emit(g2[k + 1])),
    ) by {
        assert(s2[k] == steps[k]);
        assert(g2[k] == sigs[k]);
        assert(g2[k + 1] == sigs[k + 1]);
        assert(outputs(steps[k].1, sigs[k], Ok::<ModuleOutput<P>, ModuleError>(ModuleOutput::Emit(sigs[k + 1]))));
    }
    if outputs(e.1, sigs.last(), Ok::<ModuleOutput<P>, ModuleError>(ModuleOutput::Emit(next))) {
        assert forall|k: int| 0 <= k < steps.len() + 1 implies outputs(
            (#[trigger] s2[k]).1,
            g2[k],
            Ok::<ModuleOutput<P>, ModuleError>(ModuleOutput::Emit(g2[k + 1])),
        ) by {
            if k == steps.len() {
                assert(s2[k] == e);
                assert(g2[k] == sigs.last());
                assert(g2[k + 1] == next);
            }
        }
    }
}

proof fn lemma_occurrence_witness(steps: Seq<(Endpoint, Seq<char>)>, e: (Endpoint, Seq<char>))
    requires
        occurrences(steps, e) > 0,
    ensures
        exists|k: int| 0 <= k < steps.len() && steps[k] == e,
    decreases steps.len(),
{
    if steps.last() != e {
        lemma_occurrence_witness(steps.drop_last(), e);
        let k = choose|k: int| 0 <= k < steps.drop_last().len() && steps.drop_last()[k] == e;
        assert(steps[k] == e);
    } else {
        assert(steps[steps.len() - 1] == e);
    }
}

proof fn lemma_occurrences_bound(steps: Seq<(Endpoint, Seq<char>)>, e: (Endpoint, Seq<char>))
    ensures
        occurrences(steps, e) <= steps.len(),
    decreases steps.len(),
{
    if steps.len() > 0 {
        lemma_occurrences_bound(steps.drop_last(), e);
    }
}

proof fn lemma_stall_extend(steps: Seq<(Endpoint, Seq<char>)>, e: (Endpoint, Seq<char>), t: usize)
    requires
        forall|k: int| 0 <= k < steps.len() ==> occurrences(steps, #[trigger] steps[k]) <= t,
        occurrences(steps, e) < t,
    ensures
        forall|k: int|
            0 <= k < steps.push(e).len() ==> occurrences(steps.push(e), #[trigger] steps.push(e)[k]) <= t,
{
    let s2 = steps.push(e);
    assert(s2.drop_last() =~= steps);
    assert forall|k: int| 0 <= k < s2.len() implies occurrences(s2, #[trigger] s2[k]) <= t by {
        if k < steps.len() {
            assert(s2[k] == steps[k]);
        }
    }
}

proof fn lemma_log_push(prefix: Seq<EventView>, log: Seq<RunEvent>, e: RunEvent)
    requires
        prefix.is_prefix_of(event_views(log)),
    ensures
        prefix.is_prefix_of(event_views(log.push(e))),
        event_views(log.push(e)).skip(prefix.len() as int) == event_views(log).skip(
            prefix.len() as int,
        ).push(e@),
{
    assert(event_views(log.push(e)) =~= event_views(log).push(e@));
    assert(event_views(log.push(e)).skip(prefix.len() as int) =~= event_views(log).skip(
        prefix.len() as int,
    ).push(e@));
}

proof fn lemma_passage_push(steps: Seq<(Endpoint, Seq<char>)>, e: (Endpoint, Seq<char>))
    ensures
        passage_events(steps.push(e)) == passage_events(steps) + seq![
            EventView::Entered(e.0, e.1),
            EventView::Emitted(e.1),
        ],
{
    assert(steps.push(e).drop_last() =~= steps);
}

/// How many times `edge` occurs among `steps`.
fn count_edge(steps: &Vec<TraceStep>, edge: &EdgeId) -> (r: usize)
    ensures
        r == occurrences(trace_view(steps@), edge@),
{
    let ghost sv = trace_view(steps@);
    let mut count: usize = 0;
    let mut k: usize = 0;
    while k < steps.len()
        invariant
            sv == trace_view(steps@),
            k <= steps@.len(),
            count == occurrences(sv.take(k as int), edge@),
            count <= k,
        decreases steps@.len() - k,
    {
        assert(sv.take(k + 1).drop_last() =~= sv.take(k as int));
        assert(sv[k as int] == steps@[k as int]@);
        if steps[k].edge().same(edge) {
            count = count + 1;
        }
        k = k + 1;
    }
    assert(sv.take(steps@.len() as int) =~= sv);
    count
}

/// Routes typed signals between registered modules: from an input it selects
/// a route, hands the signal to the target module, and follows what the module
/// emits, until a module stops or drops the signal, no route fires, the run is
/// halted, or the step limit is reached.
#[verifier::reject_recursive_types(P)]
pub struct Runtime<P> {
    modules: Vec<ModuleSlot<P>>,
    routing: RoutingTable<P>,
    step_limit: StepLimit,
    stop: Option<StopToken>,
    budget: Option<u64>,
    margin: Option<i16>,
    stall_threshold: Option<usize>,
}

impl<P> Runtime<P> {
    /// Module ids are unique, and every route joins registered modules.
    pub closed spec fn wf(&self) -> bool {
        let ids = self.modules@.map_values(|m: ModuleSlot<P>| m.id@);
        &&& forall|i: int, j: int| 0 <= i < j < ids.len() ==> ids[i] != ids[j]
        &&& forall|i: int| 0 <= i < self.routing@.len() ==> {
            &&& ids.contains(#[trigger] self.routing@[i].to)
            &&& self.routing@[i].from matches Endpoint::Module(m) ==> ids.contains(m)
        }
    }

    /// The ids of the registered modules, in registration order.
    pub closed spec fn spec_modules(&self) -> Seq<Seq<char>> {
        self.modules@.map_values(|m: ModuleSlot<P>| m.id@)
    }

    /// The routing table's routes.
    pub closed spec fn spec_routes(&self) -> Seq<RouteView> {
        self.routing@
    }

    pub closed spec fn spec_limit(&self) -> usize {
        self.step_limit.get()
    }

    pub closed spec fn spec_budget(&self) -> Option<u64> {
        self.budget
    }

    pub closed spec fn spec_margin(&self) -> Option<i16> {
        self.margin
    }

    pub closed spec fn spec_stall(&self) -> Option<usize> {
        self.stall_threshold
    }

    pub closed spec fn spec_stoppable(&self) -> bool {
        self.stop is Some
    }

    /// Whether route `i`'s gate may answer `answer` for `signal`.
    pub closed spec fn gate_admits(&self, i: int, signal: Signal<P>, answer: bool) -> bool {
        self.routing.gate_admits(i, signal, answer)
    }

    /// `out` is an outcome the module registered as `id` may report for
    /// `signal`.
    pub closed spec fn module_may(&self, id: Seq<char>, signal: Signal<P>, out: Result<ModuleOutput<P>, ModuleError>) -> bool {
        slots_may(self.modules@, id, signal, out)
    }

    /// What the gates of this runtime's routes may answer.
    pub open spec fn gates(&self) -> spec_fn(int, Signal<P>, bool) -> bool {
        |i: int, s: Signal<P>, a: bool| self.gate_admits(i, s, a)
    }

    /// What this runtime's modules may report.
    pub open spec fn outputs(&self) -> spec_fn(Seq<char>, Signal<P>, Result<ModuleOutput<P>, ModuleError>) -> bool {
        |m: Seq<char>, s: Signal<P>, o: Result<ModuleOutput<P>, ModuleError>| self.module_may(m, s, o)
    }

    /// The first routes of `self`, as many as `other` has, have the gates of
    /// `other`'s.
    pub open spec fn keeps_gates(&self, other: &Self) -> bool {
        forall|i: int, s: Signal<P>, a: bool|
            0 <= i < other.spec_routes().len() ==> #[trigger] self.gate_admits(i, s, a) == other.gate_admits(i, s, a)
    }

    /// The modules of `self` may report what `other`'s may.
    pub open spec fn keeps_modules(&self, other: &Self) -> bool {
        forall|m: Seq<char>, s: Signal<P>, o: Result<ModuleOutput<P>, ModuleError>|
            #[trigger] self.module_may(m, s, o) == other.module_may(m, s, o)
    }

    /// `self`'s routes have the gates of `other`'s, and its modules may
    /// report what `other`'s may.
    pub open spec fn same_behaviour(&self, other: &Self) -> bool {
        &&& self.keeps_gates(other)
        &&& self.keeps_modules(other)
    }

    proof fn lemma_answered(&self, orig: &Self, from: Endpoint, signal: Signal<P>, adm: Seq<bool>)
        requires
            self.routing.answers(from, signal, adm),
            self.same_behaviour(orig),
            self.spec_routes() == orig.spec_routes(),
        ensures
            answered(orig.spec_routes(), orig.gates(), from, signal, adm),
    {
        let rs = orig.spec_routes();
        assert forall|i: int| 0 <= i < rs.len() && rs[i].from == from implies #[trigger] orig.gates()(i, signal, adm[i]) by {
            assert(self.routing.gate_admits(i, signal, adm[i]));
            assert(self.gate_admits(i, signal, adm[i]));
        }
    }

    /// The settings a run of this runtime reads.
    pub open spec fn config(&self) -> RunConfig {
        RunConfig {
            routes: self.spec_routes(),
            modules: self.spec_modules(),
            limit: self.spec_limit(),
            budget: self.spec_budget(),
            margin: self.spec_margin(),
            stall: self.spec_stall(),
            stoppable: self.spec_stoppable(),
        }
    }

    /// An empty runtime: no modules, no routes, no budget, margin, stall
    /// threshold or stop token.
    pub fn new(step_limit: StepLimit) -> (r: Self)
        ensures
            r.wf(),
            r.config() == (RunConfig {
                routes: Seq::empty(),
                modules: Seq::empty(),
                limit: step_limit.get(),
                budget: None,
                margin: None,
                stall: None,
                stoppable: false,
            }),
    {
        let r = Runtime {
            modules: Vec::new(),
            routing: RoutingTable::new(),
            step_limit,
            stop: None,
            budget: None,
            margin: None,
            stall_threshold: None,
        };
        assert(r.spec_modules() =~= Seq::empty());
        r
    }

    /// Attach a cooperative cancellation handle, checked before every step.
    pub fn with_stop_token(self, stop: StopToken) -> (r: Self)
        requires
            self.wf(),
        ensures
            r.wf(),
            r.config() == (RunConfig { stoppable: true, ..self.config() }),
            r.same_behaviour(&self),
    {
        let r = Runtime { stop: Some(stop), ..self };
        assert(r.spec_modules() =~= self.spec_modules());
        r
    }

    /// Give every run a cost budget: a route whose cost would take the run's
    /// spending past `budget` is not taken.
    pub fn with_budget(self, budget: u64) -> (r: Self)
        requires
            self.wf(),
        ensures
            r.wf(),
            r.config() == (RunConfig { budget: Some(budget), ..self.config() }),
            r.same_behaviour(&self),
    {
        let r = Runtime { budget: Some(budget), ..self };
        assert(r.spec_modules() =~= self.spec_modules());
        r
    }

    /// Select under a NoGo discipline: the winner must beat the runner-up by
    /// at least `margin`.
    pub fn with_margin(self, margin: i16) -> (r: Self)
        requires
            self.wf(),
        ensures
            r.wf(),
            r.config() == (RunConfig { margin: Some(margin), ..self.config() }),
            r.same_behaviour(&self),
    {
        let r = Runtime { margin: Some(margin), ..self };
        assert(r.spec_modules() =~= self.spec_modules());
        r
    }

    /// Halt a run when one edge would be taken more than `threshold` times.
    pub fn with_stall_threshold(self, threshold: usize) -> (r: Self)
        requires
            self.wf(),
        ensures
            r.wf(),
            r.config() == (RunConfig { stall: Some(threshold), ..self.config() }),
            r.same_behaviour(&self),
    {
        let r = Runtime { stall_threshold: Some(threshold), ..self };
        assert(r.spec_modules() =~= self.spec_modules());
        r
    }

    /// The index of the module registered as `id`.
    fn find(&self, id: &ModuleId) -> (r: Option<usize>)
        ensures
            match r {
                Some(k) => k < self.modules@.len() && self.spec_modules()[k as int] == id@,
                None => !self.spec_modules().contains(id@),
            },
    {
        let mut k: usize = 0;
        while k < self.modules.len()
            invariant
                k <= self.modules@.len(),
                forall|j: int| 0 <= j < k ==> self.spec_modules()[j] != id@,
            decreases self.modules@.len() - k,
        {
            if self.modules[k].id.same(id) {
                return Some(k);
            }
            k = k + 1;
        }
        None
    }

    /// Register `module` under the id it reports; refused if that id is taken.
    pub fn insert_module<M: Module<P> + 'static>(&mut self, module: M) -> (r: Result<(), RuntimeError>)
        requires
            old(self).wf(),
        ensures
            final(self).wf(),
            final(self).spec_routes() == old(self).spec_routes(),
            match r {
                Ok(()) => {
                    &&& !old(self).spec_modules().contains(module.module_id())
                    &&& final(self).config() == (RunConfig {
                        modules: old(self).spec_modules().push(module.module_id()),
                        ..old(self).config()
                    })
                    &&& final(self).keeps_gates(old(self))
                    &&& forall|m: Seq<char>, s: Signal<P>, o: Result<ModuleOutput<P>, ModuleError>|
                        #[trigger] final(self).module_may(m, s, o) == if m == module.module_id() {
                            module.may_output(s, o)
                        } else {
                            old(self).module_may(m, s, o)
                        }
                },
                Err(RuntimeError::DuplicateModule { id }) => id@ == module.module_id() && old(
                    self,
                ).spec_modules().contains(id@) && final(self).config() == old(self).config()
                    && final(self).same_behaviour(old(self)),
                Err(_) => false,
            },
    {
        let id = module.id().clone();
        match self.find(&id) {
            Some(_) => Err(RuntimeError::DuplicateModule { id }),
            None => {
                let ghost ids = self.spec_modules();
                let ghost old_mods = self.modules@;
                let ghost idv = id@;
                let slot = ModuleSlot::new(id, module);
                assert(slot.id@ == idv);
                let ghost slot_v = slot;
                self.modules.push(slot);
                proof {
                    assert(self.modules@ =~= old_mods.push(slot_v));
                    assert forall|k: int| 0 <= k < old_mods.len() implies (#[trigger] old_mods[k]).id@ != slot_v.id@ by {
                        assert(ids[k] == old_mods[k].id@);
                    }
                    assert forall|m: Seq<char>, s: Signal<P>, o: Result<ModuleOutput<P>, ModuleError>|
                        #[trigger] self.module_may(m, s, o) == if m == module.module_id() {
                            module.may_output(s, o)
                        } else {
                            old(self).module_may(m, s, o)
                        } by {
                        lemma_slots_push(old_mods, slot_v, m, s, o);
                    }
                }
                assert(self.modules@.len() == old_mods.len() + 1);
                assert(self.spec_modules() =~= ids.push(idv)) by {
                    assert forall|k: int| 0 <= k < self.modules@.len() implies #[trigger] self.spec_modules()[k] == ids.push(idv)[k] by {
                        if k < old_mods.len() {
                            assert(self.modules@[k] == old_mods[k]);
                        }
                    }
                }
                proof {
                    let nids = self.spec_modules();
                    assert forall|m: Seq<char>| ids.contains(m) implies nids.contains(m) by {
                        let k = choose|k: int| 0 <= k < ids.len() && ids[k] == m;
                        assert(nids[k] == m);
                    }
                    assert forall|i: int, j: int| 0 <= i < j < nids.len() implies nids[i] != nids[j] by {
                        if j == ids.len() {
                            assert(nids[i] == ids[i]);
                        } else {
                            assert(nids[i] == ids[i]);
                            assert(nids[j] == ids[j]);
                        }
                    }
                }
                Ok(())
            },
        }
    }

    /// Add a fully built route; both ends must be registered modules (an
    /// input end needs no registration).
    pub fn add_built_route(&mut self, route: Route<P>) -> (r: Result<(), RuntimeError>)
        requires
            old(self).wf(),
        ensures
            final(self).wf(),
            final(self).spec_modules() == old(self).spec_modules(),
            match r {
                Ok(()) => {
                    &&& route@.from matches Endpoint::Module(m) ==> old(self).spec_modules().contains(m)
                    &&& old(self).spec_modules().contains(route@.to)
                    &&& final(self).config() == (RunConfig {
                        routes: old(self).spec_routes().push(route@),
                        ..old(self).config()
                    })
                    &&& final(self).keeps_gates(old(self))
                    &&& final(self).keeps_modules(old(self))
                    &&& forall|s: Signal<P>, a: bool|
                        #[trigger] final(self).gate_admits(old(self).spec_routes().len() as int, s, a)
                            == route.gate_may_admit(&s, a)
                },
                Err(RuntimeError::MissingModule { id }) => {
                    &&& final(self).config() == old(self).config()
                    &&& final(self).same_behaviour(old(self))
                    &&& {
                        ||| route@.from == Endpoint::Module(id@) && !old(self).spec_modules().contains(id@)
                        ||| (route@.from matches Endpoint::Module(m) ==> old(self).spec_modules().contains(m))
                            && id@ == route@.to && !old(self).spec_modules().contains(id@)
                    }
                },
                Err(_) => false,
            },
    {
        if let Some(m) = route.from().module() {
            if self.find(m).is_none() {
                return Err(RuntimeError::MissingModule { id: m.clone() });
            }
        }
        if self.find(route.to()).is_none() {
            return Err(RuntimeError::MissingModule { id: route.to().clone() });
        }
        self.routing.push(route);
        Ok(())
    }

    /// Add an excitatory, cost-free route `from -> to` through `gate`.
    pub fn add_route<G: Gate<P> + 'static>(
        &mut self,
        from: EndpointId,
        to: ModuleId,
        weight: Weight,
        gate: G,
    ) -> (r: Result<(), RuntimeError>)
        requires
            old(self).wf(),
        ensures
            final(self).wf(),
            final(self).spec_modules() == old(self).spec_modules(),
            match r {
                Ok(()) => {
                    &&& from@ matches Endpoint::Module(m) ==> old(self).spec_modules().contains(m)
                    &&& old(self).spec_modules().contains(to@)
                    &&& final(self).config() == (RunConfig {
                        routes: old(self).spec_routes().push(RouteView {
                            from: from@,
                            to: to@,
                            base: weight.get(),
                            learned: 0,
                            bias: 0,
                            sign: crate::route::Sign::Excitatory,
                            cost: 0,
                        }),
                        ..old(self).config()
                    })
                    &&& final(self).keeps_gates(old(self))
                    &&& final(self).keeps_modules(old(self))
                    &&& forall|s: Signal<P>, a: bool|
                        #[trigger] final(self).gate_admits(old(self).spec_routes().len() as int, s, a)
                            == gate.may_admit(&s, a)
                },
                Err(RuntimeError::MissingModule { id }) => {
                    &&& final(self).config() == old(self).config()
                    &&& final(self).same_behaviour(old(self))
                    &&& {
                        ||| from@ == Endpoint::Module(id@) && !old(self).spec_modules().contains(id@)
                        ||| (from@ matches Endpoint::Module(m) ==> old(self).spec_modules().contains(m))
                            && id@ == to@ && !old(self).spec_modules().contains(id@)
                    }
                },
                Err(_) => false,
            },
    {
        self.add_built_route(Route::new(from, to, weight, gate))
    }

    /// Add an excitatory route `from -> to` through `gate` that costs `cost`.
    pub fn add_route_with_cost<G: Gate<P> + 'static>(
        &mut self,
        from: EndpointId,
        to: ModuleId,
        weight: Weight,
        cost: Cost,
        gate: G,
    ) -> (r: Result<(), RuntimeError>)
        requires
            old(self).wf(),
        ensures
            final(self).wf(),
            final(self).spec_modules() == old(self).spec_modules(),
            match r {
                Ok(()) => {
                    &&& from@ matches Endpoint::Module(m) ==> old(self).spec_modules().contains(m)
                    &&& old(self).spec_modules().contains(to@)
                    &&& final(self).config() == (RunConfig {
                        routes: old(self).spec_routes().push(RouteView {
                            from: from@,
                            to: to@,
                            base: weight.get(),
                            learned: 0,
                            bias: 0,
                            sign: crate::route::Sign::Excitatory,
                            cost: cost.get(),
                        }),
                        ..old(self).config()
                    })
                    &&& final(self).keeps_gates(old(self))
                    &&& final(self).keeps_modules(old(self))
                    &&& forall|s: Signal<P>, a: bool|
                        #[trigger] final(self).gate_admits(old(self).spec_routes().len() as int, s, a)
                            == gate.may_admit(&s, a)
                },
                Err(RuntimeError::MissingModule { id }) => {
                    &&& final(self).config() == old(self).config()
                    &&& final(self).same_behaviour(old(self))
                    &&& {
                        ||| from@ == Endpoint::Module(id@) && !old(self).spec_modules().contains(id@)
                        ||| (from@ matches Endpoint::Module(m) ==> old(self).spec_modules().contains(m))
                            && id@ == to@ && !old(self).spec_modules().contains(id@)
                    }
                },
                Err(_) => false,
            },
    {
        self.add_built_route(Route::new(from, to, weight, gate).with_cost(cost))
    }

    /// Add a route from an input endpoint.
    pub fn add_input_route<G: Gate<P> + 'static>(
        &mut self,
        from: InputId,
        to: ModuleId,
        weight: Weight,
        gate: G,
    ) -> (r: Result<(), RuntimeError>)
        requires
            old(self).wf(),
        ensures
            final(self).wf(),
            final(self).spec_modules() == old(self).spec_modules(),
            match r {
                Ok(()) => {
                    &&& old(self).spec_modules().contains(to@)
                    &&& final(self).config() == (RunConfig {
                        routes: old(self).spec_routes().push(RouteView {
                            from: Endpoint::Input(from@),
                            to: to@,
                            base: weight.get(),
                            learned: 0,
                            bias: 0,
                            sign: crate::route::Sign::Excitatory,
                            cost: 0,
                        }),
                        ..old(self).config()
                    })
                    &&& final(self).keeps_gates(old(self))
                    &&& final(self).keeps_modules(old(self))
                    &&& forall|s: Signal<P>, a: bool|
                        #[trigger] final(self).gate_admits(old(self).spec_routes().len() as int, s, a)
                            == gate.may_admit(&s, a)
                },
                Err(RuntimeError::MissingModule { id }) => {
                    &&& final(self).config() == old(self).config()
                    &&& final(self).same_behaviour(old(self))
                    &&& id@ == to@ && !old(self).spec_modules().contains(id@)
                },
                Err(_) => false,
            },
    {
        self.add_route(EndpointId::Input(from), to, weight, gate)
    }

    /// Add a route from one module to another.
    pub fn add_module_route<G: Gate<P> + 'static>(
        &mut self,
        from: ModuleId,
        to: ModuleId,
        weight: Weight,
        gate: G,
    ) -> (r: Result<(), RuntimeError>)
        requires
            old(self).wf(),
        ensures
            final(self).wf(),
            final(self).spec_modules() == old(self).spec_modules(),
            match r {
                Ok(()) => {
                    &&& old(self).spec_modules().contains(from@)
                    &&& old(self).spec_modules().contains(to@)
                    &&& final(self).config() == (RunConfig {
                        routes: old(self).spec_routes().push(RouteView {
                            from: Endpoint::Module(from@),
                            to: to@,
                            base: weight.get(),
                            learned: 0,
                            bias: 0,
                            sign: crate::route::Sign::Excitatory,
                            cost: 0,
                        }),
                        ..old(self).config()
                    })
                    &&& final(self).keeps_gates(old(self))
                    &&& final(self).keeps_modules(old(self))
                    &&& forall|s: Signal<P>, a: bool|
                        #[trigger] final(self).gate_admits(old(self).spec_routes().len() as int, s, a)
                            == gate.may_admit(&s, a)
                },
                Err(RuntimeError::MissingModule { id }) => {
                    &&& final(self).config() == old(self).config()
                    &&& final(self).same_behaviour(old(self))
                    &&& {
                        ||| id@ == from@ && !old(self).spec_modules().contains(id@)
                        ||| old(self).spec_modules().contains(from@) && id@ == to@
                            && !old(self).spec_modules().contains(id@)
                    }
                },
                Err(_) => false,
            },
    {
        self.add_route(EndpointId::Module(from), to, weight, gate)
    }

    /// Drive `initial` from input `entry` until a module stops or drops it, no
    /// route fires (or the next one is beyond the budget), the run is halted
    /// (stop token, or an edge about to pass the stall threshold), or the step
    /// limit is reached. Each transition is appended to `events` in order.
    /// Every hop is taken for answers the gates may give to the signal it
    /// carries, and every module's outcome is one it may report.
    #[verifier::rlimit(100)]
    #[verifier::spinoff_prover]
    pub fn run_observed(&mut self, entry: InputId, initial: Signal<P>, events: &mut Vec<RunEvent>) -> (r: Result<
        RunReport<P>,
        RuntimeError,
    >)
        requires
            old(self).wf(),
        ensures
            final(self).wf(),
            final(self).config() == old(self).config(),
            final(self).same_behaviour(old(self)),
            event_views(old(events)@).is_prefix_of(event_views(final(events)@)),
            match r {
                Ok(report) => run_outcome(
                    old(self).config(),
                    old(self).gates(),
                    old(self).outputs(),
                    entry@,
                    initial,
                    report,
                    event_views(final(events)@).skip(old(events)@.len() as int),
                ),
                Err(e) => run_failure(
                    old(self).config(),
                    old(self).gates(),
                    old(self).outputs(),
                    entry@,
                    initial,
                    event_views(final(events)@).skip(old(events)@.len() as int),
                    e,
                ),
            },
    {
        let ghost orig = *self;
        let ghost gs = orig.gates();
        let ghost os = orig.outputs();
        let ghost mut sigs: Seq<Signal<P>> = seq![initial];
        let ghost c = self.config();
        let ghost rs = c.routes;
        let ghost ev0 = event_views(events@);
        let ghost entry_v = entry@;
        let ghost init = initial;
        let mut at = EndpointId::Input(entry);
        let mut signal = initial;
        let mut steps: Vec<TraceStep> = Vec::new();
        let mut spent: u64 = 0;
        let ghost mut idx: Seq<int> = Seq::empty();
        proof {
            assert(trace_view(steps@) =~= Seq::empty());
            assert(event_views(events@).skip(ev0.len() as int) =~= Seq::empty());
        }
        loop
            invariant
                self.wf(),
                self.config() == c,
                c == old(self).config(),
                ev0 == event_views(old(events)@),
                ev0.len() == old(events)@.len(),
                rs == c.routes,
                init == initial,
                entry_v == entry@,
                walked(rs, gs, c.margin, entry_v, trace_view(steps@), idx, sigs),
                sigs[0] == init,
                sigs.last() == signal,
                emitted(os, trace_view(steps@), sigs, trace_view(steps@).len() as int),
                self.same_behaviour(&orig),
                orig == *old(self),
                orig.config() == c,
                gs == orig.gates(),
                os == orig.outputs(),
                trace_view(steps@).len() <= c.limit,
                at@ == position(entry_v, trace_view(steps@)),
                c.budget matches Some(b) ==> spent == cost_sum(rs, idx) && spent <= b,
                c.stall matches Some(t) ==> forall|k: int|
                    0 <= k < trace_view(steps@).len() ==> occurrences(
                        trace_view(steps@),
                        #[trigger] trace_view(steps@)[k],
                    ) <= t,
                ev0.is_prefix_of(event_views(events@)),
                event_views(events@).skip(ev0.len() as int) == passage_events(trace_view(steps@)),
            decreases c.limit - steps@.len(),
        {
            let ghost sv = trace_view(steps@);
            let ghost at_v = at@;
            if let Some(stop) = &self.stop {
                if stop.is_stopped() {
                    let halted = RunEvent::Halted { at: at.clone() };
                    proof {
                        lemma_log_push(ev0, events@, halted);
                    }
                    events.push(halted);
                    assert(event_views(events@).skip(ev0.len() as int) =~= passage_events(sv) + seq![
                        EventView::Halted(at_v),
                    ]);
                    let report = RunReport::new(RunStatus::Halted { at }, steps);
                    assert(outcome_along(c, gs, os, entry_v, init, report, event_views(events@).skip(ev0.len() as int), idx, sigs));
                    return Ok(report);
                }
            }
            if steps.len() >= self.step_limit.get() {
                let e = RuntimeError::StepLimitExceeded { limit: self.step_limit, at };
                assert(failure_along(c, gs, os, entry_v, init, event_views(events@).skip(ev0.len() as int), e, sv, idx, sigs));
                return Err(e);
            }
            let adm = self.routing.admissions(&at, &signal);
            let chosen = match self.margin {
                Some(m) => self.routing.select_with_margin_among(&at, &adm, m),
                None => match self.routing.select_among(&at, &adm) {
                    Ok(choice) => choice,
                    Err(e) => {
                        let failure = RuntimeError::Routing(e);
                        proof {
                            self.lemma_answered(&orig, at@, signal, adm@);
                        }
                        assert(failure_along(c, gs, os, entry_v, init, event_views(events@).skip(ev0.len() as int), failure, sv, idx, sigs));
                        return Err(failure);
                    },
                },
            };
            proof {
                self.lemma_answered(&orig, at@, signal, adm@);
            }
            let i = match chosen {
                Some(i) => i,
                None => {
                    assert(declinable(rs, gs, c.margin, at@, signal));
                    let report = RunReport::new(RunStatus::NoRoute { at, signal }, steps);
                    assert(outcome_along(c, gs, os, entry_v, init, report, event_views(events@).skip(ev0.len() as int), idx, sigs));
                    return Ok(report);
                },
            };
            assert(fireable(rs, gs, c.margin, at@, signal, i as int));
            let route = self.routing.route(i);
            let cost = route.cost().get();
            if let Some(b) = self.budget {
                if (cost as u64) > b - spent {
                    let report = RunReport::new(RunStatus::NoRoute { at, signal }, steps);
                    assert(outcome_along(c, gs, os, entry_v, init, report, event_views(events@).skip(ev0.len() as int), idx, sigs));
                    return Ok(report);
                }
            }
            let edge = route.edge();
            let ghost fresh = edge@;
            if let Some(t) = self.stall_threshold {
                let count = count_edge(&steps, &edge);
                proof {
                    lemma_occurrences_bound(sv, edge@);
                }
                if count >= t {
                    proof {
                        if occurrences(sv, edge@) > 0 {
                            lemma_occurrence_witness(sv, edge@);
                            let k = choose|k: int| 0 <= k < sv.len() && sv[k] == edge@;
                            assert(occurrences(sv, sv[k]) <= t);
                        }
                    }
                    let stalled = RunEvent::Stalled { edge, count: count + 1 };
                    let halted = RunEvent::Halted { at: at.clone() };
                    proof {
                        lemma_log_push(ev0, events@, stalled);
                        lemma_log_push(ev0, events@.push(stalled), halted);
                    }
                    events.push(stalled);
                    events.push(halted);
                    assert(event_views(events@).skip(ev0.len() as int) =~= passage_events(sv) + seq![
                        EventView::Stalled(rs[i as int].edge(), (t + 1) as usize),
                        EventView::Halted(at_v),
                    ]);
                    let report = RunReport::new(RunStatus::Halted { at }, steps);
                    assert(outcome_along(c, gs, os, entry_v, init, report, event_views(events@).skip(ev0.len() as int), idx, sigs));
                    return Ok(report);
                }
            }
            let to = route.to().clone();
            let k = match self.find(&to) {
                Some(k) => k,
                None => {
                    return Err(RuntimeError::MissingModule { id: to });
                },
            };
            let ghost cur = signal;
            let ghost sigs0 = sigs;
            let ghost idx0 = idx;
            proof {
                lemma_passage_push(sv, rs[i as int].edge());
                if let Some(t) = c.stall {
                    lemma_stall_extend(sv, fresh, t);
                }
            }
            steps.push(TraceStep::new(at.clone(), to.clone()));
            proof {
                assert(trace_view(steps@) =~= sv.push(rs[i as int].edge()));
                let prior = idx;
                idx = idx.push(i as int);
                assert(idx.drop_last() =~= prior);
            }
            if let Some(b) = self.budget {
                spent = spent + cost as u64;
            }
            let entered = RunEvent::Entered { from: at.clone(), to: to.clone() };
            proof {
                lemma_log_push(ev0, events@, entered);
            }
            events.push(entered);
            let ghost before_modules = self.modules@;
            let ghost before_self = *self;
            let output = self.modules[k].handler.handle(signal);
            proof {
                assert(self.spec_modules() =~= c.modules) by {
                    assert forall|j: int| 0 <= j < self.modules@.len() implies #[trigger] self.spec_modules()[j] == c.modules[j] by {
                        assert(self.modules@[j].id == before_modules[j].id);
                    }
                }
                assert forall|m: Seq<char>, s2: Signal<P>, o: Result<ModuleOutput<P>, ModuleError>|
                    #[trigger] self.module_may(m, s2, o) == before_self.module_may(m, s2, o) by {
                    assert forall|j: int| 0 <= j < self.modules@.len() implies #[trigger] self.modules@[j].handler.may_output(s2, o)
                        == before_modules[j].handler.may_output(s2, o) by {
                        if j != k {
                            assert(self.modules@[j] == before_modules[j]);
                        }
                    }
                    assert forall|j: int| 0 <= j < self.modules@.len() implies (#[trigger] self.modules@[j]).id == before_modules[j].id by {}
                    lemma_slots_agree(self.modules@, before_modules, m, s2, o);
                }
                assert(before_self.module_may(to@, cur, output)) by {
                    assert forall|j: int| 0 <= j < before_modules.len() && before_modules[j].id@ == to@ implies #[trigger] before_modules[j].handler.may_output(cur, output) by {
                        if j != k {
                            assert(c.modules[j] == before_modules[j].id@);
                            assert(c.modules[k as int] == before_modules[k as int].id@);
                        }
                    }
                }
                assert(self.routing == before_self.routing);
                assert(self.same_behaviour(&orig)) by {
                    assert forall|i2: int, s2: Signal<P>, a2: bool| 0 <= i2 < orig.spec_routes().len() implies #[trigger] self.gate_admits(i2, s2, a2) == orig.gate_admits(i2, s2, a2) by {
                        assert(before_self.gate_admits(i2, s2, a2) == orig.gate_admits(i2, s2, a2));
                    }
                    assert forall|m: Seq<char>, s2: Signal<P>, o: Result<ModuleOutput<P>, ModuleError>| #[trigger] self.module_may(m, s2, o) == orig.module_may(m, s2, o) by {
                        assert(before_self.module_may(m, s2, o) == orig.module_may(m, s2, o));
                    }
                }
                assert(os(to@, cur, output));
                assert(rs[i as int].edge().1 == to@);
            }
            match output {
                Ok(ModuleOutput::Emit(next)) => {
                    let emitted = RunEvent::Emitted { at: to.clone() };
                    proof {
                        lemma_log_push(ev0, events@, emitted);
                    }
                    events.push(emitted);
                    proof {
                        lemma_walk_extend(rs, gs, c.margin, entry_v, sv, idx0, sigs0, i as int, next);
                        lemma_emitted_extend(os, sv, sigs0, rs[i as int].edge(), next);
                        sigs = sigs0.push(next);
                    }
                    at = EndpointId::Module(to);
                    signal = next;
                },
                Ok(ModuleOutput::Stop(final_signal)) => {
                    proof {
                        lemma_walk_extend(rs, gs, c.margin, entry_v, sv, idx0, sigs0, i as int, cur);
                        lemma_emitted_extend(os, sv, sigs0, rs[i as int].edge(), cur);
                        sigs = sigs0.push(cur);
                    }
                    let stopped = RunEvent::Stopped { at: to };
                    proof {
                        lemma_log_push(ev0, events@, stopped);
                    }
                    events.push(stopped);
                    let report = RunReport::new(RunStatus::Stopped(final_signal), steps);
                    proof {
                        let s2 = trace_view(report.spec_steps());
                        assert(s2.drop_last() =~= sv);
                        assert(event_views(events@).skip(ev0.len() as int) =~= passage_events(s2.drop_last()) + seq![
                            EventView::Entered(s2.last().0, s2.last().1),
                            EventView::Stopped(s2.last().1),
                        ]);
                    }
                    assert(outcome_along(c, gs, os, entry_v, init, report, event_views(events@).skip(ev0.len() as int), idx, sigs));
                    return Ok(report);
                },
                Ok(ModuleOutput::Drop) => {
                    proof {
                        lemma_walk_extend(rs, gs, c.margin, entry_v, sv, idx0, sigs0, i as int, cur);
                        lemma_emitted_extend(os, sv, sigs0, rs[i as int].edge(), cur);
                        sigs = sigs0.push(cur);
                    }
                    let dropped = RunEvent::Dropped { at: to.clone() };
                    proof {
                        lemma_log_push(ev0, events@, dropped);
                    }
                    events.push(dropped);
                    let report = RunReport::new(RunStatus::Dropped { at: to }, steps);
                    proof {
                        let s2 = trace_view(report.spec_steps());
                        assert(s2.drop_last() =~= sv);
                        assert(event_views(events@).skip(ev0.len() as int) =~= passage_events(s2.drop_last()) + seq![
                            EventView::Entered(s2.last().0, s2.last().1),
                            EventView::Dropped(s2.last().1),
                        ]);
                    }
                    assert(outcome_along(c, gs, os, entry_v, init, report, event_views(events@).skip(ev0.len() as int), idx, sigs));
                    return Ok(report);
                },
                Err(source) => {
                    proof {
                        lemma_walk_extend(rs, gs, c.margin, entry_v, sv, idx0, sigs0, i as int, cur);
                        lemma_emitted_extend(os, sv, sigs0, rs[i as int].edge(), cur);
                        sigs = sigs0.push(cur);
                    }
                    let failure = RuntimeError::Module { id: to, source };
                    proof {
                        let s2 = trace_view(steps@);
                        assert(s2.drop_last() =~= sv);
                        assert(event_views(events@).skip(ev0.len() as int) =~= passage_events(s2.drop_last()) + seq![
                            EventView::Entered(s2.last().0, s2.last().1),
                        ]);
                        assert(c.modules[k as int] == s2.last().1);
                        assert(failure_along(c, gs, os, entry_v, init, event_views(events@).skip(ev0.len() as int), failure, s2, idx, sigs));
                    }
                    return Err(failure);
                },
            }
        }
    }
    /// Drive `initial` from input `entry`, as [`run_observed`](Self::run_observed)
    /// does, without keeping the events.
    pub fn run(&mut self, entry: InputId, initial: Signal<P>) -> (r: Result<RunReport<P>, RuntimeError>)
        requires
            old(self).wf(),
        ensures
            final(self).wf(),
            final(self).config() == old(self).config(),
            final(self).same_behaviour(old(self)),
            match r {
                Ok(report) => exists|events: Seq<EventView>|
                    run_outcome(old(self).config(), old(self).gates(), old(self).outputs(), entry@, initial, report, events),
                Err(e) => exists|events: Seq<EventView>|
                    run_failure(old(self).config(), old(self).gates(), old(self).outputs(), entry@, initial, events, e),
            },
    {
        let mut events: Vec<RunEvent> = Vec::new();
        let r = self.run_observed(entry, initial, &mut events);
        r
    }

    /// Recruit the top `limit` modules for one signal from `from`: the targets
    /// of the admitted routes in fan-out order (see
    /// [`RoutingTable::select_all`]).
    pub fn recruit(&self, from: &EndpointId, signal: &Signal<P>, limit: usize) -> (r: Vec<ModuleId>)
        ensures
            exists|adm: Seq<bool>, idx: Seq<usize>|
                #[trigger] answered(self.spec_routes(), self.gates(), from@, *signal, adm) && #[trigger] top_ranked(
                    self.spec_routes(),
                    from@,
                    adm,
                    limit,
                    idx,
                ) && r@.len() == idx.len() && forall|k: int|
                    0 <= k < idx.len() ==> idx[k] < self.spec_routes().len() && (#[trigger] r@[k])@
                        == self.spec_routes()[idx[k] as int].to,
    {
        let routes = self.routing.select_all(from, signal, limit);
        let ghost rs = self.spec_routes();
        let ghost (adm, idx) = choose|adm: Seq<bool>, idx: Seq<usize>|
            #[trigger] self.routing.answers(from@, *signal, adm) && #[trigger] top_ranked(rs, from@, adm, limit, idx)
                && routes@.len() == idx.len() && forall|k: int|
                0 <= k < idx.len() ==> idx[k] < rs.len() && (#[trigger] routes@[k])@ == rs[idx[k] as int];
        let mut out: Vec<ModuleId> = Vec::new();
        let mut k: usize = 0;
        while k < routes.len()
            invariant
                k <= routes@.len(),
                out@.len() == k,
                forall|j: int| 0 <= j < k ==> (#[trigger] out@[j])@ == routes@[j]@.to,
            decreases routes@.len() - k,
        {
            out.push(routes[k].to().clone());
            k = k + 1;
        }
        proof {
            assert forall|j: int| 0 <= j < idx.len() implies idx[j] < rs.len() && (#[trigger] out@[j])@
                == rs[idx[j] as int].to by {
                assert(routes@[j]@ == rs[idx[j] as int]);
            }
            self.lemma_answered(self, from@, *signal, adm);
            assert(answered(rs, self.gates(), from@, *signal, adm) && top_ranked(rs, from@, adm, limit, idx));
        }
        out
    }

    proof fn lemma_wf_same_ends(&self, rs: Seq<RouteView>)
        requires
            self.wf(),
            rs.len() == self.routing@.len(),
            forall|i: int| 0 <= i < rs.len() ==> (#[trigger] rs[i]).edge() == self.routing@[i].edge(),
        ensures
            forall|i: int| 0 <= i < rs.len() ==> {
                &&& self.spec_modules().contains(#[trigger] rs[i].to)
                &&& rs[i].from matches Endpoint::Module(m) ==> self.spec_modules().contains(m)
            },
    {
        assert forall|i: int| 0 <= i < rs.len() implies {
            &&& self.spec_modules().contains(#[trigger] rs[i].to)
            &&& rs[i].from matches Endpoint::Module(m) ==> self.spec_modules().contains(m)
        } by {
            assert(rs[i].edge() == self.routing@[i].edge());
            assert(self.spec_modules().contains(self.routing@[i].to));
        }
    }

    /// Apply a routing profile's per-edge biases, replacing any prior profile.
    pub fn apply_profile(&mut self, profile: &RoutingProfile)
        requires
            old(self).wf(),
        ensures
            final(self).same_behaviour(old(self)),
            final(self).wf(),
            final(self).config() == (RunConfig {
                routes: with_biases(old(self).spec_routes(), profile@),
                ..old(self).config()
            }),
    {
        let ghost before = *self;
        self.routing.apply_profile(profile);
        proof {
            before.lemma_wf_same_ends(self.routing@);
        }
    }

    /// Clear any active routing profile: every bias returns to zero.
    pub fn clear_profile(&mut self)
        requires
            old(self).wf(),
        ensures
            final(self).same_behaviour(old(self)),
            final(self).wf(),
            final(self).config() == (RunConfig { routes: unbiased(old(self).spec_routes()), ..old(self).config() }),
    {
        let ghost before = *self;
        self.routing.clear_profile();
        proof {
            before.lemma_wf_same_ends(self.routing@);
        }
    }

    /// The total magnitude of learned weight across all routes, saturating.
    pub fn learned_magnitude(&self) -> (r: u64)
        ensures
            r == saturated_total(self.spec_routes()),
    {
        self.routing.learned_magnitude()
    }

    /// Homeostatic scaling of the learned weights to `max_total` (see
    /// [`RoutingTable::homeostatic_scale`]).
    pub fn homeostatic_scale(&mut self, max_total: u64)
        requires
            old(self).wf(),
        ensures
            final(self).same_behaviour(old(self)),
            final(self).wf(),
            final(self).config() == (RunConfig {
                routes: homeostasis(old(self).spec_routes(), max_total as int, saturated_total(old(self).spec_routes())),
                ..old(self).config()
            }),
    {
        let ghost before = *self;
        self.routing.homeostatic_scale(max_total);
        proof {
            let total = saturated_total(before.routing@);
            if total > max_total {
                assert forall|i: int| 0 <= i < self.routing@.len() implies (#[trigger] self.routing@[i]).edge()
                    == before.routing@[i].edge() by {
                    assert(self.routing@[i] == homeostasis(before.routing@, max_total as int, total)[i]);
                }
            }
            before.lemma_wf_same_ends(self.routing@);
        }
    }

    /// Snapshot the learned weight of every route, keyed by edge.
    pub fn learned_weights(&self) -> (r: Vec<(EdgeId, i16)>)
        ensures
            r@.map_values(|e: (EdgeId, i16)| (e.0@, e.1)) == learned_snapshot(self.spec_routes()),
    {
        self.routing.learned_weights()
    }

    /// Restore learned weights from a snapshot, matching by edge.
    pub fn restore_learned(&mut self, snapshot: &[(EdgeId, i16)])
        requires
            old(self).wf(),
        ensures
            final(self).same_behaviour(old(self)),
            final(self).wf(),
            final(self).config() == (RunConfig {
                routes: with_snapshot(old(self).spec_routes(), snapshot@.map_values(|e: (EdgeId, i16)| (e.0@, e.1))),
                ..old(self).config()
            }),
    {
        let ghost before = *self;
        self.routing.restore_learned(snapshot);
        proof {
            before.lemma_wf_same_ends(self.routing@);
        }
    }

    /// Apply per-edge credits to the learned weights, announcing each credit
    /// that changed some route in `events` (see
    /// [`RoutingTable::reinforce_deltas`]).
    pub fn reinforce_deltas(&mut self, deltas: &[(EdgeId, i16)], events: &mut Vec<RunEvent>)
        requires
            old(self).wf(),
        ensures
            final(self).same_behaviour(old(self)),
            final(self).wf(),
            final(self).spec_modules() == old(self).spec_modules(),
            final(self).spec_routes().len() == old(self).spec_routes().len(),
            forall|i: int|
                0 <= i < old(self).spec_routes().len() ==> #[trigger] final(self).spec_routes()[i] == (
                RouteView {
                    learned: credited(
                        deltas@.map_values(|e: (EdgeId, i16)| (e.0@, e.1)),
                        old(self).spec_routes()[i].edge(),
                        old(self).spec_routes()[i].learned,
                    ),
                    ..old(self).spec_routes()[i]
                }),
            final(self).config() == (RunConfig { routes: final(self).spec_routes(), ..old(self).config() }),
            ({
                let credits = effective_credits(
                    old(self).spec_routes(),
                    deltas@.map_values(|e: (EdgeId, i16)| (e.0@, e.1)),
                );
                &&& final(events)@.len() == old(events)@.len() + credits.len()
                &&& forall|k: int| 0 <= k < old(events)@.len() ==> #[trigger] final(events)@[k] == old(events)@[k]
                &&& forall|k: int|
                    0 <= k < credits.len() ==> reports_credit(
                        #[trigger] final(events)@[old(events)@.len() + k],
                        credits[k],
                    )
            }),
    {
        let ghost before = *self;
        self.routing.reinforce_deltas(deltas, events);
        proof {
            assert forall|i: int| 0 <= i < self.routing@.len() implies (#[trigger] self.routing@[i]).edge()
                == before.routing@[i].edge() by {
                assert(self.routing@[i] == self.spec_routes()[i]);
            }
            before.lemma_wf_same_ends(self.routing@);
        }
    }

    pub fn module_count(&self) -> (r: usize)
        ensures
            r == self.spec_modules().len(),
    {
        self.modules.len()
    }

    pub fn route_count(&self) -> (r: usize)
        ensures
            r == self.spec_routes().len(),
    {
        self.routing.len()
    }

    /// The routing table.
    pub fn routing(&self) -> (r: &RoutingTable<P>)
        ensures
            r@ == self.spec_routes(),
    {
        &self.routing
    }

    /// The graph of this runtime's wiring.
    pub fn graph(&self) -> (r: ModuleGraph)
        ensures
            r@ == self.spec_routes().map_values(|rv: RouteView| rv.edge()),
    {
        self.routing.graph()
    }
}

impl<P> Default for Runtime<P> {
    fn default() -> (r: Self)
        ensures
            r.wf(),
            r.config() == (RunConfig {
                routes: Seq::empty(),
                modules: Seq::empty(),
                limit: crate::limit::DEFAULT_STEP_LIMIT,
                budget: None,
                margin: None,
                stall: None,
                stoppable: false,
            }),
    {
        Runtime::new(StepLimit::default())
    }
}

} // verus!
