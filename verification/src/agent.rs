use vstd::prelude::*;
use vstd::string::*;

use crate::error::RuntimeError;
use crate::gate::Gate;
use crate::id::{Endpoint, InputId, ModuleId};
use crate::module::{Module, ModuleError, ModuleOutput};
use crate::plan::{Plan, Step};
use crate::route::{RouteView, Sign, Weight};
use crate::runtime::{RunConfig, Runtime};
use crate::signal::Signal;
use crate::text::{decimal, joined, push_decimal};

verus! {

/// The payload that flows around the routed plan, act, observe loop; each
/// variant names the stage of the cycle it belongs to.
#[derive(Debug, Clone, PartialEq, Eq)]
pub enum AgentSignal {
    /// Kick the loop off from an input endpoint.
    Goal,
    /// The planner selected `action` for `step`, expecting an outcome that
    /// contains `expected` when that is given.
    Act { step: usize, action: String, expected: Option<String> },
    /// The tool observed `observed` for `step`.
    Observe { step: usize, action: String, expected: Option<String>, observed: String },
    /// The executive released the loop to plan step `next`.
    Advance { next: usize },
    /// The executive asks for a fresh plan after a severe mismatch at `step`.
    Replan { step: usize, reason: String },
    /// Terminal: the loop stopped, for `reason`.
    Halt { reason: String },
}

/// Admits only the initial [`AgentSignal::Goal`].
#[derive(Debug, Clone, Copy, Default)]
pub struct OnGoal;

/// Admits only [`AgentSignal::Act`] hand-offs to the tool.
#[derive(Debug, Clone, Copy, Default)]
pub struct OnAct;

/// Admits only [`AgentSignal::Observe`] hand-offs to the executive.
#[derive(Debug, Clone, Copy, Default)]
pub struct OnObserve;

/// Admits only [`AgentSignal::Advance`] feedback to the planner.
#[derive(Debug, Clone, Copy, Default)]
pub struct OnAdvance;

/// Admits only [`AgentSignal::Replan`] requests back to the planner.
#[derive(Debug, Clone, Copy, Default)]
pub struct OnReplan;

impl Gate<AgentSignal> for OnGoal {
    open spec fn may_admit(&self, signal: &Signal<AgentSignal>, answer: bool) -> bool {
        answer == (signal.spec_payload() is Goal)
    }

    fn admits(&self, signal: &Signal<AgentSignal>) -> (r: bool)
        ensures
            r == (signal.spec_payload() is Goal),
    {
        match signal.payload() {
            AgentSignal::Goal => true,
            _ => false,
        }
    }
}

impl Gate<AgentSignal> for OnAct {
    open spec fn may_admit(&self, signal: &Signal<AgentSignal>, answer: bool) -> bool {
        answer == (signal.spec_payload() is Act)
    }

    fn admits(&self, signal: &Signal<AgentSignal>) -> (r: bool)
        ensures
            r == (signal.spec_payload() is Act),
    {
        match signal.payload() {
            AgentSignal::Act { .. } => true,
            _ => false,
        }
    }
}

impl Gate<AgentSignal> for OnObserve {
    open spec fn may_admit(&self, signal: &Signal<AgentSignal>, answer: bool) -> bool {
        answer == (signal.spec_payload() is Observe)
    }

    fn admits(&self, signal: &Signal<AgentSignal>) -> (r: bool)
        ensures
            r == (signal.spec_payload() is Observe),
    {
        match signal.payload() {
            AgentSignal::Observe { .. } => true,
            _ => false,
        }
    }
}

impl Gate<AgentSignal> for OnAdvance {
    open spec fn may_admit(&self, signal: &Signal<AgentSignal>, answer: bool) -> bool {
        answer == (signal.spec_payload() is Advance)
    }

    fn admits(&self, signal: &Signal<AgentSignal>) -> (r: bool)
        ensures
            r == (signal.spec_payload() is Advance),
    {
        match signal.payload() {
            AgentSignal::Advance { .. } => true,
            _ => false,
        }
    }
}

impl Gate<AgentSignal> for OnReplan {
    open spec fn may_admit(&self, signal: &Signal<AgentSignal>, answer: bool) -> bool {
        answer == (signal.spec_payload() is Replan)
    }

    fn admits(&self, signal: &Signal<AgentSignal>) -> (r: bool)
        ensures
            r == (signal.spec_payload() is Replan),
    {
        match signal.payload() {
            AgentSignal::Replan { .. } => true,
            _ => false,
        }
    }
}

/// The act a plan of `plan` yields at `step`: the step's action, or a halt
/// once the plan is complete.
pub open spec fn act_for(plan: Seq<(Seq<char>, Option<Seq<char>>)>, step: usize, out: ModuleOutput<AgentSignal>) -> bool {
    if step < plan.len() {
        out matches ModuleOutput::Emit(s) && s.spec_payload() matches AgentSignal::Act {
            step: k,
            action,
            expected,
        } && k == step && action@ == plan[step as int].0 && match expected {
            Some(e) => plan[step as int].1 == Some(e@),
            None => plan[step as int].1 is None,
        }
    } else {
        out matches ModuleOutput::Stop(s) && s.spec_payload() matches AgentSignal::Halt { reason } && reason@
            == "plan complete after "@ + decimal(step as nat) + " steps"@
    }
}

/// Produces a fresh plan for a failure reason.
trait Replanner {
    /// This replanner accepts `reason`.
    spec fn accepts(&self, reason: Seq<char>) -> bool;

    /// `plan` is a plan this replanner may give for `reason`.
    spec fn may_give(&self, reason: Seq<char>, plan: Seq<(Seq<char>, Option<Seq<char>>)>) -> bool;

    fn replan(&self, reason: &str) -> (r: Plan)
        requires
            self.accepts(reason@),
        ensures
            self.may_give(reason@, r@),
    ;
}

/// A replanner backed by a function of the failure reason.
struct FnReplanner<F> {
    function: F,
}

impl<F: Fn(&str) -> Plan> Replanner for FnReplanner<F> {
    closed spec fn accepts(&self, reason: Seq<char>) -> bool {
        forall|r: &str| r@ == reason ==> call_requires(self.function, (r,))
    }

    closed spec fn may_give(&self, reason: Seq<char>, plan: Seq<(Seq<char>, Option<Seq<char>>)>) -> bool {
        exists|r: &str, p: Plan| #[trigger] call_ensures(self.function, (r,), p) && r@ == reason && p@ == plan
    }

    fn replan(&self, reason: &str) -> (r: Plan) {
        let plan = (self.function)(reason);
        assert(call_ensures(self.function, (reason,), plan));
        plan
    }
}

/// The installed replanner, as the planner keeps it.
struct ReplannerSlot {
    replanner: Box<dyn Replanner>,
}

impl ReplannerSlot {
    fn new<F: Fn(&str) -> Plan + 'static>(function: F) -> (r: Self)
        requires
            forall|reason: &str| call_requires(function, (reason,)),
        ensures
            forall|reason: Seq<char>| r.replanner.accepts(reason),
            forall|reason: Seq<char>, plan: Seq<(Seq<char>, Option<Seq<char>>)>|
                r.replanner.may_give(reason, plan) ==> exists|s: &str, p: Plan|
                    #[trigger] call_ensures(function, (s,), p) && s@ == reason && p@ == plan,
    {
        ReplannerSlot { replanner: Box::new(FnReplanner { function }) }
    }
}

/// The planner: walks a plan, emitting one [`AgentSignal::Act`] per step and
/// stopping once the plan is exhausted. With a replanner installed it swaps
/// in a fresh plan on [`AgentSignal::Replan`]; without one such a request
/// halts the loop.
pub struct Planner {
    id: ModuleId,
    plan: Plan,
    replanner: Option<ReplannerSlot>,
}

impl Planner {
    #[verifier::type_invariant]
    spec fn answering(self) -> bool {
        self.replanner matches Some(slot) ==> forall|reason: Seq<char>| #[trigger] slot.replanner.accepts(reason)
    }

    pub closed spec fn spec_id(&self) -> Seq<char> {
        self.id@
    }

    /// The plan the planner walks.
    pub closed spec fn spec_plan(&self) -> Seq<(Seq<char>, Option<Seq<char>>)> {
        self.plan@
    }

    pub closed spec fn can_replan(&self) -> bool {
        self.replanner is Some
    }

    /// `plan` is a plan the installed replanner may give for `reason`.
    pub closed spec fn may_replan(&self, reason: Seq<char>, plan: Seq<(Seq<char>, Option<Seq<char>>)>) -> bool {
        match self.replanner {
            Some(slot) => slot.replanner.may_give(reason, plan),
            None => false,
        }
    }

    /// A planner named `id` walking `plan`, without a replanner.
    pub fn new(id: ModuleId, plan: Plan) -> (r: Self)
        ensures
            r.spec_id() == id@,
            r.spec_plan() == plan@,
            !r.can_replan(),
    {
        Planner { id, plan, replanner: None }
    }

    /// Install a replanner: on a replan request it is called with the failure
    /// reason to produce a fresh plan. It must accept every reason.
    pub fn with_replanner<F: Fn(&str) -> Plan + 'static>(self, replanner: F) -> (r: Self)
        requires
            forall|reason: &str| call_requires(replanner, (reason,)),
        ensures
            r.spec_id() == self.spec_id(),
            r.spec_plan() == self.spec_plan(),
            r.can_replan(),
            forall|reason: Seq<char>, plan: Seq<(Seq<char>, Option<Seq<char>>)>|
                r.may_replan(reason, plan) ==> exists|s: &str, p: Plan|
                    #[trigger] call_ensures(replanner, (s,), p) && s@ == reason && p@ == plan,
    {
        let Planner { id, plan, replanner: _ } = self;
        let slot = ReplannerSlot::new(replanner);
        Planner { id, plan, replanner: Some(slot) }
    }

    /// The act for plan step `step`, or a halt once the plan is complete.
    fn emit_act(&self, step: usize) -> (r: ModuleOutput<AgentSignal>)
        ensures
            act_for(self.spec_plan(), step, r),
    {
        match self.plan.step(step) {
            Some(def) => {
                let expected = match def.expected() {
                    Some(e) => Some(String::from_str(e)),
                    None => None,
                };
                ModuleOutput::emit(AgentSignal::Act { step, action: String::from_str(def.action()), expected })
            },
            None => {
                let mut s = String::from_str("plan complete after ");
                push_decimal(&mut s, step as u64);
                s.append(" steps");
                ModuleOutput::stop(AgentSignal::Halt { reason: s })
            },
        }
    }
}

impl Module<AgentSignal> for Planner {
    open spec fn module_id(&self) -> Seq<char> {
        self.spec_id()
    }

    /// Without a replanner the plan never changes, so each answer is fixed:
    /// the act for the requested step, a halt on a replan request, or the
    /// refusal. With a replanner, any outcome, since a replan replaces the
    /// plan.
    open spec fn may_output(&self, signal: Signal<AgentSignal>, out: Result<ModuleOutput<AgentSignal>, ModuleError>) -> bool {
        self.can_replan() || match signal.spec_payload() {
            AgentSignal::Goal => out matches Ok(o) && act_for(self.spec_plan(), 0, o),
            AgentSignal::Advance { next } => out matches Ok(o) && act_for(self.spec_plan(), next, o),
            AgentSignal::Replan { reason, .. } => out matches Ok(ModuleOutput::Stop(s)) && s.spec_payload() matches AgentSignal::Halt {
                reason: q,
            } && q@ == "cannot replan: "@ + reason@,
            _ => out matches Err(e) && e.spec_message() == "planner expects a goal, advance, or replan signal"@,
        }
    }

    fn id(&self) -> (r: &ModuleId) {
        &self.id
    }

    /// A goal starts the plan and an advance plans the requested step; a
    /// replan request swaps in the replanner's plan and starts it, or halts
    /// without a replanner; anything else is refused.
    fn handle(&mut self, signal: Signal<AgentSignal>) -> (r: Result<ModuleOutput<AgentSignal>, ModuleError>)
        ensures
            final(self).spec_id() == old(self).spec_id(),
            final(self).can_replan() == old(self).can_replan(),
            match signal.spec_payload() {
                AgentSignal::Goal => {
                    &&& *final(self) == *old(self)
                    &&& r matches Ok(out) && act_for(old(self).spec_plan(), 0, out)
                },
                AgentSignal::Advance { next } => {
                    &&& *final(self) == *old(self)
                    &&& r matches Ok(out) && act_for(old(self).spec_plan(), next, out)
                },
                AgentSignal::Replan { reason, .. } => if old(self).can_replan() {
                    &&& old(self).may_replan(reason@, final(self).spec_plan())
                    &&& r matches Ok(out) && act_for(final(self).spec_plan(), 0, out)
                } else {
                    &&& *final(self) == *old(self)
                    &&& r matches Ok(ModuleOutput::Stop(s)) && s.spec_payload() matches AgentSignal::Halt {
                        reason: q,
                    } && q@ == "cannot replan: "@ + reason@
                },
                _ => {
                    &&& *final(self) == *old(self)
                    &&& r matches Err(e) && e.spec_message() == "planner expects a goal, advance, or replan signal"@
                },
            },
    {
        proof {
            use_type_invariant(&*self);
        }
        match signal.into_payload() {
            AgentSignal::Goal => Ok(self.emit_act(0)),
            AgentSignal::Advance { next } => Ok(self.emit_act(next)),
            AgentSignal::Replan { reason, .. } => {
                let fresh = match &self.replanner {
                    Some(slot) => slot.replanner.replan(reason.as_str()),
                    None => {
                        return Ok(ModuleOutput::stop(AgentSignal::Halt { reason: joined("cannot replan: ", reason.as_str()) }));
                    },
                };
                self.plan = fresh;
                Ok(self.emit_act(0))
            },
            _ => Err(ModuleError::new("planner expects a goal, advance, or replan signal")),
        }
    }
}

/// A sensorimotor tool: it runs an effect over an action's text and reports
/// what it observed.
pub struct RoutedTool<F: Fn(&str) -> Result<String, ModuleError>> {
    id: ModuleId,
    run: F,
}

impl<F: Fn(&str) -> Result<String, ModuleError>> RoutedTool<F> {
    #[verifier::type_invariant]
    spec fn runnable(self) -> bool {
        forall|action: &str| call_requires(self.run, (action,))
    }

    pub closed spec fn spec_id(&self) -> Seq<char> {
        self.id@
    }

    pub closed spec fn spec_run(&self) -> F {
        self.run
    }

    /// A tool named `id` running `run`, which must accept every action.
    pub fn new(id: ModuleId, run: F) -> (r: Self)
        requires
            forall|action: &str| call_requires(run, (action,)),
        ensures
            r.spec_id() == id@,
            r.spec_run() == run,
    {
        RoutedTool { id, run }
    }

    /// Run the effect over `action`, giving the observation or the failure.
    fn run_action(&self, action: &str) -> (r: Result<String, ModuleError>)
        ensures
            call_ensures(self.spec_run(), (action,), r),
    {
        proof {
            use_type_invariant(self);
        }
        (self.run)(action)
    }
}

impl<F: Fn(&str) -> Result<String, ModuleError>> Module<AgentSignal> for RoutedTool<F> {
    open spec fn module_id(&self) -> Seq<char> {
        self.spec_id()
    }

    /// An act yields the effect's observation or its failure; anything else
    /// is refused.
    open spec fn may_output(&self, signal: Signal<AgentSignal>, out: Result<ModuleOutput<AgentSignal>, ModuleError>) -> bool {
        match signal.spec_payload() {
            AgentSignal::Act { step, action, expected } => exists|a: &str, o: Result<String, ModuleError>|
                #[trigger] call_ensures(self.spec_run(), (a,), o) && a@ == action@ && match o {
                    Ok(observed) => out matches Ok(ModuleOutput::Emit(s)) && s.spec_payload()
                        == AgentSignal::Observe { step, action, expected, observed },
                    Err(e) => out == Err::<ModuleOutput<AgentSignal>, ModuleError>(e),
                },
            _ => out matches Err(e) && e.spec_message() == "tool expects an act signal"@,
        }
    }

    fn id(&self) -> (r: &ModuleId) {
        &self.id
    }

    /// An act runs the effect over its action and emits the observation; a
    /// failure of the effect is the module's failure; anything else is
    /// refused.
    fn handle(&mut self, signal: Signal<AgentSignal>) -> (r: Result<ModuleOutput<AgentSignal>, ModuleError>)
        ensures
            *final(self) == *old(self),
            match signal.spec_payload() {
                AgentSignal::Act { step, action, expected } => exists|a: &str, o: Result<String, ModuleError>|
                    #[trigger] call_ensures(old(self).spec_run(), (a,), o) && a@ == action@ && match o {
                        Ok(observed) => r matches Ok(ModuleOutput::Emit(s)) && s.spec_payload()
                            == AgentSignal::Observe { step, action, expected, observed },
                        Err(e) => r == Err::<ModuleOutput<AgentSignal>, ModuleError>(e),
                    },
                _ => r matches Err(e) && e.spec_message() == "tool expects an act signal"@,
            },
    {
        match signal.into_payload() {
            AgentSignal::Act { step, action, expected } => {
                let outcome = self.run_action(action.as_str());
                match outcome {
                    Ok(observed) => Ok(ModuleOutput::emit(AgentSignal::Observe { step, action, expected, observed })),
                    Err(e) => Err(e),
                }
            },
            _ => Err(ModuleError::new("tool expects an act signal")),
        }
    }
}

/// The release weight of every edge of the agent loop.
pub const LOOP_WEIGHT: i16 = 10;

/// The five routes of the agent loop, in the order they are added:
/// goal -> planner, planner -> tool, tool -> executive, and executive ->
/// planner twice (advance and replan feedback).
pub open spec fn loop_routes(goal: Seq<char>, planner: Seq<char>, tool: Seq<char>, executive: Seq<char>) -> Seq<RouteView> {
    let route = |from: Endpoint, to: Seq<char>|
        RouteView { from, to, base: LOOP_WEIGHT, learned: 0, bias: 0, sign: Sign::Excitatory, cost: 0 };
    seq![
        route(Endpoint::Input(goal), planner),
        route(Endpoint::Module(planner), tool),
        route(Endpoint::Module(tool), executive),
        route(Endpoint::Module(executive), planner),
        route(Endpoint::Module(executive), planner),
    ]
}

/// Whether route `k` of the agent loop lets a signal carrying `payload`
/// through: each route admits exactly one stage of the cycle.
pub open spec fn loop_stage(k: int, payload: AgentSignal) -> bool {
    if k == 0 {
        payload is Goal
    } else if k == 1 {
        payload is Act
    } else if k == 2 {
        payload is Observe
    } else if k == 3 {
        payload is Advance
    } else {
        payload is Replan
    }
}

/// Wire the agent loop into `runtime`: goal -> planner -> tool -> executive
/// -> planner, each stage's hand-off gated on its signal's stage. The three
/// modules must already be registered; the first one that is not is
/// reported, and the routes added before it stay.
pub fn wire_loop(
    runtime: &mut Runtime<AgentSignal>,
    goal: &InputId,
    planner: &ModuleId,
    tool: &ModuleId,
    executive: &ModuleId,
) -> (r: Result<(), RuntimeError>)
    requires
        old(runtime).wf(),
    ensures
        final(runtime).wf(),
        ({
            let mods = old(runtime).spec_modules();
            let routes = loop_routes(goal@, planner@, tool@, executive@);
            let added = if !mods.contains(planner@) {
                0int
            } else if !mods.contains(tool@) {
                1int
            } else if !mods.contains(executive@) {
                2int
            } else {
                5int
            };
            &&& final(runtime).config() == (RunConfig {
                routes: old(runtime).spec_routes() + routes.take(added),
                ..old(runtime).config()
            })
            &&& final(runtime).keeps_gates(old(runtime))
            &&& final(runtime).keeps_modules(old(runtime))
            &&& forall|k: int, s: Signal<AgentSignal>, a: bool|
                0 <= k < added ==> #[trigger] final(runtime).gate_admits(
                    old(runtime).spec_routes().len() + k,
                    s,
                    a,
                ) == (a == loop_stage(k, s.spec_payload()))
            &&& match r {
                Ok(()) => added == 5,
                Err(RuntimeError::MissingModule { id }) => {
                    &&& added < 5
                    &&& id@ == if added == 0 {
                        planner@
                    } else if added == 1 {
                        tool@
                    } else {
                        executive@
                    }
                },
                Err(_) => false,
            }
        }),
{
    let ghost routes = loop_routes(goal@, planner@, tool@, executive@);
    let ghost start = runtime.spec_routes();
    let ghost first = *runtime;
    let ghost n = start.len() as int;
    let weight = Weight::new(LOOP_WEIGHT);
    runtime.add_input_route(goal.clone(), planner.clone(), weight, OnGoal)?;
    assert(runtime.spec_routes() =~= start + routes.take(1));
    let ghost r1 = *runtime;
    runtime.add_module_route(planner.clone(), tool.clone(), weight, OnAct)?;
    assert(runtime.spec_routes() =~= start + routes.take(2));
    let ghost r2 = *runtime;
    runtime.add_module_route(tool.clone(), executive.clone(), weight, OnObserve)?;
    assert(runtime.spec_routes() =~= start + routes.take(3));
    let ghost r3 = *runtime;
    runtime.add_module_route(executive.clone(), planner.clone(), weight, OnAdvance)?;
    assert(runtime.spec_routes() =~= start + routes.take(4));
    let ghost r4 = *runtime;
    runtime.add_module_route(executive.clone(), planner.clone(), weight, OnReplan)?;
    assert(runtime.spec_routes() =~= start + routes.take(5));
    proof {
        assert forall|k: int, s: Signal<AgentSignal>, a: bool|
            0 <= k < 5 implies #[trigger] runtime.gate_admits(n + k, s, a) == (a == loop_stage(k, s.spec_payload())) by {
            if k == 0 {
                assert(r1.gate_admits(n, s, a) == (a == loop_stage(0, s.spec_payload())));
                assert(r2.gate_admits(n, s, a) == r1.gate_admits(n, s, a));
                assert(r3.gate_admits(n, s, a) == r2.gate_admits(n, s, a));
                assert(r4.gate_admits(n, s, a) == r3.gate_admits(n, s, a));
            } else if k == 1 {
                assert(r3.gate_admits(n + 1, s, a) == r2.gate_admits(n + 1, s, a));
                assert(r4.gate_admits(n + 1, s, a) == r3.gate_admits(n + 1, s, a));
            } else if k == 2 {
                assert(r4.gate_admits(n + 2, s, a) == r3.gate_admits(n + 2, s, a));
            }
        }
        assert forall|i: int, s: Signal<AgentSignal>, a: bool| 0 <= i < n implies #[trigger] runtime.gate_admits(i, s, a)
            == first.gate_admits(i, s, a) by {
            assert(r1.gate_admits(i, s, a) == first.gate_admits(i, s, a));
            assert(r2.gate_admits(i, s, a) == r1.gate_admits(i, s, a));
            assert(r3.gate_admits(i, s, a) == r2.gate_admits(i, s, a));
            assert(r4.gate_admits(i, s, a) == r3.gate_admits(i, s, a));
        }
    }
    Ok(())
}

} // verus!
