use axon::{
    Allow, Cost, Disinhibit, DropSignal, EndpointId, FnModule, InputId, ModuleId, ModuleOutput, Phase,
    PhaseGate, Release, Route, RunEvent, RunStatus, Runtime, Sign, Signal, StepLimit, StopToken, Weight,
};

fn id(name: &str) -> ModuleId {
    ModuleId::new(name).unwrap()
}

fn input(name: &str) -> InputId {
    InputId::new(name).unwrap()
}

/// Chain in -> a -> b where a emits onward and b stops; each hop has a cost.
fn costed_chain(cost_in_a: u32, cost_a_b: u32) -> Runtime<u32> {
    let mut runtime = Runtime::new(StepLimit::default());
    runtime
        .insert_module(FnModule::new(id("a"), |signal: Signal<u32>| {
            Ok(ModuleOutput::emit(*signal.payload()))
        }))
        .unwrap();
    runtime
        .insert_module(FnModule::new(id("b"), |signal: Signal<u32>| {
            Ok(ModuleOutput::stop(*signal.payload()))
        }))
        .unwrap();
    runtime
        .add_route_with_cost(input("in").into(), id("a"), Weight::new(1), Cost::new(cost_in_a), Allow)
        .unwrap();
    runtime
        .add_route_with_cost(id("a").into(), id("b"), Weight::new(1), Cost::new(cost_a_b), Allow)
        .unwrap();
    runtime
}

#[test]
fn a_run_refuses_a_route_it_cannot_afford() {
    let mut runtime = costed_chain(3, 5).with_budget(6);
    let report = runtime.run(input("in"), Signal::new(1)).unwrap();
    assert!(matches!(report.status(), RunStatus::NoRoute { .. }));
    assert_eq!(report.steps().len(), 1);
}

#[test]
fn a_sufficient_budget_completes_the_run() {
    let mut runtime = costed_chain(3, 5).with_budget(8);
    let report = runtime.run(input("in"), Signal::new(1)).unwrap();
    assert!(matches!(report.status(), RunStatus::Stopped(_)));
    assert_eq!(report.steps().len(), 2);
}

#[test]
fn no_budget_means_cost_is_ignored() {
    let mut runtime = costed_chain(1000, 1000);
    let report = runtime.run(input("in"), Signal::new(1)).unwrap();
    assert!(matches!(report.status(), RunStatus::Stopped(_)));
}

#[test]
fn a_disinhibited_route_opens_only_while_released() {
    let release = Release::new();
    let mut runtime: Runtime<u32> = Runtime::new(StepLimit::default());
    runtime
        .insert_module(FnModule::new(id("top_down"), |signal: Signal<u32>| {
            Ok(ModuleOutput::stop(*signal.payload()))
        }))
        .unwrap();
    runtime
        .add_input_route(
            input("in"),
            id("top_down"),
            Weight::new(10),
            Disinhibit::new(DropSignal, release.clone()),
        )
        .unwrap();

    let blocked = runtime.run(input("in"), Signal::new(1)).unwrap();
    assert!(matches!(blocked.status(), RunStatus::NoRoute { .. }));

    release.release();
    let opened = runtime.run(input("in"), Signal::new(2)).unwrap();
    assert!(matches!(opened.status(), RunStatus::Stopped(_)));
    assert_eq!(opened.steps()[0].edge().to(), &id("top_down"));

    release.hold();
    let blocked_again = runtime.run(input("in"), Signal::new(3)).unwrap();
    assert!(matches!(blocked_again.status(), RunStatus::NoRoute { .. }));
}

/// One input feeding two modules, each active in a different phase.
fn phased_runtime() -> Runtime<u32> {
    let mut runtime = Runtime::new(StepLimit::default());
    runtime
        .insert_module(FnModule::new(id("day"), |signal: Signal<u32>| {
            Ok(ModuleOutput::stop(*signal.payload()))
        }))
        .unwrap();
    runtime
        .insert_module(FnModule::new(id("night"), |signal: Signal<u32>| {
            Ok(ModuleOutput::stop(*signal.payload()))
        }))
        .unwrap();
    runtime
        .add_input_route(input("in"), id("day"), Weight::new(10), PhaseGate::at(Phase::new(0)))
        .unwrap();
    runtime
        .add_input_route(input("in"), id("night"), Weight::new(10), PhaseGate::at(Phase::new(1)))
        .unwrap();
    runtime
}

#[test]
fn phase_multiplexes_routes_over_one_graph() {
    let mut runtime = phased_runtime();
    let report = runtime.run(input("in"), Signal::new(1).with_phase(Phase::new(0))).unwrap();
    assert_eq!(report.steps()[0].edge().to(), &id("day"));

    let report = runtime.run(input("in"), Signal::new(2).with_phase(Phase::new(1))).unwrap();
    assert_eq!(report.steps()[0].edge().to(), &id("night"));

    let report = runtime.run(input("in"), Signal::new(3).with_phase(Phase::new(2))).unwrap();
    assert!(matches!(report.status(), RunStatus::NoRoute { .. }));
}

#[test]
fn a_signal_keeps_its_phase_across_a_map() {
    let signal = Signal::new(1u32).with_phase(Phase::new(3));
    let mapped = signal.map(|value| value + 1);
    assert_eq!(mapped.phase(), Phase::new(3));
    assert_eq!(*mapped.payload(), 2);
}

/// One input feeding two stopping modules `a` and `b` at the given weights.
fn two_route_runtime(weight_a: i16, weight_b: i16) -> Runtime<u32> {
    let mut runtime = Runtime::new(StepLimit::default());
    runtime
        .insert_module(FnModule::new(id("a"), |signal: Signal<u32>| {
            Ok(ModuleOutput::stop(*signal.payload()))
        }))
        .unwrap();
    runtime
        .insert_module(FnModule::new(id("b"), |signal: Signal<u32>| {
            Ok(ModuleOutput::stop(*signal.payload()))
        }))
        .unwrap();
    runtime.add_input_route(input("in"), id("a"), Weight::new(weight_a), Allow).unwrap();
    runtime.add_input_route(input("in"), id("b"), Weight::new(weight_b), Allow).unwrap();
    runtime
}

#[test]
fn a_close_call_is_suppressed_under_a_nogo_margin() {
    let mut runtime = two_route_runtime(5, 4).with_margin(2);
    let report = runtime.run(input("in"), Signal::new(1)).unwrap();
    assert!(matches!(report.status(), RunStatus::NoRoute { .. }));
    assert!(report.steps().is_empty());
}

#[test]
fn a_clear_winner_acts_despite_the_margin() {
    let mut runtime = two_route_runtime(5, 2).with_margin(2);
    let report = runtime.run(input("in"), Signal::new(1)).unwrap();
    assert!(matches!(report.status(), RunStatus::Stopped(_)));
    assert_eq!(report.steps()[0].edge().to(), &id("a"));
}

#[test]
fn a_sole_candidate_always_acts() {
    let mut runtime = Runtime::new(StepLimit::default()).with_margin(100);
    runtime
        .insert_module(FnModule::new(id("only"), |signal: Signal<u32>| {
            Ok(ModuleOutput::stop(*signal.payload()))
        }))
        .unwrap();
    runtime.add_input_route(input("in"), id("only"), Weight::new(1), Allow).unwrap();
    let report = runtime.run(input("in"), Signal::new(1)).unwrap();
    assert!(matches!(report.status(), RunStatus::Stopped(_)));
}

/// Input `in` has an excitatory route to `act` and an admitted inhibitory
/// edge to `veto`, at the given weights.
fn inhibited_runtime(act_weight: i16, veto_weight: i16) -> Runtime<u32> {
    let mut runtime = Runtime::new(StepLimit::default());
    runtime
        .insert_module(FnModule::new(id("act"), |signal: Signal<u32>| {
            Ok(ModuleOutput::stop(*signal.payload()))
        }))
        .unwrap();
    runtime
        .insert_module(FnModule::new(id("veto"), |signal: Signal<u32>| {
            Ok(ModuleOutput::stop(*signal.payload()))
        }))
        .unwrap();
    runtime.add_input_route(input("in"), id("act"), Weight::new(act_weight), Allow).unwrap();
    runtime
        .add_built_route(
            Route::new(input("in").into(), id("veto"), Weight::new(veto_weight), Allow)
                .with_sign(Sign::Inhibitory),
        )
        .unwrap();
    runtime
}

#[test]
fn an_inhibitory_edge_suppresses_the_excitatory_winner() {
    let mut runtime = inhibited_runtime(5, 6);
    let report = runtime.run(input("in"), Signal::new(1)).unwrap();
    assert!(matches!(report.status(), RunStatus::NoRoute { .. }));
    assert!(report.steps().is_empty());
}

#[test]
fn weak_inhibition_does_not_suppress_a_strong_excitatory_edge() {
    let mut runtime = inhibited_runtime(9, 2);
    let report = runtime.run(input("in"), Signal::new(1)).unwrap();
    assert!(matches!(report.status(), RunStatus::Stopped(_)));
    assert_eq!(report.steps()[0].edge().to(), &id("act"));
}

#[test]
fn a_pre_stopped_token_halts_before_any_step() {
    let stop = StopToken::new();
    let mut runtime: Runtime<u32> = Runtime::new(StepLimit::default()).with_stop_token(stop.clone());
    runtime
        .insert_module(FnModule::new(id("a"), |signal: Signal<u32>| {
            Ok(ModuleOutput::stop(*signal.payload()))
        }))
        .unwrap();
    runtime.add_input_route(input("in"), id("a"), Weight::new(1), Allow).unwrap();
    stop.stop();

    let report = runtime.run(input("in"), Signal::new(1)).unwrap();
    assert!(matches!(report.status(), RunStatus::Halted { .. }));
    assert!(report.steps().is_empty());
}

#[test]
fn a_module_can_stop_the_run_mid_flight() {
    let stop = StopToken::new();
    let trip = stop.clone();
    let mut runtime: Runtime<u32> = Runtime::new(StepLimit::default()).with_stop_token(stop.clone());
    runtime
        .insert_module(FnModule::new(id("a"), move |signal: Signal<u32>| {
            trip.stop();
            Ok(ModuleOutput::emit(*signal.payload()))
        }))
        .unwrap();
    runtime
        .insert_module(FnModule::new(id("b"), |signal: Signal<u32>| {
            Ok(ModuleOutput::stop(*signal.payload()))
        }))
        .unwrap();
    runtime.add_input_route(input("in"), id("a"), Weight::new(1), Allow).unwrap();
    runtime.add_module_route(id("a"), id("b"), Weight::new(1), Allow).unwrap();

    let mut events = Vec::new();
    let report = runtime.run_observed(input("in"), Signal::new(1), &mut events).unwrap();
    let halted_at = events.iter().find_map(|event| match event {
        RunEvent::Halted { at } => Some(at.clone()),
        _ => None,
    });

    assert!(matches!(report.status(), RunStatus::Halted { .. }));
    assert_eq!(report.steps().len(), 1);
    assert!(halted_at.is_some());
}

#[test]
fn an_oscillating_edge_is_halted_by_the_stall_guard() {
    let mut runtime: Runtime<u32> = Runtime::new(StepLimit::default()).with_stall_threshold(3);
    runtime
        .insert_module(FnModule::new(id("a"), |signal: Signal<u32>| {
            Ok(ModuleOutput::emit(*signal.payload()))
        }))
        .unwrap();
    runtime.add_input_route(input("in"), id("a"), Weight::new(1), Allow).unwrap();
    runtime.add_module_route(id("a"), id("a"), Weight::new(1), Allow).unwrap();

    let mut events = Vec::new();
    let report = runtime.run_observed(input("in"), Signal::new(1), &mut events).unwrap();
    let stalled = events.iter().find_map(|event| match event {
        RunEvent::Stalled { edge, count } => Some((edge.clone(), *count)),
        _ => None,
    });

    assert!(matches!(report.status(), RunStatus::Halted { .. }));
    let Some((edge, count)) = stalled else {
        panic!("expected a stall event");
    };
    assert_eq!(edge.from(), &EndpointId::Module(id("a")));
    assert_eq!(edge.to(), &id("a"));
    assert_eq!(count, 4);
    assert_eq!(edge, axon::EdgeId::new(EndpointId::Module(id("a")), id("a")));
}

#[test]
fn run_observed_streams_one_event_per_transition() {
    let first = id("first");
    let second = id("second");
    let mut runtime = Runtime::default();
    runtime
        .insert_module(FnModule::new(first.clone(), |signal: Signal<u8>| {
            Ok(ModuleOutput::emit(signal.into_payload()))
        }))
        .unwrap();
    runtime
        .insert_module(FnModule::new(second.clone(), |signal: Signal<u8>| {
            Ok(ModuleOutput::stop(signal.into_payload()))
        }))
        .unwrap();
    runtime.add_input_route(input("input"), first.clone(), Weight::new(10), Allow).unwrap();
    runtime.add_module_route(first, second, Weight::new(10), Allow).unwrap();

    let mut events = Vec::new();
    runtime.run_observed(input("input"), Signal::new(7u8), &mut events).unwrap();

    assert_eq!(events.len(), 4);
    assert!(matches!(events[0], RunEvent::Entered { .. }));
    assert!(matches!(events[1], RunEvent::Emitted { .. }));
    assert!(matches!(events[3], RunEvent::Stopped { .. }));
}
