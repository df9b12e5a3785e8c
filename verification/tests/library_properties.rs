use axon::{
    decide, plan_prompt, Allow, AsyncResume, AsyncRuntime, AsyncStep,
    CompartmentModule, Correction, Decision, EdgeId, EndpointId, ExecError, FnModule, IdError, InputId,
    KeywordRisk, MinPriority, Mode, Module, ModuleError, ModuleGraph, ModuleId, ModuleOutput,
    Priority, ProportionalPlasticity, ReplayBuffer, RetryPolicy, Rng, RoutingError,
    RoutingTable, Route, RunEvent, RunStatus, Runtime, RuntimeError, Signal, StepLimit, Verdict, Weight,
    WorkingMemory, DEFAULT_SEED,
};

fn id(name: &str) -> ModuleId {
    ModuleId::new(name).unwrap()
}

fn input(name: &str) -> InputId {
    InputId::new(name).unwrap()
}

fn stopper(name: &str) -> FnModule<u32, impl Fn(Signal<u32>) -> Result<ModuleOutput<u32>, ModuleError>> {
    FnModule::new(id(name), |signal: Signal<u32>| Ok(ModuleOutput::stop(*signal.payload())))
}

fn two_routes(weight_a: i16, weight_b: i16) -> Runtime<u32> {
    let mut runtime = Runtime::default();
    runtime.insert_module(stopper("a")).unwrap();
    runtime.insert_module(stopper("b")).unwrap();
    runtime.add_input_route(input("in"), id("a"), Weight::new(weight_a), Allow).unwrap();
    runtime.add_input_route(input("in"), id("b"), Weight::new(weight_b), Allow).unwrap();
    runtime
}

fn in_edge(to: &str) -> EdgeId {
    EdgeId::new(EndpointId::from(input("in")), id(to))
}

fn learned_of(snapshot: &[(EdgeId, i16)], edge: &EdgeId) -> Option<i16> {
    snapshot.iter().find(|entry| &entry.0 == edge).map(|entry| entry.1)
}

#[test]
fn ids_refuse_empty_and_spaced_names() {
    match ModuleId::new("") {
        Err(IdError::Empty { kind }) => assert_eq!(kind, "module"),
        other => panic!("unexpected {other:?}"),
    }
    let error = InputId::new("a b").unwrap_err();
    assert!(matches!(error, IdError::ContainsWhitespace { kind: "input", .. }));
    assert_eq!(error.to_string(), "input id cannot contain whitespace: \"a b\"");
    assert_eq!(InputId::new("").unwrap_err().to_string(), "input id cannot be empty");
    assert_eq!(ModuleId::new("x\ty").unwrap_err().to_string(), "module id cannot contain whitespace: \"x\\ty\"");
    assert!(ModuleId::new("tab\there").is_err());
    assert!(ModuleId::new("no\u{00A0}break").is_err());
    assert_eq!(ModuleId::new("planner").unwrap().as_str(), "planner");
}

#[test]
fn a_duplicate_module_is_refused() {
    let mut runtime: Runtime<u32> = Runtime::default();
    runtime.insert_module(stopper("a")).unwrap();
    match runtime.insert_module(stopper("a")) {
        Err(RuntimeError::DuplicateModule { id: dup }) => assert_eq!(dup, id("a")),
        other => panic!("unexpected {other:?}"),
    }
    assert_eq!(runtime.module_count(), 1);
}

#[test]
fn a_route_to_an_unknown_module_is_refused() {
    let mut runtime: Runtime<u32> = Runtime::default();
    runtime.insert_module(stopper("a")).unwrap();
    match runtime.add_module_route(id("ghost"), id("a"), Weight::new(1), Allow) {
        Err(RuntimeError::MissingModule { id: missing }) => assert_eq!(missing, id("ghost")),
        other => panic!("unexpected {other:?}"),
    }
    match runtime.add_input_route(input("in"), id("nowhere"), Weight::new(1), Allow) {
        Err(RuntimeError::MissingModule { id: missing }) => assert_eq!(missing, id("nowhere")),
        other => panic!("unexpected {other:?}"),
    }
    assert_eq!(runtime.route_count(), 0);
}

#[test]
fn a_tie_at_the_top_is_ambiguous() {
    let mut runtime = two_routes(5, 5);
    match runtime.run(input("in"), Signal::new(1)) {
        Err(RuntimeError::Routing(RoutingError::AmbiguousRoute { from, weight })) => {
            assert_eq!(from, EndpointId::from(input("in")));
            assert_eq!(weight.get(), 5);
        }
        other => panic!("unexpected {other:?}"),
    }
}

#[test]
fn a_module_failure_ends_the_run_with_its_error() {
    let mut runtime: Runtime<u32> = Runtime::default();
    runtime
        .insert_module(FnModule::new(id("broken"), |_signal: Signal<u32>| Err(ModuleError::new("boom"))))
        .unwrap();
    runtime.add_input_route(input("in"), id("broken"), Weight::new(1), Allow).unwrap();
    match runtime.run(input("in"), Signal::new(1)) {
        Err(RuntimeError::Module { id: failed, source }) => {
            assert_eq!(failed, id("broken"));
            assert_eq!(source.message(), "boom");
        }
        other => panic!("unexpected {other:?}"),
    }
}

#[test]
fn a_loop_without_an_exit_uses_up_the_step_limit() {
    let mut runtime: Runtime<u32> = Runtime::new(StepLimit::new(3));
    runtime
        .insert_module(FnModule::new(id("a"), |signal: Signal<u32>| Ok(ModuleOutput::emit(*signal.payload()))))
        .unwrap();
    runtime.add_input_route(input("in"), id("a"), Weight::new(1), Allow).unwrap();
    runtime.add_module_route(id("a"), id("a"), Weight::new(1), Allow).unwrap();
    match runtime.run(input("in"), Signal::new(1)) {
        Err(RuntimeError::StepLimitExceeded { limit, at }) => {
            assert_eq!(limit.get(), 3);
            assert_eq!(at, EndpointId::Module(id("a")));
        }
        other => panic!("unexpected {other:?}"),
    }
}

#[test]
fn a_dropping_module_ends_the_run_where_it_stands() {
    let mut runtime: Runtime<u32> = Runtime::default();
    runtime.insert_module(FnModule::new(id("sink"), |_signal: Signal<u32>| Ok(ModuleOutput::drop()))).unwrap();
    runtime.add_input_route(input("in"), id("sink"), Weight::new(1), Allow).unwrap();
    let mut events = Vec::new();
    let report = runtime.run_observed(input("in"), Signal::new(1), &mut events).unwrap();
    match report.status() {
        RunStatus::Dropped { at } => assert_eq!(at, &id("sink")),
        other => panic!("unexpected {other:?}"),
    }
    assert_eq!(
        events,
        vec![
            RunEvent::Entered { from: EndpointId::from(input("in")), to: id("sink") },
            RunEvent::Dropped { at: id("sink") },
        ]
    );
}

#[test]
fn min_priority_gates_by_signal_priority() {
    let mut runtime: Runtime<u32> = Runtime::default();
    runtime.insert_module(stopper("urgent")).unwrap();
    runtime
        .add_input_route(input("in"), id("urgent"), Weight::new(1), MinPriority::new(Priority::new(5)))
        .unwrap();
    let low = runtime.run(input("in"), Signal::with_priority(1, Priority::new(4))).unwrap();
    assert!(matches!(low.status(), RunStatus::NoRoute { .. }));
    let high = runtime.run(input("in"), Signal::with_priority(1, Priority::new(5))).unwrap();
    assert!(matches!(high.status(), RunStatus::Stopped(_)));
}

#[test]
fn a_second_profile_replaces_the_first_and_clearing_restores_the_default() {
    let mut runtime = two_routes(5, 4);
    runtime.apply_profile(&axon::RoutingProfile::new().bias(in_edge("b"), 3));
    runtime.apply_profile(&axon::RoutingProfile::new().bias(in_edge("a"), 1));
    let report = runtime.run(input("in"), Signal::new(1)).unwrap();
    assert_eq!(report.steps()[0].edge().to(), &id("a"));
    assert_eq!(runtime.routing().route(1).bias(), 0);
    runtime.clear_profile();
    assert_eq!(runtime.routing().route(0).bias(), 0);
    assert_eq!(runtime.routing().route(0).weight().get(), 5);
}

#[test]
fn credits_change_learning_and_report_each_changed_edge() {
    let mut runtime = two_routes(5, 4);
    let mut events = Vec::new();
    runtime.reinforce_deltas(
        &[(in_edge("a"), -10), (in_edge("b"), 0), (EdgeId::new(EndpointId::from(input("x")), id("a")), 3)],
        &mut events,
    );
    assert_eq!(events, vec![RunEvent::Reinforced { edge: in_edge("a"), delta: -10 }]);
    assert_eq!(learned_of(&runtime.learned_weights(), &in_edge("a")), Some(-10));
    let report = runtime.run(input("in"), Signal::new(2)).unwrap();
    assert_eq!(report.steps()[0].edge().to(), &id("b"));
}

#[test]
fn a_snapshot_restores_learned_routing_in_a_fresh_runtime() {
    let mut trained = two_routes(5, 4);
    let mut events = Vec::new();
    trained.reinforce_deltas(&[(in_edge("a"), -10)], &mut events);
    let snapshot = trained.learned_weights();

    let mut restored = two_routes(5, 4);
    restored.restore_learned(&snapshot);
    assert_eq!(restored.learned_weights(), snapshot);
    let report = restored.run(input("in"), Signal::new(2)).unwrap();
    assert_eq!(report.steps()[0].edge().to(), &id("b"));
}

#[test]
fn homeostasis_rescales_learning_and_keeps_its_order() {
    let mut runtime = two_routes(5, 4);
    let mut events = Vec::new();
    runtime.reinforce_deltas(&[(in_edge("a"), 10), (in_edge("b"), 9)], &mut events);
    assert_eq!(runtime.learned_magnitude(), 19);
    runtime.homeostatic_scale(10);
    let learned = runtime.learned_weights();
    assert_eq!(learned_of(&learned, &in_edge("a")), Some(5));
    assert_eq!(learned_of(&learned, &in_edge("b")), Some(4));
    assert_eq!(runtime.learned_magnitude(), 9);
    runtime.homeostatic_scale(1_000);
    assert_eq!(runtime.learned_magnitude(), 9);
}

#[test]
fn homeostasis_keeps_signs_and_rounds_toward_zero() {
    let mut runtime = two_routes(5, 4);
    let mut events = Vec::new();
    runtime.reinforce_deltas(&[(in_edge("a"), -3), (in_edge("b"), 1)], &mut events);
    runtime.homeostatic_scale(2);
    let learned = runtime.learned_weights();
    assert_eq!(learned_of(&learned, &in_edge("a")), Some(-1));
    assert_eq!(learned_of(&learned, &in_edge("b")), Some(0));
    assert!(runtime.learned_magnitude() <= 2);
}

#[test]
fn homeostasis_never_leaves_the_total_over_budget() {
    let mut runtime = two_routes(5, 4);
    let mut events = Vec::new();
    runtime.reinforce_deltas(&[(in_edge("a"), 1), (in_edge("b"), 1)], &mut events);
    runtime.homeostatic_scale(1);
    assert!(runtime.learned_magnitude() <= 1);
}

#[test]
fn learning_saturates_at_the_i16_bounds() {
    let mut runtime = two_routes(5, 4);
    let mut events = Vec::new();
    runtime.reinforce_deltas(&[(in_edge("a"), i16::MAX), (in_edge("a"), i16::MAX)], &mut events);
    assert_eq!(learned_of(&runtime.learned_weights(), &in_edge("a")), Some(i16::MAX));
    assert_eq!(events.len(), 2);
}

#[test]
fn recruitment_ranks_ties_by_target_id() {
    let mut table: RoutingTable<()> = RoutingTable::new();
    let source = EndpointId::from(input("in"));
    table.push(Route::open(source.clone(), id("zeta"), Weight::new(3)));
    table.push(Route::open(source.clone(), id("alpha"), Weight::new(3)));
    table.push(Route::open(EndpointId::from(input("other")), id("beta"), Weight::new(9)));
    let picked = table.select_all(&source, &Signal::new(()), 5);
    assert_eq!(picked.len(), 2);
    assert_eq!(picked[0].to(), &id("alpha"));
    assert_eq!(picked[1].to(), &id("zeta"));
    assert_eq!(table.candidates(&source, &Signal::new(())), vec![0, 1]);
    assert!(table.select_all(&source, &Signal::new(()), 0).is_empty());
}

#[test]
fn graph_lists_nodes_and_neighbours() {
    let mut graph = ModuleGraph::new();
    graph.insert(EndpointId::from(input("in")), id("b"));
    graph.insert(EndpointId::from(input("in")), id("a"));
    graph.insert(EndpointId::Module(id("a")), id("c"));
    assert_eq!(graph.node_count(), 4);
    assert_eq!(graph.neighbors(&EndpointId::from(input("in"))), vec![id("b"), id("a")]);
    assert_eq!(graph.reachable_from(&EndpointId::from(input("in"))), vec![id("a"), id("b"), id("c")]);
    assert_eq!(graph.hub(), Some(id("a")));
    assert!(ModuleGraph::new().hub().is_none());
}

#[test]
fn the_async_runtime_decides_each_step_of_a_run() {
    let mut runtime: AsyncRuntime<u32> = AsyncRuntime::default();
    runtime.insert_module(id("first")).unwrap();
    runtime.insert_module(id("second")).unwrap();
    assert!(matches!(runtime.insert_module(id("first")), Err(RuntimeError::DuplicateModule { .. })));
    runtime.add_input_route(input("in"), id("first"), Weight::new(1), Allow).unwrap();
    runtime.add_module_route(id("first"), id("second"), Weight::new(1), Allow).unwrap();

    let mut run = runtime.start(input("in"));
    let mut events = Vec::new();
    let (to, signal) = match runtime.advance(&mut run, Signal::new(20), &mut events) {
        AsyncStep::Await { to, signal } => (to, signal),
        AsyncStep::Done(result) => panic!("unexpected end {result:?}"),
    };
    assert_eq!(to, id("first"));
    let next = match runtime.resume(&mut run, to, Ok(ModuleOutput::emit(*signal.payload() + 1)), &mut events) {
        AsyncResume::Next(next) => next,
        AsyncResume::Done(result) => panic!("unexpected end {result:?}"),
    };
    assert_eq!(run.at(), &EndpointId::Module(id("first")));
    let (to, signal) = match runtime.advance(&mut run, next, &mut events) {
        AsyncStep::Await { to, signal } => (to, signal),
        AsyncStep::Done(result) => panic!("unexpected end {result:?}"),
    };
    assert_eq!(to, id("second"));
    let report = match runtime.resume(&mut run, to, Ok(ModuleOutput::stop(*signal.payload() * 2)), &mut events) {
        AsyncResume::Done(Ok(report)) => report,
        _ => panic!("expected a finished run"),
    };
    match report.status() {
        RunStatus::Stopped(last) => assert_eq!(*last.payload(), 42),
        other => panic!("unexpected {other:?}"),
    }
    assert_eq!(report.steps().len(), 2);
    assert_eq!(events.len(), 4);
    assert!(matches!(events[3], RunEvent::Stopped { .. }));
}

#[test]
fn the_async_runtime_stops_at_its_step_limit() {
    let mut runtime: AsyncRuntime<u32> = AsyncRuntime::new(StepLimit::new(0));
    runtime.insert_module(id("a")).unwrap();
    runtime.add_input_route(input("in"), id("a"), Weight::new(1), Allow).unwrap();
    let mut run = runtime.start(input("in"));
    let mut events = Vec::new();
    match runtime.advance(&mut run, Signal::new(1), &mut events) {
        AsyncStep::Done(Err(RuntimeError::StepLimitExceeded { limit, .. })) => assert_eq!(limit.get(), 0),
        _ => panic!("expected the step limit"),
    }
    assert!(events.is_empty());
}

#[test]
fn splitmix_is_reproducible_from_its_seed() {
    let mut rng = Rng::seeded(0);
    assert_eq!(rng.next_u64(), 0xE220_A839_7B1D_CDAF);
    let mut left = Rng::seeded(7);
    let mut right = Rng::seeded(7);
    for _ in 0..16 {
        assert_eq!(left.next_u64(), right.next_u64());
    }
    let mut default = Rng::default();
    assert_eq!(default.next_u64(), Rng::seeded(DEFAULT_SEED).next_u64());
}

#[test]
fn replay_buffer_keeps_the_newest_trajectories() {
    let mut runtime = two_routes(5, 4);
    let report = runtime.run(input("in"), Signal::new(1)).unwrap();
    let mut buffer: ReplayBuffer<u8> = ReplayBuffer::new(0);
    buffer.record(report.steps(), 1);
    buffer.record(&[], 9);
    buffer.record(report.steps(), 2);
    assert_eq!(buffer.len(), 1);
    let mut rng = Rng::seeded(3);
    let (steps, outcome) = buffer.sample(&mut rng).unwrap();
    assert_eq!(*outcome, 2);
    assert_eq!(steps.len(), 1);
    let empty: ReplayBuffer<u8> = ReplayBuffer::new(4);
    assert!(empty.sample(&mut rng).is_none());
}

#[test]
fn a_compartment_with_a_zero_threshold_always_fires() {
    let mut module = CompartmentModule::<u32>::new(id("leaf"), 0);
    assert!(matches!(module.handle(Signal::new(1)).unwrap(), ModuleOutput::Emit(_)));
    let mut strict = CompartmentModule::<u32>::new(id("strict"), 1)
        .with_branch(|signal: &Signal<u32>| *signal.payload() > 10);
    assert!(matches!(strict.handle(Signal::new(11)).unwrap(), ModuleOutput::Emit(_)));
    assert!(matches!(strict.handle(Signal::new(10)).unwrap(), ModuleOutput::Drop));
}

#[test]
fn working_memory_holds_survive_and_values_change_in_place() {
    let mut wm = WorkingMemory::new(2);
    assert_eq!(wm.capacity(), 2);
    wm.update("goal", 1);
    wm.update("note", 2);
    assert!(wm.hold("goal"));
    if let Some(value) = wm.get_mut("goal") {
        *value = 10;
    }
    assert!(wm.update("other", 3));
    assert_eq!(wm.get("goal"), Some(&10));
    assert!(wm.is_held("goal"));
    assert_eq!(wm.remove("other"), Some(3));
    assert_eq!(wm.remove("other"), None);
    let pairs: Vec<(&str, &i32)> = wm.iter();
    assert_eq!(pairs, vec![("goal", &10)]);
    assert!(!wm.hold("missing"));
    assert_eq!(WorkingMemory::<u8>::new(0).capacity(), 1);
}

#[test]
fn decisions_follow_the_mode() {
    assert_eq!(decide(Correction::Proceed, Mode::Focused), Decision::Continue);
    assert_eq!(
        decide(Correction::Retry { reason: "flaky".to_owned() }, Mode::Baseline),
        Decision::Retry { reason: "flaky".to_owned() }
    );
    assert_eq!(
        decide(Correction::Escalate { action: "read".to_owned() }, Mode::Exploratory),
        Decision::Retry { reason: "retry after mismatch in read".to_owned() }
    );
    assert_eq!(
        decide(Correction::Escalate { action: "read".to_owned() }, Mode::Salient),
        Decision::Escalate { reason: "prediction mismatch in read".to_owned() }
    );
}

#[test]
fn the_retry_guard_abandons_a_perseverating_step() {
    let mut policy = RetryPolicy::default();
    let retry = || Correction::Escalate { action: "build".to_owned() };
    assert_eq!(policy.judge(3, retry(), Mode::Exploratory, false), Verdict::Advance { next: 3 });
    assert_eq!(policy.judge(3, retry(), Mode::Exploratory, false), Verdict::Advance { next: 3 });
    assert_eq!(
        policy.judge(3, retry(), Mode::Exploratory, false),
        Verdict::Halt { reason: "abandoned step 3 after 2 retries: retry after mismatch in build".to_owned() }
    );
    assert_eq!(policy.judge(3, retry(), Mode::Exploratory, false), Verdict::Advance { next: 3 });
    assert_eq!(policy.judge(3, Correction::Proceed, Mode::Baseline, false), Verdict::Advance { next: 4 });
    assert_eq!(
        policy.judge(7, retry(), Mode::Baseline, true),
        Verdict::Replan { step: 7, reason: "severe mismatch in build".to_owned() }
    );
    assert_eq!(
        policy.judge(7, retry(), Mode::Baseline, false),
        Verdict::Halt { reason: "prediction mismatch in build".to_owned() }
    );
    assert_eq!(policy.judge(usize::MAX, Correction::Proceed, Mode::Baseline, false), Verdict::Advance { next: usize::MAX });
}

#[test]
fn messages_spell_numbers_in_decimal() {
    assert_eq!(ExecError::MissingStep { index: 0 }.to_string(), "plan has no step at index 0");
    assert_eq!(ExecError::MissingStep { index: 1204 }.to_string(), "plan has no step at index 1204");
    assert_eq!(
        plan_prompt("ship axon"),
        "Decompose this goal into one concrete action per line: ship axon"
    );
}

#[test]
fn keyword_risk_flags_destructive_actions_in_any_case() {
    let risk = KeywordRisk::default();
    assert!(risk.is_dangerous("rm -rf /"));
    assert!(risk.is_dangerous("Please DELETE the branch"));
    assert!(!risk.is_dangerous("read the manifest"));
    assert!(!risk.mentions_any("RM -RF /"));
    let custom = KeywordRisk::new(&["deploy"]);
    assert!(custom.is_dangerous("Deploy now"));
    assert!(!custom.is_dangerous("rm -rf /"));
}

#[test]
fn proportional_plasticity_keeps_its_gain() {
    assert_eq!(ProportionalPlasticity::default().gain(), 10);
    assert_eq!(ProportionalPlasticity::new(-3).gain(), -3);
}

#[test]
fn errors_and_ids_render_as_text() {
    assert_eq!(EndpointId::from(input("in")).to_string(), "input:in");
    assert_eq!(EndpointId::Module(id("a")).to_string(), "module:a");
    assert_eq!(in_edge("a").to_string(), "input:in -> a");
    assert_eq!(id("planner").to_string(), "planner");
    assert_eq!(Weight::new(-5).to_string(), "-5");
    assert_eq!(Weight::new(i16::MIN).to_string(), "-32768");
    assert_eq!(Weight::new(0).to_string(), "0");
    assert_eq!(StepLimit::new(64).to_string(), "64");
    let ambiguous = RoutingError::AmbiguousRoute { from: EndpointId::from(input("in")), weight: Weight::new(5) };
    assert_eq!(ambiguous.to_string(), "ambiguous admitted routes from input:in at weight 5");
    assert_eq!(RuntimeError::Routing(ambiguous).to_string(), "routing failed: ambiguous admitted routes from input:in at weight 5");
    assert_eq!(RuntimeError::DuplicateModule { id: id("a") }.to_string(), "module a is already registered");
    assert_eq!(RuntimeError::MissingModule { id: id("a") }.to_string(), "module a is not registered");
    assert_eq!(
        RuntimeError::Module { id: id("a"), source: ModuleError::new("boom") }.to_string(),
        "module a failed: boom"
    );
    assert_eq!(
        RuntimeError::StepLimitExceeded { limit: StepLimit::new(3), at: EndpointId::Module(id("a")) }.to_string(),
        "step limit 3 exceeded at module:a"
    );
}

#[test]
fn margin_selection_never_acts_on_a_tie() {
    let from = EndpointId::Input(input("in"));
    let mut table: RoutingTable<u32> = RoutingTable::new();
    table.push(Route::open(from.clone(), id("a"), Weight::new(5)));
    table.push(Route::open(from.clone(), id("b"), Weight::new(5)));
    let signal = Signal::new(1u32);
    assert!(table.select_with_margin(&from, &signal, 0).unwrap().is_none());
    assert!(table.select_with_margin(&from, &signal, -3).unwrap().is_none());
    table.push(Route::open(from.clone(), id("c"), Weight::new(7)));
    let chosen = table.select_with_margin(&from, &signal, 2).unwrap().unwrap();
    assert_eq!(chosen.to(), &id("c"));
    assert!(table.select_with_margin(&from, &signal, 3).unwrap().is_none());
}

#[test]
fn id_errors_compare_and_clone() {
    let error = ModuleId::new("a b").unwrap_err();
    assert_eq!(error.clone(), error);
    assert_ne!(error, ModuleId::new("").unwrap_err());
}

#[test]
fn cancelling_an_awaited_module_halts_where_the_run_stands() {
    let mut runtime: AsyncRuntime<u32> = AsyncRuntime::default();
    runtime.insert_module(id("hang")).unwrap();
    runtime.add_input_route(input("in"), id("hang"), Weight::new(1), Allow).unwrap();
    let mut run = runtime.start(input("in"));
    let mut events = Vec::new();
    match runtime.advance(&mut run, Signal::new(1), &mut events) {
        AsyncStep::Await { to, .. } => assert_eq!(to, id("hang")),
        AsyncStep::Done(result) => panic!("unexpected end {result:?}"),
    }
    let report = runtime.cancel(&mut run, &mut events);
    assert!(matches!(report.status(), RunStatus::Halted { at } if at == &EndpointId::from(input("in"))));
    assert_eq!(report.steps().len(), 1);
    assert!(matches!(events.last(), Some(RunEvent::Halted { .. })));
    assert_eq!(run.step_count(), 0);
}
