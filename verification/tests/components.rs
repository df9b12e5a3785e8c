use axon::{
    Allow, CircuitBreaker, CompartmentModule, EdgeId, EndpointId, FnModule, Gate, InputId, Module,
    ModuleId, ModuleOutput, Route, RoutingProfile, RoutingTable, RunStatus, Runtime, Signal, StepLimit,
    Weight, WorkingMemory,
};

fn id(name: &str) -> ModuleId {
    ModuleId::new(name).unwrap()
}

fn input(name: &str) -> InputId {
    InputId::new(name).unwrap()
}

#[test]
fn breaker_opens_after_reaching_its_failure_threshold() {
    let breaker = CircuitBreaker::new(2);
    let probe: Signal<()> = Signal::new(());

    assert!(breaker.admits(&probe));
    breaker.trip();
    assert!(!breaker.is_open());
    breaker.trip();
    assert!(breaker.is_open());
    assert!(!breaker.admits(&probe));
    breaker.reset();
    assert_eq!(breaker.failures(), 0);
    assert!(breaker.admits(&probe));
}

#[test]
fn open_breaker_isolates_a_route_in_the_runtime() {
    let breaker = CircuitBreaker::new(1);
    let worker = id("worker");
    let mut runtime = Runtime::default();
    runtime
        .insert_module(FnModule::new(worker.clone(), |signal: Signal<u8>| {
            Ok(ModuleOutput::stop_signal(signal))
        }))
        .unwrap();
    runtime.add_input_route(input("input"), worker, Weight::new(10), breaker.clone()).unwrap();

    let report = runtime.run(input("input"), Signal::new(1u8)).unwrap();
    assert!(matches!(report.status(), RunStatus::Stopped(_)));

    breaker.trip();
    let isolated = runtime.run(input("input"), Signal::new(2u8)).unwrap();
    assert!(matches!(isolated.status(), RunStatus::NoRoute { .. }));
}

#[test]
fn a_compartment_module_fires_only_on_branch_coincidence() {
    let mut module = CompartmentModule::<String>::new(id("dendrite"), 2)
        .with_branch(|signal: &Signal<String>| signal.payload().contains('a'))
        .with_branch(|signal: &Signal<String>| signal.payload().contains('b'));
    assert_eq!(module.branch_count(), 2);

    assert!(matches!(module.handle(Signal::new("ab".to_owned())).unwrap(), ModuleOutput::Emit(_)));
    assert!(matches!(module.handle(Signal::new("a only".to_owned())).unwrap(), ModuleOutput::Drop));
    assert!(matches!(module.handle(Signal::new("zzz".to_owned())).unwrap(), ModuleOutput::Drop));
}

#[test]
fn select_all_returns_top_k_by_weight_deterministically() {
    let mut table: RoutingTable<()> = RoutingTable::new();
    let source = EndpointId::from(input("in"));
    table.push(Route::open(source.clone(), id("low"), Weight::new(1)));
    table.push(Route::open(source.clone(), id("high"), Weight::new(9)));
    table.push(Route::open(source.clone(), id("mid"), Weight::new(5)));
    let signal = Signal::new(());

    let top_two = table.select_all(&source, &signal, 2);
    assert_eq!(top_two.len(), 2);
    assert_eq!(top_two[0].to(), &id("high"));
    assert_eq!(top_two[1].to(), &id("mid"));

    let all = table.select_all(&source, &signal, 10);
    assert_eq!(all.len(), 3);
    assert_eq!(all[2].to(), &id("low"));
}

#[test]
fn runtime_recruits_several_modules_for_one_signal() {
    let mut runtime = Runtime::new(StepLimit::default());
    for name in ["writer", "interrupt", "logger"] {
        runtime
            .insert_module(FnModule::new(id(name), |signal: Signal<u32>| {
                Ok(ModuleOutput::stop(*signal.payload()))
            }))
            .unwrap();
    }
    let alert = input("alert");
    runtime.add_input_route(alert.clone(), id("writer"), Weight::new(8), Allow).unwrap();
    runtime.add_input_route(alert.clone(), id("interrupt"), Weight::new(9), Allow).unwrap();
    runtime.add_input_route(alert.clone(), id("logger"), Weight::new(1), Allow).unwrap();

    let recruited = runtime.recruit(&EndpointId::from(alert), &Signal::new(1), 2);
    assert_eq!(recruited, vec![id("interrupt"), id("writer")]);
}

fn stop_module(name: &str) -> FnModule<u32, impl Fn(Signal<u32>) -> Result<ModuleOutput<u32>, axon::ModuleError>> {
    FnModule::new(id(name), |signal: Signal<u32>| Ok(ModuleOutput::stop(*signal.payload())))
}

fn profile_runtime() -> Runtime<u32> {
    let mut runtime = Runtime::new(StepLimit::default());
    runtime.insert_module(stop_module("a")).unwrap();
    runtime.insert_module(stop_module("b")).unwrap();
    runtime.add_input_route(input("in"), id("a"), Weight::new(5), Allow).unwrap();
    runtime.add_input_route(input("in"), id("b"), Weight::new(4), Allow).unwrap();
    runtime
}

fn input_edge(to: &str) -> EdgeId {
    EdgeId::new(EndpointId::from(input("in")), id(to))
}

#[test]
fn a_profile_reconfigures_routing_without_rewiring() {
    let mut runtime = profile_runtime();
    let default = runtime.run(input("in"), Signal::new(1)).unwrap();
    assert_eq!(default.steps()[0].edge().to(), &id("a"));

    let profile = RoutingProfile::new().bias(input_edge("b"), 3);
    runtime.apply_profile(&profile);
    let biased = runtime.run(input("in"), Signal::new(2)).unwrap();
    assert_eq!(biased.steps()[0].edge().to(), &id("b"));

    runtime.clear_profile();
    let restored = runtime.run(input("in"), Signal::new(3)).unwrap();
    assert_eq!(restored.steps()[0].edge().to(), &id("a"));
}

/// The canonical agent loop: goal -> planner -> tool -> executive -> planner.
fn loop_runtime() -> Runtime<u32> {
    let mut runtime = Runtime::new(StepLimit::default());
    for name in ["planner", "tool", "executive"] {
        runtime.insert_module(stop_module(name)).unwrap();
    }
    let planner = id("planner");
    let tool = id("tool");
    let executive = id("executive");
    runtime.add_input_route(input("goal"), planner.clone(), Default::default(), Allow).unwrap();
    runtime.add_module_route(planner.clone(), tool.clone(), Default::default(), Allow).unwrap();
    runtime.add_module_route(tool, executive.clone(), Default::default(), Allow).unwrap();
    runtime.add_module_route(executive, planner, Default::default(), Allow).unwrap();
    runtime
}

#[test]
fn graph_reports_degree_hub_and_reachability() {
    let runtime = loop_runtime();
    let graph = runtime.graph();
    let planner = id("planner");

    assert_eq!(graph.edge_count(), 4);
    assert_eq!(graph.in_degree(&planner), 2);
    assert_eq!(graph.out_degree(&EndpointId::Module(planner.clone())), 1);

    assert_eq!(graph.hub(), Some(planner));

    let reachable = graph.reachable_from(&EndpointId::from(input("goal")));
    assert_eq!(reachable.len(), 3);
    assert!(reachable.contains(&id("tool")));
    assert!(reachable.contains(&id("executive")));
}

#[test]
fn update_writes_and_overwrites_in_place() {
    let mut wm = WorkingMemory::new(4);
    assert!(wm.update("goal", "ship axon"));
    assert!(wm.update("goal", "ship axon v2"));
    assert_eq!(wm.len(), 1);
    assert_eq!(wm.get("goal"), Some(&"ship axon v2"));
}

#[test]
fn at_capacity_the_oldest_unheld_slot_is_evicted() {
    let mut wm = WorkingMemory::new(2);
    wm.update("a", 1);
    wm.update("b", 2);
    assert!(wm.update("c", 3));
    assert_eq!(wm.len(), 2);
    assert_eq!(wm.get("a"), None);
    assert_eq!(wm.get("b"), Some(&2));
    assert_eq!(wm.get("c"), Some(&3));
}

#[test]
fn held_slots_are_protected_from_eviction() {
    let mut wm = WorkingMemory::new(2);
    wm.update("goal", "stay active");
    wm.update("scratch", "transient");
    assert!(wm.hold("goal"));

    assert!(wm.update("scratch2", "newer transient"));

    assert!(wm.is_held("goal"));
    assert_eq!(wm.get("goal"), Some(&"stay active"));
    assert_eq!(wm.get("scratch"), None);
    assert_eq!(wm.get("scratch2"), Some(&"newer transient"));
}

#[test]
fn a_fully_held_scratchpad_refuses_new_slots() {
    let mut wm = WorkingMemory::new(2);
    wm.update("a", 1);
    wm.update("b", 2);
    assert!(wm.hold("a"));
    assert!(wm.hold("b"));

    assert!(!wm.update("c", 3));
    assert_eq!(wm.get("c"), None);
    assert!(wm.release("a"));
    assert!(wm.update("c", 3));
    assert_eq!(wm.get("c"), Some(&3));
}
