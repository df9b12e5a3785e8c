use axon::{
    wire_loop, AgentSignal, FnModule, InputId, Module, ModuleError, ModuleId, ModuleOutput, Plan, Planner,
    RoutedTool, RunStatus, Runtime, RuntimeError, Signal, Step,
};

fn id(name: &str) -> ModuleId {
    ModuleId::new(name).unwrap()
}

fn plan(actions: &[&str]) -> Plan {
    Plan::new(actions.iter().map(|action| Step::new(action, None)).collect())
}

fn halt_reason(output: ModuleOutput<AgentSignal>) -> String {
    match output {
        ModuleOutput::Stop(signal) => match signal.into_payload() {
            AgentSignal::Halt { reason } => reason,
            other => panic!("unexpected {other:?}"),
        },
        other => panic!("unexpected {other:?}"),
    }
}

#[test]
fn the_planner_walks_its_plan_and_halts_when_done() {
    let mut planner = Planner::new(id("planner"), plan(&["read", "write"]));
    match planner.handle(Signal::new(AgentSignal::Goal)).unwrap() {
        ModuleOutput::Emit(signal) => assert_eq!(
            signal.into_payload(),
            AgentSignal::Act { step: 0, action: "read".to_owned(), expected: None }
        ),
        other => panic!("unexpected {other:?}"),
    }
    let done = planner.handle(Signal::new(AgentSignal::Advance { next: 2 })).unwrap();
    assert_eq!(halt_reason(done), "plan complete after 2 steps");
    let refused = planner.handle(Signal::new(AgentSignal::Halt { reason: "x".to_owned() })).unwrap_err();
    assert_eq!(refused.message(), "planner expects a goal, advance, or replan signal");
}

#[test]
fn without_a_replanner_a_replan_request_halts() {
    let mut planner = Planner::new(id("planner"), plan(&["risky"]));
    let output = planner
        .handle(Signal::new(AgentSignal::Replan { step: 0, reason: "failed risky".to_owned() }))
        .unwrap();
    assert_eq!(halt_reason(output), "cannot replan: failed risky");
}

#[test]
fn a_replanner_swaps_in_a_fresh_plan() {
    let mut planner = Planner::new(id("planner"), plan(&["risky"]))
        .with_replanner(|reason: &str| Plan::new(vec![Step::new("safe", Some(reason))]));
    match planner.handle(Signal::new(AgentSignal::Replan { step: 0, reason: "why".to_owned() })).unwrap() {
        ModuleOutput::Emit(signal) => assert_eq!(
            signal.into_payload(),
            AgentSignal::Act { step: 0, action: "safe".to_owned(), expected: Some("why".to_owned()) }
        ),
        other => panic!("unexpected {other:?}"),
    }
}

#[test]
fn a_routed_tool_turns_an_act_into_an_observation() {
    let mut tool = RoutedTool::new(id("tool"), |action: &str| -> Result<String, ModuleError> {
        if action.is_empty() {
            Err(ModuleError::new("nothing to do"))
        } else {
            Ok(format!("did {action}"))
        }
    });
    assert_eq!(tool.id(), &id("tool"));
    let act = AgentSignal::Act { step: 1, action: "read".to_owned(), expected: Some("x".to_owned()) };
    match tool.handle(Signal::new(act)).unwrap() {
        ModuleOutput::Emit(signal) => assert_eq!(
            signal.into_payload(),
            AgentSignal::Observe {
                step: 1,
                action: "read".to_owned(),
                expected: Some("x".to_owned()),
                observed: "did read".to_owned(),
            }
        ),
        other => panic!("unexpected {other:?}"),
    }
    let empty = AgentSignal::Act { step: 0, action: String::new(), expected: None };
    assert_eq!(tool.handle(Signal::new(empty)).unwrap_err().message(), "nothing to do");
    assert_eq!(
        tool.handle(Signal::new(AgentSignal::Goal)).unwrap_err().message(),
        "tool expects an act signal"
    );
}

#[test]
fn the_wired_loop_runs_a_plan_to_completion() {
    let goal = InputId::new("goal").unwrap();
    let mut runtime: Runtime<AgentSignal> = Runtime::default();
    runtime.insert_module(Planner::new(id("planner"), plan(&["read", "write"]))).unwrap();
    runtime
        .insert_module(RoutedTool::new(id("tool"), |action: &str| -> Result<String, ModuleError> {
            Ok(format!("did {action}"))
        }))
        .unwrap();
    runtime
        .insert_module(FnModule::new(id("executive"), |signal: Signal<AgentSignal>| {
            match signal.into_payload() {
                AgentSignal::Observe { step, .. } => Ok(ModuleOutput::emit(AgentSignal::Advance { next: step + 1 })),
                _ => Err(ModuleError::new("executive expects an observe signal")),
            }
        }))
        .unwrap();
    wire_loop(&mut runtime, &goal, &id("planner"), &id("tool"), &id("executive")).unwrap();
    assert_eq!(runtime.route_count(), 5);

    let report = runtime.run(goal, Signal::new(AgentSignal::Goal)).unwrap();
    match report.status() {
        RunStatus::Stopped(signal) => {
            assert_eq!(signal.payload(), &AgentSignal::Halt { reason: "plan complete after 2 steps".to_owned() })
        }
        other => panic!("unexpected {other:?}"),
    }
    assert_eq!(report.steps().len(), 7);
}

#[test]
fn wiring_reports_the_first_missing_stage() {
    let goal = InputId::new("goal").unwrap();
    let mut runtime: Runtime<AgentSignal> = Runtime::default();
    runtime.insert_module(Planner::new(id("planner"), plan(&["read"]))).unwrap();
    match wire_loop(&mut runtime, &goal, &id("planner"), &id("tool"), &id("executive")) {
        Err(RuntimeError::MissingModule { id: missing }) => assert_eq!(missing, id("tool")),
        other => panic!("unexpected {other:?}"),
    }
    assert_eq!(runtime.route_count(), 1);
}
