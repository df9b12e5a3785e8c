use axon::{parse_plan, parse_step, Plan, PlanStack, Step};

fn step(action: &'static str) -> Step {
    Step::new(action, None)
}

#[test]
fn sub_goals_expand_lazily_and_only_when_their_precondition_holds() {
    let mut stack = PlanStack::new(Plan::new(vec![step("setup"), step("build")]));
    assert_eq!(stack.depth(), 1);
    assert_eq!(stack.current().map(Step::action), Some("setup"));

    stack.advance();
    assert_eq!(stack.current().map(Step::action), Some("build"));

    stack.advance();
    assert!(stack.expand_if(Plan::new(vec![step("compile"), step("test")]), true));
    assert_eq!(stack.depth(), 2);

    assert_eq!(stack.current().map(Step::action), Some("compile"));
    stack.advance();
    assert_eq!(stack.current().map(Step::action), Some("test"));
    stack.advance();

    assert!(stack.is_done());
    assert_eq!(stack.depth(), 1);
}

#[test]
fn a_failed_precondition_does_not_expand_the_sub_goal() {
    let mut stack = PlanStack::new(Plan::new(vec![step("maybe")]));
    let expanded = stack.expand_if(Plan::new(vec![step("never")]), false);
    assert!(!expanded);
    assert_eq!(stack.depth(), 1);
    assert_eq!(stack.current().map(Step::action), Some("maybe"));
}

#[test]
fn plans_compose_hierarchically_into_one_sequence() {
    let setup = Plan::new(vec![step("clone repo")]);
    let build = Plan::new(vec![step("cargo build"), step("cargo test")]);

    let full = Plan::compose(vec![setup, build]);

    assert_eq!(full.len(), 3);
    assert_eq!(full.step(0).map(Step::action), Some("clone repo"));
    assert_eq!(full.step(2).map(Step::action), Some("cargo test"));

    let extended = full.followed_by(Plan::new(vec![step("deploy")]));
    assert_eq!(extended.len(), 4);
    assert_eq!(extended.step(3).map(Step::action), Some("deploy"));
}

#[test]
fn a_completion_parses_into_one_step_per_line() {
    let plan = parse_plan("list files\nread manifest => axon");
    assert_eq!(plan.len(), 2);
    assert_eq!(plan.steps()[0].action(), "list files");
    assert_eq!(plan.steps()[0].expected(), None);
    assert_eq!(plan.steps()[1].action(), "read manifest");
    assert_eq!(plan.steps()[1].expected(), Some("axon"));
}

#[test]
fn blank_lines_and_surrounding_space_are_dropped() {
    let plan = parse_plan("\n  \t first  \r\n\n\u{3000}second=>  x => y \n   ");
    assert_eq!(plan.len(), 2);
    assert_eq!(plan.steps()[0].action(), "first");
    assert_eq!(plan.steps()[1].action(), "second");
    assert_eq!(plan.steps()[1].expected(), Some("x => y"));
    assert!(parse_plan("").is_empty());
    assert!(parse_plan(" \n \n").is_empty());
}

#[test]
fn a_line_splits_at_its_first_arrow() {
    let parsed = parse_step("=> only evidence");
    assert_eq!(parsed.action(), "");
    assert_eq!(parsed.expected(), Some("only evidence"));
    let parsed = parse_step("a =>");
    assert_eq!(parsed.action(), "a");
    assert_eq!(parsed.expected(), Some(""));
    let parsed = parse_step("no arrow = > here");
    assert_eq!(parsed.action(), "no arrow = > here");
    assert_eq!(parsed.expected(), None);
}

#[test]
fn an_exhausted_root_is_done() {
    let mut stack = PlanStack::new(Plan::new(vec![]));
    assert!(stack.is_done());
    assert!(stack.current().is_none());
    stack.expand(Plan::new(vec![step("late")]));
    assert_eq!(stack.depth(), 2);
    assert_eq!(stack.current().map(Step::action), Some("late"));
}
