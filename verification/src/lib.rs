//! A typed signal-routing core: identifiers, signals, gated weighted routes,
//! a routing table with several selection disciplines, and a runtime that
//! drives registered modules until a stop, a drop, no route, or a limit.

pub mod agent;
pub mod breaker;
pub mod compartment;
pub mod edge;
pub mod error;
pub mod event;
pub mod exec;
pub mod gate;
pub mod graph;
pub mod id;
pub mod laws;
pub mod limit;
pub mod module;
pub mod plan;
pub mod plasticity;
pub mod profile;
pub mod replay;
pub mod report;
pub mod rng;
pub mod risk;
pub mod route;
pub mod routing;
pub mod runtime;
pub mod runtime_async;
pub mod signal;
pub mod stop;
pub mod text;
pub mod working_memory;

pub use breaker::CircuitBreaker;
pub use compartment::CompartmentModule;
pub use edge::EdgeId;
pub use error::RuntimeError;
pub use event::RunEvent;
pub use agent::{wire_loop, AgentSignal, OnAct, OnAdvance, OnGoal, OnObserve, OnReplan, Planner, RoutedTool};
pub use exec::{decide, plan_prompt, Correction, Decision, ExecError, Mode, RetryPolicy, Verdict};
pub use gate::{Allow, Disinhibit, DropSignal, Gate, MinPriority, PhaseGate, Release};
pub use graph::ModuleGraph;
pub use id::{EndpointId, IdError, InputId, ModuleId};
pub use limit::StepLimit;
pub use module::{FnModule, Module, ModuleError, ModuleOutput};
pub use plan::{parse_plan, parse_step, parse_steps, Plan, PlanStack, Step};
pub use plasticity::ProportionalPlasticity;
pub use profile::RoutingProfile;
pub use replay::ReplayBuffer;
pub use report::{RunReport, RunStatus, TraceStep};
pub use rng::{Rng, DEFAULT_SEED};
pub use risk::KeywordRisk;
pub use route::{Cost, Route, Sign, Weight};
pub use routing::{RoutingError, RoutingTable};
pub use runtime::Runtime;
pub use runtime_async::{AsyncResume, AsyncRun, AsyncRuntime, AsyncStep};
pub use signal::{Phase, Priority, Signal};
pub use stop::StopToken;
pub use working_memory::WorkingMemory;
