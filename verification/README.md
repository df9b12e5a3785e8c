# axon

A typed signal-routing core for agentic systems, verified with Verus.

Signals travel along gated, weighted routes between registered modules. A
runtime drives a signal from an input until a module stops or drops it, no
route fires, the run is halted, or the step limit is reached. Around that core
sit the selection disciplines (plain argmax with inhibition, a NoGo margin,
ranked fan-out), routing profiles, integer learning with homeostatic scaling
and snapshots, a bounded working memory, a replay buffer, plan stacks and plan
parsing, and the executive's decision rules.

Layout:

- `src/` — the library. Every function carries a contract proved by Verus;
  `src/laws.rs` states and proves the properties that relate several
  operations (profiles, snapshots, homeostasis, fan-out ranking, run limits,
  the event stream, working memory).
- `tests/` — executable tests of the library.
- `app/` — what the library leaves to its host: awaiting asynchronous modules
  (the library's `AsyncRuntime` makes every routing decision), the
  floating-point learning rules and stochastic selection, JSON persistence of
  learned weights, and the floating-point risk appraisal.
