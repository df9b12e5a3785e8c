use vstd::prelude::*;
use vstd::string::*;

use crate::text::{decimal, joined, push_decimal};

verus! {

/// The neuromodulatory operating mode the executive reads.
#[derive(Debug, Clone, Copy, PartialEq, Eq, Structural)]
pub enum Mode {
    Baseline,
    Focused,
    Salient,
    Exploratory,
}

/// A verifier's verdict on one observation, as the executive reads it: the
/// outcome matched, the step should be retried for `reason`, or the outcome
/// contradicted the prediction for `action`.
#[derive(Debug, Clone, PartialEq, Eq)]
pub enum Correction {
    Proceed,
    Retry { reason: String },
    Escalate { action: String },
}

/// What the executive decides after an observation.
#[derive(Debug, Clone, PartialEq, Eq)]
pub enum Decision {
    Continue,
    Retry { reason: String },
    Escalate { reason: String },
    AskUser { question: String },
}

/// Why executing a plan step failed.
#[derive(Debug, Clone, Copy, PartialEq, Eq, Structural)]
pub enum ExecError {
    /// The plan has no step at `index`.
    MissingStep { index: usize },
}

impl ExecError {
    /// A human-readable account of the error.
    pub fn to_string(&self) -> (r: String)
        ensures
            match *self {
                ExecError::MissingStep { index } => r@ == "plan has no step at index "@ + decimal(
                    index as nat,
                ),
            },
    {
        match *self {
            ExecError::MissingStep { index } => {
                let mut s = String::from_str("plan has no step at index ");
                push_decimal(&mut s, index as u64);
                s
            },
        }
    }
}

/// Map a verifier's correction onto a decision under `mode`: a match
/// continues, a retry stays a retry, and a contradiction is retried when
/// exploring and escalated otherwise.
pub fn decide(correction: Correction, mode: Mode) -> (r: Decision)
    ensures
        match correction {
            Correction::Proceed => r is Continue,
            Correction::Retry { reason } => r matches Decision::Retry { reason: q } && q@ == reason@,
            Correction::Escalate { action } => if mode == Mode::Exploratory {
                r matches Decision::Retry { reason: q } && q@ == "retry after mismatch in "@ + action@
            } else {
                r matches Decision::Escalate { reason: q } && q@ == "prediction mismatch in "@ + action@
            },
        },
{
    match correction {
        Correction::Proceed => Decision::Continue,
        Correction::Retry { reason } => Decision::Retry { reason },
        Correction::Escalate { action } => match mode {
            Mode::Exploratory => Decision::Retry { reason: joined("retry after mismatch in ", action.as_str()) },
            _ => Decision::Escalate { reason: joined("prediction mismatch in ", action.as_str()) },
        },
    }
}

/// The planning prompt for `goal`.
pub fn plan_prompt(goal: &str) -> (r: String)
    ensures
        r@ == "Decompose this goal into one concrete action per line: "@ + goal@,
{
    joined("Decompose this goal into one concrete action per line: ", goal)
}

/// The reason a step is retried for after `correction`, when it is retried.
pub open spec fn retry_reason(correction: Correction) -> Seq<char> {
    match correction {
        Correction::Retry { reason } => reason@,
        Correction::Escalate { action } => "retry after mismatch in "@ + action@,
        Correction::Proceed => Seq::empty(),
    }
}

/// The message of a step abandoned after `max_retries` retries for `reason`.
pub open spec fn abandon_message(step: usize, max_retries: u32, reason: Seq<char>) -> Seq<char> {
    "abandoned step "@ + decimal(step as nat) + " after "@ + decimal(max_retries as nat) + " retries: "@
        + reason
}

/// What the executive hands back to the loop after an observation.
#[derive(Debug, Clone, PartialEq, Eq)]
pub enum Verdict {
    /// Release the planner to plan step `next`.
    Advance { next: usize },
    /// Ask the planner for a fresh plan after a severe mismatch at `step`.
    Replan { step: usize, reason: String },
    /// Stop the loop for `reason`.
    Halt { reason: String },
}

/// How many times one failing step is retried before it is abandoned, by
/// default.
pub const DEFAULT_MAX_RETRIES: u32 = 2;

/// The executive's perseveration guard: it counts consecutive retries of the
/// same step and abandons the step once `max_retries` is exceeded.
#[derive(Debug, Clone, Copy, PartialEq, Eq, Structural)]
pub struct RetryPolicy {
    max_retries: u32,
    last_retry_step: Option<usize>,
    retry_count: u32,
}

impl RetryPolicy {
    pub closed spec fn spec_max_retries(self) -> u32 {
        self.max_retries
    }

    /// The step retried last, if the retry history is not clear.
    pub closed spec fn spec_last_step(self) -> Option<usize> {
        self.last_retry_step
    }

    /// How many times in a row the last step was retried.
    pub closed spec fn spec_count(self) -> u32 {
        self.retry_count
    }

    /// A guard allowing `max_retries` retries of one step, with a clear history.
    pub fn new(max_retries: u32) -> (r: Self)
        ensures
            r.spec_max_retries() == max_retries,
            r.spec_last_step() is None,
            r.spec_count() == 0,
    {
        RetryPolicy { max_retries, last_retry_step: None, retry_count: 0 }
    }

    pub fn max_retries(&self) -> (r: u32)
        ensures
            r == self.spec_max_retries(),
    {
        self.max_retries
    }

    /// Clear the retry history.
    pub fn reset(&mut self)
        ensures
            final(self).spec_max_retries() == old(self).spec_max_retries(),
            final(self).spec_last_step() is None,
            final(self).spec_count() == 0,
    {
        self.last_retry_step = None;
        self.retry_count = 0;
    }

    /// Retry `step`, or abandon it once it has been retried `max_retries`
    /// times in a row.
    pub fn retry_or_abandon(&mut self, step: usize, reason: String) -> (r: Verdict)
        ensures
            final(self).spec_max_retries() == old(self).spec_max_retries(),
            ({
                let count = if old(self).spec_last_step() == Some(step) {
                    if old(self).spec_count() == u32::MAX {
                        u32::MAX as int
                    } else {
                        old(self).spec_count() + 1
                    }
                } else {
                    1
                };
                if count > old(self).spec_max_retries() {
                    &&& final(self).spec_last_step() is None
                    &&& final(self).spec_count() == 0
                    &&& r matches Verdict::Halt { reason: q } && q@ == abandon_message(
                        step,
                        old(self).spec_max_retries(),
                        reason@,
                    )
                } else {
                    &&& final(self).spec_last_step() == Some(step)
                    &&& final(self).spec_count() == count
                    &&& r == Verdict::Advance { next: step }
                }
            }),
    {
        self.retry_count = if self.last_retry_step == Some(step) {
            self.retry_count.saturating_add(1)
        } else {
            1
        };
        self.last_retry_step = Some(step);
        if self.retry_count > self.max_retries {
            self.reset();
            let mut s = String::from_str("abandoned step ");
            push_decimal(&mut s, step as u64);
            s.append(" after ");
            push_decimal(&mut s, self.max_retries as u64);
            s.append(" retries: ");
            s.append(reason.as_str());
            Verdict::Halt { reason: s }
        } else {
            Verdict::Advance { next: step }
        }
    }

    /// The executive's verdict on the observation for `step`: a severe
    /// mismatch asks for a fresh plan; otherwise the correction is decided
    /// under `mode`, a success advances to the next step and clears the retry
    /// history, a retry goes through the perseveration guard, and an
    /// escalation halts. `severe` says whether the mismatch's weighted
    /// magnitude reached the replan threshold, when one is set.
    pub fn judge(&mut self, step: usize, correction: Correction, mode: Mode, severe: bool) -> (r: Verdict)
        ensures
            final(self).spec_max_retries() == old(self).spec_max_retries(),
            match correction {
                Correction::Escalate { action } => {
                    if severe {
                        &&& r matches Verdict::Replan { step: s, reason: q } && s == step && q@
                            == "severe mismatch in "@ + action@
                        &&& final(self).spec_last_step() is None
                        &&& final(self).spec_count() == 0
                    } else if mode == Mode::Exploratory {
                        r is Advance || r is Halt
                    } else {
                        &&& r matches Verdict::Halt { reason: q } && q@ == "prediction mismatch in "@
                            + action@
                        &&& *final(self) == *old(self)
                    }
                },
                Correction::Proceed => {
                    &&& r == Verdict::Advance {
                        next: if step == usize::MAX {
                            usize::MAX
                        } else {
                            (step + 1) as usize
                        },
                    }
                    &&& final(self).spec_last_step() is None
                    &&& final(self).spec_count() == 0
                },
                Correction::Retry { .. } => r is Advance || r is Halt,
            },
            (correction is Retry || (correction is Escalate && !severe && mode == Mode::Exploratory)) ==> {
                let count = if old(self).spec_last_step() == Some(step) {
                    if old(self).spec_count() == u32::MAX {
                        u32::MAX as int
                    } else {
                        old(self).spec_count() + 1
                    }
                } else {
                    1
                };
                if count > old(self).spec_max_retries() {
                    &&& final(self).spec_last_step() is None
                    &&& final(self).spec_count() == 0
                    &&& r matches Verdict::Halt { reason: q } && q@ == abandon_message(
                        step,
                        old(self).spec_max_retries(),
                        retry_reason(correction),
                    )
                } else {
                    &&& final(self).spec_last_step() == Some(step)
                    &&& final(self).spec_count() == count
                    &&& r == Verdict::Advance { next: step }
                }
            },
    {
        if severe {
            if let Correction::Escalate { action } = &correction {
                self.reset();
                return Verdict::Replan { step, reason: joined("severe mismatch in ", action.as_str()) };
            }
        }
        match decide(correction, mode) {
            Decision::Continue => {
                self.reset();
                Verdict::Advance { next: step.saturating_add(1) }
            },
            Decision::Retry { reason } => self.retry_or_abandon(step, reason),
            Decision::Escalate { reason } => Verdict::Halt { reason },
            Decision::AskUser { question } => Verdict::Halt { reason: question },
        }
    }
}

impl Default for RetryPolicy {
    fn default() -> (r: Self)
        ensures
            r.spec_max_retries() == DEFAULT_MAX_RETRIES,
            r.spec_last_step() is None,
            r.spec_count() == 0,
    {
        RetryPolicy::new(DEFAULT_MAX_RETRIES)
    }
}

} // verus!
