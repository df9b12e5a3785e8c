use vstd::prelude::*;

use crate::id::ModuleId;
use crate::module::{Module, ModuleError, ModuleOutput};
use crate::signal::Signal;

verus! {

/// How many of `answers` are `true`.
pub open spec fn count_true(answers: Seq<bool>) -> nat
    decreases answers.len(),
{
    if answers.len() == 0 {
        0
    } else {
        count_true(answers.drop_last()) + if answers.last() {
            1nat
        } else {
            0nat
        }
    }
}

/// One dendritic branch: decides whether it fires for a signal.
pub trait Branch<P> {
    /// This branch can answer for `signal`.
    spec fn accepts(&self, signal: &Signal<P>) -> bool;

    /// `answer` is an answer this branch may give for `signal`.
    spec fn may_answer(&self, signal: &Signal<P>, answer: bool) -> bool;

    fn fires(&self, signal: &Signal<P>) -> (r: bool)
        requires
            self.accepts(signal),
        ensures
            self.may_answer(signal, r),
    ;
}

/// A branch backed by a predicate over signals.
struct FnBranch<F> {
    predicate: F,
}

impl<P, F: Fn(&Signal<P>) -> bool> Branch<P> for FnBranch<F> {
    closed spec fn accepts(&self, signal: &Signal<P>) -> bool {
        call_requires(self.predicate, (signal,))
    }

    closed spec fn may_answer(&self, signal: &Signal<P>, answer: bool) -> bool {
        call_ensures(self.predicate, (signal,), answer)
    }

    fn fires(&self, signal: &Signal<P>) -> (r: bool) {
        (self.predicate)(signal)
    }
}

/// A branch as the module keeps it.
#[verifier::reject_recursive_types(P)]
struct BranchSlot<P> {
    branch: Box<dyn Branch<P>>,
}

impl<P> BranchSlot<P> {
    fn new<F: Fn(&Signal<P>) -> bool + 'static>(predicate: F) -> (r: Self)
        ensures
            forall|s: Signal<P>| r.branch.accepts(&s) <==> call_requires(predicate, (&s,)),
            forall|s: Signal<P>, b: bool| r.branch.may_answer(&s, b) <==> call_ensures(predicate, (&s,), b),
    {
        BranchSlot { branch: Box::new(FnBranch { predicate }) }
    }
}

/// A multi-compartment ("dendritic") module: it passes a signal on only when
/// at least `threshold` of its branches fire for it, and drops it otherwise.
#[verifier::reject_recursive_types(P)]
pub struct CompartmentModule<P> {
    id: ModuleId,
    branches: Vec<BranchSlot<P>>,
    threshold: usize,
}

impl<P> CompartmentModule<P> {
    #[verifier::type_invariant]
    spec fn answering(self) -> bool {
        forall|i: int, s: Signal<P>| 0 <= i < self.branches@.len() ==> #[trigger] self.branches@[i].branch.accepts(&s)
    }

    pub closed spec fn spec_id(&self) -> Seq<char> {
        self.id@
    }

    pub closed spec fn spec_threshold(&self) -> usize {
        self.threshold
    }

    /// The branch predicates, in the order they were added.
    pub closed spec fn spec_branches(&self) -> Seq<Box<dyn Branch<P>>> {
        self.branches@.map_values(|b: BranchSlot<P>| b.branch)
    }

    /// A module that passes a signal on only when at least `threshold` of its
    /// branches fire.
    pub fn new(id: ModuleId, threshold: usize) -> (r: Self)
        ensures
            r.spec_id() == id@,
            r.spec_threshold() == threshold,
            r.spec_branches().len() == 0,
    {
        CompartmentModule { id, branches: Vec::new(), threshold }
    }

    /// Add a dendritic branch: a predicate over the incoming signal, which
    /// must answer for every signal.
    pub fn with_branch<F: Fn(&Signal<P>) -> bool + 'static>(self, branch: F) -> (r: Self)
        requires
            forall|s: Signal<P>| call_requires(branch, (&s,)),
        ensures
            r.spec_id() == self.spec_id(),
            r.spec_threshold() == self.spec_threshold(),
            r.spec_branches().len() == self.spec_branches().len() + 1,
            r.spec_branches().drop_last() == self.spec_branches(),
            forall|s: Signal<P>, b: bool| r.spec_branches().last().may_answer(&s, b) <==> call_ensures(branch, (&s,), b),
    {
        proof {
            use_type_invariant(&self);
        }
        let CompartmentModule { id, branches, threshold } = self;
        let mut branches = branches;
        let ghost before = branches@;
        let slot = BranchSlot::new(branch);
        branches.push(slot);
        assert(branches@.drop_last() =~= before);
        assert(branches@.map_values(|b: BranchSlot<P>| b.branch).drop_last() =~= before.map_values(|b: BranchSlot<P>| b.branch));
        CompartmentModule { id, branches, threshold }
    }

    pub fn branch_count(&self) -> (r: usize)
        ensures
            r == self.spec_branches().len(),
    {
        self.branches.len()
    }
}

impl<P> Module<P> for CompartmentModule<P> {
    open spec fn module_id(&self) -> Seq<char> {
        self.spec_id()
    }

    /// The signal passes unchanged when at least `threshold` branches may
    /// fire for it, and is dropped otherwise.
    open spec fn may_output(&self, signal: Signal<P>, out: Result<ModuleOutput<P>, ModuleError>) -> bool {
        exists|answers: Seq<bool>|
            {
                &&& answers.len() == self.spec_branches().len()
                &&& forall|i: int|
                    0 <= i < answers.len() ==> self.spec_branches()[i].may_answer(&signal, #[trigger] answers[i])
                &&& if count_true(answers) >= self.spec_threshold() {
                    out == Ok::<ModuleOutput<P>, ModuleError>(ModuleOutput::Emit(signal))
                } else {
                    out == Ok::<ModuleOutput<P>, ModuleError>(ModuleOutput::Drop)
                }
            }
    }

    fn id(&self) -> (r: &ModuleId) {
        &self.id
    }

    /// Asks every branch, in order; emits the signal unchanged when at least
    /// `threshold` fired, and drops it otherwise.
    fn handle(&mut self, signal: Signal<P>) -> (r: Result<ModuleOutput<P>, ModuleError>)
        ensures
            *final(self) == *old(self),
            exists|answers: Seq<bool>|
                {
                    &&& answers.len() == old(self).spec_branches().len()
                    &&& forall|i: int|
                        0 <= i < answers.len() ==> old(self).spec_branches()[i].may_answer(
                            &signal,
                            #[trigger] answers[i],
                        )
                    &&& if count_true(answers) >= old(self).spec_threshold() {
                        r == Ok::<ModuleOutput<P>, ModuleError>(ModuleOutput::Emit(signal))
                    } else {
                        r == Ok::<ModuleOutput<P>, ModuleError>(ModuleOutput::Drop)
                    }
                },
    {
        proof {
            use_type_invariant(&*self);
        }
        let ghost mut answers: Seq<bool> = Seq::empty();
        let mut fired: usize = 0;
        let mut i: usize = 0;
        while i < self.branches.len()
            invariant
                i <= self.branches@.len(),
                answers.len() == i,
                fired == count_true(answers),
                fired <= i,
                forall|k: int, s: Signal<P>| 0 <= k < self.branches@.len() ==> #[trigger] self.branches@[k].branch.accepts(&s),
                forall|k: int|
                    0 <= k < i ==> self.branches@[k].branch.may_answer(&signal, #[trigger] answers[k]),
            decreases self.branches@.len() - i,
        {
            let b = self.branches[i].branch.fires(&signal);
            proof {
                let prior = answers;
                answers = answers.push(b);
                assert(answers.drop_last() =~= prior);
            }
            if b {
                fired = fired + 1;
            }
            i = i + 1;
        }
        if fired >= self.threshold {
            Ok(ModuleOutput::emit_signal(signal))
        } else {
            Ok(ModuleOutput::drop())
        }
    }
}

} // verus!
