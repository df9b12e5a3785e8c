use vstd::prelude::*;
use vstd::string::*;

use crate::id::ModuleId;
use crate::signal::Signal;

verus! {

/// What a module does with a signal it handled.
#[derive(Debug, Clone, PartialEq, Eq)]
pub enum ModuleOutput<P> {
    /// Continue routing from this module with the given signal.
    Emit(Signal<P>),
    /// End the run with this final signal.
    Stop(Signal<P>),
    /// End the run, discarding the signal.
    Drop,
}

impl<P> ModuleOutput<P> {
    /// Continue routing with `payload` at the default priority and phase.
    pub fn emit(payload: P) -> (r: Self)
        ensures
            r matches ModuleOutput::Emit(s) && s.spec_payload() == payload && s.spec_priority().get()
                == 0 && s.spec_phase().get() == 0,
    {
        ModuleOutput::Emit(Signal::new(payload))
    }

    /// Stop the run with `payload` at the default priority and phase.
    pub fn stop(payload: P) -> (r: Self)
        ensures
            r matches ModuleOutput::Stop(s) && s.spec_payload() == payload && s.spec_priority().get()
                == 0 && s.spec_phase().get() == 0,
    {
        ModuleOutput::Stop(Signal::new(payload))
    }

    pub fn emit_signal(signal: Signal<P>) -> (r: Self)
        ensures
            r == ModuleOutput::Emit(signal),
    {
        ModuleOutput::Emit(signal)
    }

    pub fn stop_signal(signal: Signal<P>) -> (r: Self)
        ensures
            r == ModuleOutput::Stop(signal),
    {
        ModuleOutput::Stop(signal)
    }

    /// Discard the signal and end the run.
    pub fn drop() -> (r: Self)
        ensures
            r is Drop,
    {
        ModuleOutput::Drop
    }
}

/// A failure reported by a module.
#[derive(Debug, Clone, PartialEq, Eq)]
pub struct ModuleError {
    message: String,
}

impl ModuleError {
    pub fn new(message: &str) -> (r: Self)
        ensures
            r.spec_message() == message@,
    {
        ModuleError { message: String::from_str(message) }
    }

    pub closed spec fn spec_message(&self) -> Seq<char> {
        self.message@
    }

    pub fn message(&self) -> (r: &str)
        ensures
            r@ == self.spec_message(),
    {
        self.message.as_str()
    }
}

/// A routing node: it has an identity and handles the signals routed to it.
pub trait Module<P> {
    /// The id this module reports.
    spec fn module_id(&self) -> Seq<char>;

    /// `out` is an outcome this module may report for `signal`, now and after
    /// any handling; unless a module says otherwise, any outcome.
    closed spec fn may_output(&self, signal: Signal<P>, out: Result<ModuleOutput<P>, ModuleError>) -> bool {
        true
    }

    fn id(&self) -> (r: &ModuleId)
        ensures
            r@ == self.module_id(),
    ;

    fn handle(&mut self, signal: Signal<P>) -> (r: Result<ModuleOutput<P>, ModuleError>)
        ensures
            old(self).may_output(signal, r),
            forall|s: Signal<P>, o: Result<ModuleOutput<P>, ModuleError>|
                #[trigger] final(self).may_output(s, o) == old(self).may_output(s, o),
    ;
}

/// A module backed by a function of the incoming signal.
#[verifier::reject_recursive_types(P)]
pub struct FnModule<P, F: Fn(Signal<P>) -> Result<ModuleOutput<P>, ModuleError>> {
    id: ModuleId,
    handler: F,
    payload: core::marker::PhantomData<P>,
}

impl<P, F: Fn(Signal<P>) -> Result<ModuleOutput<P>, ModuleError>> FnModule<P, F> {
    #[verifier::type_invariant]
    spec fn callable(self) -> bool {
        forall|s: Signal<P>| call_requires(self.handler, (s,))
    }

    /// A module named `id` that handles each signal with `handler`, which must
    /// accept every signal.
    pub fn new(id: ModuleId, handler: F) -> (r: Self)
        requires
            forall|s: Signal<P>| call_requires(handler, (s,)),
        ensures
            r.spec_id() == id@,
            r.spec_handler() == handler,
    {
        FnModule { id, handler, payload: core::marker::PhantomData }
    }

    pub closed spec fn spec_id(&self) -> Seq<char> {
        self.id@
    }

    pub closed spec fn spec_handler(&self) -> F {
        self.handler
    }
}

/// A function module may report exactly what its handler may return.
pub proof fn lemma_fn_module_outputs<P, F: Fn(Signal<P>) -> Result<ModuleOutput<P>, ModuleError>>(
    module: FnModule<P, F>,
    signal: Signal<P>,
    out: Result<ModuleOutput<P>, ModuleError>,
)
    ensures
        module.may_output(signal, out) == call_ensures(module.spec_handler(), (signal,), out),
{
}

impl<P, F: Fn(Signal<P>) -> Result<ModuleOutput<P>, ModuleError>> Module<P> for FnModule<P, F> {
    open spec fn module_id(&self) -> Seq<char> {
        self.spec_id()
    }

    /// What the handler may return for the signal.
    open spec fn may_output(&self, signal: Signal<P>, out: Result<ModuleOutput<P>, ModuleError>) -> bool {
        call_ensures(self.spec_handler(), (signal,), out)
    }

    fn id(&self) -> (r: &ModuleId) {
        &self.id
    }

    fn handle(&mut self, signal: Signal<P>) -> (r: Result<ModuleOutput<P>, ModuleError>)
        ensures
            call_ensures(old(self).spec_handler(), (signal,), r),
            *final(self) == *old(self),
    {
        proof {
            use_type_invariant(&*self);
        }
        (self.handler)(signal)
    }
}

} // verus!
