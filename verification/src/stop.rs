use std::sync::Arc;
use std::sync::atomic::AtomicBool;
use std::sync::atomic::Ordering;

use vstd::prelude::*;

verus! {

/// A cloneable cooperative cancellation handle. All clones share one flag, so
/// stopping any clone halts every runtime watching it at its next step boundary.
#[derive(Debug, Clone, Default)]
pub struct StopToken {
    stopped: Arc<AtomicBool>,
}

impl StopToken {
    pub fn new() -> Self {
        StopToken { stopped: Arc::new(AtomicBool::new(false)) }
    }

    /// Request cancellation; idempotent and visible to every clone.
    pub fn stop(&self) {
        self.stopped.store(true, Ordering::SeqCst);
    }

    /// Whether any clone has requested cancellation.
    pub fn is_stopped(&self) -> bool {
        self.stopped.load(Ordering::SeqCst)
    }
}

} // verus!
