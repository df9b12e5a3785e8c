use vstd::prelude::*;
use vstd::string::*;

use crate::id::{endpoint_text, EndpointId, ModuleId};
use crate::text::{decimal, signed_decimal};
use crate::limit::StepLimit;
use crate::module::ModuleError;
use crate::routing::RoutingError;

verus! {

/// Why a runtime operation failed.
#[derive(Debug)]
pub enum RuntimeError {
    /// A module with this id is already registered.
    DuplicateModule { id: ModuleId },
    /// No module with this id is registered.
    MissingModule { id: ModuleId },
    /// Selection could not decide.
    Routing(RoutingError),
    /// Module `id` reported a failure.
    Module { id: ModuleId, source: ModuleError },
    /// The run used up its step limit while at `at`.
    StepLimitExceeded { limit: StepLimit, at: EndpointId },
}

impl RuntimeError {
    /// A human-readable account of the error.
    pub fn to_string(&self) -> (r: String)
        ensures
            match self {
                RuntimeError::DuplicateModule { id } => r@ == "module "@ + id@ + " is already registered"@,
                RuntimeError::MissingModule { id } => r@ == "module "@ + id@ + " is not registered"@,
                RuntimeError::Routing(RoutingError::AmbiguousRoute { from, weight }) => r@
                    == "routing failed: ambiguous admitted routes from "@ + endpoint_text(from@) + " at weight "@
                    + signed_decimal(weight.get() as int),
                RuntimeError::Module { id, source } => r@ == "module "@ + id@ + " failed: "@
                    + source.spec_message(),
                RuntimeError::StepLimitExceeded { limit, at } => r@ == "step limit "@ + decimal(
                    limit.get() as nat,
                ) + " exceeded at "@ + endpoint_text(at@),
            },
    {
        match self {
            RuntimeError::DuplicateModule { id } => {
                let mut s = String::from_str("module ");
                s.append(id.as_str());
                s.append(" is already registered");
                s
            },
            RuntimeError::MissingModule { id } => {
                let mut s = String::from_str("module ");
                s.append(id.as_str());
                s.append(" is not registered");
                s
            },
            RuntimeError::Routing(source) => {
                let mut s = String::from_str("routing failed: ");
                let inner = source.to_string();
                s.append(inner.as_str());
                proof {
                    reveal_strlit("routing failed: ");
                    reveal_strlit("routing failed: ambiguous admitted routes from ");
                    reveal_strlit("ambiguous admitted routes from ");
                }
                assert(s@ =~= "routing failed: "@ + inner@);
                s
            },
            RuntimeError::Module { id, source } => {
                let mut s = String::from_str("module ");
                s.append(id.as_str());
                s.append(" failed: ");
                s.append(source.message());
                s
            },
            RuntimeError::StepLimitExceeded { limit, at } => {
                let mut s = String::from_str("step limit ");
                let l = limit.to_string();
                s.append(l.as_str());
                s.append(" exceeded at ");
                let a = at.to_string();
                s.append(a.as_str());
                s
            },
        }
    }
}

impl From<RoutingError> for RuntimeError {
    fn from(source: RoutingError) -> (r: Self) {
        RuntimeError::Routing(source)
    }
}

impl vstd::std_specs::convert::FromSpecImpl<RoutingError> for RuntimeError {
    open spec fn obeys_from_spec() -> bool {
        true
    }

    open spec fn from_spec(v: RoutingError) -> Self {
        RuntimeError::Routing(v)
    }
}

} // verus!
