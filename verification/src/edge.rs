use vstd::prelude::*;

use vstd::string::*;

use crate::id::{endpoint_text, Endpoint, EndpointId, ModuleId};

verus! {

/// The identity of a routing edge: a `(from, to)` pair. Reinforcement, learned
/// weight snapshots, profiles and stall detection all name an edge by it,
/// independently of the route's gate.
#[derive(Debug, Hash)]
pub struct EdgeId {
    from: EndpointId,
    to: ModuleId,
}

impl View for EdgeId {
    type V = (Endpoint, Seq<char>);

    closed spec fn view(&self) -> (Endpoint, Seq<char>) {
        (self.from@, self.to@)
    }
}

impl EdgeId {
    pub fn new(from: EndpointId, to: ModuleId) -> (r: Self)
        ensures
            r@ == (from@, to@),
    {
        EdgeId { from, to }
    }

    pub fn from(&self) -> (r: &EndpointId)
        ensures
            r@ == self@.0,
    {
        &self.from
    }

    pub fn to(&self) -> (r: &ModuleId)
        ensures
            r@ == self@.1,
    {
        &self.to
    }

    /// The edge as text: its source, ` -> `, and its target.
    pub fn to_string(&self) -> (r: String)
        ensures
            r@ == endpoint_text(self@.0) + " -> "@ + self@.1,
    {
        let mut s = self.from.to_string();
        s.append(" -> ");
        s.append(self.to.as_str());
        s
    }

    /// Whether two edge ids name the same edge.
    pub fn same(&self, other: &EdgeId) -> (r: bool)
        ensures
            r == (self@ == other@),
    {
        self.from.same(&other.from) && self.to.same(&other.to)
    }
}

impl Clone for EdgeId {
    fn clone(&self) -> (r: Self)
        ensures
            r@ == self@,
    {
        EdgeId { from: self.from.clone(), to: self.to.clone() }
    }
}

impl PartialEq for EdgeId {
    fn eq(&self, other: &Self) -> (r: bool) {
        self.same(other)
    }
}

impl vstd::std_specs::cmp::PartialEqSpecImpl for EdgeId {
    open spec fn obeys_eq_spec() -> bool {
        true
    }

    open spec fn eq_spec(&self, other: &Self) -> bool {
        self@ == other@
    }
}

impl Eq for EdgeId {

}

} // verus!
