use vstd::prelude::*;

use crate::text::{push_signed, signed_decimal};

use crate::edge::EdgeId;
use crate::gate::{Allow, Gate};
use crate::id::{Endpoint, EndpointId, ModuleId};
use crate::signal::Signal;

verus! {

/// Clamp an integer into the `i16` range, as the saturating `i16` operations do.
pub open spec fn clamp16(x: int) -> int {
    if x < -32768 {
        -32768
    } else if x > 32767 {
        32767
    } else {
        x
    }
}

/// `a.saturating_add(b)` on `i16`.
pub fn sat_add16(a: i16, b: i16) -> (r: i16)
    ensures
        r == clamp16(a + b),
{
    let s: i32 = a as i32 + b as i32;
    if s < -32768 {
        -32768
    } else if s > 32767 {
        32767
    } else {
        s as i16
    }
}

/// `a.saturating_sub(b)` on `i16`.
pub fn sat_sub16(a: i16, b: i16) -> (r: i16)
    ensures
        r == clamp16(a - b),
{
    let s: i32 = a as i32 - b as i32;
    if s < -32768 {
        -32768
    } else if s > 32767 {
        32767
    } else {
        s as i16
    }
}

/// The static strength of a route.
#[derive(Debug, Clone, Copy, PartialEq, Eq, Structural, PartialOrd, Ord, Hash)]
pub struct Weight(i16);

impl Weight {
    pub fn new(value: i16) -> (r: Self)
        ensures
            r.get() == value,
    {
        Weight(value)
    }

    pub closed spec fn spec_get(self) -> i16 {
        self.0
    }

    #[verifier::when_used_as_spec(spec_get)]
    pub fn get(self) -> (r: i16)
        ensures
            r == self.spec_get(),
    {
        self.0
    }

    /// The weight as signed decimal text.
    pub fn to_string(self) -> (r: String)
        ensures
            r@ == signed_decimal(self.get() as int),
    {
        let mut s = String::new();
        push_signed(&mut s, self.0 as i64);
        s
    }
}

impl Default for Weight {
    fn default() -> (r: Self)
        ensures
            r.get() == 0,
    {
        Weight(0)
    }
}

/// What traversing a route spends from a run's budget.
#[derive(Debug, Clone, Copy, PartialEq, Eq, Structural, PartialOrd, Ord, Hash)]
pub struct Cost(u32);

impl Cost {
    pub fn new(value: u32) -> (r: Self)
        ensures
            r.get() == value,
    {
        Cost(value)
    }

    pub closed spec fn spec_get(self) -> u32 {
        self.0
    }

    #[verifier::when_used_as_spec(spec_get)]
    pub fn get(self) -> (r: u32)
        ensures
            r == self.spec_get(),
    {
        self.0
    }
}

impl Default for Cost {
    fn default() -> (r: Self)
        ensures
            r.get() == 0,
    {
        Cost(0)
    }
}

/// Whether an admitted route competes to fire (excitatory) or suppresses the
/// competition from its source (inhibitory).
#[derive(Debug, Clone, Copy, PartialEq, Eq, Structural, Hash)]
pub enum Sign {
    Excitatory,
    Inhibitory,
}

/// The abstract value of a route: everything but its gate.
pub struct RouteView {
    pub from: Endpoint,
    pub to: Seq<char>,
    pub base: i16,
    pub learned: i16,
    pub bias: i16,
    pub sign: Sign,
    pub cost: u32,
}

impl RouteView {
    /// The effective weight: the static weight plus the learned component plus
    /// the active profile's bias, each addition saturating in `i16`.
    pub open spec fn weight(self) -> int {
        clamp16(clamp16(self.base + self.learned) + self.bias)
    }

    pub open spec fn edge(self) -> (Endpoint, Seq<char>) {
        (self.from, self.to)
    }

    pub open spec fn excitatory(self) -> bool {
        self.sign == Sign::Excitatory
    }
}

/// A gate as a route holds it.
struct Held<G> {
    gate: G,
}

impl<P, G: Gate<P>> Gate<P> for Held<G> {
    closed spec fn may_admit(&self, signal: &Signal<P>, answer: bool) -> bool {
        self.gate.may_admit(signal, answer)
    }

    fn admits(&self, signal: &Signal<P>) -> (r: bool) {
        self.gate.admits(signal)
    }
}

/// Routes `a` and `b` have gates that may give the same answers.
pub open spec fn same_gate<P>(a: &Route<P>, b: &Route<P>) -> bool {
    forall|s: Signal<P>, x: bool| #[trigger] a.gate_may_admit(&s, x) == b.gate_may_admit(&s, x)
}

/// A directed, weighted, gated edge from an endpoint to a module.
#[verifier::reject_recursive_types(P)]
pub struct Route<P> {
    from: EndpointId,
    to: ModuleId,
    base: Weight,
    learned: i16,
    bias: i16,
    sign: Sign,
    cost: Cost,
    gate: Box<dyn Gate<P>>,
}

impl<P> View for Route<P> {
    type V = RouteView;

    closed spec fn view(&self) -> RouteView {
        RouteView {
            from: self.from@,
            to: self.to@,
            base: self.base.get(),
            learned: self.learned,
            bias: self.bias,
            sign: self.sign,
            cost: self.cost.get(),
        }
    }
}

impl<P> Route<P> {
    /// An excitatory, cost-free route with nothing learned and no bias.
    pub fn new<G: Gate<P> + 'static>(from: EndpointId, to: ModuleId, weight: Weight, gate: G) -> (r: Self)
        ensures
            r@ == (RouteView {
                from: from@,
                to: to@,
                base: weight.get(),
                learned: 0,
                bias: 0,
                sign: Sign::Excitatory,
                cost: 0,
            }),
            forall|s: Signal<P>, a: bool| #[trigger] r.gate_may_admit(&s, a) == gate.may_admit(&s, a),
    {
        Route {
            from,
            to,
            base: weight,
            learned: 0,
            bias: 0,
            sign: Sign::Excitatory,
            cost: Cost(0),
            gate: Box::new(Held { gate }),
        }
    }

    /// A route that admits every signal.
    pub fn open(from: EndpointId, to: ModuleId, weight: Weight) -> (r: Self)
        ensures
            r@ == (RouteView {
                from: from@,
                to: to@,
                base: weight.get(),
                learned: 0,
                bias: 0,
                sign: Sign::Excitatory,
                cost: 0,
            }),
            forall|s: Signal<P>, a: bool| #[trigger] r.gate_may_admit(&s, a) == a,
    {
        Route::new(from, to, weight, Allow)
    }

    /// The same route with the given sign.
    pub fn with_sign(self, sign: Sign) -> (r: Self)
        ensures
            r@ == (RouteView { sign, ..self@ }),
            same_gate(&r, &self),
    {
        Route { sign, ..self }
    }

    /// The same route with the given traversal cost.
    pub fn with_cost(self, cost: Cost) -> (r: Self)
        ensures
            r@ == (RouteView { cost: cost.get(), ..self@ }),
            same_gate(&r, &self),
    {
        Route { cost, ..self }
    }

    pub fn from(&self) -> (r: &EndpointId)
        ensures
            r@ == self@.from,
    {
        &self.from
    }

    pub fn to(&self) -> (r: &ModuleId)
        ensures
            r@ == self@.to,
    {
        &self.to
    }

    /// The effective weight that selection competes on.
    pub fn weight(&self) -> (r: Weight)
        ensures
            r.get() == self@.weight(),
    {
        Weight(sat_add16(sat_add16(self.base.get(), self.learned), self.bias))
    }

    /// The static weight the route was wired with.
    pub fn base_weight(&self) -> (r: Weight)
        ensures
            r.get() == self@.base,
    {
        self.base
    }

    /// The learned (plastic) component of the weight.
    pub fn learned(&self) -> (r: i16)
        ensures
            r == self@.learned,
    {
        self.learned
    }

    /// The bias the active routing profile assigns.
    pub fn bias(&self) -> (r: i16)
        ensures
            r == self@.bias,
    {
        self.bias
    }

    pub fn sign(&self) -> (r: Sign)
        ensures
            r == self@.sign,
    {
        self.sign
    }

    pub fn is_excitatory(&self) -> (r: bool)
        ensures
            r == self@.excitatory(),
    {
        match self.sign {
            Sign::Excitatory => true,
            Sign::Inhibitory => false,
        }
    }

    pub fn cost(&self) -> (r: Cost)
        ensures
            r.get() == self@.cost,
    {
        self.cost
    }

    /// This route's `(from, to)` edge identity.
    pub fn edge(&self) -> (r: EdgeId)
        ensures
            r@ == self@.edge(),
    {
        EdgeId::new(self.from.clone(), self.to.clone())
    }

    /// `answer` is an answer this route's gate may give for `signal`.
    pub closed spec fn gate_may_admit(&self, signal: &Signal<P>, answer: bool) -> bool {
        self.gate.may_admit(signal, answer)
    }

    /// Whether this route lets `signal` through: the answer of its gate.
    pub fn admits(&self, signal: &Signal<P>) -> (r: bool)
        ensures
            self.gate_may_admit(signal, r),
    {
        self.gate.admits(signal)
    }

    /// Whether this route runs along `edge`.
    pub fn on_edge(&self, edge: &EdgeId) -> (r: bool)
        ensures
            r == (self@.edge() == edge@),
    {
        let from = self.from.same(edge.from());
        let to = self.to.same(edge.to());
        proof {
            if from && to {
                assert(self@.edge() == edge@);
            }
        }
        from && to
    }

    /// Add `delta` to the learned weight, saturating.
    pub fn reinforce(&mut self, delta: i16)
        ensures
            final(self)@ == (RouteView { learned: clamp16(old(self)@.learned + delta) as i16, ..old(self)@ }),
            same_gate(final(self), old(self)),
    {
        self.learned = sat_add16(self.learned, delta);
    }

    pub fn set_learned(&mut self, learned: i16)
        ensures
            final(self)@ == (RouteView { learned, ..old(self)@ }),
            same_gate(final(self), old(self)),
    {
        self.learned = learned;
    }

    pub fn set_bias(&mut self, bias: i16)
        ensures
            final(self)@ == (RouteView { bias, ..old(self)@ }),
            same_gate(final(self), old(self)),
    {
        self.bias = bias;
    }
}

} // verus!
