use vstd::prelude::*;

use crate::edge::EdgeId;
use crate::id::Endpoint;

verus! {

/// The bias a list of `(edge, delta)` entries assigns to `edge`: the first
/// matching entry's delta, or zero.
pub open spec fn bias_of(biases: Seq<((Endpoint, Seq<char>), i16)>, edge: (Endpoint, Seq<char>)) -> i16
    decreases biases.len(),
{
    if biases.len() == 0 {
        0
    } else if biases[0].0 == edge {
        biases[0].1
    } else {
        bias_of(biases.drop_first(), edge)
    }
}

/// A named, swappable set of per-edge weight biases. Applied to a routing
/// table it shifts which routes win without rewiring the graph.
#[derive(Debug, Clone, Default)]
pub struct RoutingProfile {
    biases: Vec<(EdgeId, i16)>,
}

impl RoutingProfile {
    pub fn new() -> (r: Self)
        ensures
            r@.len() == 0,
    {
        RoutingProfile { biases: Vec::new() }
    }

    /// Bias `edge`'s effective weight by `delta` under this profile (builder).
    /// An edge listed earlier keeps its earlier bias.
    pub fn bias(self, edge: EdgeId, delta: i16) -> (r: Self)
        ensures
            r@ == self@.push((edge@, delta)),
    {
        let mut biases = self.biases;
        biases.push((edge, delta));
        RoutingProfile { biases }
    }

    /// The bias this profile assigns to `edge` (zero if unlisted).
    pub fn get(&self, edge: &EdgeId) -> (r: i16)
        ensures
            r == bias_of(self@, edge@),
    {
        let mut i: usize = 0;
        assert(self@.skip(0) =~= self@);
        while i < self.biases.len()
            invariant
                i <= self.biases@.len(),
                bias_of(self@, edge@) == bias_of(self@.skip(i as int), edge@),
            decreases self.biases@.len() - i,
        {
            proof {
                assert(self@.skip(i as int).drop_first() =~= self@.skip(i + 1));
            }
            if self.biases[i].0.same(edge) {
                return self.biases[i].1;
            }
            i = i + 1;
        }
        0
    }
}

impl View for RoutingProfile {
    type V = Seq<((Endpoint, Seq<char>), i16)>;

    closed spec fn view(&self) -> Seq<((Endpoint, Seq<char>), i16)> {
        self.biases@.map_values(|b: (EdgeId, i16)| (b.0@, b.1))
    }
}

} // verus!
