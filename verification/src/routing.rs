use vstd::prelude::*;
use vstd::string::*;

use crate::text::signed_decimal;

use crate::edge::EdgeId;
use crate::event::RunEvent;
use crate::graph::ModuleGraph;
use crate::profile::{bias_of, RoutingProfile};
use crate::id::{endpoint_text, lemma_lex_irreflexive, lemma_lex_total, lemma_lex_transitive, lex_lt, Endpoint, EndpointId};
use crate::route::{clamp16, same_gate, sat_sub16, Route, RouteView, Sign, Weight};
use crate::signal::Signal;

verus! {

/// Clamp an integer into the `i32` range, as `i32::saturating_add` does.
pub open spec fn clamp32(x: int) -> int {
    if x < -2147483648 {
        -2147483648
    } else if x > 2147483647 {
        2147483647
    } else {
        x
    }
}

/// Route `i` is excitatory, leaves `from`, and its gate admitted the signal
/// (`adm[i]`): it competes for selection.
pub open spec fn candidate(rs: Seq<RouteView>, from: Endpoint, adm: Seq<bool>, i: int) -> bool {
    &&& 0 <= i < rs.len()
    &&& i < adm.len()
    &&& rs[i].from == from
    &&& adm[i]
    &&& rs[i].excitatory()
}

/// Route `i` is inhibitory, leaves `from`, and was admitted: it suppresses
/// the competition instead of competing.
pub open spec fn inhibitor(rs: Seq<RouteView>, from: Endpoint, adm: Seq<bool>, i: int) -> bool {
    &&& 0 <= i < rs.len()
    &&& i < adm.len()
    &&& rs[i].from == from
    &&& adm[i]
    &&& !rs[i].excitatory()
}

/// The inhibition accumulated over the first `n` routes: the `i32`-saturating
/// sum of the admitted inhibitory weights from `from`, in table order.
pub open spec fn inhibition(rs: Seq<RouteView>, from: Endpoint, adm: Seq<bool>, n: int) -> int
    decreases n,
{
    if n <= 0 {
        0
    } else {
        let prev = inhibition(rs, from, adm, n - 1);
        if inhibitor(rs, from, adm, n - 1) {
            clamp32(prev + rs[n - 1].weight())
        } else {
            prev
        }
    }
}

/// The total inhibition on `from`.
pub open spec fn total_inhibition(rs: Seq<RouteView>, from: Endpoint, adm: Seq<bool>) -> int {
    inhibition(rs, from, adm, rs.len() as int)
}

/// Candidate `i` has the highest effective weight among all candidates.
pub open spec fn strongest(rs: Seq<RouteView>, from: Endpoint, adm: Seq<bool>, i: int) -> bool {
    &&& candidate(rs, from, adm, i)
    &&& forall|j: int| #[trigger] candidate(rs, from, adm, j) ==> rs[j].weight() <= rs[i].weight()
}

/// Candidate `i` is the first candidate of the highest effective weight.
pub open spec fn first_strongest(rs: Seq<RouteView>, from: Endpoint, adm: Seq<bool>, i: int) -> bool {
    &&& strongest(rs, from, adm, i)
    &&& forall|j: int| 0 <= j < i && #[trigger] candidate(rs, from, adm, j) ==> rs[j].weight()
        < rs[i].weight()
}

/// Inhibition vetoes a winner of weight `w` when it is positive and at least `w`.
pub open spec fn vetoed(rs: Seq<RouteView>, from: Endpoint, adm: Seq<bool>, w: int) -> bool {
    let inh = total_inhibition(rs, from, adm);
    inh > 0 && w <= inh
}

/// Plain selection picks route `i`: the unique strongest candidate, not vetoed.
pub open spec fn select_picks(rs: Seq<RouteView>, from: Endpoint, adm: Seq<bool>, i: int) -> bool {
    &&& strongest(rs, from, adm, i)
    &&& forall|j: int| #[trigger]
        candidate(rs, from, adm, j) && j != i ==> rs[j].weight() < rs[i].weight()
    &&& !vetoed(rs, from, adm, rs[i].weight())
}

/// Plain selection fires nothing: no candidate, or the strongest is vetoed.
pub open spec fn select_declines(rs: Seq<RouteView>, from: Endpoint, adm: Seq<bool>) -> bool {
    ||| forall|j: int| !#[trigger] candidate(rs, from, adm, j)
    ||| exists|i: int| #[trigger]
        strongest(rs, from, adm, i) && vetoed(rs, from, adm, rs[i].weight())
}

/// Plain selection is ambiguous at weight `w`: two distinct strongest
/// candidates share it and inhibition does not veto it.
pub open spec fn select_ambiguous(rs: Seq<RouteView>, from: Endpoint, adm: Seq<bool>, w: int) -> bool {
    &&& exists|i: int, j: int|
        i != j && #[trigger] strongest(rs, from, adm, i) && #[trigger] strongest(rs, from, adm, j)
            && rs[i].weight() == w
    &&& !vetoed(rs, from, adm, w)
}

/// What plain selection from `from` yields when the gates answered `adm`.
pub open spec fn select_outcome(
    rs: Seq<RouteView>,
    from: Endpoint,
    adm: Seq<bool>,
    r: Result<Option<usize>, RoutingError>,
) -> bool {
    match r {
        Ok(Some(i)) => select_picks(rs, from, adm, i as int),
        Ok(None) => select_declines(rs, from, adm),
        Err(RoutingError::AmbiguousRoute { from: f, weight }) => f@ == from && select_ambiguous(
            rs,
            from,
            adm,
            weight.get() as int,
        ),
    }
}

/// Candidate `i` wins under a NoGo `margin`: it is strictly stronger than
/// every other candidate and beats each by at least `margin` (the gap
/// computed with `i16` saturation). A tie is never a clear winner.
pub open spec fn margin_picks(rs: Seq<RouteView>, from: Endpoint, adm: Seq<bool>, margin: i16, i: int) -> bool {
    &&& first_strongest(rs, from, adm, i)
    &&& forall|j: int| #[trigger]
        candidate(rs, from, adm, j) && j != i ==> rs[j].weight() < rs[i].weight() && clamp16(
            rs[i].weight() - rs[j].weight(),
        ) >= margin
}

/// Selection under a NoGo `margin` fires nothing: there is no candidate, or
/// some other candidate ties the first strongest one or comes within
/// `margin` of it.
pub open spec fn margin_declines(rs: Seq<RouteView>, from: Endpoint, adm: Seq<bool>, margin: i16) -> bool {
    ||| forall|j: int| !#[trigger] candidate(rs, from, adm, j)
    ||| exists|i: int, j: int|
        #[trigger] first_strongest(rs, from, adm, i) && #[trigger] candidate(rs, from, adm, j) && j
            != i && (rs[j].weight() == rs[i].weight() || clamp16(rs[i].weight() - rs[j].weight())
            < margin)
}

/// Route `i` ranks before route `j` in fan-out order: higher effective weight
/// first, then the smaller target id, then table order.
pub open spec fn ranks_before(rs: Seq<RouteView>, i: int, j: int) -> bool {
    ||| rs[i].weight() > rs[j].weight()
    ||| rs[i].weight() == rs[j].weight() && lex_lt(rs[i].to, rs[j].to)
    ||| rs[i].weight() == rs[j].weight() && rs[i].to == rs[j].to && i < j
}

/// `idx` lists the top `limit` candidates in fan-out order: each a candidate,
/// strictly in rank order, and every candidate left out ranks after all that
/// were taken, which happens only once `limit` were taken.
pub open spec fn top_ranked(rs: Seq<RouteView>, from: Endpoint, adm: Seq<bool>, limit: usize, idx: Seq<usize>) -> bool {
    &&& idx.len() <= limit
    &&& forall|k: int| 0 <= k < idx.len() ==> candidate(rs, from, adm, #[trigger] idx[k] as int)
    &&& forall|k1: int, k2: int|
        0 <= k1 < k2 < idx.len() ==> ranks_before(rs, #[trigger] idx[k1] as int, #[trigger] idx[k2] as int)
    &&& forall|j: int|
        #[trigger] candidate(rs, from, adm, j) && !idx.contains(j as usize) ==> {
            &&& idx.len() == limit
            &&& forall|k: int| 0 <= k < idx.len() ==> ranks_before(rs, #[trigger] idx[k] as int, j)
        }
}

pub proof fn lemma_ranks_order(rs: Seq<RouteView>, i: int, j: int, k: int)
    ensures
        !ranks_before(rs, i, i),
        i != j ==> (ranks_before(rs, i, j) || ranks_before(rs, j, i)),
        !(ranks_before(rs, i, j) && ranks_before(rs, j, i)),
        ranks_before(rs, i, j) && ranks_before(rs, j, k) ==> ranks_before(rs, i, k),
{
    lemma_lex_irreflexive(rs[i].to);
    lemma_lex_total(rs[i].to, rs[j].to);
    if ranks_before(rs, i, j) && ranks_before(rs, j, k) {
        if lex_lt(rs[i].to, rs[j].to) && lex_lt(rs[j].to, rs[k].to) {
            lemma_lex_transitive(rs[i].to, rs[j].to, rs[k].to);
        }
    }
}

/// The total magnitude of learned weight: the sum of `|learned|` over routes.
pub open spec fn learned_total(rs: Seq<RouteView>) -> int
    decreases rs.len(),
{
    if rs.len() == 0 {
        0
    } else {
        learned_total(rs.drop_last()) + abs_int(rs.last().learned as int)
    }
}

pub open spec fn abs_int(x: int) -> int {
    if x < 0 {
        -x
    } else {
        x
    }
}

/// A learned weight `l` rescaled by `max_total / total`, rounded toward
/// zero so that the rescaled total stays within `max_total`.
pub open spec fn rescale(l: int, max_total: int, total: int) -> int {
    let q = (abs_int(l) * max_total) / total;
    if l < 0 {
        -q
    } else {
        q
    }
}

/// The learned weight an edge ends with after `snapshot` is restored over
/// `current`: the last entry for the edge, or `current` if there is none.
pub open spec fn restored(snapshot: Seq<((Endpoint, Seq<char>), i16)>, edge: (Endpoint, Seq<char>), current: i16) -> i16
    decreases snapshot.len(),
{
    if snapshot.len() == 0 {
        current
    } else if snapshot.last().0 == edge {
        snapshot.last().1
    } else {
        restored(snapshot.drop_last(), edge, current)
    }
}

/// The learned weight an edge ends with after the credits `deltas` are applied
/// in order to `current`, each addition saturating in `i16`.
pub open spec fn credited(deltas: Seq<((Endpoint, Seq<char>), i16)>, edge: (Endpoint, Seq<char>), current: i16) -> i16
    decreases deltas.len(),
{
    if deltas.len() == 0 {
        current
    } else {
        let prev = credited(deltas.drop_last(), edge, current);
        if deltas.last().0 == edge {
            clamp16(prev + deltas.last().1) as i16
        } else {
            prev
        }
    }
}

/// Some route runs along `edge`.
pub open spec fn has_edge(rs: Seq<RouteView>, edge: (Endpoint, Seq<char>)) -> bool {
    exists|i: int| 0 <= i < rs.len() && #[trigger] rs[i].edge() == edge
}

/// The credits that change something, in order: non-zero deltas on edges that
/// some route runs along. Each yields one `Reinforced` event.
pub open spec fn effective_credits(rs: Seq<RouteView>, deltas: Seq<((Endpoint, Seq<char>), i16)>) -> Seq<((Endpoint, Seq<char>), i16)>
    decreases deltas.len(),
{
    if deltas.len() == 0 {
        Seq::empty()
    } else {
        let prev = effective_credits(rs, deltas.drop_last());
        if deltas.last().1 != 0 && has_edge(rs, deltas.last().0) {
            prev.push(deltas.last())
        } else {
            prev
        }
    }
}

/// `event` reports the credit `c`.
pub open spec fn reports_credit(event: RunEvent, c: ((Endpoint, Seq<char>), i16)) -> bool {
    event matches RunEvent::Reinforced { edge, delta } && edge@ == c.0 && delta == c.1
}

/// `rs` with every bias taken from `biases` (zero for an unlisted edge).
pub open spec fn with_biases(rs: Seq<RouteView>, biases: Seq<((Endpoint, Seq<char>), i16)>) -> Seq<RouteView> {
    rs.map_values(|rv: RouteView| RouteView { bias: bias_of(biases, rv.edge()), ..rv })
}

/// `rs` with every bias back at zero.
pub open spec fn unbiased(rs: Seq<RouteView>) -> Seq<RouteView> {
    rs.map_values(|rv: RouteView| RouteView { bias: 0, ..rv })
}

/// The learned weight of every route, keyed by its edge, in table order.
pub open spec fn learned_snapshot(rs: Seq<RouteView>) -> Seq<((Endpoint, Seq<char>), i16)> {
    rs.map_values(|rv: RouteView| (rv.edge(), rv.learned))
}

/// `rs` after `snapshot` is restored over it.
pub open spec fn with_snapshot(rs: Seq<RouteView>, snapshot: Seq<((Endpoint, Seq<char>), i16)>) -> Seq<RouteView> {
    rs.map_values(|rv: RouteView| RouteView { learned: restored(snapshot, rv.edge(), rv.learned), ..rv })
}

/// `rs` after homeostatic scaling to `max_total`, given its saturated total
/// learned magnitude `total`.
pub open spec fn homeostasis(rs: Seq<RouteView>, max_total: int, total: int) -> Seq<RouteView> {
    if total <= max_total {
        rs
    } else {
        rs.map_values(|rv: RouteView| RouteView { learned: rescale(rv.learned as int, max_total, total) as i16, ..rv })
    }
}

/// The saturated total learned magnitude that `learned_magnitude` reports.
pub open spec fn saturated_total(rs: Seq<RouteView>) -> int {
    if learned_total(rs) > u64::MAX {
        u64::MAX as int
    } else {
        learned_total(rs)
    }
}

/// `adm` is a possible record of the gates' answers for a signal from `from`:
/// one answer per route, and only routes leaving `from` are asked.
pub open spec fn admission_record(rs: Seq<RouteView>, from: Endpoint, adm: Seq<bool>) -> bool {
    &&& adm.len() == rs.len()
    &&& forall|i: int| 0 <= i < adm.len() && #[trigger] adm[i] ==> rs[i].from == from
}

/// The routes of `a` have gates that may give the same answers as those at
/// the same places in `b`.
spec fn gates_kept<P>(a: Seq<Route<P>>, b: Seq<Route<P>>) -> bool {
    &&& a.len() == b.len()
    &&& forall|k: int, s: Signal<P>, x: bool|
        0 <= k < a.len() ==> #[trigger] a[k].gate_may_admit(&s, x) == b[k].gate_may_admit(&s, x)
}

/// An ordered collection of routes and the selection disciplines over them.
#[verifier::reject_recursive_types(P)]
pub struct RoutingTable<P> {
    routes: Vec<Route<P>>,
}

impl<P> View for RoutingTable<P> {
    type V = Seq<RouteView>;

    closed spec fn view(&self) -> Seq<RouteView> {
        self.routes@.map_values(|r: Route<P>| r@)
    }
}

impl<P> RoutingTable<P> {
    pub fn new() -> (r: Self)
        ensures
            r@ == Seq::<RouteView>::empty(),
    {
        RoutingTable { routes: Vec::new() }
    }

    pub fn push(&mut self, route: Route<P>)
        ensures
            final(self)@ == old(self)@.push(route@),
            forall|i: int, s: Signal<P>, a: bool|
                0 <= i < old(self)@.len() ==> #[trigger] final(self).gate_admits(i, s, a) == old(self).gate_admits(i, s, a),
            forall|s: Signal<P>, a: bool|
                #[trigger] final(self).gate_admits(old(self)@.len() as int, s, a) == route.gate_may_admit(&s, a),
    {
        let ghost og = self.routes@;
        self.routes.push(route);
        assert(self@ =~= old(self)@.push(route@));
        assert(forall|i: int| 0 <= i < og.len() ==> self.routes@[i] == og[i]);
        assert(self.routes@[og.len() as int] == route);
    }

    pub fn len(&self) -> (r: usize)
        ensures
            r == self@.len(),
    {
        self.routes.len()
    }

    pub fn is_empty(&self) -> (r: bool)
        ensures
            r == (self@.len() == 0),
    {
        self.routes.len() == 0
    }

    /// The routes in table order.
    pub fn routes(&self) -> (r: &[Route<P>])
        ensures
            r@.len() == self@.len(),
            forall|i: int| 0 <= i < r@.len() ==> r@[i]@ == #[trigger] self@[i],
    {
        self.routes.as_slice()
    }

    /// The route at `index`.
    pub fn route(&self, index: usize) -> (r: &Route<P>)
        requires
            index < self@.len(),
        ensures
            r@ == self@[index as int],
    {
        &self.routes[index]
    }

    /// Whether route `i`'s gate may answer `answer` for `signal`.
    pub closed spec fn gate_admits(&self, i: int, signal: Signal<P>, answer: bool) -> bool {
        self.routes@[i].gate_may_admit(&signal, answer)
    }

    /// `self` has as many routes as `other`, and each route's gate may answer
    /// as the one at the same position in `other` may.
    pub open spec fn keeps_gates(&self, other: &Self) -> bool {
        &&& self@.len() == other@.len()
        &&& forall|i: int, s: Signal<P>, a: bool|
            0 <= i < self@.len() ==> #[trigger] self.gate_admits(i, s, a) == other.gate_admits(i, s, a)
    }

    /// `adm` records answers the gates may give for `signal` at `from`: every
    /// route leaving `from` answers as its gate may, and the others are not
    /// asked.
    pub open spec fn answers(&self, from: Endpoint, signal: Signal<P>, adm: Seq<bool>) -> bool {
        &&& admission_record(self@, from, adm)
        &&& forall|i: int|
            0 <= i < self@.len() && self@[i].from == from ==> #[trigger] self.gate_admits(i, signal, adm[i])
    }

    /// For every route, whether it lets `signal` through from `from`; routes
    /// leaving elsewhere are not consulted.
    pub fn admissions(&self, from: &EndpointId, signal: &Signal<P>) -> (r: Vec<bool>)
        ensures
            self.answers(from@, *signal, r@),
    {
        let mut adm: Vec<bool> = Vec::new();
        let mut i: usize = 0;
        while i < self.routes.len()
            invariant
                i <= self.routes@.len(),
                adm@.len() == i,
                forall|k: int| 0 <= k < i && #[trigger] adm@[k] ==> self@[k].from == from@,
                forall|k: int| 0 <= k < i && self@[k].from == from@ ==> #[trigger] self.gate_admits(k, *signal, adm@[k]),
            decreases self.routes@.len() - i,
        {
            assert(self@[i as int] == self.routes@[i as int]@);
            let a = self.routes[i].from().same(from) && self.routes[i].admits(signal);
            adm.push(a);
            i = i + 1;
        }
        adm
    }

    /// The routes competing for a signal from `from`: the admitted excitatory
    /// routes leaving it, in table order. Stochastic selection samples among
    /// these.
    pub fn candidates(&self, from: &EndpointId, signal: &Signal<P>) -> (r: Vec<usize>)
        ensures
            exists|adm: Seq<bool>|
                #[trigger] self.answers(from@, *signal, adm) && (forall|k: int|
                    0 <= k < r@.len() ==> candidate(self@, from@, adm, #[trigger] r@[k] as int)) && (forall|
                    k1: int,
                    k2: int,
                | 0 <= k1 < k2 < r@.len() ==> #[trigger] r@[k1] < #[trigger] r@[k2]) && (forall|j: int|
                    #[trigger] candidate(self@, from@, adm, j) ==> r@.contains(j as usize)),
    {
        let adm = self.admissions(from, signal);
        let mut out: Vec<usize> = Vec::new();
        let mut i: usize = 0;
        while i < self.routes.len()
            invariant
                i <= self@.len(),
                adm@.len() == self@.len(),
                admission_record(self@, from@, adm@),
                forall|k: int| 0 <= k < out@.len() ==> candidate(self@, from@, adm@, #[trigger] out@[k] as int),
                forall|k: int| 0 <= k < out@.len() ==> #[trigger] out@[k] < i,
                forall|k1: int, k2: int| 0 <= k1 < k2 < out@.len() ==> #[trigger] out@[k1] < #[trigger] out@[k2],
                forall|j: int| 0 <= j < i && #[trigger] candidate(self@, from@, adm@, j) ==> out@.contains(j as usize),
            decreases self@.len() - i,
        {
            assert(self@[i as int] == self.routes@[i as int]@);
            if adm[i] && self.routes[i].from().same(from) && self.routes[i].is_excitatory() {
                let ghost before = out@;
                out.push(i);
                proof {
                    assert forall|j: int| 0 <= j < i && #[trigger] candidate(self@, from@, adm@, j) implies out@.contains(j as usize) by {
                        let k = choose|k: int| 0 <= k < before.len() && before[k] == j as usize;
                        assert(out@[k] == j as usize);
                    }
                    assert(out@[out@.len() - 1] == i);
                }
            }
            i = i + 1;
        }
        out
    }

    /// Plain selection given the gates' answers `admitted`: the unique
    /// strongest admitted excitatory route from `from` fires, unless the
    /// admitted inhibition vetoes it; a tie at the top is ambiguous.
    pub fn select_among(&self, from: &EndpointId, admitted: &Vec<bool>) -> (r: Result<
        Option<usize>,
        RoutingError,
    >)
        requires
            admitted@.len() == self@.len(),
        ensures
            select_outcome(self@, from@, admitted@, r),
            r matches Ok(Some(i)) ==> i < self@.len(),
    {
        let ghost rs = self@;
        let ghost f = from@;
        let ghost adm = admitted@;
        let mut selected: Option<usize> = None;
        let mut ambiguous = false;
        let mut inhibition: i32 = 0;
        let mut i: usize = 0;
        while i < self.routes.len()
            invariant
                rs == self@,
                f == from@,
                adm == admitted@,
                adm.len() == rs.len(),
                i <= rs.len(),
                inhibition == crate::routing::inhibition(rs, f, adm, i as int),
                selected is None <==> (forall|j: int| 0 <= j < i ==> !candidate(rs, f, adm, j)),
                selected is None ==> !ambiguous,
                selected matches Some(s) ==> {
                    &&& s < i
                    &&& candidate(rs, f, adm, s as int)
                    &&& forall|j: int|
                        0 <= j < i && #[trigger] candidate(rs, f, adm, j) ==> rs[j].weight()
                            <= rs[s as int].weight()
                    &&& forall|j: int|
                        0 <= j < s && #[trigger] candidate(rs, f, adm, j) ==> rs[j].weight()
                            < rs[s as int].weight()
                    &&& ambiguous <==> exists|j: int|
                        0 <= j < i && j != s && #[trigger] candidate(rs, f, adm, j)
                            && rs[j].weight() == rs[s as int].weight()
                },
            decreases rs.len() - i,
        {
            let route = &self.routes[i];
            assert(rs[i as int] == route@);
            let leaves = route.from().same(from) && admitted[i];
            let exc = route.is_excitatory();
            assert(candidate(rs, f, adm, i as int) == (leaves && exc));
            assert(inhibitor(rs, f, adm, i as int) == (leaves && !exc));
            if leaves {
                let w = route.weight().get();
                if !exc {
                    inhibition = if (inhibition as i64) + (w as i64) > 2147483647 {
                        2147483647
                    } else if (inhibition as i64) + (w as i64) < -2147483648 {
                        -2147483648
                    } else {
                        inhibition + w as i32
                    };
                } else {
                    match selected {
                        None => {
                            selected = Some(i);
                            ambiguous = false;
                        },
                        Some(s) => {
                            let cur = self.routes[s].weight().get();
                            assert(rs[s as int] == self.routes@[s as int]@);
                            if w > cur {
                                selected = Some(i);
                                ambiguous = false;
                            } else if w == cur {
                                ambiguous = true;
                            }
                        },
                    }
                }
            }
            i = i + 1;
        }
        proof {
            assert(inhibition == total_inhibition(rs, f, adm));
        }
        if inhibition > 0 {
            if let Some(s) = selected {
                let ws = self.routes[s].weight().get();
                assert(rs[s as int] == self.routes@[s as int]@);
                if (ws as i32) <= inhibition {
                    assert(strongest(rs, f, adm, s as int));
                    return Ok(None);
                }
            }
        }
        if ambiguous {
            match selected {
                Some(s) => {
                    let ws = self.routes[s].weight();
                    assert(rs[s as int] == self.routes@[s as int]@);
                    proof {
                        let j = choose|j: int|
                            0 <= j < i && j != s && #[trigger] candidate(rs, f, adm, j)
                                && rs[j].weight() == rs[s as int].weight();
                        assert(strongest(rs, f, adm, s as int));
                        assert(strongest(rs, f, adm, j));
                    }
                    Err(RoutingError::AmbiguousRoute { from: from.clone(), weight: ws })
                },
                None => Ok(None),
            }
        } else {
            proof {
                if let Some(s) = selected {
                    assert(strongest(rs, f, adm, s as int));
                }
            }
            Ok(selected)
        }
    }

    /// Plain selection from `from` for `signal`: asks the gates, then picks as
    /// [`select_among`](Self::select_among) does.
    pub fn select(&self, from: &EndpointId, signal: &Signal<P>) -> (r: Result<
        Option<&Route<P>>,
        RoutingError,
    >)
        ensures
            exists|adm: Seq<bool>|
                #[trigger] self.answers(from@, *signal, adm) && match r {
                    Ok(Some(route)) => exists|i: int|
                        0 <= i < self@.len() && select_picks(self@, from@, adm, i) && route@
                            == self@[i],
                    Ok(None) => select_declines(self@, from@, adm),
                    Err(e) => select_outcome(self@, from@, adm, Err(e)),
                },
    {
        let adm = self.admissions(from, signal);
        match self.select_among(from, &adm) {
            Ok(Some(i)) => {
                let route = &self.routes[i];
                assert(self.answers(from@, *signal, adm@));
                Ok(Some(route))
            },
            Ok(None) => {
                assert(self.answers(from@, *signal, adm@));
                Ok(None)
            },
            Err(e) => {
                assert(self.answers(from@, *signal, adm@));
                Err(e)
            },
        }
    }

    /// Selection under a NoGo discipline given the gates' answers: the first
    /// strongest admitted excitatory route wins only if it beats the runner-up
    /// by at least `margin`; a sole candidate always wins.
    pub fn select_with_margin_among(&self, from: &EndpointId, admitted: &Vec<bool>, margin: i16) -> (r: Option<usize>)
        requires
            admitted@.len() == self@.len(),
        ensures
            match r {
                Some(i) => i < self@.len() && margin_picks(self@, from@, admitted@, margin, i as int),
                None => margin_declines(self@, from@, admitted@, margin),
            },
    {
        let ghost rs = self@;
        let ghost f = from@;
        let ghost adm = admitted@;
        let mut best: Option<usize> = None;
        let mut runner_up: Option<i16> = None;
        let mut i: usize = 0;
        while i < self.routes.len()
            invariant
                rs == self@,
                f == from@,
                adm == admitted@,
                adm.len() == rs.len(),
                i <= rs.len(),
                best is None <==> (forall|j: int| 0 <= j < i ==> !candidate(rs, f, adm, j)),
                best is None ==> runner_up is None,
                best matches Some(b) ==> {
                    &&& b < i
                    &&& candidate(rs, f, adm, b as int)
                    &&& forall|j: int|
                        0 <= j < i && #[trigger] candidate(rs, f, adm, j) ==> rs[j].weight()
                            <= rs[b as int].weight()
                    &&& forall|j: int|
                        0 <= j < b && #[trigger] candidate(rs, f, adm, j) ==> rs[j].weight()
                            < rs[b as int].weight()
                    &&& runner_up is None <==> (forall|j: int|
                        0 <= j < i && j != b ==> !#[trigger] candidate(rs, f, adm, j))
                    &&& runner_up matches Some(w) ==> {
                        &&& exists|j: int|
                            0 <= j < i && j != b && #[trigger] candidate(rs, f, adm, j)
                                && rs[j].weight() == w
                        &&& forall|j: int|
                            0 <= j < i && j != b && #[trigger] candidate(rs, f, adm, j)
                                ==> rs[j].weight() <= w
                    }
                },
            decreases rs.len() - i,
        {
            let route = &self.routes[i];
            assert(rs[i as int] == route@);
            let leaves = route.from().same(from) && admitted[i];
            let exc = route.is_excitatory();
            assert(candidate(rs, f, adm, i as int) == (leaves && exc));
            if leaves && exc {
                let w = route.weight().get();
                match best {
                    None => {
                        best = Some(i);
                    },
                    Some(b) => {
                        let wb = self.routes[b].weight().get();
                        assert(rs[b as int] == self.routes@[b as int]@);
                        if w > wb {
                            runner_up = Some(wb);
                            best = Some(i);
                        } else {
                            let better = match runner_up {
                                Some(r) => w > r,
                                None => true,
                            };
                            if better {
                                runner_up = Some(w);
                            }
                        }
                    },
                }
            }
            i = i + 1;
        }
        match best {
            None => None,
            Some(b) => {
                let wb = self.routes[b].weight().get();
                assert(rs[b as int] == self.routes@[b as int]@);
                assert(first_strongest(rs, f, adm, b as int));
                match runner_up {
                    Some(second) => {
                        let gap = sat_sub16(wb, second);
                        if second < wb && gap >= margin {
                            Some(b)
                        } else {
                            proof {
                                let j = choose|j: int|
                                    0 <= j < i && j != b && #[trigger] candidate(rs, f, adm, j)
                                        && rs[j].weight() == second;
                                assert(candidate(rs, f, adm, j));
                            }
                            None
                        }
                    },
                    None => Some(b),
                }
            },
        }
    }

    /// Selection under a NoGo `margin` from `from` for `signal`: asks the
    /// gates, then decides as [`select_with_margin_among`](Self::select_with_margin_among)
    /// does. It never reports ambiguity.
    pub fn select_with_margin(&self, from: &EndpointId, signal: &Signal<P>, margin: i16) -> (r: Result<
        Option<&Route<P>>,
        RoutingError,
    >)
        ensures
            r is Ok,
            exists|adm: Seq<bool>|
                #[trigger] self.answers(from@, *signal, adm) && match r {
                    Ok(Some(route)) => exists|i: int|
                        0 <= i < self@.len() && margin_picks(self@, from@, adm, margin, i)
                            && route@ == self@[i],
                    Ok(None) => margin_declines(self@, from@, adm, margin),
                    Err(_) => false,
                },
    {
        let adm = self.admissions(from, signal);
        assert(self.answers(from@, *signal, adm@));
        match self.select_with_margin_among(from, &adm, margin) {
            Some(i) => Ok(Some(&self.routes[i])),
            None => Ok(None),
        }
    }

    /// Whether route `i` ranks before route `j` in fan-out order.
    fn ranks_before_at(&self, i: usize, j: usize) -> (r: bool)
        requires
            i < self@.len(),
            j < self@.len(),
        ensures
            r == ranks_before(self@, i as int, j as int),
    {
        let ri = &self.routes[i];
        let rj = &self.routes[j];
        assert(self@[i as int] == ri@);
        assert(self@[j as int] == rj@);
        let wi = ri.weight().get();
        let wj = rj.weight().get();
        if wi != wj {
            wi > wj
        } else if ri.to().less(rj.to()) {
            true
        } else {
            ri.to().same(rj.to()) && i < j
        }
    }

    /// The indices of the top `limit` admitted excitatory routes from `from`,
    /// given the gates' answers, in fan-out order (descending effective
    /// weight, ties by target id, then table order).
    pub fn select_all_among(&self, from: &EndpointId, admitted: &Vec<bool>, limit: usize) -> (r: Vec<usize>)
        requires
            admitted@.len() == self@.len(),
        ensures
            top_ranked(self@, from@, admitted@, limit, r@),
            forall|k: int| 0 <= k < r@.len() ==> #[trigger] r@[k] < self@.len(),
    {
        let ghost rs = self@;
        let ghost f = from@;
        let ghost adm = admitted@;
        let n = self.routes.len();
        let mut idx: Vec<usize> = Vec::new();
        while idx.len() < limit
            invariant
                rs == self@,
                f == from@,
                adm == admitted@,
                adm.len() == rs.len(),
                n == rs.len(),
                idx@.len() <= limit,
                forall|k: int| 0 <= k < idx@.len() ==> #[trigger] idx@[k] < n,
                forall|k: int| 0 <= k < idx@.len() ==> candidate(rs, f, adm, #[trigger] idx@[k] as int),
                forall|k1: int, k2: int|
                    0 <= k1 < k2 < idx@.len() ==> ranks_before(rs, #[trigger] idx@[k1] as int, #[trigger] idx@[k2] as int),
                forall|j: int|
                    #[trigger] candidate(rs, f, adm, j) && !idx@.contains(j as usize) ==>
                        forall|k: int| 0 <= k < idx@.len() ==> ranks_before(rs, #[trigger] idx@[k] as int, j),
            ensures
                idx@.len() == limit || forall|j: int| #[trigger] candidate(rs, f, adm, j) ==> idx@.contains(j as usize),
            decreases limit - idx@.len(),
        {
            let ghost prev = idx@;
            let len = idx.len();
            let mut best: Option<usize> = None;
            let mut i: usize = 0;
            while i < n
                invariant
                    rs == self@,
                    f == from@,
                    adm == admitted@,
                    adm.len() == rs.len(),
                    n == rs.len(),
                    idx@ == prev,
                    len == prev.len(),
                    i <= n,
                    forall|k: int| 0 <= k < prev.len() ==> #[trigger] prev[k] < n,
                    best is None ==> forall|j: int| 0 <= j < i && #[trigger] candidate(rs, f, adm, j)
                        ==> (len > 0 && !ranks_before(rs, prev[len - 1] as int, j)),
                    best matches Some(b) ==> {
                        &&& b < i
                        &&& candidate(rs, f, adm, b as int)
                        &&& (len == 0 || ranks_before(rs, prev[len - 1] as int, b as int))
                        &&& forall|j: int| 0 <= j < i && #[trigger] candidate(rs, f, adm, j)
                            && (len == 0 || ranks_before(rs, prev[len - 1] as int, j))
                            ==> (j == b || ranks_before(rs, b as int, j))
                    },
                decreases n - i,
            {
                let route = &self.routes[i];
                assert(rs[i as int] == route@);
                let leaves = route.from().same(from) && admitted[i];
                let exc = route.is_excitatory();
                assert(candidate(rs, f, adm, i as int) == (leaves && exc));
                if leaves && exc {
                    let after_last = len == 0 || self.ranks_before_at(idx[len - 1], i);
                    if after_last {
                        match best {
                            None => {
                                best = Some(i);
                            },
                            Some(b) => {
                                if self.ranks_before_at(i, b) {
                                    proof {
                                        assert forall|j: int| 0 <= j < i + 1 && #[trigger] candidate(rs, f, adm, j)
                                            && (len == 0 || ranks_before(rs, prev[len - 1] as int, j))
                                            implies (j == i || ranks_before(rs, i as int, j)) by {
                                            lemma_ranks_order(rs, i as int, b as int, j);
                                        }
                                    }
                                    best = Some(i);
                                } else {
                                    proof {
                                        lemma_ranks_order(rs, b as int, i as int, 0);
                                    }
                                }
                            },
                        }
                    }
                }
                i = i + 1;
            }
            match best {
                None => {
                    proof {
                        assert forall|j: int| #[trigger] candidate(rs, f, adm, j) implies idx@.contains(j as usize) by {
                            if !idx@.contains(j as usize) {
                                if len > 0 {
                                    assert(ranks_before(rs, prev[len - 1] as int, j));
                                }
                            }
                        }
                    }
                    break;
                },
                Some(b) => {
                    proof {
                        assert(!prev.contains(b)) by {
                            if prev.contains(b) {
                                let k = choose|k: int| 0 <= k < prev.len() && prev[k] == b;
                                lemma_ranks_order(rs, prev[k] as int, prev[len - 1] as int, b as int);
                                if k < len - 1 {
                                    assert(ranks_before(rs, prev[k] as int, prev[len - 1] as int));
                                }
                            }
                        }
                    }
                    idx.push(b);
                    proof {
                        assert forall|j: int|
                            #[trigger] candidate(rs, f, adm, j) && !idx@.contains(j as usize) implies
                                forall|k: int| 0 <= k < idx@.len() ==> ranks_before(rs, #[trigger] idx@[k] as int, j) by {
                            assert(!prev.contains(j as usize)) by {
                                if prev.contains(j as usize) {
                                    let k = choose|k: int| 0 <= k < prev.len() && prev[k] == j as usize;
                                    assert(idx@[k] == j as usize);
                                }
                            }
                            assert(j != b) by {
                                assert(idx@[len as int] == b);
                            }
                            if len > 0 {
                                assert(ranks_before(rs, prev[len - 1] as int, j));
                            }
                            assert(ranks_before(rs, b as int, j));
                            assert forall|k: int| 0 <= k < idx@.len() implies ranks_before(rs, #[trigger] idx@[k] as int, j) by {
                                if k < len {
                                    assert(idx@[k] == prev[k]);
                                }
                            }
                        }
                        assert forall|k1: int, k2: int|
                            0 <= k1 < k2 < idx@.len() implies ranks_before(rs, #[trigger] idx@[k1] as int, #[trigger] idx@[k2] as int) by {
                            if k2 == len {
                                assert(idx@[k1] == prev[k1]);
                            } else {
                                assert(idx@[k1] == prev[k1]);
                                assert(idx@[k2] == prev[k2]);
                            }
                        }
                    }
                },
            }
        }
        proof {
            assert forall|j: int| #[trigger] candidate(rs, f, adm, j) && !idx@.contains(j as usize) implies {
                &&& idx@.len() == limit
                &&& forall|k: int| 0 <= k < idx@.len() ==> ranks_before(rs, #[trigger] idx@[k] as int, j)
            } by {
            }
        }
        idx
    }

    /// The top `limit` admitted excitatory routes from `from` for `signal`, in
    /// fan-out order: the multicast primitive.
    pub fn select_all(&self, from: &EndpointId, signal: &Signal<P>, limit: usize) -> (r: Vec<&Route<P>>)
        ensures
            exists|adm: Seq<bool>, idx: Seq<usize>|
                #[trigger] self.answers(from@, *signal, adm) && #[trigger] top_ranked(self@, from@, adm, limit, idx)
                    && r@.len() == idx.len() && forall|k: int|
                    0 <= k < idx.len() ==> idx[k] < self@.len() && (#[trigger] r@[k])@ == self@[idx[k] as int],
    {
        let adm = self.admissions(from, signal);
        let idx = self.select_all_among(from, &adm, limit);
        let mut out: Vec<&Route<P>> = Vec::new();
        let mut k: usize = 0;
        while k < idx.len()
            invariant
                k <= idx@.len(),
                out@.len() == k,
                forall|m: int| 0 <= m < idx@.len() ==> #[trigger] idx@[m] < self@.len(),
                forall|m: int| 0 <= m < k ==> (#[trigger] out@[m])@ == self@[idx@[m] as int],
            decreases idx@.len() - k,
        {
            out.push(&self.routes[idx[k]]);
            k = k + 1;
        }
        assert(self.answers(from@, *signal, adm@));
        assert(top_ranked(self@, from@, adm@, limit, idx@));
        out
    }

    /// Apply `profile`'s per-edge biases, replacing any prior profile: each
    /// route's bias becomes the profile's bias for its edge (zero if unlisted).
    pub fn apply_profile(&mut self, profile: &RoutingProfile)
        ensures
            final(self).keeps_gates(old(self)),
            final(self)@ == with_biases(old(self)@, profile@),
            final(self)@.len() == old(self)@.len(),
            forall|i: int| 0 <= i < old(self)@.len() ==> #[trigger] final(self)@[i] == (RouteView {
                bias: bias_of(profile@, old(self)@[i].edge()),
                ..old(self)@[i]
            }),
    {
        let ghost old_rs = self@;
        let ghost og = self.routes@;
        let mut i: usize = 0;
        while i < self.routes.len()
            invariant
                gates_kept(self.routes@, og),
                i <= self.routes@.len(),
                self@.len() == old_rs.len(),
                forall|k: int| 0 <= k < i ==> #[trigger] self@[k] == (RouteView {
                    bias: bias_of(profile@, old_rs[k].edge()),
                    ..old_rs[k]
                }),
                forall|k: int| i <= k < old_rs.len() ==> #[trigger] self@[k] == old_rs[k],
            decreases self.routes@.len() - i,
        {
            let ghost before = self@;
            let ghost before_routes = self.routes@;
            assert(self@[i as int] == old_rs[i as int]);
            assert(self@[i as int] == self.routes@[i as int]@);
            let bias = profile.get(&self.routes[i].edge());
            self.routes[i].set_bias(bias);
            assert(self@[i as int] == self.routes@[i as int]@);
            assert forall|k: int| 0 <= k < old_rs.len() && k != i implies #[trigger] self@[k] == before[k] by {
                assert(self.routes@[k] == before_routes[k]);
                assert(self@[k] == self.routes@[k]@);
                assert(before[k] == before_routes[k]@);
            }
            assert(gates_kept(self.routes@, og)) by {
                assert forall|k: int, s: Signal<P>, x: bool| 0 <= k < og.len() implies #[trigger] self.routes@[k].gate_may_admit(&s, x) == og[k].gate_may_admit(&s, x) by {
                    if k != i {
                        assert(self.routes@[k] == before_routes[k]);
                    } else {
                        assert(before_routes[k].gate_may_admit(&s, x) == og[k].gate_may_admit(&s, x));
                    }
                }
            }
            i = i + 1;
        }
        assert(self@ =~= with_biases(old_rs, profile@));
    }

    /// The read-only graph of this table's wiring: one edge per route, in
    /// table order.
    pub fn graph(&self) -> (r: ModuleGraph)
        ensures
            r@ == self@.map_values(|rv: RouteView| rv.edge()),
    {
        let mut graph = ModuleGraph::new();
        let mut i: usize = 0;
        while i < self.routes.len()
            invariant
                i <= self@.len(),
                graph@ == self@.take(i as int).map_values(|rv: RouteView| rv.edge()),
            decreases self@.len() - i,
        {
            assert(self@[i as int] == self.routes@[i as int]@);
            let from = self.routes[i].from().clone();
            let to = self.routes[i].to().clone();
            graph.insert(from, to);
            assert(self@.take(i + 1).map_values(|rv: RouteView| rv.edge()) =~= self@.take(i as int).map_values(|rv: RouteView| rv.edge()).push(self@[i as int].edge()));
            i = i + 1;
        }
        assert(self@.take(self@.len() as int) =~= self@);
        graph
    }

    /// Clear any active routing profile: every bias returns to zero.
    pub fn clear_profile(&mut self)
        ensures
            final(self).keeps_gates(old(self)),
            final(self)@ == unbiased(old(self)@),
            final(self)@.len() == old(self)@.len(),
            forall|i: int| 0 <= i < old(self)@.len() ==> #[trigger] final(self)@[i] == (RouteView {
                bias: 0,
                ..old(self)@[i]
            }),
    {
        let ghost old_rs = self@;
        let ghost og = self.routes@;
        let mut i: usize = 0;
        while i < self.routes.len()
            invariant
                gates_kept(self.routes@, og),
                i <= self.routes@.len(),
                self@.len() == old_rs.len(),
                forall|k: int| 0 <= k < i ==> #[trigger] self@[k] == (RouteView { bias: 0, ..old_rs[k] }),
                forall|k: int| i <= k < old_rs.len() ==> #[trigger] self@[k] == old_rs[k],
            decreases self.routes@.len() - i,
        {
            let ghost before = self@;
            let ghost before_routes = self.routes@;
            assert(self@[i as int] == old_rs[i as int]);
            assert(self@[i as int] == self.routes@[i as int]@);
            self.routes[i].set_bias(0);
            assert(self@[i as int] == self.routes@[i as int]@);
            assert forall|k: int| 0 <= k < old_rs.len() && k != i implies #[trigger] self@[k] == before[k] by {
                assert(self.routes@[k] == before_routes[k]);
                assert(self@[k] == self.routes@[k]@);
                assert(before[k] == before_routes[k]@);
            }
            assert(gates_kept(self.routes@, og)) by {
                assert forall|k: int, s: Signal<P>, x: bool| 0 <= k < og.len() implies #[trigger] self.routes@[k].gate_may_admit(&s, x) == og[k].gate_may_admit(&s, x) by {
                    if k != i {
                        assert(self.routes@[k] == before_routes[k]);
                    } else {
                        assert(before_routes[k].gate_may_admit(&s, x) == og[k].gate_may_admit(&s, x));
                    }
                }
            }
            i = i + 1;
        }
        assert(self@ =~= unbiased(old_rs));
    }

    /// The total magnitude of learned weight across all routes (the sum of
    /// `|learned|`), saturating at `u64::MAX`.
    pub fn learned_magnitude(&self) -> (r: u64)
        ensures
            r == if learned_total(self@) > u64::MAX {
                u64::MAX as int
            } else {
                learned_total(self@)
            },
    {
        let mut total: u64 = 0;
        let mut i: usize = 0;
        while i < self.routes.len()
            invariant
                i <= self@.len(),
                total == if learned_total(self@.take(i as int)) > u64::MAX {
                    u64::MAX as int
                } else {
                    learned_total(self@.take(i as int))
                },
            decreases self@.len() - i,
        {
            let l = self.routes[i].learned();
            assert(self@[i as int] == self.routes@[i as int]@);
            let a: u64 = if l < 0 {
                (-(l as i32)) as u64
            } else {
                l as u64
            };
            assert(self@.take(i + 1).drop_last() =~= self@.take(i as int));
            assert(learned_total(self@.take(i as int)) >= 0) by {
                lemma_learned_total_nonneg(self@.take(i as int));
            }
            total = total.saturating_add(a);
            i = i + 1;
        }
        assert(self@.take(self@.len() as int) =~= self@);
        total
    }

    /// Homeostatic scaling: when the total learned magnitude exceeds
    /// `max_total`, every learned weight is rescaled by `max_total / total`
    /// (rounded toward zero), preserving relative strengths and bringing the
    /// total within `max_total`; weights already within budget are left
    /// untouched.
    pub fn homeostatic_scale(&mut self, max_total: u64)
        ensures
            final(self).keeps_gates(old(self)),
            final(self)@ == homeostasis(old(self)@, max_total as int, saturated_total(old(self)@)),
            final(self)@.len() == old(self)@.len(),
            ({
                let total = if learned_total(old(self)@) > u64::MAX {
                    u64::MAX as int
                } else {
                    learned_total(old(self)@)
                };
                &&& learned_total(old(self)@) > max_total && learned_total(old(self)@) <= u64::MAX
                    ==> learned_total(final(self)@) <= max_total
                &&& if total <= max_total {
                    final(self)@ == old(self)@
                } else {
                    forall|i: int| 0 <= i < old(self)@.len() ==> #[trigger] final(self)@[i] == (RouteView {
                        learned: rescale(old(self)@[i].learned as int, max_total as int, total) as i16,
                        ..old(self)@[i]
                    })
                }
            }),
    {
        let total = self.learned_magnitude();
        if total <= max_total || total == 0 {
            return;
        }
        let ghost start = self@;
        let ghost old_rs = self@;
        let ghost og = self.routes@;
        let mut i: usize = 0;
        while i < self.routes.len()
            invariant
                gates_kept(self.routes@, og),
                i <= self.routes@.len(),
                self@.len() == old_rs.len(),
                max_total < total,
                forall|k: int| 0 <= k < i ==> #[trigger] self@[k] == (RouteView {
                    learned: rescale(old_rs[k].learned as int, max_total as int, total as int) as i16,
                    ..old_rs[k]
                }),
                forall|k: int| i <= k < old_rs.len() ==> #[trigger] self@[k] == old_rs[k],
            decreases self.routes@.len() - i,
        {
            let ghost before = self@;
            let ghost before_routes = self.routes@;
            assert(self@[i as int] == old_rs[i as int]);
            assert(self@[i as int] == self.routes@[i as int]@);
            let l = self.routes[i].learned();
            let scaled = rescale_learned(l, max_total, total);
            self.routes[i].set_learned(scaled);
            assert(self@[i as int] == self.routes@[i as int]@);
            assert forall|k: int| 0 <= k < old_rs.len() && k != i implies #[trigger] self@[k] == before[k] by {
                assert(self.routes@[k] == before_routes[k]);
                assert(self@[k] == self.routes@[k]@);
                assert(before[k] == before_routes[k]@);
            }
            assert(gates_kept(self.routes@, og)) by {
                assert forall|k: int, s: Signal<P>, x: bool| 0 <= k < og.len() implies #[trigger] self.routes@[k].gate_may_admit(&s, x) == og[k].gate_may_admit(&s, x) by {
                    if k != i {
                        assert(self.routes@[k] == before_routes[k]);
                    } else {
                        assert(before_routes[k].gate_may_admit(&s, x) == og[k].gate_may_admit(&s, x));
                    }
                }
            }
            i = i + 1;
        }
        assert(self@ =~= homeostasis(old_rs, max_total as int, total as int));
        proof {
            if learned_total(old_rs) <= u64::MAX {
                lemma_homeostasis_caps(old_rs, max_total as int);
            }
        }
    }

    /// Snapshot the learned weight of every route, keyed by its edge, in table
    /// order.
    pub fn learned_weights(&self) -> (r: Vec<(EdgeId, i16)>)
        ensures
            r@.map_values(|e: (EdgeId, i16)| (e.0@, e.1)) == learned_snapshot(self@),
            r@.len() == self@.len(),
            forall|i: int| 0 <= i < self@.len() ==> (#[trigger] r@[i]).0@ == self@[i].edge() && r@[i].1 == self@[i].learned,
    {
        let mut out: Vec<(EdgeId, i16)> = Vec::new();
        let mut i: usize = 0;
        while i < self.routes.len()
            invariant
                i <= self@.len(),
                out@.len() == i,
                forall|k: int| 0 <= k < i ==> (#[trigger] out@[k]).0@ == self@[k].edge() && out@[k].1 == self@[k].learned,
            decreases self@.len() - i,
        {
            assert(self@[i as int] == self.routes@[i as int]@);
            out.push((self.routes[i].edge(), self.routes[i].learned()));
            i = i + 1;
        }
        assert(out@.map_values(|e: (EdgeId, i16)| (e.0@, e.1)) =~= learned_snapshot(self@));
        out
    }

    /// Restore learned weights from a snapshot, matching by edge: every route
    /// takes the last snapshot entry for its edge; routes whose edge is absent
    /// keep their learning.
    pub fn restore_learned(&mut self, snapshot: &[(EdgeId, i16)])
        ensures
            final(self).keeps_gates(old(self)),
            final(self)@ == with_snapshot(old(self)@, snapshot@.map_values(|e: (EdgeId, i16)| (e.0@, e.1))),
            final(self)@.len() == old(self)@.len(),
            forall|i: int| 0 <= i < old(self)@.len() ==> #[trigger] final(self)@[i] == (RouteView {
                learned: restored(snapshot@.map_values(|e: (EdgeId, i16)| (e.0@, e.1)), old(self)@[i].edge(), old(self)@[i].learned),
                ..old(self)@[i]
            }),
    {
        let ghost old_rs = self@;
        let ghost og = self.routes@;
        let ghost snap = snapshot@.map_values(|e: (EdgeId, i16)| (e.0@, e.1));
        let mut e: usize = 0;
        while e < snapshot.len()
            invariant
                gates_kept(self.routes@, og),
                e <= snap.len(),
                snap.len() == snapshot@.len(),
                snap == snapshot@.map_values(|e: (EdgeId, i16)| (e.0@, e.1)),
                self@.len() == old_rs.len(),
                forall|k: int| 0 <= k < old_rs.len() ==> #[trigger] self@[k] == (RouteView {
                    learned: restored(snap.take(e as int), old_rs[k].edge(), old_rs[k].learned),
                    ..old_rs[k]
                }),
            decreases snap.len() - e,
        {
            let ghost mid = self@;
            let edge = &snapshot[e].0;
            let learned = snapshot[e].1;
            assert(snap[e as int] == (edge@, learned));
            assert(snap.take(e + 1).drop_last() =~= snap.take(e as int));
            let mut i: usize = 0;
            while i < self.routes.len()
                invariant
                    gates_kept(self.routes@, og),
                    i <= self.routes@.len(),
                    self@.len() == old_rs.len(),
                    mid.len() == old_rs.len(),
                    forall|k: int| 0 <= k < i ==> #[trigger] self@[k] == (if mid[k].edge() == edge@ {
                        RouteView { learned, ..mid[k] }
                    } else {
                        mid[k]
                    }),
                    forall|k: int| i <= k < old_rs.len() ==> #[trigger] self@[k] == mid[k],
                decreases self.routes@.len() - i,
            {
                let ghost before = self@;
                let ghost before_routes = self.routes@;
                assert(self@[i as int] == mid[i as int]);
                assert(self@[i as int] == self.routes@[i as int]@);
                if self.routes[i].on_edge(edge) {
                    self.routes[i].set_learned(learned);
                }
                assert(self@[i as int] == self.routes@[i as int]@);
                assert forall|k: int| 0 <= k < old_rs.len() && k != i implies #[trigger] self@[k] == before[k] by {
                    assert(self.routes@[k] == before_routes[k]);
                    assert(self@[k] == self.routes@[k]@);
                    assert(before[k] == before_routes[k]@);
                }
                assert(gates_kept(self.routes@, og)) by {
                    assert forall|k: int, s: Signal<P>, x: bool| 0 <= k < og.len() implies #[trigger] self.routes@[k].gate_may_admit(&s, x) == og[k].gate_may_admit(&s, x) by {
                        if k != i {
                            assert(self.routes@[k] == before_routes[k]);
                        } else {
                            assert(before_routes[k].gate_may_admit(&s, x) == og[k].gate_may_admit(&s, x));
                        }
                    }
                }
                i = i + 1;
            }
            proof {
                assert forall|k: int| 0 <= k < old_rs.len() implies #[trigger] self@[k] == (RouteView {
                    learned: restored(snap.take(e + 1), old_rs[k].edge(), old_rs[k].learned),
                    ..old_rs[k]
                }) by {
                    assert(mid[k] == (RouteView {
                        learned: restored(snap.take(e as int), old_rs[k].edge(), old_rs[k].learned),
                        ..old_rs[k]
                    }));
                    assert(mid[k].edge() == old_rs[k].edge());
                }
            }
            e = e + 1;
        }
        assert(snap.take(snap.len() as int) =~= snap);
        assert(self@ =~= with_snapshot(old_rs, snap));
    }

    /// Apply per-edge credits in order: every route on a credited edge adds the
    /// (non-zero) delta to its learned weight, saturating, and one `Reinforced`
    /// event per credit that changed some route is appended to `events`.
    pub fn reinforce_deltas(&mut self, deltas: &[(EdgeId, i16)], events: &mut Vec<RunEvent>)
        ensures
            final(self).keeps_gates(old(self)),
            final(self)@.len() == old(self)@.len(),
            forall|i: int| 0 <= i < old(self)@.len() ==> #[trigger] final(self)@[i] == (RouteView {
                learned: credited(deltas@.map_values(|e: (EdgeId, i16)| (e.0@, e.1)), old(self)@[i].edge(), old(self)@[i].learned),
                ..old(self)@[i]
            }),
            ({
                let credits = effective_credits(old(self)@, deltas@.map_values(|e: (EdgeId, i16)| (e.0@, e.1)));
                &&& final(events)@.len() == old(events)@.len() + credits.len()
                &&& forall|k: int| 0 <= k < old(events)@.len() ==> #[trigger] final(events)@[k] == old(events)@[k]
                &&& forall|k: int| 0 <= k < credits.len() ==> reports_credit(#[trigger] final(events)@[old(events)@.len() + k], credits[k])
            }),
    {
        let ghost old_rs = self@;
        let ghost og = self.routes@;
        let ghost old_events = events@;
        let ghost ds = deltas@.map_values(|e: (EdgeId, i16)| (e.0@, e.1));
        let mut e: usize = 0;
        while e < deltas.len()
            invariant
                gates_kept(self.routes@, og),
                e <= ds.len(),
                ds.len() == deltas@.len(),
                ds == deltas@.map_values(|e: (EdgeId, i16)| (e.0@, e.1)),
                self@.len() == old_rs.len(),
                forall|k: int| 0 <= k < old_rs.len() ==> #[trigger] self@[k] == (RouteView {
                    learned: credited(ds.take(e as int), old_rs[k].edge(), old_rs[k].learned),
                    ..old_rs[k]
                }),
                ({
                    let credits = effective_credits(old_rs, ds.take(e as int));
                    &&& events@.len() == old_events.len() + credits.len()
                    &&& forall|k: int| 0 <= k < old_events.len() ==> #[trigger] events@[k] == old_events[k]
                    &&& forall|k: int| 0 <= k < credits.len() ==> reports_credit(#[trigger] events@[old_events.len() + k], credits[k])
                }),
            decreases ds.len() - e,
        {
            let ghost mid = self@;
            let ghost mid_events = events@;
            let edge = &deltas[e].0;
            let delta = deltas[e].1;
            assert(ds[e as int] == (edge@, delta));
            assert(ds.take(e + 1).drop_last() =~= ds.take(e as int));
            assert(ds.take(e + 1).last() == ds[e as int]);
            let mut changed = false;
            if delta != 0 {
                let mut i: usize = 0;
                while i < self.routes.len()
                    invariant
                        gates_kept(self.routes@, og),
                        i <= self.routes@.len(),
                        delta != 0,
                        self@.len() == old_rs.len(),
                        mid.len() == old_rs.len(),
                        forall|k: int| 0 <= k < old_rs.len() ==> #[trigger] mid[k].edge() == old_rs[k].edge(),
                        changed <==> exists|k: int| 0 <= k < i && #[trigger] old_rs[k].edge() == edge@,
                        forall|k: int| 0 <= k < i ==> #[trigger] self@[k] == (if mid[k].edge() == edge@ {
                            RouteView { learned: clamp16(mid[k].learned + delta) as i16, ..mid[k] }
                        } else {
                            mid[k]
                        }),
                        forall|k: int| i <= k < old_rs.len() ==> #[trigger] self@[k] == mid[k],
                    decreases self.routes@.len() - i,
                {
                    let ghost before = self@;
                    let ghost before_routes = self.routes@;
                    assert(self@[i as int] == mid[i as int]);
                    assert(self@[i as int] == self.routes@[i as int]@);
                    assert(mid[i as int].edge() == old_rs[i as int].edge());
                    if self.routes[i].on_edge(edge) {
                        self.routes[i].reinforce(delta);
                        changed = true;
                    }
                    assert(self@[i as int] == self.routes@[i as int]@);
                    assert forall|k: int| 0 <= k < old_rs.len() && k != i implies #[trigger] self@[k] == before[k] by {
                        assert(self.routes@[k] == before_routes[k]);
                        assert(self@[k] == self.routes@[k]@);
                        assert(before[k] == before_routes[k]@);
                    }
                    assert(gates_kept(self.routes@, og)) by {
                        assert forall|k: int, s: Signal<P>, x: bool| 0 <= k < og.len() implies #[trigger] self.routes@[k].gate_may_admit(&s, x) == og[k].gate_may_admit(&s, x) by {
                            if k != i {
                                assert(self.routes@[k] == before_routes[k]);
                            } else {
                                assert(before_routes[k].gate_may_admit(&s, x) == og[k].gate_may_admit(&s, x));
                            }
                        }
                    }
                    i = i + 1;
                }
                if changed {
                    events.push(RunEvent::Reinforced { edge: edge.clone(), delta });
                }
            }
            proof {
                assert forall|k: int| 0 <= k < old_rs.len() implies #[trigger] self@[k] == (RouteView {
                    learned: credited(ds.take(e + 1), old_rs[k].edge(), old_rs[k].learned),
                    ..old_rs[k]
                }) by {
                    assert(mid[k] == (RouteView {
                        learned: credited(ds.take(e as int), old_rs[k].edge(), old_rs[k].learned),
                        ..old_rs[k]
                    }));
                }
                if delta != 0 {
                    assert(changed == has_edge(old_rs, edge@));
                } else {
                    assert(!changed);
                }
                let credits = effective_credits(old_rs, ds.take(e + 1));
                let prev_credits = effective_credits(old_rs, ds.take(e as int));
                assert forall|k: int| 0 <= k < credits.len() implies reports_credit(#[trigger] events@[old_events.len() + k], credits[k]) by {
                    if k < prev_credits.len() {
                        assert(events@[old_events.len() + k] == mid_events[old_events.len() + k]);
                    }
                }
            }
            e = e + 1;
        }
        assert(ds.take(ds.len() as int) =~= ds);
    }
}

/// Rescale one learned weight by `max_total / total`, rounding toward zero.
fn rescale_learned(l: i16, max_total: u64, total: u64) -> (r: i16)
    requires
        max_total < total,
    ensures
        r == rescale(l as int, max_total as int, total as int),
{
    let a: u128 = if l < 0 {
        (-(l as i32)) as u128
    } else {
        l as u128
    };
    let m = max_total as u128;
    let t = total as u128;
    assert(a <= 32768);
    assert(a * m <= 32768 * 0xffff_ffff_ffff_ffff) by (nonlinear_arith)
        requires
            a <= 32768,
            m <= 0xffff_ffff_ffff_ffff,
    ;
    let q = (a * m) / t;
    assert(q <= a) by (nonlinear_arith)
        requires
            m < t,
            q as int == (a as int * m as int) / (t as int),
            t > 0,
            a >= 0,
    {
        assert(a * m <= a * t);
    }
    if l < 0 {
        (-(q as i32)) as i16
    } else {
        q as i16
    }
}

/// Scaled by its true total, learning over budget ends within the budget.
pub proof fn lemma_homeostasis_caps(rs: Seq<RouteView>, max_total: int)
    requires
        0 <= max_total < learned_total(rs),
    ensures
        learned_total(homeostasis(rs, max_total, learned_total(rs))) <= max_total,
{
    let t = learned_total(rs);
    lemma_scaled_total(rs, max_total, t);
    let o = learned_total(homeostasis(rs, max_total, t));
    assert(o <= max_total) by (nonlinear_arith)
        requires
            o * t <= max_total * t,
            t > 0,
    ;
}

proof fn lemma_scaled_total(rs: Seq<RouteView>, m: int, t: int)
    requires
        0 <= m < t,
    ensures
        learned_total(homeostasis(rs, m, t)) * t <= m * learned_total(rs),
    decreases rs.len(),
{
    let out = homeostasis(rs, m, t);
    if rs.len() > 0 {
        let prev = rs.drop_last();
        lemma_scaled_total(prev, m, t);
        assert(homeostasis(prev, m, t) =~= out.drop_last());
        let l = rs.last().learned as int;
        let a = abs_int(l);
        let q = (a * m) / t;
        assert(0 <= q <= a && q * t <= a * m) by (nonlinear_arith)
            requires
                q == (a * m) / t,
                0 <= a,
                0 <= m < t,
        {
            assert(a * m <= a * t);
        }
        assert(out.last() == out[out.len() - 1]);
        assert(out.last().learned as int == rescale(l, m, t));
        assert(abs_int(out.last().learned as int) == q);
        let p = learned_total(homeostasis(prev, m, t));
        let lp = learned_total(prev);
        assert((p + q) * t <= m * (lp + a)) by (nonlinear_arith)
            requires
                p * t <= m * lp,
                q * t <= a * m,
        ;
    }
}

pub proof fn lemma_learned_total_nonneg(rs: Seq<RouteView>)
    ensures
        learned_total(rs) >= 0,
    decreases rs.len(),
{
    if rs.len() > 0 {
        lemma_learned_total_nonneg(rs.drop_last());
    }
}

impl<P> Default for RoutingTable<P> {
    fn default() -> (r: Self)
        ensures
            r@ == Seq::<RouteView>::empty(),
    {
        RoutingTable::new()
    }
}

/// Why selection could not decide.
#[derive(Debug, Clone, PartialEq, Eq)]
pub enum RoutingError {
    /// Several admitted routes from `from` tie at the top `weight`.
    AmbiguousRoute { from: EndpointId, weight: Weight },
}

impl RoutingError {
    /// A human-readable account of the error.
    pub fn to_string(&self) -> (r: String)
        ensures
            match self {
                RoutingError::AmbiguousRoute { from, weight } => r@ == "ambiguous admitted routes from "@
                    + endpoint_text(from@) + " at weight "@ + signed_decimal(weight.get() as int),
            },
    {
        match self {
            RoutingError::AmbiguousRoute { from, weight } => {
                let mut s = String::from_str("ambiguous admitted routes from ");
                let f = from.to_string();
                s.append(f.as_str());
                s.append(" at weight ");
                let w = weight.to_string();
                s.append(w.as_str());
                s
            },
        }
    }
}

} // verus!
