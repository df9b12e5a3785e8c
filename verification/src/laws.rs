use vstd::prelude::*;

use crate::event::EventView;
use crate::id::Endpoint;
use crate::report::{trace_view, RunReport, RunStatus};
use crate::route::{clamp16, RouteView};
use crate::routing::{
    abs_int, candidate, homeostasis, learned_total, lemma_homeostasis_caps, learned_snapshot, lemma_ranks_order, margin_picks, ranks_before,
    rescale, restored, select_picks, top_ranked, unbiased, with_biases, with_snapshot,
};
use crate::runtime::{
    chained, cost_sum, occurrences, outcome_along, passage_events, run_outcome, walked, RunConfig,
};
use crate::module::{ModuleError, ModuleOutput};
use crate::routing::{select_outcome, strongest, RoutingError, RoutingTable};
use crate::signal::Signal;
use crate::working_memory::{distinct_keys, key_index, lemma_oldest_unheld, oldest_unheld, updated};

verus! {

/// Applying a profile replaces whatever profile was applied before: the
/// earlier profile leaves no trace.
pub proof fn law_profile_replaces(
    rs: Seq<RouteView>,
    first: Seq<((Endpoint, Seq<char>), i16)>,
    second: Seq<((Endpoint, Seq<char>), i16)>,
)
    ensures
        with_biases(with_biases(rs, first), second) == with_biases(rs, second),
{
    assert(with_biases(with_biases(rs, first), second) =~= with_biases(rs, second));
}

/// Clearing a profile undoes it: the routes are as if no profile had been
/// applied, and a table that carried no bias gets back exactly its routes.
pub proof fn law_clear_undoes_profile(rs: Seq<RouteView>, biases: Seq<((Endpoint, Seq<char>), i16)>)
    ensures
        unbiased(with_biases(rs, biases)) == unbiased(rs),
        (forall|i: int| 0 <= i < rs.len() ==> #[trigger] rs[i].bias == 0) ==> unbiased(
            with_biases(rs, biases),
        ) == rs,
{
    assert(unbiased(with_biases(rs, biases)) =~= unbiased(rs));
    if forall|i: int| 0 <= i < rs.len() ==> #[trigger] rs[i].bias == 0 {
        assert forall|i: int| 0 <= i < rs.len() implies #[trigger] unbiased(rs)[i] == rs[i] by {
            assert(rs[i].bias == 0);
        }
        assert(unbiased(rs) =~= rs);
    }
}

/// A profile changes only biases: wiring, base weights, learning, signs and
/// costs stay as they were.
pub proof fn law_profile_keeps_the_rest(rs: Seq<RouteView>, biases: Seq<((Endpoint, Seq<char>), i16)>)
    ensures
        with_biases(rs, biases).len() == rs.len(),
        forall|i: int|
            0 <= i < rs.len() ==> (#[trigger] with_biases(rs, biases)[i] == RouteView {
                bias: with_biases(rs, biases)[i].bias,
                ..rs[i]
            }),
{
}

/// The edges of `rs` are pairwise distinct.
pub open spec fn distinct_edges(rs: Seq<RouteView>) -> bool {
    forall|i: int, j: int| 0 <= i < j < rs.len() ==> rs[i].edge() != rs[j].edge()
}

proof fn lemma_restored_prefix(rs: Seq<RouteView>, i: int, cur: i16, n: int)
    requires
        distinct_edges(rs),
        0 <= i < rs.len(),
        0 <= n <= rs.len(),
    ensures
        restored(learned_snapshot(rs).take(n), rs[i].edge(), cur) == if n > i {
            rs[i].learned
        } else {
            cur
        },
    decreases n,
{
    let snap = learned_snapshot(rs);
    if n > 0 {
        assert(snap.take(n).drop_last() =~= snap.take(n - 1));
        assert(snap.take(n).last() == (rs[n - 1].edge(), rs[n - 1].learned));
        if n - 1 != i {
            if n - 1 < i {
                assert(rs[n - 1].edge() != rs[i].edge());
            } else {
                assert(rs[i].edge() != rs[n - 1].edge());
            }
        }
        lemma_restored_prefix(rs, i, cur, n - 1);
    }
}

/// Persistence round trip: restoring a snapshot of `rs` into a table with the
/// same wiring gives every route the learned weight it had in `rs`, and
/// leaves everything else alone. Routes on one edge share a snapshot entry,
/// so the edges must be distinct.
pub proof fn law_snapshot_round_trip(rs: Seq<RouteView>, other: Seq<RouteView>)
    requires
        distinct_edges(rs),
        other.len() == rs.len(),
        forall|i: int| 0 <= i < rs.len() ==> #[trigger] other[i].edge() == rs[i].edge(),
    ensures
        with_snapshot(other, learned_snapshot(rs)).len() == other.len(),
        forall|i: int|
            0 <= i < other.len() ==> #[trigger] with_snapshot(other, learned_snapshot(rs))[i] == (
            RouteView { learned: rs[i].learned, ..other[i] }),
        with_snapshot(rs, learned_snapshot(rs)) == rs,
{
    let snap = learned_snapshot(rs);
    assert(snap.take(rs.len() as int) =~= snap);
    assert forall|i: int| 0 <= i < other.len() implies #[trigger] with_snapshot(other, snap)[i] == (
    RouteView { learned: rs[i].learned, ..other[i] }) by {
        lemma_restored_prefix(rs, i, other[i].learned, rs.len() as int);
    }
    assert forall|i: int| 0 <= i < rs.len() implies #[trigger] with_snapshot(rs, snap)[i] == rs[i] by {
        lemma_restored_prefix(rs, i, rs[i].learned, rs.len() as int);
    }
    assert(with_snapshot(rs, snap) =~= rs);
}

proof fn lemma_rescale_bounds(a: int, max_total: int, total: int)
    requires
        0 <= a,
        0 <= max_total < total,
    ensures
        0 <= (a * max_total) / total <= a,
{
    assert(0 <= (a * max_total) / total <= a) by (nonlinear_arith)
        requires
            0 <= a,
            0 <= max_total < total,
    {
        assert(a * max_total <= a * total);
    }
}

proof fn lemma_rescale_monotone(a: int, b: int, max_total: int, total: int)
    requires
        0 <= a <= b,
        0 <= max_total < total,
    ensures
        (a * max_total) / total <= (b * max_total) / total,
{
    assert(a * max_total <= b * max_total) by (nonlinear_arith)
        requires
            0 <= a <= b,
            0 <= max_total,
    ;
    assert((a * max_total) / total <= (b * max_total) / total) by (nonlinear_arith)
        requires
            a * max_total <= b * max_total,
            0 < total,
    ;
}

/// Homeostatic scaling over budget shrinks learning without distorting it:
/// every learned weight keeps its sign, its magnitude does not grow, the
/// order between any two learned weights is kept, nothing but learning
/// changes, and scaled by the true total the learning ends within the
/// budget. Within budget nothing changes at all.
pub proof fn law_homeostasis_preserves_relative_strength(rs: Seq<RouteView>, max_total: int, total: int)
    requires
        0 <= max_total,
    ensures
        total <= max_total ==> homeostasis(rs, max_total, total) == rs,
        total == learned_total(rs) && total > max_total ==> learned_total(homeostasis(rs, max_total, total))
            <= max_total,
        homeostasis(rs, max_total, total).len() == rs.len(),
        forall|i: int|
            0 <= i < rs.len() ==> (#[trigger] homeostasis(rs, max_total, total)[i] == RouteView {
                learned: homeostasis(rs, max_total, total)[i].learned,
                ..rs[i]
            }),
        forall|i: int|
            0 <= i < rs.len() ==> {
                let l = rs[i].learned as int;
                let n = (#[trigger] homeostasis(rs, max_total, total)[i]).learned as int;
                &&& abs_int(n) <= abs_int(l)
                &&& (l >= 0 ==> n >= 0)
                &&& (l <= 0 ==> n <= 0)
            },
        forall|i: int, j: int|
            0 <= i < rs.len() && 0 <= j < rs.len() && rs[i].learned <= rs[j].learned ==> (
            #[trigger] homeostasis(rs, max_total, total)[i]).learned <= (#[trigger] homeostasis(
                rs,
                max_total,
                total,
            )[j]).learned,
{
    let out = homeostasis(rs, max_total, total);
    if total == learned_total(rs) && total > max_total {
        lemma_homeostasis_caps(rs, max_total);
    }
    if total > max_total {
        assert forall|i: int| 0 <= i < rs.len() implies {
            let l = rs[i].learned as int;
            let n = (#[trigger] out[i]).learned as int;
            &&& abs_int(n) <= abs_int(l)
            &&& (l >= 0 ==> n >= 0)
            &&& (l <= 0 ==> n <= 0)
        } by {
            let l = rs[i].learned as int;
            lemma_rescale_bounds(abs_int(l), max_total, total);
            assert(out[i].learned as int == rescale(l, max_total, total));
        }
        assert forall|i: int, j: int|
            0 <= i < rs.len() && 0 <= j < rs.len() && rs[i].learned <= rs[j].learned implies (
            #[trigger] out[i]).learned <= (#[trigger] out[j]).learned by {
            let a = rs[i].learned as int;
            let b = rs[j].learned as int;
            lemma_rescale_bounds(abs_int(a), max_total, total);
            lemma_rescale_bounds(abs_int(b), max_total, total);
            assert(out[i].learned as int == rescale(a, max_total, total));
            assert(out[j].learned as int == rescale(b, max_total, total));
            if 0 <= a {
                lemma_rescale_monotone(a, b, max_total, total);
            } else if b < 0 {
                lemma_rescale_monotone(-b, -a, max_total, total);
            }
        }
    }
}

/// Working memory: writing under a key that is already stored overwrites
/// that slot's value in place. The slot keeps its position and its hold, so
/// a held key stays held, and every other slot is left as it was.
pub proof fn law_overwrite_keeps_the_hold<T>(
    slots: Seq<(Seq<char>, T, bool)>,
    capacity: int,
    key: Seq<char>,
    value: T,
    p: int,
)
    requires
        distinct_keys(slots),
        0 <= p < slots.len(),
        slots[p].0 == key,
    ensures
        updated(slots, capacity, key, value) matches Some(t) && {
            &&& t.len() == slots.len()
            &&& t[p] == (key, value, slots[p].2)
            &&& key_index(t, key) == Some(p)
            &&& forall|i: int| 0 <= i < slots.len() && i != p ==> #[trigger] t[i] == slots[i]
        },
{
    let q = key_index(slots, key)->0;
    assert(slots[q].0 == key);
    if q != p {
        if q < p {
            assert(slots[q].0 != slots[p].0);
        } else {
            assert(slots[p].0 != slots[q].0);
        }
    }
    let t = updated(slots, capacity, key, value)->0;
    assert(t[p].0 == key);
    let c = key_index(t, key)->0;
    if c != p {
        if c < p {
            assert(t[c] == slots[c]);
            assert(slots[c].0 != slots[p].0);
        } else {
            assert(t[c] == slots[c]);
            assert(slots[p].0 != slots[c].0);
        }
    }
}

/// Working memory: a write never evicts a held slot, never grows the
/// scratchpad past its capacity, and reads back what was written. It is
/// refused exactly when the key is new, the scratchpad is full, and every
/// slot is held.
pub proof fn law_held_slots_survive_updates<T>(
    slots: Seq<(Seq<char>, T, bool)>,
    capacity: int,
    key: Seq<char>,
    value: T,
)
    requires
        distinct_keys(slots),
        1 <= capacity,
        slots.len() <= capacity,
    ensures
        (updated(slots, capacity, key, value) is None) <==> (key_index(slots, key) is None && slots.len()
            >= capacity && forall|i: int| 0 <= i < slots.len() ==> (#[trigger] slots[i]).2),
        updated(slots, capacity, key, value) matches Some(t) ==> {
            &&& t.len() <= capacity
            &&& distinct_keys(t)
            &&& key_index(t, key) matches Some(q) && t[q].1 == value
            &&& forall|i: int|
                0 <= i < slots.len() && (#[trigger] slots[i]).2 && slots[i].0 != key ==> t.contains(slots[i])
        },
{
    match updated(slots, capacity, key, value) {
        Some(t) => {
            match key_index(slots, key) {
                Some(p) => {
                    assert(t == slots.update(p, (key, value, slots[p].2)));
                    assert forall|i: int, j: int| 0 <= i < j < t.len() implies (#[trigger] t[i]).0 != (
                    #[trigger] t[j]).0 by {
                        assert(slots[i].0 != slots[j].0);
                    }
                    assert(t[p].0 == key);
                    assert forall|i: int|
                        0 <= i < slots.len() && (#[trigger] slots[i]).2 && slots[i].0 != key implies t.contains(
                        slots[i],
                    ) by {
                        assert(i != p);
                        assert(t[i] == slots[i]);
                    }
                },
                None => {
                    if slots.len() >= capacity {
                        let w = choose|i: int| 0 <= i < slots.len() && !(#[trigger] slots[i]).2;
                        lemma_oldest_unheld(slots, w);
                    }
                    let mid = if slots.len() < capacity {
                        slots
                    } else {
                        slots.remove(oldest_unheld(slots)->0)
                    };
                    assert(t == mid.push((key, value, false)));
                    assert forall|i: int| 0 <= i < mid.len() implies (#[trigger] mid[i]).0 != key by {
                        if slots.len() >= capacity {
                            let v = oldest_unheld(slots)->0;
                            let a = if i < v { i } else { i + 1 };
                            assert(mid[i] == slots[a]);
                        }
                    }
                    assert forall|i: int, j: int| 0 <= i < j < t.len() implies (#[trigger] t[i]).0 != (
                    #[trigger] t[j]).0 by {
                        if j < mid.len() {
                            if slots.len() >= capacity {
                                let v = oldest_unheld(slots)->0;
                                let a = if i < v { i } else { i + 1 };
                                let b = if j < v { j } else { j + 1 };
                                assert(mid[i] == slots[a]);
                                assert(mid[j] == slots[b]);
                            }
                        } else {
                            assert(t[i] == mid[i]);
                        }
                    }
                    assert(t[t.len() - 1].0 == key);
                    let q = key_index(t, key)->0;
                    assert(q == t.len() - 1);
                    assert forall|i: int|
                        0 <= i < slots.len() && (#[trigger] slots[i]).2 && slots[i].0 != key implies t.contains(
                        slots[i],
                    ) by {
                        if slots.len() < capacity {
                            assert(t[i] == slots[i]);
                        } else {
                            let v = oldest_unheld(slots)->0;
                            assert(i != v);
                            if i < v {
                                assert(t[i] == slots[i]);
                            } else {
                                assert(t[i - 1] == slots[i]);
                            }
                        }
                    }
                },
            }
        },
        None => {},
    }
}

/// Only an admitted excitatory route from the signal's endpoint is ever
/// selected: an inhibitory edge suppresses the competition but never fires.
pub proof fn law_selection_fires_only_excitatory_admitted_routes(
    rs: Seq<RouteView>,
    from: Endpoint,
    adm: Seq<bool>,
    i: int,
)
    requires
        select_picks(rs, from, adm, i),
    ensures
        0 <= i < rs.len(),
        rs[i].from == from,
        adm[i],
        rs[i].excitatory(),
{
}

/// Under a NoGo margin a sole candidate always acts, whatever the margin.
pub proof fn law_sole_candidate_acts(rs: Seq<RouteView>, from: Endpoint, adm: Seq<bool>, margin: i16, i: int)
    requires
        candidate(rs, from, adm, i),
        forall|j: int| #[trigger] candidate(rs, from, adm, j) ==> j == i,
    ensures
        margin_picks(rs, from, adm, margin, i),
{
}

/// Under any NoGo margin the route that acts strictly outweighs every other
/// candidate: a tie never acts.
pub proof fn law_margin_winner_is_strictly_strongest(
    rs: Seq<RouteView>,
    from: Endpoint,
    adm: Seq<bool>,
    margin: i16,
    i: int,
)
    requires
        margin_picks(rs, from, adm, margin, i),
    ensures
        forall|j: int| #[trigger] candidate(rs, from, adm, j) && j != i ==> rs[j].weight() < rs[i].weight(),
{
}

/// Gates decide selection: two tables with the same routes and gates,
/// asked for the same signal from the same endpoint, record the same answers
/// whenever every gate leaving it has only one answer it may give.
pub proof fn law_decisive_gates_answer_alike<P>(
    first: RoutingTable<P>,
    second: RoutingTable<P>,
    from: Endpoint,
    signal: Signal<P>,
    a: Seq<bool>,
    b: Seq<bool>,
)
    requires
        first@ == second@,
        second.keeps_gates(&first),
        forall|i: int|
            0 <= i < first@.len() && first@[i].from == from ==> !(#[trigger] first.gate_admits(i, signal, true)
                && first.gate_admits(i, signal, false)),
        first.answers(from, signal, a),
        second.answers(from, signal, b),
    ensures
        a == b,
{
    assert forall|i: int| 0 <= i < a.len() implies a[i] == b[i] by {
        if first@[i].from == from {
            assert(first.gate_admits(i, signal, a[i]));
            assert(second.gate_admits(i, signal, b[i]));
            assert(first.gate_admits(i, signal, b[i]));
        }
    }
    assert(a =~= b);
}

/// Plain selection is a function of the routes and the gates' answers: two
/// outcomes for the same answers agree, on the route picked or on the weight
/// of an ambiguous tie.
pub proof fn law_selection_is_determined_by_the_answers(
    rs: Seq<RouteView>,
    from: Endpoint,
    adm: Seq<bool>,
    first: Result<Option<usize>, RoutingError>,
    second: Result<Option<usize>, RoutingError>,
)
    requires
        select_outcome(rs, from, adm, first),
        select_outcome(rs, from, adm, second),
    ensures
        match (first, second) {
            (Ok(x), Ok(y)) => x == y,
            (Err(RoutingError::AmbiguousRoute { weight: w1, .. }), Err(RoutingError::AmbiguousRoute { weight: w2, .. })) => w1.get() == w2.get(),
            _ => false,
        },
{
    match (first, second) {
        (Ok(Some(i)), Ok(Some(j))) => {
            assert(candidate(rs, from, adm, j as int));
            assert(candidate(rs, from, adm, i as int));
        },
        (Ok(Some(i)), _) => {
            assert(candidate(rs, from, adm, i as int));
            if second is Err {
                let (a, b) = choose|a: int, b: int|
                    a != b && #[trigger] strongest(rs, from, adm, a) && #[trigger] strongest(rs, from, adm, b)
                        && rs[a].weight() == second->Err_0->weight.get() as int;
                assert(candidate(rs, from, adm, a));
                assert(candidate(rs, from, adm, b));
            } else if !(forall|j: int| !#[trigger] candidate(rs, from, adm, j)) {
                let k = choose|k: int| #[trigger] strongest(rs, from, adm, k) && crate::routing::vetoed(rs, from, adm, rs[k].weight());
                assert(candidate(rs, from, adm, k));
            }
        },
        (_, Ok(Some(j))) => {
            assert(candidate(rs, from, adm, j as int));
            if first is Err {
                let (a, b) = choose|a: int, b: int|
                    a != b && #[trigger] strongest(rs, from, adm, a) && #[trigger] strongest(rs, from, adm, b)
                        && rs[a].weight() == first->Err_0->weight.get() as int;
                assert(candidate(rs, from, adm, a));
                assert(candidate(rs, from, adm, b));
            } else if !(forall|i: int| !#[trigger] candidate(rs, from, adm, i)) {
                let k = choose|k: int| #[trigger] strongest(rs, from, adm, k) && crate::routing::vetoed(rs, from, adm, rs[k].weight());
                assert(candidate(rs, from, adm, k));
            }
        },
        (Ok(None), Ok(None)) => {},
        (Err(e1), Err(e2)) => {
            let (a, b) = choose|a: int, b: int|
                a != b && #[trigger] strongest(rs, from, adm, a) && #[trigger] strongest(rs, from, adm, b)
                    && rs[a].weight() == e1->weight.get() as int;
            let (c, d) = choose|a: int, b: int|
                a != b && #[trigger] strongest(rs, from, adm, a) && #[trigger] strongest(rs, from, adm, b)
                    && rs[a].weight() == e2->weight.get() as int;
            assert(candidate(rs, from, adm, a));
            assert(candidate(rs, from, adm, c));
        },
        (Ok(None), Err(e)) | (Err(e), Ok(None)) => {
            let (a, b) = choose|a: int, b: int|
                a != b && #[trigger] strongest(rs, from, adm, a) && #[trigger] strongest(rs, from, adm, b)
                    && rs[a].weight() == e->weight.get() as int;
            assert(candidate(rs, from, adm, a));
            if exists|k: int| #[trigger] strongest(rs, from, adm, k) && crate::routing::vetoed(rs, from, adm, rs[k].weight()) {
                let k = choose|k: int| #[trigger] strongest(rs, from, adm, k) && crate::routing::vetoed(rs, from, adm, rs[k].weight());
                assert(candidate(rs, from, adm, k));
            }
        },
    }
}

/// Clearing a profile restores selection: a table that carried no bias,
/// had a profile applied and then cleared, keeping its gates, selects for a
/// signal as it did before whenever every gate leaving the endpoint has only
/// one answer it may give.
pub proof fn law_cleared_profile_selects_as_before<P>(
    before: RoutingTable<P>,
    after: RoutingTable<P>,
    biases: Seq<((Endpoint, Seq<char>), i16)>,
    from: Endpoint,
    signal: Signal<P>,
    a: Seq<bool>,
    b: Seq<bool>,
    first: Result<Option<usize>, RoutingError>,
    second: Result<Option<usize>, RoutingError>,
)
    requires
        forall|i: int| 0 <= i < before@.len() ==> #[trigger] before@[i].bias == 0,
        after@ == unbiased(with_biases(before@, biases)),
        after.keeps_gates(&before),
        forall|i: int|
            0 <= i < before@.len() && before@[i].from == from ==> !(#[trigger] before.gate_admits(i, signal, true)
                && before.gate_admits(i, signal, false)),
        before.answers(from, signal, a),
        after.answers(from, signal, b),
        select_outcome(before@, from, a, first),
        select_outcome(after@, from, b, second),
    ensures
        match (first, second) {
            (Ok(x), Ok(y)) => x == y,
            (Err(RoutingError::AmbiguousRoute { weight: w1, .. }), Err(RoutingError::AmbiguousRoute { weight: w2, .. })) => w1.get() == w2.get(),
            _ => false,
        },
{
    law_clear_undoes_profile(before@, biases);
    law_decisive_gates_answer_alike(before, after, from, signal, a, b);
    law_selection_is_determined_by_the_answers(before@, from, a, first, second);
}

/// Every finished run stays within the runtime's limits: it takes no more
/// steps than the step limit, each step leaves from where the previous one
/// arrived along a route that could fire there, no edge is taken more often
/// than the stall threshold, and the routes taken cost no more than the
/// budget.
pub proof fn law_runs_stay_within_their_limits<P>(
    c: RunConfig,
    gates: spec_fn(int, Signal<P>, bool) -> bool,
    outputs: spec_fn(Seq<char>, Signal<P>, Result<ModuleOutput<P>, ModuleError>) -> bool,
    entry: Seq<char>,
    initial: Signal<P>,
    report: RunReport<P>,
    events: Seq<EventView>,
)
    requires
        run_outcome(c, gates, outputs, entry, initial, report, events),
    ensures
        trace_view(report.spec_steps()).len() <= c.limit,
        chained(entry, trace_view(report.spec_steps())),
        c.stall matches Some(t) ==> forall|k: int|
            0 <= k < trace_view(report.spec_steps()).len() ==> occurrences(
                trace_view(report.spec_steps()),
                #[trigger] trace_view(report.spec_steps())[k],
            ) <= t,
        exists|idx: Seq<int>, sigs: Seq<Signal<P>>|
            walked(c.routes, gates, c.margin, entry, trace_view(report.spec_steps()), idx, sigs) && (c.budget matches Some(
                b,
            ) ==> cost_sum(c.routes, idx) <= b),
{
    let (idx, sigs) = choose|idx: Seq<int>, sigs: Seq<Signal<P>>|
        #[trigger] outcome_along(c, gates, outputs, entry, initial, report, events, idx, sigs);
    assert(walked(c.routes, gates, c.margin, entry, trace_view(report.spec_steps()), idx, sigs));
}

/// Fan-out recruitment is deterministic and nested: for the same gate
/// answers, the top `small` routes are exactly the first ones of the top
/// `large` routes whenever `small <= large`; with equal limits the two
/// rankings are the same.
pub proof fn law_fan_out_is_a_prefix_of_larger_fan_out(
    rs: Seq<RouteView>,
    from: Endpoint,
    adm: Seq<bool>,
    small: usize,
    large: usize,
    first: Seq<usize>,
    second: Seq<usize>,
)
    requires
        small <= large,
        top_ranked(rs, from, adm, small, first),
        top_ranked(rs, from, adm, large, second),
    ensures
        first.len() <= second.len(),
        first == second.take(first.len() as int),
        small == large ==> first == second,
{
    let n = if first.len() < second.len() {
        first.len()
    } else {
        second.len()
    };
    // The two rankings agree position by position on their common length.
    assert forall|k: int| 0 <= k < n implies first[k] == second[k] by {
        lemma_rankings_agree_at(rs, from, adm, small, large, first, second, k);
    }
    if first.len() > second.len() {
        let extra = first[second.len() as int] as int;
        assert(candidate(rs, from, adm, extra));
        if second.contains(extra as usize) {
            let p = choose|p: int| 0 <= p < second.len() && second[p] == extra as usize;
            assert(first[p] == second[p]);
            lemma_ranks_order(rs, first[p] as int, first[p] as int, first[p] as int);
            assert(ranks_before_pair(rs, first, p, second.len() as int));
        } else {
            assert(second.len() == large);
        }
    }
    assert(first =~= second.take(first.len() as int));
    if small == large && first.len() < second.len() {
        let extra = second[first.len() as int] as int;
        assert(candidate(rs, from, adm, extra));
        if first.contains(extra as usize) {
            let p = choose|p: int| 0 <= p < first.len() && first[p] == extra as usize;
            assert(second[p] == first[p]);
            lemma_ranks_order(rs, second[p] as int, second[p] as int, second[p] as int);
            assert(ranks_before_pair(rs, second, p, first.len() as int));
        } else {
            assert(first.len() == small);
        }
    }
}

spec fn ranks_before_pair(rs: Seq<RouteView>, idx: Seq<usize>, a: int, b: int) -> bool {
    ranks_before(rs, idx[a] as int, idx[b] as int)
}

proof fn lemma_rankings_agree_at(
    rs: Seq<RouteView>,
    from: Endpoint,
    adm: Seq<bool>,
    small: usize,
    large: usize,
    first: Seq<usize>,
    second: Seq<usize>,
    k: int,
)
    requires
        small <= large,
        top_ranked(rs, from, adm, small, first),
        top_ranked(rs, from, adm, large, second),
        0 <= k < first.len(),
        k < second.len(),
    ensures
        first[k] == second[k],
    decreases k,
{
    if k > 0 {
        lemma_rankings_agree_at(rs, from, adm, small, large, first, second, k - 1);
    }
    assert forall|p: int| 0 <= p < k implies first[p] == second[p] by {
        lemma_rankings_agree_at(rs, from, adm, small, large, first, second, p);
    }
    let a = first[k] as int;
    let b = second[k] as int;
    if a != b {
        lemma_ranks_order(rs, a, b, a);
        if ranks_before(rs, a, b) {
            // `a` outranks `b`, so `second` must hold `a` before position `k`.
            if second.contains(a as usize) {
                let p = choose|p: int| 0 <= p < second.len() && second[p] == a as usize;
                if p < k {
                    assert(first[p] == second[p]);
                    assert(ranks_before(rs, first[p] as int, first[k] as int));
                    lemma_ranks_order(rs, a, a, a);
                } else {
                    assert(p != k);
                    assert(ranks_before(rs, second[k] as int, second[p] as int));
                }
            } else {
                assert(ranks_before(rs, second[k] as int, a));
            }
        } else {
            // `b` outranks `a`, so `first` must hold `b` before position `k`.
            if first.contains(b as usize) {
                let p = choose|p: int| 0 <= p < first.len() && first[p] == b as usize;
                if p < k {
                    assert(second[p] == first[p]);
                    assert(ranks_before(rs, second[p] as int, second[k] as int));
                    lemma_ranks_order(rs, b, b, b);
                } else {
                    assert(p != k);
                    assert(ranks_before(rs, first[k] as int, first[p] as int));
                }
            } else {
                assert(ranks_before(rs, first[k] as int, b));
            }
        }
    }
}

proof fn lemma_passage_len(steps: Seq<(Endpoint, Seq<char>)>)
    ensures
        passage_events(steps).len() == 2 * steps.len(),
    decreases steps.len(),
{
    if steps.len() > 0 {
        lemma_passage_len(steps.drop_last());
    }
}

/// The event stream mirrors the trace: every hop is announced when it is
/// entered and when its module emits, except that the last hop of a stopped
/// or dropped run ends in its stop or drop event, and a halted run adds one
/// `Halted` event (after a `Stalled` event when the stall guard halted it).
pub proof fn law_events_mirror_the_trace<P>(
    c: RunConfig,
    gates: spec_fn(int, Signal<P>, bool) -> bool,
    outputs: spec_fn(Seq<char>, Signal<P>, Result<ModuleOutput<P>, ModuleError>) -> bool,
    entry: Seq<char>,
    initial: Signal<P>,
    report: RunReport<P>,
    events: Seq<EventView>,
)
    requires
        run_outcome(c, gates, outputs, entry, initial, report, events),
    ensures
        ({
            let n = trace_view(report.spec_steps()).len();
            match report.spec_status() {
                RunStatus::Stopped(_) => events.len() == 2 * n && events.last() is Stopped,
                RunStatus::Dropped { .. } => events.len() == 2 * n && events.last() is Dropped,
                RunStatus::NoRoute { .. } => events.len() == 2 * n,
                RunStatus::Halted { .. } => (events.len() == 2 * n + 1 || events.len() == 2 * n + 2)
                    && events.last() is Halted,
            }
        }),
{
    let steps = trace_view(report.spec_steps());
    let (idx, sigs) = choose|idx: Seq<int>, sigs: Seq<Signal<P>>|
        #[trigger] outcome_along(c, gates, outputs, entry, initial, report, events, idx, sigs);
    lemma_passage_len(steps);
    if steps.len() > 0 {
        lemma_passage_len(steps.drop_last());
    }
}

} // verus!
