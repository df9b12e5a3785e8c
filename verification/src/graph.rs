use vstd::prelude::*;

use crate::id::{
    endpoint_lt, lemma_endpoint_total, lemma_endpoint_transitive, lemma_lex_irreflexive,
    lemma_lex_total, lemma_lex_transitive, lex_lt, Endpoint, EndpointId, ModuleId,
};

verus! {

/// The views of a sequence of endpoints.
pub open spec fn endpoint_views(v: Seq<EndpointId>) -> Seq<Endpoint> {
    v.map_values(|e: EndpointId| e@)
}

/// The views of a sequence of module ids.
pub open spec fn module_views(v: Seq<ModuleId>) -> Seq<Seq<char>> {
    v.map_values(|m: ModuleId| m@)
}

/// Strictly ascending endpoints (hence without repeats).
pub open spec fn sorted_endpoints(v: Seq<Endpoint>) -> bool {
    forall|i: int, j: int| 0 <= i < j < v.len() ==> endpoint_lt(#[trigger] v[i], #[trigger] v[j])
}

/// Strictly ascending module names (hence without repeats).
pub open spec fn sorted_modules(v: Seq<Seq<char>>) -> bool {
    forall|i: int, j: int| 0 <= i < j < v.len() ==> lex_lt(#[trigger] v[i], #[trigger] v[j])
}

/// The number of edges leaving `from`.
pub open spec fn out_count(es: Seq<(Endpoint, Seq<char>)>, from: Endpoint) -> nat
    decreases es.len(),
{
    if es.len() == 0 {
        0
    } else {
        out_count(es.drop_last(), from) + if es.last().0 == from {
            1nat
        } else {
            0nat
        }
    }
}

/// The number of edges arriving at module `to`.
pub open spec fn in_count(es: Seq<(Endpoint, Seq<char>)>, to: Seq<char>) -> nat
    decreases es.len(),
{
    if es.len() == 0 {
        0
    } else {
        in_count(es.drop_last(), to) + if es.last().1 == to {
            1nat
        } else {
            0nat
        }
    }
}

/// `n` appears as the source or the target of some edge.
pub open spec fn graph_node(es: Seq<(Endpoint, Seq<char>)>, n: Endpoint) -> bool {
    exists|k: int| 0 <= k < es.len() && (es[k].0 == n || Endpoint::Module(es[k].1) == n)
}

/// The targets of the edges leaving `from`, in edge order.
pub open spec fn targets_of(es: Seq<(Endpoint, Seq<char>)>, from: Endpoint) -> Seq<Seq<char>>
    decreases es.len(),
{
    if es.len() == 0 {
        Seq::empty()
    } else if es.last().0 == from {
        targets_of(es.drop_last(), from).push(es.last().1)
    } else {
        targets_of(es.drop_last(), from)
    }
}

/// There is a directed edge `from -> to`.
pub open spec fn linked(es: Seq<(Endpoint, Seq<char>)>, from: Endpoint, to: Seq<char>) -> bool {
    exists|k: int| 0 <= k < es.len() && #[trigger] es[k] == (from, to)
}

/// `p` is a non-empty walk of modules that starts with an edge out of `start`.
pub open spec fn is_walk(es: Seq<(Endpoint, Seq<char>)>, start: Endpoint, p: Seq<Seq<char>>) -> bool {
    &&& p.len() > 0
    &&& linked(es, start, p[0])
    &&& forall|i: int| 0 <= i < p.len() - 1 ==> linked(es, Endpoint::Module(#[trigger] p[i]), p[i + 1])
}

/// Module `m` can be reached from `start` by following one or more edges.
pub open spec fn reaches(es: Seq<(Endpoint, Seq<char>)>, start: Endpoint, m: Seq<char>) -> bool {
    exists|p: Seq<Seq<char>>| #[trigger] is_walk(es, start, p) && p.last() == m
}

/// The total degree of module `m`.
pub open spec fn degree(es: Seq<(Endpoint, Seq<char>)>, m: Seq<char>) -> nat {
    in_count(es, m) + out_count(es, Endpoint::Module(m))
}

/// Module `m` is a node of one of the first `i` edges.
pub open spec fn module_in_prefix(es: Seq<(Endpoint, Seq<char>)>, i: int, m: Seq<char>) -> bool {
    exists|k: int| 0 <= k < i && (es[k].1 == m || es[k].0 == Endpoint::Module(m))
}

/// Module `m` ranks at most as high as `h` for the hub: lower degree, or the
/// same degree and a name no greater.
pub open spec fn hub_le(es: Seq<(Endpoint, Seq<char>)>, m: Seq<char>, h: Seq<char>) -> bool {
    ||| degree(es, m) < degree(es, h)
    ||| degree(es, m) == degree(es, h) && (m == h || lex_lt(m, h))
}

pub proof fn lemma_hub_le_refl(es: Seq<(Endpoint, Seq<char>)>, m: Seq<char>)
    ensures
        hub_le(es, m, m),
{
}

pub proof fn lemma_hub_le_trans(es: Seq<(Endpoint, Seq<char>)>, a: Seq<char>, b: Seq<char>, c: Seq<char>)
    requires
        hub_le(es, a, b),
        hub_le(es, b, c),
    ensures
        hub_le(es, a, c),
{
    if lex_lt(a, b) && lex_lt(b, c) {
        lemma_lex_transitive(a, b, c);
    }
}

/// `h` is the hub: a module node of the highest total degree, the greatest
/// name among those that tie.
pub open spec fn is_hub(es: Seq<(Endpoint, Seq<char>)>, h: Seq<char>) -> bool {
    &&& graph_node(es, Endpoint::Module(h))
    &&& forall|m: Seq<char>| #[trigger] graph_node(es, Endpoint::Module(m)) ==> hub_le(es, m, h)
}

/// A target listed by `targets_of` is exactly a target of some edge out of `from`.
pub proof fn lemma_targets_linked(es: Seq<(Endpoint, Seq<char>)>, from: Endpoint, t: Seq<char>)
    ensures
        targets_of(es, from).contains(t) <==> linked(es, from, t),
    decreases es.len(),
{
    if es.len() > 0 {
        lemma_targets_linked(es.drop_last(), from, t);
        let prev = targets_of(es.drop_last(), from);
        if linked(es.drop_last(), from, t) {
            let k = choose|k: int| 0 <= k < es.drop_last().len() && #[trigger] es.drop_last()[k] == (from, t);
            assert(es[k] == (from, t));
        }
        if linked(es, from, t) {
            let k = choose|k: int| 0 <= k < es.len() && #[trigger] es[k] == (from, t);
            if k < es.len() - 1 {
                assert(es.drop_last()[k] == (from, t));
            }
        }
        if es.last().0 == from {
            let cur = prev.push(es.last().1);
            if cur.contains(t) {
                let k = choose|k: int| 0 <= k < cur.len() && cur[k] == t;
                if k < prev.len() {
                    assert(prev[k] == t);
                } else {
                    assert(es[es.len() - 1] == (from, t));
                }
            }
            if prev.contains(t) {
                let k = choose|k: int| 0 <= k < prev.len() && prev[k] == t;
                assert(cur[k] == t);
            }
            if t == es.last().1 {
                assert(cur[prev.len() as int] == t);
            }
        } else {
            if linked(es, from, t) {
                let k = choose|k: int| 0 <= k < es.len() && #[trigger] es[k] == (from, t);
                assert(k < es.len() - 1);
                assert(es.drop_last()[k] == (from, t));
            }
        }
    }
}

/// A strictly ascending sequence of names, each the target of some edge, is no
/// longer than the edge list.
proof fn lemma_targets_bound(seen: Seq<Seq<char>>, es: Seq<(Endpoint, Seq<char>)>)
    requires
        sorted_modules(seen),
        forall|i: int| 0 <= i < seen.len() ==> exists|k: int| 0 <= k < es.len() && es[k].1 == #[trigger] seen[i],
    ensures
        seen.len() <= es.len(),
{
    let ts = es.map_values(|e: (Endpoint, Seq<char>)| e.1);
    assert(seen.no_duplicates()) by {
        assert forall|i: int, j: int| 0 <= i < seen.len() && 0 <= j < seen.len() && i != j implies seen[i] != seen[j] by {
            if i < j {
                lemma_lex_total(seen[i], seen[j]);
            } else {
                lemma_lex_total(seen[j], seen[i]);
            }
        }
    }
    seen.unique_seq_to_set();
    ts.lemma_cardinality_of_set();
    assert(seen.to_set().subset_of(ts.to_set())) by {
        assert forall|m: Seq<char>| seen.to_set().contains(m) implies ts.to_set().contains(m) by {
            let i = choose|i: int| 0 <= i < seen.len() && seen[i] == m;
            let k = choose|k: int| 0 <= k < es.len() && es[k].1 == #[trigger] seen[i];
            assert(ts[k] == m);
        }
    }
    vstd::set_lib::lemma_len_subset(seen.to_set(), ts.to_set());
}

/// In a set of modules closed under the edges out of `start` and out of its
/// own members, every walk from `start` stays inside the set.
proof fn lemma_walk_closed(
    es: Seq<(Endpoint, Seq<char>)>,
    start: Endpoint,
    seen: Seq<Seq<char>>,
    p: Seq<Seq<char>>,
    i: int,
)
    requires
        is_walk(es, start, p),
        0 <= i < p.len(),
        forall|t: Seq<char>| linked(es, start, t) ==> seen.contains(t),
        forall|m: Seq<char>, t: Seq<char>| seen.contains(m) && #[trigger] linked(es, Endpoint::Module(m), t) ==> seen.contains(t),
    ensures
        seen.contains(p[i]),
    decreases i,
{
    if i > 0 {
        lemma_walk_closed(es, start, seen, p, i - 1);
        assert(linked(es, Endpoint::Module(p[i - 1]), p[i]));
    }
}

/// A strictly ascending vector of endpoints, keeping it so.
fn insert_endpoint(v: &mut Vec<EndpointId>, x: &EndpointId)
    requires
        sorted_endpoints(endpoint_views(old(v)@)),
    ensures
        sorted_endpoints(endpoint_views(final(v)@)),
        forall|n: Endpoint| #[trigger]
            endpoint_views(final(v)@).contains(n) <==> (endpoint_views(old(v)@).contains(n) || n
                == x@),
{
    let ghost old_v = endpoint_views(v@);
    let mut p: usize = 0;
    while p < v.len() && v[p].less(x)
        invariant
            p <= v@.len(),
            old_v == endpoint_views(v@),
            sorted_endpoints(old_v),
            forall|k: int| 0 <= k < p ==> endpoint_lt(#[trigger] old_v[k], x@),
        decreases v@.len() - p,
    {
        p = p + 1;
    }
    if p < v.len() && v[p].same(x) {
        assert(old_v[p as int] == x@);
        assert forall|n: Endpoint| #[trigger] endpoint_views(v@).contains(n) <==> (old_v.contains(n)
            || n == x@) by {
            if n == x@ {
                assert(old_v[p as int] == n);
            }
        }
        return ;
    }
    proof {
        if p < v@.len() {
            lemma_endpoint_total(old_v[p as int], x@);
        }
    }
    v.insert(p, x.clone());
    let ghost new_v = endpoint_views(v@);
    assert(new_v =~= old_v.insert(p as int, x@)) by {
        assert forall|k: int| 0 <= k < new_v.len() implies new_v[k] == old_v.insert(p as int, x@)[k] by {
        }
    }
    assert forall|i: int, j: int| 0 <= i < j < new_v.len() implies endpoint_lt(
        #[trigger] new_v[i],
        #[trigger] new_v[j],
    ) by {
        if i < p && j == p {
        } else if i < p && j > p {
            assert(new_v[j] == old_v[j - 1]);
            if p < old_v.len() {
                assert(endpoint_lt(old_v[i], old_v[p as int])) by {
                    if i < p {
                    }
                }
                assert(endpoint_lt(x@, old_v[p as int]));
                if j - 1 > p {
                    assert(endpoint_lt(old_v[p as int], old_v[j - 1]));
                    lemma_endpoint_transitive(x@, old_v[p as int], old_v[j - 1]);
                }
                lemma_endpoint_transitive(old_v[i], x@, old_v[j - 1]);
            }
        } else if i == p {
            assert(new_v[j] == old_v[j - 1]);
            if j - 1 > p {
                assert(endpoint_lt(old_v[p as int], old_v[j - 1]));
                lemma_endpoint_transitive(x@, old_v[p as int], old_v[j - 1]);
            }
        } else if i > p {
            assert(new_v[i] == old_v[i - 1]);
            assert(new_v[j] == old_v[j - 1]);
        }
    }
    assert forall|n: Endpoint| #[trigger] new_v.contains(n) <==> (old_v.contains(n) || n == x@) by {
        if new_v.contains(n) {
            let k = choose|k: int| 0 <= k < new_v.len() && new_v[k] == n;
            if k < p {
                assert(old_v[k] == n);
            } else if k > p {
                assert(old_v[k - 1] == n);
            }
        }
        if old_v.contains(n) {
            let k = choose|k: int| 0 <= k < old_v.len() && old_v[k] == n;
            if k < p {
                assert(new_v[k] == n);
            } else {
                assert(new_v[k + 1] == n);
            }
        }
        if n == x@ {
            assert(new_v[p as int] == n);
        }
    }
}

/// Insert `x` into a strictly ascending vector of module ids, keeping it so;
/// reports whether `x` was new.
fn insert_module(v: &mut Vec<ModuleId>, x: &ModuleId) -> (r: bool)
    requires
        sorted_modules(module_views(old(v)@)),
    ensures
        r == !module_views(old(v)@).contains(x@),
        final(v)@.len() == old(v)@.len() + if r {
            1int
        } else {
            0int
        },
        sorted_modules(module_views(final(v)@)),
        forall|n: Seq<char>| #[trigger]
            module_views(final(v)@).contains(n) <==> (module_views(old(v)@).contains(n) || n
                == x@),
{
    let ghost old_v = module_views(v@);
    let mut p: usize = 0;
    while p < v.len() && v[p].less(x)
        invariant
            p <= v@.len(),
            old_v == module_views(v@),
            sorted_modules(old_v),
            forall|k: int| 0 <= k < p ==> lex_lt(#[trigger] old_v[k], x@),
        decreases v@.len() - p,
    {
        p = p + 1;
    }
    if p < v.len() && v[p].same(x) {
        assert(old_v[p as int] == x@);
        assert forall|n: Seq<char>| #[trigger] module_views(v@).contains(n) <==> (old_v.contains(n)
            || n == x@) by {
            if n == x@ {
                assert(old_v[p as int] == n);
            }
        }
        return false;
    }
    proof {
        if p < v@.len() {
            lemma_lex_total(old_v[p as int], x@);
        }
        assert(!old_v.contains(x@)) by {
            if old_v.contains(x@) {
                let k = choose|k: int| 0 <= k < old_v.len() && old_v[k] == x@;
                lemma_lex_irreflexive(x@);
                if k > p {
                    lemma_lex_total(old_v[p as int], x@);
                    lemma_lex_total(old_v[k], old_v[p as int]);
                }
            }
        }
    }
    v.insert(p, x.clone());
    let ghost new_v = module_views(v@);
    assert(new_v =~= old_v.insert(p as int, x@)) by {
        assert forall|k: int| 0 <= k < new_v.len() implies new_v[k] == old_v.insert(p as int, x@)[k] by {
        }
    }
    assert forall|i: int, j: int| 0 <= i < j < new_v.len() implies lex_lt(
        #[trigger] new_v[i],
        #[trigger] new_v[j],
    ) by {
        if i < p && j == p {
        } else if i < p && j > p {
            assert(new_v[j] == old_v[j - 1]);
            if p < old_v.len() {
                assert(lex_lt(x@, old_v[p as int]));
                if j - 1 > p {
                    assert(lex_lt(old_v[p as int], old_v[j - 1]));
                    lemma_lex_transitive(x@, old_v[p as int], old_v[j - 1]);
                }
                lemma_lex_transitive(old_v[i], x@, old_v[j - 1]);
            }
        } else if i == p {
            assert(new_v[j] == old_v[j - 1]);
            if j - 1 > p {
                assert(lex_lt(old_v[p as int], old_v[j - 1]));
                lemma_lex_transitive(x@, old_v[p as int], old_v[j - 1]);
            }
        } else if i > p {
            assert(new_v[i] == old_v[i - 1]);
            assert(new_v[j] == old_v[j - 1]);
        }
    }
    assert forall|n: Seq<char>| #[trigger] new_v.contains(n) <==> (old_v.contains(n) || n == x@) by {
        if new_v.contains(n) {
            let k = choose|k: int| 0 <= k < new_v.len() && new_v[k] == n;
            if k < p {
                assert(old_v[k] == n);
            } else if k > p {
                assert(old_v[k - 1] == n);
            }
        }
        if old_v.contains(n) {
            let k = choose|k: int| 0 <= k < old_v.len() && old_v[k] == n;
            if k < p {
                assert(new_v[k] == n);
            } else {
                assert(new_v[k + 1] == n);
            }
        }
        if n == x@ {
            assert(new_v[p as int] == n);
        }
    }
    true
}

/// A read-only view of the routing topology: directed edges from endpoints to
/// modules, answering degree, reachability and hub questions.
#[derive(Debug, Clone, Default)]
pub struct ModuleGraph {
    edges: Vec<(EndpointId, ModuleId)>,
}

impl View for ModuleGraph {
    type V = Seq<(Endpoint, Seq<char>)>;

    closed spec fn view(&self) -> Seq<(Endpoint, Seq<char>)> {
        self.edges@.map_values(|e: (EndpointId, ModuleId)| (e.0@, e.1@))
    }
}

impl ModuleGraph {
    pub fn new() -> (r: Self)
        ensures
            r@ == Seq::<(Endpoint, Seq<char>)>::empty(),
    {
        ModuleGraph { edges: Vec::new() }
    }

    /// Record a directed `from -> to` edge.
    pub fn insert(&mut self, from: EndpointId, to: ModuleId)
        ensures
            final(self)@ == old(self)@.push((from@, to@)),
    {
        self.edges.push((from, to));
        assert(self@ =~= old(self)@.push((from@, to@)));
    }

    pub fn edge_count(&self) -> (r: usize)
        ensures
            r == self@.len(),
    {
        self.edges.len()
    }

    /// Every distinct endpoint appearing as a source or target, ascending.
    pub fn nodes(&self) -> (r: Vec<EndpointId>)
        ensures
            sorted_endpoints(endpoint_views(r@)),
            forall|n: Endpoint| #[trigger]
                endpoint_views(r@).contains(n) <==> graph_node(self@, n),
    {
        let mut nodes: Vec<EndpointId> = Vec::new();
        let mut i: usize = 0;
        while i < self.edges.len()
            invariant
                i <= self@.len(),
                sorted_endpoints(endpoint_views(nodes@)),
                forall|n: Endpoint| #[trigger]
                    endpoint_views(nodes@).contains(n) <==> graph_node(self@.take(i as int), n),
            decreases self@.len() - i,
        {
            let ghost before = endpoint_views(nodes@);
            let e = &self.edges[i];
            assert(self@[i as int] == (e.0@, e.1@));
            insert_endpoint(&mut nodes, &e.0);
            let m = EndpointId::Module(e.1.clone());
            insert_endpoint(&mut nodes, &m);
            assert forall|n: Endpoint| #[trigger]
                endpoint_views(nodes@).contains(n) <==> graph_node(self@.take(i + 1), n) by {
                let t = self@.take(i + 1);
                if graph_node(t, n) {
                    let k = choose|k: int| 0 <= k < t.len() && (t[k].0 == n || Endpoint::Module(t[k].1) == n);
                    if k < i {
                        assert(self@.take(i as int)[k] == t[k]);
                        assert(graph_node(self@.take(i as int), n));
                    }
                }
                if graph_node(self@.take(i as int), n) {
                    let k = choose|k: int| 0 <= k < i && (self@.take(i as int)[k].0 == n || Endpoint::Module(self@.take(i as int)[k].1) == n);
                    assert(t[k] == self@.take(i as int)[k]);
                }
                if n == e.0@ || n == m@ {
                    assert(t[i as int] == self@[i as int]);
                }
            }
            i = i + 1;
        }
        assert(self@.take(self@.len() as int) =~= self@);
        nodes
    }

    /// The number of distinct endpoints.
    pub fn node_count(&self) -> (r: usize)
        ensures
            r == self@.to_set().map(|e: (Endpoint, Seq<char>)| e.0).union(
                self@.to_set().map(|e: (Endpoint, Seq<char>)| Endpoint::Module(e.1)),
            ).len(),
    {
        let nodes = self.nodes();
        proof {
            let v = endpoint_views(nodes@);
            let s = self@.to_set().map(|e: (Endpoint, Seq<char>)| e.0).union(
                self@.to_set().map(|e: (Endpoint, Seq<char>)| Endpoint::Module(e.1)),
            );
            assert(v.no_duplicates()) by {
                assert forall|i: int, j: int| 0 <= i < v.len() && 0 <= j < v.len() && i != j implies v[i] != v[j] by {
                    if i < j {
                        lemma_endpoint_total(v[i], v[j]);
                    } else {
                        lemma_endpoint_total(v[j], v[i]);
                    }
                }
            }
            assert(v.to_set() =~= s) by {
                assert forall|n: Endpoint| v.to_set().contains(n) <==> s.contains(n) by {
                    if v.to_set().contains(n) {
                        assert(v.contains(n));
                        assert(graph_node(self@, n));
                        let k = choose|k: int| 0 <= k < self@.len() && (self@[k].0 == n || Endpoint::Module(self@[k].1) == n);
                        assert(self@.to_set().contains(self@[k]));
                    }
                    if s.contains(n) {
                        let e = choose|e: (Endpoint, Seq<char>)| self@.to_set().contains(e) && (e.0 == n || Endpoint::Module(e.1) == n);
                        let k = choose|k: int| 0 <= k < self@.len() && self@[k] == e;
                        assert(graph_node(self@, n));
                        assert(v.contains(n));
                    }
                }
            }
            v.unique_seq_to_set();
        }
        nodes.len()
    }

    /// Number of edges leaving `from`.
    pub fn out_degree(&self, from: &EndpointId) -> (r: usize)
        ensures
            r == out_count(self@, from@),
    {
        let mut count: usize = 0;
        let mut i: usize = 0;
        while i < self.edges.len()
            invariant
                i <= self@.len(),
                count == out_count(self@.take(i as int), from@),
                count <= i,
            decreases self@.len() - i,
        {
            assert(self@.take(i + 1).drop_last() =~= self@.take(i as int));
            assert(self@[i as int] == (self.edges@[i as int].0@, self.edges@[i as int].1@));
            if self.edges[i].0.same(from) {
                count = count + 1;
            }
            i = i + 1;
        }
        assert(self@.take(self@.len() as int) =~= self@);
        count
    }

    /// Number of edges arriving at module `to`.
    pub fn in_degree(&self, to: &ModuleId) -> (r: usize)
        ensures
            r == in_count(self@, to@),
    {
        let mut count: usize = 0;
        let mut i: usize = 0;
        while i < self.edges.len()
            invariant
                i <= self@.len(),
                count == in_count(self@.take(i as int), to@),
                count <= i,
            decreases self@.len() - i,
        {
            assert(self@.take(i + 1).drop_last() =~= self@.take(i as int));
            assert(self@[i as int] == (self.edges@[i as int].0@, self.edges@[i as int].1@));
            if self.edges[i].1.same(to) {
                count = count + 1;
            }
            i = i + 1;
        }
        assert(self@.take(self@.len() as int) =~= self@);
        count
    }

    /// The modules directly reachable in one hop from `from`, in edge order.
    pub fn neighbors(&self, from: &EndpointId) -> (r: Vec<ModuleId>)
        ensures
            module_views(r@) == targets_of(self@, from@),
    {
        let mut out: Vec<ModuleId> = Vec::new();
        let mut i: usize = 0;
        while i < self.edges.len()
            invariant
                i <= self@.len(),
                module_views(out@) == targets_of(self@.take(i as int), from@),
            decreases self@.len() - i,
        {
            assert(self@.take(i + 1).drop_last() =~= self@.take(i as int));
            assert(self@[i as int] == (self.edges@[i as int].0@, self.edges@[i as int].1@));
            if self.edges[i].0.same(from) {
                out.push(self.edges[i].1.clone());
                assert(module_views(out@) =~= targets_of(self@.take(i + 1), from@));
            }
            i = i + 1;
        }
        assert(self@.take(self@.len() as int) =~= self@);
        out
    }

    /// Every module reachable from `start` by following edges, ascending.
    pub fn reachable_from(&self, start: &EndpointId) -> (r: Vec<ModuleId>)
        ensures
            sorted_modules(module_views(r@)),
            forall|m: Seq<char>| #[trigger] module_views(r@).contains(m) <==> reaches(self@, start@, m),
    {
        let ghost es = self@;
        let mut seen: Vec<ModuleId> = Vec::new();
        let mut frontier: Vec<EndpointId> = Vec::new();
        frontier.push(start.clone());
        let mut head: usize = 0;
        assert(module_views(seen@) =~= Seq::<Seq<char>>::empty());
        while head < frontier.len()
            invariant
                es == self@,
                frontier@.len() >= 1,
                frontier@[0]@ == start@,
                head <= frontier@.len(),
                frontier@.len() == module_views(seen@).len() + 1,
                module_views(seen@).len() <= es.len(),
                sorted_modules(module_views(seen@)),
                forall|m: Seq<char>| #[trigger] module_views(seen@).contains(m) ==> reaches(es, start@, m),
                forall|m: Seq<char>| #[trigger] module_views(seen@).contains(m) ==> exists|k: int| 0 <= k < es.len() && es[k].1 == m,
                forall|m: Seq<char>| #[trigger] module_views(seen@).contains(m) ==> exists|k: int| 1 <= k < frontier@.len() && frontier@[k]@ == Endpoint::Module(m),
                forall|k: int| 1 <= k < frontier@.len() ==> (#[trigger] frontier@[k]@) is Module && module_views(seen@).contains(frontier@[k]@->Module_0),
                forall|k: int, t: Seq<char>| 0 <= k < head && #[trigger] linked(es, frontier@[k]@, t) ==> module_views(seen@).contains(t),
            decreases es.len() + 1 - head,
        {
            let node = frontier[head].clone();
            let next = self.neighbors(&node);
            let ghost before_seen = module_views(seen@);
            let ghost before_frontier = frontier@;
            let mut j: usize = 0;
            while j < next.len()
                invariant
                    es == self@,
                    module_views(next@) == targets_of(es, node@),
                    node@ == before_frontier[head as int]@,
                    head < before_frontier.len(),
                    j <= next@.len(),
                    frontier@.len() >= 1,
                    frontier@[0]@ == start@,
                    frontier@.len() == module_views(seen@).len() + 1,
                    module_views(seen@).len() <= es.len(),
                    sorted_modules(module_views(seen@)),
                    frontier@.len() >= before_frontier.len(),
                    forall|k: int| 0 <= k < before_frontier.len() ==> #[trigger] frontier@[k] == before_frontier[k],
                    forall|m: Seq<char>| #[trigger] before_seen.contains(m) ==> module_views(seen@).contains(m),
                    forall|m: Seq<char>| #[trigger] module_views(seen@).contains(m) ==> reaches(es, start@, m),
                    forall|m: Seq<char>| #[trigger] module_views(seen@).contains(m) ==> exists|k: int| 0 <= k < es.len() && es[k].1 == m,
                    forall|m: Seq<char>| #[trigger] module_views(seen@).contains(m) ==> exists|k: int| 1 <= k < frontier@.len() && frontier@[k]@ == Endpoint::Module(m),
                    forall|k: int| 1 <= k < frontier@.len() ==> (#[trigger] frontier@[k]@) is Module && module_views(seen@).contains(frontier@[k]@->Module_0),
                    forall|i: int| 0 <= i < j ==> module_views(seen@).contains(#[trigger] targets_of(es, node@)[i]),
                    node@ == start@ || (node@ is Module && reaches(es, start@, node@->Module_0)),
                decreases next@.len() - j,
            {
                let t = &next[j];
                let ghost tv = t@;
                assert(module_views(next@)[j as int] == tv);
                proof {
                    lemma_targets_linked(es, node@, tv);
                    assert(targets_of(es, node@).contains(tv));
                    // `t` is reachable: one more hop after `node`.
                    if node@ == start@ {
                        let p = seq![tv];
                        assert(is_walk(es, start@, p));
                    } else {
                        let m = node@->Module_0;
                        let p0 = choose|p: Seq<Seq<char>>| #[trigger] is_walk(es, start@, p) && p.last() == m;
                        let p = p0.push(tv);
                        assert(is_walk(es, start@, p)) by {
                            assert forall|i: int| 0 <= i < p.len() - 1 implies linked(es, Endpoint::Module(#[trigger] p[i]), p[i + 1]) by {
                                if i < p0.len() - 1 {
                                    assert(p[i] == p0[i]);
                                    assert(p[i + 1] == p0[i + 1]);
                                } else {
                                    assert(p[i] == m);
                                }
                            }
                        }
                        assert(p.last() == tv);
                    }
                    assert(reaches(es, start@, tv));
                    let k = choose|k: int| 0 <= k < es.len() && #[trigger] es[k] == (node@, tv);
                    assert(es[k].1 == tv);
                }
                let ghost seen_before = module_views(seen@);
                let ghost frontier_before = frontier@;
                let fresh = insert_module(&mut seen, t);
                if fresh {
                    proof {
                        let sv = module_views(seen@);
                        assert forall|i: int| 0 <= i < sv.len() implies exists|k: int| 0 <= k < es.len() && es[k].1 == #[trigger] sv[i] by {
                            assert(sv.contains(sv[i]));
                        }
                        lemma_targets_bound(sv, es);
                    }
                    frontier.push(EndpointId::Module(t.clone()));
                }
                proof {
                    assert forall|k: int| 0 <= k < frontier_before.len() implies #[trigger] frontier@[k] == frontier_before[k] by {
                    }
                    assert forall|m: Seq<char>| #[trigger] module_views(seen@).contains(m) implies exists|k: int| 1 <= k < frontier@.len() && frontier@[k]@ == Endpoint::Module(m) by {
                        if seen_before.contains(m) {
                            let k = choose|k: int| 1 <= k < frontier_before.len() && frontier_before[k]@ == Endpoint::Module(m);
                            assert(frontier@[k] == frontier_before[k]);
                        } else {
                            assert(m == tv);
                            assert(fresh);
                            assert(frontier@[frontier@.len() - 1]@ == Endpoint::Module(m));
                        }
                    }
                }
                j = j + 1;
            }
            proof {
                assert forall|k: int, t: Seq<char>| 0 <= k < head + 1 && #[trigger] linked(es, frontier@[k]@, t) implies module_views(seen@).contains(t) by {
                    if k == head {
                        lemma_targets_linked(es, node@, t);
                        let i = choose|i: int| 0 <= i < targets_of(es, node@).len() && targets_of(es, node@)[i] == t;
                        assert(module_views(seen@).contains(targets_of(es, node@)[i]));
                    } else {
                        assert(frontier@[k] == before_frontier[k]);
                        assert(before_seen.contains(t));
                    }
                }
            }
            head = head + 1;
        }
        proof {
            let sv = module_views(seen@);
            assert forall|m: Seq<char>| #[trigger] sv.contains(m) <==> reaches(es, start@, m) by {
                if reaches(es, start@, m) {
                    let p = choose|p: Seq<Seq<char>>| #[trigger] is_walk(es, start@, p) && p.last() == m;
                    assert forall|t: Seq<char>| linked(es, start@, t) implies sv.contains(t) by {
                        assert(linked(es, frontier@[0]@, t));
                    }
                    assert forall|m2: Seq<char>, t: Seq<char>| sv.contains(m2) && #[trigger] linked(es, Endpoint::Module(m2), t) implies sv.contains(t) by {
                        let k = choose|k: int| 1 <= k < frontier@.len() && frontier@[k]@ == Endpoint::Module(m2);
                        assert(linked(es, frontier@[k]@, t));
                    }
                    lemma_walk_closed(es, start@, sv, p, p.len() - 1);
                }
            }
        }
        seen
    }

    /// The hub: the module with the highest total degree (in + out), the
    /// greatest id among ties; `None` when there are no modules.
    pub fn hub(&self) -> (r: Option<ModuleId>)
        ensures
            match r {
                Some(h) => is_hub(self@, h@),
                None => forall|m: Seq<char>| !#[trigger] graph_node(self@, Endpoint::Module(m)),
            },
    {
        let ghost es = self@;
        let mut best: Option<(ModuleId, u128)> = None;
        let mut i: usize = 0;
        while i < self.edges.len()
            invariant
                es == self@,
                i <= es.len(),
                best is None ==> i == 0,
                best matches Some(b) ==> {
                    &&& graph_node(es, Endpoint::Module(b.0@))
                    &&& b.1 == degree(es, b.0@)
                    &&& forall|m: Seq<char>| #[trigger] module_in_prefix(es, i as int, m) ==> hub_le(es, m, b.0@)
                },
            decreases es.len() - i,
        {
            assert(es[i as int] == (self.edges@[i as int].0@, self.edges@[i as int].1@));
            let ghost prev = best;
            let to = self.edges[i].1.clone();
            best = self.better_hub(best, to, i);
            let ghost first = best;
            if let EndpointId::Module(from) = &self.edges[i].0 {
                best = self.better_hub(best, from.clone(), i);
            }
            proof {
                let b = best->0;
                let g = first->0;
                assert(hub_le(es, g.0@, b.0@)) by {
                    lemma_hub_le_refl(es, g.0@);
                }
                assert forall|m: Seq<char>| #[trigger] module_in_prefix(es, i + 1, m) implies hub_le(es, m, b.0@) by {
                    let k = choose|k: int| 0 <= k < i + 1 && (es[k].1 == m || es[k].0 == Endpoint::Module(m));
                    if k < i {
                        assert(module_in_prefix(es, i as int, m));
                        let pb = prev->0;
                        assert(hub_le(es, m, pb.0@));
                        lemma_hub_le_trans(es, m, pb.0@, g.0@);
                        lemma_hub_le_trans(es, m, g.0@, b.0@);
                    } else if es[k].1 == m {
                        lemma_hub_le_trans(es, m, g.0@, b.0@);
                    }
                }
            }
            i = i + 1;
        }
        proof {
            if let Some(b) = &best {
                assert forall|m: Seq<char>| #[trigger] graph_node(es, Endpoint::Module(m)) implies hub_le(es, m, b.0@) by {
                    let k = choose|k: int| 0 <= k < es.len() && (es[k].0 == Endpoint::Module(m) || Endpoint::Module(es[k].1) == Endpoint::Module(m));
                    assert(es[k].1 == m || es[k].0 == Endpoint::Module(m));
                    assert(module_in_prefix(es, es.len() as int, m));
                }
            }
        }
        match best {
            Some(b) => Some(b.0),
            None => None,
        }
    }

    /// Keep the better of the current hub candidate and module `m`, a node of
    /// edge `i`: higher degree wins, ties go to the greater id.
    fn better_hub(&self, best: Option<(ModuleId, u128)>, m: ModuleId, i: usize) -> (r: Option<(ModuleId, u128)>)
        requires
            i < self@.len(),
            self@[i as int].1 == m@ || self@[i as int].0 == Endpoint::Module(m@),
            best matches Some(b) ==> graph_node(self@, Endpoint::Module(b.0@)) && b.1 == degree(self@, b.0@),
        ensures
            r matches Some(b) && graph_node(self@, Endpoint::Module(b.0@)) && b.1 == degree(self@, b.0@),
            hub_le(self@, m@, (r->0).0@),
            best matches Some(b) ==> hub_le(self@, b.0@, (r->0).0@),
    {
        let ghost es = self@;
        let d = self.in_degree(&m) as u128 + self.out_degree(&EndpointId::Module(m.clone())) as u128;
        assert(graph_node(es, Endpoint::Module(m@)));
        proof {
            lemma_lex_irreflexive(m@);
        }
        match best {
            None => Some((m, d)),
            Some(b) => {
                if d > b.1 || (d == b.1 && b.0.less(&m)) {
                    Some((m, d))
                } else {
                    proof {
                        lemma_lex_total(b.0@, m@);
                    }
                    Some(b)
                }
            },
        }
    }
}

} // verus!
