//! A builder that collects symbols first and edges by symbol id, and joins
//! the edges to nodes only when the graph is built.
use vstd::prelude::*;

use crate::graph::{CodeGraph, EdgeKind, Symbol};
use crate::stable_graph::node_index_new;
use crate::parallel_optimized::{index_after, lemma_index_after_last};

verus! {

/// Edges named by the ids of their ends, with the ids as character sequences.
pub open spec fn edge_ids_view(p: Seq<(String, String, EdgeKind)>) -> Seq<(Seq<char>, Seq<char>, EdgeKind)> {
    p.map_values(|e: (String, String, EdgeKind)| (e.0@, e.1@, e.2))
}

/// The edges among `p` whose two ids are both in `index`, in order, with the
/// ids replaced by the nodes that `index` gives them.
pub open spec fn resolved_edges(p: Seq<(Seq<char>, Seq<char>, EdgeKind)>, index: Map<Seq<char>, nat>) -> Seq<(nat, nat, EdgeKind)>
    decreases p.len(),
{
    if p.len() == 0 {
        Seq::empty()
    } else {
        let rest = resolved_edges(p.drop_last(), index);
        let e = p.last();
        if index.contains_key(e.0) && index.contains_key(e.1) {
            rest.push((index[e.0], index[e.1], e.2))
        } else {
            rest
        }
    }
}

/// When every id named by `p` is in `index`, each edge of `p` resolves, in
/// place.
pub proof fn lemma_resolved_all(p: Seq<(Seq<char>, Seq<char>, EdgeKind)>, index: Map<Seq<char>, nat>)
    requires
        forall|i: int| 0 <= i < p.len() ==> index.contains_key(#[trigger] p[i].0) && index.contains_key(p[i].1),
    ensures
        resolved_edges(p, index).len() == p.len(),
        forall|i: int| 0 <= i < p.len() ==> #[trigger] resolved_edges(p, index)[i] == (index[p[i].0], index[p[i].1], p[i].2),
    decreases p.len(),
{
    if p.len() > 0 {
        let t = p.drop_last();
        assert forall|i: int| 0 <= i < t.len() implies index.contains_key(#[trigger] t[i].0) && index.contains_key(t[i].1) by {
            assert(t[i] == p[i]);
        }
        lemma_resolved_all(t, index);
        assert(index.contains_key(p[p.len() - 1].0));
        assert forall|i: int| 0 <= i < p.len() implies #[trigger] resolved_edges(p, index)[i] == (index[p[i].0], index[p[i].1], p[i].2) by {
            if i < t.len() {
                assert(t[i] == p[i]);
            }
        }
    }
}

/// Builds a [`CodeGraph`]: symbols are added at once (a symbol whose id is
/// already present is skipped), edges are held by the ids of their ends
/// until [`GraphBuilder::build`] joins them.
pub struct GraphBuilder {
    graph: CodeGraph,
    pending_edges: Vec<(String, String, EdgeKind)>,
}

impl GraphBuilder {
    /// The graph built so far, without the pending edges.
    pub closed spec fn graph(&self) -> CodeGraph {
        self.graph
    }

    /// The edges added by id and not yet joined, in order of addition.
    pub closed spec fn pending(&self) -> Seq<(Seq<char>, Seq<char>, EdgeKind)> {
        edge_ids_view(self.pending_edges@)
    }

    pub closed spec fn wf(&self) -> bool {
        self.graph.wf()
    }

    /// A builder with an empty graph and no pending edges.
    pub fn new() -> (b: Self)
        ensures
            b.wf(),
            b.graph().nodes() == Seq::<Symbol>::empty(),
            b.graph().edges() == Seq::<(nat, nat, EdgeKind)>::empty(),
            b.graph().index() == Map::<Seq<char>, nat>::empty(),
            b.pending() == Seq::<(Seq<char>, Seq<char>, EdgeKind)>::empty(),
    {
        let b = GraphBuilder { graph: CodeGraph::new(), pending_edges: Vec::new() };
        assert(b.pending() =~= Seq::<(Seq<char>, Seq<char>, EdgeKind)>::empty());
        b
    }

    /// Adds `symbol` as a new node unless a symbol of the same id is already
    /// in the graph, in which case nothing changes.
    pub fn add_symbol(&mut self, symbol: Symbol) -> (r: &mut Self)
        requires
            old(self).wf(),
        ensures
            r.wf(),
            old(self).graph().index().contains_key(symbol.id@) ==> r.graph() == old(self).graph(),
            !old(self).graph().index().contains_key(symbol.id@) ==> {
                &&& r.graph().nodes() == old(self).graph().nodes().push(symbol)
                &&& r.graph().edges() == old(self).graph().edges()
                &&& r.graph().index() == old(self).graph().index().insert(symbol.id@, old(self).graph().nodes().len())
            },
            r.pending() == old(self).pending(),
            *final(self) == *final(r),
    {
        if self.graph.lookup(symbol.id.as_str()).is_none() {
            let _n = self.graph.add_symbol(symbol);
        }
        self
    }

    /// Records an edge from the symbol with id `from_id` to the one with id
    /// `to_id`, to be joined when the graph is built.
    pub fn add_edge_by_id(&mut self, from_id: String, to_id: String, kind: EdgeKind) -> (r: &mut Self)
        requires
            old(self).wf(),
        ensures
            r.wf(),
            r.graph() == old(self).graph(),
            r.pending() == old(self).pending().push((from_id@, to_id@, kind)),
            *final(self) == *final(r),
    {
        let ghost old_pending = self.pending_edges@;
        let ghost e = (from_id, to_id, kind);
        self.pending_edges.push((from_id, to_id, kind));
        assert(self.pending_edges@ == old_pending.push(e));
        assert(edge_ids_view(self.pending_edges@) =~= edge_ids_view(old_pending).push((e.0@, e.1@, e.2)));
        self
    }

    /// The graph with the pending edges joined, in order: an edge is added
    /// when both of its ids are in the index, between the nodes the index
    /// gives them, and dropped otherwise.
    pub fn build(self) -> (g: CodeGraph)
        requires
            self.wf(),
        ensures
            g.wf(),
            g.nodes() == self.graph().nodes(),
            g.index() == self.graph().index(),
            g.edges() == self.graph().edges() + resolved_edges(self.pending(), self.graph().index()),
    {
        let GraphBuilder { graph, pending_edges } = self;
        let mut graph = graph;
        let ghost g0 = graph;
        let ghost p = edge_ids_view(pending_edges@);
        let mut i: usize = 0;
        assert(p.take(0) =~= Seq::<(Seq<char>, Seq<char>, EdgeKind)>::empty());
        assert(g0.edges() + resolved_edges(p.take(0), g0.index()) =~= g0.edges());
        while i < pending_edges.len()
            invariant
                i <= pending_edges.len(),
                p == edge_ids_view(pending_edges@),
                graph.wf(),
                graph.nodes() == g0.nodes(),
                graph.index() == g0.index(),
                graph.edges() == g0.edges() + resolved_edges(p.take(i as int), g0.index()),
            decreases pending_edges.len() - i,
        {
            let ghost before = graph.edges();
            let from = graph.lookup(pending_edges[i].0.as_str());
            let to = graph.lookup(pending_edges[i].1.as_str());
            assert(p.take(i + 1).drop_last() =~= p.take(i as int));
            assert(p.take(i + 1).last() == p[i as int]);
            match (from, to) {
                (Some(a), Some(b)) => {
                    graph.add_edge(node_index_new(a), node_index_new(b), pending_edges[i].2);
                    assert(graph.edges() =~= g0.edges() + resolved_edges(p.take(i + 1), g0.index()));
                },
                _ => {
                    assert(graph.edges() =~= g0.edges() + resolved_edges(p.take(i + 1), g0.index()));
                },
            }
            i = i + 1;
        }
        assert(p.take(pending_edges.len() as int) =~= p);
        graph
    }
}

/// A call made on a builder: adding a symbol, or adding an edge between the
/// symbols of two ids.
pub enum BuildCall {
    AddSymbol(Symbol),
    AddEdge(Seq<char>, Seq<char>, EdgeKind),
}

/// Some symbol of `syms` carries the id `id`.
pub open spec fn has_id(syms: Seq<Symbol>, id: Seq<char>) -> bool {
    exists|k: int| 0 <= k < syms.len() && syms[k].id@ == id
}

/// The symbols a builder keeps from `calls`, in order: each added symbol
/// whose id no symbol kept before it carries.
pub open spec fn kept_symbols(calls: Seq<BuildCall>) -> Seq<Symbol>
    decreases calls.len(),
{
    if calls.len() == 0 {
        Seq::empty()
    } else {
        let rest = kept_symbols(calls.drop_last());
        match calls.last() {
            BuildCall::AddSymbol(s) => if has_id(rest, s.id@) { rest } else { rest.push(s) },
            BuildCall::AddEdge(_, _, _) => rest,
        }
    }
}

/// The edges added by id among `calls`, in order.
pub open spec fn edge_calls(calls: Seq<BuildCall>) -> Seq<(Seq<char>, Seq<char>, EdgeKind)>
    decreases calls.len(),
{
    if calls.len() == 0 {
        Seq::empty()
    } else {
        let rest = edge_calls(calls.drop_last());
        match calls.last() {
            BuildCall::AddEdge(f, t, k) => rest.push((f, t, k)),
            BuildCall::AddSymbol(_) => rest,
        }
    }
}

/// What a call does to a builder, as [`GraphBuilder::add_symbol`] and
/// [`GraphBuilder::add_edge_by_id`] state it.
pub open spec fn call_step(a: GraphBuilder, b: GraphBuilder, c: BuildCall) -> bool {
    &&& b.wf()
    &&& match c {
        BuildCall::AddSymbol(s) => {
            &&& a.graph().index().contains_key(s.id@) ==> b.graph() == a.graph()
            &&& !a.graph().index().contains_key(s.id@) ==> {
                &&& b.graph().nodes() == a.graph().nodes().push(s)
                &&& b.graph().edges() == a.graph().edges()
                &&& b.graph().index() == a.graph().index().insert(s.id@, a.graph().nodes().len())
            }
            &&& b.pending() == a.pending()
        },
        BuildCall::AddEdge(f, t, k) => b.graph() == a.graph() && b.pending() == a.pending().push((f, t, k)),
    }
}

proof fn lemma_index_after_has(syms: Seq<Symbol>, x: Seq<char>)
    ensures
        index_after(Map::empty(), 0, syms).contains_key(x) <==> has_id(syms, x),
    decreases syms.len(),
{
    if syms.len() > 0 {
        let t = syms.drop_last();
        lemma_index_after_has(t, x);
        if has_id(syms, x) {
            let k = choose|k: int| 0 <= k < syms.len() && syms[k].id@ == x;
            if k < t.len() {
                assert(t[k] == syms[k]);
            }
        }
        if has_id(t, x) {
            let k = choose|k: int| 0 <= k < t.len() && t[k].id@ == x;
            assert(syms[k] == t[k]);
        }
    }
}

/// Whatever calls are made on an empty builder, in whatever order: it
/// holds, in the order they were added, the first symbol added under each
/// id and no other, each indexed at its own node; a symbol added under an
/// id already held is dropped; and it holds every edge added by id, in
/// order, which [`GraphBuilder::build`] joins when both ids were added
/// (before or after the edge) and drops otherwise.
pub proof fn law_builder_keeps_first(calls: Seq<BuildCall>, states: Seq<GraphBuilder>)
    requires
        states.len() == calls.len() + 1,
        states[0].wf(),
        states[0].graph().nodes() == Seq::<Symbol>::empty(),
        states[0].graph().edges() == Seq::<(nat, nat, EdgeKind)>::empty(),
        states[0].graph().index() == Map::<Seq<char>, nat>::empty(),
        states[0].pending() == Seq::<(Seq<char>, Seq<char>, EdgeKind)>::empty(),
        forall|i: int| 0 <= i < calls.len() ==> call_step(#[trigger] states[i], states[i + 1], calls[i]),
    ensures
        states.last().wf(),
        states.last().graph().nodes() == kept_symbols(calls),
        states.last().graph().edges() == Seq::<(nat, nat, EdgeKind)>::empty(),
        states.last().graph().index() == index_after(Map::empty(), 0, kept_symbols(calls)),
        states.last().pending() == edge_calls(calls),
        forall|k: int, j: int| 0 <= k < j < kept_symbols(calls).len() ==> #[trigger] kept_symbols(calls)[k].id@ != #[trigger] kept_symbols(calls)[j].id@,
        forall|k: int| 0 <= k < kept_symbols(calls).len() ==> states.last().graph().index()[#[trigger] kept_symbols(calls)[k].id@] == k,
        forall|i: int| 0 <= i < calls.len() && (#[trigger] calls[i]) is AddSymbol ==> has_id(kept_symbols(calls), calls[i]->AddSymbol_0.id@),
        forall|k: int| 0 <= k < kept_symbols(calls).len() ==> exists|i: int| 0 <= i < calls.len() && calls[i] == BuildCall::AddSymbol(#[trigger] kept_symbols(calls)[k])
            && forall|j: int| 0 <= j < i ==> !(calls[j] is AddSymbol && calls[j]->AddSymbol_0.id@ == kept_symbols(calls)[k].id@),
    decreases calls.len(),
{
    let kept = kept_symbols(calls);
    if calls.len() == 0 {
        assert(states.last() == states[0]);
    } else {
        let n = calls.len() - 1;
        let pc = calls.drop_last();
        let ps = states.drop_last();
        assert forall|i: int| 0 <= i < pc.len() implies call_step(#[trigger] ps[i], ps[i + 1], pc[i]) by {
            assert(ps[i] == states[i] && ps[i + 1] == states[i + 1] && pc[i] == calls[i]);
            assert(call_step(states[i], states[i + 1], calls[i]));
        }
        law_builder_keeps_first(pc, ps);
        let rest = kept_symbols(pc);
        let a = states[n];
        let b = states[n + 1];
        assert(ps.last() == a);
        assert(states.last() == b);
        assert(call_step(states[n], states[n + 1], calls[n]));
        assert(calls.last() == calls[n]);
        assert forall|j: int| 0 <= j < n implies #[trigger] calls[j] == pc[j] by {}
        match calls[n] {
            BuildCall::AddSymbol(s) => {
                lemma_index_after_has(rest, s.id@);
                if !has_id(rest, s.id@) {
                    assert(kept == rest.push(s));
                    assert(rest.push(s).drop_last() =~= rest);
                    assert(index_after(Map::empty(), 0, rest.push(s)) == index_after(Map::empty(), 0, rest).insert(s.id@, rest.len()));
                    assert forall|k: int, j: int| 0 <= k < j < kept.len() implies #[trigger] kept[k].id@ != #[trigger] kept[j].id@ by {
                        if j == rest.len() {
                            assert(kept[k] == rest[k]);
                        } else {
                            assert(kept[k] == rest[k] && kept[j] == rest[j]);
                        }
                    }
                    assert forall|k: int| 0 <= k < kept.len() implies exists|i: int| 0 <= i < calls.len() && calls[i] == BuildCall::AddSymbol(#[trigger] kept[k])
                        && forall|j: int| 0 <= j < i ==> !(calls[j] is AddSymbol && calls[j]->AddSymbol_0.id@ == kept[k].id@) by {
                        if k < rest.len() {
                            assert(kept[k] == rest[k]);
                            let i = choose|i: int| 0 <= i < pc.len() && pc[i] == BuildCall::AddSymbol(#[trigger] rest[k])
                                && forall|j: int| 0 <= j < i ==> !(pc[j] is AddSymbol && pc[j]->AddSymbol_0.id@ == rest[k].id@);
                            assert(calls[i] == pc[i]);
                            assert forall|j: int| 0 <= j < i implies !(calls[j] is AddSymbol && calls[j]->AddSymbol_0.id@ == kept[k].id@) by {
                                assert(calls[j] == pc[j]);
                            }
                        } else {
                            assert(kept[k] == s);
                            assert forall|j: int| 0 <= j < n implies !(calls[j] is AddSymbol && calls[j]->AddSymbol_0.id@ == kept[k].id@) by {
                                assert(calls[j] == pc[j]);
                                if pc[j] is AddSymbol {
                                    assert(has_id(rest, pc[j]->AddSymbol_0.id@));
                                }
                            }
                        }
                    }
                    assert forall|i: int| 0 <= i < calls.len() && (#[trigger] calls[i]) is AddSymbol implies has_id(kept, calls[i]->AddSymbol_0.id@) by {
                        if i < n {
                            assert(calls[i] == pc[i]);
                            assert(has_id(rest, pc[i]->AddSymbol_0.id@));
                            let k = choose|k: int| 0 <= k < rest.len() && rest[k].id@ == pc[i]->AddSymbol_0.id@;
                            assert(kept[k] == rest[k]);
                        } else {
                            assert(kept[rest.len() as int] == s);
                        }
                    }
                } else {
                    assert(kept == rest);
                    assert forall|k: int| 0 <= k < kept.len() implies exists|i: int| 0 <= i < calls.len() && calls[i] == BuildCall::AddSymbol(#[trigger] kept[k])
                        && forall|j: int| 0 <= j < i ==> !(calls[j] is AddSymbol && calls[j]->AddSymbol_0.id@ == kept[k].id@) by {
                        let i = choose|i: int| 0 <= i < pc.len() && pc[i] == BuildCall::AddSymbol(#[trigger] rest[k])
                            && forall|j: int| 0 <= j < i ==> !(pc[j] is AddSymbol && pc[j]->AddSymbol_0.id@ == rest[k].id@);
                        assert(calls[i] == pc[i]);
                        assert forall|j: int| 0 <= j < i implies !(calls[j] is AddSymbol && calls[j]->AddSymbol_0.id@ == kept[k].id@) by {
                            assert(calls[j] == pc[j]);
                        }
                    }
                    assert forall|i: int| 0 <= i < calls.len() && (#[trigger] calls[i]) is AddSymbol implies has_id(kept, calls[i]->AddSymbol_0.id@) by {
                        if i < n {
                            assert(calls[i] == pc[i]);
                        }
                    }
                }
                assert(edge_calls(calls) == edge_calls(pc));
            },
            BuildCall::AddEdge(f, t, k0) => {
                assert(kept == rest);
                assert(edge_calls(calls) == edge_calls(pc).push((f, t, k0)));
                assert forall|k: int| 0 <= k < kept.len() implies exists|i: int| 0 <= i < calls.len() && calls[i] == BuildCall::AddSymbol(#[trigger] kept[k])
                    && forall|j: int| 0 <= j < i ==> !(calls[j] is AddSymbol && calls[j]->AddSymbol_0.id@ == kept[k].id@) by {
                    let i = choose|i: int| 0 <= i < pc.len() && pc[i] == BuildCall::AddSymbol(#[trigger] rest[k])
                        && forall|j: int| 0 <= j < i ==> !(pc[j] is AddSymbol && pc[j]->AddSymbol_0.id@ == rest[k].id@);
                    assert(calls[i] == pc[i]);
                    assert forall|j: int| 0 <= j < i implies !(calls[j] is AddSymbol && calls[j]->AddSymbol_0.id@ == kept[k].id@) by {
                        assert(calls[j] == pc[j]);
                    }
                }
                assert forall|i: int| 0 <= i < calls.len() && (#[trigger] calls[i]) is AddSymbol implies has_id(kept, calls[i]->AddSymbol_0.id@) by {
                    if i < n {
                        assert(calls[i] == pc[i]);
                    }
                }
            },
        }
    }
    lemma_index_after_last(Map::empty(), kept);
}

/// Building after any calls on an empty builder (see
/// [`law_builder_keeps_first`]): the graph holds one node per distinct id
/// added, the first symbol added under it, indexed there; and one edge per
/// edge added by id whose two ids were both added, before or after the
/// edge, in the order the edges were added; an edge naming an id never
/// added is dropped.
pub proof fn law_build_after_calls(calls: Seq<BuildCall>, states: Seq<GraphBuilder>, g: CodeGraph)
    requires
        states.len() == calls.len() + 1,
        states[0].wf(),
        states[0].graph().nodes() == Seq::<Symbol>::empty(),
        states[0].graph().edges() == Seq::<(nat, nat, EdgeKind)>::empty(),
        states[0].graph().index() == Map::<Seq<char>, nat>::empty(),
        states[0].pending() == Seq::<(Seq<char>, Seq<char>, EdgeKind)>::empty(),
        forall|i: int| 0 <= i < calls.len() ==> call_step(#[trigger] states[i], states[i + 1], calls[i]),
        g.nodes() == states.last().graph().nodes(),
        g.index() == states.last().graph().index(),
        g.edges() == states.last().graph().edges() + resolved_edges(states.last().pending(), states.last().graph().index()),
    ensures
        g.nodes() == kept_symbols(calls),
        g.index() == index_after(Map::empty(), 0, kept_symbols(calls)),
        g.edges() == resolved_edges(edge_calls(calls), index_after(Map::empty(), 0, kept_symbols(calls))),
        forall|x: Seq<char>| #[trigger] g.index().contains_key(x) <==> has_id(kept_symbols(calls), x),
        forall|k: int| 0 <= k < kept_symbols(calls).len() ==> g.index()[#[trigger] kept_symbols(calls)[k].id@] == k,
{
    law_builder_keeps_first(calls, states);
    assert(Seq::<(nat, nat, EdgeKind)>::empty() + resolved_edges(edge_calls(calls), g.index()) =~= resolved_edges(edge_calls(calls), g.index()));
    assert forall|x: Seq<char>| #[trigger] g.index().contains_key(x) <==> has_id(kept_symbols(calls), x) by {
        lemma_index_after_has(kept_symbols(calls), x);
    }
}

impl Default for GraphBuilder {
    fn default() -> (b: Self)
        ensures
            b.wf(),
            b.graph().nodes() == Seq::<Symbol>::empty(),
            b.graph().edges() == Seq::<(nat, nat, EdgeKind)>::empty(),
            b.graph().index() == Map::<Seq<char>, nat>::empty(),
            b.pending() == Seq::<(Seq<char>, Seq<char>, EdgeKind)>::empty(),
    {
        Self::new()
    }
}

} // verus!
