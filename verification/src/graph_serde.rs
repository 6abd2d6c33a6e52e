//! The stored form of a [`CodeGraph`]: its indexed symbols, and its edges
//! named by the ids of their ends. Node indices are not stored; reading the
//! stored form back adds the symbols in order and joins each edge by id.
use vstd::prelude::*;

use crate::graph::{CodeGraph, EdgeKind, Symbol};
use crate::graph_builder::{lemma_resolved_all, resolved_edges};
use crate::stable_graph::node_index_new;

verus! {

/// An edge named by the ids of its ends.
pub struct SerializedEdge {
    pub from_id: String,
    pub to_id: String,
    pub kind: EdgeKind,
}

/// A graph in stored form.
pub struct SerializedCodeGraph {
    pub symbols: Vec<Symbol>,
    pub edges: Vec<SerializedEdge>,
}

/// Stored edges as `(from id, to id, kind)`.
pub open spec fn serialized_edges_view(es: Seq<SerializedEdge>) -> Seq<(Seq<char>, Seq<char>, EdgeKind)> {
    es.map_values(|e: SerializedEdge| (e.from_id@, e.to_id@, e.kind))
}

/// `symbols` and `edges` store `g`: one symbol per indexed id (the one the
/// index maps it to), in some order, and every edge of `g`, in edge order,
/// with its ends given by the ids of their symbols.
pub open spec fn is_serialization_of(g: CodeGraph, symbols: Seq<Symbol>, edges: Seq<(Seq<char>, Seq<char>, EdgeKind)>) -> bool {
    &&& symbols.len() == g.index().dom().len()
    &&& forall|i: int, j: int| 0 <= i < symbols.len() && 0 <= j < symbols.len() && i != j ==> symbols[i].id@ != symbols[j].id@
    &&& forall|i: int| 0 <= i < symbols.len() ==> g.index().contains_key(#[trigger] symbols[i].id@)
        && symbols[i] == g.nodes()[g.index()[symbols[i].id@] as int]
    &&& forall|k: Seq<char>| #[trigger] g.index().contains_key(k) ==> exists|i: int| 0 <= i < symbols.len() && symbols[i].id@ == k
    &&& edges.len() == g.edges().len()
    &&& forall|e: int| 0 <= e < edges.len() ==> #[trigger] edges[e] == (
        g.nodes()[g.edges()[e].0 as int].id@,
        g.nodes()[g.edges()[e].1 as int].id@,
        g.edges()[e].2,
    )
}

/// The index of a graph made by adding `symbols` in order: each id maps to
/// the position of its last symbol.
pub open spec fn symbols_index(symbols: Seq<Symbol>) -> Map<Seq<char>, nat>
    decreases symbols.len(),
{
    if symbols.len() == 0 {
        Map::empty()
    } else {
        symbols_index(symbols.drop_last()).insert(symbols.last().id@, (symbols.len() - 1) as nat)
    }
}

/// With distinct ids, the index of `symbols` maps each id to its position and
/// holds no other id.
pub proof fn lemma_symbols_index_distinct(symbols: Seq<Symbol>)
    requires
        forall|i: int, j: int| 0 <= i < symbols.len() && 0 <= j < symbols.len() && i != j ==> symbols[i].id@ != symbols[j].id@,
    ensures
        forall|i: int| 0 <= i < symbols.len() ==> symbols_index(symbols).contains_key(#[trigger] symbols[i].id@)
            && symbols_index(symbols)[symbols[i].id@] == i,
        forall|k: Seq<char>| #[trigger] symbols_index(symbols).contains_key(k) ==> exists|i: int| 0 <= i < symbols.len() && symbols[i].id@ == k,
    decreases symbols.len(),
{
    if symbols.len() > 0 {
        let t = symbols.drop_last();
        lemma_symbols_index_distinct(t);
        let n = symbols.len() - 1;
        assert forall|i: int| 0 <= i < symbols.len() implies symbols_index(symbols).contains_key(#[trigger] symbols[i].id@)
            && symbols_index(symbols)[symbols[i].id@] == i by {
            if i < n {
                assert(t[i] == symbols[i]);
                assert(symbols[i].id@ != symbols[n].id@);
            }
        }
        assert forall|k: Seq<char>| #[trigger] symbols_index(symbols).contains_key(k) implies exists|i: int| 0 <= i < symbols.len() && symbols[i].id@ == k by {
            if k != symbols[n].id@ {
                let i = choose|i: int| 0 <= i < t.len() && t[i].id@ == k;
                assert(symbols[i] == t[i]);
            }
        }
    }
}

impl CodeGraph {
    /// The stored form of the graph: a clone of each indexed symbol and each
    /// edge by the ids of its ends, in edge order.
    pub fn to_serialized(&self) -> (s: SerializedCodeGraph)
        requires
            self.wf(),
        ensures
            is_serialization_of(*self, s.symbols@, serialized_edges_view(s.edges@)),
    {
        proof { self.lemma_index(); }
        let indexed = self.indexed_symbols();
        let mut symbols: Vec<Symbol> = Vec::new();
        let mut i: usize = 0;
        while i < indexed.len()
            invariant
                i <= indexed.len(),
                symbols.len() == i,
                forall|j: int| 0 <= j < i ==> #[trigger] symbols@[j] == *indexed@[j],
            decreases indexed.len() - i,
        {
            symbols.push(indexed[i].clone());
            i = i + 1;
        }
        let total = self.edge_total();
        let mut edges: Vec<SerializedEdge> = Vec::new();
        let mut e: usize = 0;
        while e < total
            invariant
                self.wf(),
                total == self.edges().len(),
                e <= total,
                edges.len() == e,
                forall|f: int| 0 <= f < e ==> #[trigger] serialized_edges_view(edges@)[f] == (
                    self.nodes()[self.edges()[f].0 as int].id@,
                    self.nodes()[self.edges()[f].1 as int].id@,
                    self.edges()[f].2,
                ),
            decreases total - e,
        {
            proof { self.lemma_index(); }
            let (a, b, kind) = self.edge_at(e);
            let from_id = self.node_at(a).id.clone();
            let to_id = self.node_at(b).id.clone();
            let ghost before = edges@;
            edges.push(SerializedEdge { from_id, to_id, kind });
            proof {
                assert forall|f: int| 0 <= f < e + 1 implies #[trigger] serialized_edges_view(edges@)[f] == (
                    self.nodes()[self.edges()[f].0 as int].id@,
                    self.nodes()[self.edges()[f].1 as int].id@,
                    self.edges()[f].2,
                ) by {
                    if f < e {
                        assert(edges@[f] == before[f]);
                        assert(serialized_edges_view(before)[f] == serialized_edges_view(edges@)[f]);
                    }
                }
            }
            e = e + 1;
        }
        let s = SerializedCodeGraph { symbols, edges };
        proof {
            assert(s.symbols@.len() == indexed@.len());
            assert forall|k: Seq<char>| #[trigger] self.index().contains_key(k) implies exists|i: int| 0 <= i < s.symbols@.len() && s.symbols@[i].id@ == k by {
                let i = choose|i: int| 0 <= i < indexed@.len() && indexed@[i].id@ == k;
                assert(s.symbols@[i] == *indexed@[i]);
            }
        }
        s
    }

    /// The graph stored in `s`: its symbols are added in order (a later
    /// symbol of an id takes the index entry), then each edge whose two ids
    /// are indexed is added between the nodes the index gives them.
    pub fn from_serialized(s: SerializedCodeGraph) -> (g: CodeGraph)
        ensures
            g.wf(),
            g.nodes() == s.symbols@,
            g.index() == symbols_index(s.symbols@),
            g.edges() == resolved_edges(serialized_edges_view(s.edges@), g.index()),
    {
        let SerializedCodeGraph { symbols, edges } = s;
        let mut g = CodeGraph::new();
        let mut i: usize = 0;
        assert(symbols@.take(0) =~= Seq::<Symbol>::empty());
        while i < symbols.len()
            invariant
                i <= symbols.len(),
                g.wf(),
                g.nodes() == symbols@.take(i as int),
                g.index() == symbols_index(symbols@.take(i as int)),
                g.edges() == Seq::<(nat, nat, EdgeKind)>::empty(),
            decreases symbols.len() - i,
        {
            let _n = g.add_symbol(symbols[i].clone());
            assert(symbols@.take(i + 1).drop_last() =~= symbols@.take(i as int));
            assert(symbols@.take(i + 1) =~= symbols@.take(i as int).push(symbols@[i as int]));
            i = i + 1;
        }
        assert(symbols@.take(symbols.len() as int) =~= symbols@);
        let ghost index = g.index();
        let ghost p = serialized_edges_view(edges@);
        let mut e: usize = 0;
        assert(p.take(0) =~= Seq::<(Seq<char>, Seq<char>, EdgeKind)>::empty());
        while e < edges.len()
            invariant
                e <= edges.len(),
                p == serialized_edges_view(edges@),
                g.wf(),
                g.nodes() == symbols@,
                g.index() == index,
                g.edges() == resolved_edges(p.take(e as int), index),
            decreases edges.len() - e,
        {
            let from = g.lookup(edges[e].from_id.as_str());
            let to = g.lookup(edges[e].to_id.as_str());
            assert(p.take(e + 1).drop_last() =~= p.take(e as int));
            assert(p.take(e + 1).last() == p[e as int]);
            match (from, to) {
                (Some(a), Some(b)) => {
                    g.add_edge(node_index_new(a), node_index_new(b), edges[e].kind);
                },
                _ => {},
            }
            e = e + 1;
        }
        assert(p.take(edges.len() as int) =~= p);
        g
    }
}

/// Storing a graph and reading it back gives a graph with the same indexed
/// ids, the same symbol under each id, and the same edges, in order, between
/// the symbols of the same ids.
pub proof fn law_serialization_round_trip(
    g: CodeGraph,
    symbols: Seq<Symbol>,
    edges: Seq<(Seq<char>, Seq<char>, EdgeKind)>,
    read: CodeGraph,
)
    requires
        g.wf(),
        is_serialization_of(g, symbols, edges),
        read.wf(),
        read.nodes() == symbols,
        read.index() == symbols_index(symbols),
        read.edges() == resolved_edges(edges, read.index()),
    ensures
        read.index().dom() == g.index().dom(),
        forall|k: Seq<char>| #[trigger] g.index().contains_key(k) ==> read.nodes()[read.index()[k] as int] == g.nodes()[g.index()[k] as int],
        read.edges().len() == g.edges().len(),
        forall|e: int| 0 <= e < g.edges().len() ==> {
            &&& read.nodes()[read.edges()[e].0 as int].id@ == g.nodes()[g.edges()[e].0 as int].id@
            &&& read.nodes()[read.edges()[e].1 as int].id@ == g.nodes()[g.edges()[e].1 as int].id@
            &&& #[trigger] read.edges()[e].2 == g.edges()[e].2
        },
{
    g.lemma_index();
    read.lemma_index();
    lemma_symbols_index_distinct(symbols);
    assert forall|k: Seq<char>| #[trigger] read.index().contains_key(k) == g.index().contains_key(k) by {
        if read.index().contains_key(k) {
            let i = choose|i: int| 0 <= i < symbols.len() && symbols[i].id@ == k;
        }
        if g.index().contains_key(k) {
            let i = choose|i: int| 0 <= i < symbols.len() && symbols[i].id@ == k;
        }
    }
    assert(read.index().dom() =~= g.index().dom());
    assert forall|k: Seq<char>| #[trigger] g.index().contains_key(k) implies read.nodes()[read.index()[k] as int] == g.nodes()[g.index()[k] as int] by {
        let i = choose|i: int| 0 <= i < symbols.len() && symbols[i].id@ == k;
        assert(read.index()[symbols[i].id@] == i);
    }
    assert forall|i: int| 0 <= i < edges.len() implies read.index().contains_key(#[trigger] edges[i].0) && read.index().contains_key(edges[i].1) by {
        assert(edges[i] == (g.nodes()[g.edges()[i].0 as int].id@, g.nodes()[g.edges()[i].1 as int].id@, g.edges()[i].2));
        assert(g.index().contains_key(g.nodes()[g.edges()[i].0 as int].id@));
        assert(g.index().contains_key(g.nodes()[g.edges()[i].1 as int].id@));
    }
    lemma_resolved_all(edges, read.index());
    assert forall|e: int| 0 <= e < g.edges().len() implies {
        &&& read.nodes()[read.edges()[e].0 as int].id@ == g.nodes()[g.edges()[e].0 as int].id@
        &&& read.nodes()[read.edges()[e].1 as int].id@ == g.nodes()[g.edges()[e].1 as int].id@
        &&& #[trigger] read.edges()[e].2 == g.edges()[e].2
    } by {
        assert(edges[e] == (g.nodes()[g.edges()[e].0 as int].id@, g.nodes()[g.edges()[e].1 as int].id@, g.edges()[e].2));
        assert(read.edges()[e] == (read.index()[edges[e].0], read.index()[edges[e].1], edges[e].2));
        assert(read.index().contains_key(edges[e].0));
        assert(read.index().contains_key(edges[e].1));
    }
}

} // verus!
