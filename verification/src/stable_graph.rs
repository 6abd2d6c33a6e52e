//! The symbol graph is stored in a `petgraph` `StableGraph`. This module
//! declares the outside types and gives each `petgraph` method that the
//! library calls a small wrapper whose contract restates what the `petgraph`
//! source does, over two names for what the graph holds: its node slots and
//! its edge slots (a slot is `None` once its node or edge was removed).
use vstd::prelude::*;

use crate::graph::{EdgeKind, Symbol};
use petgraph::stable_graph::{NodeIndex, StableGraph};
use petgraph::visit::EdgeRef;
use petgraph::Directed;

verus! {

#[verifier::external_type_specification]
#[verifier::external_body]
#[verifier::reject_recursive_types(N)]
#[verifier::reject_recursive_types(E)]
#[verifier::reject_recursive_types(Ty)]
#[verifier::reject_recursive_types(Ix)]
pub struct ExStableGraph<N, E, Ty, Ix>(StableGraph<N, E, Ty, Ix>);

#[verifier::external_type_specification]
#[verifier::external_body]
#[verifier::reject_recursive_types(Ix)]
pub struct ExNodeIndex<Ix>(NodeIndex<Ix>);

#[verifier::external_type_specification]
#[verifier::external_body]
pub struct ExDirected(Directed);

/// The node slots of the graph, in index order: slot `i` holds the weight
/// of node `i`, or `None` when that node was removed.
pub uninterp spec fn graph_node_slots(g: StableGraph<Symbol, EdgeKind, Directed, usize>) -> Seq<Option<Symbol>>;

/// The edge slots of the graph, in index order: slot `e` holds
/// `(source, target, weight)` of edge `e`, or `None` when it was removed.
pub uninterp spec fn graph_edge_slots(g: StableGraph<Symbol, EdgeKind, Directed, usize>) -> Seq<Option<(nat, nat, EdgeKind)>>;

/// The index that a `NodeIndex` wraps.
pub uninterp spec fn node_index_value(n: NodeIndex<usize>) -> nat;

/// Number of slots of `s` that hold a value.
pub open spec fn count_some<T>(s: Seq<Option<T>>) -> nat
    decreases s.len(),
{
    if s.len() == 0 {
        0
    } else {
        count_some(s.drop_last()) + if s.last() is Some { 1nat } else { 0nat }
    }
}

/// Whether slot `i` of `s` exists and holds a value.
pub open spec fn slot_live<T>(s: Seq<Option<T>>, i: int) -> bool {
    0 <= i < s.len() && s[i] is Some
}

/// `StableGraph::with_capacity(0, 0)`: an empty graph, no node or edge slots.
#[verifier::external_body]
pub(crate) fn graph_new() -> (g: StableGraph<Symbol, EdgeKind, Directed, usize>)
    ensures
        graph_node_slots(g) == Seq::<Option<Symbol>>::empty(),
        graph_edge_slots(g) == Seq::<Option<(nat, nat, EdgeKind)>>::empty(),
{
    StableGraph::with_capacity(0, 0)
}

/// `StableGraph::add_node`: fills a vacant node slot when there is one,
/// otherwise appends a slot; returns the slot's index. Edges are unchanged.
/// (With `usize` indices the index-overflow panic of the source cannot occur.)
#[verifier::external_body]
pub(crate) fn graph_add_node(g: &mut StableGraph<Symbol, EdgeKind, Directed, usize>, w: Symbol) -> (i: usize)
    ensures
        (forall|k: int| 0 <= k < graph_node_slots(*old(g)).len() ==> graph_node_slots(*old(g))[k] is Some)
            ==> i == graph_node_slots(*old(g)).len() && graph_node_slots(*final(g)) == graph_node_slots(*old(g)).push(Some(w)),
        (exists|k: int| 0 <= k < graph_node_slots(*old(g)).len() && graph_node_slots(*old(g))[k] is None)
            ==> i < graph_node_slots(*old(g)).len() && graph_node_slots(*old(g))[i as int] is None
                && graph_node_slots(*final(g)) == graph_node_slots(*old(g)).update(i as int, Some(w)),
        graph_edge_slots(*final(g)) == graph_edge_slots(*old(g)),
{
    g.add_node(w).index()
}

/// `StableGraph::add_edge` from node `a` to node `b`: fills a vacant edge
/// slot when there is one, otherwise appends a slot; returns its index.
/// The source panics when `a` or `b` is not a node, so both must be live.
#[verifier::external_body]
pub(crate) fn graph_add_edge(g: &mut StableGraph<Symbol, EdgeKind, Directed, usize>, a: usize, b: usize, w: EdgeKind) -> (e: usize)
    requires
        slot_live(graph_node_slots(*old(g)), a as int),
        slot_live(graph_node_slots(*old(g)), b as int),
    ensures
        (forall|k: int| 0 <= k < graph_edge_slots(*old(g)).len() ==> graph_edge_slots(*old(g))[k] is Some)
            ==> e == graph_edge_slots(*old(g)).len()
                && graph_edge_slots(*final(g)) == graph_edge_slots(*old(g)).push(Some((a as nat, b as nat, w))),
        (exists|k: int| 0 <= k < graph_edge_slots(*old(g)).len() && graph_edge_slots(*old(g))[k] is None)
            ==> e < graph_edge_slots(*old(g)).len() && graph_edge_slots(*old(g))[e as int] is None
                && graph_edge_slots(*final(g)) == graph_edge_slots(*old(g)).update(e as int, Some((a as nat, b as nat, w))),
        graph_node_slots(*final(g)) == graph_node_slots(*old(g)),
{
    g.add_edge(NodeIndex::new(a), NodeIndex::new(b), w).index()
}

/// `StableGraph::node_weight`: the weight in slot `a`, `None` when the slot
/// is vacant or past the end.
#[verifier::external_body]
pub(crate) fn graph_node_weight<'a>(g: &'a StableGraph<Symbol, EdgeKind, Directed, usize>, a: usize) -> (r: Option<&'a Symbol>)
    ensures
        match r {
            Some(s) => slot_live(graph_node_slots(*g), a as int) && graph_node_slots(*g)[a as int] == Some(*s),
            None => !slot_live(graph_node_slots(*g), a as int),
        },
{
    g.node_weight(NodeIndex::new(a))
}

/// `StableGraph::node_count`: the number of live nodes.
#[verifier::external_body]
pub(crate) fn graph_node_count(g: &StableGraph<Symbol, EdgeKind, Directed, usize>) -> (n: usize)
    ensures
        n == count_some(graph_node_slots(*g)),
{
    g.node_count()
}

/// `StableGraph::edge_count`: the number of live edges.
#[verifier::external_body]
pub(crate) fn graph_edge_count(g: &StableGraph<Symbol, EdgeKind, Directed, usize>) -> (n: usize)
    ensures
        n == count_some(graph_edge_slots(*g)),
{
    g.edge_count()
}

/// `StableGraph::edge_endpoints`: `(source, target)` of edge `e`, `None`
/// when the slot is vacant or past the end.
#[verifier::external_body]
pub(crate) fn graph_edge_endpoints(g: &StableGraph<Symbol, EdgeKind, Directed, usize>, e: usize) -> (r: Option<(usize, usize)>)
    ensures
        match r {
            Some((s, t)) => slot_live(graph_edge_slots(*g), e as int)
                && graph_edge_slots(*g)[e as int].unwrap().0 == s && graph_edge_slots(*g)[e as int].unwrap().1 == t,
            None => !slot_live(graph_edge_slots(*g), e as int),
        },
{
    g.edge_endpoints(petgraph::stable_graph::EdgeIndex::new(e)).map(|(s, t)| (s.index(), t.index()))
}

/// `StableGraph::edge_weight`: the weight of edge `e`, `None` when the slot
/// is vacant or past the end.
#[verifier::external_body]
pub(crate) fn graph_edge_weight(g: &StableGraph<Symbol, EdgeKind, Directed, usize>, e: usize) -> (r: Option<EdgeKind>)
    ensures
        match r {
            Some(k) => slot_live(graph_edge_slots(*g), e as int) && graph_edge_slots(*g)[e as int].unwrap().2 == k,
            None => !slot_live(graph_edge_slots(*g), e as int),
        },
{
    g.edge_weight(petgraph::stable_graph::EdgeIndex::new(e)).copied()
}

/// `StableGraph::edges_directed` from node `a`, collected as
/// `(edge, source, target, weight)`: with `outgoing` the edges whose source
/// is `a`, otherwise those whose target is `a`; each live such edge once.
/// Nothing is yielded for a vacant node. The order (most recently linked
/// first) is left unstated.
#[verifier::external_body]
pub(crate) fn graph_edges_directed(g: &StableGraph<Symbol, EdgeKind, Directed, usize>, a: usize, outgoing: bool) -> (r: Vec<(usize, usize, usize, EdgeKind)>)
    ensures
        forall|j: int| 0 <= j < r.len() ==> {
            let (e, s, t, k) = #[trigger] r@[j];
            &&& slot_live(graph_edge_slots(*g), e as int)
            &&& graph_edge_slots(*g)[e as int] == Some((s as nat, t as nat, k))
            &&& if outgoing { s == a } else { t == a }
        },
        forall|j1: int, j2: int| 0 <= j1 < r.len() && 0 <= j2 < r.len() && j1 != j2 ==> r@[j1].0 != r@[j2].0,
        slot_live(graph_node_slots(*g), a as int) ==> forall|e: int|
            #![trigger graph_edge_slots(*g)[e]]
            slot_live(graph_edge_slots(*g), e) && (if outgoing {
                graph_edge_slots(*g)[e].unwrap().0 == a
            } else {
                graph_edge_slots(*g)[e].unwrap().1 == a
            }) ==> exists|j: int| 0 <= j < r.len() && r@[j].0 == e,
        !slot_live(graph_node_slots(*g), a as int) ==> r.len() == 0,
{
    let dir = if outgoing { petgraph::Direction::Outgoing } else { petgraph::Direction::Incoming };
    g.edges_directed(NodeIndex::new(a), dir).map(|e| (e.id().index(), e.source().index(), e.target().index(), *e.weight())).collect()
}

/// `NodeIndex::new`: the node index wrapping `i`.
#[verifier::external_body]
pub(crate) fn node_index_new(i: usize) -> (n: NodeIndex<usize>)
    ensures
        node_index_value(n) == i,
{
    NodeIndex::new(i)
}

/// `NodeIndex::index`: the index that `n` wraps.
#[verifier::external_body]
pub(crate) fn node_index_get(n: NodeIndex<usize>) -> (i: usize)
    ensures
        i == node_index_value(n),
{
    n.index()
}

} // verus!
