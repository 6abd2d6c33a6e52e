//! Adding many symbols at once: a large batch is cut into chunks, each chunk
//! is built into a graph of its own, and the chunk graphs are merged into
//! the main graph in order. Building the chunk graphs touches no shared
//! state, so a caller may build them on several threads and merge them here.
use vstd::prelude::*;

use crate::graph::{CodeGraph, EdgeKind, Symbol};
use crate::stable_graph::{node_index_new, node_index_value};
use petgraph::stable_graph::NodeIndex;

verus! {

/// Below this many symbols a batch is added one by one.
pub const SEQUENTIAL_LIMIT: usize = 100;

/// Number of symbols in a chunk.
pub const CHUNK_SIZE: usize = 1000;

/// The index of a graph of `base` nodes with index `index` after `symbols`
/// are added to it in order.
pub open spec fn index_after(index: Map<Seq<char>, nat>, base: nat, symbols: Seq<Symbol>) -> Map<Seq<char>, nat>
    decreases symbols.len(),
{
    if symbols.len() == 0 {
        index
    } else {
        index_after(index, base, symbols.drop_last()).insert(symbols.last().id@, base + (symbols.len() - 1) as nat)
    }
}

/// Node `k` of `g` is the one its id is indexed under.
pub open spec fn is_index_node(g: CodeGraph, k: nat) -> bool {
    g.index()[g.nodes()[k as int].id@] == k
}

/// The edges of `sub` among its first `upto` whose two ends are index nodes,
/// in order, with both ends moved up by `base`.
pub open spec fn merged_edges(sub: CodeGraph, base: nat, upto: int) -> Seq<(nat, nat, EdgeKind)>
    decreases upto,
{
    if upto <= 0 {
        Seq::empty()
    } else {
        let rest = merged_edges(sub, base, upto - 1);
        let e = sub.edges()[upto - 1];
        if is_index_node(sub, e.0) && is_index_node(sub, e.1) {
            rest.push((base + e.0, base + e.1, e.2))
        } else {
            rest
        }
    }
}

/// Whether no later symbol of the same chunk has the id of `symbols[i]`.
pub open spec fn last_in_chunk(symbols: Seq<Symbol>, i: int) -> bool {
    forall|j: int| i < j < symbols.len() && j / (CHUNK_SIZE as int) == i / (CHUNK_SIZE as int) ==> symbols[j].id@ != symbols[i].id@
}

/// The node indices a chunked batch reports for the first `upto` of
/// `symbols` added after `base` nodes: the node of each symbol that is the
/// last of its id within its chunk, in order.
pub open spec fn chunked_positions(symbols: Seq<Symbol>, base: nat, upto: int) -> Seq<nat>
    decreases upto,
{
    if upto <= 0 {
        Seq::empty()
    } else {
        let rest = chunked_positions(symbols, base, upto - 1);
        if last_in_chunk(symbols, upto - 1) {
            rest.push(base + (upto - 1) as nat)
        } else {
            rest
        }
    }
}

/// What [`OptimizedParallelGraph::add_symbols_batch`] reports: every new
/// node, in order, when the batch fits in one chunk; otherwise the nodes of
/// [`chunked_positions`].
pub open spec fn batch_positions(symbols: Seq<Symbol>, base: nat) -> Seq<nat> {
    if symbols.len() <= CHUNK_SIZE {
        Seq::new(symbols.len(), |i: int| base + i as nat)
    } else {
        chunked_positions(symbols, base, symbols.len() as int)
    }
}

/// Adds `symbols` to `graph` one by one; returns their nodes.
pub(crate) fn add_in_order(graph: &mut CodeGraph, symbols: &Vec<Symbol>) -> (r: Vec<NodeIndex<usize>>)
    requires
        old(graph).wf(),
    ensures
        final(graph).wf(),
        final(graph).nodes() == old(graph).nodes() + symbols@,
        final(graph).edges() == old(graph).edges(),
        final(graph).index() == index_after(old(graph).index(), old(graph).nodes().len(), symbols@),
        r.len() == symbols.len(),
        forall|i: int| 0 <= i < r.len() ==> node_index_value(#[trigger] r@[i]) == old(graph).nodes().len() + i,
{
    let ghost g0 = *graph;
    let mut r: Vec<NodeIndex<usize>> = Vec::new();
    let mut i: usize = 0;
    assert(symbols@.take(0) =~= Seq::<Symbol>::empty());
    assert(g0.nodes() + symbols@.take(0) =~= g0.nodes());
    while i < symbols.len()
        invariant
            i <= symbols.len(),
            graph.wf(),
            graph.nodes() == g0.nodes() + symbols@.take(i as int),
            graph.edges() == g0.edges(),
            graph.index() == index_after(g0.index(), g0.nodes().len(), symbols@.take(i as int)),
            r.len() == i,
            forall|j: int| 0 <= j < i ==> node_index_value(#[trigger] r@[j]) == g0.nodes().len() + j,
        decreases symbols.len() - i,
    {
        let n = graph.add_symbol(symbols[i].clone());
        r.push(n);
        assert(symbols@.take(i + 1).drop_last() =~= symbols@.take(i as int));
        assert(g0.nodes() + symbols@.take(i + 1) =~= (g0.nodes() + symbols@.take(i as int)).push(symbols@[i as int]));
        i = i + 1;
    }
    assert(symbols@.take(symbols.len() as int) =~= symbols@);
    r
}

/// Adds the nodes of `sub` to `main` in node order, then the edges of `sub`
/// whose two ends are index nodes of `sub`, in edge order. Returns, for each
/// node of `sub`, its new node in `main` when it is an index node, and
/// `None` otherwise.
pub fn merge_subgraph(main: &mut CodeGraph, sub: CodeGraph) -> (mapping: Vec<Option<usize>>)
    requires
        old(main).wf(),
        sub.wf(),
    ensures
        final(main).wf(),
        final(main).nodes() == old(main).nodes() + sub.nodes(),
        final(main).index() == index_after(old(main).index(), old(main).nodes().len(), sub.nodes()),
        final(main).edges() == old(main).edges() + merged_edges(sub, old(main).nodes().len(), sub.edges().len() as int),
        mapping.len() == sub.nodes().len(),
        forall|k: int| 0 <= k < mapping.len() ==> (#[trigger] mapping@[k] is Some <==> is_index_node(sub, k as nat))
            && (mapping@[k] is Some ==> mapping@[k].unwrap() == old(main).nodes().len() + k),
{
    let ghost m0 = *main;
    let ghost base = m0.nodes().len();
    proof { sub.lemma_index(); }
    let total = sub.node_total();
    let mut mapping: Vec<Option<usize>> = Vec::new();
    let mut k: usize = 0;
    while k < total
        invariant
            sub.wf(),
            total == sub.nodes().len(),
            k <= total,
            mapping.len() == k,
            forall|j: int| 0 <= j < k ==> #[trigger] mapping@[j] == None::<usize>,
        decreases total - k,
    {
        mapping.push(None);
        k = k + 1;
    }
    let mut n: usize = 0;
    assert(sub.nodes().take(0) =~= Seq::<Symbol>::empty());
    assert(m0.nodes() + sub.nodes().take(0) =~= m0.nodes());
    while n < total
        invariant
            sub.wf(),
            total == sub.nodes().len(),
            n <= total,
            main.wf(),
            base == m0.nodes().len(),
            main.nodes() == m0.nodes() + sub.nodes().take(n as int),
            main.edges() == m0.edges(),
            main.index() == index_after(m0.index(), base, sub.nodes().take(n as int)),
            mapping.len() == total,
            forall|j: int| 0 <= j < total ==> (#[trigger] mapping@[j] is Some ==> is_index_node(sub, j as nat)),
            forall|j: int| 0 <= j < n && is_index_node(sub, j as nat) ==> #[trigger] mapping@[j] is Some && mapping@[j].unwrap() == base + j,
        decreases total - n,
    {
        proof { sub.lemma_index(); }
        let symbol = sub.node_at(n);
        let old_idx = sub.lookup(symbol.id.as_str());
        let new_idx = main.add_symbol(symbol.clone());
        assert(sub.nodes().take(n + 1).drop_last() =~= sub.nodes().take(n as int));
        assert(sub.nodes().take(n + 1).last() == sub.nodes()[n as int]);
        assert(m0.nodes() + sub.nodes().take(n + 1) =~= (m0.nodes() + sub.nodes().take(n as int)).push(sub.nodes()[n as int]));
        match old_idx {
            Some(o) => {
                proof {
                    let id = sub.nodes()[n as int].id@;
                    assert(sub.nodes()[o as int].id@ == id);
                    assert(is_index_node(sub, o as nat));
                    assert(o >= n);
                }
                let v = node_index_value_of(&new_idx);
                assert(v == base + n);
                mapping.set(o, Some(v));
                proof {
                    assert forall|j: int| 0 <= j < n + 1 && is_index_node(sub, j as nat) implies #[trigger] mapping@[j] is Some && mapping@[j].unwrap() == base + j by {
                        if j == n {
                            assert(sub.index()[sub.nodes()[n as int].id@] == n);
                            assert(o == n);
                        }
                    }
                }
            },
            None => {
                proof { assert(sub.index().contains_key(sub.nodes()[n as int].id@)); }
            },
        }
        n = n + 1;
    }
    assert(sub.nodes().take(total as int) =~= sub.nodes());
    let edge_count = sub.edge_total();
    let mut e: usize = 0;
    assert(m0.edges() + merged_edges(sub, base, 0) =~= m0.edges());
    while e < edge_count
        invariant
            sub.wf(),
            total == sub.nodes().len(),
            edge_count == sub.edges().len(),
            e <= edge_count,
            main.wf(),
            base == m0.nodes().len(),
            main.nodes() == m0.nodes() + sub.nodes(),
            main.index() == index_after(m0.index(), base, sub.nodes()),
            main.edges() == m0.edges() + merged_edges(sub, base, e as int),
            mapping.len() == total,
            forall|j: int| 0 <= j < total ==> (#[trigger] mapping@[j] is Some <==> is_index_node(sub, j as nat))
                && (mapping@[j] is Some ==> mapping@[j].unwrap() == base + j),
        decreases edge_count - e,
    {
        proof { sub.lemma_index(); }
        let (s, t, kind) = sub.edge_at(e);
        match (mapping[s], mapping[t]) {
            (Some(a), Some(b)) => {
                main.add_edge(node_index_new(a), node_index_new(b), kind);
                assert(main.edges() =~= m0.edges() + merged_edges(sub, base, e + 1));
            },
            _ => {
                assert(main.edges() =~= m0.edges() + merged_edges(sub, base, e + 1));
            },
        }
        e = e + 1;
    }
    mapping
}

/// The index that `n` wraps.
fn node_index_value_of(n: &NodeIndex<usize>) -> (r: usize)
    ensures
        r == node_index_value(*n),
{
    crate::stable_graph::node_index_get(*n)
}

/// Symbol insertion in batches.
pub struct OptimizedParallelGraph;

impl OptimizedParallelGraph {
    /// Adds `symbols` to `graph` in order and returns their nodes. A batch of
    /// fewer than [`SEQUENTIAL_LIMIT`] symbols, or of one chunk, is added one
    /// by one and every new node is returned. A larger batch is cut into
    /// chunks of [`CHUNK_SIZE`]; each chunk is built into a graph of its own
    /// and merged, so a symbol whose id occurs again later in its chunk has
    /// no node returned for it.
    pub fn add_symbols_batch(graph: &mut CodeGraph, symbols: Vec<Symbol>) -> (r: Vec<NodeIndex<usize>>)
        requires
            old(graph).wf(),
        ensures
            final(graph).wf(),
            final(graph).nodes() == old(graph).nodes() + symbols@,
            final(graph).edges() == old(graph).edges(),
            final(graph).index() == index_after(old(graph).index(), old(graph).nodes().len(), symbols@),
            r@.map_values(|n: NodeIndex<usize>| node_index_value(n)) == batch_positions(symbols@, old(graph).nodes().len()),
    {
        let ghost g0 = *graph;
        let ghost base = g0.nodes().len();
        if symbols.len() < SEQUENTIAL_LIMIT || symbols.len() <= CHUNK_SIZE {
            let r = add_in_order(graph, &symbols);
            assert(r@.map_values(|n: NodeIndex<usize>| node_index_value(n)) =~= batch_positions(symbols@, base));
            return r;
        }
        let mut all: Vec<NodeIndex<usize>> = Vec::new();
        let mut start: usize = 0;
        assert(symbols@.take(0) =~= Seq::<Symbol>::empty());
        assert(g0.nodes() + symbols@.take(0) =~= g0.nodes());
        assert(all@.map_values(|n: NodeIndex<usize>| node_index_value(n)) =~= chunked_positions(symbols@, base, 0));
        while start < symbols.len()
            invariant
                start <= symbols.len(),
                start % CHUNK_SIZE == 0 || start == symbols.len(),
                base == g0.nodes().len(),
                graph.wf(),
                graph.nodes() == g0.nodes() + symbols@.take(start as int),
                graph.edges() == g0.edges(),
                graph.index() == index_after(g0.index(), base, symbols@.take(start as int)),
                all@.map_values(|n: NodeIndex<usize>| node_index_value(n)) == chunked_positions(symbols@, base, start as int),
            decreases symbols.len() - start,
        {
            let end: usize = if symbols.len() - start < CHUNK_SIZE { symbols.len() } else { start + CHUNK_SIZE };
            let (sub, indices) = build_chunk(&symbols, start, end);
            let ghost before = *graph;
            let ghost sub_g = sub;
            let mapping = merge_subgraph(graph, sub);
            proof {
                lemma_index_after_concat(g0.index(), base, symbols@.take(start as int), symbols@.subrange(start as int, end as int));
                assert(symbols@.take(start as int) + symbols@.subrange(start as int, end as int) =~= symbols@.take(end as int));
                assert(graph.nodes() =~= g0.nodes() + symbols@.take(end as int));
                assert(merged_edges(sub_g, before.nodes().len(), 0) =~= Seq::<(nat, nat, EdgeKind)>::empty());
                assert(graph.edges() =~= g0.edges());
                assert forall|j: int| 0 <= j < mapping.len() implies (#[trigger] mapping@[j] is Some <==> last_in_chunk(symbols@, start + j))
                    && (mapping@[j] is Some ==> mapping@[j].unwrap() == base + start + j) by {
                    assert(is_index_node(sub_g, j as nat) == last_in_chunk(symbols@, start + j));
                }
            }
            let mut i: usize = 0;
            while i < indices.len()
                invariant
                    start < end <= symbols.len(),
                    end - start <= CHUNK_SIZE,
                    start % CHUNK_SIZE == 0,
                    end == symbols.len() || end - start == CHUNK_SIZE,
                    base == g0.nodes().len(),
                    before.nodes().len() == base + start,
                    graph.wf(),
                    graph.nodes() == g0.nodes() + symbols@.take(end as int),
                    graph.edges() == g0.edges(),
                    graph.index() == index_after(g0.index(), base, symbols@.take(end as int)),
                    i <= indices.len(),
                    indices.len() == end - start,
                    forall|j: int| 0 <= j < indices.len() ==> #[trigger] indices@[j] == j,
                    mapping.len() == end - start,
                    forall|j: int| 0 <= j < mapping.len() ==> (#[trigger] mapping@[j] is Some <==> last_in_chunk(symbols@, start + j))
                        && (mapping@[j] is Some ==> mapping@[j].unwrap() == base + start + j),
                    all@.map_values(|n: NodeIndex<usize>| node_index_value(n)) == chunked_positions(symbols@, base, start + i),
                decreases indices.len() - i,
            {
                let ghost prev = all@;
                let idx = indices[i];
                match mapping[idx] {
                    Some(new_idx) => {
                        let node = node_index_new(new_idx);
                        all.push(node);
                        proof {
                            assert(all@ == prev.push(node));
                            assert(all@.map_values(|n: NodeIndex<usize>| node_index_value(n)) =~= prev.map_values(|n: NodeIndex<usize>| node_index_value(n)).push(new_idx as nat));
                        }
                    },
                    None => {},
                }
                i = i + 1;
            }
            proof {
                if end < symbols.len() {
                    assert(end == start + 1000);
                    assert(end % 1000 == 0);
                }
            }
            start = end;
        }
        assert(symbols@.take(symbols.len() as int) =~= symbols@);
        all
    }
}

/// The graph of the symbols `symbols[start..end]` alone, with the position
/// of each in the chunk.
fn build_chunk(symbols: &Vec<Symbol>, start: usize, end: usize) -> (r: (CodeGraph, Vec<usize>))
    requires
        start < end <= symbols.len(),
        end - start <= CHUNK_SIZE,
        start % CHUNK_SIZE == 0,
        end == symbols.len() || end == start + CHUNK_SIZE,
    ensures
        r.0.wf(),
        r.0.nodes() == symbols@.subrange(start as int, end as int),
        r.0.edges() == Seq::<(nat, nat, EdgeKind)>::empty(),
        forall|k: int| 0 <= k < end - start ==> #[trigger] is_index_node(r.0, k as nat) == last_in_chunk(symbols@, start + k),
        r.1.len() == end - start,
        forall|j: int| 0 <= j < r.1.len() ==> #[trigger] r.1@[j] == j,
{
    let mut sub = CodeGraph::new();
    let mut indices: Vec<usize> = Vec::new();
    let mut i: usize = start;
    let ghost chunk = symbols@.subrange(start as int, end as int);
    assert(chunk.take(0) =~= Seq::<Symbol>::empty());
    while i < end
        invariant
            start <= i <= end <= symbols.len(),
            chunk == symbols@.subrange(start as int, end as int),
            sub.wf(),
            sub.nodes() == chunk.take(i - start),
            sub.edges() == Seq::<(nat, nat, EdgeKind)>::empty(),
            sub.index() == index_after(Map::empty(), 0, chunk.take(i - start)),
            indices.len() == i - start,
            forall|j: int| 0 <= j < indices.len() ==> #[trigger] indices@[j] == j,
        decreases end - i,
    {
        let n = sub.add_symbol(symbols[i].clone());
        indices.push(i - start);
        assert(chunk.take(i + 1 - start).drop_last() =~= chunk.take(i - start));
        assert(chunk.take(i + 1 - start) =~= chunk.take(i - start).push(symbols@[i as int]));
        i = i + 1;
    }
    assert(chunk.take(end - start) =~= chunk);
    proof {
        lemma_index_after_last(Map::empty(), chunk);
        assert forall|k: int| 0 <= k < end - start implies #[trigger] is_index_node(sub, k as nat) == last_in_chunk(symbols@, start + k) by {
            lemma_same_chunk(start as int, end as int, k);
            if last_in_chunk(symbols@, start + k) {
                assert forall|j: int| k < j < chunk.len() implies chunk[j].id@ != chunk[k].id@ by {
                    lemma_same_chunk(start as int, end as int, j);
                    assert(chunk[j] == symbols@[start + j]);
                }
            } else {
                let j = choose|j: int| start + k < j < symbols@.len() && j / (CHUNK_SIZE as int) == (start + k) / (CHUNK_SIZE as int)
                    && (#[trigger] symbols@[j]).id@ == symbols@[start + k].id@;
                lemma_chunk_bound(start as int, end as int, j);
                assert(chunk[j - start] == symbols@[j]);
            }
        }
    }
    (sub, indices)
}

/// Positions of one chunk share its number.
proof fn lemma_same_chunk(start: int, end: int, k: int)
    requires
        0 <= start,
        start % (CHUNK_SIZE as int) == 0,
        0 <= k < end - start <= CHUNK_SIZE,
    ensures
        (start + k) / (CHUNK_SIZE as int) == start / (CHUNK_SIZE as int),
{
    assert((start + k) / 1000 == start / 1000) by (nonlinear_arith)
        requires start % 1000 == 0, 0 <= k < 1000, 0 <= start;
}

/// A position of the same chunk number as `start` lies before `start + CHUNK_SIZE`.
proof fn lemma_chunk_bound(start: int, end: int, j: int)
    requires
        0 <= start <= j,
        start % (CHUNK_SIZE as int) == 0,
        j / (CHUNK_SIZE as int) == start / (CHUNK_SIZE as int),
    ensures
        j < start + CHUNK_SIZE,
{
    assert(j < start + 1000) by (nonlinear_arith)
        requires start % 1000 == 0, j / 1000 == start / 1000, 0 <= start <= j;
}

/// From an empty index, node `k` of symbols added in order is the index node
/// of its id exactly when no later symbol has that id.
pub(crate) proof fn lemma_index_after_last(index: Map<Seq<char>, nat>, symbols: Seq<Symbol>)
    requires
        index == Map::<Seq<char>, nat>::empty(),
    ensures
        forall|k: int| 0 <= k < symbols.len() ==> index_after(index, 0, symbols).contains_key(#[trigger] symbols[k].id@)
            && (index_after(index, 0, symbols)[symbols[k].id@] == k
                <==> forall|j: int| k < j < symbols.len() ==> symbols[j].id@ != symbols[k].id@),
    decreases symbols.len(),
{
    if symbols.len() > 0 {
        let t = symbols.drop_last();
        lemma_index_after_last(index, t);
        let n = symbols.len() - 1;
        assert forall|k: int| 0 <= k < symbols.len() implies index_after(index, 0, symbols).contains_key(#[trigger] symbols[k].id@)
            && (index_after(index, 0, symbols)[symbols[k].id@] == k
                <==> forall|j: int| k < j < symbols.len() ==> symbols[j].id@ != symbols[k].id@) by {
            if k < n {
                assert(t[k] == symbols[k]);
                if symbols[k].id@ != symbols[n].id@ {
                    assert forall|j: int| k < j < symbols.len() && symbols[j].id@ == symbols[k].id@ implies j < n by {}
                    if forall|j: int| k < j < t.len() ==> t[j].id@ != t[k].id@ {
                        assert forall|j: int| k < j < symbols.len() implies symbols[j].id@ != symbols[k].id@ by {
                            if j < n {
                                assert(t[j] == symbols[j]);
                            }
                        }
                    } else {
                        let j = choose|j: int| k < j < t.len() && t[j].id@ == t[k].id@;
                        assert(symbols[j] == t[j]);
                    }
                    if forall|j: int| k < j < symbols.len() ==> symbols[j].id@ != symbols[k].id@ {
                        assert forall|j: int| k < j < t.len() implies t[j].id@ != t[k].id@ by {
                            assert(t[j] == symbols[j]);
                        }
                    }
                }
            }
        }
    }
}

/// Adding `a` and then `b` gives the index of adding `a + b`.
pub(crate) proof fn lemma_index_after_concat(index: Map<Seq<char>, nat>, base: nat, a: Seq<Symbol>, b: Seq<Symbol>)
    ensures
        index_after(index_after(index, base, a), base + a.len(), b) == index_after(index, base, a + b),
    decreases b.len(),
{
    if b.len() == 0 {
        assert(a + b =~= a);
    } else {
        lemma_index_after_concat(index, base, a, b.drop_last());
        assert((a + b).drop_last() =~= a + b.drop_last());
        assert((a + b).last() == b.last());
    }
}

} // verus!
