//! Dead-code detection: the symbols that no entry point reaches through
//! `Reference` or `Definition` edges.
use vstd::prelude::*;

use crate::graph::{CodeGraph, EdgeKind, Symbol};
use crate::text::{has_prefix, has_substring, has_suffix, str_contains, str_ends_with, str_eq, str_starts_with};

verus! {

/// Whether a symbol is an entry point: named `main` or `...::main`, named
/// with a `pub ` prefix, mentioning `test` or `bench`, or a `pub...` name in
/// a `lib.rs` file.
pub open spec fn spec_is_entry_point(s: Symbol) -> bool {
    ||| s.name@ == "main"@
    ||| has_suffix(s.name@, "::main"@)
    ||| has_prefix(s.name@, "pub "@)
    ||| has_substring(s.name@, "test"@)
    ||| has_substring(s.name@, "bench"@)
    ||| (has_substring(s.file_path@, "lib.rs"@) && has_prefix(s.name@, "pub"@))
}

/// A followed edge kind: references and definitions keep their target alive.
pub open spec fn keeps_alive(k: EdgeKind) -> bool {
    k == EdgeKind::Reference || k == EdgeKind::Definition
}

/// `x` is the id of some node.
pub open spec fn is_node_id(g: CodeGraph, x: Seq<char>) -> bool {
    exists|k: int| 0 <= k < g.nodes().len() && g.nodes()[k].id@ == x
}

/// One step between symbol ids: from the node indexed under `a`, an edge
/// that keeps its target alive leads to a node whose id is `b`.
pub open spec fn id_step(g: CodeGraph, a: Seq<char>, b: Seq<char>) -> bool {
    &&& g.index().contains_key(a)
    &&& exists|e: int|
        0 <= e < g.edges().len() && #[trigger] g.edges()[e].0 == g.index()[a] && keeps_alive(g.edges()[e].2)
            && g.edges()[e].1 < g.nodes().len() && g.nodes()[g.edges()[e].1 as int].id@ == b
}

/// A path of symbol ids, each step an [`id_step`].
pub open spec fn is_id_path(g: CodeGraph, p: Seq<Seq<char>>) -> bool {
    &&& p.len() >= 1
    &&& forall|i: int| 0 <= i < p.len() - 1 ==> id_step(g, #[trigger] p[i], p[i + 1])
}

/// `x` is the id of an entry-point symbol.
pub open spec fn is_entry_id(g: CodeGraph, x: Seq<char>) -> bool {
    exists|i: int| 0 <= i < g.nodes().len() && spec_is_entry_point(#[trigger] g.nodes()[i]) && g.nodes()[i].id@ == x
}

/// The id `x` is reached from some entry point.
pub open spec fn live_id(g: CodeGraph, x: Seq<char>) -> bool {
    exists|p: Seq<Seq<char>>| #[trigger] is_id_path(g, p) && is_entry_id(g, p[0]) && p.last() == x
}

/// Whether the symbol is an entry point for dead-code detection.
pub fn is_entry_point(symbol: &Symbol) -> (r: bool)
    ensures
        r == spec_is_entry_point(*symbol),
{
    str_eq(symbol.name.as_str(), "main") || str_ends_with(symbol.name.as_str(), "::main")
        || str_starts_with(symbol.name.as_str(), "pub ") || str_contains(symbol.name.as_str(), "test")
        || str_contains(symbol.name.as_str(), "bench")
        || (str_contains(symbol.file_path.as_str(), "lib.rs") && str_starts_with(symbol.name.as_str(), "pub"))
}

/// Number of `false` entries.
pub open spec fn count_false(s: Seq<bool>) -> nat
    decreases s.len(),
{
    if s.len() == 0 {
        0
    } else {
        count_false(s.drop_last()) + if s.last() { 0nat } else { 1nat }
    }
}

proof fn lemma_count_false_set(s: Seq<bool>, i: int)
    requires
        0 <= i < s.len(),
        !s[i],
    ensures
        count_false(s.update(i, true)) + 1 == count_false(s),
    decreases s.len(),
{
    let u = s.update(i, true);
    if i < s.len() - 1 {
        assert(u.drop_last() =~= s.drop_last().update(i, true));
        lemma_count_false_set(s.drop_last(), i);
    } else {
        assert(u.drop_last() =~= s.drop_last());
    }
}

/// Node `n` is the indexed node of its own id.
pub open spec fn is_rep(g: CodeGraph, n: int) -> bool {
    0 <= n < g.nodes().len() && g.index()[g.nodes()[n].id@] == n
}

/// Every edge out of `n` that keeps its target alive leads to a node whose
/// indexed node is marked.
pub open spec fn closed_at(g: CodeGraph, live: Seq<bool>, n: int) -> bool {
    forall|e: int|
        0 <= e < g.edges().len() && #[trigger] g.edges()[e].0 == n && keeps_alive(g.edges()[e].2) ==> live[g.index()[g.nodes()[g.edges()[e].1 as int].id@] as int]
}

/// Dead-code detection over a symbol graph.
pub struct OptimizedDeadCodeDetector;

impl OptimizedDeadCodeDetector {
    /// The ids of the symbols that no entry point reaches: starting from the
    /// ids of all entry-point symbols, every `Reference` or `Definition`
    /// edge out of the node indexed under a reached id reaches its target's
    /// id. Each unreached id occurs once; ids come in node order.
    #[verifier::rlimit(60)]
    pub fn detect_parallel(graph: &CodeGraph) -> (r: Vec<String>)
        requires
            graph.wf(),
        ensures
            forall|i: int, j: int| 0 <= i < r.len() && 0 <= j < r.len() && i != j ==> r@[i]@ != r@[j]@,
            forall|i: int| 0 <= i < r.len() ==> is_node_id(*graph, #[trigger] r@[i]@) && !live_id(*graph, r@[i]@),
            forall|k: int| 0 <= k < graph.nodes().len() && !live_id(*graph, #[trigger] graph.nodes()[k].id@) ==> exists|i: int| 0 <= i < r.len() && r@[i]@ == graph.nodes()[k].id@,
    {
        let ghost g = *graph;
        proof {
            graph.lemma_index();
        }
        let total = graph.node_total();
        let mut live: Vec<bool> = Vec::new();
        let mut i: usize = 0;
        while i < total
            invariant
                i <= total,
                live.len() == i,
                forall|n: int| 0 <= n < i ==> !live@[n],
            decreases total - i,
        {
            live.push(false);
            i = i + 1;
        }
        let mut stack: Vec<usize> = Vec::new();
        // Entry points.
        let mut i: usize = 0;
        while i < total
            invariant
                g == *graph,
                graph.wf(),
                total == g.nodes().len(),
                live.len() == total,
                i <= total,
                forall|n: int| 0 <= n < total && #[trigger] live@[n] ==> is_rep(g, n) && live_id(g, g.nodes()[n].id@),
                forall|n: int| 0 <= n < total && #[trigger] live@[n] ==> stack@.contains(n as usize),
                forall|j: int| 0 <= j < stack.len() ==> #[trigger] stack@[j] < total && live@[stack@[j] as int],
                forall|k: int| 0 <= k < i && spec_is_entry_point(#[trigger] g.nodes()[k]) ==> live@[g.index()[g.nodes()[k].id@] as int],
                forall|k: Seq<char>| #[trigger] g.index().contains_key(k) ==> g.index()[k] < g.nodes().len() && g.nodes()[g.index()[k] as int].id@ == k,
                forall|k: int| 0 <= k < g.nodes().len() ==> g.index().contains_key(#[trigger] g.nodes()[k].id@),
            decreases total - i,
        {
            let s = graph.node_at(i);
            if is_entry_point(s) {
                let rep = graph.lookup(s.id.as_str());
                match rep {
                    Some(rn) => {
                        if !live[rn] {
                            proof {
                                let x = g.nodes()[i as int].id@;
                                let p = seq![x];
                                assert(is_id_path(g, p));
                                assert(is_entry_id(g, p[0]));
                                assert(g.nodes()[rn as int].id@ == x);
                                assert(live_id(g, g.nodes()[rn as int].id@));
                            }
                            let ghost old_stack = stack@;
                            let ghost old_live = live@;
                            live.set(rn, true);
                            stack.push(rn);
                            proof {
                                assert(stack@[stack.len() - 1] == rn);
                                assert forall|n: int| 0 <= n < total && #[trigger] live@[n] implies stack@.contains(n as usize) by {
                                    if n != rn {
                                        assert(old_live[n]);
                                        let w = choose|w: int| 0 <= w < old_stack.len() && old_stack[w] == n as usize;
                                        assert(stack@[w] == n as usize);
                                    }
                                }
                                assert forall|jj: int| 0 <= jj < stack.len() implies #[trigger] stack@[jj] < total && live@[stack@[jj] as int] by {
                                    if jj < old_stack.len() {
                                        assert(stack@[jj] == old_stack[jj]);
                                    }
                                }
                            }
                        }
                    },
                    None => {
                        proof { assert(g.index().contains_key(g.nodes()[i as int].id@)); }
                    },
                }
            }
            i = i + 1;
        }
        // Traversal.
        while stack.len() > 0
            invariant
                g == *graph,
                graph.wf(),
                total == g.nodes().len(),
                live.len() == total,
                forall|n: int| 0 <= n < total && #[trigger] live@[n] ==> is_rep(g, n) && live_id(g, g.nodes()[n].id@),
                forall|n: int| 0 <= n < total && #[trigger] live@[n] && !stack@.contains(n as usize) ==> closed_at(g, live@, n),
                forall|j: int| 0 <= j < stack.len() ==> #[trigger] stack@[j] < total && live@[stack@[j] as int],
                forall|k: int| 0 <= k < total && spec_is_entry_point(#[trigger] g.nodes()[k]) ==> live@[g.index()[g.nodes()[k].id@] as int],
                forall|k: Seq<char>| #[trigger] g.index().contains_key(k) ==> g.index()[k] < g.nodes().len() && g.nodes()[g.index()[k] as int].id@ == k,
                forall|k: int| 0 <= k < g.nodes().len() ==> g.index().contains_key(#[trigger] g.nodes()[k].id@),
            decreases count_false(live@), stack.len(),
        {
            let ghost stack_before_pop = stack@;
            let u = stack.pop().unwrap();
            let ghost live_before = live@;
            let ghost stack_after_pop = stack@;
            proof {
                assert(stack_before_pop == stack_after_pop.push(u));
                assert forall|n: int| 0 <= n < total && #[trigger] live@[n] && !stack@.contains(n as usize) && n != u implies closed_at(g, live@, n) by {
                    if stack_before_pop.contains(n as usize) {
                        let w = choose|w: int| 0 <= w < stack_before_pop.len() && stack_before_pop[w] == n as usize;
                        if w < stack_after_pop.len() {
                            assert(stack@[w] == n as usize);
                        }
                    }
                }
                assert forall|jj: int| 0 <= jj < stack.len() implies #[trigger] stack@[jj] < total && live@[stack@[jj] as int] by {
                    assert(stack@[jj] == stack_before_pop[jj]);
                }
            }
            let out = graph.out_edges(u);
            let mut j: usize = 0;
            while j < out.len()
                invariant
                    g == *graph,
                    graph.wf(),
                    total == g.nodes().len(),
                    live.len() == total,
                    u < total,
                    live@[u as int],
                    j <= out.len(),
                    count_false(live@) <= count_false(live_before),
                    count_false(live@) == count_false(live_before) ==> stack@ == stack_after_pop,
                    forall|n: int| 0 <= n < total && #[trigger] live_before[n] ==> live@[n],
                    forall|n: int| 0 <= n < total && #[trigger] live@[n] ==> is_rep(g, n) && live_id(g, g.nodes()[n].id@),
                    forall|n: int| 0 <= n < total && #[trigger] live@[n] && !stack@.contains(n as usize) && n != u ==> closed_at(g, live@, n),
                    forall|jj: int| 0 <= jj < stack.len() ==> #[trigger] stack@[jj] < total && live@[stack@[jj] as int],
                    forall|jj: int| 0 <= jj < j && keeps_alive((#[trigger] out@[jj]).3) ==> live@[g.index()[g.nodes()[out@[jj].2 as int].id@] as int],
                    forall|jj: int| 0 <= jj < out.len() ==> {
                        let (e, s, t, k) = #[trigger] out@[jj];
                        &&& e < g.edges().len()
                        &&& g.edges()[e as int] == (s as nat, t as nat, k)
                        &&& s == u
                        &&& t < g.nodes().len()
                    },
                    forall|e: int| 0 <= e < g.edges().len() && #[trigger] g.edges()[e].0 == u ==> exists|jj: int| 0 <= jj < out.len() && out@[jj].0 == e,
                    forall|k: int| 0 <= k < total && spec_is_entry_point(#[trigger] g.nodes()[k]) ==> live@[g.index()[g.nodes()[k].id@] as int],
                    forall|k: Seq<char>| #[trigger] g.index().contains_key(k) ==> g.index()[k] < g.nodes().len() && g.nodes()[g.index()[k] as int].id@ == k,
                    forall|k: int| 0 <= k < g.nodes().len() ==> g.index().contains_key(#[trigger] g.nodes()[k].id@),
                decreases out.len() - j,
            {
                let (_e, _src, tgt, kind) = out[j];
                if kind == EdgeKind::Reference || kind == EdgeKind::Definition {
                    let ts = graph.node_at(tgt);
                    let rep = graph.lookup(ts.id.as_str());
                    match rep {
                        Some(rn) => {
                            if !live[rn] {
                                proof {
                                    let b = g.nodes()[tgt as int].id@;
                                    let a = g.nodes()[u as int].id@;
                                    let p = choose|p: Seq<Seq<char>>| #[trigger] is_id_path(g, p) && is_entry_id(g, p[0]) && p.last() == a;
                                    let q = p.push(b);
                                    assert(g.edges()[_e as int].0 == u);
                                    assert(id_step(g, a, b));
                                    assert forall|ii: int| 0 <= ii < q.len() - 1 implies id_step(g, #[trigger] q[ii], q[ii + 1]) by {
                                        if ii < p.len() - 1 {
                                            assert(q[ii] == p[ii] && q[ii + 1] == p[ii + 1]);
                                        }
                                    }
                                    assert(is_id_path(g, q));
                                    assert(q[0] == p[0]);
                                    assert(live_id(g, g.nodes()[rn as int].id@));
                                    lemma_count_false_set(live@, rn as int);
                                }
                                let ghost old_stack = stack@;
                                let ghost old_live = live@;
                                live.set(rn, true);
                                stack.push(rn);
                                proof {
                                    assert(stack@[stack.len() - 1] == rn);
                                    assert(stack@.contains(rn));
                                    assert forall|n: int| 0 <= n < total && #[trigger] live@[n] && !stack@.contains(n as usize) && n != u implies closed_at(g, live@, n) by {
                                        assert(n != rn);
                                        assert(old_live[n]);
                                        if old_stack.contains(n as usize) {
                                            let w = choose|w: int| 0 <= w < old_stack.len() && old_stack[w] == n as usize;
                                            assert(stack@[w] == n as usize);
                                        }
                                        assert(closed_at(g, old_live, n));
                                        graph.lemma_index();
                                        lemma_closed_mono(g, old_live, live@, n);
                                    }
                                    assert forall|jj: int| 0 <= jj < stack.len() implies #[trigger] stack@[jj] < total && live@[stack@[jj] as int] by {
                                        if jj < old_stack.len() {
                                            assert(stack@[jj] == old_stack[jj]);
                                        }
                                    }
                                }
                            }
                        },
                        None => {
                            proof { assert(g.index().contains_key(g.nodes()[tgt as int].id@)); }
                        },
                    }
                }
                j = j + 1;
            }
            proof {
                assert(closed_at(g, live@, u as int)) by {
                    assert forall|e: int| 0 <= e < g.edges().len() && #[trigger] g.edges()[e].0 == u && keeps_alive(g.edges()[e].2) implies live@[g.index()[g.nodes()[g.edges()[e].1 as int].id@] as int] by {
                        let jj = choose|jj: int| 0 <= jj < out.len() && out@[jj].0 == e;
                        assert(keeps_alive(out@[jj].3));
                    }
                }
            }
        }
        // Completeness: every live id is marked.
        proof {
            assert forall|n: int| 0 <= n < live.len() && #[trigger] live@[n] implies closed_at(g, live@, n) by {
                assert(!stack@.contains(n as usize));
            }
            assert forall|p: Seq<Seq<char>>| #[trigger] is_id_path(g, p) && is_entry_id(g, p[0]) implies live@[g.index()[p.last()] as int] && g.index().contains_key(p.last()) by {
                lemma_path_marked(g, live@, p);
            }
        }
        collect_unreached(graph, live)
    }
}

/// Every unmarked indexed node below `i` has its id at position `pos[n]`.
pub open spec fn positions_ok(g: CodeGraph, live: Seq<bool>, r: Seq<String>, pos: Map<int, int>, i: int) -> bool {
    forall|n: int| 0 <= n < i && is_rep(g, n) && !live[n] ==> #[trigger] pos.contains_key(n) && 0 <= pos[n] < r.len() && r[pos[n]]@ == g.nodes()[n].id@
}

/// The ids of the indexed nodes left unmarked, in node order.
fn collect_unreached(graph: &CodeGraph, live: Vec<bool>) -> (r: Vec<String>)
    requires
        graph.wf(),
        live.len() == graph.nodes().len(),
        forall|n: int| 0 <= n < live.len() && #[trigger] live@[n] ==> is_rep(*graph, n) && live_id(*graph, graph.nodes()[n].id@),
        forall|p: Seq<Seq<char>>| #[trigger] is_id_path(*graph, p) && is_entry_id(*graph, p[0]) ==> live@[graph.index()[p.last()] as int] && graph.index().contains_key(p.last()),
    ensures
        forall|i: int, j: int| 0 <= i < r.len() && 0 <= j < r.len() && i != j ==> r@[i]@ != r@[j]@,
        forall|i: int| 0 <= i < r.len() ==> is_node_id(*graph, #[trigger] r@[i]@) && !live_id(*graph, r@[i]@),
        forall|k: int| 0 <= k < graph.nodes().len() && !live_id(*graph, #[trigger] graph.nodes()[k].id@) ==> exists|i: int| 0 <= i < r.len() && r@[i]@ == graph.nodes()[k].id@,
{
    let ghost g = *graph;
    proof {
        graph.lemma_index();
    }
    let total = graph.node_total();
    let mut r: Vec<String> = Vec::new();
    let ghost mut src: Seq<int> = Seq::empty();
    let ghost mut pos: Map<int, int> = Map::empty();
    let mut i: usize = 0;
    while i < total
        invariant
            g == *graph,
            graph.wf(),
            total == g.nodes().len(),
            live.len() == total,
            i <= total,
            forall|k: Seq<char>| #[trigger] g.index().contains_key(k) ==> g.index()[k] < g.nodes().len() && g.nodes()[g.index()[k] as int].id@ == k,
            forall|k: int| 0 <= k < g.nodes().len() ==> g.index().contains_key(#[trigger] g.nodes()[k].id@),
            src.len() == r.len(),
            forall|a: int| 0 <= a < r.len() ==> 0 <= #[trigger] src[a] < i && is_rep(g, src[a]) && !live@[src[a]] && r@[a]@ == g.nodes()[src[a]].id@,
            forall|a: int, b: int| 0 <= a < r.len() && 0 <= b < r.len() && a != b ==> r@[a]@ != r@[b]@,
            positions_ok(g, live@, r@, pos, i as int),
        decreases total - i,
    {
        let ghost old_r = r@;
        let ghost old_pos = pos;
        let s = graph.node_at(i);
        let rep = graph.lookup(s.id.as_str());
        let mut pushed = false;
        match rep {
            Some(rn) => {
                if rn == i && !live[i] {
                    proof {
                        assert forall|a: int| 0 <= a < r.len() implies r@[a]@ != s.id@ by {
                            let n = src[a];
                            assert(is_rep(g, n));
                            assert(g.index()[g.nodes()[n].id@] == n);
                        }
                    }
                    r.push(s.id.clone());
                    pushed = true;
                    proof {
                        src = src.push(i as int);
                        pos = pos.insert(i as int, (r.len() - 1) as int);
                    }
                }
            },
            None => {},
        }
        let ghost i0 = i;
        i = i + 1;
        proof {
            if pushed {
                assert(r@ == old_r.push(r@[r.len() - 1]));
                assert(r@[r.len() - 1]@ == g.nodes()[i0 as int].id@);
            } else {
                assert(r@ == old_r);
                if is_rep(g, i0 as int) {
                    assert(g.nodes()[i0 as int].id@ == s.id@);
                    assert(g.index().contains_key(s.id@));
                }
            }
            assert forall|a: int| 0 <= a < r.len() implies 0 <= #[trigger] src[a] < i && is_rep(g, src[a]) && !live@[src[a]] && r@[a]@ == g.nodes()[src[a]].id@ by {
                if a < old_r.len() {
                    assert(r@[a] == old_r[a]);
                }
            }
            assert forall|n: int| 0 <= n < i && is_rep(g, n) && !live@[n] implies #[trigger] pos.contains_key(n) && 0 <= pos[n] < r.len() && r@[pos[n]]@ == g.nodes()[n].id@ by {
                if n < i0 {
                    assert(positions_ok(g, live@, old_r, old_pos, i0 as int));
                }
                if n < i0 {
                    assert(old_pos.contains_key(n));
                    assert(pos[n] == old_pos[n]);
                    assert(r@[pos[n]] == old_r[pos[n]]);
                } else {
                    assert(g.nodes()[n].id@ == s.id@);
                    assert(rep == Some(i0));
                    assert(pushed);
                }
            }
            assert(positions_ok(g, live@, r@, pos, i as int));
        }
    }
    proof {
        assert forall|a: int| 0 <= a < r.len() implies is_node_id(g, #[trigger] r@[a]@) && !live_id(g, r@[a]@) by {
            let n = src[a];
            assert(g.nodes()[n].id@ == r@[a]@);
            if live_id(g, r@[a]@) {
                let p = choose|p: Seq<Seq<char>>| #[trigger] is_id_path(g, p) && is_entry_id(g, p[0]) && p.last() == r@[a]@;
                assert(live@[g.index()[p.last()] as int]);
                assert(g.index()[g.nodes()[n].id@] == n);
            }
        }
        assert forall|k: int| 0 <= k < g.nodes().len() && !live_id(g, #[trigger] g.nodes()[k].id@) implies exists|a: int| 0 <= a < r.len() && r@[a]@ == g.nodes()[k].id@ by {
            let x = g.nodes()[k].id@;
            let n = g.index()[x] as int;
            assert(g.nodes()[n].id@ == x);
            assert(is_rep(g, n));
            if live@[n] {
                assert(live_id(g, g.nodes()[n].id@));
            }
            assert(positions_ok(g, live@, r@, pos, i as int));
            assert(pos.contains_key(n));
            assert(r@[pos[n]]@ == x);
        }
    }
    r
}

proof fn lemma_closed_mono(g: CodeGraph, l1: Seq<bool>, l2: Seq<bool>, n: int)
    requires
        closed_at(g, l1, n),
        l1.len() == l2.len(),
        forall|m: int| 0 <= m < l1.len() && #[trigger] l1[m] ==> l2[m],
        forall|e: int| 0 <= e < g.edges().len() ==> #[trigger] g.edges()[e].0 < g.nodes().len() && g.edges()[e].1 < g.nodes().len(),
        forall|k: Seq<char>| #[trigger] g.index().contains_key(k) ==> g.index()[k] < g.nodes().len() && g.nodes()[g.index()[k] as int].id@ == k,
        forall|k: int| 0 <= k < g.nodes().len() ==> g.index().contains_key(#[trigger] g.nodes()[k].id@),
        l1.len() == g.nodes().len(),
    ensures
        closed_at(g, l2, n),
{
    assert forall|e: int| 0 <= e < g.edges().len() && #[trigger] g.edges()[e].0 == n && keeps_alive(g.edges()[e].2) implies l2[g.index()[g.nodes()[g.edges()[e].1 as int].id@] as int] by {
        let t = g.edges()[e].1 as int;
        assert(g.index().contains_key(g.nodes()[t].id@));
    }
}

proof fn lemma_path_marked(g: CodeGraph, live: Seq<bool>, p: Seq<Seq<char>>)
    requires
        is_id_path(g, p),
        is_entry_id(g, p[0]),
        live.len() == g.nodes().len(),
        forall|n: int| 0 <= n < live.len() && #[trigger] live[n] ==> closed_at(g, live, n),
        forall|k: int| 0 <= k < live.len() && spec_is_entry_point(#[trigger] g.nodes()[k]) ==> live[g.index()[g.nodes()[k].id@] as int],
        forall|k: Seq<char>| #[trigger] g.index().contains_key(k) ==> g.index()[k] < g.nodes().len() && g.nodes()[g.index()[k] as int].id@ == k,
        forall|k: int| 0 <= k < g.nodes().len() ==> g.index().contains_key(#[trigger] g.nodes()[k].id@),
    ensures
        g.index().contains_key(p.last()),
        live[g.index()[p.last()] as int],
    decreases p.len(),
{
    if p.len() == 1 {
        let i = choose|i: int| 0 <= i < g.nodes().len() && spec_is_entry_point(#[trigger] g.nodes()[i]) && g.nodes()[i].id@ == p[0];
    } else {
        let q = p.drop_last();
        assert forall|i: int| 0 <= i < q.len() - 1 implies id_step(g, #[trigger] q[i], q[i + 1]) by {
            assert(q[i] == p[i] && q[i + 1] == p[i + 1]);
        }
        lemma_path_marked(g, live, q);
        let a = q.last();
        let b = p.last();
        assert(p[p.len() - 2] == a);
        assert(id_step(g, a, b));
        let e = choose|e: int|
            0 <= e < g.edges().len() && #[trigger] g.edges()[e].0 == g.index()[a] && keeps_alive(g.edges()[e].2)
                && g.edges()[e].1 < g.nodes().len() && g.nodes()[g.edges()[e].1 as int].id@ == b;
        let n = g.index()[a] as int;
        assert(closed_at(g, live, n));
    }
}

/// Entry points are never dead: the id of an entry-point symbol is always
/// reached (by the path that starts and ends at it), so dead-code
/// detection never reports it.
pub proof fn law_entry_points_live(g: CodeGraph, k: int)
    requires
        0 <= k < g.nodes().len(),
        spec_is_entry_point(g.nodes()[k]),
    ensures
        live_id(g, g.nodes()[k].id@),
{
    let x = g.nodes()[k].id@;
    let p = seq![x];
    assert(is_id_path(g, p));
    assert(is_entry_id(g, p[0]));
    assert(p.last() == x);
}

/// Whatever a symbol's edges, the target of a `Reference` or `Definition`
/// edge from a reached symbol is reached too.
pub proof fn law_reached_closed(g: CodeGraph, a: Seq<char>, b: Seq<char>)
    requires
        live_id(g, a),
        id_step(g, a, b),
    ensures
        live_id(g, b),
{
    let p = choose|p: Seq<Seq<char>>| #[trigger] is_id_path(g, p) && is_entry_id(g, p[0]) && p.last() == a;
    let q = p.push(b);
    assert forall|ii: int| 0 <= ii < q.len() - 1 implies id_step(g, #[trigger] q[ii], q[ii + 1]) by {
        if ii < p.len() - 1 {
            assert(q[ii] == p[ii] && q[ii + 1] == p[ii + 1]);
        } else {
            assert(q[ii] == a && q[ii + 1] == b);
        }
    }
    assert(is_id_path(g, q));
    assert(q[0] == p[0]);
    assert(q.last() == b);
}

proof fn lemma_path_stays_in(g: CodeGraph, s: Set<Seq<char>>, p: Seq<Seq<char>>, i: int)
    requires
        is_id_path(g, p),
        s.contains(p[0]),
        forall|a: Seq<char>, b: Seq<char>| s.contains(a) && #[trigger] id_step(g, a, b) ==> s.contains(b),
        0 <= i < p.len(),
    ensures
        s.contains(p[i]),
    decreases i,
{
    if i > 0 {
        lemma_path_stays_in(g, s, p, i - 1);
        assert(id_step(g, p[i - 1], p[i]));
    }
}

/// The reached ids are the least set that holds the id of every entry point
/// and is closed under `Reference` and `Definition` edges: any such set
/// holds every reached id. With [`law_entry_points_live`] and
/// [`law_reached_closed`], the ids that dead-code detection reports are
/// exactly the node ids outside that least set.
pub proof fn law_reached_least(g: CodeGraph, s: Set<Seq<char>>, x: Seq<char>)
    requires
        forall|k: int| 0 <= k < g.nodes().len() && spec_is_entry_point(#[trigger] g.nodes()[k]) ==> s.contains(g.nodes()[k].id@),
        forall|a: Seq<char>, b: Seq<char>| s.contains(a) && #[trigger] id_step(g, a, b) ==> s.contains(b),
        live_id(g, x),
    ensures
        s.contains(x),
{
    let p = choose|p: Seq<Seq<char>>| #[trigger] is_id_path(g, p) && is_entry_id(g, p[0]) && p.last() == x;
    let k = choose|k: int| 0 <= k < g.nodes().len() && spec_is_entry_point(#[trigger] g.nodes()[k]) && g.nodes()[k].id@ == p[0];
    lemma_path_stays_in(g, s, p, p.len() - 1);
}

/// Tests, benchmarks and the other entry points are never dead: a symbol
/// named `main` or `...::main`, one whose name starts with `pub ` or holds
/// `test` or `bench` anywhere, and one of a `lib.rs` file whose name starts
/// with `pub`, is an entry point, so its id is reached and dead-code
/// detection never reports it.
pub proof fn law_tests_and_mains_live(g: CodeGraph, k: int)
    requires
        0 <= k < g.nodes().len(),
        ({
            let s = g.nodes()[k];
            ||| s.name@ == "main"@
            ||| has_suffix(s.name@, "::main"@)
            ||| has_prefix(s.name@, "pub "@)
            ||| has_substring(s.name@, "test"@)
            ||| has_substring(s.name@, "bench"@)
            ||| has_substring(s.file_path@, "lib.rs"@) && has_prefix(s.name@, "pub"@)
        }),
    ensures
        spec_is_entry_point(g.nodes()[k]),
        live_id(g, g.nodes()[k].id@),
{
    law_entry_points_live(g, k);
}

} // verus!
