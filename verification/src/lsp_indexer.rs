//! Building the symbol graph of one file from the document symbols a
//! language server reports. Document symbols form a tree; they are added in
//! preorder, each symbol before its children.
use vstd::prelude::*;

use crate::graph::{CodeGraph, Range, Symbol, SymbolKind, SymbolView};
use crate::text::{push_decimal, push_str, spec_decimal, string_push};

verus! {

/// What the indexer reads of a document symbol reported by a language
/// server: its name, detail, numeric symbol kind of the protocol, ranges and
/// children.
pub struct DocumentSymbolData {
    pub name: String,
    pub detail: Option<String>,
    pub kind: i32,
    pub range: Range,
    pub selection_range: Range,
    pub children: Option<Vec<DocumentSymbolData>>,
}

/// The children of `d`, none when it has no child list.
pub open spec fn child_list(d: DocumentSymbolData) -> Seq<DocumentSymbolData> {
    match d.children {
        Some(c) => c@,
        None => Seq::empty(),
    }
}

/// `d` and its descendants in preorder, each with the node of its parent:
/// `d` becomes node `base` under `parent`, its descendants follow it.
pub open spec fn flatten_one(d: DocumentSymbolData, parent: Option<nat>, base: nat) -> Seq<(DocumentSymbolData, Option<nat>)>
    decreases d,
{
    match d.children {
        Some(c) => seq![(d, parent)] + flatten_list(c@, Some(base), base + 1),
        None => seq![(d, parent)],
    }
}

/// The symbols of `s` and their descendants in preorder, each with the node
/// of its parent, the first becoming node `base`; the symbols of `s` are
/// under `parent`.
pub open spec fn flatten_list(s: Seq<DocumentSymbolData>, parent: Option<nat>, base: nat) -> Seq<(DocumentSymbolData, Option<nat>)>
    decreases s,
{
    if s.len() == 0 {
        Seq::empty()
    } else {
        let front = flatten_list(s.drop_last(), parent, base);
        front + flatten_one(s.last(), parent, base + front.len())
    }
}

/// The symbol kind the LSP indexer gives a protocol symbol kind: structs
/// count as classes, fields as properties, enum members as constants, and
/// kinds it does not list as variables.
pub open spec fn spec_lsp_indexer_kind(kind: i32) -> SymbolKind {
    if kind == 12 {
        SymbolKind::Function
    } else if kind == 6 {
        SymbolKind::Method
    } else if kind == 5 || kind == 23 {
        SymbolKind::Class
    } else if kind == 11 {
        SymbolKind::Interface
    } else if kind == 2 {
        SymbolKind::Module
    } else if kind == 3 {
        SymbolKind::Namespace
    } else if kind == 10 {
        SymbolKind::Enum
    } else if kind == 14 || kind == 22 {
        SymbolKind::Constant
    } else if kind == 7 || kind == 8 {
        SymbolKind::Property
    } else {
        SymbolKind::Variable
    }
}

/// A string option as characters.
pub open spec fn opt_view(o: Option<String>) -> Option<Seq<char>> {
    match o {
        Some(s) => Some(s@),
        None => None,
    }
}

/// The id of a document symbol in a file: the path, `#`, the line where its
/// range starts, `:` and its name.
pub open spec fn document_symbol_id(file_path: Seq<char>, line: u32, name: Seq<char>) -> Seq<char> {
    file_path + seq!['#'] + spec_decimal(line as nat) + seq![':'] + name
}

/// The symbol the LSP indexer makes of `d` in the file `file_path`.
pub open spec fn lsp_indexer_symbol(file_path: Seq<char>, d: DocumentSymbolData) -> SymbolView {
    SymbolView {
        id: document_symbol_id(file_path, d.range.start.line, d.name@),
        kind: spec_lsp_indexer_kind(d.kind),
        name: d.name@,
        file_path,
        range: d.range,
        documentation: opt_view(d.detail),
    }
}

/// The symbols that the LSP indexer adds for `s`, in order.
pub open spec fn lsp_indexer_symbols(file_path: Seq<char>, s: Seq<DocumentSymbolData>) -> Seq<SymbolView> {
    flatten_list(s, None, 0).map_values(|e: (DocumentSymbolData, Option<nat>)| lsp_indexer_symbol(file_path, e.0))
}

/// The ids of a list of symbols.
pub open spec fn view_ids(vs: Seq<SymbolView>) -> Seq<Seq<char>> {
    vs.map_values(|v: SymbolView| v.id)
}

/// The symbols made of the document symbols of `flat` by `make`.
pub open spec fn flat_symbols(
    flat: Seq<(DocumentSymbolData, Option<nat>)>,
    make: spec_fn(DocumentSymbolData) -> SymbolView,
) -> Seq<SymbolView> {
    flat.map_values(|e: (DocumentSymbolData, Option<nat>)| make(e.0))
}

/// The index of a graph of `base` nodes with index `index` after symbols of
/// the ids `ids` are added to it in order.
pub open spec fn index_after_ids(index: Map<Seq<char>, nat>, base: nat, ids: Seq<Seq<char>>) -> Map<Seq<char>, nat>
    decreases ids.len(),
{
    if ids.len() == 0 {
        index
    } else {
        index_after_ids(index, base, ids.drop_last()).insert(ids.last(), base + (ids.len() - 1) as nat)
    }
}

/// Adding the ids `a` and then `b` gives the index of adding `a + b`.
pub proof fn lemma_index_after_ids_concat(index: Map<Seq<char>, nat>, base: nat, a: Seq<Seq<char>>, b: Seq<Seq<char>>)
    ensures
        index_after_ids(index_after_ids(index, base, a), base + a.len(), b) == index_after_ids(index, base, a + b),
    decreases b.len(),
{
    if b.len() == 0 {
        assert(a + b =~= a);
    } else {
        lemma_index_after_ids_concat(index, base, a, b.drop_last());
        assert((a + b).drop_last() =~= a + b.drop_last());
        assert((a + b).last() == b.last());
    }
}

/// What is flattened from a symbol does not depend on its parent or base.
pub proof fn lemma_flat_symbols_one(
    d: DocumentSymbolData,
    p: Option<nat>,
    b: nat,
    q: Option<nat>,
    c: nat,
    make: spec_fn(DocumentSymbolData) -> SymbolView,
)
    ensures
        flat_symbols(flatten_one(d, p, b), make) == flat_symbols(flatten_one(d, q, c), make),
{
    lemma_flatten_one_symbols(d, p, b, q, c);
    assert(flat_symbols(flatten_one(d, p, b), make) =~= flat_symbols(flatten_one(d, q, c), make));
}

/// What is flattened from a list does not depend on its parent or base.
pub proof fn lemma_flat_symbols_list(
    s: Seq<DocumentSymbolData>,
    p: Option<nat>,
    b: nat,
    q: Option<nat>,
    c: nat,
    make: spec_fn(DocumentSymbolData) -> SymbolView,
)
    ensures
        flat_symbols(flatten_list(s, p, b), make) == flat_symbols(flatten_list(s, q, c), make),
{
    lemma_flatten_symbols(s, p, b, q, c);
    assert(flat_symbols(flatten_list(s, p, b), make) =~= flat_symbols(flatten_list(s, q, c), make));
}

/// Flattening a list one more symbol long appends that symbol's flattening.
pub proof fn lemma_flat_symbols_push(
    s: Seq<DocumentSymbolData>,
    j: int,
    p: Option<nat>,
    b: nat,
    make: spec_fn(DocumentSymbolData) -> SymbolView,
)
    requires
        0 <= j < s.len(),
    ensures
        flat_symbols(flatten_list(s.take(j + 1), p, b), make) == flat_symbols(flatten_list(s.take(j), p, b), make)
            + flat_symbols(flatten_one(s[j], None, 0), make),
{
    let t = s.take(j + 1);
    assert(t.drop_last() =~= s.take(j));
    assert(t.last() == s[j]);
    let front = flatten_list(s.take(j), p, b);
    lemma_flat_symbols_one(s[j], p, b + front.len(), None, 0, make);
    assert(flat_symbols(front + flatten_one(s[j], p, b + front.len()), make) =~= flat_symbols(front, make)
        + flat_symbols(flatten_one(s[j], p, b + front.len()), make));
}

/// The parents recorded by flattening do not change what is flattened.
pub proof fn lemma_flatten_symbols(s: Seq<DocumentSymbolData>, p: Option<nat>, b: nat, q: Option<nat>, c: nat)
    ensures
        flatten_list(s, p, b).len() == flatten_list(s, q, c).len(),
        forall|k: int| 0 <= k < flatten_list(s, p, b).len() ==> #[trigger] flatten_list(s, p, b)[k].0 == flatten_list(s, q, c)[k].0,
    decreases s,
{
    if s.len() > 0 {
        let t = s.drop_last();
        lemma_flatten_symbols(t, p, b, q, c);
        let d = s.last();
        let f1 = flatten_list(t, p, b);
        let f2 = flatten_list(t, q, c);
        lemma_flatten_one_symbols(d, p, b + f1.len(), q, c + f2.len());
        let g1 = flatten_one(d, p, b + f1.len());
        let g2 = flatten_one(d, q, c + f2.len());
        assert forall|k: int| 0 <= k < flatten_list(s, p, b).len() implies #[trigger] flatten_list(s, p, b)[k].0 == flatten_list(s, q, c)[k].0 by {
            if k < f1.len() {
                assert(flatten_list(s, p, b)[k] == f1[k]);
                assert(flatten_list(s, q, c)[k] == f2[k]);
            } else {
                assert(flatten_list(s, p, b)[k] == g1[k - f1.len()]);
                assert(flatten_list(s, q, c)[k] == g2[k - f2.len()]);
            }
        }
    }
}

proof fn lemma_flatten_one_symbols(d: DocumentSymbolData, p: Option<nat>, b: nat, q: Option<nat>, c: nat)
    ensures
        flatten_one(d, p, b).len() == flatten_one(d, q, c).len(),
        forall|k: int| 0 <= k < flatten_one(d, p, b).len() ==> #[trigger] flatten_one(d, p, b)[k].0 == flatten_one(d, q, c)[k].0,
    decreases d,
{
    match d.children {
        Some(cv) => {
            let cl = cv@;
            lemma_flatten_symbols(cl, Some(b), b + 1, Some(c), c + 1);
            let f1 = flatten_list(cl, Some(b), b + 1);
            let f2 = flatten_list(cl, Some(c), c + 1);
            assert forall|k: int| 0 <= k < flatten_one(d, p, b).len() implies #[trigger] flatten_one(d, p, b)[k].0 == flatten_one(d, q, c)[k].0 by {
                if k > 0 {
                    assert(flatten_one(d, p, b)[k] == f1[k - 1]);
                    assert(flatten_one(d, q, c)[k] == f2[k - 1]);
                }
            }
        },
        None => {},
    }
}

/// Builds the graph of one file from its document symbols.
pub struct LspIndexer {
    graph: CodeGraph,
    file_path: String,
}

impl LspIndexer {
    /// The graph built so far.
    pub closed spec fn graph(&self) -> CodeGraph {
        self.graph
    }

    /// The path of the file whose symbols are indexed.
    pub closed spec fn file_path(&self) -> Seq<char> {
        self.file_path@
    }

    pub closed spec fn wf(&self) -> bool {
        self.graph.wf()
    }

    /// An indexer for `file_path` with an empty graph.
    pub fn new(file_path: String) -> (r: Self)
        ensures
            r.wf(),
            r.file_path() == file_path@,
            r.graph().nodes() == Seq::<Symbol>::empty(),
            r.graph().edges() == Seq::<(nat, nat, crate::graph::EdgeKind)>::empty(),
            r.graph().index() == Map::<Seq<char>, nat>::empty(),
    {
        LspIndexer { graph: CodeGraph::new(), file_path }
    }

    /// The symbol kind of the graph for a protocol symbol kind.
    pub fn convert_symbol_kind(kind: i32) -> (r: SymbolKind)
        ensures
            r == spec_lsp_indexer_kind(kind),
    {
        if kind == 12 {
            SymbolKind::Function
        } else if kind == 6 {
            SymbolKind::Method
        } else if kind == 5 || kind == 23 {
            SymbolKind::Class
        } else if kind == 11 {
            SymbolKind::Interface
        } else if kind == 2 {
            SymbolKind::Module
        } else if kind == 3 {
            SymbolKind::Namespace
        } else if kind == 10 {
            SymbolKind::Enum
        } else if kind == 14 || kind == 22 {
            SymbolKind::Constant
        } else if kind == 7 || kind == 8 {
            SymbolKind::Property
        } else {
            SymbolKind::Variable
        }
    }

    /// The symbol made of `d` in this indexer's file.
    fn make_symbol(&self, d: &DocumentSymbolData) -> (r: Symbol)
        ensures
            r@ == lsp_indexer_symbol(self.file_path@, *d),
    {
        let mut id = String::new();
        push_str(&mut id, self.file_path.as_str());
        string_push(&mut id, '#');
        push_decimal(&mut id, d.range.start.line as u64);
        string_push(&mut id, ':');
        push_str(&mut id, d.name.as_str());
        let documentation = match &d.detail {
            Some(s) => Some(s.clone()),
            None => None,
        };
        let r = Symbol {
            id,
            kind: Self::convert_symbol_kind(d.kind),
            name: d.name.clone(),
            file_path: self.file_path.clone(),
            range: d.range,
            documentation,
        };
        proof {
            assert(r@.id =~= lsp_indexer_symbol(self.file_path@, *d).id);
        }
        r
    }

    /// Adds the symbols of `symbols` and their descendants to the graph, in
    /// preorder; no edge is added.
    pub fn index_from_symbols(&mut self, symbols: Vec<DocumentSymbolData>)
        requires
            old(self).wf(),
        ensures
            final(self).wf(),
            final(self).file_path() == old(self).file_path(),
            final(self).graph().nodes().map_values(|s: Symbol| s@) == old(self).graph().nodes().map_values(|s: Symbol| s@)
                + lsp_indexer_symbols(old(self).file_path(), symbols@),
            final(self).graph().edges() == old(self).graph().edges(),
            final(self).graph().index() == index_after_ids(
                old(self).graph().index(),
                old(self).graph().nodes().len(),
                view_ids(lsp_indexer_symbols(old(self).file_path(), symbols@)),
            ),
    {
        let ghost g0 = self.graph;
        let ghost base = g0.nodes().len();
        let ghost make = |x: DocumentSymbolData| lsp_indexer_symbol(self.file_path@, x);
        let ghost before = g0.nodes().map_values(|s: Symbol| s@);
        let mut i: usize = 0;
        assert(symbols@.take(0) =~= Seq::<DocumentSymbolData>::empty());
        assert(before + flat_symbols(flatten_list(symbols@.take(0), None, 0), make) =~= before);
        assert(view_ids(flat_symbols(flatten_list(symbols@.take(0), None, 0), make)) =~= Seq::<Seq<char>>::empty());
        while i < symbols.len()
            invariant
                self.wf(),
                self.file_path@ == old(self).file_path@,
                make == (|x: DocumentSymbolData| lsp_indexer_symbol(self.file_path@, x)),
                i <= symbols.len(),
                base == g0.nodes().len(),
                before.len() == base,
                self.graph.nodes().map_values(|s: Symbol| s@) == before + flat_symbols(flatten_list(symbols@.take(i as int), None, 0), make),
                self.graph.edges() == g0.edges(),
                self.graph.index() == index_after_ids(g0.index(), base, view_ids(flat_symbols(flatten_list(symbols@.take(i as int), None, 0), make))),
            decreases symbols.len() - i,
        {
            let ghost prior = flat_symbols(flatten_list(symbols@.take(i as int), None, 0), make);
            let ghost mid_len = self.graph.nodes().len();
            self.process_symbol(&symbols[i]);
            proof {
                let added = flat_symbols(flatten_one(symbols@[i as int], None, 0), make);
                assert(flatten_one(symbols@[i as int], None, 0).map_values(|e: (DocumentSymbolData, Option<nat>)| lsp_indexer_symbol(self.file_path@, e.0)) =~= added);
                lemma_flat_symbols_push(symbols@, i as int, None, 0, make);
                assert(mid_len == base + prior.len());
                lemma_index_after_ids_concat(g0.index(), base, view_ids(prior), view_ids(added));
                assert(view_ids(prior) + view_ids(added) =~= view_ids(prior + added));
            }
            i = i + 1;
        }
        proof {
            assert(symbols@.take(symbols.len() as int) =~= symbols@);
            assert(lsp_indexer_symbols(self.file_path@, symbols@) =~= flat_symbols(flatten_list(symbols@, None, 0), make));
        }
    }

    /// The graph built.
    pub fn into_graph(self) -> (g: CodeGraph)
        ensures
            g == self.graph(),
    {
        self.graph
    }

    /// Adds `d` and then its descendants, in preorder.
    fn process_symbol(&mut self, d: &DocumentSymbolData)
        requires
            old(self).wf(),
        ensures
            final(self).wf(),
            final(self).file_path() == old(self).file_path(),
            final(self).graph().nodes().map_values(|s: Symbol| s@) == old(self).graph().nodes().map_values(|s: Symbol| s@)
                + flatten_one(*d, None, 0).map_values(|e: (DocumentSymbolData, Option<nat>)| lsp_indexer_symbol(old(self).file_path(), e.0)),
            final(self).graph().edges() == old(self).graph().edges(),
            final(self).graph().index() == index_after_ids(
                old(self).graph().index(),
                old(self).graph().nodes().len(),
                view_ids(flatten_one(*d, None, 0).map_values(|e: (DocumentSymbolData, Option<nat>)| lsp_indexer_symbol(old(self).file_path(), e.0))),
            ),
        decreases *d,
    {
        let ghost g0 = self.graph;
        let ghost base = g0.nodes().len();
        let ghost make = |x: DocumentSymbolData| lsp_indexer_symbol(self.file_path@, x);
        let ghost before = g0.nodes().map_values(|s: Symbol| s@);
        let sym = self.make_symbol(d);
        let ghost head = seq![sym@];
        let _n = self.graph.add_symbol(sym);
        proof {
            assert(self.graph.nodes().map_values(|s: Symbol| s@) =~= before + head);
            assert(view_ids(head) =~= seq![sym@.id]);
            assert(view_ids(head).drop_last() =~= Seq::<Seq<char>>::empty());
            assert(index_after_ids(g0.index(), base, view_ids(head).drop_last()) == g0.index());
            assert(index_after_ids(g0.index(), base, view_ids(head)) == g0.index().insert(sym@.id, base));
        }
        let ghost cl = child_list(*d);
        match &d.children {
            Some(c) => {
                let mut j: usize = 0;
                assert(c@.take(0) =~= Seq::<DocumentSymbolData>::empty());
                assert(head + flat_symbols(flatten_list(c@.take(0), Some(base), base + 1), make) =~= head);
                while j < c.len()
                    invariant
                        self.wf(),
                        self.file_path@ == old(self).file_path@,
                        make == (|x: DocumentSymbolData| lsp_indexer_symbol(self.file_path@, x)),
                        j <= c.len(),
                        self.graph.nodes().map_values(|s: Symbol| s@) == before + (head + flat_symbols(flatten_list(c@.take(j as int), Some(base), base + 1), make)),
                        self.graph.edges() == g0.edges(),
                        self.graph.index() == index_after_ids(g0.index(), base,
                            view_ids(head + flat_symbols(flatten_list(c@.take(j as int), Some(base), base + 1), make))),
                        base == g0.nodes().len(),
                        before.len() == base,
                        d.children == Some(*c),
                    decreases c.len() - j,
                {
                    let ghost mid_views = self.graph.nodes().map_values(|s: Symbol| s@);
                    let ghost mid_index = self.graph.index();
                    let ghost prior = head + flat_symbols(flatten_list(c@.take(j as int), Some(base), base + 1), make);
                    proof {
                        vstd::std_specs::vec::axiom_vec_index_decreases(*c, j as int);
                        assert(d.children == Some(*c));
                        assert(decreases_to!(*d => d.children));
                        assert(decreases_to!(d.children => d.children->0));
                        assert(decreases_to!(*d => *c));
                    }
                    self.process_symbol(&c[j]);
                    proof {
                        let added = flat_symbols(flatten_one(c@[j as int], None, 0), make);
                        assert(flatten_one(c@[j as int], None, 0).map_values(|e: (DocumentSymbolData, Option<nat>)| lsp_indexer_symbol(self.file_path@, e.0)) =~= added);
                        lemma_flat_symbols_push(c@, j as int, Some(base), base + 1, make);
                        assert(prior + added =~= head + flat_symbols(flatten_list(c@.take(j + 1), Some(base), base + 1), make));
                        assert(mid_views.len() == base + prior.len());
                        lemma_index_after_ids_concat(g0.index(), base, view_ids(prior), view_ids(added));
                        assert(view_ids(prior) + view_ids(added) =~= view_ids(prior + added));
                    }
                    j = j + 1;
                }
                proof {
                    assert(c@.take(c@.len() as int) =~= c@);
                    assert(cl == c@);
                }
            },
            None => {
                proof {
                    assert(cl =~= Seq::<DocumentSymbolData>::empty());
                    assert(flat_symbols(flatten_list(cl, Some(base), base + 1), make) =~= Seq::<SymbolView>::empty());
                    assert(head + flat_symbols(flatten_list(cl, Some(base), base + 1), make) =~= head);
                }
            },
        }
        proof {
            lemma_flat_symbols_list(cl, Some(base), base + 1, Some(0), 1, make);
            let all = flat_symbols(flatten_one(*d, None, 0), make);
            assert(all =~= head + flat_symbols(flatten_list(cl, Some(0), 1), make));
            assert(flatten_one(*d, None, 0).map_values(|e: (DocumentSymbolData, Option<nat>)| lsp_indexer_symbol(old(self).file_path(), e.0)) =~= all);
        }
    }
}

} // verus!
