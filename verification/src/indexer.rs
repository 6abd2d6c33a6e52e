//! The indexer that builds a project graph with a language server: the
//! document symbols of each file become nodes (a child symbol gets a
//! `Contains` edge to its parent), and the references and definitions that
//! the server reports become `Reference` and `Definition` edges. The calls to
//! the server are made by the caller; this module decides what they change.
use vstd::prelude::*;

use crate::assoc::{assoc_map, assoc_unique, lemma_assoc_absent, lemma_assoc_at, lemma_assoc_empty, lemma_assoc_push, lemma_assoc_update};
use crate::graph::{CodeGraph, EdgeKind, Range, Symbol, SymbolKind, SymbolView};
use crate::lsp_indexer::{
    child_list, document_symbol_id, flat_symbols, flatten_list, flatten_one, index_after_ids, lemma_index_after_ids_concat, opt_view,
    view_ids, DocumentSymbolData,
};
use crate::stable_graph::node_index_value;
use crate::text::{chars_of, has_prefix, push_decimal, push_str, str_eq, str_starts_with, string_push};
use petgraph::stable_graph::NodeIndex;

verus! {

/// The symbol kind the indexer gives a protocol symbol kind; kinds it does
/// not list become variables.
pub open spec fn spec_indexer_kind(kind: i32) -> SymbolKind {
    if kind == 12 {
        SymbolKind::Function
    } else if kind == 6 {
        SymbolKind::Method
    } else if kind == 5 {
        SymbolKind::Class
    } else if kind == 11 {
        SymbolKind::Interface
    } else if kind == 10 {
        SymbolKind::Enum
    } else if kind == 2 {
        SymbolKind::Module
    } else if kind == 3 {
        SymbolKind::Namespace
    } else if kind == 7 {
        SymbolKind::Property
    } else if kind == 8 {
        SymbolKind::Field
    } else if kind == 14 {
        SymbolKind::Constant
    } else {
        SymbolKind::Variable
    }
}

/// The path of a file URI: what follows `file://`, or the URI itself when
/// it does not start so.
pub open spec fn uri_path(uri: Seq<char>) -> Seq<char> {
    if has_prefix(uri, "file://"@) {
        uri.subrange(7, uri.len() as int)
    } else {
        uri
    }
}

/// The symbol the indexer makes of `d` in the file of URI `uri`.
pub open spec fn indexer_symbol(uri: Seq<char>, d: DocumentSymbolData) -> SymbolView {
    SymbolView {
        id: document_symbol_id(uri_path(uri), d.range.start.line, d.name@),
        kind: spec_indexer_kind(d.kind),
        name: d.name@,
        file_path: uri_path(uri),
        range: d.range,
        documentation: opt_view(d.detail),
    }
}

/// The `Contains` edges of a flattened tree whose first entry is node
/// `base`: from each entry that has a parent to that parent, in order.
pub open spec fn contains_edges(flat: Seq<(DocumentSymbolData, Option<nat>)>, base: nat) -> Seq<(nat, nat, EdgeKind)>
    decreases flat.len(),
{
    if flat.len() == 0 {
        Seq::empty()
    } else {
        let e = flat.last();
        contains_edges(flat.drop_last(), base) + match e.1 {
            Some(p) => seq![(base + (flat.len() - 1) as nat, p, EdgeKind::Contains)],
            None => Seq::empty(),
        }
    }
}

pub proof fn lemma_contains_edges_concat(a: Seq<(DocumentSymbolData, Option<nat>)>, b: Seq<(DocumentSymbolData, Option<nat>)>, base: nat)
    ensures
        contains_edges(a + b, base) == contains_edges(a, base) + contains_edges(b, base + a.len()),
    decreases b.len(),
{
    if b.len() == 0 {
        assert(a + b =~= a);
        assert(contains_edges(a, base) + contains_edges(b, base + a.len()) =~= contains_edges(a, base));
    } else {
        lemma_contains_edges_concat(a, b.drop_last(), base);
        assert((a + b).drop_last() =~= a + b.drop_last());
        assert((a + b).last() == b.last());
        assert(contains_edges(a + b, base) =~= contains_edges(a, base) + contains_edges(b, base + a.len()));
    }
}

/// A string of the characters of `cs` from position `start` on.
fn string_from(cs: &Vec<char>, start: usize) -> (r: String)
    requires
        start <= cs.len(),
    ensures
        r@ == cs@.subrange(start as int, cs.len() as int),
{
    let mut r = String::new();
    let mut i: usize = start;
    while i < cs.len()
        invariant
            start <= i <= cs.len(),
            r@ == cs@.subrange(start as int, i as int),
        decreases cs.len() - i,
    {
        string_push(&mut r, cs[i]);
        assert(r@ =~= cs@.subrange(start as int, i + 1));
        i = i + 1;
    }
    r
}

/// Builds a project graph from what a language server reports.
pub struct Indexer {
    pub graph: CodeGraph,
    pub file_symbols: Vec<(String, Vec<Symbol>)>,
    pub processed_files: Vec<String>,
}

impl Indexer {
    /// The graph built so far.
    pub closed spec fn graph(&self) -> CodeGraph {
        self.graph
    }

    /// The symbols recorded for each file URI, most recent record first
    /// replacing earlier ones.
    pub closed spec fn file_symbols(&self) -> Seq<(String, Vec<Symbol>)> {
        self.file_symbols@
    }

    /// The paths of the files indexed.
    pub closed spec fn processed_files(&self) -> Seq<Seq<char>> {
        self.processed_files@.map_values(|s: String| s@)
    }

    /// The graph is well formed and no file URI is recorded twice.
    pub closed spec fn wf(&self) -> bool {
        &&& self.graph.wf()
        &&& assoc_unique(self.file_symbols@, file_key())
    }

    /// An indexer with an empty graph and no file indexed.
    pub fn new() -> (r: Self)
        ensures
            r.wf(),
            r.graph().nodes() == Seq::<Symbol>::empty(),
            r.graph().edges() == Seq::<(nat, nat, EdgeKind)>::empty(),
            r.graph().index() == Map::<Seq<char>, nat>::empty(),
            r.file_symbols() == Seq::<(String, Vec<Symbol>)>::empty(),
            r.processed_files() == Seq::<Seq<char>>::empty(),
    {
        let r = Indexer { graph: CodeGraph::new(), file_symbols: Vec::new(), processed_files: Vec::new() };
        assert(r.processed_files() =~= Seq::<Seq<char>>::empty());
        proof { lemma_assoc_empty(file_key()); }
        r
    }

    /// The symbol kind of the graph for a protocol symbol kind.
    pub fn convert_symbol_kind(kind: i32) -> (r: SymbolKind)
        ensures
            r == spec_indexer_kind(kind),
    {
        if kind == 12 {
            SymbolKind::Function
        } else if kind == 6 {
            SymbolKind::Method
        } else if kind == 5 {
            SymbolKind::Class
        } else if kind == 11 {
            SymbolKind::Interface
        } else if kind == 10 {
            SymbolKind::Enum
        } else if kind == 2 {
            SymbolKind::Module
        } else if kind == 3 {
            SymbolKind::Namespace
        } else if kind == 7 {
            SymbolKind::Property
        } else if kind == 8 {
            SymbolKind::Field
        } else if kind == 14 {
            SymbolKind::Constant
        } else {
            SymbolKind::Variable
        }
    }

    /// The symbol of `d` in the file of URI `file_uri`.
    pub fn convert_document_symbol(d: &DocumentSymbolData, file_uri: &str) -> (r: Symbol)
        ensures
            r@ == indexer_symbol(file_uri@, *d),
    {
        let cs = chars_of(file_uri);
        let file_path = if str_starts_with(file_uri, "file://") {
            proof { reveal_strlit("file://"); }
            string_from(&cs, 7)
        } else {
            string_from(&cs, 0)
        };
        proof {
            reveal_strlit("file://");
            assert(cs@.subrange(0, cs@.len() as int) =~= cs@);
        }
        let mut id = String::new();
        push_str(&mut id, file_path.as_str());
        string_push(&mut id, '#');
        push_decimal(&mut id, d.range.start.line as u64);
        string_push(&mut id, ':');
        push_str(&mut id, d.name.as_str());
        let documentation = match &d.detail {
            Some(s) => Some(s.clone()),
            None => None,
        };
        let r = Symbol {
            id,
            name: d.name.clone(),
            kind: Self::convert_symbol_kind(d.kind),
            file_path,
            range: d.range,
            documentation,
        };
        proof {
            assert(r@.id =~= indexer_symbol(file_uri@, *d).id);
        }
        r
    }
}

/// The node a parent index names.
pub open spec fn opt_node(parent: Option<NodeIndex<usize>>) -> Option<nat> {
    match parent {
        Some(p) => Some(node_index_value(p)),
        None => None,
    }
}

impl Indexer {
    /// Adds the symbols of `symbols` and their descendants in preorder, each
    /// with a `Contains` edge to its parent (the symbols of `symbols` to
    /// `parent`, when given), and appends each to `collected`.
    fn process_symbols(
        &mut self,
        symbols: &Vec<DocumentSymbolData>,
        file_uri: &str,
        collected: &mut Vec<Symbol>,
        parent: Option<NodeIndex<usize>>,
    )
        requires
            old(self).wf(),
            parent matches Some(p) ==> node_index_value(p) < old(self).graph().nodes().len(),
        ensures
            final(self).wf(),
            final(self).file_symbols() == old(self).file_symbols(),
            final(self).processed_files() == old(self).processed_files(),
            ({
                let flat = flatten_list(symbols@, opt_node(parent), old(self).graph().nodes().len());
                let added = flat_symbols(flat, |x: DocumentSymbolData| indexer_symbol(file_uri@, x));
                &&& final(self).graph().nodes().map_values(|s: Symbol| s@) == old(self).graph().nodes().map_values(|s: Symbol| s@) + added
                &&& final(self).graph().edges() == old(self).graph().edges() + contains_edges(flat, old(self).graph().nodes().len())
                &&& final(self).graph().index() == index_after_ids(old(self).graph().index(), old(self).graph().nodes().len(), view_ids(added))
                &&& final(collected)@.map_values(|s: Symbol| s@) == old(collected)@.map_values(|s: Symbol| s@) + added
            }),
        decreases symbols@,
    {
        let ghost g0 = self.graph;
        let ghost base = g0.nodes().len();
        let ghost pv = opt_node(parent);
        let ghost make = |x: DocumentSymbolData| indexer_symbol(file_uri@, x);
        let ghost before = g0.nodes().map_values(|s: Symbol| s@);
        let ghost before_collected = collected@.map_values(|s: Symbol| s@);
        let mut i: usize = 0;
        assert(symbols@.take(0) =~= Seq::<DocumentSymbolData>::empty());
        assert(before + flat_symbols(flatten_list(symbols@.take(0), pv, base), make) =~= before);
        assert(before_collected + flat_symbols(flatten_list(symbols@.take(0), pv, base), make) =~= before_collected);
        assert(g0.edges() + contains_edges(flatten_list(symbols@.take(0), pv, base), base) =~= g0.edges());
        assert(view_ids(flat_symbols(flatten_list(symbols@.take(0), pv, base), make)) =~= Seq::<Seq<char>>::empty());
        while i < symbols.len()
            invariant
                self.wf(),
                self.file_symbols() == old(self).file_symbols(),
                self.processed_files() == old(self).processed_files(),
                make == (|x: DocumentSymbolData| indexer_symbol(file_uri@, x)),
                pv == opt_node(parent),
                pv matches Some(p) ==> p < base,
                i <= symbols.len(),
                base == g0.nodes().len(),
                before.len() == base,
                ({
                    let flat = flatten_list(symbols@.take(i as int), pv, base);
                    let added = flat_symbols(flat, make);
                    &&& self.graph.nodes().map_values(|s: Symbol| s@) == before + added
                    &&& self.graph.edges() == g0.edges() + contains_edges(flat, base)
                    &&& self.graph.index() == index_after_ids(g0.index(), base, view_ids(added))
                    &&& collected@.map_values(|s: Symbol| s@) == before_collected + added
                }),
            decreases symbols.len() - i,
        {
            let ghost front = flatten_list(symbols@.take(i as int), pv, base);
            let ghost prior = flat_symbols(front, make);
            let ghost mid_edges = self.graph.edges();
            let ghost mid_collected = collected@.map_values(|s: Symbol| s@);
            let d = &symbols[i];
            let symbol = Self::convert_document_symbol(d, file_uri);
            let ghost n = self.graph.nodes().len();
            assert(self.graph.nodes().map_values(|s: Symbol| s@).len() == self.graph.nodes().len());
            assert(prior.len() == front.len());
            assert(n == base + front.len());
            let ghost idx0 = self.graph.index();
            let idx = self.graph.add_symbol(symbol.clone());
            let ghost sym_view = symbol@;
            collected.push(symbol);
            match parent {
                Some(p) => {
                    self.graph.add_edge(idx, p, EdgeKind::Contains);
                },
                None => {},
            }
            let ghost one = seq![(*d, pv)];
            proof {
                assert(one.drop_last() =~= Seq::<(DocumentSymbolData, Option<nat>)>::empty());
                assert(contains_edges(one.drop_last(), n) =~= Seq::<(nat, nat, EdgeKind)>::empty());
                assert(self.graph.edges() =~= mid_edges + contains_edges(one, n));
                assert(flat_symbols(one, make) =~= seq![sym_view]);
                assert(self.graph.nodes().map_values(|s: Symbol| s@) =~= before + prior + flat_symbols(one, make));
                assert(collected@.map_values(|s: Symbol| s@) =~= mid_collected + flat_symbols(one, make));
                assert(view_ids(seq![sym_view]).drop_last() =~= Seq::<Seq<char>>::empty());
                assert(index_after_ids(idx0, n, view_ids(seq![sym_view]).drop_last()) == idx0);
                assert(index_after_ids(idx0, n, view_ids(seq![sym_view])) == idx0.insert(sym_view.id, n));
                assert(view_ids(prior).len() == prior.len());
                lemma_index_after_ids_concat(g0.index(), base, view_ids(prior), view_ids(seq![sym_view]));
                assert(view_ids(prior) + view_ids(seq![sym_view]) =~= view_ids(prior + seq![sym_view]));
                assert(self.graph.index() == index_after_ids(g0.index(), base, view_ids(prior + seq![sym_view])));
            }
            let ghost kids = flatten_list(child_list(*d), Some(n), n + 1);
            match &d.children {
                Some(c) => {
                    proof {
                        assert(decreases_to!(symbols@ => symbols@[i as int]));
                        assert(d.children == Some(*c));
                        assert(decreases_to!(*d => d.children));
                        assert(decreases_to!(d.children => d.children->0));
                        vstd::std_specs::vec::axiom_vec_decreases_to_view(*c);
                        assert(decreases_to!(symbols@ => c@));
                    }
                    let ghost e1 = self.graph.edges();
                    let ghost v1 = self.graph.nodes().map_values(|s: Symbol| s@);
                    let ghost i1 = self.graph.index();
                    let ghost c1 = collected@.map_values(|s: Symbol| s@);
                    self.process_symbols(c, file_uri, collected, Some(idx));
                    proof {
                        assert(kids == flatten_list(c@, opt_node(Some(idx)), n + 1));
                        let kid_syms = flat_symbols(kids, make);
                        assert(flat_symbols(kids, |x: DocumentSymbolData| indexer_symbol(file_uri@, x)) == kid_syms);
                        lemma_index_after_ids_concat(g0.index(), base, view_ids(prior + seq![sym_view]), view_ids(kid_syms));
                        assert(view_ids(prior + seq![sym_view]) + view_ids(kid_syms) =~= view_ids(prior + seq![sym_view] + kid_syms));
                    }
                },
                None => {
                    proof {
                        assert(kids =~= Seq::<(DocumentSymbolData, Option<nat>)>::empty());
                        assert(view_ids(flat_symbols(kids, make)) =~= Seq::<Seq<char>>::empty());
                        assert(view_ids(prior + seq![sym_view]) + view_ids(flat_symbols(kids, make)) =~= view_ids(prior + seq![sym_view]));
                    }
                },
            }
            proof {
                let kid_syms = flat_symbols(kids, make);
                assert(flatten_one(*d, pv, n) =~= one + kids);
                assert(symbols@.take(i + 1).drop_last() =~= symbols@.take(i as int));
                assert(symbols@.take(i + 1).last() == *d);
                let flat2 = flatten_list(symbols@.take(i + 1), pv, base);
                assert(flat2 == front + flatten_one(*d, pv, n));
                assert(flat_symbols(flat2, make) =~= prior + seq![sym_view] + kid_syms);
                lemma_contains_edges_concat(one, kids, n);
                lemma_contains_edges_concat(front, one + kids, base);
                assert(self.graph.nodes().map_values(|s: Symbol| s@) =~= before + flat_symbols(flat2, make));
                assert(collected@.map_values(|s: Symbol| s@) =~= before_collected + flat_symbols(flat2, make));
                assert(self.graph.edges() =~= g0.edges() + contains_edges(flat2, base));
                assert(view_ids(flat_symbols(flat2, make)) =~= view_ids(prior + seq![sym_view]) + view_ids(kid_syms));
                assert(self.graph.index() == index_after_ids(g0.index(), base, view_ids(flat_symbols(flat2, make))));
            }
            i = i + 1;
        }
        proof {
            assert(symbols@.take(symbols.len() as int) =~= symbols@);
        }
    }
}

/// The key of a file entry: its URI.
pub open spec fn file_key() -> spec_fn((String, Vec<Symbol>)) -> Seq<char> {
    |e: (String, Vec<Symbol>)| e.0@
}

/// A place in a file reported by a language server: the file's URI and a
/// range.
pub struct LocationData {
    pub uri: String,
    pub range: Range,
}

/// A location falls on a symbol when the line it starts on lies between the
/// symbol's first and last line.
pub open spec fn spec_location_matches(location: LocationData, symbol: Symbol) -> bool {
    &&& location.range.start.line >= symbol.range.start.line
    &&& location.range.start.line <= symbol.range.end.line
}

/// The first of `syms`, from position `from` on, that `location` falls on.
pub open spec fn first_matching(syms: Seq<Symbol>, location: LocationData, from: int) -> Option<Symbol>
    decreases syms.len() - from,
{
    if from < 0 || from >= syms.len() {
        None
    } else if spec_location_matches(location, syms[from]) {
        Some(syms[from])
    } else {
        first_matching(syms, location, from + 1)
    }
}

/// The symbol recorded for the location's file that the location falls on,
/// the first in record order.
pub open spec fn symbol_at(fs: Seq<(String, Vec<Symbol>)>, location: LocationData) -> Option<Symbol> {
    let m = assoc_map(fs, file_key());
    if m.contains_key(location.uri@) {
        first_matching(m[location.uri@].1@, location, 0)
    } else {
        None
    }
}

/// The edge from the symbol at `location` to node `target`, when there is
/// such a symbol and its id is indexed.
pub open spec fn reference_edge(fs: Seq<(String, Vec<Symbol>)>, index: Map<Seq<char>, nat>, location: LocationData, target: nat) -> Seq<(nat, nat, EdgeKind)> {
    match symbol_at(fs, location) {
        Some(s) => if index.contains_key(s.id@) {
            seq![(index[s.id@], target, EdgeKind::Reference)]
        } else {
            Seq::empty()
        },
        None => Seq::empty(),
    }
}

/// The `Reference` edges that the references `refs` to node `target` add,
/// in order.
pub open spec fn reference_edges(fs: Seq<(String, Vec<Symbol>)>, index: Map<Seq<char>, nat>, refs: Seq<LocationData>, target: nat) -> Seq<(nat, nat, EdgeKind)>
    decreases refs.len(),
{
    if refs.len() == 0 {
        Seq::empty()
    } else {
        reference_edges(fs, index, refs.drop_last(), target) + reference_edge(fs, index, refs.last(), target)
    }
}

/// The `Definition` edge from node `source` to the symbol at `definition`,
/// when there is a definition, a symbol there, and its id is indexed.
pub open spec fn definition_edges(fs: Seq<(String, Vec<Symbol>)>, index: Map<Seq<char>, nat>, definition: Option<LocationData>, source: nat) -> Seq<(nat, nat, EdgeKind)> {
    match definition {
        Some(l) => match symbol_at(fs, l) {
            Some(s) => if index.contains_key(s.id@) {
                seq![(source, index[s.id@], EdgeKind::Definition)]
            } else {
                Seq::empty()
            },
            None => Seq::empty(),
        },
        None => Seq::empty(),
    }
}

/// The `Reference` edges that the references `refs` found from the symbol of
/// id `from_id` in the file `file_uri` add: one for each reference into
/// another file that falls on a recorded symbol, when both ids are indexed.
pub open spec fn cross_reference_edges(
    fs: Seq<(String, Vec<Symbol>)>,
    index: Map<Seq<char>, nat>,
    file_uri: Seq<char>,
    from_id: Seq<char>,
    refs: Seq<LocationData>,
) -> Seq<(nat, nat, EdgeKind)>
    decreases refs.len(),
{
    if refs.len() == 0 {
        Seq::empty()
    } else {
        let l = refs.last();
        cross_reference_edges(fs, index, file_uri, from_id, refs.drop_last()) + if l.uri@ != file_uri {
            match symbol_at(fs, l) {
                Some(s) => if index.contains_key(from_id) && index.contains_key(s.id@) {
                    seq![(index[from_id], index[s.id@], EdgeKind::Reference)]
                } else {
                    Seq::empty()
                },
                None => Seq::empty(),
            }
        } else {
            Seq::empty()
        }
    }
}

/// Whether cross-file references are looked up for a symbol of this kind.
pub open spec fn is_callable(kind: SymbolKind) -> bool {
    kind == SymbolKind::Function || kind == SymbolKind::Method
}

/// The functions and methods of `syms`, in order, each with `uri`.
pub open spec fn entry_candidates(uri: Seq<char>, syms: Seq<Symbol>) -> Seq<(Seq<char>, Symbol)>
    decreases syms.len(),
{
    if syms.len() == 0 {
        Seq::empty()
    } else {
        entry_candidates(uri, syms.drop_last()) + if is_callable(syms.last().kind) {
            seq![(uri, syms.last())]
        } else {
            Seq::empty()
        }
    }
}

/// The functions and methods recorded for all files, with their file's URI,
/// in record order.
pub open spec fn cross_reference_candidates(fs: Seq<(String, Vec<Symbol>)>) -> Seq<(Seq<char>, Symbol)>
    decreases fs.len(),
{
    if fs.len() == 0 {
        Seq::empty()
    } else {
        cross_reference_candidates(fs.drop_last()) + entry_candidates(fs.last().0@, fs.last().1@)
    }
}

/// Why the indexer could not record what a language server reported.
#[derive(Clone, Copy, Debug, PartialEq, Eq, Structural)]
pub enum IndexerError {
    /// The symbol is not in the graph.
    SymbolNotFound,
}

impl Default for Indexer {
    fn default() -> (r: Self)
        ensures
            r.wf(),
            r.graph().nodes() == Seq::<Symbol>::empty(),
            r.graph().edges() == Seq::<(nat, nat, EdgeKind)>::empty(),
            r.graph().index() == Map::<Seq<char>, nat>::empty(),
            r.file_symbols() == Seq::<(String, Vec<Symbol>)>::empty(),
            r.processed_files() == Seq::<Seq<char>>::empty(),
    {
        Self::new()
    }
}

impl Indexer {
    /// Whether `location` falls on `symbol`: the line it starts on lies
    /// between the symbol's first and last line.
    pub fn location_matches_symbol(&self, location: &LocationData, symbol: &Symbol) -> (r: bool)
        ensures
            r == spec_location_matches(*location, *symbol),
    {
        location.range.start.line >= symbol.range.start.line && location.range.start.line <= symbol.range.end.line
    }

    /// The symbol recorded for the location's file that the location falls
    /// on, the first in record order.
    pub fn find_symbol_at_location(&self, location: &LocationData) -> (r: Option<Symbol>)
        requires
            self.wf(),
        ensures
            r == symbol_at(self.file_symbols(), *location),
    {
        let fs = &self.file_symbols;
        let mut j: usize = 0;
        while j < fs.len()
            invariant
                fs@ == self.file_symbols@,
                assoc_unique(fs@, file_key()),
                j <= fs.len(),
                forall|k: int| 0 <= k < j ==> fs@[k].0@ != location.uri@,
            decreases fs.len() - j,
        {
            if str_eq(fs[j].0.as_str(), location.uri.as_str()) {
                proof {
                    lemma_assoc_at(fs@, file_key(), j as int);
                }
                let syms = &fs[j].1;
                let mut i: usize = 0;
                while i < syms.len()
                    invariant
                        i <= syms.len(),
                        assoc_map(self.file_symbols@, file_key()).contains_key(location.uri@),
                        syms@ == assoc_map(self.file_symbols@, file_key())[location.uri@].1@,
                        first_matching(syms@, *location, 0) == first_matching(syms@, *location, i as int),
                    decreases syms.len() - i,
                {
                    if self.location_matches_symbol(location, &syms[i]) {
                        return Some(syms[i].clone());
                    }
                    i = i + 1;
                }
                return None;
            }
            j = j + 1;
        }
        proof {
            lemma_assoc_absent(fs@, file_key(), location.uri@);
        }
        None
    }

    /// Records the references to `symbol` and its definition that a
    /// language server reported: a `Reference` edge from the symbol at each
    /// reference, in order, then a `Definition` edge from `symbol` to the
    /// symbol at its definition; a location on no recorded and indexed
    /// symbol adds nothing. Fails, changing nothing, when `symbol` is not in
    /// the graph.
    pub fn analyze_symbol_references(
        &mut self,
        symbol: &Symbol,
        references: &Vec<LocationData>,
        definition: Option<LocationData>,
    ) -> (r: Result<(), IndexerError>)
        requires
            old(self).wf(),
        ensures
            final(self).wf(),
            final(self).graph().nodes() == old(self).graph().nodes(),
            final(self).graph().index() == old(self).graph().index(),
            final(self).file_symbols() == old(self).file_symbols(),
            final(self).processed_files() == old(self).processed_files(),
            (r is Ok) == old(self).graph().index().contains_key(symbol.id@),
            r is Ok ==> {
                let fs = old(self).file_symbols();
                let index = old(self).graph().index();
                let target = index[symbol.id@];
                final(self).graph().edges() == old(self).graph().edges() + reference_edges(fs, index, references@, target)
                    + definition_edges(fs, index, definition, target)
            },
            r is Err ==> final(self).graph().edges() == old(self).graph().edges(),
    {
        let symbol_idx = match self.graph.get_node_index(symbol.id.as_str()) {
            Some(n) => n,
            None => return Err(IndexerError::SymbolNotFound),
        };
        let ghost g0 = self.graph;
        let ghost fs = self.file_symbols@;
        let ghost target = node_index_value(symbol_idx);
        proof { g0.lemma_index(); }
        let mut i: usize = 0;
        assert(g0.edges() + reference_edges(fs, g0.index(), references@.take(0), target) =~= g0.edges());
        while i < references.len()
            invariant
                self.wf(),
                self.file_symbols@ == fs,
                self.processed_files@ == old(self).processed_files@,
                self.graph.nodes() == g0.nodes(),
                self.graph.index() == g0.index(),
                g0.wf(),
                target == node_index_value(symbol_idx),
                target < g0.nodes().len(),
                i <= references.len(),
                self.graph.edges() == g0.edges() + reference_edges(fs, g0.index(), references@.take(i as int), target),
            decreases references.len() - i,
        {
            let ghost before = self.graph.edges();
            proof {
                assert(references@.take(i + 1).drop_last() =~= references@.take(i as int));
                assert(references@.take(i + 1).last() == references@[i as int]);
                g0.lemma_index();
            }
            match self.find_symbol_at_location(&references[i]) {
                Some(ref_symbol) => {
                    match self.graph.get_node_index(ref_symbol.id.as_str()) {
                        Some(ref_idx) => {
                            self.graph.add_edge(ref_idx, symbol_idx, EdgeKind::Reference);
                            assert(self.graph.edges() =~= before + reference_edge(fs, g0.index(), references@[i as int], target));
                        },
                        None => {
                            assert(reference_edge(fs, g0.index(), references@[i as int], target) =~= Seq::<(nat, nat, EdgeKind)>::empty());
                            assert(self.graph.edges() =~= before + reference_edge(fs, g0.index(), references@[i as int], target));
                        },
                    }
                },
                None => {
                    assert(self.graph.edges() =~= before + reference_edge(fs, g0.index(), references@[i as int], target));
                },
            }
            i = i + 1;
        }
        assert(references@.take(references.len() as int) =~= references@);
        let ghost mid = self.graph.edges();
        proof { g0.lemma_index(); }
        match definition {
            Some(def) => {
                match self.find_symbol_at_location(&def) {
                    Some(def_symbol) => {
                        match self.graph.get_node_index(def_symbol.id.as_str()) {
                            Some(def_idx) => {
                                self.graph.add_edge(symbol_idx, def_idx, EdgeKind::Definition);
                                assert(self.graph.edges() =~= mid + definition_edges(fs, g0.index(), Some(def), target));
                            },
                            None => {
                                assert(self.graph.edges() =~= mid + definition_edges(fs, g0.index(), Some(def), target));
                            },
                        }
                    },
                    None => {
                        assert(self.graph.edges() =~= mid + definition_edges(fs, g0.index(), Some(def), target));
                    },
                }
            },
            None => {
                assert(self.graph.edges() =~= mid + definition_edges(fs, g0.index(), None, target));
            },
        }
        Ok(())
    }
}

impl Indexer {
    /// Adds the document symbols of the file `file_uri` and their
    /// descendants in preorder, each child with a `Contains` edge to its
    /// parent; returns the symbols added, in order.
    pub fn index_document_symbols(&mut self, file_uri: &str, symbols: &Vec<DocumentSymbolData>) -> (r: Vec<Symbol>)
        requires
            old(self).wf(),
        ensures
            final(self).wf(),
            final(self).file_symbols() == old(self).file_symbols(),
            final(self).processed_files() == old(self).processed_files(),
            ({
                let flat = flatten_list(symbols@, None, old(self).graph().nodes().len());
                let added = flat_symbols(flat, |x: DocumentSymbolData| indexer_symbol(file_uri@, x));
                &&& final(self).graph().nodes().map_values(|s: Symbol| s@) == old(self).graph().nodes().map_values(|s: Symbol| s@) + added
                &&& final(self).graph().edges() == old(self).graph().edges() + contains_edges(flat, old(self).graph().nodes().len())
                &&& final(self).graph().index() == index_after_ids(old(self).graph().index(), old(self).graph().nodes().len(), view_ids(added))
                &&& r@.map_values(|s: Symbol| s@) == added
            }),
    {
        let mut collected: Vec<Symbol> = Vec::new();
        self.process_symbols(symbols, file_uri, &mut collected, None);
        proof {
            let flat = flatten_list(symbols@, None, old(self).graph().nodes().len());
            let added = flat_symbols(flat, |x: DocumentSymbolData| indexer_symbol(file_uri@, x));
            assert(Seq::<Symbol>::empty().map_values(|s: Symbol| s@) + added =~= added);
        }
        collected
    }

    /// Records `file_syms` as the symbols of the file `file_uri` (replacing
    /// an earlier record) and `file_path` as indexed.
    pub fn record_file_symbols(&mut self, file_uri: String, file_path: String, file_syms: Vec<Symbol>)
        requires
            old(self).wf(),
        ensures
            final(self).wf(),
            final(self).graph() == old(self).graph(),
            assoc_map(final(self).file_symbols(), file_key())
                == assoc_map(old(self).file_symbols(), file_key()).insert(file_uri@, (file_uri, file_syms)),
            final(self).processed_files() == if old(self).processed_files().contains(file_path@) {
                old(self).processed_files()
            } else {
                old(self).processed_files().push(file_path@)
            },
    {
        let ghost key = file_uri@;
        let ghost entry = (file_uri, file_syms);
        let mut j: usize = 0;
        let mut pos: Option<usize> = None;
        while j < self.file_symbols.len()
            invariant
                j <= self.file_symbols.len(),
                key == file_uri@,
                pos matches Some(p) ==> p < self.file_symbols.len() && self.file_symbols@[p as int].0@ == key,
                pos is None ==> forall|k: int| 0 <= k < j ==> self.file_symbols@[k].0@ != key,
            decreases self.file_symbols.len() - j,
        {
            if pos.is_none() && str_eq(self.file_symbols[j].0.as_str(), file_uri.as_str()) {
                pos = Some(j);
            }
            j = j + 1;
        }
        let ghost old_fs = self.file_symbols@;
        match pos {
            Some(p) => {
                proof {
                    lemma_assoc_update(old_fs, file_key(), p as int, entry);
                }
                self.file_symbols.set(p, (file_uri, file_syms));
            },
            None => {
                proof {
                    lemma_assoc_push(old_fs, file_key(), entry);
                }
                self.file_symbols.push((file_uri, file_syms));
            },
        }
        let ghost old_pf = self.processed_files();
        let mut k: usize = 0;
        let mut seen = false;
        while k < self.processed_files.len()
            invariant
                k <= self.processed_files.len(),
                old_pf == self.processed_files(),
                !seen ==> forall|m: int| 0 <= m < k ==> old_pf[m] != file_path@,
                seen ==> old_pf.contains(file_path@),
            decreases self.processed_files.len() - k,
        {
            if str_eq(self.processed_files[k].as_str(), file_path.as_str()) {
                seen = true;
                proof { assert(old_pf[k as int] == file_path@); }
            }
            k = k + 1;
        }
        if !seen {
            let ghost before = self.processed_files@;
            let ghost path = file_path@;
            self.processed_files.push(file_path);
            proof {
                assert(self.processed_files@ == before.push(self.processed_files@.last()));
                assert(self.processed_files() =~= old_pf.push(path));
                assert(!old_pf.contains(path));
            }
        }
    }

    /// The functions and methods recorded for all files, each with its
    /// file's URI, in record order: the symbols whose cross-file references
    /// are looked up.
    pub fn cross_reference_symbols(&self) -> (r: Vec<(String, Symbol)>)
        ensures
            r@.map_values(|e: (String, Symbol)| (e.0@, e.1)) == cross_reference_candidates(self.file_symbols()),
    {
        let fs = &self.file_symbols;
        let mut r: Vec<(String, Symbol)> = Vec::new();
        let mut j: usize = 0;
        assert(fs@.take(0) =~= Seq::<(String, Vec<Symbol>)>::empty());
        while j < fs.len()
            invariant
                j <= fs.len(),
                fs@ == self.file_symbols@,
                r@.map_values(|e: (String, Symbol)| (e.0@, e.1)) == cross_reference_candidates(fs@.take(j as int)),
            decreases fs.len() - j,
        {
            let uri = &fs[j].0;
            let syms = &fs[j].1;
            let ghost start = r@.map_values(|e: (String, Symbol)| (e.0@, e.1));
            let mut i: usize = 0;
            assert(syms@.take(0) =~= Seq::<Symbol>::empty());
            assert(start + entry_candidates(uri@, syms@.take(0)) =~= start);
            while i < syms.len()
                invariant
                    i <= syms.len(),
                    r@.map_values(|e: (String, Symbol)| (e.0@, e.1)) == start + entry_candidates(uri@, syms@.take(i as int)),
                decreases syms.len() - i,
            {
                let ghost prev = r@;
                assert(syms@.take(i + 1).drop_last() =~= syms@.take(i as int));
                assert(syms@.take(i + 1).last() == syms@[i as int]);
                if syms[i].kind == SymbolKind::Function || syms[i].kind == SymbolKind::Method {
                    let entry = (uri.clone(), syms[i].clone());
                    r.push(entry);
                    assert(r@.map_values(|e: (String, Symbol)| (e.0@, e.1)) =~= prev.map_values(|e: (String, Symbol)| (e.0@, e.1)).push((uri@, syms@[i as int])));
                }
                assert(r@.map_values(|e: (String, Symbol)| (e.0@, e.1)) =~= start + entry_candidates(uri@, syms@.take(i + 1)));
                i = i + 1;
            }
            assert(syms@.take(syms.len() as int) =~= syms@);
            assert(fs@.take(j + 1).drop_last() =~= fs@.take(j as int));
            assert(fs@.take(j + 1).last() == fs@[j as int]);
            j = j + 1;
        }
        assert(fs@.take(fs.len() as int) =~= fs@);
        r
    }

    /// Records the references that a language server found from `symbol` in
    /// the file `file_uri`: for each reference into another file that falls
    /// on a recorded symbol, in order, a `Reference` edge from `symbol` to
    /// that symbol, when both are in the graph.
    pub fn add_cross_references(&mut self, file_uri: &str, symbol: &Symbol, references: &Vec<LocationData>)
        requires
            old(self).wf(),
        ensures
            final(self).wf(),
            final(self).graph().nodes() == old(self).graph().nodes(),
            final(self).graph().index() == old(self).graph().index(),
            final(self).file_symbols() == old(self).file_symbols(),
            final(self).processed_files() == old(self).processed_files(),
            final(self).graph().edges() == old(self).graph().edges() + cross_reference_edges(
                old(self).file_symbols(),
                old(self).graph().index(),
                file_uri@,
                symbol.id@,
                references@,
            ),
    {
        let ghost g0 = self.graph;
        let ghost fs = self.file_symbols@;
        let mut i: usize = 0;
        assert(g0.edges() + cross_reference_edges(fs, g0.index(), file_uri@, symbol.id@, references@.take(0)) =~= g0.edges());
        while i < references.len()
            invariant
                self.wf(),
                self.file_symbols@ == fs,
                self.processed_files@ == old(self).processed_files@,
                self.graph.nodes() == g0.nodes(),
                self.graph.index() == g0.index(),
                g0.wf(),
                i <= references.len(),
                self.graph.edges() == g0.edges() + cross_reference_edges(fs, g0.index(), file_uri@, symbol.id@, references@.take(i as int)),
            decreases references.len() - i,
        {
            let ghost before = self.graph.edges();
            proof {
                assert(references@.take(i + 1).drop_last() =~= references@.take(i as int));
                assert(references@.take(i + 1).last() == references@[i as int]);
            }
            let reference = &references[i];
            if !str_eq(reference.uri.as_str(), file_uri) {
                match self.find_symbol_at_location(reference) {
                    Some(ref_symbol) => {
                        match (self.graph.get_node_index(symbol.id.as_str()), self.graph.get_node_index(ref_symbol.id.as_str())) {
                            (Some(from_idx), Some(to_idx)) => {
                                proof { g0.lemma_index(); }
                                self.graph.add_edge(from_idx, to_idx, EdgeKind::Reference);
                            },
                            _ => {},
                        }
                    },
                    None => {},
                }
            }
            assert(self.graph.edges() =~= g0.edges() + cross_reference_edges(fs, g0.index(), file_uri@, symbol.id@, references@.take(i + 1)));
            i = i + 1;
        }
        assert(references@.take(references.len() as int) =~= references@);
    }

    /// The graph built.
    pub fn into_graph(self) -> (g: CodeGraph)
        ensures
            g == self.graph(),
    {
        self.graph
    }
}

} // verus!
