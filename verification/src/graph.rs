use vstd::prelude::*;

use crate::stable_graph::{
    count_some, graph_add_edge, graph_edges_directed, graph_add_node, graph_edge_count, graph_edge_endpoints, graph_edge_slots,
    graph_edge_weight, graph_new, graph_node_count, graph_node_slots, graph_node_weight, node_index_get,
    node_index_new, node_index_value,
};
use crate::text::str_eq;
use petgraph::stable_graph::{NodeIndex, StableGraph};
use petgraph::Directed;

verus! {

/// The kind of a symbol, after the Language Server Protocol's symbol kinds.
#[derive(Clone, Copy, Debug, PartialEq, Eq, Structural)]
pub enum SymbolKind {
    File,
    Module,
    Namespace,
    Package,
    Class,
    Method,
    Property,
    Field,
    Constructor,
    Enum,
    Interface,
    Function,
    Variable,
    Constant,
    String,
    Number,
    Boolean,
    Array,
    Object,
    Key,
    Null,
    EnumMember,
    Struct,
    Event,
    Operator,
    TypeParameter,
    Parameter,
    Unknown,
}

/// The name of a symbol kind, as its variant is spelled (what `Debug`
/// prints for it).
pub open spec fn spec_kind_name(k: SymbolKind) -> Seq<char> {
    match k {
        SymbolKind::File => "File"@,
        SymbolKind::Module => "Module"@,
        SymbolKind::Namespace => "Namespace"@,
        SymbolKind::Package => "Package"@,
        SymbolKind::Class => "Class"@,
        SymbolKind::Method => "Method"@,
        SymbolKind::Property => "Property"@,
        SymbolKind::Field => "Field"@,
        SymbolKind::Constructor => "Constructor"@,
        SymbolKind::Enum => "Enum"@,
        SymbolKind::Interface => "Interface"@,
        SymbolKind::Function => "Function"@,
        SymbolKind::Variable => "Variable"@,
        SymbolKind::Constant => "Constant"@,
        SymbolKind::String => "String"@,
        SymbolKind::Number => "Number"@,
        SymbolKind::Boolean => "Boolean"@,
        SymbolKind::Array => "Array"@,
        SymbolKind::Object => "Object"@,
        SymbolKind::Key => "Key"@,
        SymbolKind::Null => "Null"@,
        SymbolKind::EnumMember => "EnumMember"@,
        SymbolKind::Struct => "Struct"@,
        SymbolKind::Event => "Event"@,
        SymbolKind::Operator => "Operator"@,
        SymbolKind::TypeParameter => "TypeParameter"@,
        SymbolKind::Parameter => "Parameter"@,
        SymbolKind::Unknown => "Unknown"@,
    }
}

/// The name of a symbol kind (see [`spec_kind_name`]).
pub fn kind_name(k: SymbolKind) -> (r: &'static str)
    ensures
        r@ == spec_kind_name(k),
{
    match k {
        SymbolKind::File => "File",
        SymbolKind::Module => "Module",
        SymbolKind::Namespace => "Namespace",
        SymbolKind::Package => "Package",
        SymbolKind::Class => "Class",
        SymbolKind::Method => "Method",
        SymbolKind::Property => "Property",
        SymbolKind::Field => "Field",
        SymbolKind::Constructor => "Constructor",
        SymbolKind::Enum => "Enum",
        SymbolKind::Interface => "Interface",
        SymbolKind::Function => "Function",
        SymbolKind::Variable => "Variable",
        SymbolKind::Constant => "Constant",
        SymbolKind::String => "String",
        SymbolKind::Number => "Number",
        SymbolKind::Boolean => "Boolean",
        SymbolKind::Array => "Array",
        SymbolKind::Object => "Object",
        SymbolKind::Key => "Key",
        SymbolKind::Null => "Null",
        SymbolKind::EnumMember => "EnumMember",
        SymbolKind::Struct => "Struct",
        SymbolKind::Event => "Event",
        SymbolKind::Operator => "Operator",
        SymbolKind::TypeParameter => "TypeParameter",
        SymbolKind::Parameter => "Parameter",
        SymbolKind::Unknown => "Unknown",
    }
}

/// The kind of a relation between two symbols.
#[derive(Clone, Copy, Debug, PartialEq, Eq, Structural)]
pub enum EdgeKind {
    Definition,
    Reference,
    TypeDefinition,
    Implementation,
    Override,
    Import,
    Export,
    Contains,
}

/// A position in a text document: zero-based line and character.
#[derive(Clone, Copy, Debug, PartialEq, Eq, Structural)]
pub struct Position {
    pub line: u32,
    pub character: u32,
}

/// A range in a text document, from `start` to `end` (both inclusive when
/// tested with [`Range::contains`]).
#[derive(Clone, Copy, Debug, PartialEq, Eq, Structural)]
pub struct Range {
    pub start: Position,
    pub end: Position,
}

impl Range {
    /// Whether `(line, character)` lies within the range: on a line between
    /// the start and end lines, not before the start character on the start
    /// line and not after the end character on the end line.
    pub open spec fn spec_contains(self, line: u32, character: u32) -> bool {
        &&& self.start.line <= line <= self.end.line
        &&& (line == self.start.line ==> self.start.character <= character)
        &&& (line == self.end.line ==> character <= self.end.character)
    }

    pub fn contains(&self, line: u32, character: u32) -> (r: bool)
        ensures
            r == self.spec_contains(line, character),
    {
        if line < self.start.line || line > self.end.line {
            return false;
        }
        if line == self.start.line && character < self.start.character {
            return false;
        }
        if line == self.end.line && character > self.end.character {
            return false;
        }
        true
    }
}


/// What a [`Symbol`] holds, with its strings as character sequences.
pub struct SymbolView {
    pub id: Seq<char>,
    pub kind: SymbolKind,
    pub name: Seq<char>,
    pub file_path: Seq<char>,
    pub range: Range,
    pub documentation: Option<Seq<char>>,
}

impl View for Symbol {
    type V = SymbolView;

    open spec fn view(&self) -> SymbolView {
        SymbolView {
            id: self.id@,
            kind: self.kind,
            name: self.name@,
            file_path: self.file_path@,
            range: self.range,
            documentation: match self.documentation {
                Some(d) => Some(d@),
                None => None,
            },
        }
    }
}

/// A named program entity at a place in a file.
#[derive(Debug)]
pub struct Symbol {
    pub id: String,
    pub kind: SymbolKind,
    pub name: String,
    pub file_path: String,
    pub range: Range,
    pub documentation: Option<String>,
}

impl Clone for Symbol {
    fn clone(&self) -> (r: Self)
        ensures
            r == *self,
    {
        let documentation = match &self.documentation {
            Some(d) => Some(d.clone()),
            None => None,
        };
        Symbol {
            id: self.id.clone(),
            kind: self.kind,
            name: self.name.clone(),
            file_path: self.file_path.clone(),
            range: self.range,
            documentation,
        }
    }
}

/// The symbol index as a map from symbol id to node index: a later entry for
/// an id replaces an earlier one.
pub open spec fn entries_map(s: Seq<(String, usize)>) -> Map<Seq<char>, nat>
    decreases s.len(),
{
    if s.len() == 0 {
        Map::empty()
    } else {
        entries_map(s.drop_last()).insert(s.last().0@, s.last().1 as nat)
    }
}

/// No id occurs twice among the entries.
pub open spec fn keys_unique(s: Seq<(String, usize)>) -> bool {
    forall|i: int, j: int| 0 <= i < s.len() && 0 <= j < s.len() && i != j ==> s[i].0@ != s[j].0@
}

pub proof fn lemma_entries_map(s: Seq<(String, usize)>)
    ensures
        forall|k: Seq<char>| #[trigger] entries_map(s).contains_key(k) <==> exists|i: int| 0 <= i < s.len() && s[i].0@ == k,
        keys_unique(s) ==> forall|i: int| 0 <= i < s.len() ==> #[trigger] entries_map(s)[s[i].0@] == s[i].1 as nat,
        entries_map(s).dom().finite(),
        keys_unique(s) ==> entries_map(s).dom().len() == s.len(),
    decreases s.len(),
{
    if s.len() > 0 {
        let t = s.drop_last();
        lemma_entries_map(t);
        assert forall|k: Seq<char>| #[trigger] entries_map(s).contains_key(k) <==> exists|i: int| 0 <= i < s.len() && s[i].0@ == k by {
            if entries_map(s).contains_key(k) && k != s.last().0@ {
                let i = choose|i: int| 0 <= i < t.len() && t[i].0@ == k;
                assert(s[i].0@ == k);
            }
            if exists|i: int| 0 <= i < s.len() && s[i].0@ == k {
                let i = choose|i: int| 0 <= i < s.len() && s[i].0@ == k;
                if i < t.len() {
                    assert(t[i].0@ == k);
                }
            }
        }
        if keys_unique(s) {
            assert(keys_unique(t));
            assert forall|i: int| 0 <= i < s.len() implies #[trigger] entries_map(s)[s[i].0@] == s[i].1 as nat by {
                if i < t.len() {
                    assert(t[i] == s[i]);
                    assert(s[i].0@ != s.last().0@);
                }
            }
            if entries_map(t).contains_key(s.last().0@) {
                let i = choose|i: int| 0 <= i < t.len() && t[i].0@ == s.last().0@;
                assert(s[i].0@ == s[s.len() - 1].0@);
            }
        }
    }
}

pub proof fn lemma_entries_map_push(s: Seq<(String, usize)>, e: (String, usize))
    ensures
        entries_map(s.push(e)) == entries_map(s).insert(e.0@, e.1 as nat),
{
    assert(s.push(e).drop_last() =~= s);
}

pub proof fn lemma_entries_map_update(s: Seq<(String, usize)>, i: int, e: (String, usize))
    requires
        keys_unique(s),
        0 <= i < s.len(),
        s[i].0@ == e.0@,
    ensures
        entries_map(s.update(i, e)) == entries_map(s).insert(e.0@, e.1 as nat),
        keys_unique(s.update(i, e)),
{
    let u = s.update(i, e);
    assert(keys_unique(u));
    lemma_entries_map(s);
    lemma_entries_map(u);
    assert forall|k: Seq<char>| #[trigger] entries_map(u).contains_key(k) == entries_map(s).insert(e.0@, e.1 as nat).contains_key(k) by {
        if exists|j: int| 0 <= j < s.len() && s[j].0@ == k {
            let j = choose|j: int| 0 <= j < s.len() && s[j].0@ == k;
            assert(u[j].0@ == k);
        }
        if exists|j: int| 0 <= j < u.len() && u[j].0@ == k {
            let j = choose|j: int| 0 <= j < u.len() && u[j].0@ == k;
            assert(s[j].0@ == k);
        }
    }
    assert forall|k: Seq<char>| #[trigger] entries_map(u).contains_key(k) implies entries_map(u)[k] == entries_map(s).insert(e.0@, e.1 as nat)[k] by {
        let j = choose|j: int| 0 <= j < u.len() && u[j].0@ == k;
        assert(entries_map(u)[u[j].0@] == u[j].1 as nat);
        if j != i {
            assert(entries_map(s)[s[j].0@] == s[j].1 as nat);
        }
    }
    assert(entries_map(u) =~= entries_map(s).insert(e.0@, e.1 as nat));
}

/// The node slot of a well-formed graph, as a symbol.
pub open spec fn slot_symbol(o: Option<Symbol>) -> Symbol {
    o.unwrap()
}

/// Edges whose target is `n` and whose kind is `kind`, among the edges with
/// index at least `from`, from the most recently added to the oldest.
pub open spec fn incoming_desc(edges: Seq<(nat, nat, EdgeKind)>, n: nat, kind: EdgeKind, from: int) -> Seq<nat>
    decreases edges.len() - from,
{
    if from < 0 || from >= edges.len() {
        Seq::empty()
    } else {
        let rest = incoming_desc(edges, n, kind, from + 1);
        if edges[from].1 == n && edges[from].2 == kind {
            rest.push(from as nat)
        } else {
            rest
        }
    }
}

/// Edges whose source is `n` and whose kind is `kind`, among the edges with
/// index at least `from`, from the most recently added to the oldest.
pub open spec fn outgoing_desc(edges: Seq<(nat, nat, EdgeKind)>, n: nat, kind: EdgeKind, from: int) -> Seq<nat>
    decreases edges.len() - from,
{
    if from < 0 || from >= edges.len() {
        Seq::empty()
    } else {
        let rest = outgoing_desc(edges, n, kind, from + 1);
        if edges[from].0 == n && edges[from].2 == kind {
            rest.push(from as nat)
        } else {
            rest
        }
    }
}

/// Whether a symbol lies at `position` of `file_path` in the sense of
/// [`CodeGraph::find_definition_at`]: same file, the line within the
/// symbol's lines and the character within its start and end characters.
pub open spec fn at_position(s: Symbol, file_path: Seq<char>, position: Position) -> bool {
    &&& s.file_path@ == file_path
    &&& s.range.start.line <= position.line
    &&& s.range.end.line >= position.line
    &&& s.range.start.character <= position.character
    &&& s.range.end.character >= position.character
}

/// The first node, at index `from` or later, whose symbol lies at the
/// position.
pub open spec fn first_at_position(nodes: Seq<Symbol>, file_path: Seq<char>, position: Position, from: int) -> Option<nat>
    decreases nodes.len() - from,
{
    if from < 0 || from >= nodes.len() {
        None
    } else if at_position(nodes[from], file_path, position) {
        Some(from as nat)
    } else {
        first_at_position(nodes, file_path, position, from + 1)
    }
}

/// A graph of symbols (nodes) and their relations (edges), with an index from
/// symbol id to node. Nodes and edges are never removed from a graph in
/// place, so node and edge indices are dense and grow in the order of
/// addition; taking a file's symbols out builds a new graph from what is
/// kept (see `differential_indexer::remove_file_symbols`).
#[derive(Debug)]
pub struct CodeGraph {
    pub(crate) graph: StableGraph<Symbol, EdgeKind, Directed, usize>,
    pub(crate) symbol_index: Vec<(String, usize)>,
}

impl CodeGraph {
    /// The symbols of the graph, by node index.
    pub closed spec fn nodes(&self) -> Seq<Symbol> {
        let ns = graph_node_slots(self.graph);
        Seq::new(ns.len(), |i: int| slot_symbol(ns[i]))
    }

    /// The edges of the graph as `(source, target, kind)`, by edge index.
    pub closed spec fn edges(&self) -> Seq<(nat, nat, EdgeKind)> {
        let es = graph_edge_slots(self.graph);
        Seq::new(es.len(), |i: int| es[i].unwrap())
    }

    /// The symbol index: for each symbol id, the node most recently added
    /// with that id.
    pub closed spec fn index(&self) -> Map<Seq<char>, nat> {
        entries_map(self.symbol_index@)
    }

    /// Every slot holds a node or edge, every edge joins two nodes, and the
    /// index maps exactly the ids of the nodes to nodes carrying that id.
    pub closed spec fn wf(&self) -> bool {
        let ns = graph_node_slots(self.graph);
        let es = graph_edge_slots(self.graph);
        &&& forall|i: int| 0 <= i < ns.len() ==> #[trigger] ns[i] is Some
        &&& forall|e: int| 0 <= e < es.len() ==> #[trigger] es[e] is Some && es[e].unwrap().0 < ns.len() && es[e].unwrap().1 < ns.len()
        &&& keys_unique(self.symbol_index@)
        &&& forall|j: int| 0 <= j < self.symbol_index.len() ==> {
            let (k, v) = #[trigger] self.symbol_index@[j];
            v < ns.len() && slot_symbol(ns[v as int]).id@ == k@
        }
        &&& forall|i: int| 0 <= i < ns.len() ==> self.index().contains_key(#[trigger] slot_symbol(ns[i]).id@)
            && self.index()[slot_symbol(ns[i]).id@] >= i
    }

    pub(crate) proof fn lemma_index(&self)
        requires
            self.wf(),
        ensures
            forall|k: Seq<char>| #[trigger] self.index().contains_key(k) ==> self.index()[k] < self.nodes().len() && self.nodes()[self.index()[k] as int].id@ == k,
            self.index().dom().finite(),
            self.index().dom().len() == self.symbol_index.len(),
            forall|i: int| 0 <= i < self.nodes().len() ==> self.index().contains_key(#[trigger] self.nodes()[i].id@)
                && self.index()[self.nodes()[i].id@] >= i,
            forall|e: int| 0 <= e < self.edges().len() ==> #[trigger] self.edges()[e].0 < self.nodes().len() && self.edges()[e].1 < self.nodes().len(),
    {
        lemma_entries_map(self.symbol_index@);
        assert forall|e: int| 0 <= e < self.edges().len() implies #[trigger] self.edges()[e].0 < self.nodes().len() && self.edges()[e].1 < self.nodes().len() by {
            assert(graph_edge_slots(self.graph)[e] is Some);
        }
        assert forall|k: Seq<char>| #[trigger] self.index().contains_key(k) implies self.index()[k] < self.nodes().len() && self.nodes()[self.index()[k] as int].id@ == k by {
            let j = choose|j: int| 0 <= j < self.symbol_index.len() && self.symbol_index@[j].0@ == k;
            let e = self.symbol_index@[j];
            assert(entries_map(self.symbol_index@)[e.0@] == e.1 as nat);
        }
        assert forall|i: int| 0 <= i < self.nodes().len() implies self.index().contains_key(#[trigger] self.nodes()[i].id@)
            && self.index()[self.nodes()[i].id@] >= i by {
            assert(self.nodes()[i] == slot_symbol(graph_node_slots(self.graph)[i]));
        }
    }

    /// An empty graph.
    pub fn new() -> (g: Self)
        ensures
            g.wf(),
            g.nodes() == Seq::<Symbol>::empty(),
            g.edges() == Seq::<(nat, nat, EdgeKind)>::empty(),
            g.index() == Map::<Seq<char>, nat>::empty(),
    {
        let g = CodeGraph { graph: graph_new(), symbol_index: Vec::new() };
        assert(g.nodes() =~= Seq::<Symbol>::empty());
        assert(g.edges() =~= Seq::<(nat, nat, EdgeKind)>::empty());
        g
    }

    /// Position of the index entry for `id`, if any.
    fn index_position(&self, id: &str) -> (r: Option<usize>)
        ensures
            match r {
                Some(j) => j < self.symbol_index.len() && self.symbol_index@[j as int].0@ == id@,
                None => forall|j: int| 0 <= j < self.symbol_index.len() ==> self.symbol_index@[j].0@ != id@,
            },
    {
        let mut j: usize = 0;
        while j < self.symbol_index.len()
            invariant
                j <= self.symbol_index.len(),
                forall|i: int| 0 <= i < j ==> self.symbol_index@[i].0@ != id@,
            decreases self.symbol_index.len() - j,
        {
            if str_eq(self.symbol_index[j].0.as_str(), id) {
                return Some(j);
            }
            j = j + 1;
        }
        None
    }

    /// The node that the index maps `id` to.
    pub(crate) fn lookup(&self, id: &str) -> (r: Option<usize>)
        requires
            self.wf(),
        ensures
            match r {
                Some(n) => self.index().contains_key(id@) && self.index()[id@] == n && n < self.nodes().len(),
                None => !self.index().contains_key(id@),
            },
    {
        proof {
            lemma_entries_map(self.symbol_index@);
            self.lemma_index();
        }
        match self.index_position(id) {
            Some(j) => {
                let n = self.symbol_index[j].1;
                proof {
                    let e = self.symbol_index@[j as int];
                    assert(entries_map(self.symbol_index@)[e.0@] == e.1 as nat);
                }
                Some(n)
            },
            None => {
                proof {
                    if self.index().contains_key(id@) {
                        let j = choose|j: int| 0 <= j < self.symbol_index.len() && self.symbol_index@[j].0@ == id@;
                    }
                }
                None
            },
        }
    }

    /// Adds a symbol as a new node and indexes it under its id (replacing an
    /// earlier node of the same id in the index); returns the new node.
    pub fn add_symbol(&mut self, symbol: Symbol) -> (r: NodeIndex<usize>)
        requires
            old(self).wf(),
        ensures
            final(self).wf(),
            final(self).nodes() == old(self).nodes().push(symbol),
            final(self).edges() == old(self).edges(),
            final(self).index() == old(self).index().insert(symbol.id@, old(self).nodes().len()),
            node_index_value(r) == old(self).nodes().len(),
    {
        let ghost old_nodes = self.nodes();
        let ghost old_slots = graph_node_slots(self.graph);
        let ghost sym = symbol;
        let id = symbol.id.clone();
        let pos = self.index_position(id.as_str());
        let n = graph_add_node(&mut self.graph, symbol);
        proof {
            assert(graph_node_slots(self.graph) == old_slots.push(Some(sym)));
        }
        match pos {
            Some(j) => {
                proof {
                    lemma_entries_map_update(self.symbol_index@, j as int, (id, n));
                }
                self.symbol_index.set(j, (id, n));
            },
            None => {
                proof {
                    lemma_entries_map_push(self.symbol_index@, (id, n));
                }
                self.symbol_index.push((id, n));
            },
        }
        proof {
            let ns = graph_node_slots(self.graph);
            assert(self.nodes() =~= old_nodes.push(sym));
            lemma_entries_map(self.symbol_index@);
            assert forall|j: int| 0 <= j < self.symbol_index.len() implies {
                let (k, v) = #[trigger] self.symbol_index@[j];
                v < ns.len() && slot_symbol(ns[v as int]).id@ == k@
            } by {
                let (k, v) = self.symbol_index@[j];
                if v != n {
                    assert(ns[v as int] == old_slots[v as int]);
                }
            }
            assert forall|i: int| 0 <= i < ns.len() implies self.index().contains_key(#[trigger] slot_symbol(ns[i]).id@)
                && self.index()[slot_symbol(ns[i]).id@] >= i by {
                if i < old_slots.len() {
                    assert(ns[i] == old_slots[i]);
                }
            }
        }
        node_index_new(n)
    }

    /// Adds an edge of kind `kind` from node `from` to node `to`; both must be
    /// nodes of the graph.
    pub fn add_edge(&mut self, from: NodeIndex<usize>, to: NodeIndex<usize>, kind: EdgeKind)
        requires
            old(self).wf(),
            node_index_value(from) < old(self).nodes().len(),
            node_index_value(to) < old(self).nodes().len(),
        ensures
            final(self).wf(),
            final(self).nodes() == old(self).nodes(),
            final(self).edges() == old(self).edges().push((node_index_value(from), node_index_value(to), kind)),
            final(self).index() == old(self).index(),
    {
        let ghost old_edges = self.edges();
        let ghost old_es = graph_edge_slots(self.graph);
        let a = node_index_get(from);
        let b = node_index_get(to);
        let _e = graph_add_edge(&mut self.graph, a, b, kind);
        proof {
            assert(graph_edge_slots(self.graph) == old_es.push(Some((a as nat, b as nat, kind))));
            assert(self.edges() =~= old_edges.push((a as nat, b as nat, kind)));
        }
    }

    /// The symbol indexed under `id`.
    pub fn find_symbol(&self, id: &str) -> (r: Option<&Symbol>)
        requires
            self.wf(),
        ensures
            match r {
                Some(s) => self.index().contains_key(id@) && *s == self.nodes()[self.index()[id@] as int],
                None => !self.index().contains_key(id@),
            },
    {
        match self.lookup(id) {
            Some(n) => {
                let s = graph_node_weight(&self.graph, n);
                match s {
                    Some(s) => Some(s),
                    None => {
                        proof { assert(graph_node_slots(self.graph)[n as int] is Some); }
                        None
                    },
                }
            },
            None => None,
        }
    }

    /// Number of distinct symbol ids in the index.
    pub fn symbol_count(&self) -> (r: usize)
        requires
            self.wf(),
        ensures
            r == self.index().dom().len(),
    {
        proof { self.lemma_index(); }
        self.symbol_index.len()
    }

    /// The node indexed under `symbol_id`.
    pub fn get_node_index(&self, symbol_id: &str) -> (r: Option<NodeIndex<usize>>)
        requires
            self.wf(),
        ensures
            match r {
                Some(n) => self.index().contains_key(symbol_id@) && node_index_value(n) == self.index()[symbol_id@],
                None => !self.index().contains_key(symbol_id@),
            },
    {
        match self.lookup(symbol_id) {
            Some(n) => Some(node_index_new(n)),
            None => None,
        }
    }

    /// Number of nodes, which under well-formedness is the number of slots.
    pub(crate) fn node_total(&self) -> (r: usize)
        requires
            self.wf(),
        ensures
            r == self.nodes().len(),
    {
        proof { lemma_count_some_full(graph_node_slots(self.graph)); }
        graph_node_count(&self.graph)
    }

    /// Number of edges, which under well-formedness is the number of slots.
    pub(crate) fn edge_total(&self) -> (r: usize)
        requires
            self.wf(),
        ensures
            r == self.edges().len(),
    {
        proof { lemma_count_some_full(graph_edge_slots(self.graph)); }
        graph_edge_count(&self.graph)
    }

    /// The symbol of node `n`.
    pub(crate) fn node_at(&self, n: usize) -> (r: &Symbol)
        requires
            self.wf(),
            n < self.nodes().len(),
        ensures
            *r == self.nodes()[n as int],
    {
        match graph_node_weight(&self.graph, n) {
            Some(s) => s,
            None => {
                proof { assert(graph_node_slots(self.graph)[n as int] is Some); }
                vstd::pervasive::unreached()
            },
        }
    }

    /// The edge `e` as `(source, target, kind)`.
    pub(crate) fn edge_at(&self, e: usize) -> (r: (usize, usize, EdgeKind))
        requires
            self.wf(),
            e < self.edges().len(),
        ensures
            r.0 as nat == self.edges()[e as int].0,
            r.1 as nat == self.edges()[e as int].1,
            r.2 == self.edges()[e as int].2,
    {
        let ends = graph_edge_endpoints(&self.graph, e);
        let kind = graph_edge_weight(&self.graph, e);
        proof { assert(graph_edge_slots(self.graph)[e as int] is Some); }
        match (ends, kind) {
            (Some((s, t)), Some(k)) => (s, t, k),
            _ => vstd::pervasive::unreached(),
        }
    }

    /// All symbols, in node order.
    pub fn get_all_symbols(&self) -> (r: Vec<&Symbol>)
        requires
            self.wf(),
        ensures
            r.len() == self.nodes().len(),
            forall|i: int| 0 <= i < r.len() ==> *r@[i] == self.nodes()[i],
    {
        let total = self.node_total();
        let mut r: Vec<&Symbol> = Vec::new();
        let mut i: usize = 0;
        while i < total
            invariant
                self.wf(),
                total == self.nodes().len(),
                i <= total,
                r.len() == i,
                forall|j: int| 0 <= j < i ==> *r@[j] == self.nodes()[j],
            decreases total - i,
        {
            r.push(self.node_at(i));
            i = i + 1;
        }
        r
    }

    /// The symbols that the index maps to, one per indexed id.
    pub(crate) fn indexed_symbols(&self) -> (r: Vec<&Symbol>)
        requires
            self.wf(),
        ensures
            r.len() == self.index().dom().len(),
            forall|i: int, j: int| 0 <= i < r.len() && 0 <= j < r.len() && i != j ==> r@[i].id@ != r@[j].id@,
            forall|i: int| 0 <= i < r.len() ==> self.index().contains_key(#[trigger] r@[i].id@)
                && *r@[i] == self.nodes()[self.index()[r@[i].id@] as int],
            forall|k: Seq<char>| #[trigger] self.index().contains_key(k) ==> exists|i: int| 0 <= i < r.len() && r@[i].id@ == k,
    {
        proof {
            lemma_entries_map(self.symbol_index@);
            self.lemma_index();
        }
        let mut r: Vec<&Symbol> = Vec::new();
        let mut j: usize = 0;
        while j < self.symbol_index.len()
            invariant
                self.wf(),
                j <= self.symbol_index.len(),
                r.len() == j,
                forall|i: int| 0 <= i < j ==> (#[trigger] r@[i]).id@ == self.symbol_index@[i].0@
                    && *r@[i] == self.nodes()[self.symbol_index@[i].1 as int],
            decreases self.symbol_index.len() - j,
        {
            let n = self.symbol_index[j].1;
            proof {
                let e = self.symbol_index@[j as int];
                assert(e.1 < graph_node_slots(self.graph).len());
                assert(self.nodes()[n as int] == slot_symbol(graph_node_slots(self.graph)[n as int]));
            }
            r.push(self.node_at(n));
            j = j + 1;
        }
        proof {
            let s = self.symbol_index@;
            assert forall|i: int| 0 <= i < r.len() implies self.index().contains_key(#[trigger] r@[i].id@)
                && *r@[i] == self.nodes()[self.index()[r@[i].id@] as int] by {
                assert(entries_map(s)[s[i].0@] == s[i].1 as nat);
            }
            assert forall|k: Seq<char>| #[trigger] self.index().contains_key(k) implies exists|i: int| 0 <= i < r.len() && r@[i].id@ == k by {
                let i = choose|i: int| 0 <= i < s.len() && s[i].0@ == k;
                assert(r@[i].id@ == k);
            }
        }
        r
    }

    /// The sources of the edges of kind `kind` into node `n`, most recent
    /// edge first.
    fn incoming_sources(&self, n: usize, kind: EdgeKind) -> (r: Vec<&Symbol>)
        requires
            self.wf(),
        ensures
            r.len() == incoming_desc(self.edges(), n as nat, kind, 0).len(),
            forall|i: int| 0 <= i < r.len() ==> *r@[i] == self.nodes()[self.edges()[incoming_desc(self.edges(), n as nat, kind, 0)[i] as int].0 as int],
    {
        let total = self.edge_total();
        let mut r: Vec<&Symbol> = Vec::new();
        let mut e: usize = total;
        while e > 0
            invariant
                self.wf(),
                total == self.edges().len(),
                e <= total,
                r.len() == incoming_desc(self.edges(), n as nat, kind, e as int).len(),
                forall|i: int| 0 <= i < r.len() ==> *r@[i] == self.nodes()[self.edges()[incoming_desc(self.edges(), n as nat, kind, e as int)[i] as int].0 as int],
            decreases e,
        {
            e = e - 1;
            let (s, t, k) = self.edge_at(e);
            if t == n && k == kind {
                r.push(self.node_at(s));
            }
        }
        r
    }

    /// Symbols referring to the symbol `symbol_id` (sources of `Reference`
    /// edges into its node), most recent edge first; empty when the id is not
    /// indexed.
    pub fn find_references(&self, symbol_id: &str) -> (r: Vec<&Symbol>)
        requires
            self.wf(),
        ensures
            !self.index().contains_key(symbol_id@) ==> r.len() == 0,
            self.index().contains_key(symbol_id@) ==> {
                let es = incoming_desc(self.edges(), self.index()[symbol_id@], EdgeKind::Reference, 0);
                &&& r.len() == es.len()
                &&& forall|i: int| 0 <= i < r.len() ==> *r@[i] == self.nodes()[self.edges()[es[i] as int].0 as int]
            },
    {
        match self.lookup(symbol_id) {
            Some(n) => self.incoming_sources(n, EdgeKind::Reference),
            None => Vec::new(),
        }
    }

    /// Implementations of the interface `interface_id` (sources of
    /// `Implementation` edges into its node), most recent edge first.
    pub fn find_implementations(&self, interface_id: &str) -> (r: Vec<&Symbol>)
        requires
            self.wf(),
        ensures
            !self.index().contains_key(interface_id@) ==> r.len() == 0,
            self.index().contains_key(interface_id@) ==> {
                let es = incoming_desc(self.edges(), self.index()[interface_id@], EdgeKind::Implementation, 0);
                &&& r.len() == es.len()
                &&& forall|i: int| 0 <= i < r.len() ==> *r@[i] == self.nodes()[self.edges()[es[i] as int].0 as int]
            },
    {
        match self.lookup(interface_id) {
            Some(n) => self.incoming_sources(n, EdgeKind::Implementation),
            None => Vec::new(),
        }
    }

    /// Methods overriding `method_id` (sources of `Override` edges into its
    /// node), most recent edge first.
    pub fn find_overrides(&self, method_id: &str) -> (r: Vec<&Symbol>)
        requires
            self.wf(),
        ensures
            !self.index().contains_key(method_id@) ==> r.len() == 0,
            self.index().contains_key(method_id@) ==> {
                let es = incoming_desc(self.edges(), self.index()[method_id@], EdgeKind::Override, 0);
                &&& r.len() == es.len()
                &&& forall|i: int| 0 <= i < r.len() ==> *r@[i] == self.nodes()[self.edges()[es[i] as int].0 as int]
            },
    {
        match self.lookup(method_id) {
            Some(n) => self.incoming_sources(n, EdgeKind::Override),
            None => Vec::new(),
        }
    }

    /// The most recent edge of kind `kind` out of node `n` among edges `< e0`
    /// ... scanning down from the newest edge: its target.
    fn first_incoming(&self, n: usize, kind: EdgeKind) -> (r: Option<usize>)
        requires
            self.wf(),
        ensures
            match r {
                Some(src) => incoming_desc(self.edges(), n as nat, kind, 0).len() > 0
                    && src as nat == self.edges()[incoming_desc(self.edges(), n as nat, kind, 0)[0] as int].0,
                None => incoming_desc(self.edges(), n as nat, kind, 0).len() == 0,
            },
    {
        let total = self.edge_total();
        let mut e: usize = total;
        while e > 0
            invariant
                self.wf(),
                total == self.edges().len(),
                e <= total,
                incoming_desc(self.edges(), n as nat, kind, e as int).len() == 0,
            decreases e,
        {
            e = e - 1;
            let (s, t, k) = self.edge_at(e);
            if t == n && k == kind {
                proof { lemma_incoming_desc_first(self.edges(), n as nat, kind, e as int); }
                return Some(s);
            }
        }
        None
    }

    pub(crate) fn first_outgoing(&self, n: usize, kind: EdgeKind) -> (r: Option<usize>)
        requires
            self.wf(),
        ensures
            match r {
                Some(dst) => outgoing_desc(self.edges(), n as nat, kind, 0).len() > 0
                    && dst as nat == self.edges()[outgoing_desc(self.edges(), n as nat, kind, 0)[0] as int].1,
                None => outgoing_desc(self.edges(), n as nat, kind, 0).len() == 0,
            },
    {
        let total = self.edge_total();
        let mut e: usize = total;
        while e > 0
            invariant
                self.wf(),
                total == self.edges().len(),
                e <= total,
                outgoing_desc(self.edges(), n as nat, kind, e as int).len() == 0,
            decreases e,
        {
            e = e - 1;
            let (s, t, k) = self.edge_at(e);
            if s == n && k == kind {
                proof { lemma_outgoing_desc_first(self.edges(), n as nat, kind, e as int); }
                return Some(t);
            }
        }
        None
    }

    /// The definition of the symbol `reference_id`: the source of the most
    /// recent `Definition` edge into its node.
    pub fn find_definition(&self, reference_id: &str) -> (r: Option<&Symbol>)
        requires
            self.wf(),
        ensures
            match r {
                Some(s) => self.index().contains_key(reference_id@) && {
                    let es = incoming_desc(self.edges(), self.index()[reference_id@], EdgeKind::Definition, 0);
                    es.len() > 0 && *s == self.nodes()[self.edges()[es[0] as int].0 as int]
                },
                None => !self.index().contains_key(reference_id@)
                    || incoming_desc(self.edges(), self.index()[reference_id@], EdgeKind::Definition, 0).len() == 0,
            },
    {
        match self.lookup(reference_id) {
            Some(n) => match self.first_incoming(n, EdgeKind::Definition) {
                Some(src) => {
                    proof {
                        lemma_incoming_desc_members(self.edges(), n as nat, EdgeKind::Definition, 0);
                        self.lemma_edge_ends(incoming_desc(self.edges(), n as nat, EdgeKind::Definition, 0)[0] as int);
                    }
                    Some(self.node_at(src))
                },
                None => None,
            },
            None => None,
        }
    }

    /// The edges out of node `n`, as `(edge, source, target, kind)`, each
    /// once, in no stated order.
    pub(crate) fn out_edges(&self, n: usize) -> (r: Vec<(usize, usize, usize, EdgeKind)>)
        requires
            self.wf(),
            n < self.nodes().len(),
        ensures
            forall|j: int| 0 <= j < r.len() ==> {
                let (e, s, t, k) = #[trigger] r@[j];
                &&& e < self.edges().len()
                &&& self.edges()[e as int] == (s as nat, t as nat, k)
                &&& s == n
                &&& t < self.nodes().len()
            },
            forall|e: int| 0 <= e < self.edges().len() && #[trigger] self.edges()[e].0 == n ==> exists|j: int| 0 <= j < r.len() && r@[j].0 == e,
    {
        let r = graph_edges_directed(&self.graph, n, true);
        proof {
            let es = graph_edge_slots(self.graph);
            assert(graph_node_slots(self.graph)[n as int] is Some);
            assert forall|j: int| 0 <= j < r.len() implies {
                let (e, s, t, k) = #[trigger] r@[j];
                &&& e < self.edges().len()
                &&& self.edges()[e as int] == (s as nat, t as nat, k)
                &&& s == n
                &&& t < self.nodes().len()
            } by {
                let (e, s, t, k) = r@[j];
                assert(es[e as int] is Some);
            }
            assert forall|e: int| 0 <= e < self.edges().len() && #[trigger] self.edges()[e].0 == n implies exists|j: int| 0 <= j < r.len() && r@[j].0 == e by {
                assert(es[e] is Some);
                assert(es[e].unwrap().0 == n);
            }
        }
        r
    }

    pub(crate) proof fn lemma_edge_ends(&self, e: int)
        requires
            self.wf(),
        ensures
            0 <= e < self.edges().len() ==> self.edges()[e].0 < self.nodes().len() && self.edges()[e].1 < self.nodes().len(),
    {
        if 0 <= e < self.edges().len() {
            assert(graph_edge_slots(self.graph)[e] is Some);
        }
    }

    /// The symbol at `position` of `file_path`: the first node (in node
    /// order) whose symbol covers the position; when that symbol's indexed
    /// node has an outgoing `Reference` edge, the target of the most recent
    /// one instead.
    pub fn find_definition_at(&self, file_path: &str, position: Position) -> (r: Option<&Symbol>)
        requires
            self.wf(),
        ensures
            match first_at_position(self.nodes(), file_path@, position, 0) {
                None => r is None,
                Some(i) => {
                    let n = self.index()[self.nodes()[i as int].id@];
                    let out = outgoing_desc(self.edges(), n, EdgeKind::Reference, 0);
                    r is Some && if out.len() > 0 {
                        *r.unwrap() == self.nodes()[self.edges()[out[0] as int].1 as int]
                    } else {
                        *r.unwrap() == self.nodes()[i as int]
                    }
                },
            },
    {
        let total = self.node_total();
        let mut i: usize = 0;
        while i < total
            invariant
                self.wf(),
                total == self.nodes().len(),
                i <= total,
                first_at_position(self.nodes(), file_path@, position, 0) == first_at_position(self.nodes(), file_path@, position, i as int),
            decreases total - i,
        {
            let symbol = self.node_at(i);
            if str_eq(symbol.file_path.as_str(), file_path) && symbol.range.start.line <= position.line
                && symbol.range.end.line >= position.line && symbol.range.start.character <= position.character
                && symbol.range.end.character >= position.character {
                proof { self.lemma_index(); }
                match self.lookup(symbol.id.as_str()) {
                    Some(n) => {
                        match self.first_outgoing(n, EdgeKind::Reference) {
                            Some(t) => {
                                proof {
                                    lemma_outgoing_desc_members(self.edges(), n as nat, EdgeKind::Reference, 0);
                                    self.lemma_edge_ends(outgoing_desc(self.edges(), n as nat, EdgeKind::Reference, 0)[0] as int);
                                }
                                return Some(self.node_at(t));
                            },
                            None => {
                                return Some(symbol);
                            },
                        }
                    },
                    None => {
                        return Some(symbol);
                    },
                }
            }
            i = i + 1;
        }
        None
    }
}

/// When every slot holds a value, the number of filled slots is the length.
pub proof fn lemma_count_some_full<T>(s: Seq<Option<T>>)
    requires
        forall|i: int| 0 <= i < s.len() ==> #[trigger] s[i] is Some,
    ensures
        count_some(s) == s.len(),
    decreases s.len(),
{
    if s.len() > 0 {
        let t = s.drop_last();
        assert forall|i: int| 0 <= i < t.len() implies #[trigger] t[i] is Some by {
            assert(t[i] == s[i]);
        }
        lemma_count_some_full(t);
    }
}

proof fn lemma_incoming_desc_first(edges: Seq<(nat, nat, EdgeKind)>, n: nat, kind: EdgeKind, e: int)
    requires
        0 <= e < edges.len(),
        incoming_desc(edges, n, kind, e + 1).len() == 0,
        edges[e].1 == n && edges[e].2 == kind,
    ensures
        forall|f: int| #![trigger incoming_desc(edges, n, kind, f)] 0 <= f <= e ==> incoming_desc(edges, n, kind, f).len() > 0 && incoming_desc(edges, n, kind, f)[0] == e,
{
    assert(incoming_desc(edges, n, kind, e) == incoming_desc(edges, n, kind, e + 1).push(e as nat));
    assert(incoming_desc(edges, n, kind, e)[0] == e);
    assert forall|f: int| #![trigger incoming_desc(edges, n, kind, f)] 0 <= f <= e implies incoming_desc(edges, n, kind, f).len() > 0 && incoming_desc(edges, n, kind, f)[0] == e by {
        lemma_incoming_desc_prefix(edges, n, kind, f, e);
    }
}

proof fn lemma_incoming_desc_prefix(edges: Seq<(nat, nat, EdgeKind)>, n: nat, kind: EdgeKind, f: int, e: int)
    requires
        0 <= f <= e < edges.len(),
        incoming_desc(edges, n, kind, e).len() > 0,
    ensures
        incoming_desc(edges, n, kind, f).len() > 0,
        incoming_desc(edges, n, kind, f)[0] == incoming_desc(edges, n, kind, e)[0],
    decreases e - f,
{
    if f < e {
        lemma_incoming_desc_prefix(edges, n, kind, f + 1, e);
    }
}

/// Every listed edge lies in range and matches.
pub proof fn lemma_incoming_desc_members(edges: Seq<(nat, nat, EdgeKind)>, n: nat, kind: EdgeKind, from: int)
    requires
        0 <= from,
    ensures
        forall|i: int| 0 <= i < incoming_desc(edges, n, kind, from).len() ==> {
            let e = #[trigger] incoming_desc(edges, n, kind, from)[i];
            from <= e < edges.len() && edges[e as int].1 == n && edges[e as int].2 == kind
        },
    decreases edges.len() - from,
{
    if from < edges.len() {
        lemma_incoming_desc_members(edges, n, kind, from + 1);
    }
}

proof fn lemma_outgoing_desc_first(edges: Seq<(nat, nat, EdgeKind)>, n: nat, kind: EdgeKind, e: int)
    requires
        0 <= e < edges.len(),
        outgoing_desc(edges, n, kind, e + 1).len() == 0,
        edges[e].0 == n && edges[e].2 == kind,
    ensures
        forall|f: int| #![trigger outgoing_desc(edges, n, kind, f)] 0 <= f <= e ==> outgoing_desc(edges, n, kind, f).len() > 0 && outgoing_desc(edges, n, kind, f)[0] == e,
{
    assert(outgoing_desc(edges, n, kind, e) == outgoing_desc(edges, n, kind, e + 1).push(e as nat));
    assert(outgoing_desc(edges, n, kind, e)[0] == e);
    assert forall|f: int| #![trigger outgoing_desc(edges, n, kind, f)] 0 <= f <= e implies outgoing_desc(edges, n, kind, f).len() > 0 && outgoing_desc(edges, n, kind, f)[0] == e by {
        lemma_outgoing_desc_prefix(edges, n, kind, f, e);
    }
}

proof fn lemma_outgoing_desc_prefix(edges: Seq<(nat, nat, EdgeKind)>, n: nat, kind: EdgeKind, f: int, e: int)
    requires
        0 <= f <= e < edges.len(),
        outgoing_desc(edges, n, kind, e).len() > 0,
    ensures
        outgoing_desc(edges, n, kind, f).len() > 0,
        outgoing_desc(edges, n, kind, f)[0] == outgoing_desc(edges, n, kind, e)[0],
    decreases e - f,
{
    if f < e {
        lemma_outgoing_desc_prefix(edges, n, kind, f + 1, e);
    }
}

/// Every listed edge lies in range and matches.
pub proof fn lemma_outgoing_desc_members(edges: Seq<(nat, nat, EdgeKind)>, n: nat, kind: EdgeKind, from: int)
    requires
        0 <= from,
    ensures
        forall|i: int| 0 <= i < outgoing_desc(edges, n, kind, from).len() ==> {
            let e = #[trigger] outgoing_desc(edges, n, kind, from)[i];
            from <= e < edges.len() && edges[e as int].0 == n && edges[e as int].2 == kind
        },
    decreases edges.len() - from,
{
    if from < edges.len() {
        lemma_outgoing_desc_members(edges, n, kind, from + 1);
    }
}

impl Default for CodeGraph {
    /// An empty graph (see [`CodeGraph::new`]).
    fn default() -> (g: Self)
        ensures
            g.wf(),
            g.nodes() == Seq::<Symbol>::empty(),
            g.edges() == Seq::<(nat, nat, EdgeKind)>::empty(),
            g.index() == Map::<Seq<char>, nat>::empty(),
    {
        CodeGraph::new()
    }
}

/// Reading back what was written: once a symbol has been added, looking
/// up its id finds exactly that symbol, whatever the graph held before.
pub proof fn law_find_after_add(before: CodeGraph, after: CodeGraph, symbol: Symbol)
    requires
        before.wf(),
        after.nodes() == before.nodes().push(symbol),
        after.index() == before.index().insert(symbol.id@, before.nodes().len()),
    ensures
        after.index().contains_key(symbol.id@),
        after.nodes()[after.index()[symbol.id@] as int] == symbol,
{
}

proof fn lemma_incoming_desc(edges: Seq<(nat, nat, EdgeKind)>, n: nat, kind: EdgeKind, from: int)
    requires
        0 <= from,
    ensures
        forall|i: int| 0 <= i < incoming_desc(edges, n, kind, from).len() ==> from <= #[trigger] incoming_desc(edges, n, kind, from)[i] < edges.len(),
        forall|e: int| from <= e < edges.len() ==> (incoming_desc(edges, n, kind, from).contains(e as nat) <==> (#[trigger] edges[e]).1 == n && edges[e].2 == kind),
        forall|i: int, j: int| 0 <= i < j < incoming_desc(edges, n, kind, from).len() ==> #[trigger] incoming_desc(edges, n, kind, from)[i] > #[trigger] incoming_desc(edges, n, kind, from)[j],
    decreases edges.len() - from,
{
    if from < edges.len() {
        lemma_incoming_desc(edges, n, kind, from + 1);
        let rest = incoming_desc(edges, n, kind, from + 1);
        let s = incoming_desc(edges, n, kind, from);
        assert forall|e: int| from <= e < edges.len() implies (s.contains(e as nat) <==> (#[trigger] edges[e]).1 == n && edges[e].2 == kind) by {
            if edges[from].1 == n && edges[from].2 == kind {
                assert(s == rest.push(from as nat));
                if e == from {
                    assert(s[rest.len() as int] == from as nat);
                    assert forall|i: int| 0 <= i < rest.len() implies rest[i] != from as nat by {
                        assert(from + 1 <= rest[i]);
                    }
                } else {
                    if s.contains(e as nat) {
                        let i = choose|i: int| 0 <= i < s.len() && s[i] == e as nat;
                        if i < rest.len() {
                            assert(rest[i] == e as nat);
                        }
                    }
                    if rest.contains(e as nat) {
                        let i = choose|i: int| 0 <= i < rest.len() && rest[i] == e as nat;
                        assert(s[i] == e as nat);
                    }
                }
            } else {
                if e == from {
                    if s.contains(e as nat) {
                        let i = choose|i: int| 0 <= i < s.len() && s[i] == e as nat;
                        assert(from + 1 <= rest[i]);
                    }
                }
            }
        }
    }
}

/// One reference per reference edge: the edges behind a symbol's
/// references ([`CodeGraph::find_references`]) are exactly the `Reference`
/// edges into its node, each of them once, newest first; outgoing edges and
/// edges of other kinds never give an entry.
pub proof fn law_one_reference_per_edge(edges: Seq<(nat, nat, EdgeKind)>, n: nat)
    ensures
        forall|e: int| 0 <= e < edges.len() ==> (incoming_desc(edges, n, EdgeKind::Reference, 0).contains(e as nat)
            <==> (#[trigger] edges[e]).1 == n && edges[e].2 == EdgeKind::Reference),
        forall|i: int, j: int| 0 <= i < j < incoming_desc(edges, n, EdgeKind::Reference, 0).len()
            ==> #[trigger] incoming_desc(edges, n, EdgeKind::Reference, 0)[i] > #[trigger] incoming_desc(edges, n, EdgeKind::Reference, 0)[j],
        forall|i: int| 0 <= i < incoming_desc(edges, n, EdgeKind::Reference, 0).len()
            ==> #[trigger] incoming_desc(edges, n, EdgeKind::Reference, 0)[i] < edges.len(),
{
    lemma_incoming_desc(edges, n, EdgeKind::Reference, 0);
}

/// Adding a symbol leaves every other id's lookup as it was.
pub proof fn law_add_keeps_other_ids(before: CodeGraph, after: CodeGraph, symbol: Symbol, id: Seq<char>)
    requires
        before.wf(),
        after.nodes() == before.nodes().push(symbol),
        after.index() == before.index().insert(symbol.id@, before.nodes().len()),
        id != symbol.id@,
    ensures
        after.index().contains_key(id) == before.index().contains_key(id),
        before.index().contains_key(id) ==> after.nodes()[after.index()[id] as int] == before.nodes()[before.index()[id] as int],
{
    before.lemma_index();
}

/// Adding a symbol with a new id adds one to the symbol count; adding one
/// with an id already indexed leaves the count as it was.
pub proof fn law_symbol_count_after_add(before: CodeGraph, after: CodeGraph, symbol: Symbol)
    requires
        before.wf(),
        after.wf(),
        after.index() == before.index().insert(symbol.id@, before.nodes().len()),
    ensures
        after.index().dom().len() == before.index().dom().len() + if before.index().contains_key(symbol.id@) { 0int } else { 1int },
{
    before.lemma_index();
    if before.index().contains_key(symbol.id@) {
        assert(after.index().dom() =~= before.index().dom());
    } else {
        assert(after.index().dom() =~= before.index().dom().insert(symbol.id@));
    }
}

/// A range whose start does not come after its end contains both its start
/// and its end position.
pub proof fn law_range_contains_ends(r: Range)
    requires
        r.start.line < r.end.line || (r.start.line == r.end.line && r.start.character <= r.end.character),
    ensures
        r.spec_contains(r.start.line, r.start.character),
        r.spec_contains(r.end.line, r.end.character),
{
}

} // verus!
