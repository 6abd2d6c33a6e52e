//! The enhanced code graph: the symbol graph together with an index of each
//! file's symbols, the type hierarchy and call graph gathered from the
//! edges, and how often each symbol is the target of an edge; with the
//! analyses built on them (call hierarchy, dead code, type relations,
//! dependencies between files). The keyed tables are association lists,
//! each read as the map it stands for.
use vstd::prelude::*;

use crate::assoc::{assoc_has, assoc_map, assoc_unique, lemma_assoc_absent, lemma_assoc_at, lemma_assoc_empty, lemma_assoc_push, lemma_assoc_update};
use crate::graph::{
    entries_map, keys_unique, lemma_entries_map, lemma_entries_map_push, lemma_entries_map_update, lemma_outgoing_desc_members,
    outgoing_desc, CodeGraph, EdgeKind, Position, Range, Symbol, SymbolKind,
};
use crate::simple_cli::{parse_u32, spec_parse_u32, sub_chars};
use crate::stable_graph::node_index_value;
use crate::text::{chars_of, lemma_seq_lt_asym, lemma_seq_lt_total, lemma_seq_lt_trans, seq_lt, str_lt, has_prefix, has_substring, has_suffix, str_contains, str_ends_with, str_starts_with, push_decimal, push_str, spec_decimal, str_eq, str_has_char, str_to_string, string_push};
use petgraph::stable_graph::NodeIndex;

verus! {

/// What the type hierarchy records of one type.
#[derive(Debug)]
pub struct TypeInfo {
    pub symbol_id: String,
    pub base_types: Vec<String>,
    pub derived_types: Vec<String>,
    pub implements: Vec<String>,
    pub methods: Vec<String>,
    pub fields: Vec<String>,
}

/// What the call graph records of one function.
#[derive(Debug)]
pub struct CallInfo {
    pub symbol_id: String,
    pub calls: Vec<String>,
    pub called_by: Vec<String>,
    pub depth: usize,
}

/// The call hierarchy around a function.
#[derive(Debug)]
pub struct CallHierarchy {
    pub root: String,
    pub outgoing: Vec<CallNode>,
    pub incoming: Vec<CallNode>,
}

/// A function in a call hierarchy, at its distance from the root, with its
/// symbol's name when the id is indexed.
#[derive(Debug)]
pub struct CallNode {
    pub symbol_id: String,
    pub depth: usize,
    pub symbol: Option<String>,
}

/// The relations of a type.
#[derive(Debug)]
pub struct TypeRelations {
    pub type_id: String,
    pub base_types: Vec<String>,
    pub derived_types: Vec<String>,
    pub implementations: Vec<String>,
    pub methods: Vec<String>,
    pub fields: Vec<String>,
    /// Each base, derived or implemented type once.
    pub related_types: Vec<String>,
}

/// A reference in an index gathered from a language server.
#[derive(Debug)]
pub struct Reference {
    pub location: String,
    pub kind: String,
}

/// A call edge in an index gathered from a language server.
#[derive(Debug)]
pub struct CallEdge {
    pub from: String,
    pub to: String,
    pub call_site: String,
}

/// An index gathered from a language server: symbols by id, references
/// and definitions by symbol id, call edges and type relations.
#[derive(Debug)]
pub struct EnhancedIndex {
    pub symbols: Vec<(String, Symbol)>,
    pub references: Vec<(String, Vec<Reference>)>,
    pub definitions: Vec<(String, Vec<String>)>,
    pub call_graph: Vec<CallEdge>,
    pub type_relations: Vec<TypeRelations>,
}

impl Default for EnhancedIndex {
    /// An empty index.
    fn default() -> (r: Self)
        ensures
            r.symbols.len() == 0,
            r.references.len() == 0,
            r.definitions.len() == 0,
            r.call_graph.len() == 0,
            r.type_relations.len() == 0,
    {
        EnhancedIndex {
            symbols: Vec::new(),
            references: Vec::new(),
            definitions: Vec::new(),
            call_graph: Vec::new(),
            type_relations: Vec::new(),
        }
    }
}

/// A list of strings as character sequences.
pub open spec fn strs(v: Seq<String>) -> Seq<Seq<char>> {
    v.map_values(|s: String| s@)
}

/// A [`TypeInfo`] as characters.
pub struct TypeInfoView {
    pub symbol_id: Seq<char>,
    pub base_types: Seq<Seq<char>>,
    pub derived_types: Seq<Seq<char>>,
    pub implements: Seq<Seq<char>>,
    pub methods: Seq<Seq<char>>,
    pub fields: Seq<Seq<char>>,
}

impl View for TypeInfo {
    type V = TypeInfoView;

    open spec fn view(&self) -> TypeInfoView {
        TypeInfoView {
            symbol_id: self.symbol_id@,
            base_types: strs(self.base_types@),
            derived_types: strs(self.derived_types@),
            implements: strs(self.implements@),
            methods: strs(self.methods@),
            fields: strs(self.fields@),
        }
    }
}

/// A [`CallInfo`] as characters.
pub struct CallInfoView {
    pub symbol_id: Seq<char>,
    pub calls: Seq<Seq<char>>,
    pub called_by: Seq<Seq<char>>,
    pub depth: nat,
}

impl View for CallInfo {
    type V = CallInfoView;

    open spec fn view(&self) -> CallInfoView {
        CallInfoView { symbol_id: self.symbol_id@, calls: strs(self.calls@), called_by: strs(self.called_by@), depth: self.depth as nat }
    }
}

/// A [`CallNode`] as characters.
pub struct CallNodeView {
    pub symbol_id: Seq<char>,
    pub depth: nat,
    pub symbol: Option<Seq<char>>,
}

impl View for CallNode {
    type V = CallNodeView;

    open spec fn view(&self) -> CallNodeView {
        CallNodeView {
            symbol_id: self.symbol_id@,
            depth: self.depth as nat,
            symbol: match self.symbol {
                Some(s) => Some(s@),
                None => None,
            },
        }
    }
}

/// The key of a type-hierarchy entry.
pub open spec fn type_key() -> spec_fn(TypeInfoView) -> Seq<char> {
    |t: TypeInfoView| t.symbol_id
}

/// The key of a call-graph entry.
pub open spec fn call_key() -> spec_fn(CallInfoView) -> Seq<char> {
    |c: CallInfoView| c.symbol_id
}

/// The key of a file-index entry.
pub open spec fn file_key() -> spec_fn((Seq<char>, Seq<nat>)) -> Seq<char> {
    |e: (Seq<char>, Seq<nat>)| e.0
}

/// Node indices as natural numbers.
pub open spec fn nats(v: Seq<usize>) -> Seq<nat> {
    v.map_values(|x: usize| x as nat)
}

/// A file-index entry as characters and node indices.
pub open spec fn file_entry_view(e: (String, Vec<usize>)) -> (Seq<char>, Seq<nat>) {
    (e.0@, nats(e.1@))
}

/// The nodes whose symbol lies in file `f`, in node order.
pub open spec fn file_nodes(nodes: Seq<Symbol>, f: Seq<char>) -> Seq<nat>
    decreases nodes.len(),
{
    if nodes.len() == 0 {
        Seq::empty()
    } else {
        let before = file_nodes(nodes.drop_last(), f);
        if nodes.last().file_path@ == f {
            before.push((nodes.len() - 1) as nat)
        } else {
            before
        }
    }
}

proof fn lemma_file_nodes_none(nodes: Seq<Symbol>, f: Seq<char>)
    requires
        forall|i: int| 0 <= i < nodes.len() ==> #[trigger] nodes[i].file_path@ != f,
    ensures
        file_nodes(nodes, f) == Seq::<nat>::empty(),
    decreases nodes.len(),
{
    if nodes.len() > 0 {
        let t = nodes.drop_last();
        assert forall|i: int| 0 <= i < t.len() implies #[trigger] t[i].file_path@ != f by {
            assert(t[i] == nodes[i]);
        }
        lemma_file_nodes_none(t, f);
    }
}

proof fn lemma_file_nodes_members(nodes: Seq<Symbol>, f: Seq<char>)
    ensures
        forall|k: int| 0 <= k < file_nodes(nodes, f).len() ==> {
            let n = #[trigger] file_nodes(nodes, f)[k];
            n < nodes.len() && nodes[n as int].file_path@ == f
        },
    decreases nodes.len(),
{
    if nodes.len() > 0 {
        let t = nodes.drop_last();
        lemma_file_nodes_members(t, f);
        assert forall|k: int| 0 <= k < file_nodes(nodes, f).len() implies {
            let n = #[trigger] file_nodes(nodes, f)[k];
            n < nodes.len() && nodes[n as int].file_path@ == f
        } by {
            if k < file_nodes(t, f).len() {
                let n = file_nodes(t, f)[k];
                assert(file_nodes(nodes, f)[k] == n);
                assert(nodes[n as int] == t[n as int]);
            } else {
                assert(nodes.last().file_path@ == f);
                assert(file_nodes(nodes, f) == file_nodes(t, f).push((nodes.len() - 1) as nat));
            }
        }
    }
}

/// The enhanced graph: the symbol graph and the tables built beside it.
#[derive(Debug)]
pub struct EnhancedCodeGraph {
    pub(crate) base: CodeGraph,
    file_symbols: Vec<(String, Vec<usize>)>,
    type_hierarchy: Vec<TypeInfo>,
    call_graph: Vec<CallInfo>,
    usage_count: Vec<(String, usize)>,
}

impl EnhancedCodeGraph {
    /// The symbols, by node index.
    pub closed spec fn nodes(&self) -> Seq<Symbol> {
        self.base.nodes()
    }

    /// The edges `(source, target, kind)`, by edge index.
    pub closed spec fn edges(&self) -> Seq<(nat, nat, EdgeKind)> {
        self.base.edges()
    }

    /// The symbol index: for each id, the node most recently added with it.
    pub closed spec fn index(&self) -> Map<Seq<char>, nat> {
        self.base.index()
    }

    /// How many edges point at a symbol, by symbol id (reset to 0 when a
    /// symbol with that id is added again).
    pub closed spec fn usage(&self) -> Map<Seq<char>, nat> {
        entries_map(self.usage_count@)
    }

    /// The type hierarchy, by type id.
    pub closed spec fn types(&self) -> Map<Seq<char>, TypeInfoView> {
        assoc_map(self.type_views(), type_key())
    }

    /// The call graph, by function id.
    pub closed spec fn calls(&self) -> Map<Seq<char>, CallInfoView> {
        assoc_map(self.call_views(), call_key())
    }

    closed spec fn type_views(&self) -> Seq<TypeInfoView> {
        self.type_hierarchy@.map_values(|t: TypeInfo| t@)
    }

    closed spec fn call_views(&self) -> Seq<CallInfoView> {
        self.call_graph@.map_values(|c: CallInfo| c@)
    }

    closed spec fn file_views(&self) -> Seq<(Seq<char>, Seq<nat>)> {
        self.file_symbols@.map_values(|e: (String, Vec<usize>)| file_entry_view(e))
    }

    /// The tables agree with the graph: the file index lists each file's
    /// nodes in order, usage counts exist exactly for the indexed ids and
    /// never exceed the number of edges, and no table holds a key twice.
    pub closed spec fn wf(&self) -> bool {
        &&& self.base.wf()
        &&& assoc_unique(self.file_views(), file_key())
        &&& forall|j: int| 0 <= j < self.file_symbols.len() ==> nats(#[trigger] self.file_symbols@[j].1@) == file_nodes(self.nodes(), self.file_symbols@[j].0@)
        &&& forall|i: int| 0 <= i < self.nodes().len() ==> assoc_has(self.file_views(), file_key(), #[trigger] self.nodes()[i].file_path@)
        &&& keys_unique(self.usage_count@)
        &&& forall|k: Seq<char>| #[trigger] self.usage().contains_key(k) <==> self.index().contains_key(k)
        &&& forall|k: Seq<char>| #[trigger] self.usage().contains_key(k) ==> self.usage()[k] <= self.edges().len()
        &&& assoc_unique(self.type_views(), type_key())
        &&& assoc_unique(self.call_views(), call_key())
    }

    /// An empty graph with empty tables.
    pub fn new() -> (g: Self)
        ensures
            g.wf(),
            g.nodes() == Seq::<Symbol>::empty(),
            g.edges() == Seq::<(nat, nat, EdgeKind)>::empty(),
            g.index() == Map::<Seq<char>, nat>::empty(),
            g.usage() == Map::<Seq<char>, nat>::empty(),
            g.types() == Map::<Seq<char>, TypeInfoView>::empty(),
            g.calls() == Map::<Seq<char>, CallInfoView>::empty(),
    {
        let g = EnhancedCodeGraph {
            base: CodeGraph::new(),
            file_symbols: Vec::new(),
            type_hierarchy: Vec::new(),
            call_graph: Vec::new(),
            usage_count: Vec::new(),
        };
        proof {
            assert(g.file_views() =~= Seq::<(Seq<char>, Seq<nat>)>::empty());
            assert(g.type_views() =~= Seq::<TypeInfoView>::empty());
            assert(g.call_views() =~= Seq::<CallInfoView>::empty());
            lemma_assoc_empty(type_key());
            lemma_assoc_empty(call_key());
            lemma_entries_map(g.usage_count@);
            assert(g.usage() =~= Map::<Seq<char>, nat>::empty());
        }
        g
    }
}


/// The id a symbol is stored under: its own id when it contains `#`,
/// otherwise `file_path#line:character:name` from its start position.
pub open spec fn normalized_id(s: Symbol) -> Seq<char> {
    if s.id@.contains('#') {
        s.id@
    } else {
        s.file_path@ + seq!['#'] + spec_decimal(s.range.start.line as nat) + seq![':'] + spec_decimal(s.range.start.character as nat)
            + seq![':'] + s.name@
    }
}

/// `b` is `a` with its id replaced by `id`.
pub open spec fn with_id(a: Symbol, b: Symbol, id: Seq<char>) -> bool {
    &&& b.id@ == id
    &&& b.kind == a.kind
    &&& b.name@ == a.name@
    &&& b.file_path@ == a.file_path@
    &&& b.range == a.range
    &&& b.documentation == a.documentation
}

proof fn lemma_file_nodes_push(nodes: Seq<Symbol>, s: Symbol, f: Seq<char>)
    ensures
        file_nodes(nodes.push(s), f) == if s.file_path@ == f {
            file_nodes(nodes, f).push(nodes.len())
        } else {
            file_nodes(nodes, f)
        },
{
    assert(nodes.push(s).drop_last() =~= nodes);
}

proof fn lemma_nats_push(v: Seq<usize>, x: usize)
    ensures
        nats(v.push(x)) == nats(v).push(x as nat),
{
    assert(nats(v.push(x)) =~= nats(v).push(x as nat));
}

impl EnhancedCodeGraph {
    fn file_position(&self, f: &str) -> (r: Option<usize>)
        ensures
            match r {
                Some(j) => j < self.file_symbols.len() && self.file_symbols@[j as int].0@ == f@,
                None => forall|j: int| 0 <= j < self.file_symbols.len() ==> self.file_symbols@[j].0@ != f@,
            },
    {
        let mut j: usize = 0;
        while j < self.file_symbols.len()
            invariant
                j <= self.file_symbols.len(),
                forall|i: int| 0 <= i < j ==> self.file_symbols@[i].0@ != f@,
            decreases self.file_symbols.len() - j,
        {
            if str_eq(self.file_symbols[j].0.as_str(), f) {
                return Some(j);
            }
            j = j + 1;
        }
        None
    }

    fn usage_position(&self, id: &str) -> (r: Option<usize>)
        ensures
            match r {
                Some(j) => j < self.usage_count.len() && self.usage_count@[j as int].0@ == id@,
                None => forall|j: int| 0 <= j < self.usage_count.len() ==> self.usage_count@[j].0@ != id@,
            },
    {
        let mut j: usize = 0;
        while j < self.usage_count.len()
            invariant
                j <= self.usage_count.len(),
                forall|i: int| 0 <= i < j ==> self.usage_count@[i].0@ != id@,
            decreases self.usage_count.len() - j,
        {
            if str_eq(self.usage_count[j].0.as_str(), id) {
                return Some(j);
            }
            j = j + 1;
        }
        None
    }

    /// Adds node `n` to the file index under file `f`.
    fn index_file_node(&mut self, f: String, n: usize, Ghost(nodes): Ghost<Seq<Symbol>>, Ghost(s): Ghost<Symbol>)
        requires
            assoc_unique(old(self).file_views(), file_key()),
            forall|j: int| 0 <= j < old(self).file_symbols.len() ==> nats(#[trigger] old(self).file_symbols@[j].1@) == file_nodes(nodes, old(self).file_symbols@[j].0@),
            forall|i: int| 0 <= i < nodes.len() ==> assoc_has(old(self).file_views(), file_key(), #[trigger] nodes[i].file_path@),
            n == nodes.len(),
            s.file_path@ == f@,
        ensures
            final(self).base == old(self).base,
            final(self).type_hierarchy == old(self).type_hierarchy,
            final(self).call_graph == old(self).call_graph,
            final(self).usage_count == old(self).usage_count,
            assoc_unique(final(self).file_views(), file_key()),
            forall|j: int| 0 <= j < final(self).file_symbols.len() ==> nats(#[trigger] final(self).file_symbols@[j].1@) == file_nodes(nodes.push(s), final(self).file_symbols@[j].0@),
            forall|i: int| 0 <= i < nodes.push(s).len() ==> assoc_has(final(self).file_views(), file_key(), #[trigger] nodes.push(s)[i].file_path@),
    {
        let ghost old_views = self.file_views();
        let ghost old_entries = self.file_symbols@;
        let ghost ns = nodes.push(s);
        match self.file_position(f.as_str()) {
            Some(j) => {
                let (g, mut v) = self.file_symbols.remove(j);
                let ghost old_v = v@;
                v.push(n);
                let e = (g, v);
                proof {
                    lemma_nats_push(old_v, n);
                    lemma_file_nodes_push(nodes, s, f@);
                }
                self.file_symbols.insert(j, e);
                proof {
                    assert(self.file_symbols@ =~= old_entries.update(j as int, e));
                    assert(self.file_views() =~= old_views.update(j as int, file_entry_view(e)));
                    assert(old_views[j as int] == file_entry_view(old_entries[j as int]));
                    lemma_assoc_update(old_views, file_key(), j as int, file_entry_view(e));
                    assert forall|k: int| 0 <= k < self.file_symbols.len() implies nats(#[trigger] self.file_symbols@[k].1@) == file_nodes(ns, self.file_symbols@[k].0@) by {
                        if k != j {
                            assert(self.file_symbols@[k] == old_entries[k]);
                            lemma_file_nodes_push(nodes, s, old_entries[k].0@);
                            assert(old_views[k].0 != old_views[j as int].0);
                        }
                    }
                    assert forall|i: int| 0 <= i < ns.len() implies assoc_has(self.file_views(), file_key(), #[trigger] ns[i].file_path@) by {
                        if i < nodes.len() {
                            assert(ns[i] == nodes[i]);
                            let k = choose|k: int| 0 <= k < old_views.len() && (file_key())(old_views[k]) == nodes[i].file_path@;
                            assert((file_key())(self.file_views()[k]) == nodes[i].file_path@);
                        } else {
                            assert((file_key())(self.file_views()[j as int]) == f@);
                        }
                    }
                }
            },
            None => {
                let mut v: Vec<usize> = Vec::new();
                v.push(n);
                let e = (f, v);
                let ghost fv = e.0@;
                self.file_symbols.push(e);
                proof {
                    assert(self.file_views() =~= old_views.push(file_entry_view(e)));
                    assert forall|i: int| 0 <= i < old_views.len() implies (file_key())(old_views[i]) != (file_key())(file_entry_view(e)) by {
                        assert(old_views[i] == file_entry_view(old_entries[i]));
                    }
                    lemma_assoc_push(old_views, file_key(), file_entry_view(e));
                    // no earlier node lies in this file
                    assert forall|i: int| 0 <= i < nodes.len() implies #[trigger] nodes[i].file_path@ != fv by {
                        if nodes[i].file_path@ == fv {
                            let k = choose|k: int| 0 <= k < old_views.len() && (file_key())(old_views[k]) == nodes[i].file_path@;
                            assert(old_views[k] == file_entry_view(old_entries[k]));
                        }
                    }
                    lemma_file_nodes_none(nodes, fv);
                    lemma_file_nodes_push(nodes, s, fv);
                    assert(nats(v@) =~= seq![n as nat]);
                    assert forall|k: int| 0 <= k < self.file_symbols.len() implies nats(#[trigger] self.file_symbols@[k].1@) == file_nodes(ns, self.file_symbols@[k].0@) by {
                        if k < old_entries.len() {
                            assert(self.file_symbols@[k] == old_entries[k]);
                            lemma_file_nodes_push(nodes, s, old_entries[k].0@);
                            assert(old_views[k] == file_entry_view(old_entries[k]));
                        } else {
                            assert(file_nodes(ns, fv) =~= seq![n as nat]);
                        }
                    }
                    assert forall|i: int| 0 <= i < ns.len() implies assoc_has(self.file_views(), file_key(), #[trigger] ns[i].file_path@) by {
                        if i < nodes.len() {
                            assert(ns[i] == nodes[i]);
                            let k = choose|k: int| 0 <= k < old_views.len() && (file_key())(old_views[k]) == nodes[i].file_path@;
                            assert((file_key())(self.file_views()[k]) == nodes[i].file_path@);
                        } else {
                            assert((file_key())(self.file_views()[old_views.len() as int]) == fv);
                        }
                    }
                }
            },
        }
    }

    /// Adds a symbol, first giving it an id of the form
    /// `file_path#line:character:name` when its id holds no `#` (see
    /// [`normalized_id`]); indexes it under that id and its file, and sets
    /// its usage count to 0. Returns the new node.
    pub fn add_symbol_enhanced(&mut self, symbol: Symbol) -> (r: NodeIndex<usize>)
        requires
            old(self).wf(),
        ensures
            final(self).wf(),
            final(self).nodes().len() == old(self).nodes().len() + 1,
            final(self).nodes().drop_last() == old(self).nodes(),
            with_id(symbol, final(self).nodes().last(), normalized_id(symbol)),
            final(self).edges() == old(self).edges(),
            final(self).index() == old(self).index().insert(normalized_id(symbol), old(self).nodes().len()),
            final(self).usage() == old(self).usage().insert(normalized_id(symbol), 0),
            final(self).types() == old(self).types(),
            final(self).calls() == old(self).calls(),
            node_index_value(r) == old(self).nodes().len(),
    {
        let ghost orig = symbol;
        let mut symbol = symbol;
        if !str_has_char(symbol.id.as_str(), '#') {
            let mut id = String::new();
            push_str(&mut id, symbol.file_path.as_str());
            string_push(&mut id, '#');
            push_decimal(&mut id, symbol.range.start.line as u64);
            string_push(&mut id, ':');
            push_decimal(&mut id, symbol.range.start.character as u64);
            string_push(&mut id, ':');
            push_str(&mut id, symbol.name.as_str());
            symbol.id = id;
            proof { assert(symbol.id@ =~= normalized_id(orig)); }
        }
        let ghost s = symbol;
        let ghost old_nodes = self.nodes();
        let ghost old_usage = self.usage_count@;
        let file = symbol.file_path.clone();
        let id = symbol.id.clone();
        let r = self.base.add_symbol(symbol);
        let n = crate::stable_graph::node_index_get(r);
        proof {
            assert(self.nodes() == old_nodes.push(s));
        }
        self.index_file_node(file, n, Ghost(old_nodes), Ghost(s));
        match self.usage_position(id.as_str()) {
            Some(j) => {
                proof { lemma_entries_map_update(old_usage, j as int, (id, 0usize)); }
                self.usage_count.set(j, (id, 0));
            },
            None => {
                proof { lemma_entries_map_push(old_usage, (id, 0usize)); }
                self.usage_count.push((id, 0));
            },
        }
        proof {
            assert(self.nodes() == old_nodes.push(s));
            assert(self.nodes().drop_last() =~= old_nodes);
            assert(self.usage() == old(self).usage().insert(s.id@, 0));
            assert forall|k: Seq<char>| #[trigger] self.usage().contains_key(k) <==> self.index().contains_key(k) by {
                if k != s.id@ {
                    assert(old(self).usage().contains_key(k) <==> old(self).index().contains_key(k));
                }
            }
            assert forall|k: Seq<char>| #[trigger] self.usage().contains_key(k) implies self.usage()[k] <= self.edges().len() by {
                if k != s.id@ {
                    assert(old(self).usage().contains_key(k));
                }
            }
            assert(self.type_views() == old(self).type_views());
            assert(self.call_views() == old(self).call_views());
        }
        r
    }
}


/// The call-graph entry of `k`, or a fresh empty one.
pub open spec fn call_entry(m: Map<Seq<char>, CallInfoView>, k: Seq<char>) -> CallInfoView {
    if m.contains_key(k) {
        m[k]
    } else {
        CallInfoView { symbol_id: k, calls: Seq::empty(), called_by: Seq::empty(), depth: 0 }
    }
}

/// Records that `from` calls `to`.
pub open spec fn add_call(m: Map<Seq<char>, CallInfoView>, from: Seq<char>, to: Seq<char>) -> Map<Seq<char>, CallInfoView> {
    let c = call_entry(m, from);
    m.insert(from, CallInfoView { symbol_id: c.symbol_id, calls: c.calls.push(to), called_by: c.called_by, depth: c.depth })
}

/// Records that `to` is called by `from`.
pub open spec fn add_caller(m: Map<Seq<char>, CallInfoView>, to: Seq<char>, from: Seq<char>) -> Map<Seq<char>, CallInfoView> {
    let c = call_entry(m, to);
    m.insert(to, CallInfoView { symbol_id: c.symbol_id, calls: c.calls, called_by: c.called_by.push(from), depth: c.depth })
}

/// The call graph after an edge: a `Reference` edge from a function or
/// method records a call from its source to its target, on both sides.
pub open spec fn after_call_edge(m: Map<Seq<char>, CallInfoView>, kind: EdgeKind, from: Symbol, to: Symbol) -> Map<Seq<char>, CallInfoView> {
    if kind == EdgeKind::Reference && (from.kind == SymbolKind::Function || from.kind == SymbolKind::Method) {
        add_caller(add_call(m, from.id@, to.id@), to.id@, from.id@)
    } else {
        m
    }
}

/// The type-hierarchy entry of `k`, or a fresh empty one.
pub open spec fn type_entry(m: Map<Seq<char>, TypeInfoView>, k: Seq<char>) -> TypeInfoView {
    if m.contains_key(k) {
        m[k]
    } else {
        TypeInfoView {
            symbol_id: k,
            base_types: Seq::empty(),
            derived_types: Seq::empty(),
            implements: Seq::empty(),
            methods: Seq::empty(),
            fields: Seq::empty(),
        }
    }
}

/// Appends `v` to list `which` (0: base types, 1: derived types, 2:
/// implemented types) of the entry of `k`.
pub open spec fn add_type_link(m: Map<Seq<char>, TypeInfoView>, k: Seq<char>, which: nat, v: Seq<char>) -> Map<Seq<char>, TypeInfoView> {
    let t = type_entry(m, k);
    m.insert(k, TypeInfoView {
        symbol_id: t.symbol_id,
        base_types: if which == 0 { t.base_types.push(v) } else { t.base_types },
        derived_types: if which == 1 { t.derived_types.push(v) } else { t.derived_types },
        implements: if which == 2 { t.implements.push(v) } else { t.implements },
        methods: t.methods,
        fields: t.fields,
    })
}

/// The type hierarchy after an edge: a `TypeDefinition` edge makes its
/// target a base type of its source (and the source a derived type of the
/// target); an `Implementation` edge records that its source implements
/// its target. Either way the source gets an entry.
pub open spec fn after_type_edge(m: Map<Seq<char>, TypeInfoView>, kind: EdgeKind, from: Seq<char>, to: Seq<char>) -> Map<Seq<char>, TypeInfoView> {
    if kind == EdgeKind::TypeDefinition {
        add_type_link(add_type_link(m, from, 0, to), to, 1, from)
    } else if kind == EdgeKind::Implementation {
        add_type_link(m, from, 2, to)
    } else {
        m
    }
}

/// What an edge between two different symbols does to the type hierarchy
/// (see [`EnhancedCodeGraph::add_edge_enhanced`]): a `TypeDefinition` edge
/// appends the target to the source's base types and the source to the
/// target's derived types; an `Implementation` edge appends the target to
/// the source's implemented types and leaves the target's entry as it was;
/// any other edge changes nothing.
pub proof fn law_type_edge_cases(m: Map<Seq<char>, TypeInfoView>, kind: EdgeKind, from: Seq<char>, to: Seq<char>)
    requires
        from != to,
    ensures
        kind == EdgeKind::TypeDefinition ==> {
            let r = after_type_edge(m, kind, from, to);
            &&& r[from].base_types == type_entry(m, from).base_types.push(to)
            &&& r[from].derived_types == type_entry(m, from).derived_types
            &&& r[from].implements == type_entry(m, from).implements
            &&& r[to].derived_types == type_entry(m, to).derived_types.push(from)
            &&& r[to].base_types == type_entry(m, to).base_types
            &&& r[to].implements == type_entry(m, to).implements
            &&& forall|k: Seq<char>| k != from && k != to ==> (#[trigger] r.contains_key(k) <==> m.contains_key(k)) && (m.contains_key(k) ==> r[k] == m[k])
        },
        kind == EdgeKind::Implementation ==> {
            let r = after_type_edge(m, kind, from, to);
            &&& r[from].implements == type_entry(m, from).implements.push(to)
            &&& r[from].base_types == type_entry(m, from).base_types
            &&& r[from].derived_types == type_entry(m, from).derived_types
            &&& forall|k: Seq<char>| k != from ==> (#[trigger] r.contains_key(k) <==> m.contains_key(k)) && (m.contains_key(k) ==> r[k] == m[k])
        },
        kind != EdgeKind::TypeDefinition && kind != EdgeKind::Implementation ==> after_type_edge(m, kind, from, to) == m,
{
    if kind == EdgeKind::TypeDefinition {
        let m1 = add_type_link(m, from, 0, to);
        assert(type_entry(m1, to) == type_entry(m, to));
    }
}

/// What an edge between two different symbols does to the call graph: a
/// `Reference` edge from a function or method appends the target to the
/// source's callees and the source to the target's callers; any other
/// edge changes nothing.
pub proof fn law_call_edge_cases(m: Map<Seq<char>, CallInfoView>, kind: EdgeKind, from: Symbol, to: Symbol)
    requires
        from.id@ != to.id@,
    ensures
        kind == EdgeKind::Reference && (from.kind == SymbolKind::Function || from.kind == SymbolKind::Method) ==> {
            let r = after_call_edge(m, kind, from, to);
            &&& r[from.id@].calls == call_entry(m, from.id@).calls.push(to.id@)
            &&& r[from.id@].called_by == call_entry(m, from.id@).called_by
            &&& r[to.id@].called_by == call_entry(m, to.id@).called_by.push(from.id@)
            &&& r[to.id@].calls == call_entry(m, to.id@).calls
            &&& forall|k: Seq<char>| k != from.id@ && k != to.id@ ==> (#[trigger] r.contains_key(k) <==> m.contains_key(k)) && (m.contains_key(k) ==> r[k] == m[k])
        },
        !(kind == EdgeKind::Reference && (from.kind == SymbolKind::Function || from.kind == SymbolKind::Method)) ==> after_call_edge(m, kind, from, to) == m,
{
    let m1 = add_call(m, from.id@, to.id@);
    assert(call_entry(m1, to.id@) == call_entry(m, to.id@));
}

impl EnhancedCodeGraph {
    fn call_position(&self, k: &str) -> (r: Option<usize>)
        ensures
            match r {
                Some(j) => j < self.call_graph.len() && self.call_graph@[j as int].symbol_id@ == k@,
                None => forall|j: int| 0 <= j < self.call_graph.len() ==> self.call_graph@[j].symbol_id@ != k@,
            },
    {
        let mut j: usize = 0;
        while j < self.call_graph.len()
            invariant
                j <= self.call_graph.len(),
                forall|i: int| 0 <= i < j ==> self.call_graph@[i].symbol_id@ != k@,
            decreases self.call_graph.len() - j,
        {
            if str_eq(self.call_graph[j].symbol_id.as_str(), k) {
                return Some(j);
            }
            j = j + 1;
        }
        None
    }

    fn type_position(&self, k: &str) -> (r: Option<usize>)
        ensures
            match r {
                Some(j) => j < self.type_hierarchy.len() && self.type_hierarchy@[j as int].symbol_id@ == k@,
                None => forall|j: int| 0 <= j < self.type_hierarchy.len() ==> self.type_hierarchy@[j].symbol_id@ != k@,
            },
    {
        let mut j: usize = 0;
        while j < self.type_hierarchy.len()
            invariant
                j <= self.type_hierarchy.len(),
                forall|i: int| 0 <= i < j ==> self.type_hierarchy@[i].symbol_id@ != k@,
            decreases self.type_hierarchy.len() - j,
        {
            if str_eq(self.type_hierarchy[j].symbol_id.as_str(), k) {
                return Some(j);
            }
            j = j + 1;
        }
        None
    }

    /// Appends `v` to the callees (`callee`) or callers of the entry of `k`.
    fn link_call(&mut self, k: &str, v: String, callee: bool)
        requires
            assoc_unique(old(self).call_views(), call_key()),
        ensures
            assoc_unique(final(self).call_views(), call_key()),
            final(self).calls() == if callee { add_call(old(self).calls(), k@, v@) } else { add_caller(old(self).calls(), k@, v@) },
            final(self).base == old(self).base,
            final(self).file_symbols == old(self).file_symbols,
            final(self).type_hierarchy == old(self).type_hierarchy,
            final(self).usage_count == old(self).usage_count,
    {
        let ghost old_views = self.call_views();
        let ghost old_entries = self.call_graph@;
        match self.call_position(k) {
            Some(j) => {
                let mut c = self.call_graph.remove(j);
                let ghost c0 = c@;
                if callee {
                    c.calls.push(v);
                } else {
                    c.called_by.push(v);
                }
                proof {
                    assert(old_views[j as int] == c0);
                    lemma_assoc_at(old_views, call_key(), j as int);
                    assert(strs(c.calls@) =~= if callee { c0.calls.push(v@) } else { c0.calls });
                    assert(strs(c.called_by@) =~= if callee { c0.called_by } else { c0.called_by.push(v@) });
                }
                self.call_graph.insert(j, c);
                proof {
                    assert(self.call_graph@ =~= old_entries.update(j as int, c));
                    assert(self.call_views() =~= old_views.update(j as int, c@));
                    lemma_assoc_update(old_views, call_key(), j as int, c@);
                    assert(self.calls() =~= if callee { add_call(old(self).calls(), k@, v@) } else { add_caller(old(self).calls(), k@, v@) });
                }
            },
            None => {
                let mut calls: Vec<String> = Vec::new();
                let mut called_by: Vec<String> = Vec::new();
                if callee {
                    calls.push(v);
                } else {
                    called_by.push(v);
                }
                let c = CallInfo { symbol_id: str_to_string(k), calls, called_by, depth: 0 };
                proof {
                    assert forall|i: int| 0 <= i < old_views.len() implies (call_key())(old_views[i]) != (call_key())(c@) by {
                        assert(old_views[i] == old_entries[i]@);
                    }
                    lemma_assoc_absent(old_views, call_key(), k@);
                    assert(strs(c.calls@) =~= if callee { seq![v@] } else { Seq::<Seq<char>>::empty() });
                    assert(strs(c.called_by@) =~= if callee { Seq::<Seq<char>>::empty() } else { seq![v@] });
                    assert(c@ == (CallInfoView { symbol_id: k@, calls: if callee { seq![v@] } else { Seq::<Seq<char>>::empty() }, called_by: if callee { Seq::<Seq<char>>::empty() } else { seq![v@] }, depth: 0 }));
                }
                self.call_graph.push(c);
                proof {
                    assert(self.call_views() =~= old_views.push(c@));
                    lemma_assoc_push(old_views, call_key(), c@);
                    assert(self.calls() =~= if callee { add_call(old(self).calls(), k@, v@) } else { add_caller(old(self).calls(), k@, v@) });
                }
            },
        }
    }

    /// Appends `v` to list `which` of the type entry of `k` (see
    /// [`add_type_link`]).
    fn link_type(&mut self, k: &str, which: u8, v: String)
        requires
            assoc_unique(old(self).type_views(), type_key()),
            which <= 2,
        ensures
            assoc_unique(final(self).type_views(), type_key()),
            final(self).types() == add_type_link(old(self).types(), k@, which as nat, v@),
            final(self).base == old(self).base,
            final(self).file_symbols == old(self).file_symbols,
            final(self).call_graph == old(self).call_graph,
            final(self).usage_count == old(self).usage_count,
    {
        let ghost old_views = self.type_views();
        let ghost old_entries = self.type_hierarchy@;
        match self.type_position(k) {
            Some(j) => {
                let mut t = self.type_hierarchy.remove(j);
                proof {
                    assert(old_views[j as int] == t@);
                    lemma_assoc_at(old_views, type_key(), j as int);
                }
                push_type_link(&mut t, which, v);
                proof {
                    assert(t@ =~= add_type_link(old(self).types(), k@, which as nat, v@)[k@]);
                }
                self.type_hierarchy.insert(j, t);
                proof {
                    assert(self.type_hierarchy@ =~= old_entries.update(j as int, t));
                    assert(self.type_views() =~= old_views.update(j as int, t@));
                    lemma_assoc_update(old_views, type_key(), j as int, t@);
                    assert(self.types() =~= add_type_link(old(self).types(), k@, which as nat, v@));
                }
            },
            None => {
                proof {
                    lemma_assoc_absent(old_views, type_key(), k@);
                }
                let mut t = TypeInfo {
                    symbol_id: str_to_string(k),
                    base_types: Vec::new(),
                    derived_types: Vec::new(),
                    implements: Vec::new(),
                    methods: Vec::new(),
                    fields: Vec::new(),
                };
                proof {
                    assert(t@.base_types =~= Seq::<Seq<char>>::empty());
                    assert(t@.derived_types =~= Seq::<Seq<char>>::empty());
                    assert(t@.implements =~= Seq::<Seq<char>>::empty());
                    assert(t@.methods =~= Seq::<Seq<char>>::empty());
                    assert(t@.fields =~= Seq::<Seq<char>>::empty());
                    assert(t@ == type_entry(old(self).types(), k@));
                }
                push_type_link(&mut t, which, v);
                proof {
                    assert(t@ =~= add_type_link(old(self).types(), k@, which as nat, v@)[k@]);
                    assert forall|i: int| 0 <= i < old_views.len() implies (type_key())(old_views[i]) != (type_key())(t@) by {
                        assert(old_views[i] == old_entries[i]@);
                    }
                }
                self.type_hierarchy.push(t);
                proof {
                    assert(self.type_views() =~= old_views.push(t@));
                    lemma_assoc_push(old_views, type_key(), t@);
                    assert(self.types() =~= add_type_link(old(self).types(), k@, which as nat, v@));
                }
            },
        }
    }
}

fn push_type_link(t: &mut TypeInfo, which: u8, v: String)
    requires
        which <= 2,
    ensures
        final(t)@ == (TypeInfoView {
            symbol_id: old(t)@.symbol_id,
            base_types: if which == 0 { old(t)@.base_types.push(v@) } else { old(t)@.base_types },
            derived_types: if which == 1 { old(t)@.derived_types.push(v@) } else { old(t)@.derived_types },
            implements: if which == 2 { old(t)@.implements.push(v@) } else { old(t)@.implements },
            methods: old(t)@.methods,
            fields: old(t)@.fields,
        }),
{
    let ghost t0 = t@;
    if which == 0 {
        t.base_types.push(v);
    } else if which == 1 {
        t.derived_types.push(v);
    } else {
        t.implements.push(v);
    }
    proof {
        assert(strs(t.base_types@) =~= if which == 0 { t0.base_types.push(v@) } else { t0.base_types });
        assert(strs(t.derived_types@) =~= if which == 1 { t0.derived_types.push(v@) } else { t0.derived_types });
        assert(strs(t.implements@) =~= if which == 2 { t0.implements.push(v@) } else { t0.implements });
    }
}


impl EnhancedCodeGraph {
    /// Adds an edge of kind `kind` from node `from` to node `to` (both must
    /// be nodes) and updates the tables: the target's usage count grows by
    /// one; a `Reference` edge from a function or method is recorded in the
    /// call graph (see [`after_call_edge`]); a `TypeDefinition` or
    /// `Implementation` edge in the type hierarchy (see
    /// [`after_type_edge`]).
    pub fn add_edge_enhanced(&mut self, from: NodeIndex<usize>, to: NodeIndex<usize>, kind: EdgeKind)
        requires
            old(self).wf(),
            node_index_value(from) < old(self).nodes().len(),
            node_index_value(to) < old(self).nodes().len(),
            old(self).edges().len() < usize::MAX,
        ensures
            final(self).wf(),
            final(self).nodes() == old(self).nodes(),
            final(self).edges() == old(self).edges().push((node_index_value(from), node_index_value(to), kind)),
            final(self).index() == old(self).index(),
            ({
                let to_id = old(self).nodes()[node_index_value(to) as int].id@;
                final(self).usage() == old(self).usage().insert(to_id, old(self).usage()[to_id] + 1)
            }),
            final(self).calls() == after_call_edge(
                old(self).calls(),
                kind,
                old(self).nodes()[node_index_value(from) as int],
                old(self).nodes()[node_index_value(to) as int],
            ),
            final(self).types() == after_type_edge(
                old(self).types(),
                kind,
                old(self).nodes()[node_index_value(from) as int].id@,
                old(self).nodes()[node_index_value(to) as int].id@,
            ),
    {
        let a = crate::stable_graph::node_index_get(from);
        let b = crate::stable_graph::node_index_get(to);
        let from_id = self.base.node_at(a).id.clone();
        let from_kind = self.base.node_at(a).kind;
        let to_id = self.base.node_at(b).id.clone();
        let ghost old_usage = self.usage_count@;
        let ghost nodes = self.nodes();
        proof {
            self.base.lemma_index();
            lemma_entries_map(old_usage);
            assert(self.index().contains_key(nodes[b as int].id@));
            assert(to_id@ == nodes[b as int].id@);
            assert(old(self).usage().contains_key(to_id@));
            assert(old(self).usage()[to_id@] <= old(self).edges().len());
        }
        self.base.add_edge(from, to, kind);
        match self.usage_position(to_id.as_str()) {
            Some(j) => {
                let c = self.usage_count[j].1;
                proof {
                    assert(entries_map(old_usage)[old_usage[j as int].0@] == old_usage[j as int].1 as nat);
                    assert(old_usage[j as int].0@ == to_id@);
                    assert(c <= old(self).edges().len());
                    lemma_entries_map_update(old_usage, j as int, (to_id, (c + 1) as usize));
                }
                self.usage_count.set(j, (to_id.clone(), c + 1));
            },
            None => {
                proof {
                    assert(old_usage == self.usage_count@);
                    let i = choose|i: int| 0 <= i < old_usage.len() && old_usage[i].0@ == to_id@;
                    assert(self.usage_count@[i].0@ == to_id@);
                    assert(false);
                }
            },
        }
        let ghost mid_calls = self.calls();
        if kind == EdgeKind::Reference && (from_kind == SymbolKind::Function || from_kind == SymbolKind::Method) {
            self.link_call(from_id.as_str(), to_id.clone(), true);
            self.link_call(to_id.as_str(), from_id.clone(), false);
        }
        if kind == EdgeKind::TypeDefinition {
            self.link_type(from_id.as_str(), 0, to_id.clone());
            self.link_type(to_id.as_str(), 1, from_id.clone());
        } else if kind == EdgeKind::Implementation {
            self.link_type(from_id.as_str(), 2, to_id.clone());
        }
        proof {
            let to_k = nodes[b as int].id@;
            assert(self.usage() == old(self).usage().insert(to_k, old(self).usage()[to_k] + 1));
            assert forall|k: Seq<char>| #[trigger] self.usage().contains_key(k) <==> self.index().contains_key(k) by {
                if k != to_k {
                    assert(old(self).usage().contains_key(k) <==> old(self).index().contains_key(k));
                }
            }
            assert forall|k: Seq<char>| #[trigger] self.usage().contains_key(k) implies self.usage()[k] <= self.edges().len() by {
                if k != to_k {
                    assert(old(self).usage().contains_key(k));
                }
            }
            assert(self.file_views() == old(self).file_views());
        }
    }
}


/// The first index at `from` or later where `s` holds `c`, or the length.
pub open spec fn first_index(s: Seq<char>, c: char, from: int) -> int
    decreases s.len() - from,
{
    if from < 0 || from >= s.len() {
        s.len() as int
    } else if s[from] == c {
        from
    } else {
        first_index(s, c, from + 1)
    }
}

proof fn lemma_first_index(s: Seq<char>, c: char, from: int)
    requires
        0 <= from <= s.len(),
    ensures
        from <= first_index(s, c, from) <= s.len(),
        first_index(s, c, from) < s.len() ==> s[first_index(s, c, from)] == c,
    decreases s.len() - from,
{
    if from < s.len() && s[from] != c {
        lemma_first_index(s, c, from + 1);
    }
}

fn find_char(s: &[char], c: char, from: usize) -> (r: usize)
    requires
        from <= s.len(),
    ensures
        r == first_index(s@, c, from as int),
{
    let mut i = from;
    while i < s.len()
        invariant
            from <= i <= s.len(),
            first_index(s@, c, from as int) == first_index(s@, c, i as int),
        decreases s.len() - i,
    {
        if s[i] == c {
            return i;
        }
        proof { assert(first_index(s@, c, i as int) == first_index(s@, c, i + 1)); }
        i = i + 1;
    }
    i
}

/// A reference position `file#line:column` (the column ends at the next
/// `:` or the end): `None` unless the text has exactly one `#`, a `:` after
/// it, and both numbers parse.
pub open spec fn spec_parse_position(pos: Seq<char>) -> Option<(Seq<char>, u32, u32)> {
    let h = first_index(pos, '#', 0);
    if h >= pos.len() || first_index(pos, '#', h + 1) < pos.len() {
        None
    } else {
        let c1 = first_index(pos, ':', h + 1);
        if c1 >= pos.len() {
            None
        } else {
            let c2 = first_index(pos, ':', c1 + 1);
            let l = spec_parse_u32(pos.subrange(h + 1, c1));
            let c = spec_parse_u32(pos.subrange(c1 + 1, c2));
            if l is Some && c is Some {
                Some((pos.subrange(0, h), l.unwrap(), c.unwrap()))
            } else {
                None
            }
        }
    }
}

/// The first of the nodes `idxs[k..]` whose range contains the position.
pub open spec fn first_containing(nodes: Seq<Symbol>, idxs: Seq<nat>, line: u32, col: u32, k: int) -> Option<nat>
    decreases idxs.len() - k,
{
    if k < 0 || k >= idxs.len() {
        None
    } else if nodes[idxs[k] as int].range.spec_contains(line, col) {
        Some(idxs[k])
    } else {
        first_containing(nodes, idxs, line, col, k + 1)
    }
}

/// The definition at a reference position: the first symbol of the file,
/// in the order they were added, whose range contains the position; then
/// the target of its most recent outgoing `Definition` edge, or the symbol
/// itself when it has none.
pub open spec fn spec_definition_at(nodes: Seq<Symbol>, edges: Seq<(nat, nat, EdgeKind)>, pos: Seq<char>) -> Option<nat> {
    match spec_parse_position(pos) {
        None => None,
        Some((f, line, col)) => match first_containing(nodes, file_nodes(nodes, f), line, col, 0) {
            None => None,
            Some(n) => {
                let out = outgoing_desc(edges, n, EdgeKind::Definition, 0);
                if out.len() > 0 {
                    Some(edges[out[0] as int].1)
                } else {
                    Some(n)
                }
            },
        },
    }
}

proof fn lemma_first_containing(nodes: Seq<Symbol>, idxs: Seq<nat>, line: u32, col: u32, k: int)
    requires
        0 <= k <= idxs.len(),
    ensures
        first_containing(nodes, idxs, line, col, k) is Some
            <==> exists|i: int| k <= i < idxs.len() && #[trigger] nodes[idxs[i] as int].range.spec_contains(line, col),
    decreases idxs.len() - k,
{
    if k < idxs.len() {
        lemma_first_containing(nodes, idxs, line, col, k + 1);
        if exists|i: int| k <= i < idxs.len() && #[trigger] nodes[idxs[i] as int].range.spec_contains(line, col) {
            let i = choose|i: int| k <= i < idxs.len() && #[trigger] nodes[idxs[i] as int].range.spec_contains(line, col);
            if i > k {
                assert(k + 1 <= i);
            }
        }
    }
}

/// Resolving a reference position: nothing is found when the position is
/// not `file#line:column` with one `#` and two numbers; otherwise a symbol
/// is found exactly when some symbol of that file covers the line and
/// column.
pub proof fn law_definition_at_position(nodes: Seq<Symbol>, edges: Seq<(nat, nat, EdgeKind)>, pos: Seq<char>)
    ensures
        spec_parse_position(pos) is None ==> spec_definition_at(nodes, edges, pos) is None,
        spec_parse_position(pos) matches Some((f, line, col)) ==> (spec_definition_at(nodes, edges, pos) is Some
            <==> exists|i: int| 0 <= i < file_nodes(nodes, f).len()
                && #[trigger] nodes[file_nodes(nodes, f)[i] as int].range.spec_contains(line, col)),
{
    if let Some((f, line, col)) = spec_parse_position(pos) {
        lemma_first_containing(nodes, file_nodes(nodes, f), line, col, 0);
    }
}

impl EnhancedCodeGraph {
    /// The symbol indexed under `id`.
    fn get_symbol(&self, id: &str) -> (r: Option<&Symbol>)
        requires
            self.wf(),
        ensures
            match r {
                Some(s) => self.index().contains_key(id@) && *s == self.nodes()[self.index()[id@] as int],
                None => !self.index().contains_key(id@),
            },
    {
        self.base.find_symbol(id)
    }

    /// The number of indexed symbol ids.
    pub fn symbol_count(&self) -> (r: usize)
        requires
            self.wf(),
        ensures
            r == self.index().dom().len(),
    {
        self.base.symbol_count()
    }

    /// Symbols referring to `symbol_id`: the sources of the `Reference`
    /// edges into its node, most recent edge first; empty when the id is not
    /// indexed.
    pub fn find_references_enhanced(&self, symbol_id: &str) -> (r: Vec<&Symbol>)
        requires
            self.wf(),
        ensures
            !self.index().contains_key(symbol_id@) ==> r.len() == 0,
            self.index().contains_key(symbol_id@) ==> {
                let es = crate::graph::incoming_desc(self.edges(), self.index()[symbol_id@], EdgeKind::Reference, 0);
                &&& r.len() == es.len()
                &&& forall|i: int| 0 <= i < r.len() ==> *r@[i] == self.nodes()[self.edges()[es[i] as int].0 as int]
            },
    {
        self.base.find_references(symbol_id)
    }

    /// The definition at a reference position `file#line:column` (see
    /// [`spec_definition_at`]).
    pub fn find_definition_enhanced(&self, reference_pos: &str) -> (r: Option<&Symbol>)
        requires
            self.wf(),
        ensures
            match spec_definition_at(self.nodes(), self.edges(), reference_pos@) {
                Some(i) => r is Some && *r.unwrap() == self.nodes()[i as int],
                None => r is None,
            },
    {
        let p = chars_of(reference_pos);
        let ghost pv = p@;
        let h = find_char(p.as_slice(), '#', 0);
        if h >= p.len() {
            return None;
        }
        if find_char(p.as_slice(), '#', h + 1) < p.len() {
            return None;
        }
        proof { lemma_first_index(pv, ':', h + 1); }
        let c1 = find_char(p.as_slice(), ':', h + 1);
        if c1 >= p.len() {
            return None;
        }
        proof { lemma_first_index(pv, ':', c1 + 1); }
        let c2 = find_char(p.as_slice(), ':', c1 + 1);
        let line = match parse_u32(sub_chars(p.as_slice(), h + 1, c1).as_slice()) {
            Some(l) => l,
            None => return None,
        };
        let column = match parse_u32(sub_chars(p.as_slice(), c1 + 1, c2).as_slice()) {
            Some(c) => c,
            None => return None,
        };
        let file = sub_chars(p.as_slice(), 0, h);
        let file_s = crate::text::string_from_chars(file.as_slice());
        let ghost fv = file_s@;
        proof {
            assert(spec_parse_position(pv) == Some((fv, line, column)));
        }
        let j = match self.file_position(file_s.as_str()) {
            Some(j) => j,
            None => {
                proof {
                    assert forall|i: int| 0 <= i < self.nodes().len() implies #[trigger] self.nodes()[i].file_path@ != fv by {
                        if self.nodes()[i].file_path@ == fv {
                            let views = self.file_views();
                            assert(assoc_has(views, file_key(), self.nodes()[i].file_path@));
                            let k = choose|k: int| 0 <= k < views.len() && (file_key())(views[k]) == self.nodes()[i].file_path@;
                            assert(views[k] == file_entry_view(self.file_symbols@[k]));
                        }
                    }
                    lemma_file_nodes_none(self.nodes(), fv);
                }
                return None;
            },
        };
        let idxs = &self.file_symbols[j].1;
        let ghost fnodes = file_nodes(self.nodes(), fv);
        proof {
            assert(nats(idxs@) == fnodes);
            lemma_file_nodes_members(self.nodes(), fv);
        }
        let mut k: usize = 0;
        while k < idxs.len()
            invariant
                self.wf(),
                k <= idxs.len(),
                nats(idxs@) == fnodes,
                fnodes == file_nodes(self.nodes(), fv),
                forall|m: int| 0 <= m < fnodes.len() ==> #[trigger] fnodes[m] < self.nodes().len(),
                first_containing(self.nodes(), fnodes, line, column, 0) == first_containing(self.nodes(), fnodes, line, column, k as int),
                spec_parse_position(pv) == Some((fv, line, column)),
                pv == reference_pos@,
            decreases idxs.len() - k,
        {
            let n = idxs[k];
            proof {
                assert(fnodes[k as int] == n as nat);
                assert(n < self.nodes().len());
            }
            let s = self.base.node_at(n);
            if s.range.contains(line, column) {
                proof { self.base.lemma_index(); }
                match self.base.first_outgoing(n, EdgeKind::Definition) {
                    Some(t) => {
                        proof {
                            lemma_outgoing_desc_members(self.edges(), n as nat, EdgeKind::Definition, 0);
                            self.base.lemma_edge_ends(outgoing_desc(self.edges(), n as nat, EdgeKind::Definition, 0)[0] as int);
                        }
                        return Some(self.base.node_at(t));
                    },
                    None => {
                        return Some(s);
                    },
                }
            }
            k = k + 1;
        }
        None
    }
}


fn clone_strings(v: &Vec<String>) -> (r: Vec<String>)
    ensures
        strs(r@) == strs(v@),
{
    let mut r: Vec<String> = Vec::new();
    let mut i: usize = 0;
    while i < v.len()
        invariant
            i <= v.len(),
            strs(r@) == strs(v@.subrange(0, i as int)),
        decreases v.len() - i,
    {
        let ghost before = r@;
        let c = v[i].clone();
        proof { assert(c@ == v@[i as int]@); }
        r.push(c);
        proof {
            assert(r@ == before.push(c));
            assert(strs(v@.subrange(0, i + 1)) =~= strs(v@.subrange(0, i as int)).push(v@[i as int]@));
            assert(strs(r@) =~= strs(before).push(c@));
        }
        i = i + 1;
    }
    proof { assert(v@.subrange(0, v.len() as int) =~= v@); }
    r
}

/// Whether the list holds `x`.
fn strings_contain(v: &Vec<String>, x: &str) -> (r: bool)
    ensures
        r == strs(v@).contains(x@),
{
    let mut i: usize = 0;
    while i < v.len()
        invariant
            i <= v.len(),
            forall|k: int| 0 <= k < i ==> v@[k]@ != x@,
        decreases v.len() - i,
    {
        if str_eq(v[i].as_str(), x) {
            proof { assert(strs(v@)[i as int] == x@); }
            return true;
        }
        i = i + 1;
    }
    proof {
        if strs(v@).contains(x@) {
            let k = choose|k: int| 0 <= k < strs(v@).len() && strs(v@)[k] == x@;
            assert(v@[k]@ == x@);
        }
    }
    false
}

proof fn lemma_contains_push(s: Seq<Seq<char>>, y: Seq<char>, x: Seq<char>)
    ensures
        s.push(y).contains(x) <==> (s.contains(x) || x == y),
{
    if s.contains(x) {
        let k = choose|k: int| 0 <= k < s.len() && s[k] == x;
        assert(s.push(y)[k] == x);
    }
    if x == y {
        assert(s.push(y)[s.len() as int] == x);
    }
    if s.push(y).contains(x) {
        let k = choose|k: int| 0 <= k < s.push(y).len() && s.push(y)[k] == x;
        if k < s.len() {
            assert(s[k] == x);
        }
    }
}

/// Appends each string of `from` that `to` does not hold yet.
fn add_missing(to: &mut Vec<String>, from: &Vec<String>)
    requires
        strs(old(to)@).no_duplicates(),
    ensures
        strs(final(to)@).no_duplicates(),
        strs(final(to)@).to_set() == strs(old(to)@).to_set().union(strs(from@).to_set()),
{
    let mut i: usize = 0;
    proof { assert(strs(from@.subrange(0, 0)) =~= Seq::<Seq<char>>::empty()); }
    while i < from.len()
        invariant
            i <= from.len(),
            strs(to@).no_duplicates(),
            forall|x: Seq<char>| strs(to@).contains(x) <==> (strs(old(to)@).contains(x) || strs(from@.subrange(0, i as int)).contains(x)),
        decreases from.len() - i,
    {
        let ghost before = strs(to@);
        let ghost pre = strs(from@.subrange(0, i as int));
        let ghost next = strs(from@.subrange(0, i + 1));
        let ghost y = from@[i as int]@;
        proof { assert(next =~= pre.push(y)); }
        let c = strings_contain(to, from[i].as_str());
        if !c {
            to.push(from[i].clone());
            proof {
                assert(strs(to@) =~= before.push(y));
                assert forall|a: int, b: int| 0 <= a < b < strs(to@).len() implies strs(to@)[a] != strs(to@)[b] by {
                    if b == before.len() {
                        assert(strs(to@)[a] == before[a]);
                    } else {
                        assert(strs(to@)[a] == before[a] && strs(to@)[b] == before[b]);
                    }
                }
            }
        }
        i = i + 1;
        proof {
            assert(strs(from@.subrange(0, i as int)) == next);
            assert forall|x: Seq<char>| strs(to@).contains(x) <==> (strs(old(to)@).contains(x) || strs(from@.subrange(0, i as int)).contains(x)) by {
                lemma_contains_push(pre, y, x);
                if !c {
                    lemma_contains_push(before, y, x);
                }
            }
        }
    }
    proof {
        assert(from@.subrange(0, from.len() as int) =~= from@);
        assert(strs(to@).to_set() =~= strs(old(to)@).to_set().union(strs(from@).to_set()));
    }
}

/// Whether a name marks an entry point for the enhanced dead-code check:
/// `main`, `Main`, ending in `::main`, mentioning `test` or starting with
/// `test_`.
pub open spec fn spec_enhanced_entry_point(name: Seq<char>) -> bool {
    ||| name == "main"@
    ||| name == "Main"@
    ||| has_suffix(name, "::main"@)
    ||| has_substring(name, "test"@)
    ||| has_prefix(name, "test_"@)
}

/// In the enhanced graph's dead-code detection, a symbol whose name holds
/// `test` anywhere, is `main` or `Main`, or ends with `::main` is an entry
/// point and never reported.
pub proof fn law_enhanced_tests_live(name: Seq<char>)
    requires
        has_substring(name, "test"@) || name == "main"@ || name == "Main"@ || has_suffix(name, "::main"@),
    ensures
        spec_enhanced_entry_point(name),
{
}

fn is_entry_point(symbol: &Symbol) -> (r: bool)
    ensures
        r == spec_enhanced_entry_point(symbol.name@),
{
    let n = symbol.name.as_str();
    str_eq(n, "main") || str_eq(n, "Main") || str_ends_with(n, "::main") || str_contains(n, "test") || str_starts_with(n, "test_")
}

impl EnhancedCodeGraph {
    proof fn lemma_usage_in_index(&self)
        requires
            self.wf(),
        ensures
            forall|k: Seq<char>| #[trigger] self.usage().contains_key(k) ==> self.index().contains_key(k),
    {
    }

    /// The relations of a type: its base, derived and implemented types,
    /// methods and fields as the type hierarchy records them (all empty for
    /// a type it does not know), and each base, derived or implemented type
    /// once among the related types.
    pub fn analyze_type_relations(&self, type_id: &str) -> (r: TypeRelations)
        requires
            self.wf(),
        ensures
            r.type_id@ == type_id@,
            strs(r.base_types@) == type_entry(self.types(), type_id@).base_types,
            strs(r.derived_types@) == type_entry(self.types(), type_id@).derived_types,
            strs(r.implementations@) == type_entry(self.types(), type_id@).implements,
            strs(r.methods@) == type_entry(self.types(), type_id@).methods,
            strs(r.fields@) == type_entry(self.types(), type_id@).fields,
            strs(r.related_types@).no_duplicates(),
            forall|x: Seq<char>| strs(r.related_types@).contains(x) <==> {
                let t = type_entry(self.types(), type_id@);
                t.base_types.contains(x) || t.derived_types.contains(x) || t.implements.contains(x)
            },
    {
        match self.type_position(type_id) {
            Some(j) => {
                let info = &self.type_hierarchy[j];
                proof {
                    assert(self.type_views()[j as int] == info@);
                    lemma_assoc_at(self.type_views(), type_key(), j as int);
                }
                let mut related: Vec<String> = Vec::new();
                proof { assert(strs(related@) =~= Seq::<Seq<char>>::empty()); }
                let ghost s0 = strs(related@);
                add_missing(&mut related, &info.base_types);
                add_missing(&mut related, &info.derived_types);
                add_missing(&mut related, &info.implements);
                proof {
                    let t = type_entry(self.types(), type_id@);
                    assert(t == info@);
                    assert(s0.to_set() =~= Set::<Seq<char>>::empty());
                    assert forall|x: Seq<char>| strs(related@).contains(x) <==> (t.base_types.contains(x) || t.derived_types.contains(x) || t.implements.contains(x)) by {
                        assert(strs(related@).contains(x) <==> strs(related@).to_set().contains(x));
                        assert(t.base_types.contains(x) <==> t.base_types.to_set().contains(x));
                        assert(t.derived_types.contains(x) <==> t.derived_types.to_set().contains(x));
                        assert(t.implements.contains(x) <==> t.implements.to_set().contains(x));
                    }
                }
                TypeRelations {
                    type_id: str_to_string(type_id),
                    base_types: clone_strings(&info.base_types),
                    derived_types: clone_strings(&info.derived_types),
                    implementations: clone_strings(&info.implements),
                    methods: clone_strings(&info.methods),
                    fields: clone_strings(&info.fields),
                    related_types: related,
                }
            },
            None => {
                proof {
                    assert forall|i: int| 0 <= i < self.type_views().len() implies (type_key())(self.type_views()[i]) != type_id@ by {
                        assert(self.type_views()[i] == self.type_hierarchy@[i]@);
                    }
                    lemma_assoc_absent(self.type_views(), type_key(), type_id@);
                }
                let r = TypeRelations {
                    type_id: str_to_string(type_id),
                    base_types: Vec::new(),
                    derived_types: Vec::new(),
                    implementations: Vec::new(),
                    methods: Vec::new(),
                    fields: Vec::new(),
                    related_types: Vec::new(),
                };
                proof {
                    assert(strs(r.base_types@) =~= Seq::<Seq<char>>::empty());
                    assert(strs(r.related_types@) =~= Seq::<Seq<char>>::empty());
                }
                r
            },
        }
    }

    /// The id's usage count is 0, and the name of its symbol does not mark
    /// an entry point.
    pub closed spec fn dead_candidate(&self, k: Seq<char>) -> bool {
        &&& self.usage().contains_key(k)
        &&& self.usage()[k] == 0
        &&& self.index().contains_key(k)
        &&& !spec_enhanced_entry_point(self.nodes()[self.index()[k] as int].name@)
    }

    /// Unused symbols: those whose usage count is 0 and whose name does not
    /// mark an entry point (see [`spec_enhanced_entry_point`]), each once,
    /// in no particular order.
    pub fn find_dead_code(&self) -> (r: Vec<&Symbol>)
        requires
            self.wf(),
        ensures
            forall|i: int| 0 <= i < r.len() ==> {
                let k = #[trigger] r@[i].id@;
                &&& self.usage().contains_key(k) && self.usage()[k] == 0
                &&& self.index().contains_key(k) && *r@[i] == self.nodes()[self.index()[k] as int]
                &&& !spec_enhanced_entry_point(r@[i].name@)
            },
            forall|i: int, j: int| 0 <= i < j < r.len() ==> r@[i].id@ != r@[j].id@,
            forall|k: Seq<char>| #[trigger] self.usage().contains_key(k) && self.usage()[k] == 0
                && !spec_enhanced_entry_point(self.nodes()[self.index()[k] as int].name@) ==> exists|i: int| 0 <= i < r.len() && r@[i].id@ == k,
            r@.map_values(|s: &Symbol| s.id@).to_set() == Set::new(|k: Seq<char>| self.dead_candidate(k)),
    {
        proof { self.lemma_usage_in_index(); }
        let ghost us = self.usage_count@;
        proof {
            lemma_entries_map(us);
            self.base.lemma_index();
        }
        let mut r: Vec<&Symbol> = Vec::new();
        let mut j: usize = 0;
        while j < self.usage_count.len()
            invariant
                self.wf(),
                us == self.usage_count@,
                j <= us.len(),
                forall|i: int| 0 <= i < r.len() ==> exists|t: int| 0 <= t < j && #[trigger] r@[i].id@ == us[t].0@,
                forall|i: int| 0 <= i < r.len() ==> {
                    let k = #[trigger] r@[i].id@;
                    &&& self.usage().contains_key(k) && self.usage()[k] == 0
                    &&& self.index().contains_key(k) && *r@[i] == self.nodes()[self.index()[k] as int]
                    &&& !spec_enhanced_entry_point(r@[i].name@)
                },
                forall|a: int, b: int| 0 <= a < b < r.len() ==> r@[a].id@ != r@[b].id@,
                forall|t: int| 0 <= t < j && #[trigger] self.dead_candidate(us[t].0@) ==> exists|i: int| 0 <= i < r.len() && r@[i].id@ == us[t].0@,
            decreases us.len() - j,
        {
            let (id, count) = (&self.usage_count[j].0, self.usage_count[j].1);
            proof {
                lemma_entries_map(us);
                assert(self.usage()[us[j as int].0@] == count);
                self.base.lemma_index();
            }
            let ghost old_r = r@;
            if count == 0 {
                match self.get_symbol(id.as_str()) {
                    Some(s) => {
                        if !is_entry_point(s) {
                            proof {
                                assert(s.id@ == id@);
                                assert forall|a: int| 0 <= a < r.len() implies r@[a].id@ != s.id@ by {
                                    let t = choose|t: int| 0 <= t < j && #[trigger] r@[a].id@ == us[t].0@;
                                    assert(us[t].0@ != us[j as int].0@);
                                }
                            }
                            r.push(s);
                        }
                    },
                    None => {
                        proof { assert(self.usage().contains_key(id@)); }
                    },
                }
            }
            proof {
                assert forall|t: int| 0 <= t < j + 1 && #[trigger] self.dead_candidate(us[t].0@) implies exists|i: int| 0 <= i < r.len() && r@[i].id@ == us[t].0@ by {
                    if t < j {
                        let i = choose|i: int| 0 <= i < old_r.len() && old_r[i].id@ == us[t].0@;
                        assert(r@[i] == old_r[i]);
                    } else {
                        assert(self.usage()[us[t].0@] == us[t].1 as nat);
                        assert(r@[r.len() - 1].id@ == us[t].0@);
                    }
                }
                assert forall|i: int| 0 <= i < r.len() implies exists|t: int| 0 <= t < j + 1 && #[trigger] r@[i].id@ == us[t].0@ by {
                    if i < old_r.len() {
                        assert(r@[i] == old_r[i]);
                        let t = choose|t: int| 0 <= t < j && #[trigger] old_r[i].id@ == us[t].0@;
                    } else {
                        assert(r@[i].id@ == us[j as int].0@);
                    }
                }
            }
            j = j + 1;
        }
        proof {
            assert forall|k: Seq<char>| #[trigger] self.usage().contains_key(k) && self.usage()[k] == 0
                && !spec_enhanced_entry_point(self.nodes()[self.index()[k] as int].name@) implies exists|i: int| 0 <= i < r.len() && r@[i].id@ == k by {
                let t = choose|t: int| 0 <= t < us.len() && us[t].0@ == k;
                assert(self.dead_candidate(us[t].0@));
            }
            let ids = r@.map_values(|s: &Symbol| s.id@);
            assert forall|k: Seq<char>| ids.to_set().contains(k) <==> #[trigger] self.dead_candidate(k) by {
                if ids.to_set().contains(k) {
                    let i = choose|i: int| 0 <= i < ids.len() && ids[i] == k;
                    assert(r@[i].id@ == k);
                }
                if self.dead_candidate(k) {
                    let i = choose|i: int| 0 <= i < r.len() && r@[i].id@ == k;
                    assert(ids[i] == k);
                }
            }
            assert(ids.to_set() =~= Set::new(|k: Seq<char>| self.dead_candidate(k)));
        }
        r
    }
}


/// The state of a breadth-first walk of the call graph: the functions
/// visited, the hierarchy nodes found so far, and the next level's ids.
pub struct HierarchyState {
    pub visited: Set<Seq<char>>,
    pub outgoing: Seq<CallNodeView>,
    pub incoming: Seq<CallNodeView>,
    pub next: Seq<Seq<char>>,
}

/// Call nodes as characters.
pub open spec fn node_views(v: Seq<CallNode>) -> Seq<CallNodeView> {
    v.map_values(|n: CallNode| n@)
}

impl EnhancedCodeGraph {
    /// The hierarchy node for `id` at `depth`, named after the symbol the
    /// index holds for it.
    pub open spec fn call_node(&self, id: Seq<char>, depth: nat) -> CallNodeView {
        CallNodeView {
            symbol_id: id,
            depth,
            symbol: if self.index().contains_key(id) { Some(self.nodes()[self.index()[id] as int].name@) } else { None },
        }
    }

    /// The hierarchy nodes for `ids`, all at `depth`.
    pub open spec fn call_nodes(&self, ids: Seq<Seq<char>>, depth: nat) -> Seq<CallNodeView> {
        Seq::new(ids.len(), |k: int| self.call_node(ids[k], depth))
    }

    /// Walks the ids `frontier[i..]` of one level at distance `depth`: an id
    /// already visited is skipped; otherwise it is marked visited and, when
    /// the call graph knows it, its callees and callers are listed at
    /// `depth + 1` and its callees make up the next level.
    pub open spec fn hierarchy_level(&self, frontier: Seq<Seq<char>>, depth: nat, st: HierarchyState, i: int) -> HierarchyState
        decreases frontier.len() - i,
    {
        if i < 0 || i >= frontier.len() {
            st
        } else {
            let id = frontier[i];
            let st2 = if st.visited.contains(id) {
                st
            } else if self.calls().contains_key(id) {
                let info = self.calls()[id];
                HierarchyState {
                    visited: st.visited.insert(id),
                    outgoing: st.outgoing + self.call_nodes(info.calls, depth + 1),
                    incoming: st.incoming + self.call_nodes(info.called_by, depth + 1),
                    next: st.next + info.calls,
                }
            } else {
                HierarchyState { visited: st.visited.insert(id), outgoing: st.outgoing, incoming: st.incoming, next: st.next }
            };
            self.hierarchy_level(frontier, depth, st2, i + 1)
        }
    }

    /// Walks level after level until `max_depth` is reached or a level is
    /// empty; gives the outgoing and incoming nodes found.
    pub open spec fn hierarchy_levels(
        &self,
        frontier: Seq<Seq<char>>,
        depth: nat,
        max_depth: nat,
        visited: Set<Seq<char>>,
        outgoing: Seq<CallNodeView>,
        incoming: Seq<CallNodeView>,
    ) -> (Seq<CallNodeView>, Seq<CallNodeView>)
        decreases max_depth - depth,
    {
        if depth >= max_depth || frontier.len() == 0 {
            (outgoing, incoming)
        } else {
            let st = self.hierarchy_level(
                frontier,
                depth,
                HierarchyState { visited, outgoing, incoming, next: Seq::empty() },
                0,
            );
            self.hierarchy_levels(st.next, depth + 1, max_depth, st.visited, st.outgoing, st.incoming)
        }
    }

    /// The call hierarchy of `root` up to `max_depth`: a breadth-first walk
    /// of the call graph from it, each function visited once.
    pub open spec fn spec_call_hierarchy(&self, root: Seq<char>, max_depth: nat) -> (Seq<CallNodeView>, Seq<CallNodeView>) {
        self.hierarchy_levels(seq![root], 0, max_depth, Set::empty(), Seq::empty(), Seq::empty())
    }

    fn make_call_node(&self, id: &String, depth: usize) -> (r: CallNode)
        requires
            self.wf(),
        ensures
            r@ == self.call_node(id@, depth as nat),
    {
        let symbol = match self.get_symbol(id.as_str()) {
            Some(s) => Some(s.name.clone()),
            None => None,
        };
        CallNode { symbol_id: id.clone(), depth, symbol }
    }

    fn append_call_nodes(&self, out: &mut Vec<CallNode>, ids: &Vec<String>, depth: usize)
        requires
            self.wf(),
        ensures
            node_views(final(out)@) == node_views(old(out)@) + self.call_nodes(strs(ids@), depth as nat),
    {
        let ghost start = node_views(out@);
        let mut k: usize = 0;
        while k < ids.len()
            invariant
                self.wf(),
                k <= ids.len(),
                node_views(out@) == start + self.call_nodes(strs(ids@.subrange(0, k as int)), depth as nat),
            decreases ids.len() - k,
        {
            let ghost before = out@;
            let n = self.make_call_node(&ids[k], depth);
            out.push(n);
            proof {
                assert(strs(ids@.subrange(0, k + 1)) =~= strs(ids@.subrange(0, k as int)).push(ids@[k as int]@));
                assert(self.call_nodes(strs(ids@.subrange(0, k + 1)), depth as nat) =~= self.call_nodes(strs(ids@.subrange(0, k as int)), depth as nat).push(n@));
                assert(node_views(out@) =~= node_views(before).push(n@));
            }
            k = k + 1;
        }
        proof { assert(ids@.subrange(0, ids.len() as int) =~= ids@); }
    }
}

fn append_strings(out: &mut Vec<String>, ids: &Vec<String>)
    ensures
        strs(final(out)@) == strs(old(out)@) + strs(ids@),
{
    let ghost start = strs(out@);
    let mut k: usize = 0;
    while k < ids.len()
        invariant
            k <= ids.len(),
            strs(out@) == start + strs(ids@.subrange(0, k as int)),
        decreases ids.len() - k,
    {
        let ghost before = out@;
        let c = ids[k].clone();
        out.push(c);
        proof {
            assert(strs(ids@.subrange(0, k + 1)) =~= strs(ids@.subrange(0, k as int)).push(ids@[k as int]@));
            assert(strs(out@) =~= strs(before).push(c@));
        }
        k = k + 1;
    }
    proof { assert(ids@.subrange(0, ids.len() as int) =~= ids@); }
}

impl EnhancedCodeGraph {
    /// The call hierarchy of `function_id` up to `max_depth` levels (see
    /// [`EnhancedCodeGraph::spec_call_hierarchy`]).
    pub fn get_call_hierarchy(&self, function_id: &str, max_depth: usize) -> (r: CallHierarchy)
        requires
            self.wf(),
        ensures
            r.root@ == function_id@,
            (node_views(r.outgoing@), node_views(r.incoming@)) == self.spec_call_hierarchy(function_id@, max_depth as nat),
    {
        let mut outgoing: Vec<CallNode> = Vec::new();
        let mut incoming: Vec<CallNode> = Vec::new();
        let mut visited: Vec<String> = Vec::new();
        let mut frontier: Vec<String> = Vec::new();
        frontier.push(str_to_string(function_id));
        let mut depth: usize = 0;
        proof {
            assert(strs(frontier@) =~= seq![function_id@]);
            assert(strs(visited@).to_set() =~= Set::<Seq<char>>::empty());
            assert(node_views(outgoing@) =~= Seq::<CallNodeView>::empty());
            assert(node_views(incoming@) =~= Seq::<CallNodeView>::empty());
        }
        while depth < max_depth && frontier.len() > 0
            invariant
                self.wf(),
                depth <= max_depth,
                self.hierarchy_levels(strs(frontier@), depth as nat, max_depth as nat, strs(visited@).to_set(), node_views(outgoing@), node_views(incoming@))
                    == self.spec_call_hierarchy(function_id@, max_depth as nat),
            decreases max_depth - depth,
        {
            let ghost fv = strs(frontier@);
            let ghost init = HierarchyState {
                visited: strs(visited@).to_set(),
                outgoing: node_views(outgoing@),
                incoming: node_views(incoming@),
                next: Seq::empty(),
            };
            let mut next: Vec<String> = Vec::new();
            let mut i: usize = 0;
            proof { assert(strs(next@) =~= Seq::<Seq<char>>::empty()); }
            while i < frontier.len()
                invariant
                    self.wf(),
                    depth < max_depth,
                    i <= frontier.len(),
                    fv == strs(frontier@),
                    self.hierarchy_level(fv, depth as nat, init, 0) == self.hierarchy_level(
                        fv,
                        depth as nat,
                        HierarchyState {
                            visited: strs(visited@).to_set(),
                            outgoing: node_views(outgoing@),
                            incoming: node_views(incoming@),
                            next: strs(next@),
                        },
                        i as int,
                    ),
                decreases frontier.len() - i,
            {
                let id = &frontier[i];
                let ghost st = HierarchyState {
                    visited: strs(visited@).to_set(),
                    outgoing: node_views(outgoing@),
                    incoming: node_views(incoming@),
                    next: strs(next@),
                };
                proof {
                    assert(fv[i as int] == id@);
                }
                let seen = strings_contain(&visited, id.as_str());
                proof {
                    assert(seen == st.visited.contains(id@));
                }
                if !seen {
                    let ghost vis0 = visited@;
                    visited.push(id.clone());
                    proof {
                        assert(strs(visited@) =~= strs(vis0).push(id@));
                        strs(vis0).lemma_push_to_set_commute(id@);
                        assert(strs(visited@).to_set() == st.visited.insert(id@));
                    }
                    match self.call_position(id.as_str()) {
                        Some(j) => {
                            let info = &self.call_graph[j];
                            proof {
                                assert(self.call_views()[j as int] == info@);
                                lemma_assoc_at(self.call_views(), call_key(), j as int);
                            }
                            self.append_call_nodes(&mut outgoing, &info.calls, depth + 1);
                            append_strings(&mut next, &info.calls);
                            self.append_call_nodes(&mut incoming, &info.called_by, depth + 1);
                        },
                        None => {
                            proof {
                                assert forall|k: int| 0 <= k < self.call_views().len() implies (call_key())(self.call_views()[k]) != id@ by {
                                    assert(self.call_views()[k] == self.call_graph@[k]@);
                                }
                                lemma_assoc_absent(self.call_views(), call_key(), id@);
                            }
                        },
                    }
                }
                i = i + 1;
            }
            proof {
                let fin = HierarchyState {
                    visited: strs(visited@).to_set(),
                    outgoing: node_views(outgoing@),
                    incoming: node_views(incoming@),
                    next: strs(next@),
                };
                assert(self.hierarchy_level(fv, depth as nat, init, 0) == fin);
            }
            frontier = next;
            depth = depth + 1;
        }
        CallHierarchy { root: str_to_string(function_id), outgoing, incoming }
    }
}


/// Strictly increasing in the order of [`seq_lt`].
pub open spec fn strictly_sorted(v: Seq<Seq<char>>) -> bool {
    forall|i: int, j: int| 0 <= i < j < v.len() ==> seq_lt(#[trigger] v[i], #[trigger] v[j])
}

/// Inserts `x` into a strictly sorted list unless it is there already.
fn insert_sorted(v: &mut Vec<String>, x: &str)
    requires
        strictly_sorted(strs(old(v)@)),
    ensures
        strictly_sorted(strs(final(v)@)),
        strs(final(v)@).to_set() == strs(old(v)@).to_set().insert(x@),
{
    let ghost old_s = strs(v@);
    let mut k: usize = 0;
    while k < v.len() && str_lt(v[k].as_str(), x)
        invariant
            k <= v.len(),
            strs(v@) == old_s,
            forall|m: int| 0 <= m < k ==> seq_lt(#[trigger] old_s[m], x@),
        decreases v.len() - k,
    {
        k = k + 1;
    }
    if k < v.len() && str_eq(v[k].as_str(), x) {
        proof {
            assert(old_s[k as int] == x@);
            assert(old_s.to_set().insert(x@) =~= old_s.to_set());
        }
        return;
    }
    proof {
        if k < v.len() {
            lemma_seq_lt_total(old_s[k as int], x@);
            assert(old_s[k as int] == v@[k as int]@);
        }
    }
    v.insert(k, str_to_string(x));
    proof {
        let n = strs(v@);
        assert(n =~= old_s.insert(k as int, x@));
        assert forall|a: int, b: int| 0 <= a < b < n.len() implies seq_lt(#[trigger] n[a], #[trigger] n[b]) by {
            if b < k {
                assert(n[a] == old_s[a] && n[b] == old_s[b]);
            } else if b == k {
                assert(n[a] == old_s[a]);
            } else if a == k {
                assert(n[b] == old_s[b - 1]);
                if b - 1 > k {
                    assert(seq_lt(old_s[k as int], old_s[b - 1]));
                    lemma_seq_lt_trans(x@, old_s[k as int], old_s[b - 1]);
                }
            } else if a < k {
                assert(n[a] == old_s[a] && n[b] == old_s[b - 1]);
            } else {
                assert(n[a] == old_s[a - 1] && n[b] == old_s[b - 1]);
            }
        }
        assert forall|y: Seq<char>| n.to_set().contains(y) <==> old_s.to_set().insert(x@).contains(y) by {
            if n.contains(y) {
                let i = choose|i: int| 0 <= i < n.len() && n[i] == y;
                if i < k {
                    assert(old_s[i] == y);
                } else if i > k {
                    assert(old_s[i - 1] == y);
                }
            }
            if old_s.contains(y) {
                let i = choose|i: int| 0 <= i < old_s.len() && old_s[i] == y;
                if i < k {
                    assert(n[i] == y);
                } else {
                    assert(n[i + 1] == y);
                }
            }
            if y == x@ {
                assert(n[k as int] == y);
            }
        }
        assert(n.to_set() =~= old_s.to_set().insert(x@));
    }
}

/// A dependency entry as characters: a file and the files it depends on.
pub open spec fn dep_view(e: (String, Vec<String>)) -> (Seq<char>, Seq<Seq<char>>) {
    (e.0@, strs(e.1@))
}

/// The key of a dependency entry.
pub open spec fn dep_key() -> spec_fn((Seq<char>, Seq<Seq<char>>)) -> Seq<char> {
    |e: (Seq<char>, Seq<Seq<char>>)| e.0
}

impl EnhancedCodeGraph {
    /// The file of edge `e`'s source.
    pub open spec fn source_file(&self, e: int) -> Seq<char> {
        self.nodes()[self.edges()[e].0 as int].file_path@
    }

    /// The file of edge `e`'s target.
    pub open spec fn target_file(&self, e: int) -> Seq<char> {
        self.nodes()[self.edges()[e].1 as int].file_path@
    }

    /// Edge `e` joins symbols of two different files.
    pub open spec fn crosses_files(&self, e: int) -> bool {
        0 <= e < self.edges().len() && self.source_file(e) != self.target_file(e)
    }

    /// The files that file `f` depends on through edges below `upto`.
    pub open spec fn dependencies_of(&self, f: Seq<char>, upto: int) -> Set<Seq<char>> {
        Set::new(|x: Seq<char>| exists|e: int| 0 <= e < upto && #[trigger] self.crosses_files(e) && self.source_file(e) == f && self.target_file(e) == x)
    }

    proof fn lemma_dependencies_step(&self, f: Seq<char>, e: int)
        requires
            0 <= e,
        ensures
            self.dependencies_of(f, e + 1) == if self.crosses_files(e) && self.source_file(e) == f {
                self.dependencies_of(f, e).insert(self.target_file(e))
            } else {
                self.dependencies_of(f, e)
            },
    {
        let before = self.dependencies_of(f, e);
        let cross = self.crosses_files(e) && self.source_file(e) == f;
        let want = if cross { before.insert(self.target_file(e)) } else { before };
        assert forall|x: Seq<char>| self.dependencies_of(f, e + 1).contains(x) implies want.contains(x) by {
            let d = choose|d: int| 0 <= d < e + 1 && #[trigger] self.crosses_files(d) && self.source_file(d) == f && self.target_file(d) == x;
            if d < e {
                assert(before.contains(x));
            }
        }
        assert forall|x: Seq<char>| want.contains(x) implies self.dependencies_of(f, e + 1).contains(x) by {
            if before.contains(x) {
                let d = choose|d: int| 0 <= d < e && #[trigger] self.crosses_files(d) && self.source_file(d) == f && self.target_file(d) == x;
                assert(0 <= d < e + 1);
            } else {
                assert(self.crosses_files(e));
            }
        }
        assert(self.dependencies_of(f, e + 1) =~= want);
    }

    /// What the dependency list holds after the edges below `e`.
    pub open spec fn deps_inv(&self, views: Seq<(Seq<char>, Seq<Seq<char>>)>, e: int) -> bool {
        &&& assoc_unique(views, dep_key())
        &&& forall|j: int| 0 <= j < views.len() ==> strictly_sorted(#[trigger] views[j].1)
        &&& forall|j: int| 0 <= j < views.len() ==> (#[trigger] views[j]).1.to_set() == self.dependencies_of(views[j].0, e)
        &&& forall|d: int| 0 <= d < e && #[trigger] self.crosses_files(d) ==> assoc_has(views, dep_key(), self.source_file(d))
    }

    proof fn lemma_deps_skip(&self, views: Seq<(Seq<char>, Seq<Seq<char>>)>, e: int)
        requires
            0 <= e,
            self.deps_inv(views, e),
            !self.crosses_files(e),
        ensures
            self.deps_inv(views, e + 1),
    {
        assert forall|j: int| 0 <= j < views.len() implies (#[trigger] views[j]).1.to_set() == self.dependencies_of(views[j].0, e + 1) by {
            self.lemma_dependencies_step(views[j].0, e);
        }
    }

    proof fn lemma_deps_update(&self, views: Seq<(Seq<char>, Seq<Seq<char>>)>, e: int, j: int, list: Seq<Seq<char>>)
        requires
            0 <= e,
            self.deps_inv(views, e),
            self.crosses_files(e),
            0 <= j < views.len(),
            views[j].0 == self.source_file(e),
            strictly_sorted(list),
            list.to_set() == views[j].1.to_set().insert(self.target_file(e)),
        ensures
            self.deps_inv(views.update(j, (views[j].0, list)), e + 1),
    {
        let f = self.source_file(e);
        let n = views.update(j, (f, list));
        lemma_assoc_update(views, dep_key(), j, (f, list));
        assert forall|k: int| 0 <= k < n.len() implies strictly_sorted(#[trigger] n[k].1) by {
            if k != j {
                assert(n[k] == views[k]);
            }
        }
        assert forall|k: int| 0 <= k < n.len() implies (#[trigger] n[k]).1.to_set() == self.dependencies_of(n[k].0, e + 1) by {
            self.lemma_dependencies_step(n[k].0, e);
            if k != j {
                assert(n[k] == views[k]);
                assert(views[k].0 != views[j].0);
            }
        }
        assert forall|d: int| 0 <= d < e + 1 && #[trigger] self.crosses_files(d) implies assoc_has(n, dep_key(), self.source_file(d)) by {
            if d < e {
                let k = choose|k: int| 0 <= k < views.len() && (dep_key())(views[k]) == self.source_file(d);
                if k == j {
                    assert((dep_key())(n[k]) == self.source_file(d));
                } else {
                    assert(n[k] == views[k]);
                }
            } else {
                assert((dep_key())(n[j]) == self.source_file(d));
            }
        }
    }

    proof fn lemma_deps_push(&self, views: Seq<(Seq<char>, Seq<Seq<char>>)>, e: int)
        requires
            0 <= e,
            self.deps_inv(views, e),
            self.crosses_files(e),
            !assoc_has(views, dep_key(), self.source_file(e)),
        ensures
            self.deps_inv(views.push((self.source_file(e), seq![self.target_file(e)])), e + 1),
    {
        let f = self.source_file(e);
        let t = self.target_file(e);
        let n = views.push((f, seq![t]));
        assert forall|k: int| 0 <= k < views.len() implies (dep_key())(views[k]) != (dep_key())((f, seq![t])) by {}
        lemma_assoc_push(views, dep_key(), (f, seq![t]));
        assert(self.dependencies_of(f, e) =~= Set::<Seq<char>>::empty()) by {
            assert forall|x: Seq<char>| !self.dependencies_of(f, e).contains(x) by {
                if self.dependencies_of(f, e).contains(x) {
                    let d = choose|d: int| 0 <= d < e && #[trigger] self.crosses_files(d) && self.source_file(d) == f && self.target_file(d) == x;
                    assert(assoc_has(views, dep_key(), self.source_file(d)));
                }
            }
        }
        assert forall|k: int| 0 <= k < n.len() implies strictly_sorted(#[trigger] n[k].1) by {
            if k < views.len() {
                assert(n[k] == views[k]);
            }
        }
        assert forall|k: int| 0 <= k < n.len() implies (#[trigger] n[k]).1.to_set() == self.dependencies_of(n[k].0, e + 1) by {
            self.lemma_dependencies_step(n[k].0, e);
            if k < views.len() {
                assert(n[k] == views[k]);
                assert(views[k].0 != f);
            } else {
                assert(seq![t] =~= Seq::<Seq<char>>::empty().push(t));
                Seq::<Seq<char>>::empty().lemma_push_to_set_commute(t);
                assert(Seq::<Seq<char>>::empty().to_set() =~= Set::<Seq<char>>::empty());
                assert(seq![t].to_set() =~= Set::<Seq<char>>::empty().insert(t));
            }
        }
        assert forall|d: int| 0 <= d < e + 1 && #[trigger] self.crosses_files(d) implies assoc_has(n, dep_key(), self.source_file(d)) by {
            if d < e {
                let k = choose|k: int| 0 <= k < views.len() && (dep_key())(views[k]) == self.source_file(d);
                assert(n[k] == views[k]);
            } else {
                assert((dep_key())(n[views.len() as int]) == self.source_file(d));
            }
        }
    }

    /// Dependencies between files: for every file with an edge from one of
    /// its symbols into another file, the files so reached, each once and
    /// in lexicographic order; files appear in the order of their first
    /// such edge.
    pub fn analyze_cross_file_dependencies(&self) -> (r: Vec<(String, Vec<String>)>)
        requires
            self.wf(),
        ensures
            self.deps_inv(r@.map_values(|e: (String, Vec<String>)| dep_view(e)), self.edges().len() as int),
    {
        let total = self.base.edge_total();
        let mut r: Vec<(String, Vec<String>)> = Vec::new();
        let mut e: usize = 0;
        proof {
            assert(r@.map_values(|e: (String, Vec<String>)| dep_view(e)) =~= Seq::<(Seq<char>, Seq<Seq<char>>)>::empty());
        }
        while e < total
            invariant
                self.wf(),
                total == self.edges().len(),
                e <= total,
                self.deps_inv(r@.map_values(|e: (String, Vec<String>)| dep_view(e)), e as int),
            decreases total - e,
        {
            let (a, b, _k) = self.base.edge_at(e);
            proof { self.base.lemma_edge_ends(e as int); }
            let fa = &self.base.node_at(a).file_path;
            let fb = &self.base.node_at(b).file_path;
            let ghost old_r = r@;
            let ghost views = r@.map_values(|e: (String, Vec<String>)| dep_view(e));
            proof {
                assert(fa@ == self.source_file(e as int));
                assert(fb@ == self.target_file(e as int));
            }
            if !str_eq(fa.as_str(), fb.as_str()) {
                let mut j: usize = 0;
                while j < r.len() && !str_eq(r[j].0.as_str(), fa.as_str())
                    invariant
                        j <= r.len(),
                        forall|m: int| 0 <= m < j ==> r@[m].0@ != fa@,
                    decreases r.len() - j,
                {
                    j = j + 1;
                }
                if j < r.len() {
                    let (key, mut list) = r.remove(j);
                    proof {
                        assert(views[j as int] == dep_view((key, list)));
                        assert(views[j as int].0 == self.source_file(e as int));
                    }
                    insert_sorted(&mut list, fb.as_str());
                    let ghost lv = strs(list@);
                    r.insert(j, (key, list));
                    proof {
                        assert(r@.map_values(|e: (String, Vec<String>)| dep_view(e)) =~= views.update(j as int, (views[j as int].0, lv)));
                        self.lemma_deps_update(views, e as int, j as int, lv);
                    }
                } else {
                    let mut list: Vec<String> = Vec::new();
                    list.push(fb.clone());
                    r.push((fa.clone(), list));
                    proof {
                        assert(strs(list@) =~= seq![fb@]);
                        assert(r@.map_values(|e: (String, Vec<String>)| dep_view(e)) =~= views.push((self.source_file(e as int), seq![self.target_file(e as int)])));
                        assert(!assoc_has(views, dep_key(), self.source_file(e as int))) by {
                            if assoc_has(views, dep_key(), self.source_file(e as int)) {
                                let m = choose|m: int| 0 <= m < views.len() && (dep_key())(views[m]) == self.source_file(e as int);
                                assert(views[m] == dep_view(old_r[m]));
                            }
                        }
                        self.lemma_deps_push(views, e as int);
                    }
                }
            } else {
                proof { self.lemma_deps_skip(views, e as int); }
            }
            e = e + 1;
        }
        r
    }
}

impl Default for EnhancedCodeGraph {
    /// An empty graph (see [`EnhancedCodeGraph::new`]).
    fn default() -> (g: Self)
        ensures
            g.wf(),
            g.nodes() == Seq::<Symbol>::empty(),
            g.edges() == Seq::<(nat, nat, EdgeKind)>::empty(),
            g.index() == Map::<Seq<char>, nat>::empty(),
            g.usage() == Map::<Seq<char>, nat>::empty(),
            g.types() == Map::<Seq<char>, TypeInfoView>::empty(),
            g.calls() == Map::<Seq<char>, CallInfoView>::empty(),
    {
        EnhancedCodeGraph::new()
    }
}

/// Every recorded call is recorded on both sides: the callee lists its
/// caller, and every recorded caller lists the callee.
pub open spec fn calls_symmetric(m: Map<Seq<char>, CallInfoView>) -> bool {
    &&& forall|a: Seq<char>, b: Seq<char>|
        m.contains_key(a) && #[trigger] m[a].calls.contains(b) ==> m.contains_key(b) && m[b].called_by.contains(a)
    &&& forall|a: Seq<char>, b: Seq<char>|
        m.contains_key(a) && #[trigger] m[a].called_by.contains(b) ==> m.contains_key(b) && m[b].calls.contains(a)
}

/// `m2` keeps every entry of `m` and every callee and caller listed there.
pub open spec fn calls_grow(m: Map<Seq<char>, CallInfoView>, m2: Map<Seq<char>, CallInfoView>) -> bool {
    forall|k: Seq<char>| #[trigger] m.contains_key(k) ==> m2.contains_key(k)
        && (forall|x: Seq<char>| m[k].calls.contains(x) ==> #[trigger] m2[k].calls.contains(x))
        && (forall|x: Seq<char>| m[k].called_by.contains(x) ==> #[trigger] m2[k].called_by.contains(x))
}

proof fn lemma_contains_push_any<A>(s: Seq<A>, y: A, x: A)
    ensures
        s.push(y).contains(x) <==> (s.contains(x) || x == y),
{
    if s.contains(x) {
        let k = choose|k: int| 0 <= k < s.len() && s[k] == x;
        assert(s.push(y)[k] == x);
    }
    if x == y {
        assert(s.push(y)[s.len() as int] == x);
    }
    if s.push(y).contains(x) {
        let k = choose|k: int| 0 <= k < s.push(y).len() && s.push(y)[k] == x;
        if k < s.len() {
            assert(s[k] == x);
        }
    }
}

proof fn lemma_add_call_grows(m: Map<Seq<char>, CallInfoView>, from: Seq<char>, to: Seq<char>)
    ensures
        calls_grow(m, add_call(m, from, to)),
        add_call(m, from, to).contains_key(from),
        add_call(m, from, to)[from].calls.contains(to),
        forall|k: Seq<char>, x: Seq<char>| add_call(m, from, to).contains_key(k) && #[trigger] add_call(m, from, to)[k].calls.contains(x)
            ==> (m.contains_key(k) && m[k].calls.contains(x)) || (k == from && x == to),
        forall|k: Seq<char>, x: Seq<char>| add_call(m, from, to).contains_key(k) && #[trigger] add_call(m, from, to)[k].called_by.contains(x)
            ==> m.contains_key(k) && m[k].called_by.contains(x),
{
    let m2 = add_call(m, from, to);
    let c = call_entry(m, from);
    lemma_contains_push_any(c.calls, to, to);
    assert forall|k: Seq<char>| #[trigger] m.contains_key(k) implies m2.contains_key(k)
        && (forall|x: Seq<char>| m[k].calls.contains(x) ==> #[trigger] m2[k].calls.contains(x))
        && (forall|x: Seq<char>| m[k].called_by.contains(x) ==> #[trigger] m2[k].called_by.contains(x)) by {
        assert forall|x: Seq<char>| m[k].calls.contains(x) implies #[trigger] m2[k].calls.contains(x) by {
            if k == from {
                lemma_contains_push_any(c.calls, to, x);
            }
        }
    }
    assert forall|k: Seq<char>, x: Seq<char>| m2.contains_key(k) && #[trigger] m2[k].calls.contains(x)
        implies (m.contains_key(k) && m[k].calls.contains(x)) || (k == from && x == to) by {
        if k == from {
            lemma_contains_push_any(c.calls, to, x);
            if x != to {
                assert(c.calls.contains(x));
                assert(m.contains_key(k));
            }
        }
    }
    assert forall|k: Seq<char>, x: Seq<char>| m2.contains_key(k) && #[trigger] m2[k].called_by.contains(x)
        implies m.contains_key(k) && m[k].called_by.contains(x) by {
        if k == from && !m.contains_key(k) {
            assert(c.called_by == Seq::<Seq<char>>::empty());
        }
    }
}

proof fn lemma_add_caller_grows(m: Map<Seq<char>, CallInfoView>, to: Seq<char>, from: Seq<char>)
    ensures
        calls_grow(m, add_caller(m, to, from)),
        add_caller(m, to, from).contains_key(to),
        add_caller(m, to, from)[to].called_by.contains(from),
        forall|k: Seq<char>, x: Seq<char>| add_caller(m, to, from).contains_key(k) && #[trigger] add_caller(m, to, from)[k].called_by.contains(x)
            ==> (m.contains_key(k) && m[k].called_by.contains(x)) || (k == to && x == from),
        forall|k: Seq<char>, x: Seq<char>| add_caller(m, to, from).contains_key(k) && #[trigger] add_caller(m, to, from)[k].calls.contains(x)
            ==> m.contains_key(k) && m[k].calls.contains(x),
{
    let m2 = add_caller(m, to, from);
    let c = call_entry(m, to);
    lemma_contains_push_any(c.called_by, from, from);
    assert forall|k: Seq<char>| #[trigger] m.contains_key(k) implies m2.contains_key(k)
        && (forall|x: Seq<char>| m[k].calls.contains(x) ==> #[trigger] m2[k].calls.contains(x))
        && (forall|x: Seq<char>| m[k].called_by.contains(x) ==> #[trigger] m2[k].called_by.contains(x)) by {
        assert forall|x: Seq<char>| m[k].called_by.contains(x) implies #[trigger] m2[k].called_by.contains(x) by {
            if k == to {
                lemma_contains_push_any(c.called_by, from, x);
            }
        }
    }
    assert forall|k: Seq<char>, x: Seq<char>| m2.contains_key(k) && #[trigger] m2[k].called_by.contains(x)
        implies (m.contains_key(k) && m[k].called_by.contains(x)) || (k == to && x == from) by {
        if k == to {
            lemma_contains_push_any(c.called_by, from, x);
            if x != from {
                assert(c.called_by.contains(x));
                assert(m.contains_key(k));
            }
        }
    }
    assert forall|k: Seq<char>, x: Seq<char>| m2.contains_key(k) && #[trigger] m2[k].calls.contains(x)
        implies m.contains_key(k) && m[k].calls.contains(x) by {
        if k == to && !m.contains_key(k) {
            assert(c.calls == Seq::<Seq<char>>::empty());
        }
    }
}

/// The call graph stays symmetric whatever edge is added: a call recorded
/// from a caller is always recorded at the callee as well, and the other
/// way round.
pub proof fn law_call_edge_keeps_symmetry(m: Map<Seq<char>, CallInfoView>, kind: EdgeKind, from: Symbol, to: Symbol)
    requires
        calls_symmetric(m),
    ensures
        calls_symmetric(after_call_edge(m, kind, from, to)),
{
    if kind == EdgeKind::Reference && (from.kind == SymbolKind::Function || from.kind == SymbolKind::Method) {
        let f = from.id@;
        let t = to.id@;
        let m1 = add_call(m, f, t);
        let m2 = add_caller(m1, t, f);
        lemma_add_call_grows(m, f, t);
        lemma_add_caller_grows(m1, t, f);
        assert forall|a: Seq<char>, b: Seq<char>| m2.contains_key(a) && #[trigger] m2[a].calls.contains(b)
            implies m2.contains_key(b) && m2[b].called_by.contains(a) by {
            assert(m1.contains_key(a) && m1[a].calls.contains(b));
            if !(a == f && b == t) {
                assert(m.contains_key(a) && m[a].calls.contains(b));
                assert(m.contains_key(b) && m[b].called_by.contains(a));
                assert(m1.contains_key(b) && m1[b].called_by.contains(a));
            }
        }
        assert forall|a: Seq<char>, b: Seq<char>| m2.contains_key(a) && #[trigger] m2[a].called_by.contains(b)
            implies m2.contains_key(b) && m2[b].calls.contains(a) by {
            if !(a == t && b == f) {
                assert(m1.contains_key(a) && m1[a].called_by.contains(b));
                assert(m.contains_key(a) && m[a].called_by.contains(b));
                assert(m.contains_key(b) && m[b].calls.contains(a));
                assert(m1.contains_key(b) && m1[b].calls.contains(a));
            } else {
                assert(m1.contains_key(f) && m1[f].calls.contains(t));
            }
        }
    }
}

/// An empty call graph is symmetric.
pub proof fn law_empty_calls_symmetric()
    ensures
        calls_symmetric(Map::<Seq<char>, CallInfoView>::empty()),
{
}

/// The target of an edge just added is in use, so dead-code detection does
/// not report it.
pub proof fn law_edge_target_not_dead(before: EnhancedCodeGraph, after: EnhancedCodeGraph, target: Seq<char>)
    requires
        before.usage().contains_key(target),
        after.usage() == before.usage().insert(target, before.usage()[target] + 1),
    ensures
        !after.dead_candidate(target),
{
}

/// No file depends on itself: only edges between two different files make
/// a dependency.
pub proof fn law_no_self_dependency(g: EnhancedCodeGraph, f: Seq<char>, upto: int)
    ensures
        !g.dependencies_of(f, upto).contains(f),
{
}

proof fn lemma_call_nodes_depth(g: EnhancedCodeGraph, ids: Seq<Seq<char>>, d: nat)
    ensures
        forall|k: int| 0 <= k < g.call_nodes(ids, d).len() ==> (#[trigger] g.call_nodes(ids, d)[k]).depth == d,
{
}

/// All nodes have a depth between 1 and `max`.
pub open spec fn depths_within(v: Seq<CallNodeView>, max: nat) -> bool {
    forall|k: int| 0 <= k < v.len() ==> 1 <= (#[trigger] v[k]).depth <= max
}

proof fn lemma_concat_depths(a: Seq<CallNodeView>, b: Seq<CallNodeView>, max: nat)
    requires
        depths_within(a, max),
        depths_within(b, max),
    ensures
        depths_within(a + b, max),
{
    assert forall|k: int| 0 <= k < (a + b).len() implies 1 <= (#[trigger] (a + b)[k]).depth <= max by {
        if k < a.len() {
            assert((a + b)[k] == a[k]);
        } else {
            assert((a + b)[k] == b[k - a.len()]);
        }
    }
}

proof fn lemma_level_depths(g: EnhancedCodeGraph, frontier: Seq<Seq<char>>, depth: nat, st: HierarchyState, i: int, max: nat)
    requires
        depth + 1 <= max,
        depths_within(st.outgoing, max),
        depths_within(st.incoming, max),
    ensures
        depths_within(g.hierarchy_level(frontier, depth, st, i).outgoing, max),
        depths_within(g.hierarchy_level(frontier, depth, st, i).incoming, max),
    decreases frontier.len() - i,
{
    if 0 <= i < frontier.len() {
        let id = frontier[i];
        if !st.visited.contains(id) && g.calls().contains_key(id) {
            let info = g.calls()[id];
            lemma_call_nodes_depth(g, info.calls, depth + 1);
            lemma_call_nodes_depth(g, info.called_by, depth + 1);
            lemma_concat_depths(st.outgoing, g.call_nodes(info.calls, depth + 1), max);
            lemma_concat_depths(st.incoming, g.call_nodes(info.called_by, depth + 1), max);
        }
        let st2 = if st.visited.contains(id) {
            st
        } else if g.calls().contains_key(id) {
            let info = g.calls()[id];
            HierarchyState {
                visited: st.visited.insert(id),
                outgoing: st.outgoing + g.call_nodes(info.calls, depth + 1),
                incoming: st.incoming + g.call_nodes(info.called_by, depth + 1),
                next: st.next + info.calls,
            }
        } else {
            HierarchyState { visited: st.visited.insert(id), outgoing: st.outgoing, incoming: st.incoming, next: st.next }
        };
        lemma_level_depths(g, frontier, depth, st2, i + 1, max);
    }
}

proof fn lemma_levels_depths(
    g: EnhancedCodeGraph,
    frontier: Seq<Seq<char>>,
    depth: nat,
    max: nat,
    visited: Set<Seq<char>>,
    outgoing: Seq<CallNodeView>,
    incoming: Seq<CallNodeView>,
)
    requires
        depths_within(outgoing, max),
        depths_within(incoming, max),
    ensures
        depths_within(g.hierarchy_levels(frontier, depth, max, visited, outgoing, incoming).0, max),
        depths_within(g.hierarchy_levels(frontier, depth, max, visited, outgoing, incoming).1, max),
    decreases max - depth,
{
    if depth < max && frontier.len() > 0 {
        let init = HierarchyState { visited, outgoing, incoming, next: Seq::empty() };
        lemma_level_depths(g, frontier, depth, init, 0, max);
        let st = g.hierarchy_level(frontier, depth, init, 0);
        lemma_levels_depths(g, st.next, depth + 1, max, st.visited, st.outgoing, st.incoming);
    }
}

/// The nodes come in order of depth, none deeper than `d`.
pub open spec fn depths_ordered(v: Seq<CallNodeView>, d: nat) -> bool {
    &&& forall|i: int, j: int| 0 <= i < j < v.len() ==> (#[trigger] v[i]).depth <= (#[trigger] v[j]).depth
    &&& forall|k: int| 0 <= k < v.len() ==> (#[trigger] v[k]).depth <= d
}

proof fn lemma_append_level(g: EnhancedCodeGraph, a: Seq<CallNodeView>, ids: Seq<Seq<char>>, d: nat)
    requires
        depths_ordered(a, d),
    ensures
        depths_ordered(a + g.call_nodes(ids, d), d),
{
    let b = g.call_nodes(ids, d);
    lemma_call_nodes_depth(g, ids, d);
    let c = a + b;
    assert forall|i: int, j: int| 0 <= i < j < c.len() implies (#[trigger] c[i]).depth <= (#[trigger] c[j]).depth by {
        if j < a.len() {
            assert(c[i] == a[i] && c[j] == a[j]);
        } else if i < a.len() {
            assert(c[i] == a[i] && c[j] == b[j - a.len()]);
        } else {
            assert(c[i] == b[i - a.len()] && c[j] == b[j - a.len()]);
        }
    }
    assert forall|k: int| 0 <= k < c.len() implies (#[trigger] c[k]).depth <= d by {
        if k < a.len() {
            assert(c[k] == a[k]);
        } else {
            assert(c[k] == b[k - a.len()]);
        }
    }
}

proof fn lemma_level_ordered(g: EnhancedCodeGraph, frontier: Seq<Seq<char>>, depth: nat, st: HierarchyState, i: int)
    requires
        depths_ordered(st.outgoing, depth + 1),
        depths_ordered(st.incoming, depth + 1),
    ensures
        depths_ordered(g.hierarchy_level(frontier, depth, st, i).outgoing, depth + 1),
        depths_ordered(g.hierarchy_level(frontier, depth, st, i).incoming, depth + 1),
    decreases frontier.len() - i,
{
    if 0 <= i < frontier.len() {
        let id = frontier[i];
        if !st.visited.contains(id) && g.calls().contains_key(id) {
            let info = g.calls()[id];
            lemma_append_level(g, st.outgoing, info.calls, depth + 1);
            lemma_append_level(g, st.incoming, info.called_by, depth + 1);
        }
        let st2 = if st.visited.contains(id) {
            st
        } else if g.calls().contains_key(id) {
            let info = g.calls()[id];
            HierarchyState {
                visited: st.visited.insert(id),
                outgoing: st.outgoing + g.call_nodes(info.calls, depth + 1),
                incoming: st.incoming + g.call_nodes(info.called_by, depth + 1),
                next: st.next + info.calls,
            }
        } else {
            HierarchyState { visited: st.visited.insert(id), outgoing: st.outgoing, incoming: st.incoming, next: st.next }
        };
        lemma_level_ordered(g, frontier, depth, st2, i + 1);
    }
}

proof fn lemma_levels_ordered(
    g: EnhancedCodeGraph,
    frontier: Seq<Seq<char>>,
    depth: nat,
    max: nat,
    visited: Set<Seq<char>>,
    outgoing: Seq<CallNodeView>,
    incoming: Seq<CallNodeView>,
)
    requires
        depths_ordered(outgoing, depth),
        depths_ordered(incoming, depth),
    ensures
        depths_ordered(g.hierarchy_levels(frontier, depth, max, visited, outgoing, incoming).0, if depth <= max { max } else { depth }),
        depths_ordered(g.hierarchy_levels(frontier, depth, max, visited, outgoing, incoming).1, if depth <= max { max } else { depth }),
    decreases max - depth,
{
    if depth < max && frontier.len() > 0 {
        let init = HierarchyState { visited, outgoing, incoming, next: Seq::empty() };
        lemma_level_ordered(g, frontier, depth, init, 0);
        let st = g.hierarchy_level(frontier, depth, init, 0);
        lemma_levels_ordered(g, st.next, depth + 1, max, st.visited, st.outgoing, st.incoming);
    }
}

/// A call hierarchy is breadth first: its callees, and its callers, come
/// in order of their distance from the root.
pub proof fn law_hierarchy_breadth_first(g: EnhancedCodeGraph, root: Seq<char>, max_depth: nat)
    ensures
        forall|i: int, j: int| 0 <= i < j < g.spec_call_hierarchy(root, max_depth).0.len()
            ==> (#[trigger] g.spec_call_hierarchy(root, max_depth).0[i]).depth <= (#[trigger] g.spec_call_hierarchy(root, max_depth).0[j]).depth,
        forall|i: int, j: int| 0 <= i < j < g.spec_call_hierarchy(root, max_depth).1.len()
            ==> (#[trigger] g.spec_call_hierarchy(root, max_depth).1[i]).depth <= (#[trigger] g.spec_call_hierarchy(root, max_depth).1[j]).depth,
{
    lemma_levels_ordered(g, seq![root], 0, max_depth, Set::empty(), Seq::empty(), Seq::empty());
}

/// Every function in a call hierarchy lies between 1 and `max_depth` calls
/// from the root.
pub proof fn law_hierarchy_depths(g: EnhancedCodeGraph, root: Seq<char>, max_depth: nat)
    ensures
        depths_within(g.spec_call_hierarchy(root, max_depth).0, max_depth),
        depths_within(g.spec_call_hierarchy(root, max_depth).1, max_depth),
{
    lemma_levels_depths(g, seq![root], 0, max_depth, Set::empty(), Seq::empty(), Seq::empty());
}

/// Base and derived types are recorded on both sides: a type listed as a
/// base of another lists that other as derived from it, and the other way
/// round.
pub open spec fn types_symmetric(m: Map<Seq<char>, TypeInfoView>) -> bool {
    &&& forall|a: Seq<char>, b: Seq<char>|
        m.contains_key(a) && #[trigger] m[a].base_types.contains(b) ==> m.contains_key(b) && m[b].derived_types.contains(a)
    &&& forall|a: Seq<char>, b: Seq<char>|
        m.contains_key(a) && #[trigger] m[a].derived_types.contains(b) ==> m.contains_key(b) && m[b].base_types.contains(a)
}

proof fn lemma_add_type_link(m: Map<Seq<char>, TypeInfoView>, k: Seq<char>, which: nat, v: Seq<char>)
    requires
        which <= 2,
    ensures
        ({
            let m2 = add_type_link(m, k, which, v);
            &&& m2.contains_key(k)
            &&& forall|j: Seq<char>| #[trigger] m.contains_key(j) ==> m2.contains_key(j)
            &&& forall|j: Seq<char>| m2.contains_key(j) && !m.contains_key(j) ==> j == k
            &&& forall|j: Seq<char>, x: Seq<char>| m2.contains_key(j) && #[trigger] m2[j].base_types.contains(x)
                <==> (m.contains_key(j) && m[j].base_types.contains(x)) || (which == 0 && j == k && x == v)
            &&& forall|j: Seq<char>, x: Seq<char>| m2.contains_key(j) && #[trigger] m2[j].derived_types.contains(x)
                <==> (m.contains_key(j) && m[j].derived_types.contains(x)) || (which == 1 && j == k && x == v)
        }),
{
    let m2 = add_type_link(m, k, which, v);
    let t = type_entry(m, k);
    assert forall|j: Seq<char>, x: Seq<char>| m2.contains_key(j) && #[trigger] m2[j].base_types.contains(x)
        <==> (m.contains_key(j) && m[j].base_types.contains(x)) || (which == 0 && j == k && x == v) by {
        if j == k {
            lemma_contains_push_any(t.base_types, v, x);
            if !m.contains_key(k) {
                assert(!t.base_types.contains(x));
            }
        }
    }
    assert forall|j: Seq<char>, x: Seq<char>| m2.contains_key(j) && #[trigger] m2[j].derived_types.contains(x)
        <==> (m.contains_key(j) && m[j].derived_types.contains(x)) || (which == 1 && j == k && x == v) by {
        if j == k {
            lemma_contains_push_any(t.derived_types, v, x);
            if !m.contains_key(k) {
                assert(!t.derived_types.contains(x));
            }
        }
    }
}

/// The type hierarchy stays symmetric whatever edge is added.
pub proof fn law_type_edge_keeps_symmetry(m: Map<Seq<char>, TypeInfoView>, kind: EdgeKind, from: Seq<char>, to: Seq<char>)
    requires
        types_symmetric(m),
    ensures
        types_symmetric(after_type_edge(m, kind, from, to)),
{
    if kind == EdgeKind::TypeDefinition {
        let m1 = add_type_link(m, from, 0, to);
        let m2 = add_type_link(m1, to, 1, from);
        lemma_add_type_link(m, from, 0, to);
        lemma_add_type_link(m1, to, 1, from);
        assert forall|a: Seq<char>, b: Seq<char>| m2.contains_key(a) && #[trigger] m2[a].base_types.contains(b)
            implies m2.contains_key(b) && m2[b].derived_types.contains(a) by {
            assert(m1.contains_key(a) && m1[a].base_types.contains(b));
            if !(a == from && b == to) {
                assert(m.contains_key(a) && m[a].base_types.contains(b));
                assert(m1.contains_key(b) && m1[b].derived_types.contains(a));
            }
        }
        assert forall|a: Seq<char>, b: Seq<char>| m2.contains_key(a) && #[trigger] m2[a].derived_types.contains(b)
            implies m2.contains_key(b) && m2[b].base_types.contains(a) by {
            if !(a == to && b == from) {
                assert(m1.contains_key(a) && m1[a].derived_types.contains(b));
                assert(m.contains_key(a) && m[a].derived_types.contains(b));
                assert(m1.contains_key(b) && m1[b].base_types.contains(a));
            } else {
                assert(m1.contains_key(from) && m1[from].base_types.contains(to));
            }
        }
    } else if kind == EdgeKind::Implementation {
        let m2 = add_type_link(m, from, 2, to);
        lemma_add_type_link(m, from, 2, to);
        assert forall|a: Seq<char>, b: Seq<char>| m2.contains_key(a) && #[trigger] m2[a].base_types.contains(b)
            implies m2.contains_key(b) && m2[b].derived_types.contains(a) by {
            assert(m.contains_key(a) && m[a].base_types.contains(b));
        }
        assert forall|a: Seq<char>, b: Seq<char>| m2.contains_key(a) && #[trigger] m2[a].derived_types.contains(b)
            implies m2.contains_key(b) && m2[b].base_types.contains(a) by {
            assert(m.contains_key(a) && m[a].derived_types.contains(b));
        }
    }
}

} // verus!
