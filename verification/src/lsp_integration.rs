//! Filling an [`EnhancedIndex`] from what a language server reports: the
//! document symbols of a file, the references and definitions of its
//! symbols, and the calls into and out of them. The calls to the server are
//! made by the caller; this module decides what each answer adds.
use vstd::prelude::*;

use crate::assoc::{assoc_map, assoc_unique, lemma_assoc_at, lemma_assoc_push, lemma_assoc_update};
use crate::enhanced_graph::{CallEdge, EnhancedIndex, Reference};
use crate::graph::{Position, Symbol, SymbolKind, SymbolView};
use crate::lsp_indexer::{
    child_list, document_symbol_id, flat_symbols, flatten_list, flatten_one, lemma_flat_symbols_list, lemma_flat_symbols_push, opt_view,
    DocumentSymbolData,
};
use crate::text::{push_decimal, push_str, spec_decimal, str_eq, str_to_string, string_push};

verus! {

/// The symbol kind of the graph for a protocol symbol kind: each of the
/// protocol's kinds has the kind of the same name; any other number is
/// `Unknown`.
pub open spec fn spec_lsif_kind(kind: i32) -> SymbolKind {
    if kind == 1 { SymbolKind::File }
    else if kind == 2 { SymbolKind::Module }
    else if kind == 3 { SymbolKind::Namespace }
    else if kind == 4 { SymbolKind::Package }
    else if kind == 5 { SymbolKind::Class }
    else if kind == 6 { SymbolKind::Method }
    else if kind == 7 { SymbolKind::Property }
    else if kind == 8 { SymbolKind::Field }
    else if kind == 9 { SymbolKind::Constructor }
    else if kind == 10 { SymbolKind::Enum }
    else if kind == 11 { SymbolKind::Interface }
    else if kind == 12 { SymbolKind::Function }
    else if kind == 13 { SymbolKind::Variable }
    else if kind == 14 { SymbolKind::Constant }
    else if kind == 15 { SymbolKind::String }
    else if kind == 16 { SymbolKind::Number }
    else if kind == 17 { SymbolKind::Boolean }
    else if kind == 18 { SymbolKind::Array }
    else if kind == 19 { SymbolKind::Object }
    else if kind == 20 { SymbolKind::Key }
    else if kind == 21 { SymbolKind::Null }
    else if kind == 22 { SymbolKind::EnumMember }
    else if kind == 23 { SymbolKind::Struct }
    else if kind == 24 { SymbolKind::Event }
    else if kind == 25 { SymbolKind::Operator }
    else if kind == 26 { SymbolKind::TypeParameter }
    else { SymbolKind::Unknown }
}

/// The symbol kind of the graph for a protocol symbol kind.
pub fn convert_symbol_kind(kind: i32) -> (r: SymbolKind)
    ensures
        r == spec_lsif_kind(kind),
{
    if kind == 1 { SymbolKind::File }
    else if kind == 2 { SymbolKind::Module }
    else if kind == 3 { SymbolKind::Namespace }
    else if kind == 4 { SymbolKind::Package }
    else if kind == 5 { SymbolKind::Class }
    else if kind == 6 { SymbolKind::Method }
    else if kind == 7 { SymbolKind::Property }
    else if kind == 8 { SymbolKind::Field }
    else if kind == 9 { SymbolKind::Constructor }
    else if kind == 10 { SymbolKind::Enum }
    else if kind == 11 { SymbolKind::Interface }
    else if kind == 12 { SymbolKind::Function }
    else if kind == 13 { SymbolKind::Variable }
    else if kind == 14 { SymbolKind::Constant }
    else if kind == 15 { SymbolKind::String }
    else if kind == 16 { SymbolKind::Number }
    else if kind == 17 { SymbolKind::Boolean }
    else if kind == 18 { SymbolKind::Array }
    else if kind == 19 { SymbolKind::Object }
    else if kind == 20 { SymbolKind::Key }
    else if kind == 21 { SymbolKind::Null }
    else if kind == 22 { SymbolKind::EnumMember }
    else if kind == 23 { SymbolKind::Struct }
    else if kind == 24 { SymbolKind::Event }
    else if kind == 25 { SymbolKind::Operator }
    else if kind == 26 { SymbolKind::TypeParameter }
    else { SymbolKind::Unknown }
}

/// The symbol made of `d` in the file of path `path`: its id and range come
/// from its selection range.
pub open spec fn integration_symbol(path: Seq<char>, d: DocumentSymbolData) -> SymbolView {
    SymbolView {
        id: document_symbol_id(path, d.selection_range.start.line, d.name@),
        kind: spec_lsif_kind(d.kind),
        name: d.name@,
        file_path: path,
        range: d.selection_range,
        documentation: opt_view(d.detail),
    }
}

/// The key of a symbol entry: its id.
pub open spec fn symbol_key() -> spec_fn((String, Symbol)) -> Seq<char> {
    |e: (String, Symbol)| e.0@
}

/// The symbols of an index as a map from id to symbol.
pub open spec fn symbol_table(s: Seq<(String, Symbol)>) -> Map<Seq<char>, SymbolView> {
    assoc_map(s, symbol_key()).map_values(|e: (String, Symbol)| e.1@)
}

/// `m` after each of `vs` is put under its id, in order.
pub open spec fn inserted_all(m: Map<Seq<char>, SymbolView>, vs: Seq<SymbolView>) -> Map<Seq<char>, SymbolView>
    decreases vs.len(),
{
    if vs.len() == 0 {
        m
    } else {
        inserted_all(m, vs.drop_last()).insert(vs.last().id, vs.last())
    }
}

pub proof fn lemma_inserted_all_concat(m: Map<Seq<char>, SymbolView>, a: Seq<SymbolView>, b: Seq<SymbolView>)
    ensures
        inserted_all(inserted_all(m, a), b) == inserted_all(m, a + b),
    decreases b.len(),
{
    if b.len() == 0 {
        assert(a + b =~= a);
    } else {
        lemma_inserted_all_concat(m, a, b.drop_last());
        assert((a + b).drop_last() =~= a + b.drop_last());
        assert((a + b).last() == b.last());
    }
}

/// A path and a position in it.
pub struct SourcePosition {
    pub path: String,
    pub line: u32,
    pub character: u32,
}

/// A place written `path:line:character`, with line and character counted
/// from one.
pub open spec fn spec_location_id(path: Seq<char>, line: u32, character: u32) -> Seq<char> {
    path + seq![':'] + spec_decimal(line as nat + 1) + seq![':'] + spec_decimal(character as nat + 1)
}

/// A place written `path:line:character`, with line and character counted
/// from one.
pub fn location_id(path: &str, line: u32, character: u32) -> (r: String)
    requires
        line < u32::MAX,
        character < u32::MAX,
    ensures
        r@ == spec_location_id(path@, line, character),
{
    let mut r = String::new();
    push_str(&mut r, path);
    string_push(&mut r, ':');
    push_decimal(&mut r, (line + 1) as u64);
    string_push(&mut r, ':');
    push_decimal(&mut r, (character + 1) as u64);
    proof {
        assert(r@ =~= spec_location_id(path@, line, character));
    }
    r
}

/// The id `path#line:name` of a document symbol.
fn symbol_id_of(path: &str, line: u32, name: &str) -> (r: String)
    ensures
        r@ == document_symbol_id(path@, line, name@),
{
    let mut r = String::new();
    push_str(&mut r, path);
    string_push(&mut r, '#');
    push_decimal(&mut r, line as u64);
    string_push(&mut r, ':');
    push_str(&mut r, name);
    proof {
        assert(r@ =~= document_symbol_id(path@, line, name@));
    }
    r
}

/// Puts `sym` under `id` in the symbol list, replacing an entry of that id.
fn put_symbol(symbols: &mut Vec<(String, Symbol)>, id: String, sym: Symbol)
    requires
        assoc_unique(old(symbols)@, symbol_key()),
    ensures
        assoc_unique(final(symbols)@, symbol_key()),
        assoc_map(final(symbols)@, symbol_key()) == assoc_map(old(symbols)@, symbol_key()).insert(id@, (id, sym)),
{
    let ghost entry = (id, sym);
    let mut j: usize = 0;
    let mut pos: Option<usize> = None;
    while j < symbols.len()
        invariant
            j <= symbols.len(),
            entry.0@ == id@,
            pos matches Some(p) ==> p < symbols.len() && symbols@[p as int].0@ == id@,
            pos is None ==> forall|k: int| 0 <= k < j ==> symbols@[k].0@ != id@,
        decreases symbols.len() - j,
    {
        if pos.is_none() && str_eq(symbols[j].0.as_str(), id.as_str()) {
            pos = Some(j);
        }
        j = j + 1;
    }
    let ghost before = symbols@;
    match pos {
        Some(p) => {
            proof { lemma_assoc_update(before, symbol_key(), p as int, entry); }
            symbols.set(p, (id, sym));
        },
        None => {
            proof { lemma_assoc_push(before, symbol_key(), entry); }
            symbols.push((id, sym));
        },
    }
}

/// Puts the symbol made of `d` in the file `path`, and then those of its
/// descendants in preorder, into the index's symbols under their ids;
/// returns the id of `d`.
pub fn process_symbol(path: &str, d: &DocumentSymbolData, index: &mut EnhancedIndex) -> (r: String)
    requires
        assoc_unique(old(index).symbols@, symbol_key()),
    ensures
        assoc_unique(final(index).symbols@, symbol_key()),
        symbol_table(final(index).symbols@) == inserted_all(
            symbol_table(old(index).symbols@),
            flat_symbols(flatten_one(*d, None, 0), |x: DocumentSymbolData| integration_symbol(path@, x)),
        ),
        r@ == integration_symbol(path@, *d).id,
        final(index).references == old(index).references,
        final(index).definitions == old(index).definitions,
        final(index).call_graph == old(index).call_graph,
        final(index).type_relations == old(index).type_relations,
    decreases *d,
{
    let ghost make = |x: DocumentSymbolData| integration_symbol(path@, x);
    let ghost t0 = symbol_table(index.symbols@);
    let symbol_id = symbol_id_of(path, d.selection_range.start.line, d.name.as_str());
    let documentation = match &d.detail {
        Some(s) => Some(s.clone()),
        None => None,
    };
    let sym = Symbol {
        id: symbol_id.clone(),
        name: d.name.clone(),
        kind: convert_symbol_kind(d.kind),
        file_path: str_to_string(path),
        range: d.selection_range,
        documentation,
    };
    let ghost sym_view = sym@;
    assert(sym_view == make(*d));
    let ghost before = index.symbols@;
    put_symbol(&mut index.symbols, symbol_id.clone(), sym);
    let ghost head = seq![sym_view];
    proof {
        assert(symbol_table(index.symbols@) =~= t0.insert(sym_view.id, sym_view));
        assert(head.drop_last() =~= Seq::<SymbolView>::empty());
        assert(inserted_all(t0, head.drop_last()) == t0);
        assert(head.last() == sym_view);
        assert(inserted_all(t0, head) == t0.insert(sym_view.id, sym_view));
    }
    let ghost cl = child_list(*d);
    match &d.children {
        Some(c) => {
            let mut j: usize = 0;
            assert(c@.take(0) =~= Seq::<DocumentSymbolData>::empty());
            assert(head + flat_symbols(flatten_list(c@.take(0), Some(0), 1), make) =~= head);
            while j < c.len()
                invariant
                    j <= c.len(),
                    d.children == Some(*c),
                    make == (|x: DocumentSymbolData| integration_symbol(path@, x)),
                    assoc_unique(index.symbols@, symbol_key()),
                    symbol_table(index.symbols@) == inserted_all(t0, head + flat_symbols(flatten_list(c@.take(j as int), Some(0), 1), make)),
                    index.references == old(index).references,
                    index.definitions == old(index).definitions,
                    index.call_graph == old(index).call_graph,
                    index.type_relations == old(index).type_relations,
                decreases c.len() - j,
            {
                let ghost prior = head + flat_symbols(flatten_list(c@.take(j as int), Some(0), 1), make);
                proof {
                    vstd::std_specs::vec::axiom_vec_index_decreases(*c, j as int);
                    assert(decreases_to!(*d => d.children));
                    assert(decreases_to!(d.children => d.children->0));
                    assert(decreases_to!(*d => *c));
                }
                let _child_id = process_symbol(path, &c[j], index);
                proof {
                    let added = flat_symbols(flatten_one(c@[j as int], None, 0), make);
                    lemma_flat_symbols_push(c@, j as int, Some(0), 1, make);
                    lemma_inserted_all_concat(t0, prior, added);
                    assert(prior + added =~= head + flat_symbols(flatten_list(c@.take(j + 1), Some(0), 1), make));
                }
                j = j + 1;
            }
            proof {
                assert(c@.take(c@.len() as int) =~= c@);
                assert(cl == c@);
            }
        },
        None => {
            proof {
                assert(cl =~= Seq::<DocumentSymbolData>::empty());
                assert(head + flat_symbols(flatten_list(cl, Some(0), 1), make) =~= head);
            }
        },
    }
    proof {
        let all = flat_symbols(flatten_one(*d, None, 0), make);
        lemma_flat_symbols_list(cl, Some(0), 1, Some(0), 1, make);
        assert(all =~= head + flat_symbols(flatten_list(cl, Some(0), 1), make));
    }
    symbol_id
}

/// The key of an entry keyed by a symbol id.
pub open spec fn ref_key() -> spec_fn((String, Vec<Reference>)) -> Seq<char> {
    |e: (String, Vec<Reference>)| e.0@
}

/// The key of a definition entry.
pub open spec fn def_key() -> spec_fn((String, Vec<String>)) -> Seq<char> {
    |e: (String, Vec<String>)| e.0@
}

/// A reference as `(location, kind)`.
pub open spec fn reference_view(r: Reference) -> (Seq<char>, Seq<char>) {
    (r.location@, r.kind@)
}

/// The references of an index as a map from symbol id to its references.
pub open spec fn reference_table(s: Seq<(String, Vec<Reference>)>) -> Map<Seq<char>, Seq<(Seq<char>, Seq<char>)>> {
    assoc_map(s, ref_key()).map_values(|e: (String, Vec<Reference>)| e.1@.map_values(|r: Reference| reference_view(r)))
}

/// The definitions of an index as a map from symbol id to its definition
/// places.
pub open spec fn definition_table(s: Seq<(String, Vec<String>)>) -> Map<Seq<char>, Seq<Seq<char>>> {
    assoc_map(s, def_key()).map_values(|e: (String, Vec<String>)| e.1@.map_values(|d: String| d@))
}

/// The places of `ps`, written `path:line:character`.
pub open spec fn location_ids(ps: Seq<SourcePosition>) -> Seq<Seq<char>> {
    ps.map_values(|p: SourcePosition| spec_location_id(p.path@, p.line, p.character))
}

/// The list under `k` in `m`, or none.
pub open spec fn listed<T>(m: Map<Seq<char>, Seq<T>>, k: Seq<char>) -> Seq<T> {
    if m.contains_key(k) {
        m[k]
    } else {
        Seq::empty()
    }
}

/// Every position of `ps` can be counted from one within `u32`.
pub open spec fn positions_fit(ps: Seq<SourcePosition>) -> bool {
    forall|i: int| 0 <= i < ps.len() ==> (#[trigger] ps[i]).line < u32::MAX && ps[i].character < u32::MAX
}

/// Appends to the references of `symbol_id` a reference of kind
/// `reference` at each of `references`, in order; with no reference the
/// index is unchanged.
pub fn record_references(index: &mut EnhancedIndex, symbol_id: &str, references: &Vec<SourcePosition>)
    requires
        assoc_unique(old(index).references@, ref_key()),
        positions_fit(references@),
    ensures
        assoc_unique(final(index).references@, ref_key()),
        reference_table(final(index).references@) == if references.len() == 0 {
            reference_table(old(index).references@)
        } else {
            reference_table(old(index).references@).insert(
                symbol_id@,
                listed(reference_table(old(index).references@), symbol_id@)
                    + location_ids(references@).map_values(|l: Seq<char>| (l, "reference"@)),
            )
        },
        final(index).symbols == old(index).symbols,
        final(index).definitions == old(index).definitions,
        final(index).call_graph == old(index).call_graph,
        final(index).type_relations == old(index).type_relations,
{
    if references.len() == 0 {
        return;
    }
    let ghost table = reference_table(index.references@);
    let ghost key = symbol_id@;
    let mut j: usize = 0;
    let mut pos: Option<usize> = None;
    while j < index.references.len()
        invariant
            j <= index.references.len(),
            key == symbol_id@,
            pos matches Some(p) ==> p < index.references.len() && index.references@[p as int].0@ == key,
            pos is None ==> forall|k: int| 0 <= k < j ==> index.references@[k].0@ != key,
        decreases index.references.len() - j,
    {
        if pos.is_none() && str_eq(index.references[j].0.as_str(), symbol_id) {
            pos = Some(j);
        }
        j = j + 1;
    }
    let (name, mut list) = match pos {
        Some(p) => {
            proof { lemma_assoc_at(index.references@, ref_key(), p as int); }
            index.references.remove(p)
        },
        None => (str_to_string(symbol_id), Vec::new()),
    };
    let ghost start = list@.map_values(|r: Reference| reference_view(r));
    assert(start == listed(table, key)) by {
        if pos is None {
            assert(!assoc_map(old(index).references@, ref_key()).contains_key(key));
            assert(start =~= Seq::<(Seq<char>, Seq<char>)>::empty());
        }
    }
    let mut i: usize = 0;
    assert(start + location_ids(references@.take(0)).map_values(|l: Seq<char>| (l, "reference"@)) =~= start);
    while i < references.len()
        invariant
            i <= references.len(),
            positions_fit(references@),
            list@.map_values(|r: Reference| reference_view(r)) == start + location_ids(references@.take(i as int)).map_values(|l: Seq<char>| (l, "reference"@)),
        decreases references.len() - i,
    {
        let p = &references[i];
        let location = location_id(p.path.as_str(), p.line, p.character);
        let ghost prev = list@;
        let kind = str_to_string("reference");
        let r = Reference { location, kind };
        let ghost rv = reference_view(r);
        assert(rv == (spec_location_id(p.path@, p.line, p.character), "reference"@));
        list.push(r);
        proof {
            assert(list@.map_values(|r: Reference| reference_view(r)) =~= prev.map_values(|r: Reference| reference_view(r)).push(rv));
            assert(location_ids(references@.take(i + 1)) =~= location_ids(references@.take(i as int)).push(spec_location_id(p.path@, p.line, p.character)));
            assert(list@.map_values(|r: Reference| reference_view(r)) =~= start + location_ids(references@.take(i + 1)).map_values(|l: Seq<char>| (l, "reference"@)));
        }
        i = i + 1;
    }
    assert(references@.take(references.len() as int) =~= references@);
    let ghost entry = (name, list);
    match pos {
        Some(p) => {
            let ghost removed = index.references@;
            index.references.insert(p, (name, list));
            proof {
                assert(index.references@ =~= old(index).references@.update(p as int, entry));
                lemma_assoc_update(old(index).references@, ref_key(), p as int, entry);
            }
        },
        None => {
            index.references.push((name, list));
            proof {
                lemma_assoc_push(old(index).references@, ref_key(), entry);
            }
        },
    }
    proof {
        assert(reference_table(index.references@) =~= table.insert(key, listed(table, key)
            + location_ids(references@).map_values(|l: Seq<char>| (l, "reference"@))));
    }
}

/// Appends to the definitions of `symbol_id` each of `definitions`, written
/// `path:line:character`, in order; with no definition the index is
/// unchanged.
pub fn record_definitions(index: &mut EnhancedIndex, symbol_id: &str, definitions: &Vec<SourcePosition>)
    requires
        assoc_unique(old(index).definitions@, def_key()),
        positions_fit(definitions@),
    ensures
        assoc_unique(final(index).definitions@, def_key()),
        definition_table(final(index).definitions@) == if definitions.len() == 0 {
            definition_table(old(index).definitions@)
        } else {
            definition_table(old(index).definitions@).insert(
                symbol_id@,
                listed(definition_table(old(index).definitions@), symbol_id@) + location_ids(definitions@),
            )
        },
        final(index).symbols == old(index).symbols,
        final(index).references == old(index).references,
        final(index).call_graph == old(index).call_graph,
        final(index).type_relations == old(index).type_relations,
{
    if definitions.len() == 0 {
        return;
    }
    let ghost table = definition_table(index.definitions@);
    let ghost key = symbol_id@;
    let mut j: usize = 0;
    let mut pos: Option<usize> = None;
    while j < index.definitions.len()
        invariant
            j <= index.definitions.len(),
            key == symbol_id@,
            pos matches Some(p) ==> p < index.definitions.len() && index.definitions@[p as int].0@ == key,
            pos is None ==> forall|k: int| 0 <= k < j ==> index.definitions@[k].0@ != key,
        decreases index.definitions.len() - j,
    {
        if pos.is_none() && str_eq(index.definitions[j].0.as_str(), symbol_id) {
            pos = Some(j);
        }
        j = j + 1;
    }
    let (name, mut list) = match pos {
        Some(p) => {
            proof { lemma_assoc_at(index.definitions@, def_key(), p as int); }
            index.definitions.remove(p)
        },
        None => (str_to_string(symbol_id), Vec::new()),
    };
    let ghost start = list@.map_values(|d: String| d@);
    assert(start == listed(table, key)) by {
        if pos is None {
            assert(!assoc_map(old(index).definitions@, def_key()).contains_key(key));
            assert(start =~= Seq::<Seq<char>>::empty());
        }
    }
    let mut i: usize = 0;
    assert(start + location_ids(definitions@.take(0)) =~= start);
    while i < definitions.len()
        invariant
            i <= definitions.len(),
            positions_fit(definitions@),
            list@.map_values(|d: String| d@) == start + location_ids(definitions@.take(i as int)),
        decreases definitions.len() - i,
    {
        let p = &definitions[i];
        let location = location_id(p.path.as_str(), p.line, p.character);
        let ghost prev = list@;
        let ghost lv = location@;
        list.push(location);
        proof {
            assert(list@.map_values(|d: String| d@) =~= prev.map_values(|d: String| d@).push(lv));
            assert(location_ids(definitions@.take(i + 1)) =~= location_ids(definitions@.take(i as int)).push(spec_location_id(p.path@, p.line, p.character)));
        }
        i = i + 1;
    }
    assert(definitions@.take(definitions.len() as int) =~= definitions@);
    let ghost entry = (name, list);
    match pos {
        Some(p) => {
            index.definitions.insert(p, (name, list));
            proof {
                assert(index.definitions@ =~= old(index).definitions@.update(p as int, entry));
                lemma_assoc_update(old(index).definitions@, def_key(), p as int, entry);
            }
        },
        None => {
            index.definitions.push((name, list));
            proof {
                lemma_assoc_push(old(index).definitions@, def_key(), entry);
            }
        },
    }
    proof {
        assert(definition_table(index.definitions@) =~= table.insert(key, listed(table, key) + location_ids(definitions@)));
    }
}

/// A call found by a language server's call hierarchy: the path, line and
/// name of the function at the other end, and where the call is made.
pub struct CallData {
    pub path: String,
    pub line: u32,
    pub name: String,
    pub site: Position,
}

/// A call edge as `(from, to, call site)`.
pub open spec fn call_edge_view(e: CallEdge) -> (Seq<char>, Seq<char>, Seq<char>) {
    (e.from@, e.to@, e.call_site@)
}

/// The id of the function at the other end of a call.
pub open spec fn call_end_id(c: CallData) -> Seq<char> {
    document_symbol_id(c.path@, c.line, c.name@)
}

/// Where a call of `file_path` is made, written `path:line:character`.
pub open spec fn call_site_id(file_path: Seq<char>, c: CallData) -> Seq<char> {
    spec_location_id(file_path, c.site.line, c.site.character)
}

/// Every call site of `calls` can be counted from one within `u32`.
pub open spec fn sites_fit(calls: Seq<CallData>) -> bool {
    forall|i: int| 0 <= i < calls.len() ==> (#[trigger] calls[i]).site.line < u32::MAX && calls[i].site.character < u32::MAX
}

/// Appends to the call graph, for each call of `calls` in order, an edge
/// into `symbol_id` (when `incoming`) or out of it, at its call site in
/// `file_path`.
pub fn record_calls(index: &mut EnhancedIndex, file_path: &str, symbol_id: &str, calls: &Vec<CallData>, incoming: bool)
    requires
        sites_fit(calls@),
    ensures
        final(index).call_graph@.map_values(|e: CallEdge| call_edge_view(e)) == old(index).call_graph@.map_values(|e: CallEdge| call_edge_view(e))
            + calls@.map_values(|c: CallData| if incoming {
                (call_end_id(c), symbol_id@, call_site_id(file_path@, c))
            } else {
                (symbol_id@, call_end_id(c), call_site_id(file_path@, c))
            }),
        final(index).symbols == old(index).symbols,
        final(index).references == old(index).references,
        final(index).definitions == old(index).definitions,
        final(index).type_relations == old(index).type_relations,
{
    let ghost start = index.call_graph@.map_values(|e: CallEdge| call_edge_view(e));
    let ghost f = |c: CallData| if incoming {
        (call_end_id(c), symbol_id@, call_site_id(file_path@, c))
    } else {
        (symbol_id@, call_end_id(c), call_site_id(file_path@, c))
    };
    let mut i: usize = 0;
    assert(start + calls@.take(0).map_values(f) =~= start);
    while i < calls.len()
        invariant
            i <= calls.len(),
            sites_fit(calls@),
            f == (|c: CallData| if incoming {
                (call_end_id(c), symbol_id@, call_site_id(file_path@, c))
            } else {
                (symbol_id@, call_end_id(c), call_site_id(file_path@, c))
            }),
            index.symbols == old(index).symbols,
            index.references == old(index).references,
            index.definitions == old(index).definitions,
            index.type_relations == old(index).type_relations,
            index.call_graph@.map_values(|e: CallEdge| call_edge_view(e)) == start + calls@.take(i as int).map_values(f),
        decreases calls.len() - i,
    {
        let c = &calls[i];
        let other = symbol_id_of(c.path.as_str(), c.line, c.name.as_str());
        let call_site = location_id(file_path, c.site.line, c.site.character);
        let edge = if incoming {
            CallEdge { from: other, to: str_to_string(symbol_id), call_site }
        } else {
            CallEdge { from: str_to_string(symbol_id), to: other, call_site }
        };
        let ghost ev = call_edge_view(edge);
        assert(ev == f(*c));
        let ghost prev = index.call_graph@;
        index.call_graph.push(edge);
        proof {
            assert(index.call_graph@.map_values(|e: CallEdge| call_edge_view(e)) =~= prev.map_values(|e: CallEdge| call_edge_view(e)).push(ev));
            assert(calls@.take(i + 1).map_values(f) =~= calls@.take(i as int).map_values(f).push(f(calls@[i as int])));
        }
        i = i + 1;
    }
    proof {
        assert(calls@.take(calls.len() as int) =~= calls@);
        assert(calls@.map_values(f) =~= calls@.map_values(|c: CallData| if incoming {
            (call_end_id(c), symbol_id@, call_site_id(file_path@, c))
        } else {
            (symbol_id@, call_end_id(c), call_site_id(file_path@, c))
        }));
    }
}

} // verus!
