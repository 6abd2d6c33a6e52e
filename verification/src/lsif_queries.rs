//! What the `lsif` tool's queries, searches and lookups report, given the
//! entries of an index store: each key with the symbol stored under it, if
//! one could be read. Reading the store and printing stay with the caller.
use vstd::prelude::*;

use crate::graph::{kind_name, spec_kind_name, Symbol, SymbolKind};
use crate::text::{
    has_prefix, has_substring, push_decimal, push_str, spec_decimal, spec_to_lowercase, str_contains, str_eq,
    str_starts_with, str_to_lowercase, string_push,
};

verus! {

/// The symbols of the entries whose key and symbol satisfy `p`, in order.
pub open spec fn picked(entries: Seq<(String, Option<Symbol>)>, p: spec_fn(Seq<char>, Symbol) -> bool) -> Seq<Symbol>
    decreases entries.len(),
{
    if entries.len() == 0 {
        Seq::empty()
    } else {
        let e = entries.last();
        picked(entries.drop_last(), p) + match e.1 {
            Some(s) => if p(e.0@, s) {
                seq![s]
            } else {
                Seq::empty()
            },
            None => Seq::empty(),
        }
    }
}

/// The first of a list, if any.
pub open spec fn first_of(s: Seq<Symbol>) -> Option<Symbol> {
    if s.len() > 0 {
        Some(s[0])
    } else {
        None
    }
}

/// The symbols of the entries for which `f` holds, in order.
fn pick<F: Fn(&str, &Symbol) -> bool>(
    entries: &Vec<(String, Option<Symbol>)>,
    f: F,
    Ghost(p): Ghost<spec_fn(Seq<char>, Symbol) -> bool>,
) -> (r: Vec<Symbol>)
    requires
        forall|k: &str, s: &Symbol| #[trigger] f.requires((k, s)),
        forall|k: &str, s: &Symbol, b: bool| f.ensures((k, s), b) ==> b == p(k@, *s),
    ensures
        r@ == picked(entries@, p),
{
    let mut r: Vec<Symbol> = Vec::new();
    let mut i: usize = 0;
    assert(entries@.take(0) =~= Seq::<(String, Option<Symbol>)>::empty());
    while i < entries.len()
        invariant
            i <= entries.len(),
            forall|k: &str, s: &Symbol| #[trigger] f.requires((k, s)),
            forall|k: &str, s: &Symbol, b: bool| f.ensures((k, s), b) ==> b == p(k@, *s),
            r@ == picked(entries@.take(i as int), p),
        decreases entries.len() - i,
    {
        assert(entries@.take(i + 1).drop_last() =~= entries@.take(i as int));
        assert(entries@.take(i + 1).last() == entries@[i as int]);
        match &entries[i].1 {
            Some(s) => {
                if f(entries[i].0.as_str(), s) {
                    r.push(s.clone());
                }
            },
            None => {},
        }
        assert(r@ =~= picked(entries@.take(i + 1), p));
        i = i + 1;
    }
    assert(entries@.take(entries.len() as int) =~= entries@);
    r
}

/// The first of `v`, if any.
fn first(v: Vec<Symbol>) -> (r: Option<Symbol>)
    ensures
        r == first_of(v@),
{
    let mut v = v;
    if v.len() > 0 {
        Some(v.remove(0))
    } else {
        None
    }
}

/// A query of the `lsif` tool.
pub enum QueryType {
    /// The symbols stored for a place: `file`, line and column.
    Definition { file: String, line: u32, column: u32 },
    /// The symbols of a name.
    References { symbol: String },
    /// The function of a name, with the depth asked for.
    CallHierarchy { function: String, depth: usize },
    /// The functions that may be unused.
    DeadCode,
    /// A class of a name and its `impl` blocks.
    TypeRelations { name: String },
}

/// What a query reports.
pub enum QueryOutcome {
    Definitions(Vec<Symbol>),
    References(Vec<Symbol>),
    Function(Option<Symbol>),
    Unused(Vec<Symbol>),
    /// The class found, with the symbols whose keys name an `impl` of it.
    TypeRelations(Option<(Symbol, Vec<Symbol>)>),
}

/// The key prefix of the symbols at a place: `file#line:column:`.
pub open spec fn place_prefix(file: Seq<char>, line: u32, column: u32) -> Seq<char> {
    file + seq!['#'] + spec_decimal(line as nat) + seq![':'] + spec_decimal(column as nat) + seq![':']
}

/// A key is read for a place when it starts with the place's prefix or
/// holds the file's path.
pub open spec fn definition_pick(file: Seq<char>, line: u32, column: u32) -> spec_fn(Seq<char>, Symbol) -> bool {
    |k: Seq<char>, s: Symbol| has_prefix(k, place_prefix(file, line, column)) || has_substring(k, file)
}

/// An entry is a reference of `name` when its key holds the name and its
/// symbol has that name.
pub open spec fn reference_pick(name: Seq<char>) -> spec_fn(Seq<char>, Symbol) -> bool {
    |k: Seq<char>, s: Symbol| has_substring(k, name) && s.name@ == name
}

/// An entry is the function `name` when its key holds the name and its
/// symbol is a function of that name.
pub open spec fn function_pick(name: Seq<char>) -> spec_fn(Seq<char>, Symbol) -> bool {
    |k: Seq<char>, s: Symbol| has_substring(k, name) && s.name@ == name && s.kind == SymbolKind::Function
}

/// A function may be unused unless it is `main` or its name starts with
/// `test_` or `bench_`.
pub open spec fn spec_potentially_unused(s: Symbol) -> bool {
    &&& s.kind == SymbolKind::Function
    &&& s.name@ != "main"@
    &&& !has_prefix(s.name@, "test_"@)
    &&& !has_prefix(s.name@, "bench_"@)
}

/// An entry is the class `name` when its key holds the name and its symbol
/// is a class of that name.
pub open spec fn class_pick(name: Seq<char>) -> spec_fn(Seq<char>, Symbol) -> bool {
    |k: Seq<char>, s: Symbol| has_substring(k, name) && s.name@ == name && s.kind == SymbolKind::Class
}

/// An entry is an `impl` of `name` when its key holds `impl name`.
pub open spec fn impl_pick(name: Seq<char>) -> spec_fn(Seq<char>, Symbol) -> bool {
    |k: Seq<char>, s: Symbol| has_substring(k, "impl "@ + name)
}

/// Whether a function may be unused (see [`spec_potentially_unused`]).
pub fn potentially_unused(s: &Symbol) -> (r: bool)
    ensures
        r == spec_potentially_unused(*s),
{
    proof {
        reveal_strlit("main");
        reveal_strlit("test_");
        reveal_strlit("bench_");
    }
    s.kind == SymbolKind::Function && !str_eq(s.name.as_str(), "main") && !str_starts_with(s.name.as_str(), "test_")
        && !str_starts_with(s.name.as_str(), "bench_")
}

/// What `query` reports over `entries`: for a place, every stored symbol
/// whose key it selects; for a name, every symbol of that name under a key
/// holding it; for a call hierarchy, the first such function; for dead code,
/// every function that may be unused; for a type, the first such class and
/// every symbol under a key naming an `impl` of it.
pub fn execute_query(query: &QueryType, entries: &Vec<(String, Option<Symbol>)>) -> (r: QueryOutcome)
    ensures
        match *query {
            QueryType::Definition { file, line, column } => r matches QueryOutcome::Definitions(v)
                && v@ == picked(entries@, definition_pick(file@, line, column)),
            QueryType::References { symbol } => r matches QueryOutcome::References(v)
                && v@ == picked(entries@, reference_pick(symbol@)),
            QueryType::CallHierarchy { function, depth } => r matches QueryOutcome::Function(f)
                && f == first_of(picked(entries@, function_pick(function@))),
            QueryType::DeadCode => r matches QueryOutcome::Unused(v)
                && v@ == picked(entries@, |k: Seq<char>, s: Symbol| spec_potentially_unused(s)),
            QueryType::TypeRelations { name } => r matches QueryOutcome::TypeRelations(t) && match first_of(picked(entries@, class_pick(name@))) {
                Some(c) => t matches Some(found) && found.0 == c && found.1@ == picked(entries@, impl_pick(name@)),
                None => t is None,
            },
        },
{
    match query {
        QueryType::Definition { file, line, column } => {
            let mut prefix = String::new();
            push_str(&mut prefix, file.as_str());
            string_push(&mut prefix, '#');
            push_decimal(&mut prefix, *line as u64);
            string_push(&mut prefix, ':');
            push_decimal(&mut prefix, *column as u64);
            string_push(&mut prefix, ':');
            assert(prefix@ =~= place_prefix(file@, *line, *column));
            let ghost p = definition_pick(file@, *line, *column);
            let f = |k: &str, s: &Symbol| -> (b: bool)
                ensures
                    b == (has_prefix(k@, prefix@) || has_substring(k@, file@)),
                { str_starts_with(k, prefix.as_str()) || str_contains(k, file.as_str()) };
            QueryOutcome::Definitions(pick(entries, f, Ghost(p)))
        },
        QueryType::References { symbol } => {
            let ghost p = reference_pick(symbol@);
            let f = |k: &str, s: &Symbol| -> (b: bool)
                ensures
                    b == (has_substring(k@, symbol@) && s.name@ == symbol@),
                { str_contains(k, symbol.as_str()) && str_eq(s.name.as_str(), symbol.as_str()) };
            QueryOutcome::References(pick(entries, f, Ghost(p)))
        },
        QueryType::CallHierarchy { function, depth: _ } => {
            let ghost p = function_pick(function@);
            let f = |k: &str, s: &Symbol| -> (b: bool)
                ensures
                    b == (has_substring(k@, function@) && s.name@ == function@ && s.kind == SymbolKind::Function),
                { str_contains(k, function.as_str()) && str_eq(s.name.as_str(), function.as_str()) && s.kind == SymbolKind::Function };
            QueryOutcome::Function(first(pick(entries, f, Ghost(p))))
        },
        QueryType::DeadCode => {
            let ghost p = |k: Seq<char>, s: Symbol| spec_potentially_unused(s);
            let f = |k: &str, s: &Symbol| -> (b: bool)
                ensures
                    b == spec_potentially_unused(*s),
                { potentially_unused(s) };
            QueryOutcome::Unused(pick(entries, f, Ghost(p)))
        },
        QueryType::TypeRelations { name } => {
            let ghost p = class_pick(name@);
            let f = |k: &str, s: &Symbol| -> (b: bool)
                ensures
                    b == (has_substring(k@, name@) && s.name@ == name@ && s.kind == SymbolKind::Class),
                { str_contains(k, name.as_str()) && str_eq(s.name.as_str(), name.as_str()) && s.kind == SymbolKind::Class };
            match first(pick(entries, f, Ghost(p))) {
                Some(class) => {
                    let mut impl_name = String::new();
                    push_str(&mut impl_name, "impl ");
                    push_str(&mut impl_name, name.as_str());
                    proof { reveal_strlit("impl "); }
                    assert(impl_name@ =~= "impl "@ + name@);
                    let ghost q = impl_pick(name@);
                    let g = |k: &str, s: &Symbol| -> (b: bool)
                        ensures
                            b == has_substring(k@, impl_name@),
                        { str_contains(k, impl_name.as_str()) };
                    let impls = pick(entries, g, Ghost(q));
                    QueryOutcome::TypeRelations(Some((class, impls)))
                },
                None => QueryOutcome::TypeRelations(None),
            }
        },
    }
}

/// A lookup of the `lsif` tool's `find` command.
pub enum FindType {
    /// The definition of a name, whatever its case.
    Definition { symbol: String },
    /// The places that may refer to a name.
    References { symbol: String },
    /// The symbols of a file that span a line.
    At { file: String, line: u32, column: u32 },
}

/// What a lookup reports.
pub enum FindOutcome {
    Definition(Option<Symbol>),
    References(Vec<Symbol>),
    At(Vec<Symbol>),
}

/// An entry defines `symbol` when its symbol's lower-case name is the
/// lower-case `symbol`.
pub open spec fn named_pick(symbol: Seq<char>) -> spec_fn(Seq<char>, Symbol) -> bool {
    |k: Seq<char>, s: Symbol| spec_to_lowercase(s.name@) == spec_to_lowercase(symbol)
}

/// An entry may refer to `symbol` when its key holds the lower-case
/// `symbol` or its symbol's name holds `symbol`.
pub open spec fn mention_pick(symbol: Seq<char>) -> spec_fn(Seq<char>, Symbol) -> bool {
    |k: Seq<char>, s: Symbol| has_substring(k, spec_to_lowercase(symbol)) || has_substring(s.name@, symbol)
}

/// An entry is at `line` of `file` when its symbol's path holds `file`, it
/// starts before the line and ends on it or after.
pub open spec fn at_pick(file: Seq<char>, line: u32) -> spec_fn(Seq<char>, Symbol) -> bool {
    |k: Seq<char>, s: Symbol| has_substring(s.file_path@, file) && s.range.start.line < line && s.range.end.line >= line
}

/// What `what` reports over `entries`: the first symbol of the name (case
/// ignored), every entry that may refer to the name, or every symbol of the
/// file spanning the line.
pub fn execute_find(what: &FindType, entries: &Vec<(String, Option<Symbol>)>) -> (r: FindOutcome)
    ensures
        match *what {
            FindType::Definition { symbol } => r matches FindOutcome::Definition(f)
                && f == first_of(picked(entries@, named_pick(symbol@))),
            FindType::References { symbol } => r matches FindOutcome::References(v)
                && v@ == picked(entries@, mention_pick(symbol@)),
            FindType::At { file, line, column } => r matches FindOutcome::At(v)
                && v@ == picked(entries@, at_pick(file@, line)),
        },
{
    match what {
        FindType::Definition { symbol } => {
            let lower = str_to_lowercase(symbol.as_str());
            let ghost p = named_pick(symbol@);
            let f = |k: &str, s: &Symbol| -> (b: bool)
                ensures
                    b == (spec_to_lowercase(s.name@) == lower@),
                {
                    let name_lower = str_to_lowercase(s.name.as_str());
                    str_eq(name_lower.as_str(), lower.as_str())
                };
            FindOutcome::Definition(first(pick(entries, f, Ghost(p))))
        },
        FindType::References { symbol } => {
            let lower = str_to_lowercase(symbol.as_str());
            let ghost p = mention_pick(symbol@);
            let f = |k: &str, s: &Symbol| -> (b: bool)
                ensures
                    b == (has_substring(k@, lower@) || has_substring(s.name@, symbol@)),
                { str_contains(k, lower.as_str()) || str_contains(s.name.as_str(), symbol.as_str()) };
            FindOutcome::References(pick(entries, f, Ghost(p)))
        },
        FindType::At { file, line, column: _ } => {
            let ghost p = at_pick(file@, *line);
            let f = |k: &str, s: &Symbol| -> (b: bool)
                ensures
                    b == (has_substring(s.file_path@, file@) && s.range.start.line < *line && s.range.end.line >= *line),
                { str_contains(s.file_path.as_str(), file.as_str()) && s.range.start.line < *line && s.range.end.line >= *line };
            FindOutcome::At(pick(entries, f, Ghost(p)))
        },
    }
}

/// An entry matches a search when its key is not internal (does not start
/// with `__`), its symbol's lower-case name holds the lower-case query, and
/// the kind and file filters given hold: the lower-case kind name holds the
/// lower-case kind filter, the path holds the file filter.
pub open spec fn search_pick(query: Seq<char>, kind_filter: Option<Seq<char>>, file_filter: Option<Seq<char>>) -> spec_fn(Seq<char>, Symbol) -> bool {
    |k: Seq<char>, s: Symbol| {
        &&& !has_prefix(k, "__"@)
        &&& has_substring(spec_to_lowercase(s.name@), spec_to_lowercase(query))
        &&& (kind_filter matches Some(t) ==> has_substring(spec_to_lowercase(spec_kind_name(s.kind)), spec_to_lowercase(t)))
        &&& (file_filter matches Some(f) ==> has_substring(s.file_path@, f))
    }
}

/// With a lower-case kind filter, the lower-case name of `kind` holds it.
pub open spec fn lower_kind_filter_holds(filter: &Option<String>, kind: SymbolKind) -> bool {
    match filter {
        Some(t) => has_substring(spec_to_lowercase(spec_kind_name(kind)), t@),
        None => true,
    }
}

/// With a file filter, `path` holds it.
pub open spec fn file_filter_holds(filter: &Option<String>, path: Seq<char>) -> bool {
    match filter {
        Some(f) => has_substring(path, f@),
        None => true,
    }
}

/// A string option as characters.
pub open spec fn opt_chars(o: Option<String>) -> Option<Seq<char>> {
    match o {
        Some(s) => Some(s@),
        None => None,
    }
}

/// The symbols of `entries` that match the search for `query` with the
/// given kind and file filters, in order.
pub fn execute_search(
    query: &str,
    symbol_type: &Option<String>,
    file_pattern: &Option<String>,
    entries: &Vec<(String, Option<Symbol>)>,
) -> (r: Vec<Symbol>)
    ensures
        r@ == picked(entries@, search_pick(query@, opt_chars(*symbol_type), opt_chars(*file_pattern))),
{
    let query_lower = str_to_lowercase(query);
    let type_lower = match symbol_type {
        Some(t) => Some(str_to_lowercase(t.as_str())),
        None => None,
    };
    proof { reveal_strlit("__"); }
    let ghost p = search_pick(query@, opt_chars(*symbol_type), opt_chars(*file_pattern));
    let f = |k: &str, s: &Symbol| -> (b: bool)
        ensures
            b == {
                &&& !has_prefix(k@, "__"@)
                &&& has_substring(spec_to_lowercase(s.name@), query_lower@)
                &&& lower_kind_filter_holds(&type_lower, s.kind)
                &&& file_filter_holds(file_pattern, s.file_path@)
            },
        {
            if str_starts_with(k, "__") {
                return false;
            }
            let name_lower = str_to_lowercase(s.name.as_str());
            if !str_contains(name_lower.as_str(), query_lower.as_str()) {
                return false;
            }
            match &type_lower {
                Some(t) => {
                    let kind_lower = str_to_lowercase(kind_name(s.kind));
                    if !str_contains(kind_lower.as_str(), t.as_str()) {
                        return false;
                    }
                },
                None => {},
            }
            match file_pattern {
                Some(fp) => str_contains(s.file_path.as_str(), fp.as_str()),
                None => true,
            }
        };
    pick(entries, f, Ghost(p))
}

/// An entry matches a name search when its symbol's lower-case name holds
/// the lower-case query.
pub open spec fn name_pick(query: Seq<char>) -> spec_fn(Seq<char>, Symbol) -> bool {
    |k: Seq<char>, s: Symbol| has_substring(spec_to_lowercase(s.name@), spec_to_lowercase(query))
}

/// The symbols of `entries` whose lower-case name holds the lower-case
/// query, in order (the interactive explorer's search).
pub fn search_by_name(query: &str, entries: &Vec<(String, Option<Symbol>)>) -> (r: Vec<Symbol>)
    ensures
        r@ == picked(entries@, name_pick(query@)),
{
    let query_lower = str_to_lowercase(query);
    let ghost p = name_pick(query@);
    let f = |k: &str, s: &Symbol| -> (b: bool)
        ensures
            b == has_substring(spec_to_lowercase(s.name@), query_lower@),
        {
            let name_lower = str_to_lowercase(s.name.as_str());
            str_contains(name_lower.as_str(), query_lower.as_str())
        };
    pick(entries, f, Ghost(p))
}

} // verus!
