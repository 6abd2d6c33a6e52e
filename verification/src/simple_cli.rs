//! The simple command line: its commands as data, the parsing of
//! `file:line:column` locations, and the resolution of a command line into
//! the action the front end performs.
use vstd::prelude::*;

use crate::graph::{kind_name, spec_kind_name, CodeGraph, Symbol};
use crate::text::{digit_char, spec_decimal, chars_of, has_substring, spec_to_lowercase, str_contains, str_eq, str_to_lowercase, str_to_string, string_from_chars, push_str};

verus! {

/// Index database used when none is given.
pub const DEFAULT_INDEX_PATH: &'static str = ".lsif-index.db";

/// How many changes, references or usages are listed before eliding.
pub const MAX_CHANGES_DISPLAY: usize = 15;

/// Whether every character is an ASCII digit.
pub open spec fn all_digits(s: Seq<char>) -> bool {
    forall|i: int| 0 <= i < s.len() ==> '0' <= #[trigger] s[i] && s[i] <= '9'
}

/// The value of a string of decimal digits.
pub open spec fn digits_value(s: Seq<char>) -> nat
    decreases s.len(),
{
    if s.len() == 0 {
        0
    } else {
        digits_value(s.drop_last()) * 10 + ((s.last() as u32) - ('0' as u32)) as nat
    }
}

/// `str::parse::<u32>`: an optional `+` followed by one or more decimal
/// digits whose value fits in 32 bits; anything else is an error.
pub open spec fn spec_parse_u32(s: Seq<char>) -> Option<u32> {
    let d = if s.len() > 0 && s[0] == '+' { s.drop_first() } else { s };
    if d.len() > 0 && all_digits(d) && digits_value(d) <= u32::MAX {
        Some(digits_value(d) as u32)
    } else {
        None
    }
}

/// Parses a decimal `u32` (see [`spec_parse_u32`]).
pub fn parse_u32(s: &[char]) -> (r: Option<u32>)
    ensures
        r == spec_parse_u32(s@),
{
    let start: usize = if s.len() > 0 && s[0] == '+' { 1 } else { 0 };
    let ghost d = if s@.len() > 0 && s@[0] == '+' { s@.drop_first() } else { s@ };
    proof {
        assert(d =~= s@.subrange(start as int, s.len() as int));
    }
    if start == s.len() {
        return None;
    }
    let mut v: u64 = 0;
    let mut i = start;
    while i < s.len()
        invariant
            start <= i <= s.len(),
            d == s@.subrange(start as int, s.len() as int),
            d == (if s@.len() > 0 && s@[0] == '+' { s@.drop_first() } else { s@ }),
            all_digits(s@.subrange(start as int, i as int)),
            v == digits_value(s@.subrange(start as int, i as int)),
            v <= u32::MAX,
        decreases s.len() - i,
    {
        let c = s[i];
        proof {
            assert(s@.subrange(start as int, i + 1).drop_last() =~= s@.subrange(start as int, i as int));
        }
        if c < '0' || c > '9' {
            proof {
                assert(d[i - start] == c);
                assert(!all_digits(d));
            }
            return None;
        }
        let dv = (c as u32 - '0' as u32) as u64;
        v = v * 10 + dv;
        proof {
            assert(v == digits_value(s@.subrange(start as int, i + 1)));
            assert forall|k: int| 0 <= k < i + 1 - start implies '0' <= #[trigger] s@.subrange(start as int, i + 1)[k] && s@.subrange(start as int, i + 1)[k] <= '9' by {
                if k < i - start {
                    assert(s@.subrange(start as int, i + 1)[k] == s@.subrange(start as int, i as int)[k]);
                }
            }
        }
        if v > 0xffff_ffff {
            proof {
                if all_digits(d) {
                    lemma_digits_value_grows(d, i + 1 - start);
                    assert(d.subrange(0, i + 1 - start) =~= s@.subrange(start as int, i + 1));
                }
            }
            return None;
        }
        proof {
            assert forall|k: int| 0 <= k < i + 1 - start implies '0' <= #[trigger] s@.subrange(start as int, i + 1)[k] && s@.subrange(start as int, i + 1)[k] <= '9' by {
                if k < i - start {
                    assert(s@.subrange(start as int, i + 1)[k] == s@.subrange(start as int, i as int)[k]);
                }
            }
        }
        i = i + 1;
    }
    Some(v as u32)
}

/// The value of a digit string is at least the value of any of its
/// prefixes.
pub proof fn lemma_digits_value_grows(s: Seq<char>, k: int)
    requires
        0 <= k <= s.len(),
        all_digits(s),
    ensures
        digits_value(s) >= digits_value(s.subrange(0, k)),
    decreases s.len(),
{
    if k < s.len() {
        assert(s.drop_last() =~= s.subrange(0, s.len() - 1));
        assert(all_digits(s.drop_last()));
        lemma_digits_value_grows(s.drop_last(), k);
        assert(s.drop_last().subrange(0, k) =~= s.subrange(0, k));
    } else {
        assert(s.subrange(0, k) =~= s);
    }
}

/// Index of the last `:` in `s` before position `end`, or `-1`.
pub open spec fn last_colon_before(s: Seq<char>, end: int) -> int
    decreases end,
{
    if end <= 0 {
        -1
    } else if s[end - 1] == ':' {
        end - 1
    } else {
        last_colon_before(s, end - 1)
    }
}

/// The location named by `file`, `line` and `column`. When no separate line
/// is given and `file` holds a colon, it is read from its last colons, so
/// that the path itself may hold colons: as `file:line:column` when the two
/// numbers after its last two colons parse, otherwise as `file:line` (column
/// 1) when the number after its last colon parses. Otherwise the location is
/// the file with the given line and column, both defaulting to 1.
pub open spec fn spec_parse_location(file: Seq<char>, line: Option<u32>, column: Option<u32>) -> (Seq<char>, u32, u32) {
    let c1 = last_colon_before(file, file.len() as int);
    let c2 = last_colon_before(file, c1);
    let default = (file, if line is Some { line.unwrap() } else { 1u32 }, if column is Some { column.unwrap() } else { 1u32 });
    if c1 >= 0 && line is None {
        let last = spec_parse_u32(file.subrange(c1 + 1, file.len() as int));
        let file_line = if last is Some { (file.subrange(0, c1), last.unwrap(), 1u32) } else { default };
        if c2 >= 0 {
            let ln = spec_parse_u32(file.subrange(c2 + 1, c1));
            if last is Some && ln is Some {
                (file.subrange(0, c2), ln.unwrap(), last.unwrap())
            } else {
                file_line
            }
        } else {
            file_line
        }
    } else {
        default
    }
}

proof fn lemma_last_colon(s: Seq<char>, end: int)
    requires
        0 <= end <= s.len(),
    ensures
        -1 <= last_colon_before(s, end) < end,
        last_colon_before(s, end) >= 0 ==> s[last_colon_before(s, end)] == ':',
        forall|k: int| last_colon_before(s, end) < k < end ==> s[k] != ':',
    decreases end,
{
    if end > 0 && s[end - 1] != ':' {
        lemma_last_colon(s, end - 1);
    }
}

fn find_last_colon(s: &[char], end: usize) -> (r: Option<usize>)
    requires
        end <= s.len(),
    ensures
        match r {
            Some(k) => k as int == last_colon_before(s@, end as int),
            None => last_colon_before(s@, end as int) == -1,
        },
{
    proof { lemma_last_colon(s@, end as int); }
    let mut e = end;
    while e > 0
        invariant
            e <= end <= s.len(),
            last_colon_before(s@, end as int) == last_colon_before(s@, e as int),
        decreases e,
    {
        if s[e - 1] == ':' {
            return Some(e - 1);
        }
        e = e - 1;
    }
    None
}

pub(crate) fn sub_chars(s: &[char], a: usize, b: usize) -> (r: Vec<char>)
    requires
        a <= b <= s.len(),
    ensures
        r@ == s@.subrange(a as int, b as int),
{
    let mut r: Vec<char> = Vec::new();
    let mut i = a;
    while i < b
        invariant
            a <= i <= b,
            b <= s.len(),
            r@ == s@.subrange(a as int, i as int),
        decreases b - i,
    {
        r.push(s[i]);
        proof { assert(r@ =~= s@.subrange(a as int, i + 1)); }
        i = i + 1;
    }
    r
}

/// Parses a location argument (see [`spec_parse_location`]).
pub fn parse_location(file: &str, line: Option<u32>, column: Option<u32>) -> (r: (String, u32, u32))
    ensures
        (r.0@, r.1, r.2) == spec_parse_location(file@, line, column),
{
    let cs = chars_of(file);
    let default_line = match line {
        Some(l) => l,
        None => 1,
    };
    let default_column = match column {
        Some(c) => c,
        None => 1,
    };
    proof { lemma_last_colon(cs@, cs@.len() as int); }
    let c1 = find_last_colon(cs.as_slice(), cs.len());
    if let (Some(c1), None) = (c1, line) {
        proof { lemma_last_colon(cs@, c1 as int); }
        let last = parse_u32(sub_chars(cs.as_slice(), c1 + 1, cs.len()).as_slice());
        if let Some(c2) = find_last_colon(cs.as_slice(), c1) {
            let ln = parse_u32(sub_chars(cs.as_slice(), c2 + 1, c1).as_slice());
            if let (Some(col), Some(ln)) = (last, ln) {
                return (string_from_chars(sub_chars(cs.as_slice(), 0, c2).as_slice()), ln, col);
            }
        }
        if let Some(ln) = last {
            return (string_from_chars(sub_chars(cs.as_slice(), 0, c1).as_slice()), ln, 1);
        }
    }
    (str_to_string(file), default_line, default_column)
}


/// The commands of the simple command line.
#[derive(Debug)]
#[allow(inconsistent_fields)]
pub enum SimpleCommands {
    /// Go to definition: a file path or `file:line:column`.
    Definition { file: String, line: Option<u32>, column: Option<u32> },
    /// Find all references.
    References { file: String, line: Option<u32>, column: Option<u32>, depth: usize },
    /// Show the call hierarchy of a symbol.
    CallHierarchy { symbol: String, depth: usize, direction: String },
    /// Go to type definition.
    TypeDefinition { file: String, line: Option<u32>, column: Option<u32>, depth: usize },
    /// Go to implementation.
    Implementation { implemented_type: String, depth: usize },
    /// Document symbols, optionally of one file and one kind.
    Symbols { file: Option<String>, kind: Option<String> },
    /// Workspace symbols matching a query.
    WorkspaceSymbols { query: String, limit: usize, fuzzy: bool },
    /// A graph query.
    Graph { pattern: String, limit: usize, depth: usize },
    /// Unused code.
    Unused { public_only: bool },
    /// Rebuild the index.
    Index { force: bool, verbose: bool },
    /// The graph diff since a base commit.
    Diff { base: Option<String>, related: bool, depth: usize },
    /// The index status.
    Status,
    /// Export the index.
    Export { format: String, output: String },
}

/// A parsed command line: global options and the command.
#[derive(Debug)]
pub struct SimpleCli {
    pub db: Option<String>,
    pub project: Option<String>,
    pub no_auto_index: bool,
    pub command: SimpleCommands,
}

/// What a command line resolves to: the database and project root to use,
/// whether to bring the index up to date first, and the command with every
/// location resolved to a file, line and column.
#[derive(Debug)]
pub struct ExecutionPlan {
    pub db_path: String,
    pub project_root: String,
    pub auto_index: bool,
    pub command: SimpleCommands,
}

/// The command with its location resolved: for the location commands the
/// file, line and column are those [`spec_parse_location`] gives; every
/// other command stays as it is.
pub open spec fn resolved(before: SimpleCommands, after: SimpleCommands) -> bool {
    match before {
        SimpleCommands::Definition { file, line, column } => match after {
            SimpleCommands::Definition { file: f, line: Some(l), column: Some(c) } => (f@, l, c) == spec_parse_location(file@, line, column),
            _ => false,
        },
        SimpleCommands::References { file, line, column, depth } => match after {
            SimpleCommands::References { file: f, line: Some(l), column: Some(c), depth: d } => (f@, l, c) == spec_parse_location(file@, line, column) && d == depth,
            _ => false,
        },
        SimpleCommands::TypeDefinition { file, line, column, depth } => match after {
            SimpleCommands::TypeDefinition { file: f, line: Some(l), column: Some(c), depth: d } => (f@, l, c) == spec_parse_location(file@, line, column) && d == depth,
            _ => false,
        },
        _ => after == before,
    }
}

impl SimpleCli {
    /// Resolves the command line: the database defaults to
    /// [`DEFAULT_INDEX_PATH`], the project root to `.`; the index is brought
    /// up to date first unless `no_auto_index` is set; locations are parsed.
    pub fn execute(self) -> (p: ExecutionPlan)
        ensures
            p.db_path@ == match self.db {
                Some(d) => d@,
                None => DEFAULT_INDEX_PATH@,
            },
            p.project_root@ == match self.project {
                Some(d) => d@,
                None => "."@,
            },
            p.auto_index == !self.no_auto_index,
            resolved(self.command, p.command),
    {
        let db_path = match self.db {
            Some(d) => d,
            None => str_to_string(DEFAULT_INDEX_PATH),
        };
        let project_root = match self.project {
            Some(d) => d,
            None => str_to_string("."),
        };
        let command = match self.command {
            SimpleCommands::Definition { file, line, column } => {
                let (f, l, c) = parse_location(file.as_str(), line, column);
                SimpleCommands::Definition { file: f, line: Some(l), column: Some(c) }
            },
            SimpleCommands::References { file, line, column, depth } => {
                let (f, l, c) = parse_location(file.as_str(), line, column);
                SimpleCommands::References { file: f, line: Some(l), column: Some(c), depth }
            },
            SimpleCommands::TypeDefinition { file, line, column, depth } => {
                let (f, l, c) = parse_location(file.as_str(), line, column);
                SimpleCommands::TypeDefinition { file: f, line: Some(l), column: Some(c), depth }
            },
            other => other,
        };
        ExecutionPlan { db_path, project_root, auto_index: !self.no_auto_index, command }
    }
}

/// The formats an index can be exported in.
#[derive(Clone, Copy, Debug, PartialEq, Eq, Structural)]
pub enum ExportFormat {
    Lsif,
    Json,
}

/// The message for an export format that is neither `lsif` nor `json`.
pub open spec fn unsupported_format_message(format: Seq<char>) -> Seq<char> {
    "Unsupported format: "@ + format + ". Use 'lsif' or 'json'"@
}

/// The export format that `format` names (`lsif` or `json`), or the message
/// any other name is refused with.
pub open spec fn spec_export_format(format: Seq<char>) -> Result<ExportFormat, Seq<char>> {
    if format == "lsif"@ {
        Ok(ExportFormat::Lsif)
    } else if format == "json"@ {
        Ok(ExportFormat::Json)
    } else {
        Err(unsupported_format_message(format))
    }
}

/// A result whose message is a `String`, with the message as characters.
pub open spec fn result_view(r: Result<ExportFormat, String>) -> Result<ExportFormat, Seq<char>> {
    match r {
        Ok(f) => Ok(f),
        Err(m) => Err(m@),
    }
}

/// The export format that `format` names: `lsif` or `json`; any other name
/// is refused with the message of [`unsupported_format_message`].
pub fn export_format(format: &str) -> (r: Result<ExportFormat, String>)
    ensures
        result_view(r) == spec_export_format(format@),
{
    proof {
        reveal_strlit("lsif");
        reveal_strlit("json");
        assert("lsif"@[0] != "json"@[0]);
    }
    if str_eq(format, "lsif") {
        Ok(ExportFormat::Lsif)
    } else if str_eq(format, "json") {
        Ok(ExportFormat::Json)
    } else {
        let mut m = str_to_string("Unsupported format: ");
        push_str(&mut m, format);
        push_str(&mut m, ". Use 'lsif' or 'json'");
        Err(m)
    }
}

/// The message of an export from a database that holds no graph.
pub open spec fn no_index_message() -> Seq<char> {
    "No index found. Run 'lsif index' first."@
}

/// The export command once the database has been read: with no stored
/// graph it fails with [`no_index_message`]; otherwise it gives the format
/// to write the graph in, or fails as [`export_format`] does. The caller
/// writes the output only on `Ok`, so on every error nothing is written.
pub fn export_step(graph_found: bool, format: &str) -> (r: Result<ExportFormat, String>)
    ensures
        result_view(r) == if graph_found { spec_export_format(format@) } else { Err(no_index_message()) },
{
    if !graph_found {
        return Err(str_to_string("No index found. Run 'lsif index' first."));
    }
    export_format(format)
}

/// The symbol starts on line `line` of file `f`.
pub open spec fn starts_on(s: Symbol, f: Seq<char>, line: u32) -> bool {
    s.file_path@ == f && s.range.start.line == line
}

/// The symbol's lines include line `line` of file `f`.
pub open spec fn spans(s: Symbol, f: Seq<char>, line: u32) -> bool {
    s.file_path@ == f && s.range.start.line <= line && s.range.end.line >= line
}

/// The first symbol at index `from` or later that starts on the line.
pub open spec fn first_starting(ns: Seq<Symbol>, f: Seq<char>, line: u32, from: int) -> Option<nat>
    decreases ns.len() - from,
{
    if from < 0 || from >= ns.len() {
        None
    } else if starts_on(ns[from], f, line) {
        Some(from as nat)
    } else {
        first_starting(ns, f, line, from + 1)
    }
}

/// The last symbol before index `upto` whose lines include the line.
pub open spec fn last_spanning(ns: Seq<Symbol>, f: Seq<char>, line: u32, upto: int) -> Option<nat>
    decreases upto,
{
    if upto <= 0 || upto > ns.len() {
        None
    } else if spans(ns[upto - 1], f, line) {
        Some((upto - 1) as nat)
    } else {
        last_spanning(ns, f, line, upto - 1)
    }
}

/// The symbol that a position's line designates: the first symbol of the
/// file that starts on that (zero-based) line; failing that, the last one
/// whose lines include it.
pub open spec fn spec_symbol_on_line(ns: Seq<Symbol>, f: Seq<char>, line: u32) -> Option<nat> {
    match first_starting(ns, f, line, 0) {
        Some(i) => Some(i),
        None => last_spanning(ns, f, line, ns.len() as int),
    }
}

proof fn lemma_first_starting_none(ns: Seq<Symbol>, f: Seq<char>, line: u32, from: int)
    requires
        0 <= from <= ns.len(),
        forall|k: int| from <= k < ns.len() ==> !starts_on(#[trigger] ns[k], f, line),
    ensures
        first_starting(ns, f, line, from) is None,
    decreases ns.len() - from,
{
    if from < ns.len() {
        lemma_first_starting_none(ns, f, line, from + 1);
    }
}

proof fn lemma_first_starting_skip(ns: Seq<Symbol>, f: Seq<char>, line: u32, from: int)
    requires
        0 <= from <= ns.len(),
        forall|k: int| 0 <= k < from ==> !starts_on(#[trigger] ns[k], f, line),
    ensures
        first_starting(ns, f, line, 0) == first_starting(ns, f, line, from),
    decreases from,
{
    if from > 0 {
        lemma_first_starting_skip(ns, f, line, from - 1);
    }
}

/// The symbol of the graph on line `line` (zero-based) of file `file` (see
/// [`spec_symbol_on_line`]).
pub fn symbol_on_line<'a>(graph: &'a CodeGraph, file: &str, line: u32) -> (r: Option<&'a Symbol>)
    requires
        graph.wf(),
    ensures
        match spec_symbol_on_line(graph.nodes(), file@, line) {
            Some(i) => r is Some && *r.unwrap() == graph.nodes()[i as int],
            None => r is None,
        },
{
    let all = graph.get_all_symbols();
    let ghost ns = graph.nodes();
    let mut best: Option<&Symbol> = None;
    let mut i: usize = 0;
    while i < all.len()
        invariant
            i <= all.len(),
            all.len() == ns.len(),
            forall|j: int| 0 <= j < all.len() ==> *all@[j] == ns[j],
            ns == graph.nodes(),
            forall|k: int| 0 <= k < i ==> !starts_on(#[trigger] ns[k], file@, line),
            match last_spanning(ns, file@, line, i as int) {
                Some(k) => best is Some && *best.unwrap() == ns[k as int],
                None => best is None,
            },
        decreases all.len() - i,
    {
        let s = all[i];
        let same_file = str_eq(s.file_path.as_str(), file);
        if same_file && s.range.start.line == line {
            proof {
                lemma_first_starting_skip(ns, file@, line, i as int);
                assert(ns[i as int] == *s);
                assert(starts_on(ns[i as int], file@, line));
                assert(first_starting(ns, file@, line, i as int) == Some(i as nat));
            }
            return Some(s);
        } else if same_file && s.range.start.line <= line && s.range.end.line >= line {
            best = Some(s);
        }
        i = i + 1;
    }
    proof {
        lemma_first_starting_none(ns, file@, line, 0);
    }
    best
}

/// The lower-cased name of the symbol contains the lower-cased query.
pub open spec fn name_matches(s: Symbol, query_lower: Seq<char>) -> bool {
    has_substring(spec_to_lowercase(s.name@), query_lower)
}

/// Workspace search: the symbols, in node order, whose lower-cased name
/// contains the lower-cased query, at most `limit` of them.
pub fn search_symbols<'a>(graph: &'a CodeGraph, query: &str, limit: usize) -> (r: Vec<&'a Symbol>)
    requires
        graph.wf(),
    ensures
        ({
            let q = spec_to_lowercase(query@);
            let m = graph.nodes().filter(|s: Symbol| name_matches(s, q));
            &&& r.len() == if m.len() < limit { m.len() } else { limit as nat }
            &&& forall|i: int| 0 <= i < r.len() ==> *r@[i] == m[i]
        }),
{
    let q = str_to_lowercase(query);
    let ghost qv = q@;
    let all = graph.get_all_symbols();
    let ghost ns = graph.nodes();
    let ghost pred = |s: Symbol| name_matches(s, qv);
    let mut r: Vec<&Symbol> = Vec::new();
    let mut i: usize = 0;
    while i < all.len() && r.len() < limit
        invariant
            i <= all.len(),
            all.len() == ns.len(),
            forall|j: int| 0 <= j < all.len() ==> *all@[j] == ns[j],
            r.len() <= limit,
            qv == q@,
            pred == (|s: Symbol| name_matches(s, qv)),
            r.len() == ns.subrange(0, i as int).filter(pred).len(),
            forall|k: int| 0 <= k < r.len() ==> *r@[k] == ns.subrange(0, i as int).filter(pred)[k],
        decreases all.len() - i,
    {
        let s = all[i];
        let name_lower = str_to_lowercase(s.name.as_str());
        proof {
            ns.subrange(0, i as int).lemma_filter_push(*s, pred);
            assert(ns.subrange(0, i as int).push(*s) =~= ns.subrange(0, i + 1));
        }
        if str_contains(name_lower.as_str(), q.as_str()) {
            r.push(s);
        }
        i = i + 1;
    }
    proof {
        let m = ns.filter(pred);
        if i == all.len() {
            assert(ns.subrange(0, i as int) =~= ns);
        } else {
            lemma_filter_prefix(ns, pred, i as int);
        }
    }
    r
}

/// Filtering a prefix gives a prefix of the filtered whole.
pub proof fn lemma_filter_prefix(s: Seq<Symbol>, pred: spec_fn(Symbol) -> bool, i: int)
    requires
        0 <= i <= s.len(),
    ensures
        s.subrange(0, i).filter(pred).len() <= s.filter(pred).len(),
        forall|k: int| 0 <= k < s.subrange(0, i).filter(pred).len() ==> s.subrange(0, i).filter(pred)[k] == s.filter(pred)[k],
    decreases s.len() - i,
{
    if i == s.len() {
        assert(s.subrange(0, i) =~= s);
    } else {
        lemma_filter_prefix(s, pred, i + 1);
        s.subrange(0, i).lemma_filter_push(s[i], pred);
        assert(s.subrange(0, i).push(s[i]) =~= s.subrange(0, i + 1));
    }
}

/// The symbol's name contains `impl` and the type name.
pub open spec fn names_implementation(s: Symbol, implemented_type: Seq<char>) -> bool {
    has_substring(s.name@, "impl"@) && has_substring(s.name@, implemented_type)
}

/// Implementations of a type, by name: the symbols, in node order, whose
/// name contains both `impl` and the type name.
pub fn implementations_of<'a>(graph: &'a CodeGraph, implemented_type: &str) -> (r: Vec<&'a Symbol>)
    requires
        graph.wf(),
    ensures
        ({
            let m = graph.nodes().filter(|s: Symbol| names_implementation(s, implemented_type@));
            &&& r.len() == m.len()
            &&& forall|i: int| 0 <= i < r.len() ==> *r@[i] == m[i]
        }),
{
    let all = graph.get_all_symbols();
    let ghost ns = graph.nodes();
    let ghost pred = |s: Symbol| names_implementation(s, implemented_type@);
    let mut r: Vec<&Symbol> = Vec::new();
    let mut i: usize = 0;
    while i < all.len()
        invariant
            i <= all.len(),
            all.len() == ns.len(),
            forall|j: int| 0 <= j < all.len() ==> *all@[j] == ns[j],
            pred == (|s: Symbol| names_implementation(s, implemented_type@)),
            r.len() == ns.subrange(0, i as int).filter(pred).len(),
            forall|k: int| 0 <= k < r.len() ==> *r@[k] == ns.subrange(0, i as int).filter(pred)[k],
        decreases all.len() - i,
    {
        let s = all[i];
        proof {
            ns.subrange(0, i as int).lemma_filter_push(*s, pred);
            assert(ns.subrange(0, i as int).push(*s) =~= ns.subrange(0, i + 1));
        }
        if str_contains(s.name.as_str(), "impl") && str_contains(s.name.as_str(), implemented_type) {
            r.push(s);
        }
        i = i + 1;
    }
    proof {
        assert(ns.subrange(0, i as int) =~= ns);
    }
    r
}

/// The symbol passes the document-symbol filters: its path contains the
/// file filter, when there is one, and the lower-cased name of its kind
/// contains the lower-cased kind filter, when there is one.
pub open spec fn document_symbol_matches(s: Symbol, file: Option<Seq<char>>, kind: Option<Seq<char>>) -> bool {
    &&& (file is None || has_substring(s.file_path@, file.unwrap()))
    &&& (kind is None || has_substring(spec_to_lowercase(spec_kind_name(s.kind)), spec_to_lowercase(kind.unwrap())))
}

/// The document symbols that pass the filters (see
/// [`document_symbol_matches`]), in node order.
pub fn document_symbols<'a>(graph: &'a CodeGraph, file: Option<&str>, kind: Option<&str>) -> (r: Vec<&'a Symbol>)
    requires
        graph.wf(),
    ensures
        ({
            let fv = match file {
                Some(f) => Some(f@),
                None => None,
            };
            let kv = match kind {
                Some(k) => Some(k@),
                None => None,
            };
            let m = graph.nodes().filter(|s: Symbol| document_symbol_matches(s, fv, kv));
            &&& r.len() == m.len()
            &&& forall|i: int| 0 <= i < r.len() ==> *r@[i] == m[i]
        }),
{
    let ghost fv = match file {
        Some(f) => Some(f@),
        None => None,
    };
    let ghost kv = match kind {
        Some(k) => Some(k@),
        None => None,
    };
    let kind_lower = match kind {
        Some(k) => Some(str_to_lowercase(k)),
        None => None,
    };
    let all = graph.get_all_symbols();
    let ghost ns = graph.nodes();
    let ghost pred = |s: Symbol| document_symbol_matches(s, fv, kv);
    let mut r: Vec<&Symbol> = Vec::new();
    let mut i: usize = 0;
    while i < all.len()
        invariant
            i <= all.len(),
            all.len() == ns.len(),
            forall|j: int| 0 <= j < all.len() ==> *all@[j] == ns[j],
            fv == match file {
                Some(f) => Some(f@),
                None => None::<Seq<char>>,
            },
            kv == match kind {
                Some(k) => Some(k@),
                None => None::<Seq<char>>,
            },
            match kind_lower {
                Some(kl) => kind is Some && kl@ == spec_to_lowercase(kind.unwrap()@),
                None => kind is None,
            },
            pred == (|s: Symbol| document_symbol_matches(s, fv, kv)),
            r.len() == ns.subrange(0, i as int).filter(pred).len(),
            forall|k: int| 0 <= k < r.len() ==> *r@[k] == ns.subrange(0, i as int).filter(pred)[k],
        decreases all.len() - i,
    {
        let s = all[i];
        proof {
            ns.subrange(0, i as int).lemma_filter_push(*s, pred);
            assert(ns.subrange(0, i as int).push(*s) =~= ns.subrange(0, i + 1));
        }
        let file_ok = match file {
            Some(f) => str_contains(s.file_path.as_str(), f),
            None => true,
        };
        let kind_ok = match &kind_lower {
            Some(kl) => {
                let name_lower = str_to_lowercase(kind_name(s.kind));
                str_contains(name_lower.as_str(), kl.as_str())
            },
            None => true,
        };
        if file_ok && kind_ok {
            r.push(s);
        }
        i = i + 1;
    }
    proof {
        assert(ns.subrange(0, i as int) =~= ns);
    }
    r
}

proof fn lemma_digit_char(d: nat)
    requires
        d < 10,
    ensures
        '0' <= digit_char(d) && digit_char(d) <= '9',
        (digit_char(d) as u32) - ('0' as u32) == d,
{
}

/// A decimal representation is a non-empty string of digits whose value is
/// the number.
pub proof fn lemma_decimal_digits(n: nat)
    ensures
        spec_decimal(n).len() > 0,
        all_digits(spec_decimal(n)),
        digits_value(spec_decimal(n)) == n,
    decreases n,
{
    if n < 10 {
        lemma_digit_char(n);
        let d = spec_decimal(n);
        assert(d.drop_last() =~= Seq::<char>::empty());
        assert(d.last() == digit_char(n));
        assert(digits_value(d) == digits_value(d.drop_last()) * 10 + ((d.last() as u32) - ('0' as u32)) as nat);
    } else {
        lemma_decimal_digits(n / 10);
        lemma_digit_char(n % 10);
        let d = spec_decimal(n);
        assert(d.drop_last() == spec_decimal(n / 10));
        vstd::arithmetic::div_mod::lemma_fundamental_div_mod(n as int, 10);
        assert(d.last() == digit_char(n % 10));
        assert(((d.last() as u32) - ('0' as u32)) as nat == n % 10);
        assert(digits_value(d) == digits_value(spec_decimal(n / 10)) * 10 + ((d.last() as u32) - ('0' as u32)) as nat);
        assert(digits_value(d) == (n / 10) * 10 + n % 10);
        assert forall|i: int| 0 <= i < d.len() implies '0' <= #[trigger] d[i] && d[i] <= '9' by {
            if i < d.len() - 1 {
                assert(d[i] == spec_decimal(n / 10)[i]);
            }
        }
    }
}

/// The last colon before the end of `p + seq![':'] + d` is the one that
/// `p` is followed by, when `d` holds no colon.
proof fn lemma_last_colon_after(p: Seq<char>, d: Seq<char>)
    requires
        forall|i: int| 0 <= i < d.len() ==> #[trigger] d[i] != ':',
    ensures
        last_colon_before(p + seq![':'] + d, (p.len() + 1 + d.len()) as int) == p.len(),
    decreases d.len(),
{
    let s = p + seq![':'] + d;
    lemma_last_colon(s, s.len() as int);
    let k = last_colon_before(s, s.len() as int);
    assert(s[p.len() as int] == ':');
    if k > p.len() {
        assert(s[k] == d[k - p.len() - 1]);
    }
}

/// Writing a location as `file:line:column` and parsing it back gives the
/// file, line and column that were written, whatever the file name holds
/// (colons included).
pub proof fn law_location_round_trip(file: Seq<char>, line: u32, column: u32, given_column: Option<u32>)
    ensures
        spec_parse_location(file + seq![':'] + spec_decimal(line as nat) + seq![':'] + spec_decimal(column as nat), None, given_column)
            == (file, line, column),
{
    let dl = spec_decimal(line as nat);
    let dc = spec_decimal(column as nat);
    lemma_decimal_digits(line as nat);
    lemma_decimal_digits(column as nat);
    let a = file + seq![':'] + dl;
    let s = a + seq![':'] + dc;
    assert forall|i: int| 0 <= i < dc.len() implies #[trigger] dc[i] != ':' by {}
    assert forall|i: int| 0 <= i < dl.len() implies #[trigger] dl[i] != ':' by {}
    lemma_last_colon_after(a, dc);
    let c1 = a.len() as int;
    assert(last_colon_before(s, s.len() as int) == c1);
    // the colons before c1 are those of `a`
    lemma_last_colon_after(file, dl);
    assert(s.subrange(0, a.len() as int) =~= a);
    assert forall|e: int| 0 <= e <= c1 implies last_colon_before(s, e) == last_colon_before(a, e) by {
        lemma_prefix_colon(s, a, e);
    }
    let c2 = last_colon_before(s, c1);
    assert(c2 == file.len());
    assert(s.subrange(c1 + 1, s.len() as int) =~= dc);
    assert(s.subrange(c2 + 1, c1) =~= dl);
    assert(s.subrange(0, c2) =~= file);
    assert(dc.len() == 0 || dc[0] != '+');
    assert(dl.len() == 0 || dl[0] != '+');
    assert(spec_parse_u32(dc) == Some(column));
    assert(spec_parse_u32(dl) == Some(line));
}

proof fn lemma_prefix_colon(s: Seq<char>, a: Seq<char>, e: int)
    requires
        0 <= e <= a.len() <= s.len(),
        s.subrange(0, a.len() as int) == a,
    ensures
        last_colon_before(s, e) == last_colon_before(a, e),
    decreases e,
{
    if e > 0 {
        assert(s[e - 1] == s.subrange(0, a.len() as int)[e - 1]);
        lemma_prefix_colon(s, a, e - 1);
    }
}

/// The symbols of each of `paths` in turn, each path's in node order.
pub open spec fn symbols_of_paths(nodes: Seq<Symbol>, paths: Seq<Seq<char>>) -> Seq<Symbol>
    decreases paths.len(),
{
    if paths.len() == 0 {
        Seq::empty()
    } else {
        let p = paths.last();
        symbols_of_paths(nodes, paths.drop_last()) + nodes.filter(|s: Symbol| s.file_path@ == p)
    }
}

/// The symbols of the changed files, file by file, each file's in node
/// order.
pub fn changed_symbols<'a>(graph: &'a CodeGraph, paths: &Vec<String>) -> (r: Vec<&'a Symbol>)
    requires
        graph.wf(),
    ensures
        ({
            let m = symbols_of_paths(graph.nodes(), paths@.map_values(|p: String| p@));
            &&& r.len() == m.len()
            &&& forall|i: int| 0 <= i < r.len() ==> *r@[i] == m[i]
        }),
{
    let all = graph.get_all_symbols();
    let ghost ns = graph.nodes();
    let ghost pv = paths@.map_values(|p: String| p@);
    let mut r: Vec<&Symbol> = Vec::new();
    let mut k: usize = 0;
    assert(pv.take(0) =~= Seq::<Seq<char>>::empty());
    while k < paths.len()
        invariant
            k <= paths.len(),
            all.len() == ns.len(),
            forall|j: int| 0 <= j < all.len() ==> *all@[j] == ns[j],
            pv == paths@.map_values(|p: String| p@),
            r.len() == symbols_of_paths(ns, pv.take(k as int)).len(),
            forall|i: int| 0 <= i < r.len() ==> *r@[i] == symbols_of_paths(ns, pv.take(k as int))[i],
        decreases paths.len() - k,
    {
        let path = &paths[k];
        let ghost pred = |s: Symbol| s.file_path@ == path@;
        let ghost before = symbols_of_paths(ns, pv.take(k as int));
        let mut i: usize = 0;
        while i < all.len()
            invariant
                i <= all.len(),
                all.len() == ns.len(),
                forall|j: int| 0 <= j < all.len() ==> *all@[j] == ns[j],
                pred == (|s: Symbol| s.file_path@ == path@),
                r.len() == before.len() + ns.subrange(0, i as int).filter(pred).len(),
                forall|a: int| 0 <= a < before.len() ==> *r@[a] == before[a],
                forall|a: int| 0 <= a < ns.subrange(0, i as int).filter(pred).len() ==> *r@[before.len() + a] == ns.subrange(0, i as int).filter(pred)[a],
            decreases all.len() - i,
        {
            let s = all[i];
            proof {
                ns.subrange(0, i as int).lemma_filter_push(*s, pred);
                assert(ns.subrange(0, i as int).push(*s) =~= ns.subrange(0, i + 1));
            }
            if str_eq(s.file_path.as_str(), path.as_str()) {
                r.push(s);
            }
            i = i + 1;
        }
        proof {
            assert(ns.subrange(0, i as int) =~= ns);
            assert(pv.take(k + 1).drop_last() =~= pv.take(k as int));
            assert(pv.take(k + 1).last() == path@);
            let after = symbols_of_paths(ns, pv.take(k + 1));
            let q = pv.take(k + 1).last();
            assert((|s: Symbol| s.file_path@ == q) =~= pred);
            assert(after == before + ns.filter(pred));
            assert forall|a: int| 0 <= a < r.len() implies *r@[a] == after[a] by {
                if a >= before.len() {
                    assert(*r@[before.len() + (a - before.len())] == ns.filter(pred)[a - before.len()]);
                }
            }
        }
        k = k + 1;
    }
    proof {
        assert(pv.take(paths.len() as int) =~= pv);
    }
    r
}

/// Another symbol of the graph shares a name with a changed symbol and has
/// the name and path `(name, path)`.
pub open spec fn is_related(nodes: Seq<Symbol>, changed: Seq<Symbol>, name: Seq<char>, path: Seq<char>) -> bool {
    exists|i: int, j: int| 0 <= i < changed.len() && 0 <= j < nodes.len() && #[trigger] related_pair(nodes[j], changed[i])
        && nodes[j].name@ == name && nodes[j].file_path@ == path
}

/// The symbols that a list of references refers to.
pub open spec fn derefs(v: Seq<&Symbol>) -> Seq<Symbol> {
    v.map_values(|s: &Symbol| *s)
}

/// `other` has the name of `s` and another id.
pub open spec fn related_pair(other: Symbol, s: Symbol) -> bool {
    other.name@ == s.name@ && other.id@ != s.id@
}

/// The names and paths of the symbols related to the changed ones, each
/// pair once: every other symbol that shares a name with a changed symbol.
pub fn related_symbols(graph: &CodeGraph, changed: &Vec<&Symbol>) -> (r: Vec<(String, String)>)
    requires
        graph.wf(),
    ensures
        forall|a: int, b: int| 0 <= a < r.len() && 0 <= b < r.len() && a != b ==> (r@[a].0@, r@[a].1@) != (r@[b].0@, r@[b].1@),
        forall|a: int| 0 <= a < r.len() ==> is_related(graph.nodes(), derefs(changed@), #[trigger] r@[a].0@, r@[a].1@),
        forall|name: Seq<char>, path: Seq<char>| #[trigger] is_related(graph.nodes(), derefs(changed@), name, path)
            ==> exists|a: int| 0 <= a < r.len() && #[trigger] r@[a].0@ == name && r@[a].1@ == path,
{
    let all = graph.get_all_symbols();
    let ghost ns = graph.nodes();
    let ghost cs = derefs(changed@);
    let mut r: Vec<(String, String)> = Vec::new();
    let mut i: usize = 0;
    while i < changed.len()
        invariant
            i <= changed.len(),
            all.len() == ns.len(),
            forall|j: int| 0 <= j < all.len() ==> *all@[j] == ns[j],
            cs == derefs(changed@),
            forall|a: int, b: int| 0 <= a < r.len() && 0 <= b < r.len() && a != b ==> (r@[a].0@, r@[a].1@) != (r@[b].0@, r@[b].1@),
            forall|a: int| 0 <= a < r.len() ==> is_related(ns, cs, #[trigger] r@[a].0@, r@[a].1@),
            forall|x: int, j: int| 0 <= x < i && 0 <= j < ns.len() && #[trigger] related_pair(ns[j], cs[x])
                ==> exists|a: int| 0 <= a < r.len() && #[trigger] r@[a].0@ == ns[j].name@ && r@[a].1@ == ns[j].file_path@,
        decreases changed.len() - i,
    {
        let s = changed[i];
        let mut j: usize = 0;
        while j < all.len()
            invariant
                i < changed.len(),
                j <= all.len(),
                all.len() == ns.len(),
                forall|q: int| 0 <= q < all.len() ==> *all@[q] == ns[q],
                cs == derefs(changed@),
                *s == cs[i as int],
                forall|a: int, b: int| 0 <= a < r.len() && 0 <= b < r.len() && a != b ==> (r@[a].0@, r@[a].1@) != (r@[b].0@, r@[b].1@),
                forall|a: int| 0 <= a < r.len() ==> is_related(ns, cs, #[trigger] r@[a].0@, r@[a].1@),
                forall|x: int, q: int| 0 <= q < ns.len() && (0 <= x < i || (x == i && q < j)) && #[trigger] related_pair(ns[q], cs[x])
                    ==> exists|a: int| 0 <= a < r.len() && #[trigger] r@[a].0@ == ns[q].name@ && r@[a].1@ == ns[q].file_path@,
            decreases all.len() - j,
        {
            let other = all[j];
            if str_eq(other.name.as_str(), s.name.as_str()) && !str_eq(other.id.as_str(), s.id.as_str()) {
                assert(related_pair(ns[j as int], cs[i as int]));
                assert(is_related(ns, cs, ns[j as int].name@, ns[j as int].file_path@));
                let mut a: usize = 0;
                let mut present = false;
                while a < r.len()
                    invariant
                        a <= r.len(),
                        !present ==> forall|b: int| 0 <= b < a ==> (r@[b].0@, r@[b].1@) != (other.name@, other.file_path@),
                        present ==> exists|b: int| 0 <= b < r.len() && #[trigger] r@[b].0@ == other.name@ && r@[b].1@ == other.file_path@,
                    decreases r.len() - a,
                {
                    if str_eq(r[a].0.as_str(), other.name.as_str()) && str_eq(r[a].1.as_str(), other.file_path.as_str()) {
                        present = true;
                    }
                    a = a + 1;
                }
                if !present {
                    let ghost before = r@;
                    r.push((other.name.clone(), other.file_path.clone()));
                    proof {
                        assert forall|a: int| 0 <= a < r.len() implies is_related(ns, cs, #[trigger] r@[a].0@, r@[a].1@) by {
                            if a < before.len() {
                                assert(r@[a] == before[a]);
                            }
                        }
                        assert forall|x: int, q: int| 0 <= q < ns.len() && (0 <= x < i || (x == i && q < j + 1)) && #[trigger] related_pair(ns[q], cs[x])
                            implies exists|a: int| 0 <= a < r.len() && #[trigger] r@[a].0@ == ns[q].name@ && r@[a].1@ == ns[q].file_path@ by {
                            if x == i && q == j {
                                assert(r@[before.len() as int].0@ == ns[q].name@);
                            } else {
                                let a = choose|a: int| 0 <= a < before.len() && #[trigger] before[a].0@ == ns[q].name@ && before[a].1@ == ns[q].file_path@;
                                assert(r@[a] == before[a]);
                            }
                        }
                    }
                }
            }
            j = j + 1;
        }
        i = i + 1;
    }
    proof {
        assert forall|name: Seq<char>, path: Seq<char>| #[trigger] is_related(ns, cs, name, path)
            implies exists|a: int| 0 <= a < r.len() && #[trigger] r@[a].0@ == name && r@[a].1@ == path by {
            let (x, q) = choose|x: int, q: int| 0 <= x < cs.len() && 0 <= q < ns.len() && #[trigger] related_pair(ns[q], cs[x])
                && ns[q].name@ == name && ns[q].file_path@ == path;
        }
    }
    r
}

} // verus!
