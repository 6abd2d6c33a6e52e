//! The fallback indexer used when no language server answers: each line of
//! a file is tried against the declaration patterns of its language, in
//! order, and the first pattern that matches gives a symbol named by one of
//! its capture groups. The patterns are matched by the `regex` crate.
use vstd::prelude::*;

use crate::graph::{Position, Range};
use crate::minimal_language_adapter::{chars_eq_str, path_extension, spec_path_extension};
use crate::text::{push_str, spec_lines, str_lines};
use vstd::utf8::encode_utf8;

verus! {

/// Whether `pattern` compiles to a regular expression.
pub uninterp spec fn regex_valid(pattern: Seq<char>) -> bool;

/// The capture groups of the leftmost-first match of `pattern` in `text`
/// (group 0 being the whole match), `None` when it does not match.
pub uninterp spec fn regex_captures_of(pattern: Seq<char>, text: Seq<char>) -> Option<Seq<Option<Seq<char>>>>;

/// `regex::Regex::new(pattern).is_ok()`: whether the pattern compiles (it
/// fails on a syntax error or when the compiled program would exceed the
/// default size limit; both depend on the pattern alone).
#[verifier::external_body]
fn regex_is_valid(pattern: &str) -> (r: bool)
    ensures
        r == regex_valid(pattern@),
{
    regex::Regex::new(pattern).is_ok()
}

/// `Regex::captures` of the compiled `pattern` on `text`: the text of each
/// capture group, in group order (group 0 is the whole match), `None` for a
/// group that did not take part; `None` when there is no match.
#[verifier::external_body]
fn regex_captures(pattern: &str, text: &str) -> (r: Option<Vec<Option<String>>>)
    requires
        regex_valid(pattern@),
    ensures
        match r {
            Some(v) => regex_captures_of(pattern@, text@) == Some(v@.map_values(|g: Option<String>| match g {
                Some(s) => Some(s@),
                None => None,
            })),
            None => regex_captures_of(pattern@, text@) is None,
        },
{
    let caps = regex::Regex::new(pattern).unwrap().captures(text)?;
    let mut groups = Vec::new();
    for i in 0..caps.len() {
        groups.push(caps.get(i).map(|m| m.as_str().to_string()));
    }
    Some(groups)
}

/// The languages the fallback indexer knows.
#[derive(Clone, Copy, Debug, PartialEq, Eq, Structural)]
pub enum FallbackLanguage {
    Rust,
    TypeScript,
    JavaScript,
    Python,
    Go,
}

/// The kind of a symbol found by the fallback indexer.
#[derive(Clone, Copy, Debug, PartialEq, Eq, Structural)]
pub enum FallbackKind {
    Function,
    Struct,
    Enum,
    Class,
    Interface,
    Variable,
    Method,
}

/// A symbol found by the fallback indexer: its name, kind and range (its
/// selection range is the same).
#[derive(Clone, Debug)]
pub struct FallbackSymbol {
    pub name: String,
    pub kind: FallbackKind,
    pub range: Range,
}

/// A symbol as characters.
pub struct FallbackSymbolView {
    pub name: Seq<char>,
    pub kind: FallbackKind,
    pub range: Range,
}

impl View for FallbackSymbol {
    type V = FallbackSymbolView;

    open spec fn view(&self) -> FallbackSymbolView {
        FallbackSymbolView { name: self.name@, kind: self.kind, range: self.range }
    }
}

/// Why the fallback indexer could not scan a file.
#[derive(Clone, Copy, Debug, PartialEq, Eq, Structural)]
pub enum FallbackError {
    /// One of the language's patterns does not compile.
    InvalidPattern,
    /// A pattern matched a line but its name group took no part in the match.
    MissingCapture,
}

/// A declaration pattern: the regular expression, the capture group that
/// holds the name, the kind of symbol, a prefix put before the name and the
/// character at which the symbol starts.
pub struct FallbackRule {
    pub pattern: Seq<char>,
    pub group: nat,
    pub kind: FallbackKind,
    pub prefix: Seq<char>,
    pub start_char: u32,
}

/// The declaration patterns of a language, in the order they are tried.
pub open spec fn spec_rules(lang: FallbackLanguage) -> Seq<FallbackRule> {
    match lang {
        FallbackLanguage::Rust => seq![
            FallbackRule { pattern: r"^\s*(pub\s+)?(async\s+)?fn\s+(\w+)"@, group: 3, kind: FallbackKind::Function, prefix: ""@, start_char: 0 },
            FallbackRule { pattern: r"^\s*(pub\s+)?struct\s+(\w+)"@, group: 2, kind: FallbackKind::Struct, prefix: ""@, start_char: 0 },
            FallbackRule { pattern: r"^\s*(pub\s+)?enum\s+(\w+)"@, group: 2, kind: FallbackKind::Enum, prefix: ""@, start_char: 0 },
            FallbackRule { pattern: r"^\s*impl(?:\s+<[^>]+>)?\s+(\w+)"@, group: 1, kind: FallbackKind::Class, prefix: "impl "@, start_char: 0 },
            FallbackRule { pattern: r"^\s*(pub\s+)?trait\s+(\w+)"@, group: 2, kind: FallbackKind::Interface, prefix: ""@, start_char: 0 },
        ],
        FallbackLanguage::TypeScript | FallbackLanguage::JavaScript => seq![
            FallbackRule { pattern: r"^\s*(export\s+)?(async\s+)?function\s+(\w+)"@, group: 3, kind: FallbackKind::Function, prefix: ""@, start_char: 0 },
            FallbackRule { pattern: r"^\s*(export\s+)?class\s+(\w+)"@, group: 2, kind: FallbackKind::Class, prefix: ""@, start_char: 0 },
            FallbackRule { pattern: r"^\s*(export\s+)?interface\s+(\w+)"@, group: 2, kind: FallbackKind::Interface, prefix: ""@, start_char: 0 },
            FallbackRule { pattern: r"^\s*(export\s+)?const\s+(\w+)\s*=\s*(?:async\s+)?[(\[]"@, group: 2, kind: FallbackKind::Function, prefix: ""@, start_char: 0 },
            FallbackRule { pattern: r"^\s*(export\s+)?(const|let|var)\s+(\w+)"@, group: 3, kind: FallbackKind::Variable, prefix: ""@, start_char: 0 },
        ],
        FallbackLanguage::Python => seq![
            FallbackRule { pattern: r"^class\s+(\w+)"@, group: 1, kind: FallbackKind::Class, prefix: ""@, start_char: 0 },
            FallbackRule { pattern: r"^(?:async\s+)?def\s+(\w+)"@, group: 1, kind: FallbackKind::Function, prefix: ""@, start_char: 0 },
            FallbackRule { pattern: r"^\s+(?:async\s+)?def\s+(\w+)"@, group: 1, kind: FallbackKind::Method, prefix: ""@, start_char: 4 },
        ],
        FallbackLanguage::Go => seq![
            FallbackRule { pattern: r"^func\s+(?:\([^)]+\)\s+)?(\w+)"@, group: 1, kind: FallbackKind::Function, prefix: ""@, start_char: 0 },
            FallbackRule { pattern: r"^type\s+(\w+)\s+struct"@, group: 1, kind: FallbackKind::Struct, prefix: ""@, start_char: 0 },
            FallbackRule { pattern: r"^type\s+(\w+)\s+interface"@, group: 1, kind: FallbackKind::Interface, prefix: ""@, start_char: 0 },
            FallbackRule { pattern: r"^type\s+(\w+)\s+"@, group: 1, kind: FallbackKind::Class, prefix: ""@, start_char: 0 },
            FallbackRule { pattern: r"^(?:var|const)\s+(\w+)"@, group: 1, kind: FallbackKind::Variable, prefix: ""@, start_char: 0 },
        ],
    }
}

/// The rules as the scanner holds them.
pub open spec fn rule_view(r: (&'static str, usize, FallbackKind, &'static str, u32)) -> FallbackRule {
    FallbackRule { pattern: r.0@, group: r.1 as nat, kind: r.2, prefix: r.3@, start_char: r.4 }
}

fn rules(lang: FallbackLanguage) -> (r: Vec<(&'static str, usize, FallbackKind, &'static str, u32)>)
    ensures
        r@.map_values(|x: (&'static str, usize, FallbackKind, &'static str, u32)| rule_view(x)) == spec_rules(lang),
{
    let r = match lang {
        FallbackLanguage::Rust => vec![
            (r"^\s*(pub\s+)?(async\s+)?fn\s+(\w+)", 3, FallbackKind::Function, "", 0),
            (r"^\s*(pub\s+)?struct\s+(\w+)", 2, FallbackKind::Struct, "", 0),
            (r"^\s*(pub\s+)?enum\s+(\w+)", 2, FallbackKind::Enum, "", 0),
            (r"^\s*impl(?:\s+<[^>]+>)?\s+(\w+)", 1, FallbackKind::Class, "impl ", 0),
            (r"^\s*(pub\s+)?trait\s+(\w+)", 2, FallbackKind::Interface, "", 0),
        ],
        FallbackLanguage::TypeScript | FallbackLanguage::JavaScript => vec![
            (r"^\s*(export\s+)?(async\s+)?function\s+(\w+)", 3, FallbackKind::Function, "", 0),
            (r"^\s*(export\s+)?class\s+(\w+)", 2, FallbackKind::Class, "", 0),
            (r"^\s*(export\s+)?interface\s+(\w+)", 2, FallbackKind::Interface, "", 0),
            (r"^\s*(export\s+)?const\s+(\w+)\s*=\s*(?:async\s+)?[(\[]", 2, FallbackKind::Function, "", 0),
            (r"^\s*(export\s+)?(const|let|var)\s+(\w+)", 3, FallbackKind::Variable, "", 0),
        ],
        FallbackLanguage::Python => vec![
            (r"^class\s+(\w+)", 1, FallbackKind::Class, "", 0),
            (r"^(?:async\s+)?def\s+(\w+)", 1, FallbackKind::Function, "", 0),
            (r"^\s+(?:async\s+)?def\s+(\w+)", 1, FallbackKind::Method, "", 4),
        ],
        FallbackLanguage::Go => vec![
            (r"^func\s+(?:\([^)]+\)\s+)?(\w+)", 1, FallbackKind::Function, "", 0),
            (r"^type\s+(\w+)\s+struct", 1, FallbackKind::Struct, "", 0),
            (r"^type\s+(\w+)\s+interface", 1, FallbackKind::Interface, "", 0),
            (r"^type\s+(\w+)\s+", 1, FallbackKind::Class, "", 0),
            (r"^(?:var|const)\s+(\w+)", 1, FallbackKind::Variable, "", 0),
        ],
    };
    proof {
        assert(r@.map_values(|x: (&'static str, usize, FallbackKind, &'static str, u32)| rule_view(x)) =~= spec_rules(lang));
    }
    r
}

/// The first rule, at index `k` or later, whose pattern matches the line.
pub open spec fn first_matching(rs: Seq<FallbackRule>, line: Seq<char>, k: int) -> Option<int>
    decreases rs.len() - k,
{
    if k < 0 || k >= rs.len() {
        None
    } else if regex_captures_of(rs[k].pattern, line) is Some {
        Some(k)
    } else {
        first_matching(rs, line, k + 1)
    }
}

/// What a line gives: nothing when no pattern matches; otherwise, from the
/// first pattern that matches, a symbol named by the prefix and the name
/// group, spanning the line from the rule's start character to the line's
/// length in bytes, or an error when the name group took no part.
pub open spec fn spec_line_symbol(lang: FallbackLanguage, line_no: nat, line: Seq<char>) -> Result<Option<FallbackSymbolView>, FallbackError> {
    let rs = spec_rules(lang);
    match first_matching(rs, line, 0) {
        None => Ok(None),
        Some(k) => {
            let caps = regex_captures_of(rs[k].pattern, line).unwrap();
            if rs[k].group < caps.len() && caps[rs[k].group as int] is Some {
                Ok(Some(FallbackSymbolView {
                    name: rs[k].prefix + caps[rs[k].group as int].unwrap(),
                    kind: rs[k].kind,
                    range: Range {
                        start: Position { line: line_no as u32, character: rs[k].start_char },
                        end: Position { line: line_no as u32, character: (encode_utf8(line).len() as usize) as u32 },
                    },
                }))
            } else {
                Err(FallbackError::MissingCapture)
            }
        },
    }
}

/// The symbols of the first `n` lines, in line order, or the first error.
pub open spec fn spec_lines_symbols(lang: FallbackLanguage, lines: Seq<Seq<char>>, n: nat) -> Result<Seq<FallbackSymbolView>, FallbackError>
    decreases n,
{
    if n == 0 || n > lines.len() {
        Ok(Seq::empty())
    } else {
        match spec_lines_symbols(lang, lines, (n - 1) as nat) {
            Err(e) => Err(e),
            Ok(before) => match spec_line_symbol(lang, (n - 1) as nat, lines[n - 1]) {
                Err(e) => Err(e),
                Ok(None) => Ok(before),
                Ok(Some(s)) => Ok(before.push(s)),
            },
        }
    }
}

/// All patterns of the language compile.
pub open spec fn rules_valid(lang: FallbackLanguage) -> bool {
    forall|k: int| 0 <= k < spec_rules(lang).len() ==> regex_valid(#[trigger] spec_rules(lang)[k].pattern)
}

/// The fallback scan of a file's content: an error when a pattern of the
/// language does not compile; otherwise the symbols of its lines (see
/// [`spec_lines_symbols`]).
pub open spec fn spec_extract(lang: FallbackLanguage, content: Seq<char>) -> Result<Seq<FallbackSymbolView>, FallbackError> {
    if !rules_valid(lang) {
        Err(FallbackError::InvalidPattern)
    } else {
        let lines = spec_lines(content);
        spec_lines_symbols(lang, lines, lines.len())
    }
}

/// A line declares a name by `pattern`: the first of the language's
/// patterns that matches the line is the one at `k`, and `pattern`'s group
/// `group` captured the name.
pub open spec fn declares(lang: FallbackLanguage, line: Seq<char>, k: int, pattern: Seq<char>, group: int, name: Seq<char>) -> bool {
    &&& first_matching(spec_rules(lang), line, 0) == Some(k)
    &&& regex_captures_of(pattern, line) matches Some(caps) && 0 <= group < caps.len() && caps[group] == Some(name)
}

/// The symbol that a declaration line gives: its name and kind, and the
/// character it starts at.
pub open spec fn gives(lang: FallbackLanguage, line_no: nat, line: Seq<char>, name: Seq<char>, kind: FallbackKind, start: u32) -> bool {
    spec_line_symbol(lang, line_no, line) matches Ok(Some(s)) && s.name == name && s.kind == kind && s.range.start.character == start
        && s.range.start.line == line_no as u32
}

/// What the Rust declaration patterns give: functions, structs, enums, impl blocks (named `impl T`), traits, each a symbol of
/// its own kind named by the declared word, on the declaring line.
pub proof fn law_rust_declarations(line_no: nat, line: Seq<char>, name: Seq<char>)
    ensures
        declares(FallbackLanguage::Rust, line, 0, r"^\s*(pub\s+)?(async\s+)?fn\s+(\w+)"@, 3, name) ==> gives(FallbackLanguage::Rust, line_no, line, name, FallbackKind::Function, 0),
        declares(FallbackLanguage::Rust, line, 1, r"^\s*(pub\s+)?struct\s+(\w+)"@, 2, name) ==> gives(FallbackLanguage::Rust, line_no, line, name, FallbackKind::Struct, 0),
        declares(FallbackLanguage::Rust, line, 2, r"^\s*(pub\s+)?enum\s+(\w+)"@, 2, name) ==> gives(FallbackLanguage::Rust, line_no, line, name, FallbackKind::Enum, 0),
        declares(FallbackLanguage::Rust, line, 3, r"^\s*impl(?:\s+<[^>]+>)?\s+(\w+)"@, 1, name) ==> gives(FallbackLanguage::Rust, line_no, line, ("impl "@ + name), FallbackKind::Class, 0),
        declares(FallbackLanguage::Rust, line, 4, r"^\s*(pub\s+)?trait\s+(\w+)"@, 2, name) ==> gives(FallbackLanguage::Rust, line_no, line, name, FallbackKind::Interface, 0),
{
    reveal_strlit("");
    assert(""@ + name =~= name);
}

/// What the TypeScript (and JavaScript) declaration patterns give: functions, classes, interfaces, arrow functions, variables, each a symbol of
/// its own kind named by the declared word, on the declaring line.
pub proof fn law_typescript_declarations(line_no: nat, line: Seq<char>, name: Seq<char>)
    ensures
        declares(FallbackLanguage::TypeScript, line, 0, r"^\s*(export\s+)?(async\s+)?function\s+(\w+)"@, 3, name) ==> gives(FallbackLanguage::TypeScript, line_no, line, name, FallbackKind::Function, 0),
        declares(FallbackLanguage::TypeScript, line, 1, r"^\s*(export\s+)?class\s+(\w+)"@, 2, name) ==> gives(FallbackLanguage::TypeScript, line_no, line, name, FallbackKind::Class, 0),
        declares(FallbackLanguage::TypeScript, line, 2, r"^\s*(export\s+)?interface\s+(\w+)"@, 2, name) ==> gives(FallbackLanguage::TypeScript, line_no, line, name, FallbackKind::Interface, 0),
        declares(FallbackLanguage::TypeScript, line, 3, r"^\s*(export\s+)?const\s+(\w+)\s*=\s*(?:async\s+)?[(\[]"@, 2, name) ==> gives(FallbackLanguage::TypeScript, line_no, line, name, FallbackKind::Function, 0),
        declares(FallbackLanguage::TypeScript, line, 4, r"^\s*(export\s+)?(const|let|var)\s+(\w+)"@, 3, name) ==> gives(FallbackLanguage::TypeScript, line_no, line, name, FallbackKind::Variable, 0),
        declares(FallbackLanguage::JavaScript, line, 0, r"^\s*(export\s+)?(async\s+)?function\s+(\w+)"@, 3, name) ==> gives(FallbackLanguage::JavaScript, line_no, line, name, FallbackKind::Function, 0),
        declares(FallbackLanguage::JavaScript, line, 1, r"^\s*(export\s+)?class\s+(\w+)"@, 2, name) ==> gives(FallbackLanguage::JavaScript, line_no, line, name, FallbackKind::Class, 0),
        declares(FallbackLanguage::JavaScript, line, 2, r"^\s*(export\s+)?interface\s+(\w+)"@, 2, name) ==> gives(FallbackLanguage::JavaScript, line_no, line, name, FallbackKind::Interface, 0),
        declares(FallbackLanguage::JavaScript, line, 3, r"^\s*(export\s+)?const\s+(\w+)\s*=\s*(?:async\s+)?[(\[]"@, 2, name) ==> gives(FallbackLanguage::JavaScript, line_no, line, name, FallbackKind::Function, 0),
        declares(FallbackLanguage::JavaScript, line, 4, r"^\s*(export\s+)?(const|let|var)\s+(\w+)"@, 3, name) ==> gives(FallbackLanguage::JavaScript, line_no, line, name, FallbackKind::Variable, 0),
{
    reveal_strlit("");
    assert(""@ + name =~= name);
}

/// What the Python declaration patterns give: classes, functions, methods (from character 4), each a symbol of
/// its own kind named by the declared word, on the declaring line.
pub proof fn law_python_declarations(line_no: nat, line: Seq<char>, name: Seq<char>)
    ensures
        declares(FallbackLanguage::Python, line, 0, r"^class\s+(\w+)"@, 1, name) ==> gives(FallbackLanguage::Python, line_no, line, name, FallbackKind::Class, 0),
        declares(FallbackLanguage::Python, line, 1, r"^(?:async\s+)?def\s+(\w+)"@, 1, name) ==> gives(FallbackLanguage::Python, line_no, line, name, FallbackKind::Function, 0),
        declares(FallbackLanguage::Python, line, 2, r"^\s+(?:async\s+)?def\s+(\w+)"@, 1, name) ==> gives(FallbackLanguage::Python, line_no, line, name, FallbackKind::Method, 4),
{
    reveal_strlit("");
    assert(""@ + name =~= name);
}

/// What the Go declaration patterns give: functions, structs, interfaces, other types, variables and constants, each a symbol of
/// its own kind named by the declared word, on the declaring line.
pub proof fn law_go_declarations(line_no: nat, line: Seq<char>, name: Seq<char>)
    ensures
        declares(FallbackLanguage::Go, line, 0, r"^func\s+(?:\([^)]+\)\s+)?(\w+)"@, 1, name) ==> gives(FallbackLanguage::Go, line_no, line, name, FallbackKind::Function, 0),
        declares(FallbackLanguage::Go, line, 1, r"^type\s+(\w+)\s+struct"@, 1, name) ==> gives(FallbackLanguage::Go, line_no, line, name, FallbackKind::Struct, 0),
        declares(FallbackLanguage::Go, line, 2, r"^type\s+(\w+)\s+interface"@, 1, name) ==> gives(FallbackLanguage::Go, line_no, line, name, FallbackKind::Interface, 0),
        declares(FallbackLanguage::Go, line, 3, r"^type\s+(\w+)\s+"@, 1, name) ==> gives(FallbackLanguage::Go, line_no, line, name, FallbackKind::Class, 0),
        declares(FallbackLanguage::Go, line, 4, r"^(?:var|const)\s+(\w+)"@, 1, name) ==> gives(FallbackLanguage::Go, line_no, line, name, FallbackKind::Variable, 0),
{
    reveal_strlit("");
    assert(""@ + name =~= name);
}

/// Regex-based symbol extraction for one language.
pub struct FallbackIndexer {
    language: FallbackLanguage,
}

/// The language of a file extension: `rs` Rust; `ts`, `tsx` TypeScript;
/// `js`, `jsx` JavaScript; `py`, `pyi` Python; `go` Go.
pub open spec fn spec_language_of(ext: Seq<char>) -> Option<FallbackLanguage> {
    if ext == "rs"@ {
        Some(FallbackLanguage::Rust)
    } else if ext == "ts"@ || ext == "tsx"@ {
        Some(FallbackLanguage::TypeScript)
    } else if ext == "js"@ || ext == "jsx"@ {
        Some(FallbackLanguage::JavaScript)
    } else if ext == "py"@ || ext == "pyi"@ {
        Some(FallbackLanguage::Python)
    } else if ext == "go"@ {
        Some(FallbackLanguage::Go)
    } else {
        None
    }
}

impl FallbackIndexer {
    /// The indexer's language.
    pub closed spec fn language(&self) -> FallbackLanguage {
        self.language
    }

    /// An indexer for `language`.
    pub fn new(language: FallbackLanguage) -> (r: Self)
        ensures
            r.language() == language,
    {
        FallbackIndexer { language }
    }

    /// An indexer for the language of the path's extension (see
    /// [`spec_language_of`]); `None` without a known extension.
    pub fn from_extension(path: &str) -> (r: Option<Self>)
        ensures
            match spec_path_extension(path@) {
                Some(e) => match spec_language_of(e) {
                    Some(l) => r is Some && r.unwrap().language() == l,
                    None => r is None,
                },
                None => r is None,
            },
    {
        let e = match path_extension(path) {
            Some(e) => e,
            None => return None,
        };
        let x = e.as_slice();
        let language = if chars_eq_str(x, "rs") {
            FallbackLanguage::Rust
        } else if chars_eq_str(x, "ts") || chars_eq_str(x, "tsx") {
            FallbackLanguage::TypeScript
        } else if chars_eq_str(x, "js") || chars_eq_str(x, "jsx") {
            FallbackLanguage::JavaScript
        } else if chars_eq_str(x, "py") || chars_eq_str(x, "pyi") {
            FallbackLanguage::Python
        } else if chars_eq_str(x, "go") {
            FallbackLanguage::Go
        } else {
            return None;
        };
        Some(FallbackIndexer { language })
    }
}


proof fn lemma_first_matching_skip(rs: Seq<FallbackRule>, line: Seq<char>, k: int)
    requires
        0 <= k <= rs.len(),
        forall|j: int| 0 <= j < k ==> regex_captures_of(#[trigger] rs[j].pattern, line) is None,
    ensures
        first_matching(rs, line, 0) == first_matching(rs, line, k),
    decreases k,
{
    if k > 0 {
        lemma_first_matching_skip(rs, line, k - 1);
    }
}

fn line_symbol(rs: &Vec<(&'static str, usize, FallbackKind, &'static str, u32)>, lang: Ghost<FallbackLanguage>, line_no: usize, line: &str)
    -> (r: Result<Option<FallbackSymbol>, FallbackError>)
    requires
        rs@.map_values(|x: (&'static str, usize, FallbackKind, &'static str, u32)| rule_view(x)) == spec_rules(lang@),
        rules_valid(lang@),
    ensures
        match spec_line_symbol(lang@, line_no as nat, line@) {
            Ok(None) => r matches Ok(None),
            Ok(Some(sv)) => r matches Ok(Some(s)) && s@ == sv,
            Err(e) => r == Err::<Option<FallbackSymbol>, FallbackError>(e),
        },
{
    let ghost srs = spec_rules(lang@);
    let mut k: usize = 0;
    while k < rs.len()
        invariant
            k <= rs.len(),
            srs == spec_rules(lang@),
            rs@.map_values(|x: (&'static str, usize, FallbackKind, &'static str, u32)| rule_view(x)) == srs,
            rules_valid(lang@),
            forall|j: int| 0 <= j < k ==> regex_captures_of(#[trigger] srs[j].pattern, line@) is None,
        decreases rs.len() - k,
    {
        let rule = rs[k];
        proof {
            assert(srs[k as int] == rule_view(rule));
            assert(regex_valid(srs[k as int].pattern));
        }
        match regex_captures(rule.0, line) {
            Some(caps) => {
                proof {
                    lemma_first_matching_skip(srs, line@, k as int);
                }
                let g = rule.1;
                if g < caps.len() {
                    match &caps[g] {
                        Some(t) => {
                            let mut name = String::new();
                            push_str(&mut name, rule.3);
                            push_str(&mut name, t.as_str());
                            let end = line.len() as u32;
                            let s = FallbackSymbol {
                                name,
                                kind: rule.2,
                                range: Range {
                                    start: Position { line: line_no as u32, character: rule.4 },
                                    end: Position { line: line_no as u32, character: end },
                                },
                            };
                            return Ok(Some(s));
                        },
                        None => {
                            return Err(FallbackError::MissingCapture);
                        },
                    }
                } else {
                    return Err(FallbackError::MissingCapture);
                }
            },
            None => {},
        }
        k = k + 1;
    }
    proof {
        lemma_first_matching_skip(srs, line@, rs.len() as int);
    }
    Ok(None)
}

proof fn lemma_error_persists(lang: FallbackLanguage, lines: Seq<Seq<char>>, m: nat, n: nat)
    requires
        0 < m <= n <= lines.len(),
        spec_lines_symbols(lang, lines, m) is Err,
    ensures
        spec_lines_symbols(lang, lines, n) == spec_lines_symbols(lang, lines, m),
    decreases n - m,
{
    if n > m {
        lemma_error_persists(lang, lines, m, (n - 1) as nat);
    }
}

impl FallbackIndexer {
    /// Scans a file's content (see [`spec_extract`]).
    pub fn extract_symbols(&self, content: &str) -> (r: Result<Vec<FallbackSymbol>, FallbackError>)
        ensures
            match spec_extract(self.language(), content@) {
                Ok(v) => r matches Ok(out) && out@.map_values(|s: FallbackSymbol| s@) == v,
                Err(e) => r == Err::<Vec<FallbackSymbol>, FallbackError>(e),
            },
    {
        let rs = rules(self.language);
        let ghost lang = self.language;
        let ghost srs = spec_rules(lang);
        let mut k: usize = 0;
        while k < rs.len()
            invariant
                k <= rs.len(),
                srs == spec_rules(lang),
                rs@.map_values(|x: (&'static str, usize, FallbackKind, &'static str, u32)| rule_view(x)) == srs,
                forall|j: int| 0 <= j < k ==> regex_valid(#[trigger] srs[j].pattern),
                lang == self.language(),
            decreases rs.len() - k,
        {
            proof { assert(srs[k as int] == rule_view(rs@[k as int])); }
            if !regex_is_valid(rs[k].0) {
                proof {
                    assert(!regex_valid(spec_rules(lang)[k as int].pattern));
                    assert(!rules_valid(lang));
                }
                return Err(FallbackError::InvalidPattern);
            }
            k = k + 1;
        }
        let lines = str_lines(content);
        let ghost lv = lines@.map_values(|l: &str| l@);
        let mut out: Vec<FallbackSymbol> = Vec::new();
        let mut i: usize = 0;
        proof {
            assert(out@.map_values(|s: FallbackSymbol| s@) =~= Seq::<FallbackSymbolView>::empty());
            assert(lv.len() == lines.len());
        }
        while i < lines.len()
            invariant
                i <= lines.len(),
                lv == lines@.map_values(|l: &str| l@),
                lv == spec_lines(content@),
                srs == spec_rules(lang),
                lang == self.language(),
                rs@.map_values(|x: (&'static str, usize, FallbackKind, &'static str, u32)| rule_view(x)) == srs,
                rules_valid(lang),
                spec_lines_symbols(lang, lv, i as nat) == Ok::<Seq<FallbackSymbolView>, FallbackError>(out@.map_values(|s: FallbackSymbol| s@)),
            decreases lines.len() - i,
        {
            let ghost before = out@.map_values(|s: FallbackSymbol| s@);
            proof { assert(lv[i as int] == lines@[i as int]@); }
            match line_symbol(&rs, Ghost(lang), i, lines[i]) {
                Err(e) => {
                    proof {
                        assert(spec_lines_symbols(lang, lv, (i + 1) as nat) == Err::<Seq<FallbackSymbolView>, FallbackError>(e));
                        lemma_error_persists(lang, lv, (i + 1) as nat, lv.len());
                    }
                    return Err(e);
                },
                Ok(None) => {},
                Ok(Some(s)) => {
                    out.push(s);
                    proof { assert(out@.map_values(|s: FallbackSymbol| s@) =~= before.push(s@)); }
                },
            }
            i = i + 1;
        }
        Ok(out)
    }
}

} // verus!
