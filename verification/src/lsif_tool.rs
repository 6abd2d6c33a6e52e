//! The `lsif` tool's own logic: the language of a file extension and its
//! language server, the quick scan that indexes one Rust file without a
//! language server, and the parsing of interactive commands.
use vstd::prelude::*;

use crate::differential_indexer::{extract_function_name, extract_struct_name};
use crate::graph::{Position, Range, Symbol, SymbolKind, SymbolView};
use crate::minimal_language_adapter::chars_eq_str;
use crate::text::{is_whitespace, spec_is_whitespace, string_push};
use crate::symbol_extraction::{cut_name, spec_cut_name, strip_prefix_all, take_until};
use crate::text::{
    chars_of, has_prefix, push_decimal, push_str, spec_decimal, spec_lines, spec_trim, str_lines, str_starts_with,
    str_to_string, string_from_chars, trim_chars,
};

verus! {

/// The languages the tool can index.
#[derive(Clone, Copy, Debug, PartialEq, Eq, Structural)]
pub enum Language {
    Rust,
    TypeScript,
    JavaScript,
    Python,
    Go,
    Java,
    Cpp,
}

/// The language server program of a language.
pub open spec fn spec_lsp_binary(l: Language) -> Seq<char> {
    match l {
        Language::Rust => "rust-analyzer"@,
        Language::TypeScript | Language::JavaScript => "typescript-language-server"@,
        Language::Python => "pylsp"@,
        Language::Go => "gopls"@,
        Language::Java => "jdtls"@,
        Language::Cpp => "clangd"@,
    }
}

/// The language of an extension: `rs`; `ts`, `tsx`; `js`, `jsx`; `py`;
/// `go`; `java`; `cpp`, `cc`, `cxx`, `hpp`, `h`.
pub open spec fn spec_language_from_extension(ext: Seq<char>) -> Option<Language> {
    if ext == "rs"@ {
        Some(Language::Rust)
    } else if ext == "ts"@ || ext == "tsx"@ {
        Some(Language::TypeScript)
    } else if ext == "js"@ || ext == "jsx"@ {
        Some(Language::JavaScript)
    } else if ext == "py"@ {
        Some(Language::Python)
    } else if ext == "go"@ {
        Some(Language::Go)
    } else if ext == "java"@ {
        Some(Language::Java)
    } else if ext == "cpp"@ || ext == "cc"@ || ext == "cxx"@ || ext == "hpp"@ || ext == "h"@ {
        Some(Language::Cpp)
    } else {
        None
    }
}

impl Language {
    /// The language server program (see [`spec_lsp_binary`]).
    pub fn to_lsp_binary(&self) -> (r: &'static str)
        ensures
            r@ == spec_lsp_binary(*self),
    {
        match self {
            Language::Rust => "rust-analyzer",
            Language::TypeScript | Language::JavaScript => "typescript-language-server",
            Language::Python => "pylsp",
            Language::Go => "gopls",
            Language::Java => "jdtls",
            Language::Cpp => "clangd",
        }
    }

    /// The language of a file extension (see
    /// [`spec_language_from_extension`]).
    pub fn from_extension(ext: &str) -> (r: Option<Language>)
        ensures
            r == spec_language_from_extension(ext@),
    {
        let e = chars_of(ext);
        let x = e.as_slice();
        if chars_eq_str(x, "rs") {
            Some(Language::Rust)
        } else if chars_eq_str(x, "ts") || chars_eq_str(x, "tsx") {
            Some(Language::TypeScript)
        } else if chars_eq_str(x, "js") || chars_eq_str(x, "jsx") {
            Some(Language::JavaScript)
        } else if chars_eq_str(x, "py") {
            Some(Language::Python)
        } else if chars_eq_str(x, "go") {
            Some(Language::Go)
        } else if chars_eq_str(x, "java") {
            Some(Language::Java)
        } else if chars_eq_str(x, "cpp") || chars_eq_str(x, "cc") || chars_eq_str(x, "cxx") || chars_eq_str(x, "hpp")
            || chars_eq_str(x, "h") {
            Some(Language::Cpp)
        } else {
            None
        }
    }
}

/// Stripping every leading `p` twice strips no more than once.
proof fn lemma_strip_twice(s: Seq<char>, p: Seq<char>)
    ensures
        strip_prefix_all(strip_prefix_all(s, p), p) == strip_prefix_all(s, p),
    decreases s.len(),
{
    if p.len() > 0 && has_prefix(s, p) {
        lemma_strip_twice(s.subrange(p.len() as int, s.len() as int), p);
    }
}

/// The name of an impl line: after every leading `impl `, up to the first
/// space, `<` or `{`.
pub open spec fn spec_impl_name(line: Seq<char>) -> Seq<char> {
    take_until(strip_prefix_all(line, "impl "@), seq![' ', '<', '{'])
}

/// The type name of an impl line (see [`spec_impl_name`]); always found,
/// possibly empty.
pub fn extract_impl_name(line: &str) -> (r: Option<&str>)
    ensures
        r is Some,
        r.unwrap()@ == spec_impl_name(line@),
{
    proof {
        reveal_strlit("impl ");
        lemma_strip_twice(line@, "impl "@);
    }
    let stops = [' ', '<', '{'];
    Some(cut_name(line, "impl ", "impl ", &stops))
}

/// A symbol of the quick scan on line `line_no` (zero-based): its id is
/// `path#N:0:id_name` with the one-based line number `N`; it spans from the
/// start of its line to the start of the next.
pub open spec fn scan_symbol(path: Seq<char>, line_no: nat, kind: SymbolKind, id_name: Seq<char>, name: Seq<char>) -> SymbolView {
    SymbolView {
        id: path + seq!['#'] + spec_decimal(line_no + 1) + ":0:"@ + id_name,
        kind,
        name,
        file_path: path,
        range: Range {
            start: Position { line: line_no as u32, character: 0 },
            end: Position { line: ((line_no as u32) + 1) as u32, character: 0 },
        },
        documentation: None,
    }
}

/// The symbols the quick scan finds on one line of a Rust file: a function
/// when the trimmed line starts with `fn ` or `pub fn `; a struct (kind
/// `Class`) when it starts with `struct ` or `pub struct `; an impl block
/// (kind `Class`, named `impl T`, id name `impl_T`) when it starts with
/// `impl `.
pub open spec fn scan_line_symbols(path: Seq<char>, line: Seq<char>, line_no: nat) -> Seq<SymbolView> {
    let t = spec_trim(line);
    let f = if has_prefix(t, "fn "@) || has_prefix(t, "pub fn "@) {
        let n = spec_cut_name(t, "pub "@, "fn "@, seq!['(', '<']);
        seq![scan_symbol(path, line_no, SymbolKind::Function, n, n)]
    } else {
        Seq::empty()
    };
    let s = if has_prefix(t, "struct "@) || has_prefix(t, "pub struct "@) {
        let n = spec_cut_name(t, "pub "@, "struct "@, seq![' ', '<', '{']);
        seq![scan_symbol(path, line_no, SymbolKind::Class, n, n)]
    } else {
        Seq::empty()
    };
    let i = if has_prefix(t, "impl "@) {
        let n = spec_impl_name(t);
        seq![scan_symbol(path, line_no, SymbolKind::Class, "impl_"@ + n, "impl "@ + n)]
    } else {
        Seq::empty()
    };
    f + s + i
}

/// The quick scan of all lines, in line order.
pub open spec fn scan_lines(path: Seq<char>, lines: Seq<Seq<char>>) -> Seq<SymbolView>
    decreases lines.len(),
{
    if lines.len() == 0 {
        Seq::empty()
    } else {
        scan_lines(path, lines.drop_last()) + scan_line_symbols(path, lines.last(), (lines.len() - 1) as nat)
    }
}

/// The symbol that stands for a file in which the scan finds nothing: id
/// `path#file`, a variable named after the file (`unknown` without a file
/// name), on its first line.
pub open spec fn file_placeholder(path: Seq<char>, file_name: Option<Seq<char>>) -> SymbolView {
    SymbolView {
        id: path + "#file"@,
        kind: SymbolKind::Variable,
        name: match file_name {
            Some(n) => n,
            None => "unknown"@,
        },
        file_path: path,
        range: Range { start: Position { line: 0, character: 0 }, end: Position { line: 1, character: 0 } },
        documentation: None,
    }
}

/// The symbols of one file: for a Rust file the quick scan of its lines;
/// when that finds nothing (or the file is not Rust), the placeholder.
pub open spec fn spec_index_file_symbols(path: Seq<char>, content: Seq<char>, is_rust: bool, file_name: Option<Seq<char>>) -> Seq<SymbolView> {
    let found = if is_rust { scan_lines(path, spec_lines(content)) } else { Seq::empty() };
    if found.len() == 0 {
        seq![file_placeholder(path, file_name)]
    } else {
        found
    }
}

fn scan_symbol_exec(path: &str, line_no: usize, kind: SymbolKind, id_prefix: &str, name_prefix: &str, name: &str) -> (r: Symbol)
    requires
        line_no < u32::MAX,
    ensures
        r@ == scan_symbol(path@, line_no as nat, kind, id_prefix@ + name@, name_prefix@ + name@),
{
    let mut id = String::new();
    push_str(&mut id, path);
    push_str(&mut id, "#");
    push_decimal(&mut id, (line_no + 1) as u64);
    push_str(&mut id, ":0:");
    push_str(&mut id, id_prefix);
    push_str(&mut id, name);
    let mut full = String::new();
    push_str(&mut full, name_prefix);
    push_str(&mut full, name);
    let r = Symbol {
        id,
        kind,
        name: full,
        file_path: str_to_string(path),
        range: Range {
            start: Position { line: line_no as u32, character: 0 },
            end: Position { line: line_no as u32 + 1, character: 0 },
        },
        documentation: None,
    };
    proof {
        reveal_strlit("#");
        assert(r@.id =~= scan_symbol(path@, line_no as nat, kind, id_prefix@ + name@, name_prefix@ + name@).id);
        assert(r@.name =~= name_prefix@ + name@);
    }
    r
}

fn scan_line(path: &str, line: &str, line_no: usize, out: &mut Vec<Symbol>)
    requires
        line_no < u32::MAX,
    ensures
        final(out)@.map_values(|s: Symbol| s@) == old(out)@.map_values(|s: Symbol| s@) + scan_line_symbols(path@, line@, line_no as nat),
{
    let ghost before = out@.map_values(|s: Symbol| s@);
    let tc = trim_chars(chars_of(line).as_slice());
    let trimmed = string_from_chars(tc.as_slice());
    let t = trimmed.as_str();
    proof {
        reveal_strlit("");
    }
    if str_starts_with(t, "fn ") || str_starts_with(t, "pub fn ") {
        let name = extract_function_name(t).unwrap();
        out.push(scan_symbol_exec(path, line_no, SymbolKind::Function, "", "", name));
        proof {
            assert(""@ + name@ =~= name@);
        }
    }
    let ghost mid1 = out@.map_values(|s: Symbol| s@);
    if str_starts_with(t, "struct ") || str_starts_with(t, "pub struct ") {
        let name = extract_struct_name(t).unwrap();
        out.push(scan_symbol_exec(path, line_no, SymbolKind::Class, "", "", name));
        proof {
            assert(""@ + name@ =~= name@);
        }
    }
    if str_starts_with(t, "impl ") {
        let name = extract_impl_name(t).unwrap();
        out.push(scan_symbol_exec(path, line_no, SymbolKind::Class, "impl_", "impl ", name));
    }
    proof {
        assert(out@.map_values(|s: Symbol| s@) =~= before + scan_line_symbols(path@, line@, line_no as nat));
    }
}

/// The symbols the tool indexes for one file (see
/// [`spec_index_file_symbols`]); `path` is how the file's path is shown,
/// `file_name` its last component.
pub fn index_file_symbols(path: &str, content: &str, is_rust: bool, file_name: Option<&str>) -> (r: Vec<Symbol>)
    requires
        spec_lines(content@).len() <= u32::MAX,
    ensures
        r@.map_values(|s: Symbol| s@) == spec_index_file_symbols(
            path@,
            content@,
            is_rust,
            match file_name {
                Some(n) => Some(n@),
                None => None,
            },
        ),
{
    let mut r: Vec<Symbol> = Vec::new();
    if is_rust {
        let lines = str_lines(content);
        let ghost lv = lines@.map_values(|l: &str| l@);
        let mut i: usize = 0;
        while i < lines.len()
            invariant
                i <= lines.len(),
                lv == lines@.map_values(|l: &str| l@),
                lv == spec_lines(content@),
                lv.len() <= u32::MAX,
                r@.map_values(|s: Symbol| s@) == scan_lines(path@, lv.subrange(0, i as int)),
            decreases lines.len() - i,
        {
            scan_line(path, lines[i], i, &mut r);
            proof {
                assert(lv.subrange(0, i + 1).drop_last() =~= lv.subrange(0, i as int));
                assert(lv.subrange(0, i + 1).last() == lines@[i as int]@);
            }
            i = i + 1;
        }
        proof {
            assert(lv.subrange(0, lines.len() as int) =~= lv);
        }
    } else {
        proof {
            assert(r@.map_values(|s: Symbol| s@) =~= Seq::<SymbolView>::empty());
        }
    }
    if r.len() == 0 {
        let mut id = String::new();
        push_str(&mut id, path);
        push_str(&mut id, "#file");
        let name = match file_name {
            Some(n) => str_to_string(n),
            None => str_to_string("unknown"),
        };
        r.push(Symbol {
            id,
            kind: SymbolKind::Variable,
            name,
            file_path: str_to_string(path),
            range: Range { start: Position { line: 0, character: 0 }, end: Position { line: 1, character: 0 } },
            documentation: None,
        });
        proof {
            assert(r@.map_values(|s: Symbol| s@) =~= seq![file_placeholder(
                path@,
                match file_name {
                    Some(n) => Some(n@),
                    None => None,
                },
            )]);
        }
    }
    r
}


/// The words of `s` from position `i` on, `cur` being the word read so far:
/// maximal runs of non-whitespace characters (`str::split_whitespace`).
pub open spec fn words_acc(s: Seq<char>, i: int, cur: Seq<char>) -> Seq<Seq<char>>
    decreases s.len() - i,
{
    if i < 0 || i >= s.len() {
        if cur.len() > 0 { seq![cur] } else { Seq::empty() }
    } else if spec_is_whitespace(s[i]) {
        (if cur.len() > 0 { seq![cur] } else { Seq::<Seq<char>>::empty() }) + words_acc(s, i + 1, Seq::empty())
    } else {
        words_acc(s, i + 1, cur.push(s[i]))
    }
}

/// The whitespace-separated words of `s`.
pub open spec fn spec_words(s: Seq<char>) -> Seq<Seq<char>> {
    words_acc(s, 0, Seq::empty())
}

/// The words joined with single spaces.
pub open spec fn join_space(ws: Seq<Seq<char>>) -> Seq<char>
    decreases ws.len(),
{
    if ws.len() == 0 {
        Seq::empty()
    } else if ws.len() == 1 {
        ws[0]
    } else {
        join_space(ws.drop_last()) + seq![' '] + ws.last()
    }
}

/// A command of the interactive explorer.
#[derive(Debug, PartialEq, Eq)]
pub enum InteractiveCommand {
    /// Nothing was typed.
    Empty,
    Help,
    /// Search symbols for the query.
    Search(String),
    /// `search` without a query.
    SearchUsage,
    /// Find the definition of a symbol.
    Find(String),
    /// `find` without a symbol.
    FindUsage,
    /// Find references to a symbol.
    Refs(String),
    /// `refs` without a symbol.
    RefsUsage,
    Last,
    Stats,
    Clear,
    Quit,
    /// An unknown command word.
    Unknown(String),
}

/// A command as characters.
pub enum InteractiveCommandView {
    Empty,
    Help,
    Search(Seq<char>),
    SearchUsage,
    Find(Seq<char>),
    FindUsage,
    Refs(Seq<char>),
    RefsUsage,
    Last,
    Stats,
    Clear,
    Quit,
    Unknown(Seq<char>),
}

impl View for InteractiveCommand {
    type V = InteractiveCommandView;

    open spec fn view(&self) -> InteractiveCommandView {
        match self {
            InteractiveCommand::Empty => InteractiveCommandView::Empty,
            InteractiveCommand::Help => InteractiveCommandView::Help,
            InteractiveCommand::Search(q) => InteractiveCommandView::Search(q@),
            InteractiveCommand::SearchUsage => InteractiveCommandView::SearchUsage,
            InteractiveCommand::Find(q) => InteractiveCommandView::Find(q@),
            InteractiveCommand::FindUsage => InteractiveCommandView::FindUsage,
            InteractiveCommand::Refs(q) => InteractiveCommandView::Refs(q@),
            InteractiveCommand::RefsUsage => InteractiveCommandView::RefsUsage,
            InteractiveCommand::Last => InteractiveCommandView::Last,
            InteractiveCommand::Stats => InteractiveCommandView::Stats,
            InteractiveCommand::Clear => InteractiveCommandView::Clear,
            InteractiveCommand::Quit => InteractiveCommandView::Quit,
            InteractiveCommand::Unknown(w) => InteractiveCommandView::Unknown(w@),
        }
    }
}

/// An input line of the interactive explorer as a command: its first word
/// names the command (`help`/`h`, `search`/`s`, `find`/`f`, `refs`/`r`,
/// `last`/`l`, `stats`, `clear`/`cls`, `quit`/`q`/`exit`); for search, find
/// and refs the remaining words, joined with single spaces, are the
/// argument, and without them the command's usage is asked for.
pub open spec fn spec_parse_interactive(input: Seq<char>) -> InteractiveCommandView {
    let ws = spec_words(input);
    if ws.len() == 0 {
        InteractiveCommandView::Empty
    } else {
        let c = ws[0];
        let arg = join_space(ws.drop_first());
        if c == "help"@ || c == "h"@ {
            InteractiveCommandView::Help
        } else if c == "search"@ || c == "s"@ {
            if ws.len() < 2 { InteractiveCommandView::SearchUsage } else { InteractiveCommandView::Search(arg) }
        } else if c == "find"@ || c == "f"@ {
            if ws.len() < 2 { InteractiveCommandView::FindUsage } else { InteractiveCommandView::Find(arg) }
        } else if c == "refs"@ || c == "r"@ {
            if ws.len() < 2 { InteractiveCommandView::RefsUsage } else { InteractiveCommandView::Refs(arg) }
        } else if c == "last"@ || c == "l"@ {
            InteractiveCommandView::Last
        } else if c == "stats"@ {
            InteractiveCommandView::Stats
        } else if c == "clear"@ || c == "cls"@ {
            InteractiveCommandView::Clear
        } else if c == "quit"@ || c == "q"@ || c == "exit"@ {
            InteractiveCommandView::Quit
        } else {
            InteractiveCommandView::Unknown(c)
        }
    }
}

/// The whitespace-separated words of `s` (see [`spec_words`]).
pub fn split_words(s: &str) -> (r: Vec<Vec<char>>)
    ensures
        r@.map_values(|w: Vec<char>| w@) == spec_words(s@),
{
    let cs = chars_of(s);
    let mut out: Vec<Vec<char>> = Vec::new();
    let mut cur: Vec<char> = Vec::new();
    let mut i: usize = 0;
    while i < cs.len()
        invariant
            cs@ == s@,
            i <= cs.len(),
            out@.map_values(|w: Vec<char>| w@) + words_acc(cs@, i as int, cur@) == spec_words(s@),
        decreases cs.len() - i,
    {
        let ghost before = out@.map_values(|w: Vec<char>| w@);
        let ghost c0 = cur@;
        if is_whitespace(cs[i]) {
            if cur.len() > 0 {
                let w = cur;
                out.push(w);
                cur = Vec::new();
                proof {
                    assert(out@.map_values(|w: Vec<char>| w@) =~= before + seq![c0]);
                    assert(before + seq![c0] + words_acc(cs@, i + 1, Seq::empty()) =~= before + (seq![c0] + words_acc(cs@, i + 1, Seq::empty())));
                }
            } else {
                proof {
                    assert(Seq::<Seq<char>>::empty() + words_acc(cs@, i + 1, Seq::empty()) =~= words_acc(cs@, i + 1, Seq::empty()));
                }
            }
            proof { assert(cur@ =~= Seq::<char>::empty()); }
        } else {
            cur.push(cs[i]);
        }
        i = i + 1;
    }
    if cur.len() > 0 {
        let ghost before = out@.map_values(|w: Vec<char>| w@);
        let ghost c0 = cur@;
        out.push(cur);
        proof {
            assert(out@.map_values(|w: Vec<char>| w@) =~= before + seq![c0]);
        }
    } else {
        proof {
            assert(out@.map_values(|w: Vec<char>| w@) + Seq::<Seq<char>>::empty() =~= out@.map_values(|w: Vec<char>| w@));
        }
    }
    out
}

/// The words from index 1 on, joined with single spaces.
fn join_rest(ws: &Vec<Vec<char>>) -> (r: String)
    requires
        ws.len() >= 1,
    ensures
        r@ == join_space(ws@.map_values(|w: Vec<char>| w@).drop_first()),
{
    let ghost v = ws@.map_values(|w: Vec<char>| w@);
    let mut r = String::new();
    let mut i: usize = 1;
    while i < ws.len()
        invariant
            1 <= i <= ws.len(),
            v == ws@.map_values(|w: Vec<char>| w@),
            r@ == join_space(v.subrange(1, i as int)),
        decreases ws.len() - i,
    {
        let ghost before = r@;
        if i > 1 {
            string_push(&mut r, ' ');
        }
        let mut k: usize = 0;
        let ghost mid = r@;
        while k < ws[i].len()
            invariant
                k <= ws@[i as int].len(),
                i < ws.len(),
                r@ == mid + ws@[i as int]@.subrange(0, k as int),
            decreases ws@[i as int].len() - k,
        {
            string_push(&mut r, ws[i][k]);
            proof { assert(r@ =~= mid + ws@[i as int]@.subrange(0, k + 1)); }
            k = k + 1;
        }
        proof {
            assert(ws@[i as int]@.subrange(0, k as int) =~= v[i as int]);
            let p = v.subrange(1, i + 1);
            assert(p.drop_last() =~= v.subrange(1, i as int));
            if i > 1 {
                assert(r@ =~= join_space(p.drop_last()) + seq![' '] + p.last());
            } else {
                assert(p.len() == 1);
                assert(r@ =~= p[0]);
            }
        }
        i = i + 1;
    }
    proof {
        assert(v.subrange(1, ws.len() as int) =~= v.drop_first());
    }
    r
}

fn word_is(w: &Vec<char>, s: &str) -> (r: bool)
    ensures
        r == (w@ == s@),
{
    chars_eq_str(w.as_slice(), s)
}

/// Parses an input line of the interactive explorer (see
/// [`spec_parse_interactive`]).
pub fn parse_interactive(input: &str) -> (r: InteractiveCommand)
    ensures
        r@ == spec_parse_interactive(input@),
{
    let ws = split_words(input);
    let ghost v = ws@.map_values(|w: Vec<char>| w@);
    if ws.len() == 0 {
        return InteractiveCommand::Empty;
    }
    let c = &ws[0];
    proof { assert(v[0] == c@); }
    if word_is(c, "help") || word_is(c, "h") {
        InteractiveCommand::Help
    } else if word_is(c, "search") || word_is(c, "s") {
        if ws.len() < 2 { InteractiveCommand::SearchUsage } else { InteractiveCommand::Search(join_rest(&ws)) }
    } else if word_is(c, "find") || word_is(c, "f") {
        if ws.len() < 2 { InteractiveCommand::FindUsage } else { InteractiveCommand::Find(join_rest(&ws)) }
    } else if word_is(c, "refs") || word_is(c, "r") {
        if ws.len() < 2 { InteractiveCommand::RefsUsage } else { InteractiveCommand::Refs(join_rest(&ws)) }
    } else if word_is(c, "last") || word_is(c, "l") {
        InteractiveCommand::Last
    } else if word_is(c, "stats") {
        InteractiveCommand::Stats
    } else if word_is(c, "clear") || word_is(c, "cls") {
        InteractiveCommand::Clear
    } else if word_is(c, "quit") || word_is(c, "q") || word_is(c, "exit") {
        InteractiveCommand::Quit
    } else {
        InteractiveCommand::Unknown(string_from_chars(c.as_slice()))
    }
}

} // verus!
