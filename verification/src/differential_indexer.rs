//! The differential indexer's own logic: a quick line-based scan for Rust
//! functions and structs and TypeScript functions and classes, what each
//! detected file change does to the index, and the counts it reports.
use vstd::prelude::*;

use crate::git_diff::{has_component, FileChange, FileChangeStatus};
use crate::graph::{CodeGraph, EdgeKind, Position, Range, Symbol, SymbolKind, SymbolView};
use crate::parallel_optimized::{add_in_order, index_after, lemma_index_after_concat};
use crate::stable_graph::{node_index_new, node_index_value};
use crate::text::str_eq;
use std::time::Duration;
use crate::symbol_extraction::{cut_name, spec_cut_name};
use crate::text::{
    chars_of, has_prefix, push_decimal, push_str, spec_decimal, spec_lines, spec_trim, str_lines, str_starts_with,
    str_to_string, string_from_chars, string_push, trim_chars,
};
use vstd::utf8::encode_utf8;

verus! {

/// The name in a Rust function line: after any `pub ` and `fn ` prefixes,
/// up to the first `(` or `<`.
pub fn extract_function_name(line: &str) -> (r: Option<&str>)
    ensures
        r is Some,
        r.unwrap()@ == spec_cut_name(line@, "pub "@, "fn "@, seq!['(', '<']),
{
    proof {
        reveal_strlit("pub ");
        reveal_strlit("fn ");
    }
    let stops = ['(', '<'];
    Some(cut_name(line, "pub ", "fn ", &stops))
}

/// The name in a Rust struct line: after any `pub ` and `struct ` prefixes,
/// up to the first space, `<` or `{`.
pub fn extract_struct_name(line: &str) -> (r: Option<&str>)
    ensures
        r is Some,
        r.unwrap()@ == spec_cut_name(line@, "pub "@, "struct "@, seq![' ', '<', '{']),
{
    proof {
        reveal_strlit("pub ");
        reveal_strlit("struct ");
    }
    let stops = [' ', '<', '{'];
    Some(cut_name(line, "pub ", "struct ", &stops))
}

/// The name in a TypeScript function line: after any `export ` and
/// `function ` prefixes, up to the first `(` or `<`.
pub fn extract_ts_function_name(line: &str) -> (r: Option<&str>)
    ensures
        r is Some,
        r.unwrap()@ == spec_cut_name(line@, "export "@, "function "@, seq!['(', '<']),
{
    proof {
        reveal_strlit("export ");
        reveal_strlit("function ");
    }
    let stops = ['(', '<'];
    Some(cut_name(line, "export ", "function ", &stops))
}

/// The name in a TypeScript class line: after any `export ` and `class `
/// prefixes, up to the first space, `<` or `{`.
pub fn extract_ts_class_name(line: &str) -> (r: Option<&str>)
    ensures
        r is Some,
        r.unwrap()@ == spec_cut_name(line@, "export "@, "class "@, seq![' ', '<', '{']),
{
    proof {
        reveal_strlit("export ");
        reveal_strlit("class ");
    }
    let stops = [' ', '<', '{'];
    Some(cut_name(line, "export ", "class ", &stops))
}

/// A symbol found on line `line_no` (zero-based) of a file: its id is
/// `path#N:name` with the one-based line number `N`; it spans the line from
/// character 0 to the line's length in bytes.
pub open spec fn line_symbol(path: Seq<char>, line: Seq<char>, line_no: nat, kind: SymbolKind, name: Seq<char>) -> SymbolView {
    SymbolView {
        id: path + seq!['#'] + spec_decimal(line_no + 1) + seq![':'] + name,
        kind,
        name,
        file_path: path,
        range: Range {
            start: Position { line: line_no as u32, character: 0 },
            end: Position { line: line_no as u32, character: (encode_utf8(line).len() as usize) as u32 },
        },
        documentation: None,
    }
}

/// The Rust symbols of one line: a function when the trimmed line starts
/// with `fn ` or `pub fn `, a struct (kind `Class`) when it starts with
/// `struct ` or `pub struct `.
pub open spec fn rust_line_symbols(path: Seq<char>, line: Seq<char>, line_no: nat) -> Seq<SymbolView> {
    let t = spec_trim(line);
    let f = if has_prefix(t, "fn "@) || has_prefix(t, "pub fn "@) {
        seq![line_symbol(path, line, line_no, SymbolKind::Function, spec_cut_name(t, "pub "@, "fn "@, seq!['(', '<']))]
    } else {
        Seq::empty()
    };
    let s = if has_prefix(t, "struct "@) || has_prefix(t, "pub struct "@) {
        seq![line_symbol(path, line, line_no, SymbolKind::Class, spec_cut_name(t, "pub "@, "struct "@, seq![' ', '<', '{']))]
    } else {
        Seq::empty()
    };
    f + s
}

/// The TypeScript symbols of one line: a function when the trimmed line
/// starts with `function ` or `export function `, a class when it starts with
/// `class ` or `export class `.
pub open spec fn ts_line_symbols(path: Seq<char>, line: Seq<char>, line_no: nat) -> Seq<SymbolView> {
    let t = spec_trim(line);
    let f = if has_prefix(t, "function "@) || has_prefix(t, "export function "@) {
        seq![line_symbol(path, line, line_no, SymbolKind::Function, spec_cut_name(t, "export "@, "function "@, seq!['(', '<']))]
    } else {
        Seq::empty()
    };
    let c = if has_prefix(t, "class "@) || has_prefix(t, "export class "@) {
        seq![line_symbol(path, line, line_no, SymbolKind::Class, spec_cut_name(t, "export "@, "class "@, seq![' ', '<', '{']))]
    } else {
        Seq::empty()
    };
    f + c
}

/// The symbols of all lines, in line order (`typescript` picks the
/// TypeScript rules, otherwise the Rust rules).
pub open spec fn file_symbols(path: Seq<char>, lines: Seq<Seq<char>>, typescript: bool) -> Seq<SymbolView>
    decreases lines.len(),
{
    if lines.len() == 0 {
        Seq::empty()
    } else {
        let n = (lines.len() - 1) as nat;
        file_symbols(path, lines.drop_last(), typescript) + if typescript {
            ts_line_symbols(path, lines.last(), n)
        } else {
            rust_line_symbols(path, lines.last(), n)
        }
    }
}

proof fn lemma_file_symbols_keep_line(path: Seq<char>, lines: Seq<Seq<char>>, typescript: bool, i: int, x: SymbolView)
    requires
        0 <= i < lines.len(),
        (if typescript { ts_line_symbols(path, lines[i], i as nat) } else { rust_line_symbols(path, lines[i], i as nat) }).contains(x),
    ensures
        file_symbols(path, lines, typescript).contains(x),
    decreases lines.len(),
{
    let n = lines.len() - 1;
    let pre = file_symbols(path, lines.drop_last(), typescript);
    let last = if typescript { ts_line_symbols(path, lines.last(), n as nat) } else { rust_line_symbols(path, lines.last(), n as nat) };
    assert(file_symbols(path, lines, typescript) == pre + last);
    if i == n {
        let j = choose|j: int| 0 <= j < last.len() && last[j] == x;
        assert((pre + last)[pre.len() + j] == x);
    } else {
        assert(lines.drop_last()[i] == lines[i]);
        lemma_file_symbols_keep_line(path, lines.drop_last(), typescript, i, x);
        let j = choose|j: int| 0 <= j < pre.len() && pre[j] == x;
        assert((pre + last)[j] == x);
    }
}

/// Every declaration line is indexed. In Rust, a line whose trimmed text
/// starts with `fn ` or `pub fn ` gives a function, and one starting with
/// `struct ` or `pub struct ` gives a struct (kind `Class`); in TypeScript,
/// `function `, `export function `, `class ` and `export class ` give a
/// function or a class. The symbol is named by the word after the keyword
/// and lies in the file, on that line.
pub proof fn law_declaration_lines_indexed(path: Seq<char>, lines: Seq<Seq<char>>, i: int)
    requires
        0 <= i < lines.len(),
    ensures
        ({
            let t = spec_trim(lines[i]);
            &&& has_prefix(t, "fn "@) || has_prefix(t, "pub fn "@) ==> file_symbols(path, lines, false).contains(
                line_symbol(path, lines[i], i as nat, SymbolKind::Function, spec_cut_name(t, "pub "@, "fn "@, seq!['(', '<'])))
            &&& has_prefix(t, "struct "@) || has_prefix(t, "pub struct "@) ==> file_symbols(path, lines, false).contains(
                line_symbol(path, lines[i], i as nat, SymbolKind::Class, spec_cut_name(t, "pub "@, "struct "@, seq![' ', '<', '{'])))
            &&& has_prefix(t, "function "@) || has_prefix(t, "export function "@) ==> file_symbols(path, lines, true).contains(
                line_symbol(path, lines[i], i as nat, SymbolKind::Function, spec_cut_name(t, "export "@, "function "@, seq!['(', '<'])))
            &&& has_prefix(t, "class "@) || has_prefix(t, "export class "@) ==> file_symbols(path, lines, true).contains(
                line_symbol(path, lines[i], i as nat, SymbolKind::Class, spec_cut_name(t, "export "@, "class "@, seq![' ', '<', '{'])))
        }),
{
    let t = spec_trim(lines[i]);
    let line = lines[i];
    let n = i as nat;
    let rs = rust_line_symbols(path, line, n);
    let ts = ts_line_symbols(path, line, n);
    let rf = line_symbol(path, line, n, SymbolKind::Function, spec_cut_name(t, "pub "@, "fn "@, seq!['(', '<']));
    let rc = line_symbol(path, line, n, SymbolKind::Class, spec_cut_name(t, "pub "@, "struct "@, seq![' ', '<', '{']));
    let tf = line_symbol(path, line, n, SymbolKind::Function, spec_cut_name(t, "export "@, "function "@, seq!['(', '<']));
    let tc = line_symbol(path, line, n, SymbolKind::Class, spec_cut_name(t, "export "@, "class "@, seq![' ', '<', '{']));
    if has_prefix(t, "fn "@) || has_prefix(t, "pub fn "@) {
        assert(rs[0] == rf);
        lemma_file_symbols_keep_line(path, lines, false, i, rf);
    }
    if has_prefix(t, "struct "@) || has_prefix(t, "pub struct "@) {
        assert(rs[rs.len() - 1] == rc);
        lemma_file_symbols_keep_line(path, lines, false, i, rc);
    }
    if has_prefix(t, "function "@) || has_prefix(t, "export function "@) {
        assert(ts[0] == tf);
        lemma_file_symbols_keep_line(path, lines, true, i, tf);
    }
    if has_prefix(t, "class "@) || has_prefix(t, "export class "@) {
        assert(ts[ts.len() - 1] == tc);
        lemma_file_symbols_keep_line(path, lines, true, i, tc);
    }
}

fn make_symbol(path: &str, line: &str, line_no: usize, kind: SymbolKind, name: &str) -> (r: Symbol)
    requires
        line_no < usize::MAX,
    ensures
        r@ == line_symbol(path@, line@, line_no as nat, kind, name@),
{
    let mut id = String::new();
    push_str(&mut id, path);
    string_push(&mut id, '#');
    push_decimal(&mut id, (line_no + 1) as u64);
    string_push(&mut id, ':');
    push_str(&mut id, name);
    let end = line.len() as u32;
    let r = Symbol {
        id,
        kind,
        name: str_to_string(name),
        file_path: str_to_string(path),
        range: Range {
            start: Position { line: line_no as u32, character: 0 },
            end: Position { line: line_no as u32, character: end },
        },
        documentation: None,
    };
    proof {
        assert(r@.id =~= line_symbol(path@, line@, line_no as nat, kind, name@).id);
    }
    r
}

fn line_symbols(path: &str, line: &str, line_no: usize, typescript: bool, out: &mut Vec<Symbol>)
    requires
        line_no < usize::MAX,
    ensures
        final(out)@.map_values(|s: Symbol| s@) == old(out)@.map_values(|s: Symbol| s@) + if typescript {
            ts_line_symbols(path@, line@, line_no as nat)
        } else {
            rust_line_symbols(path@, line@, line_no as nat)
        },
{
    let ghost before = out@.map_values(|s: Symbol| s@);
    let tc = trim_chars(chars_of(line).as_slice());
    let trimmed = string_from_chars(tc.as_slice());
    let t = trimmed.as_str();
    let ghost tv = spec_trim(line@);
    let ghost f_part: Seq<SymbolView>;
    if typescript {
        if str_starts_with(t, "function ") || str_starts_with(t, "export function ") {
            let name = extract_ts_function_name(t).unwrap();
            out.push(make_symbol(path, line, line_no, SymbolKind::Function, name));
        }
        let ghost mid = out@.map_values(|s: Symbol| s@);
        if str_starts_with(t, "class ") || str_starts_with(t, "export class ") {
            let name = extract_ts_class_name(t).unwrap();
            out.push(make_symbol(path, line, line_no, SymbolKind::Class, name));
        }
        proof {
            let want = ts_line_symbols(path@, line@, line_no as nat);
            assert(out@.map_values(|s: Symbol| s@) =~= before + want);
        }
    } else {
        if str_starts_with(t, "fn ") || str_starts_with(t, "pub fn ") {
            let name = extract_function_name(t).unwrap();
            out.push(make_symbol(path, line, line_no, SymbolKind::Function, name));
        }
        if str_starts_with(t, "struct ") || str_starts_with(t, "pub struct ") {
            let name = extract_struct_name(t).unwrap();
            out.push(make_symbol(path, line, line_no, SymbolKind::Class, name));
        }
        proof {
            let want = rust_line_symbols(path@, line@, line_no as nat);
            assert(out@.map_values(|s: Symbol| s@) =~= before + want);
        }
    }
}

fn extract_symbols(path: &str, content: &str, typescript: bool) -> (r: Vec<Symbol>)
    ensures
        r@.map_values(|s: Symbol| s@) == file_symbols(path@, spec_lines(content@), typescript),
{
    let lines = str_lines(content);
    let ghost lv = lines@.map_values(|l: &str| l@);
    let mut r: Vec<Symbol> = Vec::new();
    let mut i: usize = 0;
    while i < lines.len()
        invariant
            i <= lines.len(),
            lv == lines@.map_values(|l: &str| l@),
            r@.map_values(|s: Symbol| s@) == file_symbols(path@, lv.subrange(0, i as int), typescript),
        decreases lines.len() - i,
    {
        line_symbols(path, lines[i], i, typescript, &mut r);
        proof {
            assert(lv.subrange(0, i + 1).drop_last() =~= lv.subrange(0, i as int));
            assert(lv.subrange(0, i + 1).last() == lines@[i as int]@);
        }
        i = i + 1;
    }
    proof {
        assert(lv.subrange(0, lines.len() as int) =~= lv);
    }
    r
}

/// The Rust functions and structs of a file's content (see
/// [`rust_line_symbols`]), in line order.
pub fn extract_rust_symbols(path_str: &str, content: &str) -> (r: Vec<Symbol>)
    ensures
        r@.map_values(|s: Symbol| s@) == file_symbols(path_str@, spec_lines(content@), false),
{
    extract_symbols(path_str, content, false)
}

/// The TypeScript functions and classes of a file's content (see
/// [`ts_line_symbols`]), in line order.
pub fn extract_typescript_symbols(path_str: &str, content: &str) -> (r: Vec<Symbol>)
    ensures
        r@.map_values(|s: Symbol| s@) == file_symbols(path_str@, spec_lines(content@), true),
{
    extract_symbols(path_str, content, true)
}

/// What one indexing run did.
#[derive(Debug)]
pub struct DifferentialIndexResult {
    pub files_added: usize,
    pub files_modified: usize,
    pub files_deleted: usize,
    pub symbols_added: usize,
    pub symbols_updated: usize,
    pub symbols_deleted: usize,
    pub duration: Duration,
}

/// What a detected change does to the index.
#[derive(Clone, Copy, Debug, PartialEq, Eq, Structural)]
pub enum ChangeAction {
    /// Extract the file's symbols and add them.
    Add,
    /// Remove the file's symbols, then extract and add them again.
    Replace,
    /// Remove the file's symbols.
    Remove,
    /// Leave the index as it is.
    Skip,
}

/// Whether a file's content changed: it did when no earlier hash is
/// recorded for it, otherwise when the hashes differ.
pub open spec fn spec_is_file_changed(old_hash: Option<Seq<char>>, new_hash: Seq<char>) -> bool {
    match old_hash {
        Some(h) => h != new_hash,
        None => true,
    }
}

/// Whether a file's content changed (see [`spec_is_file_changed`]).
pub fn is_file_changed(old_hash: Option<&str>, new_hash: &str) -> (r: bool)
    ensures
        r == spec_is_file_changed(
            match old_hash {
                Some(h) => Some(h@),
                None => None,
            },
            new_hash@,
        ),
{
    match old_hash {
        Some(h) => !str_eq(h, new_hash),
        None => true,
    }
}

/// What a change does: an added file is added, a modified or renamed one
/// replaced, a deleted one removed; an untracked file with a content hash
/// is replaced when its content changed, and skipped otherwise.
pub open spec fn spec_change_action(status: FileChangeStatus, has_hash: bool, changed: bool) -> ChangeAction {
    match status {
        FileChangeStatus::Added => ChangeAction::Add,
        FileChangeStatus::Modified => ChangeAction::Replace,
        FileChangeStatus::Renamed { .. } => ChangeAction::Replace,
        FileChangeStatus::Deleted => ChangeAction::Remove,
        FileChangeStatus::Untracked => if has_hash && changed { ChangeAction::Replace } else { ChangeAction::Skip },
    }
}

/// What a change does to the index; `changed` tells, for an untracked file
/// with a content hash, whether that hash differs from the recorded one
/// (see [`spec_change_action`]).
pub fn change_action(change: &FileChange, changed: bool) -> (r: ChangeAction)
    ensures
        r == spec_change_action(change.status, change.content_hash is Some, changed),
{
    match &change.status {
        FileChangeStatus::Added => ChangeAction::Add,
        FileChangeStatus::Modified => ChangeAction::Replace,
        FileChangeStatus::Renamed { .. } => ChangeAction::Replace,
        FileChangeStatus::Deleted => ChangeAction::Remove,
        FileChangeStatus::Untracked => {
            if change.content_hash.is_some() && changed {
                ChangeAction::Replace
            } else {
                ChangeAction::Skip
            }
        },
    }
}

impl DifferentialIndexResult {
    /// Counts one change: an added file and its `extracted` symbols; a
    /// replaced file, its `removed` old symbols and `extracted` new ones; a
    /// removed file and its `removed` symbols. A skipped change counts
    /// nothing.
    pub fn record(&mut self, action: ChangeAction, removed: usize, extracted: usize)
        requires
            old(self).files_added < usize::MAX,
            old(self).files_modified < usize::MAX,
            old(self).files_deleted < usize::MAX,
            old(self).symbols_added + extracted <= usize::MAX,
            old(self).symbols_updated + extracted <= usize::MAX,
            old(self).symbols_deleted + removed <= usize::MAX,
        ensures
            final(self).duration == old(self).duration,
            final(self).files_added == old(self).files_added + if action == ChangeAction::Add { 1int } else { 0 },
            final(self).files_modified == old(self).files_modified + if action == ChangeAction::Replace { 1int } else { 0 },
            final(self).files_deleted == old(self).files_deleted + if action == ChangeAction::Remove { 1int } else { 0 },
            final(self).symbols_added == old(self).symbols_added + if action == ChangeAction::Add { extracted as int } else { 0 },
            final(self).symbols_updated == old(self).symbols_updated + if action == ChangeAction::Replace { extracted as int } else { 0 },
            final(self).symbols_deleted == old(self).symbols_deleted + if action == ChangeAction::Replace || action == ChangeAction::Remove {
                removed as int
            } else {
                0
            },
    {
        match action {
            ChangeAction::Add => {
                self.files_added = self.files_added + 1;
                self.symbols_added = self.symbols_added + extracted;
            },
            ChangeAction::Replace => {
                self.files_modified = self.files_modified + 1;
                self.symbols_deleted = self.symbols_deleted + removed;
                self.symbols_updated = self.symbols_updated + extracted;
            },
            ChangeAction::Remove => {
                self.files_deleted = self.files_deleted + 1;
                self.symbols_deleted = self.symbols_deleted + removed;
            },
            ChangeAction::Skip => {},
        }
    }
}

/// Whether a symbol lies in file `path`.
pub open spec fn in_file(path: Seq<char>) -> spec_fn(Symbol) -> bool {
    |s: Symbol| s.file_path@ == path
}

/// The id of a symbol.
pub open spec fn id_of() -> spec_fn(Symbol) -> Seq<char> {
    |s: Symbol| s.id@
}

/// The ids of the graph's symbols in file `path`, in node order: those a
/// replaced or removed file takes out of the index.
pub fn symbol_ids_in_file(graph: &CodeGraph, path: &str) -> (r: Vec<String>)
    requires
        graph.wf(),
    ensures
        r@.map_values(|s: String| s@) == graph.nodes().filter(in_file(path@)).map_values(id_of()),
{
    let all = graph.get_all_symbols();
    let ghost nodes = graph.nodes();
    let mut r: Vec<String> = Vec::new();
    let mut i: usize = 0;
    while i < all.len()
        invariant
            i <= all.len(),
            all.len() == nodes.len(),
            forall|j: int| 0 <= j < all.len() ==> *all@[j] == nodes[j],
            r@.map_values(|s: String| s@) == nodes.subrange(0, i as int).filter(in_file(path@)).map_values(id_of()),
        decreases all.len() - i,
    {
        let s = all[i];
        proof {
            let pre = nodes.subrange(0, i as int);
            assert(nodes.subrange(0, i + 1).drop_last() =~= pre);
            assert(nodes.subrange(0, i + 1).last() == *s);
            pre.lemma_filter_push(*s, in_file(path@));
            assert(pre.push(*s) =~= nodes.subrange(0, i + 1));
        }
        let ghost before = r@;
        let ghost fpre = nodes.subrange(0, i as int).filter(in_file(path@));
        if str_eq(s.file_path.as_str(), path) {
            r.push(s.id.clone());
            proof {
                assert(nodes.subrange(0, i + 1).filter(in_file(path@)) == fpre.push(*s));
                assert(fpre.push(*s).map_values(id_of()) =~= fpre.map_values(id_of()).push(s.id@));
                assert(r@ == before.push(s.id));
                assert(r@.map_values(|s: String| s@) =~= before.map_values(|s: String| s@).push(s.id@));
            }
        } else {
            proof {
                assert(nodes.subrange(0, i + 1).filter(in_file(path@)) == fpre);
            }
        }
        i = i + 1;
    }
    proof {
        assert(nodes.subrange(0, all.len() as int) =~= nodes);
    }
    r
}

/// Whether a symbol lies outside file `path`.
pub open spec fn outside_file(path: Seq<char>) -> spec_fn(Symbol) -> bool {
    |s: Symbol| s.file_path@ != path
}

/// The node that node `a` becomes once the symbols of file `path` are taken
/// out of `nodes`: the number of kept nodes before it.
pub open spec fn kept_position(nodes: Seq<Symbol>, path: Seq<char>, a: nat) -> nat {
    nodes.subrange(0, a as int).filter(outside_file(path)).len()
}

/// The first `upto` edges whose two ends lie outside file `path`, in order,
/// with their ends renumbered as [`kept_position`] says.
pub open spec fn kept_edges(nodes: Seq<Symbol>, edges: Seq<(nat, nat, EdgeKind)>, path: Seq<char>, upto: int) -> Seq<(nat, nat, EdgeKind)>
    decreases upto,
{
    if upto <= 0 {
        Seq::empty()
    } else {
        let rest = kept_edges(nodes, edges, path, upto - 1);
        let e = edges[upto - 1];
        if nodes[e.0 as int].file_path@ != path && nodes[e.1 as int].file_path@ != path {
            rest.push((kept_position(nodes, path, e.0), kept_position(nodes, path, e.1), e.2))
        } else {
            rest
        }
    }
}

proof fn lemma_kept_position_step(nodes: Seq<Symbol>, path: Seq<char>, a: int)
    requires
        0 <= a < nodes.len(),
    ensures
        kept_position(nodes, path, (a + 1) as nat) == kept_position(nodes, path, a as nat) + if nodes[a].file_path@ != path { 1int } else { 0int },
        nodes.subrange(0, a + 1).filter(outside_file(path)) == if nodes[a].file_path@ != path {
            nodes.subrange(0, a).filter(outside_file(path)).push(nodes[a])
        } else {
            nodes.subrange(0, a).filter(outside_file(path))
        },
        nodes.subrange(0, a + 1).filter(in_file(path)) == if nodes[a].file_path@ == path {
            nodes.subrange(0, a).filter(in_file(path)).push(nodes[a])
        } else {
            nodes.subrange(0, a).filter(in_file(path))
        },
{
    let pre = nodes.subrange(0, a);
    assert(pre.push(nodes[a]) =~= nodes.subrange(0, a + 1));
    pre.lemma_filter_push(nodes[a], outside_file(path));
    pre.lemma_filter_push(nodes[a], in_file(path));
}

proof fn lemma_kept_position_mono(nodes: Seq<Symbol>, path: Seq<char>, a: int, b: int)
    requires
        0 <= a <= b <= nodes.len(),
    ensures
        kept_position(nodes, path, a as nat) <= kept_position(nodes, path, b as nat),
    decreases b - a,
{
    if a < b {
        lemma_kept_position_mono(nodes, path, a, b - 1);
        lemma_kept_position_step(nodes, path, b - 1);
    }
}

/// Takes the symbols of file `path` out of the graph, with every edge that
/// touches one of them; the other nodes keep their order and the other
/// edges theirs, renumbered. The graph is rebuilt from what is kept, so the
/// index maps each id to the last kept node that carries it. Returns how
/// many symbols were taken out.
pub fn remove_file_symbols(graph: &mut CodeGraph, path: &str) -> (removed: usize)
    requires
        old(graph).wf(),
    ensures
        final(graph).wf(),
        final(graph).nodes() == old(graph).nodes().filter(outside_file(path@)),
        final(graph).edges() == kept_edges(old(graph).nodes(), old(graph).edges(), path@, old(graph).edges().len() as int),
        final(graph).index() == index_after(Map::empty(), 0, final(graph).nodes()),
        removed == old(graph).nodes().filter(in_file(path@)).len(),
{
    let ghost nodes = graph.nodes();
    let ghost edges = graph.edges();
    let n = graph.node_total();
    let mut g = CodeGraph::new();
    let mut pos: Vec<Option<usize>> = Vec::new();
    let mut removed: usize = 0;
    let mut i: usize = 0;
    assert(nodes.subrange(0, 0) =~= Seq::<Symbol>::empty());
    assert(Seq::<Symbol>::empty().filter(outside_file(path@)) =~= Seq::<Symbol>::empty());
    assert(Seq::<Symbol>::empty().filter(in_file(path@)) =~= Seq::<Symbol>::empty());
    while i < n
        invariant
            graph.wf(),
            graph.nodes() == nodes,
            graph.edges() == edges,
            n == nodes.len(),
            i <= n,
            g.wf(),
            g.nodes() == nodes.subrange(0, i as int).filter(outside_file(path@)),
            g.edges() == Seq::<(nat, nat, EdgeKind)>::empty(),
            g.index() == index_after(Map::empty(), 0, g.nodes()),
            removed as int == nodes.subrange(0, i as int).filter(in_file(path@)).len(),
            removed <= i,
            pos.len() == i,
            forall|j: int| 0 <= j < i ==> #[trigger] pos@[j] == if nodes[j].file_path@ != path@ {
                Some(kept_position(nodes, path@, j as nat) as usize)
            } else {
                None
            },
        decreases n - i,
    {
        let s = graph.node_at(i);
        proof { lemma_kept_position_step(nodes, path@, i as int); }
        if str_eq(s.file_path.as_str(), path) {
            pos.push(None);
            removed = removed + 1;
        } else {
            let k = g.node_total();
            let ghost before = g.nodes();
            g.add_symbol(s.clone());
            proof {
                assert(before.push(*s).drop_last() =~= before);
                assert(before.push(*s).last() == *s);
            }
            pos.push(Some(k));
        }
        i = i + 1;
    }
    assert(nodes.subrange(0, n as int) =~= nodes);
    let ghost kept = g.nodes();
    let m = graph.edge_total();
    let mut e: usize = 0;
    while e < m
        invariant
            graph.wf(),
            graph.nodes() == nodes,
            graph.edges() == edges,
            n == nodes.len(),
            m == edges.len(),
            e <= m,
            g.wf(),
            g.nodes() == kept,
            kept == nodes.filter(outside_file(path@)),
            g.index() == index_after(Map::empty(), 0, kept),
            g.edges() == kept_edges(nodes, edges, path@, e as int),
            pos.len() == n,
            forall|j: int| 0 <= j < n ==> #[trigger] pos@[j] == if nodes[j].file_path@ != path@ {
                Some(kept_position(nodes, path@, j as nat) as usize)
            } else {
                None
            },
        decreases m - e,
    {
        let (a, b, k) = graph.edge_at(e);
        proof { graph.lemma_edge_ends(e as int); }
        let pa = pos[a];
        let pb = pos[b];
        match (pa, pb) {
            (Some(x), Some(y)) => {
                proof {
                    lemma_kept_position_mono(nodes, path@, a as int + 1, n as int);
                    lemma_kept_position_step(nodes, path@, a as int);
                    lemma_kept_position_mono(nodes, path@, b as int + 1, n as int);
                    lemma_kept_position_step(nodes, path@, b as int);
                    assert(nodes.subrange(0, n as int) =~= nodes);
                    assert(kept_position(nodes, path@, n as nat) == kept.len());
                }
                g.add_edge(node_index_new(x), node_index_new(y), k);
            },
            _ => {},
        }
        e = e + 1;
    }
    *graph = g;
    removed
}

/// Whether a change takes the file's old symbols out of the index.
pub open spec fn removes_file(a: ChangeAction) -> bool {
    a == ChangeAction::Replace || a == ChangeAction::Remove
}

/// Whether a change adds the file's extracted symbols to the index.
pub open spec fn adds_symbols(a: ChangeAction) -> bool {
    a == ChangeAction::Add || a == ChangeAction::Replace
}

/// Applies one detected change: decides what it does (see
/// [`spec_change_action`]), takes the old symbols of the file out of the
/// graph when the file is replaced or removed (see
/// [`remove_file_symbols`]), adds the `extracted` symbols in order when it
/// is added or replaced, and counts the change as [`DifferentialIndexResult::record`]
/// does. A skipped change leaves graph and counts as they are.
pub fn apply_change(
    graph: &mut CodeGraph,
    result: &mut DifferentialIndexResult,
    change: &FileChange,
    changed: bool,
    extracted: Vec<Symbol>,
) -> (action: ChangeAction)
    requires
        old(graph).wf(),
        old(result).files_added < usize::MAX,
        old(result).files_modified < usize::MAX,
        old(result).files_deleted < usize::MAX,
        adds_symbols(spec_change_action(change.status, change.content_hash is Some, changed)) ==> old(result).symbols_added + extracted.len() <= usize::MAX
            && old(result).symbols_updated + extracted.len() <= usize::MAX,
        removes_file(spec_change_action(change.status, change.content_hash is Some, changed))
            ==> old(result).symbols_deleted + old(graph).nodes().filter(in_file(change.path@)).len() <= usize::MAX,
    ensures
        action == spec_change_action(change.status, change.content_hash is Some, changed),
        final(graph).wf(),
        applied(old(graph).nodes(), final(graph).nodes(), change.path@, action, extracted@),
        ({
            let kept = if removes_file(action) { old(graph).nodes().filter(outside_file(change.path@)) } else { old(graph).nodes() };
            let added = if adds_symbols(action) { extracted@ } else { Seq::<Symbol>::empty() };
            &&& final(graph).nodes() == kept + added
            &&& final(graph).edges() == if removes_file(action) {
                kept_edges(old(graph).nodes(), old(graph).edges(), change.path@, old(graph).edges().len() as int)
            } else {
                old(graph).edges()
            }
            &&& final(graph).index() == if removes_file(action) {
                index_after(Map::empty(), 0, kept + added)
            } else {
                index_after(old(graph).index(), old(graph).nodes().len(), added)
            }
        }),
        final(result).duration == old(result).duration,
        final(result).files_added == old(result).files_added + if action == ChangeAction::Add { 1int } else { 0 },
        final(result).files_modified == old(result).files_modified + if action == ChangeAction::Replace { 1int } else { 0 },
        final(result).files_deleted == old(result).files_deleted + if action == ChangeAction::Remove { 1int } else { 0 },
        final(result).symbols_added == old(result).symbols_added + if action == ChangeAction::Add { extracted.len() as int } else { 0 },
        final(result).symbols_updated == old(result).symbols_updated + if action == ChangeAction::Replace { extracted.len() as int } else { 0 },
        final(result).symbols_deleted == old(result).symbols_deleted + if removes_file(action) {
            old(graph).nodes().filter(in_file(change.path@)).len() as int
        } else {
            0
        },
{
    let action = change_action(change, changed);
    let removed: usize = match action {
        ChangeAction::Replace | ChangeAction::Remove => remove_file_symbols(graph, change.path.as_str()),
        _ => 0,
    };
    let ghost mid = *graph;
    match action {
        ChangeAction::Add | ChangeAction::Replace => {
            add_in_order(graph, &extracted);
            proof {
                if action == ChangeAction::Replace {
                    lemma_index_after_concat(Map::empty(), 0, mid.nodes(), extracted@);
                }
            }
            result.record(action, removed, extracted.len());
        },
        _ => {
            proof {
                assert(mid.nodes() + Seq::<Symbol>::empty() =~= mid.nodes());
                if action == ChangeAction::Skip {
                    assert(index_after(old(graph).index(), old(graph).nodes().len(), Seq::<Symbol>::empty()) == old(graph).index());
                }
            }
            result.record(action, removed, 0);
        },
    }
    action
}

proof fn lemma_filter_keeps_all(s: Seq<Symbol>, pred: spec_fn(Symbol) -> bool)
    requires
        forall|i: int| 0 <= i < s.len() ==> pred(#[trigger] s[i]),
    ensures
        s.filter(pred) == s,
    decreases s.len(),
{
    if s.len() > 0 {
        let t = s.drop_last();
        assert forall|i: int| 0 <= i < t.len() implies pred(#[trigger] t[i]) by {
            assert(t[i] == s[i]);
        }
        lemma_filter_keeps_all(t, pred);
        t.lemma_filter_push(s.last(), pred);
        assert(t.push(s.last()) =~= s);
    }
}

proof fn lemma_filter_keeps_none(s: Seq<Symbol>, pred: spec_fn(Symbol) -> bool)
    requires
        forall|i: int| 0 <= i < s.len() ==> !pred(#[trigger] s[i]),
    ensures
        s.filter(pred) == Seq::<Symbol>::empty(),
    decreases s.len(),
{
    if s.len() > 0 {
        let t = s.drop_last();
        assert forall|i: int| 0 <= i < t.len() implies !pred(#[trigger] t[i]) by {
            assert(t[i] == s[i]);
        }
        lemma_filter_keeps_none(t, pred);
        t.lemma_filter_push(s.last(), pred);
        assert(t.push(s.last()) =~= s);
    } else {
        assert(s.filter(pred) =~= Seq::<Symbol>::empty());
    }
}

proof fn lemma_file_after_removal(s: Seq<Symbol>, path: Seq<char>, q: Seq<char>)
    ensures
        s.filter(outside_file(path)).filter(in_file(q)) == if path == q { Seq::<Symbol>::empty() } else { s.filter(in_file(q)) },
    decreases s.len(),
{
    if s.len() == 0 {
        assert(s.filter(outside_file(path)) =~= s);
        assert(s.filter(in_file(q)) =~= s);
        assert(s.filter(in_file(q)) =~= Seq::<Symbol>::empty());
    } else {
        let t = s.drop_last();
        let x = s.last();
        lemma_file_after_removal(t, path, q);
        assert(t.push(x) =~= s);
        t.lemma_filter_push(x, outside_file(path));
        t.lemma_filter_push(x, in_file(q));
        if x.file_path@ != path {
            t.filter(outside_file(path)).lemma_filter_push(x, in_file(q));
        }
    }
}

/// The symbols of the graph after one change, as [`apply_change`] states
/// them: with the file's old symbols taken out when it is replaced or
/// removed, and the extracted ones added when it is added or replaced.
pub open spec fn applied(before: Seq<Symbol>, after: Seq<Symbol>, path: Seq<char>, action: ChangeAction, extracted: Seq<Symbol>) -> bool {
    after == (if removes_file(action) { before.filter(outside_file(path)) } else { before })
        + (if adds_symbols(action) { extracted } else { Seq::<Symbol>::empty() })
}

proof fn lemma_applied_file(
    before: Seq<Symbol>,
    after: Seq<Symbol>,
    path: Seq<char>,
    action: ChangeAction,
    extracted: Seq<Symbol>,
    q: Seq<char>,
)
    requires
        applied(before, after, path, action, extracted),
        forall|i: int| 0 <= i < extracted.len() ==> (#[trigger] extracted[i]).file_path@ == path,
    ensures
        path != q ==> after.filter(in_file(q)) == before.filter(in_file(q)),
        path == q && removes_file(action) ==> after.filter(in_file(q)) == if adds_symbols(action) { extracted } else { Seq::<Symbol>::empty() },
{
    let kept = if removes_file(action) { before.filter(outside_file(path)) } else { before };
    let added = if adds_symbols(action) { extracted } else { Seq::<Symbol>::empty() };
    Seq::filter_distributes_over_add(kept, added, in_file(q));
    lemma_file_after_removal(before, path, q);
    if path == q {
        lemma_filter_keeps_all(added, in_file(q));
    } else {
        lemma_filter_keeps_none(added, in_file(q));
    }
    assert(Seq::<Symbol>::empty() + added =~= added);
    assert(kept.filter(in_file(q)) + Seq::<Symbol>::empty() =~= kept.filter(in_file(q)));
}

/// A whole differential run: after a sequence of changes, each applied as
/// [`apply_change`] states, a file whose last change replaced it holds
/// exactly the symbols extracted then, a file whose last change removed it
/// holds none, and a file no change named holds what it held before the
/// run (each change's extracted symbols lying in its own file).
pub proof fn law_differential_run(
    graphs: Seq<Seq<Symbol>>,
    paths: Seq<Seq<char>>,
    actions: Seq<ChangeAction>,
    extracted: Seq<Seq<Symbol>>,
    q: Seq<char>,
)
    requires
        graphs.len() == paths.len() + 1,
        actions.len() == paths.len(),
        extracted.len() == paths.len(),
        forall|j: int| 0 <= j < paths.len() ==> #[trigger] applied(graphs[j], graphs[j + 1], paths[j], actions[j], extracted[j]),
        forall|j: int, k: int| 0 <= j < paths.len() && 0 <= k < extracted[j].len() ==> (#[trigger] extracted[j][k]).file_path@ == paths[j],
    ensures
        (forall|j: int| 0 <= j < paths.len() ==> #[trigger] paths[j] != q) ==> graphs.last().filter(in_file(q)) == graphs[0].filter(in_file(q)),
        forall|i: int| 0 <= i < paths.len() && #[trigger] paths[i] == q && removes_file(actions[i])
            && (forall|j: int| i < j < paths.len() ==> #[trigger] paths[j] != q)
            ==> graphs.last().filter(in_file(q)) == if adds_symbols(actions[i]) { extracted[i] } else { Seq::<Symbol>::empty() },
    decreases paths.len(),
{
    let n = paths.len();
    if n > 0 {
        let m = n - 1;
        let g2 = graphs.drop_last();
        let p2 = paths.drop_last();
        let a2 = actions.drop_last();
        let e2 = extracted.drop_last();
        assert forall|j: int| 0 <= j < p2.len() implies #[trigger] applied(g2[j], g2[j + 1], p2[j], a2[j], e2[j]) by {
            assert(applied(graphs[j], graphs[j + 1], paths[j], actions[j], extracted[j]));
        }
        assert forall|j: int, k: int| 0 <= j < p2.len() && 0 <= k < e2[j].len() implies (#[trigger] e2[j][k]).file_path@ == p2[j] by {
            assert(extracted[j][k].file_path@ == paths[j]);
        }
        law_differential_run(g2, p2, a2, e2, q);
        assert(applied(graphs[m], graphs[m + 1], paths[m], actions[m], extracted[m]));
        assert forall|k: int| 0 <= k < extracted[m].len() implies (#[trigger] extracted[m][k]).file_path@ == paths[m] by {}
        lemma_applied_file(graphs[m], graphs[m + 1], paths[m], actions[m], extracted[m], q);
        assert(g2.last() == graphs[m]);
        assert(graphs.last() == graphs[m + 1]);
        if forall|j: int| 0 <= j < paths.len() ==> #[trigger] paths[j] != q {
            assert(paths[m] != q);
            assert forall|j: int| 0 <= j < p2.len() implies #[trigger] p2[j] != q by {
                assert(paths[j] != q);
            }
        }
        assert forall|i: int| 0 <= i < paths.len() && #[trigger] paths[i] == q && removes_file(actions[i])
            && (forall|j: int| i < j < paths.len() ==> #[trigger] paths[j] != q)
            implies graphs.last().filter(in_file(q)) == if adds_symbols(actions[i]) { extracted[i] } else { Seq::<Symbol>::empty() } by {
            if i < m {
                assert(paths[m] != q);
                assert(p2[i] == q && a2[i] == actions[i] && e2[i] == extracted[i]);
                assert forall|j: int| i < j < p2.len() implies #[trigger] p2[j] != q by {
                    assert(paths[j] != q);
                }
            }
        }
    }
}

/// The indexer leaves out a path with a component `.git`, `target`,
/// `node_modules`, `.idea`, `.vscode` or `tmp`.
pub open spec fn spec_indexer_excludes(p: Seq<char>) -> bool {
    has_component(p, ".git"@) || has_component(p, "target"@) || has_component(p, "node_modules"@)
        || has_component(p, ".idea"@) || has_component(p, ".vscode"@) || has_component(p, "tmp"@)
}

/// Whether the indexer leaves the path out (see [`spec_indexer_excludes`]).
pub fn indexer_excludes(path: &str) -> (r: bool)
    ensures
        r == spec_indexer_excludes(path@),
{
    crate::git_diff::should_exclude(path) || crate::git_diff::path_has_component(path, "tmp")
}

/// Some symbol of `nodes` lies in file `path`.
pub open spec fn has_file(nodes: Seq<Symbol>, path: Seq<char>) -> bool {
    exists|k: int| 0 <= k < nodes.len() && nodes[k].file_path@ == path
}

/// Some string of `r` is `path`.
pub open spec fn lists_path(r: Seq<String>, path: Seq<char>) -> bool {
    exists|a: int| 0 <= a < r.len() && r[a]@ == path
}

/// The files that hold symbols of the graph, each once, in the order of
/// their first symbol.
pub fn indexed_files(graph: &CodeGraph) -> (r: Vec<String>)
    requires
        graph.wf(),
    ensures
        forall|a: int, b: int| 0 <= a < r.len() && 0 <= b < r.len() && a != b ==> r@[a]@ != r@[b]@,
        forall|a: int| 0 <= a < r.len() ==> has_file(graph.nodes(), #[trigger] r@[a]@),
        forall|k: int| 0 <= k < graph.nodes().len() ==> lists_path(r@, #[trigger] graph.nodes()[k].file_path@),
{
    let all = graph.get_all_symbols();
    let ghost ns = graph.nodes();
    let mut r: Vec<String> = Vec::new();
    let mut i: usize = 0;
    while i < all.len()
        invariant
            i <= all.len(),
            ns == graph.nodes(),
            all.len() == ns.len(),
            forall|j: int| 0 <= j < all.len() ==> *all@[j] == ns[j],
            forall|a: int, b: int| 0 <= a < r.len() && 0 <= b < r.len() && a != b ==> r@[a]@ != r@[b]@,
            forall|a: int| 0 <= a < r.len() ==> has_file(ns, #[trigger] r@[a]@),
            forall|j: int| 0 <= j < i ==> lists_path(r@, #[trigger] ns[j].file_path@),
        decreases all.len() - i,
    {
        let path = &all[i].file_path;
        let mut a: usize = 0;
        let mut present = false;
        while a < r.len()
            invariant
                a <= r.len(),
                !present ==> forall|b: int| 0 <= b < a ==> r@[b]@ != path@,
                present ==> lists_path(r@, path@),
            decreases r.len() - a,
        {
            if str_eq(r[a].as_str(), path.as_str()) {
                present = true;
            }
            a = a + 1;
        }
        if !present {
            let ghost before = r@;
            r.push(path.clone());
            proof {
                assert(r@[before.len() as int]@ == ns[i as int].file_path@);
                assert forall|b: int| 0 <= b < r.len() implies has_file(ns, #[trigger] r@[b]@) by {
                    if b < before.len() {
                        assert(r@[b] == before[b]);
                    } else {
                        assert(ns[i as int].file_path@ == r@[b]@);
                    }
                }
                assert forall|j: int| 0 <= j < i + 1 implies lists_path(r@, #[trigger] ns[j].file_path@) by {
                    if j < i {
                        let b = choose|b: int| 0 <= b < before.len() && before[b]@ == ns[j].file_path@;
                        assert(r@[b] == before[b]);
                    } else {
                        assert(r@[before.len() as int]@ == ns[j].file_path@);
                    }
                }
            }
        }
        i = i + 1;
    }
    proof {
        assert forall|k: int| 0 <= k < graph.nodes().len() implies lists_path(r@, #[trigger] graph.nodes()[k].file_path@) by {
            assert(ns[k] == graph.nodes()[k]);
        }
    }
    r
}

} // verus!
