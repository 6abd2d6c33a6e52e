use lsif_indexer::differential_indexer::{apply_change, ChangeAction, DifferentialIndexResult};
use lsif_indexer::fallback_indexer::FallbackIndexer;
use lsif_indexer::git_diff::{is_indexable_path, FileChange, FileChangeStatus};
use lsif_indexer::graph::{CodeGraph, EdgeKind, Position, Range, Symbol, SymbolKind};
use lsif_indexer::lsp_adapter::detect_language;
use lsif_indexer::minimal_language_adapter::{detect_language_adapter, path_extension, supported_languages};
use lsif_indexer::simple_cli::{export_format, export_step, ExportFormat};
use std::time::Duration;

fn ext(p: &str) -> Option<String> {
    path_extension(p).map(|cs| cs.into_iter().collect())
}

#[test]
fn extension_skips_trailing_separators_and_dots() {
    assert_eq!(ext("src/main.rs"), Some("rs".to_string()));
    assert_eq!(ext("src/main.rs/"), Some("rs".to_string()));
    assert_eq!(ext("src/main.rs//"), Some("rs".to_string()));
    assert_eq!(ext("src/main.rs/."), Some("rs".to_string()));
    assert_eq!(ext("src/main.rs/./"), Some("rs".to_string()));
    assert_eq!(ext("src/.."), None);
    assert_eq!(ext("src/.bashrc"), None);
    assert_eq!(ext("src/..rs"), Some("rs".to_string()));
    assert_eq!(ext("src/a."), Some(String::new()));
    assert_eq!(ext("Makefile"), None);
    assert_eq!(ext("/"), None);
    assert_eq!(ext("."), None);
    assert_eq!(ext(""), None);
}

#[test]
fn detection_of_paths_with_a_trailing_slash() {
    assert_eq!(detect_language_adapter("src/main.rs/").unwrap().language_id(), "rust");
    assert_eq!(detect_language_adapter("pkg/app.py/.").unwrap().language_id(), "python");
    assert!(detect_language_adapter("src/..").is_none());
    assert_eq!(detect_language("src/main.rs/").unwrap().language_id(), "rust");
    assert!(FallbackIndexer::from_extension("src/main.rs/").is_some());
    assert!(FallbackIndexer::from_extension("main.RS").is_none());
    assert!(is_indexable_path("src/main.rs/"));
}

#[test]
fn detected_adapters_list_their_language() {
    for (id, exts) in supported_languages() {
        for e in &exts {
            let a = detect_language_adapter(&format!("f.{}", e)).unwrap();
            assert_eq!(a.language_id(), id);
            assert_eq!(a.supported_extensions(), exts);
        }
    }
    let rust = detect_language_adapter("lib.rs").unwrap();
    assert_eq!(rust.comment_styles().line_comment, vec!["//", "///", "//!"]);
    let py = detect_language_adapter("m.pyi").unwrap();
    assert_eq!(py.comment_styles().block_comment, vec![("'''", "'''"), ("\"\"\"", "\"\"\"")]);
}

#[test]
fn export_formats() {
    assert_eq!(export_format("lsif"), Ok(ExportFormat::Lsif));
    assert_eq!(export_format("json"), Ok(ExportFormat::Json));
    assert_eq!(export_format("xml"), Err("Unsupported format: xml. Use 'lsif' or 'json'".to_string()));
}

fn sym(id: &str, file: &str) -> Symbol {
    Symbol {
        id: id.to_string(),
        kind: SymbolKind::Function,
        name: id.to_string(),
        file_path: file.to_string(),
        range: Range { start: Position { line: 0, character: 0 }, end: Position { line: 1, character: 0 } },
        documentation: None,
    }
}

fn empty_result() -> DifferentialIndexResult {
    DifferentialIndexResult {
        files_added: 0,
        files_modified: 0,
        files_deleted: 0,
        symbols_added: 0,
        symbols_updated: 0,
        symbols_deleted: 0,
        duration: Duration::from_secs(0),
    }
}

fn ids(g: &CodeGraph) -> Vec<String> {
    g.get_all_symbols().into_iter().map(|s| s.id.clone()).collect()
}

fn sample_graph() -> CodeGraph {
    let mut g = CodeGraph::new();
    let a1 = g.add_symbol(sym("a1", "a.rs"));
    let b1 = g.add_symbol(sym("b1", "b.rs"));
    let a2 = g.add_symbol(sym("a2", "a.rs"));
    let b2 = g.add_symbol(sym("b2", "b.rs"));
    g.add_edge(b2, b1, EdgeKind::Reference);
    g.add_edge(a1, b1, EdgeKind::Reference);
    g.add_edge(b1, a2, EdgeKind::Reference);
    g
}

#[test]
fn removing_a_file_takes_its_symbols_and_edges_out() {
    let mut g = sample_graph();
    let mut r = empty_result();
    let change = FileChange { path: "a.rs".to_string(), status: FileChangeStatus::Deleted, content_hash: None };
    let action = apply_change(&mut g, &mut r, &change, true, Vec::new());
    assert_eq!(action, ChangeAction::Remove);
    assert_eq!(ids(&g), vec!["b1", "b2"]);
    assert!(g.find_symbol("a1").is_none());
    let refs: Vec<String> = g.find_references("b1").into_iter().map(|s| s.id.clone()).collect();
    assert_eq!(refs, vec!["b2"]);
    assert_eq!(r.files_deleted, 1);
    assert_eq!(r.symbols_deleted, 2);
}

#[test]
fn replacing_a_file_swaps_its_symbols() {
    let mut g = sample_graph();
    let mut r = empty_result();
    let change = FileChange { path: "a.rs".to_string(), status: FileChangeStatus::Modified, content_hash: None };
    let action = apply_change(&mut g, &mut r, &change, true, vec![sym("a3", "a.rs")]);
    assert_eq!(action, ChangeAction::Replace);
    assert_eq!(ids(&g), vec!["b1", "b2", "a3"]);
    assert_eq!(g.find_symbol("a3").unwrap().file_path, "a.rs");
    assert_eq!(r.files_modified, 1);
    assert_eq!(r.symbols_deleted, 2);
    assert_eq!(r.symbols_updated, 1);
}

#[test]
fn adding_and_skipping_files() {
    let mut g = sample_graph();
    let mut r = empty_result();
    let added = FileChange { path: "c.rs".to_string(), status: FileChangeStatus::Added, content_hash: None };
    assert_eq!(apply_change(&mut g, &mut r, &added, true, vec![sym("c1", "c.rs")]), ChangeAction::Add);
    assert_eq!(ids(&g), vec!["a1", "b1", "a2", "b2", "c1"]);
    let same = FileChange { path: "a.rs".to_string(), status: FileChangeStatus::Untracked, content_hash: Some("h".to_string()) };
    assert_eq!(apply_change(&mut g, &mut r, &same, false, Vec::new()), ChangeAction::Skip);
    assert_eq!(ids(&g), vec!["a1", "b1", "a2", "b2", "c1"]);
    assert_eq!(r.files_added, 1);
    assert_eq!(r.symbols_added, 1);
    assert_eq!(r.files_modified, 0);
}

#[test]
fn export_step_checks_the_index_first() {
    assert_eq!(export_step(false, "xml"), Err("No index found. Run 'lsif index' first.".to_string()));
    assert_eq!(export_step(true, "xml"), Err("Unsupported format: xml. Use 'lsif' or 'json'".to_string()));
    assert_eq!(export_step(true, "json"), Ok(ExportFormat::Json));
}

fn in_file(g: &CodeGraph, f: &str) -> Vec<String> {
    g.get_all_symbols().into_iter().filter(|s| s.file_path == f).map(|s| s.id.clone()).collect()
}

#[test]
fn a_differential_run_leaves_the_current_files() {
    let mut g = sample_graph();
    let mut r = empty_result();
    let changes = vec![
        (FileChange { path: "a.rs".to_string(), status: FileChangeStatus::Modified, content_hash: None }, vec![sym("a9", "a.rs")]),
        (FileChange { path: "c.rs".to_string(), status: FileChangeStatus::Added, content_hash: None }, vec![sym("c1", "c.rs"), sym("c2", "c.rs")]),
        (FileChange { path: "b.rs".to_string(), status: FileChangeStatus::Deleted, content_hash: None }, Vec::new()),
    ];
    for (change, extracted) in changes {
        apply_change(&mut g, &mut r, &change, true, extracted);
    }
    assert_eq!(in_file(&g, "a.rs"), vec!["a9"]);
    assert!(in_file(&g, "b.rs").is_empty());
    assert_eq!(in_file(&g, "c.rs"), vec!["c1", "c2"]);
    assert_eq!((r.files_modified, r.files_added, r.files_deleted), (1, 1, 1));
    assert_eq!((r.symbols_updated, r.symbols_added, r.symbols_deleted), (1, 2, 4));
}
