use lsif_indexer::cli_commands::needs_update;
use lsif_indexer::differential_indexer::{
    change_action, extract_rust_symbols, extract_typescript_symbols, indexer_excludes, is_file_changed, symbol_ids_in_file,
    ChangeAction, DifferentialIndexResult,
};
use lsif_indexer::git_diff::{
    content_hash, is_indexable_path, map_git_status, should_exclude, FileChange, FileChangeStatus, GitStatusFlags, HashCache,
};
use lsif_indexer::graph::{CodeGraph, Position, Range, Symbol, SymbolKind};
use lsif_indexer::incremental_storage::{is_file_affected, StorageMetrics};
use lsif_indexer::storage::IndexFormat;
use std::time::Duration;

fn no_flags() -> GitStatusFlags {
    GitStatusFlags {
        wt_new: false,
        wt_modified: false,
        wt_deleted: false,
        wt_renamed: false,
        index_new: false,
        index_modified: false,
        index_deleted: false,
    }
}

#[test]
fn test_should_exclude() {
    assert!(should_exclude(".git/config"));
    assert!(should_exclude("target/debug/build"));
    assert!(should_exclude("node_modules/package"));
    assert!(!should_exclude("src/main.rs"));
}

#[test]
fn exclusion_matches_whole_components_only() {
    assert!(should_exclude("/home/u/proj/.vscode/settings.json"));
    assert!(should_exclude("a/.idea"));
    assert!(!should_exclude("src/targets/x.rs"));
    assert!(!should_exclude("my.git/x"));
    assert!(indexer_excludes("proj/tmp/a.rs"));
    assert!(!should_exclude("proj/tmp/a.rs"));
}

#[test]
fn test_content_hash_calculation() {
    let hash = content_hash(b"Hello, World!");
    assert_eq!(hash.len(), 16);
    assert!(hash.chars().all(|c| c.is_ascii_hexdigit() && !c.is_ascii_uppercase()));
    assert_eq!(hash, format!("{:016x}", xxhash_rust::xxh3::xxh3_64(b"Hello, World!")));
    assert_ne!(content_hash(b"a"), content_hash(b"b"));
    assert_eq!(content_hash(b""), format!("{:016x}", xxhash_rust::xxh3::xxh3_64(b"")));
}

#[test]
fn git_status_precedence() {
    assert_eq!(map_git_status(&no_flags()), FileChangeStatus::Untracked);
    assert_eq!(map_git_status(&GitStatusFlags { wt_new: true, index_deleted: true, ..no_flags() }), FileChangeStatus::Added);
    assert_eq!(map_git_status(&GitStatusFlags { wt_renamed: true, ..no_flags() }), FileChangeStatus::Modified);
    assert_eq!(map_git_status(&GitStatusFlags { index_deleted: true, ..no_flags() }), FileChangeStatus::Deleted);
    assert_eq!(map_git_status(&GitStatusFlags { wt_deleted: true, index_new: true, ..no_flags() }), FileChangeStatus::Deleted);
    assert_eq!(map_git_status(&GitStatusFlags { index_modified: true, ..no_flags() }), FileChangeStatus::Modified);
}

#[test]
fn test_detect_changes_without_git() {
    let mut cache = HashCache::new();
    let h1 = content_hash(b"content1");
    let h2 = content_hash(b"content2");
    let changes: Vec<FileChange> =
        [("file1.rs", &h1), ("file2.rs", &h2)].iter().filter_map(|(p, h)| cache.observe(p, h)).collect();
    assert_eq!(changes.len(), 2);
    for change in &changes {
        assert_eq!(change.status, FileChangeStatus::Added);
        assert!(change.content_hash.is_some());
    }
    // unchanged content is not reported again, changed content is
    assert!(cache.observe("file1.rs", &h1).is_none());
    let h3 = content_hash(b"content3");
    let c = cache.observe("file1.rs", &h3).unwrap();
    assert_eq!(c.status, FileChangeStatus::Modified);
    assert_eq!(c.content_hash.as_deref(), Some(h3.as_str()));
}

#[test]
fn indexable_extensions() {
    assert!(is_indexable_path("src/a.rs"));
    assert!(is_indexable_path("web/app.tsx"));
    assert!(!is_indexable_path("script.py"));
    assert!(!is_indexable_path("Makefile"));
    assert!(!is_indexable_path("dir.rs/file"));
}

#[test]
fn change_actions_and_counts() {
    let added = FileChange { path: "a.rs".into(), status: FileChangeStatus::Added, content_hash: None };
    let renamed = FileChange { path: "b.rs".into(), status: FileChangeStatus::Renamed { from: "old.rs".into() }, content_hash: None };
    let untracked = FileChange { path: "c.rs".into(), status: FileChangeStatus::Untracked, content_hash: Some("h".into()) };
    let untracked_no_hash = FileChange { path: "d.rs".into(), status: FileChangeStatus::Untracked, content_hash: None };
    assert_eq!(change_action(&added, false), ChangeAction::Add);
    assert_eq!(change_action(&renamed, false), ChangeAction::Replace);
    assert_eq!(change_action(&untracked, true), ChangeAction::Replace);
    assert_eq!(change_action(&untracked, false), ChangeAction::Skip);
    assert_eq!(change_action(&untracked_no_hash, true), ChangeAction::Skip);
    assert!(is_file_changed(None, "x"));
    assert!(!is_file_changed(Some("x"), "x"));
    assert!(is_file_changed(Some("x"), "y"));

    let mut r = DifferentialIndexResult {
        files_added: 0,
        files_modified: 0,
        files_deleted: 0,
        symbols_added: 0,
        symbols_updated: 0,
        symbols_deleted: 0,
        duration: Duration::from_secs(0),
    };
    r.record(ChangeAction::Add, 0, 3);
    r.record(ChangeAction::Replace, 2, 5);
    r.record(ChangeAction::Remove, 4, 0);
    r.record(ChangeAction::Skip, 9, 9);
    assert_eq!((r.files_added, r.files_modified, r.files_deleted), (1, 1, 1));
    assert_eq!((r.symbols_added, r.symbols_updated, r.symbols_deleted), (3, 5, 6));
}

#[test]
fn extraction_for_the_differential_indexer() {
    let src = "pub fn run(x: i32) {\n    struct Inner<T> {}\n}\nfn helper<T>() {}\n";
    let syms = extract_rust_symbols("src/lib.rs", src);
    let names: Vec<&str> = syms.iter().map(|s| s.name.as_str()).collect();
    assert_eq!(names, vec!["run", "Inner", "helper"]);
    assert_eq!(syms[0].id, "src/lib.rs#1:run");
    assert_eq!(syms[1].kind, SymbolKind::Class);
    assert_eq!(syms[1].range.end.character, 22);
    let ts = extract_typescript_symbols("a.ts", "export function go(a) {}\nclass Box<T> {}\n");
    let names: Vec<&str> = ts.iter().map(|s| s.name.as_str()).collect();
    assert_eq!(names, vec!["go", "Box"]);

    let mut g = CodeGraph::new();
    for s in syms {
        g.add_symbol(s);
    }
    g.add_symbol(Symbol {
        id: "other".into(),
        kind: SymbolKind::Variable,
        name: "o".into(),
        file_path: "src/other.rs".into(),
        range: Range { start: Position { line: 0, character: 0 }, end: Position { line: 0, character: 1 } },
        documentation: None,
    });
    assert_eq!(symbol_ids_in_file(&g, "src/lib.rs"), vec!["src/lib.rs#1:run", "src/lib.rs#2:Inner", "src/lib.rs#4:helper"]);
    assert!(symbol_ids_in_file(&g, "missing.rs").is_empty());
}

#[test]
fn update_decision() {
    assert!(!needs_update(Some("abc"), Some("abc"), 5));
    assert!(needs_update(Some("abc"), Some("def"), 0));
    assert!(needs_update(Some("abc"), None, 0));
    assert!(needs_update(None, Some("abc"), 1));
    assert!(!needs_update(None, Some("abc"), 0));
}

#[test]
fn storage_metrics_summary() {
    let mut m = StorageMetrics::default();
    m.symbols_written = 2;
    m.symbols_updated = 1;
    m.symbols_removed = 3;
    m.files_updated = 4;
    m.duration_ms = 15;
    assert_eq!(m.summary(), "Incremental save: +2 ~1 -3 symbols, 4 files in 15ms");
    m.is_full_save = true;
    assert_eq!(m.summary(), "Full save: 2 symbols, 4 files in 15ms");
    assert_eq!(StorageMetrics::default().summary(), "Incremental save: +0 ~0 -0 symbols, 0 files in 0ms");
}

#[test]
fn affected_files() {
    let file = vec!["a".to_string(), "b".to_string()];
    assert!(is_file_affected(&file, &["b".to_string()], &[], &[]));
    assert!(is_file_affected(&file, &[], &[], &["a".to_string()]));
    assert!(!is_file_affected(&file, &["c".to_string()], &["d".to_string()], &[]));
    assert!(!is_file_affected(&[], &["a".to_string()], &[], &[]));
}

#[test]
fn index_format_values() {
    assert_ne!(IndexFormat::Lsif, IndexFormat::Scip);
}
