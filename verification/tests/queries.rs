use lsif_indexer::graph::{CodeGraph, Position, Range, Symbol, SymbolKind};
use lsif_indexer::lsif_queries::{
    execute_find, execute_query, execute_search, potentially_unused, FindOutcome, FindType, QueryOutcome, QueryType,
};
use lsif_indexer::simple_cli::{changed_symbols, related_symbols};

fn sym(id: &str, name: &str, kind: SymbolKind, file: &str, start: u32, end: u32) -> Symbol {
    Symbol {
        id: id.to_string(),
        kind,
        name: name.to_string(),
        file_path: file.to_string(),
        range: Range { start: Position { line: start, character: 0 }, end: Position { line: end, character: 3 } },
        documentation: None,
    }
}

fn entries() -> Vec<(String, Option<Symbol>)> {
    vec![
        ("src/a.rs#3:0:main".to_string(), Some(sym("a1", "main", SymbolKind::Function, "src/a.rs", 3, 9))),
        ("src/a.rs#12:0:helper".to_string(), Some(sym("a2", "helper", SymbolKind::Function, "src/a.rs", 12, 20))),
        ("src/b.rs#1:0:Point".to_string(), Some(sym("b1", "Point", SymbolKind::Class, "src/b.rs", 1, 4))),
        ("src/b.rs#6:0:impl Point".to_string(), Some(sym("b2", "impl Point", SymbolKind::Class, "src/b.rs", 6, 30))),
        ("src/b.rs#8:4:test_point".to_string(), Some(sym("b3", "test_point", SymbolKind::Function, "src/b.rs", 8, 10))),
        ("src/c.rs#0:0:broken".to_string(), None),
        ("__metadata__".to_string(), Some(sym("m", "helper_meta", SymbolKind::Variable, "meta", 0, 0))),
    ]
}

fn names(v: &[Symbol]) -> Vec<&str> {
    v.iter().map(|s| s.name.as_str()).collect()
}

#[test]
fn definition_query_reads_the_keys_of_the_place_or_file() {
    let q = QueryType::Definition { file: "src/b.rs".to_string(), line: 1, column: 0 };
    match execute_query(&q, &entries()) {
        QueryOutcome::Definitions(v) => assert_eq!(names(&v), vec!["Point", "impl Point", "test_point"]),
        _ => panic!("wrong outcome"),
    }
}

#[test]
fn reference_and_function_queries_match_names_exactly() {
    match execute_query(&QueryType::References { symbol: "helper".to_string() }, &entries()) {
        QueryOutcome::References(v) => assert_eq!(names(&v), vec!["helper"]),
        _ => panic!("wrong outcome"),
    }
    match execute_query(&QueryType::CallHierarchy { function: "main".to_string(), depth: 3 }, &entries()) {
        QueryOutcome::Function(Some(f)) => assert_eq!(f.id, "a1"),
        _ => panic!("wrong outcome"),
    }
    match execute_query(&QueryType::CallHierarchy { function: "Point".to_string(), depth: 3 }, &entries()) {
        QueryOutcome::Function(f) => assert!(f.is_none()),
        _ => panic!("wrong outcome"),
    }
}

#[test]
fn dead_code_query_spares_main_and_tests() {
    match execute_query(&QueryType::DeadCode, &entries()) {
        QueryOutcome::Unused(v) => assert_eq!(names(&v), vec!["helper"]),
        _ => panic!("wrong outcome"),
    }
    assert!(!potentially_unused(&sym("x", "bench_sort", SymbolKind::Function, "f", 0, 0)));
    assert!(!potentially_unused(&sym("x", "run", SymbolKind::Method, "f", 0, 0)));
}

#[test]
fn type_query_finds_the_class_and_its_impls() {
    match execute_query(&QueryType::TypeRelations { name: "Point".to_string() }, &entries()) {
        QueryOutcome::TypeRelations(Some((class, impls))) => {
            assert_eq!(class.id, "b1");
            assert_eq!(names(&impls), vec!["impl Point"]);
        }
        _ => panic!("wrong outcome"),
    }
    match execute_query(&QueryType::TypeRelations { name: "Line".to_string() }, &entries()) {
        QueryOutcome::TypeRelations(t) => assert!(t.is_none()),
        _ => panic!("wrong outcome"),
    }
}

#[test]
fn find_ignores_case_for_definitions() {
    match execute_find(&FindType::Definition { symbol: "POINT".to_string() }, &entries()) {
        FindOutcome::Definition(Some(s)) => assert_eq!(s.id, "b1"),
        _ => panic!("wrong outcome"),
    }
    match execute_find(&FindType::References { symbol: "Point".to_string() }, &entries()) {
        FindOutcome::References(v) => assert_eq!(names(&v), vec!["Point", "impl Point", "test_point"]),
        _ => panic!("wrong outcome"),
    }
    match execute_find(&FindType::At { file: "a.rs".to_string(), line: 5, column: 1 }, &entries()) {
        FindOutcome::At(v) => assert_eq!(names(&v), vec!["main"]),
        _ => panic!("wrong outcome"),
    }
}

#[test]
fn search_filters_by_name_kind_and_file() {
    let all = entries();
    assert_eq!(names(&execute_search("HELP", &None, &None, &all)), vec!["helper"]);
    assert_eq!(names(&execute_search("point", &Some("class".to_string()), &None, &all)), vec!["Point", "impl Point"]);
    assert_eq!(names(&execute_search("point", &Some("func".to_string()), &Some("b.rs".to_string()), &all)), vec!["test_point"]);
    assert!(execute_search("point", &None, &Some("a.rs".to_string()), &all).is_empty());
}

#[test]
fn graph_diff_lists_changed_and_related_symbols() {
    let mut g = CodeGraph::new();
    g.add_symbol(sym("a1", "run", SymbolKind::Function, "a.rs", 0, 1));
    g.add_symbol(sym("b1", "run", SymbolKind::Function, "b.rs", 0, 1));
    g.add_symbol(sym("a2", "stop", SymbolKind::Function, "a.rs", 2, 3));
    g.add_symbol(sym("c1", "run", SymbolKind::Method, "c.rs", 5, 6));
    let changed = changed_symbols(&g, &vec!["a.rs".to_string(), "zzz.rs".to_string()]);
    let ids: Vec<&str> = changed.iter().map(|s| s.id.as_str()).collect();
    assert_eq!(ids, vec!["a1", "a2"]);
    let mut related = related_symbols(&g, &changed);
    related.sort();
    assert_eq!(related, vec![("run".to_string(), "b.rs".to_string()), ("run".to_string(), "c.rs".to_string())]);
}
