use lsif_indexer::dead_code::{is_entry_point, OptimizedDeadCodeDetector};
use lsif_indexer::graph::{kind_name, CodeGraph, EdgeKind, Position, Range, Symbol, SymbolKind};
use lsif_indexer::test_utils::{create_test_graph, create_test_symbol};

fn symbol(id: &str, name: &str, file: &str, line: u32) -> Symbol {
    Symbol {
        id: id.to_string(),
        kind: SymbolKind::Function,
        name: name.to_string(),
        file_path: file.to_string(),
        range: Range { start: Position { line, character: 0 }, end: Position { line, character: 20 } },
        documentation: None,
    }
}

#[test]
fn find_symbol_returns_what_was_added() {
    let mut g = CodeGraph::new();
    g.add_symbol(symbol("a", "alpha", "a.rs", 1));
    g.add_symbol(symbol("b", "beta", "a.rs", 2));
    assert_eq!(g.find_symbol("a").unwrap().name, "alpha");
    assert_eq!(g.find_symbol("b").unwrap().name, "beta");
    assert!(g.find_symbol("c").is_none());
    assert_eq!(g.symbol_count(), 2);
}

#[test]
fn re_adding_an_id_replaces_the_indexed_symbol() {
    let mut g = CodeGraph::new();
    g.add_symbol(symbol("a", "first", "a.rs", 1));
    g.add_symbol(symbol("a", "second", "a.rs", 5));
    assert_eq!(g.symbol_count(), 1);
    assert_eq!(g.find_symbol("a").unwrap().name, "second");
    assert_eq!(g.get_all_symbols().len(), 2);
}

#[test]
fn references_and_definitions_follow_edges() {
    let mut g = CodeGraph::new();
    let def = g.add_symbol(symbol("def", "target", "a.rs", 1));
    let r1 = g.add_symbol(symbol("r1", "use1", "b.rs", 3));
    let r2 = g.add_symbol(symbol("r2", "use2", "c.rs", 4));
    g.add_edge(r1, def, EdgeKind::Reference);
    g.add_edge(r2, def, EdgeKind::Reference);
    g.add_edge(def, r1, EdgeKind::Definition);
    let refs = g.find_references("def");
    let names: Vec<&str> = refs.iter().map(|s| s.name.as_str()).collect();
    assert_eq!(names, vec!["use2", "use1"]);
    assert_eq!(g.find_definition("r1").unwrap().name, "target");
    assert!(g.find_definition("r2").is_none());
    assert!(g.find_references("nothing").is_empty());
}

#[test]
fn implementations_and_overrides() {
    let mut g = CodeGraph::new();
    let iface = g.add_symbol(symbol("i", "Iface", "a.rs", 1));
    let imp = g.add_symbol(symbol("c", "Impl", "a.rs", 2));
    let base = g.add_symbol(symbol("m", "method", "a.rs", 3));
    let over = g.add_symbol(symbol("o", "override", "a.rs", 4));
    g.add_edge(imp, iface, EdgeKind::Implementation);
    g.add_edge(over, base, EdgeKind::Override);
    assert_eq!(g.find_implementations("i")[0].name, "Impl");
    assert_eq!(g.find_overrides("m")[0].name, "override");
    assert!(g.find_implementations("m").is_empty());
}

#[test]
fn definition_at_position() {
    let mut g = CodeGraph::new();
    let a = g.add_symbol(symbol("a", "caller", "a.rs", 10));
    let b = g.add_symbol(symbol("b", "callee", "b.rs", 2));
    g.add_edge(a, b, EdgeKind::Reference);
    let found = g.find_definition_at("a.rs", Position { line: 10, character: 5 }).unwrap();
    assert_eq!(found.name, "callee");
    let found = g.find_definition_at("b.rs", Position { line: 2, character: 0 }).unwrap();
    assert_eq!(found.name, "callee");
    assert!(g.find_definition_at("a.rs", Position { line: 11, character: 0 }).is_none());
}

#[test]
fn range_contains_is_inclusive() {
    let r = Range { start: Position { line: 1, character: 4 }, end: Position { line: 3, character: 2 } };
    assert!(r.contains(1, 4));
    assert!(r.contains(3, 2));
    assert!(r.contains(2, 100));
    assert!(!r.contains(1, 3));
    assert!(!r.contains(3, 3));
    assert!(!r.contains(0, 10));
    assert!(!r.contains(4, 0));
}

#[test]
fn kind_names_are_variant_names() {
    assert_eq!(kind_name(SymbolKind::Function), "Function");
    assert_eq!(kind_name(SymbolKind::TypeParameter), "TypeParameter");
    assert_eq!(kind_name(SymbolKind::EnumMember), "EnumMember");
}

#[test]
fn test_fixtures() {
    let s = create_test_symbol("id1", "name1", SymbolKind::Class);
    assert_eq!(s.id, "id1");
    assert_eq!(s.name, "name1");
    assert_eq!(s.file_path, "test.rs");
    assert_eq!(s.range.end.character, 10);
    let g = create_test_graph();
    assert_eq!(g.symbol_count(), 2);
    assert_eq!(g.find_references("func1")[0].name, "test_variable");
}

#[test]
fn default_graph_is_empty() {
    let g = CodeGraph::default();
    assert_eq!(g.symbol_count(), 0);
    assert!(g.get_all_symbols().is_empty());
}

#[test]
fn dead_code_reports_unreached_symbols() {
    let mut g = CodeGraph::new();
    let main = g.add_symbol(symbol("main", "main", "main.rs", 1));
    let used = g.add_symbol(symbol("used", "helper", "main.rs", 5));
    let _unused = g.add_symbol(symbol("unused", "orphan", "main.rs", 9));
    let deeper = g.add_symbol(symbol("deep", "deep_helper", "main.rs", 12));
    g.add_edge(main, used, EdgeKind::Reference);
    g.add_edge(used, deeper, EdgeKind::Definition);
    let dead = OptimizedDeadCodeDetector::detect_parallel(&g);
    assert_eq!(dead, vec!["unused".to_string()]);
}

#[test]
fn dead_code_entry_points_are_live() {
    let mut g = CodeGraph::new();
    g.add_symbol(symbol("t", "test_something", "lib.rs", 1));
    g.add_symbol(symbol("b", "bench_x", "lib.rs", 2));
    g.add_symbol(symbol("p", "pub api", "lib.rs", 3));
    g.add_symbol(symbol("x", "private", "other.rs", 4));
    let dead = OptimizedDeadCodeDetector::detect_parallel(&g);
    assert_eq!(dead, vec!["x".to_string()]);
    assert!(is_entry_point(&symbol("m", "crate::main", "a.rs", 0)));
    assert!(!is_entry_point(&symbol("m", "helper", "a.rs", 0)));
}
