use lsif_indexer::enhanced_graph::{EnhancedCodeGraph, EnhancedIndex};
use lsif_indexer::graph::{EdgeKind, Position, Range, Symbol, SymbolKind};

fn sym(id: &str, name: &str, kind: SymbolKind, file: &str, line: u32) -> Symbol {
    Symbol {
        id: id.to_string(),
        kind,
        name: name.to_string(),
        file_path: file.to_string(),
        range: Range { start: Position { line, character: 2 }, end: Position { line: line + 2, character: 1 } },
        documentation: None,
    }
}

#[test]
fn ids_without_hash_are_normalized() {
    let mut g = EnhancedCodeGraph::new();
    let a = g.add_symbol_enhanced(sym("plain", "foo", SymbolKind::Function, "src/a.rs", 7));
    let b = g.add_symbol_enhanced(sym("src/b.rs#1:bar", "bar", SymbolKind::Function, "src/b.rs", 1));
    assert_eq!(g.symbol_count(), 2);
    g.add_edge_enhanced(b, a, EdgeKind::Reference);
    let refs = g.find_references_enhanced("src/a.rs#7:2:foo");
    assert_eq!(refs.len(), 1);
    assert_eq!(refs[0].name, "bar");
    assert_eq!(refs[0].id, "src/b.rs#1:bar");
    assert!(g.find_references_enhanced("plain").is_empty());
    let h = g.get_call_hierarchy("src/b.rs#1:bar", 2);
    assert_eq!(h.outgoing[0].symbol_id, "src/a.rs#7:2:foo");
    assert_eq!(h.outgoing[0].symbol.as_deref(), Some("foo"));
}

#[test]
fn call_graph_and_hierarchy() {
    let mut g = EnhancedCodeGraph::new();
    let a = g.add_symbol_enhanced(sym("f#a", "a", SymbolKind::Function, "f.rs", 1));
    let b = g.add_symbol_enhanced(sym("f#b", "b", SymbolKind::Function, "f.rs", 5));
    let c = g.add_symbol_enhanced(sym("f#c", "c", SymbolKind::Method, "f.rs", 9));
    let v = g.add_symbol_enhanced(sym("f#v", "v", SymbolKind::Variable, "f.rs", 12));
    g.add_edge_enhanced(a, b, EdgeKind::Reference);
    g.add_edge_enhanced(b, c, EdgeKind::Reference);
    g.add_edge_enhanced(c, a, EdgeKind::Reference);
    // a variable's reference is not a call
    g.add_edge_enhanced(v, a, EdgeKind::Reference);

    let h = g.get_call_hierarchy("f#a", 3);
    assert_eq!(h.root, "f#a");
    let out: Vec<(&str, usize)> = h.outgoing.iter().map(|n| (n.symbol_id.as_str(), n.depth)).collect();
    assert_eq!(out, vec![("f#b", 1), ("f#c", 2), ("f#a", 3)]);
    let inc: Vec<(&str, usize)> = h.incoming.iter().map(|n| (n.symbol_id.as_str(), n.depth)).collect();
    assert_eq!(inc, vec![("f#c", 1), ("f#a", 2), ("f#b", 3)]);
    assert_eq!(h.outgoing[0].symbol.as_deref(), Some("b"));

    let shallow = g.get_call_hierarchy("f#a", 1);
    assert_eq!(shallow.outgoing.len(), 1);
    let none = g.get_call_hierarchy("f#a", 0);
    assert!(none.outgoing.is_empty() && none.incoming.is_empty());
    let unknown = g.get_call_hierarchy("nobody", 5);
    assert!(unknown.outgoing.is_empty());
}

#[test]
fn dead_code_uses_usage_counts() {
    let mut g = EnhancedCodeGraph::new();
    let a = g.add_symbol_enhanced(sym("x#main", "main", SymbolKind::Function, "x.rs", 1));
    let b = g.add_symbol_enhanced(sym("x#helper", "helper", SymbolKind::Function, "x.rs", 4));
    g.add_symbol_enhanced(sym("x#orphan", "orphan", SymbolKind::Function, "x.rs", 8));
    g.add_symbol_enhanced(sym("x#test_it", "test_it", SymbolKind::Function, "x.rs", 10));
    g.add_edge_enhanced(a, b, EdgeKind::Reference);
    let dead: Vec<&str> = g.find_dead_code().iter().map(|s| s.name.as_str()).collect();
    assert_eq!(dead, vec!["orphan"]);
}

#[test]
fn type_relations() {
    let mut g = EnhancedCodeGraph::new();
    let child = g.add_symbol_enhanced(sym("t#Child", "Child", SymbolKind::Class, "t.rs", 1));
    let parent = g.add_symbol_enhanced(sym("t#Parent", "Parent", SymbolKind::Class, "t.rs", 5));
    let iface = g.add_symbol_enhanced(sym("t#Show", "Show", SymbolKind::Interface, "t.rs", 9));
    g.add_edge_enhanced(child, parent, EdgeKind::TypeDefinition);
    g.add_edge_enhanced(child, iface, EdgeKind::Implementation);
    g.add_edge_enhanced(child, parent, EdgeKind::TypeDefinition);
    let r = g.analyze_type_relations("t#Child");
    assert_eq!(r.type_id, "t#Child");
    assert_eq!(r.base_types, vec!["t#Parent".to_string(), "t#Parent".to_string()]);
    assert_eq!(r.implementations, vec!["t#Show".to_string()]);
    assert_eq!(r.related_types, vec!["t#Parent".to_string(), "t#Show".to_string()]);
    let p = g.analyze_type_relations("t#Parent");
    assert_eq!(p.derived_types, vec!["t#Child".to_string(), "t#Child".to_string()]);
    assert_eq!(p.related_types, vec!["t#Child".to_string()]);
}

#[test]
fn cross_file_dependencies_sorted_and_deduplicated() {
    let mut g = EnhancedCodeGraph::new();
    let a = g.add_symbol_enhanced(sym("a#1", "a1", SymbolKind::Function, "a.rs", 1));
    let a2 = g.add_symbol_enhanced(sym("a#2", "a2", SymbolKind::Function, "a.rs", 2));
    let c = g.add_symbol_enhanced(sym("c#1", "c1", SymbolKind::Function, "c.rs", 1));
    let b = g.add_symbol_enhanced(sym("b#1", "b1", SymbolKind::Function, "b.rs", 1));
    g.add_edge_enhanced(a, c, EdgeKind::Reference);
    g.add_edge_enhanced(a2, b, EdgeKind::Import);
    g.add_edge_enhanced(a, a2, EdgeKind::Reference);
    g.add_edge_enhanced(a2, c, EdgeKind::Reference);
    g.add_edge_enhanced(b, a, EdgeKind::Reference);
    let deps = g.analyze_cross_file_dependencies();
    assert_eq!(deps.len(), 2);
    assert_eq!(deps[0].0, "a.rs");
    assert_eq!(deps[0].1, vec!["b.rs".to_string(), "c.rs".to_string()]);
    assert_eq!(deps[1].0, "b.rs");
    assert_eq!(deps[1].1, vec!["a.rs".to_string()]);
}

#[test]
fn definition_at_reference_position() {
    let mut g = EnhancedCodeGraph::new();
    let use_site = g.add_symbol_enhanced(sym("m#use", "use_site", SymbolKind::Variable, "m.rs", 10));
    let def = g.add_symbol_enhanced(sym("d#def", "the_def", SymbolKind::Function, "d.rs", 3));
    g.add_edge_enhanced(use_site, def, EdgeKind::Definition);
    assert_eq!(g.find_definition_enhanced("m.rs#11:0").unwrap().name, "the_def");
    assert_eq!(g.find_definition_enhanced("d.rs#3:5").unwrap().name, "the_def");
    assert!(g.find_definition_enhanced("d.rs#3:1").is_none());
    assert!(g.find_definition_enhanced("d.rs#3").is_none());
    assert!(g.find_definition_enhanced("d.rs#x:1").is_none());
    assert!(g.find_definition_enhanced("a#b#3:4").is_none());
    assert!(g.find_definition_enhanced("none.rs#3:4").is_none());
    assert_eq!(g.find_definition_enhanced("m.rs#12:1:extra").unwrap().name, "the_def");
}

#[test]
fn references_enhanced_lists_reference_sources() {
    let mut g = EnhancedCodeGraph::new();
    let t = g.add_symbol_enhanced(sym("r#t", "t", SymbolKind::Function, "r.rs", 1));
    let u = g.add_symbol_enhanced(sym("r#u", "u", SymbolKind::Function, "r.rs", 5));
    g.add_edge_enhanced(u, t, EdgeKind::Reference);
    g.add_edge_enhanced(u, t, EdgeKind::Definition);
    let refs = g.find_references_enhanced("r#t");
    assert_eq!(refs.len(), 1);
    assert_eq!(refs[0].name, "u");
}

#[test]
fn empty_index_and_default_graph() {
    let idx = EnhancedIndex::default();
    assert!(idx.symbols.is_empty() && idx.call_graph.is_empty());
    let g = EnhancedCodeGraph::default();
    assert_eq!(g.symbol_count(), 0);
    assert!(g.find_dead_code().is_empty());
}
