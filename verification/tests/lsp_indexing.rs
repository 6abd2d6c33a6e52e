use lsif_indexer::graph::{Position, Range, Symbol, SymbolKind};
use lsif_indexer::indexer::{Indexer, IndexerError, LocationData};
use lsif_indexer::lsp_indexer::{DocumentSymbolData, LspIndexer};

fn range(start: u32, end: u32) -> Range {
    Range { start: Position { line: start, character: 0 }, end: Position { line: end, character: 1 } }
}

fn doc(name: &str, kind: i32, start: u32, end: u32, children: Option<Vec<DocumentSymbolData>>) -> DocumentSymbolData {
    DocumentSymbolData {
        name: name.to_string(),
        detail: None,
        kind,
        range: range(start, end),
        selection_range: range(start, start),
        children,
    }
}

#[test]
fn lsp_indexer_adds_symbols_in_preorder() {
    let main = doc("main", 12, 66, 80, None);
    let point = doc("Point", 23, 1, 5, Some(vec![doc("x", 8, 2, 2, None), doc("y", 8, 3, 3, None)]));
    let mut indexer = LspIndexer::new("src/main.rs".to_string());
    indexer.index_from_symbols(vec![point, main]);
    let graph = indexer.into_graph();
    assert_eq!(graph.symbol_count(), 4);
    let main_symbol = graph.find_symbol("src/main.rs#66:main");
    assert!(main_symbol.is_some());
    assert_eq!(main_symbol.unwrap().name, "main");
    let names: Vec<String> = graph.get_all_symbols().iter().map(|s| s.name.clone()).collect();
    assert_eq!(names, vec!["Point", "x", "y", "main"]);
    assert_eq!(graph.find_symbol("src/main.rs#1:Point").unwrap().kind, SymbolKind::Class);
    assert_eq!(graph.find_symbol("src/main.rs#2:x").unwrap().kind, SymbolKind::Property);
    assert!(graph.find_references("src/main.rs#1:Point").is_empty());
}

#[test]
fn lsp_indexer_kinds() {
    assert_eq!(LspIndexer::convert_symbol_kind(12), SymbolKind::Function);
    assert_eq!(LspIndexer::convert_symbol_kind(23), SymbolKind::Class);
    assert_eq!(LspIndexer::convert_symbol_kind(22), SymbolKind::Constant);
    assert_eq!(LspIndexer::convert_symbol_kind(8), SymbolKind::Property);
    assert_eq!(LspIndexer::convert_symbol_kind(26), SymbolKind::Variable);
}

#[test]
fn indexer_kinds() {
    assert_eq!(Indexer::convert_symbol_kind(8), SymbolKind::Field);
    assert_eq!(Indexer::convert_symbol_kind(23), SymbolKind::Variable);
    assert_eq!(Indexer::convert_symbol_kind(11), SymbolKind::Interface);
}

#[test]
fn test_indexer_creation() {
    let indexer = Indexer::new();
    assert_eq!(indexer.graph.symbol_count(), 0);
    assert!(indexer.file_symbols.is_empty());
    assert!(indexer.processed_files.is_empty());
}

#[test]
fn document_symbol_paths_drop_the_file_scheme() {
    let d = doc("run", 12, 4, 9, None);
    let s = Indexer::convert_document_symbol(&d, "file:///p/a.rs");
    assert_eq!(s.id, "/p/a.rs#4:run");
    assert_eq!(s.file_path, "/p/a.rs");
    let t = Indexer::convert_document_symbol(&d, "untitled:a.rs");
    assert_eq!(t.file_path, "untitled:a.rs");
}

fn location(uri: &str, line: u32) -> LocationData {
    LocationData { uri: uri.to_string(), range: range(line, line) }
}

#[test]
fn children_get_contains_edges_and_references_become_edges() {
    let mut indexer = Indexer::new();
    let uri = "file:///p/a.rs";
    let outer = doc("Outer", 5, 0, 10, Some(vec![doc("inner", 6, 2, 4, None)]));
    let user = doc("user", 12, 12, 20, None);
    let syms = indexer.index_document_symbols(uri, &vec![outer, user]);
    assert_eq!(syms.len(), 3);
    assert_eq!(syms[1].id, "/p/a.rs#2:inner");
    indexer.record_file_symbols(uri.to_string(), "/p/a.rs".to_string(), syms.clone());
    indexer.record_file_symbols(uri.to_string(), "/p/a.rs".to_string(), syms.clone());
    assert_eq!(indexer.file_symbols.len(), 1);
    assert_eq!(indexer.processed_files.len(), 1);

    let inner = syms[1].clone();
    let refs = vec![location(uri, 15), location(uri, 50)];
    let result = indexer.analyze_symbol_references(&inner, &refs, Some(location(uri, 3)));
    assert!(result.is_ok());
    let missing = Symbol { id: "nowhere".to_string(), ..inner.clone() };
    assert_eq!(indexer.analyze_symbol_references(&missing, &refs, None), Err(IndexerError::SymbolNotFound));

    let graph = indexer.into_graph();
    let referencing = graph.find_references("/p/a.rs#2:inner");
    assert_eq!(referencing.len(), 1);
    assert_eq!(referencing[0].name, "user");
    // the location at line 3 falls on Outer first (lines 0 to 10), so the
    // Definition edge runs from inner to Outer
    assert_eq!(graph.find_definition("/p/a.rs#0:Outer").unwrap().name, "inner");
    assert!(graph.find_definition("/p/a.rs#2:inner").is_none());
}

#[test]
fn location_lookup_takes_the_first_enclosing_symbol() {
    let mut indexer = Indexer::new();
    let uri = "file:///q.rs";
    let syms = indexer.index_document_symbols(uri, &vec![doc("A", 12, 0, 5, None), doc("B", 12, 3, 8, None)]);
    indexer.record_file_symbols(uri.to_string(), "/q.rs".to_string(), syms);
    assert_eq!(indexer.find_symbol_at_location(&location(uri, 4)).unwrap().name, "A");
    assert_eq!(indexer.find_symbol_at_location(&location(uri, 7)).unwrap().name, "B");
    assert!(indexer.find_symbol_at_location(&location(uri, 9)).is_none());
    assert!(indexer.find_symbol_at_location(&location("file:///other.rs", 4)).is_none());
}

#[test]
fn cross_references_only_link_other_files() {
    let mut indexer = Indexer::new();
    let a = "file:///a.rs";
    let b = "file:///b.rs";
    let sa = indexer.index_document_symbols(a, &vec![doc("call", 12, 0, 3, None), doc("S", 23, 4, 6, None)]);
    let sb = indexer.index_document_symbols(b, &vec![doc("target", 6, 0, 9, None)]);
    indexer.record_file_symbols(a.to_string(), "/a.rs".to_string(), sa);
    indexer.record_file_symbols(b.to_string(), "/b.rs".to_string(), sb);
    let candidates = indexer.cross_reference_symbols();
    let names: Vec<&str> = candidates.iter().map(|(_, s)| s.name.as_str()).collect();
    assert_eq!(names, vec!["call", "target"]);
    let (uri, call) = candidates[0].clone();
    indexer.add_cross_references(&uri, &call, &vec![location(b, 2), location(a, 5)]);
    let graph = indexer.into_graph();
    let into_target = graph.find_references("/b.rs#0:target");
    assert_eq!(into_target.len(), 1);
    assert_eq!(into_target[0].name, "call");
    assert!(graph.find_references("/a.rs#4:S").is_empty());
}
