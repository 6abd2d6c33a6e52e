use lsif_indexer::enhanced_graph::EnhancedIndex;
use lsif_indexer::graph::{Position, Range, SymbolKind};
use lsif_indexer::lsp_indexer::DocumentSymbolData;
use lsif_indexer::lsp_integration::{
    convert_symbol_kind, location_id, process_symbol, record_calls, record_definitions, record_references, CallData,
    SourcePosition,
};

fn range(line: u32, c0: u32, c1: u32) -> Range {
    Range { start: Position { line, character: c0 }, end: Position { line, character: c1 } }
}

fn doc(name: &str, kind: i32, line: u32, children: Option<Vec<DocumentSymbolData>>) -> DocumentSymbolData {
    DocumentSymbolData {
        name: name.to_string(),
        detail: Some(format!("detail of {}", name)),
        kind,
        range: range(line, 0, 40),
        selection_range: range(line, 4, 9),
        children,
    }
}

fn place(path: &str, line: u32, character: u32) -> SourcePosition {
    SourcePosition { path: path.to_string(), line, character }
}

#[test]
fn every_protocol_kind_has_its_own_kind() {
    assert_eq!(convert_symbol_kind(1), SymbolKind::File);
    assert_eq!(convert_symbol_kind(4), SymbolKind::Package);
    assert_eq!(convert_symbol_kind(9), SymbolKind::Constructor);
    assert_eq!(convert_symbol_kind(23), SymbolKind::Struct);
    assert_eq!(convert_symbol_kind(26), SymbolKind::TypeParameter);
    assert_eq!(convert_symbol_kind(0), SymbolKind::Unknown);
    assert_eq!(convert_symbol_kind(27), SymbolKind::Unknown);
}

#[test]
fn places_count_from_one() {
    assert_eq!(location_id("/src/a.rs", 0, 0), "/src/a.rs:1:1");
    assert_eq!(location_id("/src/a.rs", 9, 14), "/src/a.rs:10:15");
}

#[test]
fn symbols_are_put_under_their_ids_with_their_selection_range() {
    let mut index = EnhancedIndex::default();
    let tree = doc("Shape", 23, 3, Some(vec![doc("area", 6, 5, None)]));
    let id = process_symbol("/src/shape.rs", &tree, &mut index);
    assert_eq!(id, "/src/shape.rs#3:Shape");
    assert_eq!(index.symbols.len(), 2);
    assert_eq!(index.symbols[1].0, "/src/shape.rs#5:area");
    let area = &index.symbols[1].1;
    assert_eq!(area.kind, SymbolKind::Method);
    assert_eq!(area.range, range(5, 4, 9));
    assert_eq!(area.documentation.as_deref(), Some("detail of area"));
    // the same symbol again replaces its entry
    let again = process_symbol("/src/shape.rs", &doc("area", 12, 5, None), &mut index);
    assert_eq!(again, "/src/shape.rs#5:area");
    assert_eq!(index.symbols.len(), 2);
    assert_eq!(index.symbols[1].1.kind, SymbolKind::Function);
}

#[test]
fn references_and_definitions_accumulate_per_symbol() {
    let mut index = EnhancedIndex::default();
    record_references(&mut index, "s", &vec![place("/a.rs", 1, 2), place("/b.rs", 3, 4)]);
    record_references(&mut index, "s", &vec![place("/c.rs", 0, 0)]);
    record_references(&mut index, "t", &vec![]);
    assert_eq!(index.references.len(), 1);
    let refs = &index.references[0].1;
    let locations: Vec<&str> = refs.iter().map(|r| r.location.as_str()).collect();
    assert_eq!(locations, vec!["/a.rs:2:3", "/b.rs:4:5", "/c.rs:1:1"]);
    assert!(refs.iter().all(|r| r.kind == "reference"));
    record_definitions(&mut index, "s", &vec![place("/d.rs", 6, 7)]);
    assert_eq!(index.definitions, vec![("s".to_string(), vec!["/d.rs:7:8".to_string()])]);
}

#[test]
fn calls_record_both_directions() {
    let mut index = EnhancedIndex::default();
    let call = CallData {
        path: "/x.rs".to_string(),
        line: 8,
        name: "helper".to_string(),
        site: Position { line: 2, character: 5 },
    };
    record_calls(&mut index, "/main.rs", "/main.rs#1:main", &vec![call], false);
    let back = CallData {
        path: "/y.rs".to_string(),
        line: 0,
        name: "caller".to_string(),
        site: Position { line: 0, character: 0 },
    };
    record_calls(&mut index, "/main.rs", "/main.rs#1:main", &vec![back], true);
    assert_eq!(index.call_graph.len(), 2);
    assert_eq!(index.call_graph[0].from, "/main.rs#1:main");
    assert_eq!(index.call_graph[0].to, "/x.rs#8:helper");
    assert_eq!(index.call_graph[0].call_site, "/main.rs:3:6");
    assert_eq!(index.call_graph[1].from, "/y.rs#0:caller");
    assert_eq!(index.call_graph[1].to, "/main.rs#1:main");
    assert_eq!(index.call_graph[1].call_site, "/main.rs:1:1");
}
