use lsif_indexer::graph::{CodeGraph, EdgeKind, Position, Range, Symbol, SymbolKind};
use lsif_indexer::graph_builder::GraphBuilder;
use lsif_indexer::graph_serde::{SerializedCodeGraph, SerializedEdge};
use lsif_indexer::parallel_optimized::{merge_subgraph, OptimizedParallelGraph};

fn create_test_symbol(id: &str) -> Symbol {
    Symbol {
        id: id.to_string(),
        name: id.to_string(),
        kind: SymbolKind::Function,
        file_path: "test.rs".to_string(),
        range: Range {
            start: Position { line: 0, character: 0 },
            end: Position { line: 1, character: 0 },
        },
        documentation: None,
    }
}

#[test]
fn test_optimized_batch_add() {
    let mut graph = CodeGraph::new();

    let symbols: Vec<Symbol> = (0..2000).map(|i| create_test_symbol(&format!("sym_{}", i))).collect();

    let indices = OptimizedParallelGraph::add_symbols_batch(&mut graph, symbols);

    assert_eq!(indices.len(), 2000);
    assert_eq!(graph.symbol_count(), 2000);
}

#[test]
fn test_small_batch_sequential() {
    let mut graph = CodeGraph::new();

    let symbols: Vec<Symbol> = (0..50).map(|i| create_test_symbol(&format!("small_{}", i))).collect();

    let indices = OptimizedParallelGraph::add_symbols_batch(&mut graph, symbols);

    assert_eq!(indices.len(), 50);
    assert_eq!(graph.symbol_count(), 50);
}

#[test]
fn batch_indices_continue_after_existing_nodes() {
    let mut graph = CodeGraph::new();
    graph.add_symbol(create_test_symbol("first"));
    let symbols: Vec<Symbol> = (0..3).map(|i| create_test_symbol(&format!("s{}", i))).collect();
    let indices = OptimizedParallelGraph::add_symbols_batch(&mut graph, symbols);
    let values: Vec<usize> = indices.iter().map(|n| n.index()).collect();
    assert_eq!(values, vec![1, 2, 3]);
    assert_eq!(graph.get_node_index("s2").unwrap().index(), 3);
}

#[test]
fn chunked_batch_skips_ids_repeated_later_in_their_chunk() {
    let mut graph = CodeGraph::new();
    let mut symbols: Vec<Symbol> = (0..1500).map(|i| create_test_symbol(&format!("id_{}", i))).collect();
    // position 10 repeats the id of position 5, both in the first chunk
    symbols[10] = create_test_symbol("id_5");
    // position 1200 repeats the id of position 20, in another chunk
    symbols[1200] = create_test_symbol("id_20");
    let indices = OptimizedParallelGraph::add_symbols_batch(&mut graph, symbols);
    assert_eq!(indices.len(), 1499);
    assert!(!indices.iter().any(|n| n.index() == 5));
    assert!(indices.iter().any(|n| n.index() == 10));
    assert!(indices.iter().any(|n| n.index() == 20));
    assert!(indices.iter().any(|n| n.index() == 1200));
    assert_eq!(graph.get_node_index("id_20").unwrap().index(), 1200);
    assert_eq!(graph.symbol_count(), 1498);
}

#[test]
fn small_batch_reports_repeated_ids_too() {
    let mut graph = CodeGraph::new();
    let symbols = vec![create_test_symbol("a"), create_test_symbol("a")];
    let indices = OptimizedParallelGraph::add_symbols_batch(&mut graph, symbols);
    assert_eq!(indices.len(), 2);
    assert_eq!(graph.symbol_count(), 1);
    assert_eq!(graph.get_node_index("a").unwrap().index(), 1);
}

#[test]
fn merge_maps_index_nodes_and_their_edges() {
    let mut main = CodeGraph::new();
    main.add_symbol(create_test_symbol("m"));
    let mut sub = CodeGraph::new();
    let a0 = sub.add_symbol(create_test_symbol("a"));
    let b = sub.add_symbol(create_test_symbol("b"));
    let a1 = sub.add_symbol(create_test_symbol("a"));
    sub.add_edge(b, a1, EdgeKind::Reference);
    sub.add_edge(a0, b, EdgeKind::Reference);
    let mapping = merge_subgraph(&mut main, sub);
    assert_eq!(mapping, vec![None, Some(2), Some(3)]);
    assert_eq!(main.get_all_symbols().len(), 4);
    let refs = main.find_references("a");
    assert_eq!(refs.len(), 1);
    assert_eq!(refs[0].id, "b");
    assert!(main.find_references("b").is_empty());
}

#[test]
fn builder_skips_repeated_ids_and_joins_known_edges() {
    let mut builder = GraphBuilder::new();
    builder.add_symbol(create_test_symbol("f")).add_symbol(create_test_symbol("g"));
    let mut other = create_test_symbol("f");
    other.name = "other".to_string();
    builder.add_symbol(other);
    builder
        .add_edge_by_id("g".to_string(), "f".to_string(), EdgeKind::Reference)
        .add_edge_by_id("g".to_string(), "missing".to_string(), EdgeKind::Reference);
    let graph = builder.build();
    assert_eq!(graph.symbol_count(), 2);
    assert_eq!(graph.find_symbol("f").unwrap().name, "f");
    let refs = graph.find_references("f");
    assert_eq!(refs.len(), 1);
    assert_eq!(refs[0].id, "g");
}

#[test]
fn default_builder_builds_an_empty_graph() {
    let graph = GraphBuilder::default().build();
    assert_eq!(graph.symbol_count(), 0);
    assert!(graph.get_all_symbols().is_empty());
}

#[test]
fn serialized_graph_reads_back_the_same() {
    let mut graph = CodeGraph::new();
    let f = graph.add_symbol(create_test_symbol("f"));
    let g = graph.add_symbol(create_test_symbol("g"));
    graph.add_edge(g, f, EdgeKind::Reference);
    graph.add_edge(f, g, EdgeKind::Implementation);
    let stored = graph.to_serialized();
    assert_eq!(stored.symbols.len(), 2);
    assert_eq!(stored.edges.len(), 2);
    assert_eq!(stored.edges[0].from_id, "g");
    assert_eq!(stored.edges[0].to_id, "f");
    assert_eq!(stored.edges[0].kind, EdgeKind::Reference);
    assert_eq!(stored.edges[1].kind, EdgeKind::Implementation);
    let read = CodeGraph::from_serialized(stored);
    assert_eq!(read.symbol_count(), 2);
    assert_eq!(read.find_references("f")[0].id, "g");
    assert_eq!(read.find_implementations("g")[0].id, "f");
}

#[test]
fn serialized_graph_keeps_only_the_indexed_symbol_of_an_id() {
    let mut graph = CodeGraph::new();
    graph.add_symbol(create_test_symbol("x"));
    let mut later = create_test_symbol("x");
    later.name = "later".to_string();
    graph.add_symbol(later);
    let stored = graph.to_serialized();
    assert_eq!(stored.symbols.len(), 1);
    assert_eq!(stored.symbols[0].name, "later");
}

#[test]
fn reading_drops_edges_to_unknown_ids() {
    let stored = SerializedCodeGraph {
        symbols: vec![create_test_symbol("a")],
        edges: vec![
            SerializedEdge { from_id: "a".to_string(), to_id: "zzz".to_string(), kind: EdgeKind::Reference },
            SerializedEdge { from_id: "a".to_string(), to_id: "a".to_string(), kind: EdgeKind::Reference },
        ],
    };
    let read = CodeGraph::from_serialized(stored);
    assert_eq!(read.find_references("a").len(), 1);
}
