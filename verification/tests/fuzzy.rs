use lsif_indexer::fuzzy_search::{abbreviation_match, fuzzy_match, fuzzy_search};
use lsif_indexer::graph::{Position, Range, Symbol, SymbolKind};

fn sym(name: &str) -> Symbol {
    Symbol {
        id: format!("test.rs#1:{}", name),
        kind: SymbolKind::Function,
        name: name.to_string(),
        file_path: "test.rs".to_string(),
        range: Range { start: Position { line: 0, character: 0 }, end: Position { line: 0, character: 1 } },
        documentation: None,
    }
}

#[test]
fn test_fuzzy_match() {
    assert!(fuzzy_match("rp", "relationshippattern"));
    assert!(fuzzy_match("qe", "queryengine"));
    assert!(!fuzzy_match("xyz", "abcdef"));
}

#[test]
fn test_abbreviation_match() {
    assert!(abbreviation_match("RP", "RelationshipPattern"));
    assert!(abbreviation_match("QE", "QueryEngine"));
    assert!(!abbreviation_match("XY", "RelationshipPattern"));
}

#[test]
fn fuzzy_match_edge_cases() {
    assert!(fuzzy_match("", ""));
    assert!(fuzzy_match("", "abc"));
    assert!(!fuzzy_match("a", ""));
    assert!(fuzzy_match("abc", "abc"));
    assert!(!fuzzy_match("cba", "abc"));
}

#[test]
fn abbreviation_match_is_case_insensitive_in_the_query() {
    assert!(abbreviation_match("rp", "RelationshipPattern"));
    assert!(abbreviation_match("R", "RelationshipPattern"));
    assert!(!abbreviation_match("PR", "RelationshipPattern"));
}

#[test]
fn fuzzy_search_ranks_by_score() {
    let symbols = vec![
        sym("JsonRpcRequest"),
        sym("user"),
        sym("UserService"),
        sym("getUser"),
        sym("unrelated"),
        sym("uxsxexr"),
    ];
    let hits = fuzzy_search("user", &symbols);
    let names: Vec<&str> = hits.iter().map(|h| h.symbol.name.as_str()).collect();
    let scores: Vec<u32> = hits.iter().map(|h| h.score).collect();
    assert_eq!(names, vec!["user", "UserService", "getUser", "uxsxexr"]);
    assert_eq!(scores, vec![100, 90, 70, 50]);
}

#[test]
fn fuzzy_search_keeps_input_order_for_equal_scores() {
    let symbols = vec![sym("RelationshipPattern"), sym("ReadPipe"), sym("rp")];
    let hits = fuzzy_search("RP", &symbols);
    let names: Vec<&str> = hits.iter().map(|h| h.symbol.name.as_str()).collect();
    let scores: Vec<u32> = hits.iter().map(|h| h.score).collect();
    assert_eq!(names, vec!["rp", "RelationshipPattern", "ReadPipe"]);
    assert_eq!(scores, vec![100, 50, 50]);
}

#[test]
fn fuzzy_search_abbreviation_score() {
    let symbols = vec![sym("QueryEngine")];
    let hits = fuzzy_search("QGE", &symbols);
    assert_eq!(hits.len(), 1);
    assert_eq!(hits[0].score, 50);
    let hits = fuzzy_search("zz", &symbols);
    assert!(hits.is_empty());
    let symbols = vec![sym("XmlQueryEngine")];
    let hits = fuzzy_search("XQE", &symbols);
    assert_eq!(hits.len(), 1);
    assert_eq!(hits[0].score, 50);
}
