use lsif_indexer::graph::{CodeGraph, Position, Range, Symbol, SymbolKind};
use lsif_indexer::lsif_tool::{
    extract_impl_name, index_file_symbols, parse_interactive, split_words, InteractiveCommand, Language,
};
use lsif_indexer::reference_finder::{dedup_and_sort, Reference};
use lsif_indexer::simple_cli::{
    document_symbols, implementations_of, parse_location, search_symbols, symbol_on_line, SimpleCli, SimpleCommands,
    DEFAULT_INDEX_PATH,
};

fn sym(id: &str, name: &str, kind: SymbolKind, file: &str, start: u32, end: u32) -> Symbol {
    Symbol {
        id: id.to_string(),
        kind,
        name: name.to_string(),
        file_path: file.to_string(),
        range: Range { start: Position { line: start, character: 0 }, end: Position { line: end, character: 0 } },
        documentation: None,
    }
}

#[test]
fn parse_location_forms() {
    assert_eq!(parse_location("src/main.rs:10:5", None, None), ("src/main.rs".to_string(), 10, 5));
    assert_eq!(parse_location("src/main.rs:10", None, None), ("src/main.rs".to_string(), 10, 1));
    assert_eq!(parse_location("src/main.rs", Some(3), None), ("src/main.rs".to_string(), 3, 1));
    assert_eq!(parse_location("src/main.rs", None, None), ("src/main.rs".to_string(), 1, 1));
    assert_eq!(parse_location("C:/x.rs:2:3", None, None), ("C:/x.rs".to_string(), 2, 3));
    assert_eq!(parse_location("a.rs:x:3", None, Some(9)), ("a.rs:x".to_string(), 3, 1));
    assert_eq!(parse_location("C:/src/a.rs:10", None, None), ("C:/src/a.rs".to_string(), 10, 1));
    assert_eq!(parse_location("C:/src/a.rs:10:4", None, None), ("C:/src/a.rs".to_string(), 10, 4));
    assert_eq!(parse_location("a.rs:2:x", None, Some(9)), ("a.rs:2:x".to_string(), 1, 9));
    assert_eq!(parse_location("a.rs:2:3", Some(7), Some(8)), ("a.rs:2:3".to_string(), 7, 8));
    assert_eq!(parse_location("a.rs:+2", None, None), ("a.rs".to_string(), 2, 1));
}

#[test]
fn execute_resolves_defaults_and_locations() {
    let cli = SimpleCli {
        db: None,
        project: None,
        no_auto_index: false,
        command: SimpleCommands::Definition { file: "a.rs:4:2".to_string(), line: None, column: None },
    };
    let plan = cli.execute();
    assert_eq!(plan.db_path, DEFAULT_INDEX_PATH);
    assert_eq!(plan.project_root, ".");
    assert!(plan.auto_index);
    match plan.command {
        SimpleCommands::Definition { file, line, column } => {
            assert_eq!(file, "a.rs");
            assert_eq!(line, Some(4));
            assert_eq!(column, Some(2));
        }
        _ => panic!("unexpected command"),
    }
    let cli = SimpleCli {
        db: Some("db".to_string()),
        project: Some("/p".to_string()),
        no_auto_index: true,
        command: SimpleCommands::Status,
    };
    let plan = cli.execute();
    assert_eq!(plan.db_path, "db");
    assert_eq!(plan.project_root, "/p");
    assert!(!plan.auto_index);
    assert!(matches!(plan.command, SimpleCommands::Status));
}

#[test]
fn symbol_on_line_prefers_starting_symbol() {
    let mut g = CodeGraph::new();
    g.add_symbol(sym("outer", "outer", SymbolKind::Function, "a.rs", 0, 20));
    g.add_symbol(sym("inner", "inner", SymbolKind::Function, "a.rs", 5, 8));
    g.add_symbol(sym("starts", "starts", SymbolKind::Function, "a.rs", 6, 7));
    g.add_symbol(sym("other", "other", SymbolKind::Function, "b.rs", 6, 7));
    assert_eq!(symbol_on_line(&g, "a.rs", 6).unwrap().name, "starts");
    assert_eq!(symbol_on_line(&g, "a.rs", 7).unwrap().name, "starts");
    assert_eq!(symbol_on_line(&g, "a.rs", 8).unwrap().name, "inner");
    assert_eq!(symbol_on_line(&g, "a.rs", 15).unwrap().name, "outer");
    assert!(symbol_on_line(&g, "a.rs", 25).is_none());
    assert!(symbol_on_line(&g, "c.rs", 6).is_none());
}

#[test]
fn workspace_search_and_filters() {
    let mut g = CodeGraph::new();
    g.add_symbol(sym("1", "UserService", SymbolKind::Class, "src/user.rs", 0, 1));
    g.add_symbol(sym("2", "get_user", SymbolKind::Function, "src/user.rs", 2, 3));
    g.add_symbol(sym("3", "impl UserService", SymbolKind::Class, "src/user.rs", 4, 5));
    g.add_symbol(sym("4", "render", SymbolKind::Function, "src/view.rs", 0, 1));
    let hits: Vec<&str> = search_symbols(&g, "USER", 10).iter().map(|s| s.name.as_str()).collect();
    assert_eq!(hits, vec!["UserService", "get_user", "impl UserService"]);
    assert_eq!(search_symbols(&g, "user", 2).len(), 2);
    assert_eq!(search_symbols(&g, "user", 0).len(), 0);
    let imps: Vec<&str> = implementations_of(&g, "UserService").iter().map(|s| s.name.as_str()).collect();
    assert_eq!(imps, vec!["impl UserService"]);
    assert_eq!(document_symbols(&g, Some("view"), None).len(), 1);
    assert_eq!(document_symbols(&g, None, Some("FUNC")).len(), 2);
    assert_eq!(document_symbols(&g, Some("user"), Some("class")).len(), 2);
    assert_eq!(document_symbols(&g, None, None).len(), 4);
}

#[test]
fn references_are_deduplicated_and_sorted() {
    let r = |file: &str, line: u32, ch: u32, def: bool| Reference {
        symbol: Symbol {
            id: format!("{}#{}:{}:x", file, line + 1, ch),
            kind: SymbolKind::Variable,
            name: "x".to_string(),
            file_path: file.to_string(),
            range: Range { start: Position { line, character: ch }, end: Position { line, character: ch + 1 } },
            documentation: None,
        },
        is_definition: def,
    };
    let input = vec![r("b.rs", 1, 0, false), r("a.rs", 3, 2, true), r("a.rs", 3, 2, false), r("a.rs", 1, 9, false), r("a.rs", 3, 1, false)];
    let out = dedup_and_sort(&input);
    let places: Vec<(&str, u32, u32, bool)> =
        out.iter().map(|x| (x.symbol.file_path.as_str(), x.symbol.range.start.line, x.symbol.range.start.character, x.is_definition)).collect();
    assert_eq!(places, vec![("a.rs", 1, 9, false), ("a.rs", 3, 1, false), ("a.rs", 3, 2, true), ("b.rs", 1, 0, false)]);
}

#[test]
fn languages_and_servers() {
    assert_eq!(Language::from_extension("rs"), Some(Language::Rust));
    assert_eq!(Language::from_extension("tsx"), Some(Language::TypeScript));
    assert_eq!(Language::from_extension("hpp"), Some(Language::Cpp));
    assert_eq!(Language::from_extension("rb"), None);
    assert_eq!(Language::JavaScript.to_lsp_binary(), "typescript-language-server");
    assert_eq!(Language::Java.to_lsp_binary(), "jdtls");
    assert_eq!(Language::Python.to_lsp_binary(), "pylsp");
}

#[test]
fn impl_names() {
    assert_eq!(extract_impl_name("impl Foo {"), Some("Foo"));
    assert_eq!(extract_impl_name("impl<T> Bar<T> {"), Some("impl"));
    assert_eq!(extract_impl_name("impl impl Baz"), Some("Baz"));
}

#[test]
fn single_file_index() {
    let content = "fn main() {}\npub struct S<T>;\nimpl S {\n}\n";
    let syms = index_file_symbols("src/m.rs", content, true, Some("m.rs"));
    let got: Vec<(&str, &str)> = syms.iter().map(|s| (s.id.as_str(), s.name.as_str())).collect();
    assert_eq!(got, vec![("src/m.rs#1:0:main", "main"), ("src/m.rs#2:0:S", "S"), ("src/m.rs#3:0:impl_S", "impl S")]);
    assert_eq!(syms[2].range.end.line, 3);
    let empty = index_file_symbols("src/x.py", "def f(): pass", false, Some("x.py"));
    assert_eq!(empty.len(), 1);
    assert_eq!(empty[0].id, "src/x.py#file");
    assert_eq!(empty[0].name, "x.py");
    assert_eq!(empty[0].kind, SymbolKind::Variable);
    let nameless = index_file_symbols("p", "", true, None);
    assert_eq!(nameless[0].name, "unknown");
}

#[test]
fn interactive_commands() {
    assert_eq!(parse_interactive("   "), InteractiveCommand::Empty);
    assert_eq!(parse_interactive("help"), InteractiveCommand::Help);
    assert_eq!(parse_interactive("  s   user   service "), InteractiveCommand::Search("user service".to_string()));
    assert_eq!(parse_interactive("search"), InteractiveCommand::SearchUsage);
    assert_eq!(parse_interactive("f main"), InteractiveCommand::Find("main".to_string()));
    assert_eq!(parse_interactive("refs"), InteractiveCommand::RefsUsage);
    assert_eq!(parse_interactive("r a\tb"), InteractiveCommand::Refs("a b".to_string()));
    assert_eq!(parse_interactive("exit"), InteractiveCommand::Quit);
    assert_eq!(parse_interactive("cls"), InteractiveCommand::Clear);
    assert_eq!(parse_interactive("stats now"), InteractiveCommand::Stats);
    assert_eq!(parse_interactive("frobnicate x"), InteractiveCommand::Unknown("frobnicate".to_string()));
    let words: Vec<String> = split_words(" a  bc\n d ").iter().map(|w| w.iter().collect()).collect();
    assert_eq!(words, vec!["a", "bc", "d"]);
}
