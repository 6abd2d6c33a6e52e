use lsif_indexer::common_adapter::{
    build_basic_reference_pattern, c_style_comments, is_common_definition_keyword, python_style_comments,
};
use lsif_indexer::go_adapter::GoAdapter;
use lsif_indexer::lsp_adapter::{detect_language, LspAdapter};
use lsif_indexer::minimal_language_adapter::{
    detect_language_adapter, supported_languages, GoLanguageAdapter, JavaLanguageAdapter, MinimalLanguageAdapter,
    PythonLanguageAdapter, RustLanguageAdapter, TypeScriptLanguageAdapter,
};
use lsif_indexer::python_adapter::PythonAdapter;

#[test]
fn common_adapter_test_comment_styles() {
    let c_style = c_style_comments();
    assert_eq!(c_style.line_comment, vec!["//"]);
    assert_eq!(c_style.block_comment, vec![("/*", "*/")]);

    let py_style = python_style_comments();
    assert_eq!(py_style.line_comment, vec!["#"]);
    assert_eq!(py_style.block_comment.len(), 2);
}

#[test]
fn test_reference_patterns() {
    assert_eq!(build_basic_reference_pattern("test", false), r"\btest\b");
    assert_eq!(build_basic_reference_pattern("test", true), r"\btest(?:\.\w+)*\b");
}

#[test]
fn reference_pattern_escapes_meta_characters() {
    assert_eq!(build_basic_reference_pattern("a.b+c", false), r"\ba\.b\+c\b");
    assert_eq!(build_basic_reference_pattern("x-y~z", true), r"\bx\-y\~z(?:\.\w+)*\b");
}

#[test]
fn common_definition_keyword_lookup() {
    assert!(is_common_definition_keyword("fn", &["fn", "struct"]));
    assert!(!is_common_definition_keyword("let", &["fn", "struct"]));
    assert!(!is_common_definition_keyword("fn", &[]));
}

#[test]
fn test_go_adapter_basic_info() {
    let adapter = GoAdapter;
    assert_eq!(adapter.language_id(), "go");
    assert_eq!(adapter.supported_extensions(), vec!["go"]);
}

#[test]
fn test_go_reference_patterns() {
    let adapter = GoAdapter;
    let pattern = adapter.build_reference_pattern("main", false);
    assert_eq!(pattern, r"\bmain\b");
    let pattern = adapter.build_reference_pattern("fmt", true);
    assert_eq!(pattern, r"\bfmt(?:\.\w+)*\b");
}

#[test]
fn test_go_definition_keywords() {
    let adapter = GoAdapter;
    assert!(adapter.is_definition_keyword("func"));
    assert!(adapter.is_definition_keyword("type"));
    assert!(adapter.is_definition_keyword("var"));
    assert!(adapter.is_definition_keyword("const"));
    assert!(adapter.is_definition_keyword("struct"));
    assert!(adapter.is_definition_keyword("interface"));
    assert!(!adapter.is_definition_keyword("if"));
    assert!(!adapter.is_definition_keyword("for"));
}

#[test]
fn go_adapter_server_command() {
    let (cmd, args) = GoAdapter.lsp_command();
    assert_eq!(cmd, "gopls");
    assert_eq!(args, vec!["serve"]);
}

#[test]
fn test_rust_adapter() {
    let adapter = RustLanguageAdapter;
    assert_eq!(adapter.language_id(), "rust");
    assert_eq!(adapter.supported_extensions(), vec!["rs"]);
    assert_eq!(adapter.comment_styles().line_comment[0], "//");
}

#[test]
fn test_typescript_adapter() {
    let adapter = TypeScriptLanguageAdapter;
    assert_eq!(adapter.language_id(), "typescript");
    assert!(adapter.supported_extensions().contains(&"ts"));
    assert!(adapter.supported_extensions().contains(&"tsx"));
}

#[test]
fn test_python_adapter() {
    let adapter = PythonLanguageAdapter;
    assert_eq!(adapter.language_id(), "python");
    assert_eq!(adapter.supported_extensions(), vec!["py", "pyi"]);
    assert_eq!(adapter.comment_styles().line_comment[0], "#");
}

#[test]
fn minimal_language_adapter_test_detect_language() {
    assert!(detect_language_adapter("main.rs").is_some());
    assert!(detect_language_adapter("index.ts").is_some());
    assert!(detect_language_adapter("script.py").is_some());
    assert!(detect_language_adapter("main.go").is_some());
    assert!(detect_language_adapter("App.java").is_some());
    assert!(detect_language_adapter("unknown.xyz").is_none());
}

#[test]
fn detected_adapter_has_the_right_language() {
    assert_eq!(detect_language_adapter("src/lib.rs").unwrap().language_id(), "rust");
    assert_eq!(detect_language_adapter("a/b/c.jsx").unwrap().language_id(), "typescript");
    assert_eq!(detect_language_adapter("x.pyi").unwrap().language_id(), "python");
    assert!(detect_language_adapter(".rs").is_none());
    assert!(detect_language_adapter("dir.rs/file").is_none());
    assert!(detect_language_adapter("Makefile").is_none());
}

#[test]
fn test_supported_languages() {
    let langs = supported_languages();
    assert!(langs.len() >= 5);
    assert!(langs.iter().any(|(id, _)| *id == "rust"));
    assert!(langs.iter().any(|(id, _)| *id == "python"));
}

#[test]
fn source_file_detection() {
    assert!(RustLanguageAdapter.is_source_file("src/main.rs"));
    assert!(!RustLanguageAdapter.is_source_file("src/main.ts"));
    assert!(TypeScriptLanguageAdapter.is_source_file("web/app.tsx"));
    assert!(GoLanguageAdapter.is_source_file("cmd/main.go"));
    assert!(JavaLanguageAdapter.is_source_file("App.java"));
    assert!(!JavaLanguageAdapter.is_source_file("java"));
}

#[test]
fn test_python_adapter_basic_info() {
    let adapter = PythonAdapter::new(false, false);
    assert_eq!(adapter.language_id(), "python");
    assert_eq!(adapter.supported_extensions(), vec!["py", "pyi"]);
}

#[test]
fn test_python_reference_patterns() {
    let adapter = PythonAdapter::new(false, false);
    let pattern = adapter.build_reference_pattern("main", false);
    assert_eq!(pattern, r"\bmain\b");
    let pattern = adapter.build_reference_pattern("os", true);
    assert_eq!(pattern, r"\bos(?:\.\w+)*\b");
}

#[test]
fn test_python_definition_keywords() {
    let adapter = PythonAdapter::new(false, false);
    assert!(adapter.is_definition_keyword("def"));
    assert!(adapter.is_definition_keyword("class"));
    assert!(adapter.is_definition_keyword("async"));
    assert!(adapter.is_definition_keyword("lambda"));
    assert!(adapter.is_definition_keyword("import"));
    assert!(!adapter.is_definition_keyword("if"));
    assert!(!adapter.is_definition_keyword("for"));
}

#[test]
fn python_adapter_test_comment_styles() {
    let adapter = PythonAdapter::new(false, false);
    let styles = adapter.comment_styles();
    assert_eq!(styles.line_comment, vec!["#"]);
    assert_eq!(styles.block_comment.len(), 2);
}

#[test]
fn python_server_choice() {
    assert_eq!(PythonAdapter::new(true, true).lsp_command().0, "pyright-langserver");
    assert_eq!(PythonAdapter::new(false, true).lsp_command().0, "pylsp");
    assert_eq!(PythonAdapter::new(false, false).lsp_command().0, "pyright-langserver");
    assert_eq!(PythonAdapter::with_server("pylsp").lsp_command().0, "pylsp");
    assert_eq!(PythonAdapter::with_server("pyright").lsp_command().1, vec!["--stdio"]);
}

#[test]
fn lsp_adapter_test_detect_language() {
    assert!(matches!(detect_language("main.rs"), Some(_)));
    assert!(matches!(detect_language("index.ts"), Some(_)));
    assert!(matches!(detect_language("app.tsx"), Some(_)));
    assert!(matches!(detect_language("script.py"), Some(_)));
    assert!(detect_language("unknown.xyz").is_none());
}

#[test]
fn lsp_adapter_language_ids() {
    assert_eq!(detect_language("main.rs").unwrap().language_id(), "rust");
    assert_eq!(detect_language("main.js").unwrap().language_id(), "typescript");
    assert_eq!(detect_language("main.py").unwrap().language_id(), "python");
    assert!(detect_language("main.pyi").is_none());
}
