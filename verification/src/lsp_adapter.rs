//! Language-server adapters chosen by file extension.
use vstd::prelude::*;

use crate::minimal_language_adapter::{chars_eq_str, path_extension, spec_path_extension};

verus! {

/// A language served by a language server.
pub trait LspAdapter {
    /// The language id sent to the server.
    spec fn spec_language_id(&self) -> Seq<char>;

    /// The language id sent to the server.
    fn language_id(&self) -> (r: &str)
        ensures
            r@ == self.spec_language_id(),
    ;
}

/// Rust, served by `rust-analyzer`.
pub struct RustAnalyzerAdapter;

impl LspAdapter for RustAnalyzerAdapter {
    open spec fn spec_language_id(&self) -> Seq<char> {
        "rust"@
    }

    fn language_id(&self) -> (r: &str) {
        "rust"
    }
}

/// TypeScript and JavaScript, served by `typescript-language-server`.
pub struct TypeScriptAdapter;

impl LspAdapter for TypeScriptAdapter {
    open spec fn spec_language_id(&self) -> Seq<char> {
        "typescript"@
    }

    fn language_id(&self) -> (r: &str) {
        "typescript"
    }
}

/// Python, served by `pylsp`.
pub struct PythonAdapter;

impl LspAdapter for PythonAdapter {
    open spec fn spec_language_id(&self) -> Seq<char> {
        "python"@
    }

    fn language_id(&self) -> (r: &str) {
        "python"
    }
}

/// The language id that [`detect_language`] picks for an extension.
pub open spec fn spec_lsp_language_for_extension(e: Seq<char>) -> Option<Seq<char>> {
    if e == "rs"@ {
        Some("rust"@)
    } else if e == "ts"@ || e == "tsx"@ || e == "js"@ || e == "jsx"@ {
        Some("typescript"@)
    } else if e == "py"@ {
        Some("python"@)
    } else {
        None
    }
}

/// The adapter for a file, chosen by its extension.
pub fn detect_language(file_path: &str) -> (r: Option<Box<dyn LspAdapter>>)
    ensures
        r is Some <==> (spec_path_extension(file_path@) is Some && spec_lsp_language_for_extension(spec_path_extension(file_path@).unwrap()) is Some),
        r is Some ==> r.unwrap().spec_language_id() == spec_lsp_language_for_extension(spec_path_extension(file_path@).unwrap()).unwrap(),
{
    let e = match path_extension(file_path) {
        Some(e) => e,
        None => return None,
    };
    if chars_eq_str(e.as_slice(), "rs") {
        Some(Box::new(RustAnalyzerAdapter))
    } else if chars_eq_str(e.as_slice(), "ts") || chars_eq_str(e.as_slice(), "tsx") {
        Some(Box::new(TypeScriptAdapter))
    } else if chars_eq_str(e.as_slice(), "js") || chars_eq_str(e.as_slice(), "jsx") {
        Some(Box::new(TypeScriptAdapter))
    } else if chars_eq_str(e.as_slice(), "py") {
        Some(Box::new(PythonAdapter))
    } else {
        None
    }
}

} // verus!
