//! The Python language adapter, served by `pyright` or `pylsp`.
use vstd::prelude::*;

use crate::common_adapter::{build_basic_reference_pattern, spec_reference_pattern};
use crate::minimal_language_adapter::{block_views, line_views, CommentStyles, MinimalLanguageAdapter};
use crate::text::{str_eq, str_to_string};

verus! {

/// The Python language, with the language server to use (`pyright` or
/// `pylsp`).
pub struct PythonAdapter {
    lsp_server: String,
}

/// Python keywords that introduce a definition.
pub open spec fn is_python_definition_keyword(k: Seq<char>) -> bool {
    k == "def"@ || k == "class"@ || k == "async"@ || k == "lambda"@ || k == "import"@ || k == "from"@
}

impl PythonAdapter {
    /// The chosen language server.
    pub closed spec fn server(&self) -> Seq<char> {
        self.lsp_server@
    }

    /// The adapter for the servers that are installed: `pyright` when its
    /// language server is available, else `pylsp` when that is available,
    /// else `pyright`.
    pub fn new(pyright_available: bool, pylsp_available: bool) -> (r: Self)
        ensures
            r.server() == if !pyright_available && pylsp_available { "pylsp"@ } else { "pyright"@ },
    {
        let lsp_server = if pyright_available {
            str_to_string("pyright")
        } else if pylsp_available {
            str_to_string("pylsp")
        } else {
            str_to_string("pyright")
        };
        PythonAdapter { lsp_server }
    }

    /// The adapter for the named language server.
    pub fn with_server(lsp_server: &str) -> (r: Self)
        ensures
            r.server() == lsp_server@,
    {
        PythonAdapter { lsp_server: str_to_string(lsp_server) }
    }

    /// The language server command and its arguments:
    /// `pyright-langserver --stdio` for `pyright`, `pylsp` otherwise.
    pub fn lsp_command(&self) -> (r: (&'static str, Vec<&'static str>))
        ensures
            self.server() == "pyright"@ ==> r.0@ == "pyright-langserver"@ && r.1@.map_values(|s: &'static str| s@) == seq!["--stdio"@],
            self.server() != "pyright"@ ==> r.0@ == "pylsp"@ && r.1.len() == 0,
    {
        if str_eq(self.lsp_server.as_str(), "pyright") {
            let r = ("pyright-langserver", vec!["--stdio"]);
            proof { assert(r.1@.map_values(|s: &'static str| s@) =~= seq!["--stdio"@]); }
            r
        } else {
            ("pylsp", Vec::new())
        }
    }

    /// Whether `keyword` introduces a Python definition: `def`, `class`,
    /// `async`, `lambda`, `import` or `from`.
    pub fn is_definition_keyword(&self, keyword: &str) -> (r: bool)
        ensures
            r == is_python_definition_keyword(keyword@),
    {
        str_eq(keyword, "def") || str_eq(keyword, "class") || str_eq(keyword, "async") || str_eq(keyword, "lambda")
            || str_eq(keyword, "import") || str_eq(keyword, "from")
    }

    /// The reference search pattern for `name`; module names also match a
    /// following chain of `.member` accesses.
    pub fn build_reference_pattern(&self, name: &str, is_module: bool) -> (r: String)
        ensures
            r@ == spec_reference_pattern(name@, is_module),
    {
        build_basic_reference_pattern(name, is_module)
    }
}

impl MinimalLanguageAdapter for PythonAdapter {
    open spec fn spec_language_id(&self) -> Seq<char> {
        "python"@
    }

    open spec fn spec_extensions(&self) -> Seq<Seq<char>> {
        seq!["py"@, "pyi"@]
    }

    open spec fn spec_line_comments(&self) -> Seq<Seq<char>> {
        seq!["#"@]
    }

    open spec fn spec_block_comments(&self) -> Seq<(Seq<char>, Seq<char>)> {
        seq![("\"\"\""@, "\"\"\""@), ("'''"@, "'''"@)]
    }

    fn language_id(&self) -> (r: &str) {
        "python"
    }

    fn supported_extensions(&self) -> (r: Vec<&str>) {
        let r = vec!["py", "pyi"];
        proof { assert(r@.map_values(|s: &str| s@) =~= seq!["py"@, "pyi"@]); }
        r
    }

    fn comment_styles(&self) -> (r: CommentStyles)
        ensures
            line_views(r) == seq!["#"@],
            block_views(r) == seq![("\"\"\""@, "\"\"\""@), ("'''"@, "'''"@)],
    {
        crate::common_adapter::python_style_comments()
    }
}

} // verus!
