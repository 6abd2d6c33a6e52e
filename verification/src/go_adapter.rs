//! The Go language adapter.
use vstd::prelude::*;

use crate::common_adapter::{build_basic_reference_pattern, spec_reference_pattern};
use crate::minimal_language_adapter::{block_views, line_views, CommentStyles, MinimalLanguageAdapter};
use crate::text::str_eq;

verus! {

/// The Go language, served by `gopls`.
pub struct GoAdapter;

impl MinimalLanguageAdapter for GoAdapter {
    open spec fn spec_language_id(&self) -> Seq<char> {
        "go"@
    }

    open spec fn spec_extensions(&self) -> Seq<Seq<char>> {
        seq!["go"@]
    }

    open spec fn spec_line_comments(&self) -> Seq<Seq<char>> {
        seq!["//"@]
    }

    open spec fn spec_block_comments(&self) -> Seq<(Seq<char>, Seq<char>)> {
        seq![("/*"@, "*/"@)]
    }

    fn language_id(&self) -> (r: &str) {
        "go"
    }

    fn supported_extensions(&self) -> (r: Vec<&str>) {
        let r = vec!["go"];
        proof { assert(r@.map_values(|s: &str| s@) =~= seq!["go"@]); }
        r
    }

    fn comment_styles(&self) -> (r: CommentStyles)
        ensures
            line_views(r) == seq!["//"@],
            block_views(r) == seq![("/*"@, "*/"@)],
    {
        crate::common_adapter::c_style_comments()
    }
}

/// Go keywords that introduce a definition.
pub open spec fn is_go_definition_keyword(k: Seq<char>) -> bool {
    k == "func"@ || k == "var"@ || k == "const"@ || k == "type"@ || k == "struct"@ || k == "interface"@ || k == "package"@
}

impl GoAdapter {
    /// The language server command and its arguments: `gopls serve`.
    pub fn lsp_command(&self) -> (r: (&'static str, Vec<&'static str>))
        ensures
            r.0@ == "gopls"@,
            r.1@.map_values(|s: &'static str| s@) == seq!["serve"@],
    {
        let r = ("gopls", vec!["serve"]);
        proof { assert(r.1@.map_values(|s: &'static str| s@) =~= seq!["serve"@]); }
        r
    }

    /// Whether `keyword` introduces a Go definition: `func`, `var`, `const`,
    /// `type`, `struct`, `interface` or `package`.
    pub fn is_definition_keyword(&self, keyword: &str) -> (r: bool)
        ensures
            r == is_go_definition_keyword(keyword@),
    {
        str_eq(keyword, "func") || str_eq(keyword, "var") || str_eq(keyword, "const") || str_eq(keyword, "type")
            || str_eq(keyword, "struct") || str_eq(keyword, "interface") || str_eq(keyword, "package")
    }

    /// The reference search pattern for `name`; package names also match
    /// a following chain of `.member` accesses.
    pub fn build_reference_pattern(&self, name: &str, is_package: bool) -> (r: String)
        ensures
            r@ == spec_reference_pattern(name@, is_package),
    {
        build_basic_reference_pattern(name, is_package)
    }
}

} // verus!
