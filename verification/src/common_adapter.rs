//! Helpers shared by the language adapters: common comment styles,
//! definition-keyword lookup and reference search patterns.
use vstd::prelude::*;

use crate::minimal_language_adapter::{block_views, line_views, CommentStyles};
use crate::text::str_eq;

verus! {

/// Characters with a meaning in regular-expression syntax.
pub open spec fn is_regex_meta(c: char) -> bool {
    c == '\\' || c == '.' || c == '+' || c == '*' || c == '?' || c == '(' || c == ')' || c == '|' || c == '['
        || c == ']' || c == '{' || c == '}' || c == '^' || c == '$' || c == '#' || c == '&' || c == '-' || c == '~'
}

/// `s` with a backslash before every regular-expression meta character.
pub open spec fn spec_regex_escape(s: Seq<char>) -> Seq<char>
    decreases s.len(),
{
    if s.len() == 0 {
        Seq::empty()
    } else {
        let c = s.last();
        spec_regex_escape(s.drop_last()) + if is_regex_meta(c) { seq!['\\', c] } else { seq![c] }
    }
}

/// `regex::escape`: the pattern with a backslash put before each of the
/// meta characters `\ . + * ? ( ) | [ ] { } ^ $ # & - ~`, every other
/// character kept.
#[verifier::external_body]
fn regex_escape(pattern: &str) -> (r: String)
    ensures
        r@ == spec_regex_escape(pattern@),
{
    regex::escape(pattern)
}

/// A word-boundary search pattern for `name`: `\bNAME\b`, or, with
/// `allow_dot_chain`, `\bNAME(?:\.\w+)*\b`, with `NAME` escaped.
pub open spec fn spec_reference_pattern(name: Seq<char>, allow_dot_chain: bool) -> Seq<char> {
    if allow_dot_chain {
        seq!['\\', 'b'] + spec_regex_escape(name) + seq!['(', '?', ':', '\\', '.', '\\', 'w', '+', ')', '*', '\\', 'b']
    } else {
        seq!['\\', 'b'] + spec_regex_escape(name) + seq!['\\', 'b']
    }
}

/// Builds the reference search pattern for `name` (see
/// [`spec_reference_pattern`]).
pub fn build_basic_reference_pattern(name: &str, allow_dot_chain: bool) -> (r: String)
    ensures
        r@ == spec_reference_pattern(name@, allow_dot_chain),
{
    let escaped = regex_escape(name);
    let mut r = String::new();
    crate::text::string_push(&mut r, '\\');
    crate::text::string_push(&mut r, 'b');
    r.append(escaped.as_str());
    if allow_dot_chain {
        let tail = ['(', '?', ':', '\\', '.', '\\', 'w', '+', ')', '*', '\\', 'b'];
        let mut i: usize = 0;
        let ghost base = r@;
        while i < 12
            invariant
                i <= 12,
                tail@ == seq!['(', '?', ':', '\\', '.', '\\', 'w', '+', ')', '*', '\\', 'b'],
                r@ == base + tail@.subrange(0, i as int),
            decreases 12 - i,
        {
            crate::text::string_push(&mut r, tail[i]);
            proof { assert(r@ =~= base + tail@.subrange(0, i + 1)); }
            i = i + 1;
        }
        proof {
            assert(tail@.subrange(0, 12) =~= tail@);
            assert(r@ =~= spec_reference_pattern(name@, allow_dot_chain));
        }
    } else {
        crate::text::string_push(&mut r, '\\');
        crate::text::string_push(&mut r, 'b');
        proof { assert(r@ =~= spec_reference_pattern(name@, allow_dot_chain)); }
    }
    r
}

/// C-family comments: `//` and `/* */`.
pub fn c_style_comments() -> (r: CommentStyles)
    ensures
        line_views(r) == seq!["//"@],
        block_views(r) == seq![("/*"@, "*/"@)],
{
    let r = CommentStyles { line_comment: vec!["//"], block_comment: vec![("/*", "*/")] };
    proof {
        assert(line_views(r) =~= seq!["//"@]);
        assert(block_views(r) =~= seq![("/*"@, "*/"@)]);
    }
    r
}

/// Python-family comments: `#`, and triple-quoted strings as blocks.
pub fn python_style_comments() -> (r: CommentStyles)
    ensures
        line_views(r) == seq!["#"@],
        block_views(r) == seq![("\"\"\""@, "\"\"\""@), ("'''"@, "'''"@)],
{
    let r = CommentStyles { line_comment: vec!["#"], block_comment: vec![("\"\"\"", "\"\"\""), ("'''", "'''")] };
    proof {
        assert(line_views(r) =~= seq!["#"@]);
        assert(block_views(r) =~= seq![("\"\"\""@, "\"\"\""@), ("'''"@, "'''"@)]);
    }
    r
}

/// Whether `keyword` is one of `keywords`.
pub fn is_common_definition_keyword(keyword: &str, keywords: &[&str]) -> (r: bool)
    ensures
        r == exists|i: int| 0 <= i < keywords.len() && keywords@[i]@ == keyword@,
{
    let mut i: usize = 0;
    while i < keywords.len()
        invariant
            i <= keywords.len(),
            forall|j: int| 0 <= j < i ==> keywords@[j]@ != keyword@,
        decreases keywords.len() - i,
    {
        if str_eq(keywords[i], keyword) {
            return true;
        }
        i = i + 1;
    }
    false
}

} // verus!
