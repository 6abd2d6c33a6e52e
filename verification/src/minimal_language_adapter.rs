//! Per-language information: language ids, source-file extensions and
//! comment syntax. Starting a language server is left to the front end.
use vstd::prelude::*;

use crate::text::str_eq;

verus! {

/// The comment syntax of a language: line-comment markers and
/// `(open, close)` block-comment delimiters.
#[derive(Debug, Clone)]
pub struct CommentStyles {
    pub line_comment: Vec<&'static str>,
    pub block_comment: Vec<(&'static str, &'static str)>,
}

/// The views of the line-comment markers.
pub open spec fn line_views(c: CommentStyles) -> Seq<Seq<char>> {
    c.line_comment@.map_values(|s: &'static str| s@)
}

/// The views of the block-comment delimiters.
pub open spec fn block_views(c: CommentStyles) -> Seq<(Seq<char>, Seq<char>)> {
    c.block_comment@.map_values(|p: (&'static str, &'static str)| (p.0@, p.1@))
}

impl CommentStyles {
    /// `//` line comments and `/* */` block comments.
    pub fn default() -> (r: Self)
        ensures
            line_views(r) == seq!["//"@],
            block_views(r) == seq![("/*"@, "*/"@)],
    {
        let r = CommentStyles { line_comment: vec!["//"], block_comment: vec![("/*", "*/")] };
        proof {
            assert(line_views(r) =~= seq!["//"@]);
            assert(block_views(r) =~= seq![("/*"@, "*/"@)]);
        }
        r
    }
}

/// The file name of a `/`-separated path, as `Path::file_name` reads it: the
/// last component once trailing separators and `.` components are set
/// aside; there is none when that component is `..` or there is no
/// component at all.
pub open spec fn spec_file_name(path: Seq<char>) -> Option<Seq<char>>
    decreases path.len(),
{
    let k = last_index_of(path, '/');
    let comp = path.subrange(k + 1, path.len() as int);
    if comp.len() == 0 || comp == seq!['.'] {
        if k < 0 {
            None
        } else {
            proof { lemma_last_index_of(path, '/'); }
            spec_file_name(path.subrange(0, k))
        }
    } else if comp == seq!['.', '.'] {
        None
    } else {
        Some(comp)
    }
}

/// The extension of a file name: the text after its last `.`, when that `.`
/// is not the name's first character.
pub open spec fn spec_name_extension(name: Seq<char>) -> Option<Seq<char>> {
    let d = last_index_of(name, '.');
    if d > 0 {
        Some(name.subrange(d + 1, name.len() as int))
    } else {
        None
    }
}

/// The extension of a `/`-separated path, as `Path::extension` gives it: the
/// extension of its file name.
pub open spec fn spec_path_extension(path: Seq<char>) -> Option<Seq<char>> {
    match spec_file_name(path) {
        Some(name) => spec_name_extension(name),
        None => None,
    }
}

/// Index of the last occurrence of `c` in `s`, or `-1`.
pub open spec fn last_index_of(s: Seq<char>, c: char) -> int
    decreases s.len(),
{
    if s.len() == 0 {
        -1
    } else if s.last() == c {
        s.len() - 1
    } else {
        last_index_of(s.drop_last(), c)
    }
}

pub proof fn lemma_last_index_of(s: Seq<char>, c: char)
    ensures
        -1 <= last_index_of(s, c) < s.len(),
        last_index_of(s, c) >= 0 ==> s[last_index_of(s, c)] == c,
        forall|i: int| last_index_of(s, c) < i < s.len() ==> s[i] != c,
    decreases s.len(),
{
    if s.len() > 0 && s.last() != c {
        lemma_last_index_of(s.drop_last(), c);
        assert forall|i: int| last_index_of(s, c) < i < s.len() implies s[i] != c by {
            if i < s.len() - 1 {
                assert(s.drop_last()[i] == s[i]);
            }
        }
    }
}

/// The position of the last `c` among `s[a..b]`.
fn find_last_in(s: &[char], c: char, a: usize, b: usize) -> (r: Option<usize>)
    requires
        a <= b <= s.len(),
    ensures
        match r {
            Some(i) => a <= i < b && i - a == last_index_of(s@.subrange(a as int, b as int), c),
            None => last_index_of(s@.subrange(a as int, b as int), c) == -1,
        },
{
    let ghost t = s@.subrange(a as int, b as int);
    proof { lemma_last_index_of(t, c); }
    let mut i: usize = b;
    while i > a
        invariant
            a <= i <= b <= s.len(),
            t == s@.subrange(a as int, b as int),
            forall|j: int| i <= j < b ==> s@[j] != c,
            -1 <= last_index_of(t, c) < t.len(),
            last_index_of(t, c) >= 0 ==> t[last_index_of(t, c)] == c,
            forall|j: int| last_index_of(t, c) < j < t.len() ==> t[j] != c,
        decreases i,
    {
        if s[i - 1] == c {
            proof {
                let l = last_index_of(t, c);
                assert(t[i - 1 - a] == c);
                if l > i - 1 - a {
                    assert(t[l] == s@[l + a]);
                }
            }
            return Some(i - 1);
        }
        i = i - 1;
    }
    proof {
        let l = last_index_of(t, c);
        if l >= 0 {
            assert(t[l] == s@[l + a]);
        }
    }
    None
}

/// The bounds of the file name within `cs` (see [`spec_file_name`]).
fn file_name_bounds(cs: &Vec<char>) -> (r: Option<(usize, usize)>)
    ensures
        match r {
            Some((a, b)) => a <= b <= cs.len() && spec_file_name(cs@) == Some(cs@.subrange(a as int, b as int)),
            None => spec_file_name(cs@) is None,
        },
{
    let mut end: usize = cs.len();
    assert(cs@.subrange(0, end as int) =~= cs@);
    loop
        invariant
            end <= cs.len(),
            spec_file_name(cs@) == spec_file_name(cs@.subrange(0, end as int)),
        decreases end,
    {
        let ghost p = cs@.subrange(0, end as int);
        proof { lemma_last_index_of(p, '/'); }
        let k = find_last_in(cs.as_slice(), '/', 0, end);
        let start: usize = match k {
            Some(k) => k + 1,
            None => 0,
        };
        let ghost comp = p.subrange(start as int, end as int);
        assert(comp =~= cs@.subrange(start as int, end as int));
        let len = end - start;
        if len == 0 || (len == 1 && cs[start] == '.') {
            proof {
                if len == 1 {
                    assert(comp =~= seq!['.']);
                }
            }
            match k {
                None => {
                    return None;
                },
                Some(k) => {
                    proof { assert(p.subrange(0, k as int) =~= cs@.subrange(0, k as int)); }
                    end = k;
                },
            }
        } else if len == 2 && cs[start] == '.' && cs[start + 1] == '.' {
            proof {
                assert(comp =~= seq!['.', '.']);
                assert(comp != seq!['.']);
            }
            return None;
        } else {
            proof {
                if comp == seq!['.'] {
                    assert(comp.len() == 1 && comp[0] == '.');
                }
                if comp == seq!['.', '.'] {
                    assert(comp.len() == 2 && comp[0] == '.' && comp[1] == '.');
                }
            }
            return Some((start, end));
        }
    }
}

/// The extension of a file path (as `Path::extension` gives it for a path
/// with `/` separators), as characters.
pub fn path_extension(path: &str) -> (r: Option<Vec<char>>)
    ensures
        match r {
            Some(e) => spec_path_extension(path@) == Some(e@),
            None => spec_path_extension(path@) is None,
        },
{
    let cs = crate::text::chars_of(path);
    match file_name_bounds(&cs) {
        None => None,
        Some((a, b)) => {
            let ghost name = cs@.subrange(a as int, b as int);
            match find_last_in(cs.as_slice(), '.', a, b) {
                Some(d) => {
                    if d > a {
                        let mut e: Vec<char> = Vec::new();
                        let mut k = d + 1;
                        while k < b
                            invariant
                                a < d < b <= cs.len(),
                                d + 1 <= k <= b,
                                e@ == cs@.subrange(d + 1, k as int),
                            decreases b - k,
                        {
                            e.push(cs[k]);
                            proof { assert(e@ =~= cs@.subrange(d + 1, k + 1)); }
                            k = k + 1;
                        }
                        proof { assert(e@ =~= name.subrange(d - a + 1, name.len() as int)); }
                        Some(e)
                    } else {
                        None
                    }
                },
                None => None,
            }
        },
    }
}

/// Whether the characters `e` spell `s`.
pub fn chars_eq_str(e: &[char], s: &str) -> (r: bool)
    ensures
        r == (e@ == s@),
{
    let sc = crate::text::chars_of(s);
    if e.len() != sc.len() {
        proof { assert(e@.len() != sc@.len()); }
        return false;
    }
    let mut i: usize = 0;
    while i < e.len()
        invariant
            e.len() == sc.len(),
            sc@ == s@,
            i <= e.len(),
            forall|j: int| 0 <= j < i ==> e@[j] == sc@[j],
        decreases e.len() - i,
    {
        if e[i] != sc[i] {
            proof { assert(e@[i as int] != sc@[i as int]); }
            return false;
        }
        i = i + 1;
    }
    proof { assert(e@ =~= sc@); }
    true
}

/// Whether `x` is one of `xs`.
pub fn str_in(x: &[char], xs: &Vec<&str>) -> (r: bool)
    ensures
        r == exists|i: int| 0 <= i < xs.len() && xs@[i]@ == x@,
{
    let mut i: usize = 0;
    while i < xs.len()
        invariant
            i <= xs.len(),
            forall|j: int| 0 <= j < i ==> xs@[j]@ != x@,
        decreases xs.len() - i,
    {
        if chars_eq_str(x, xs[i]) {
            return true;
        }
        i = i + 1;
    }
    false
}

/// A language known to the indexer: its id, the extensions of its source
/// files and its comment syntax.
pub trait MinimalLanguageAdapter {
    /// The language id.
    spec fn spec_language_id(&self) -> Seq<char>;

    /// The extensions of the language's source files.
    spec fn spec_extensions(&self) -> Seq<Seq<char>>;

    /// The markers that start a line comment in the language.
    spec fn spec_line_comments(&self) -> Seq<Seq<char>>;

    /// The delimiters of a block comment in the language.
    spec fn spec_block_comments(&self) -> Seq<(Seq<char>, Seq<char>)>;

    /// The language id, such as `rust` or `typescript`.
    fn language_id(&self) -> (r: &str)
        ensures
            r@ == self.spec_language_id(),
    ;

    /// The extensions of the language's source files.
    fn supported_extensions(&self) -> (r: Vec<&str>)
        ensures
            r@.map_values(|s: &str| s@) == self.spec_extensions(),
    ;

    /// The language's comment syntax: its line-comment markers and its
    /// block-comment delimiters.
    fn comment_styles(&self) -> (r: CommentStyles)
        ensures
            line_views(r) == self.spec_line_comments(),
            block_views(r) == self.spec_block_comments(),
    ;

    /// Whether the path names a source file of the language: its extension
    /// is one of the supported extensions.
    fn is_source_file(&self, path: &str) -> (r: bool)
        ensures
            r == match spec_path_extension(path@) {
                Some(e) => self.spec_extensions().contains(e),
                None => false,
            },
    {
        let exts = self.supported_extensions();
        match path_extension(path) {
            Some(e) => {
                let found = str_in(e.as_slice(), &exts);
                proof {
                    let sv = exts@.map_values(|s: &str| s@);
                    if found {
                        let i = choose|i: int| 0 <= i < exts.len() && exts@[i]@ == e@;
                        assert(sv[i] == e@);
                    } else {
                        if sv.contains(e@) {
                            let i = choose|i: int| 0 <= i < sv.len() && sv[i] == e@;
                            assert(exts@[i]@ == e@);
                        }
                    }
                }
                found
            },
            None => false,
        }
    }
}

/// The Rust language.
pub struct RustLanguageAdapter;

impl MinimalLanguageAdapter for RustLanguageAdapter {
    open spec fn spec_language_id(&self) -> Seq<char> {
        "rust"@
    }

    open spec fn spec_extensions(&self) -> Seq<Seq<char>> {
        seq!["rs"@]
    }

    open spec fn spec_line_comments(&self) -> Seq<Seq<char>> {
        seq!["//"@, "///"@, "//!"@]
    }

    open spec fn spec_block_comments(&self) -> Seq<(Seq<char>, Seq<char>)> {
        seq![("/*"@, "*/"@), ("/**"@, "*/"@), ("/*!"@, "*/"@)]
    }

    fn language_id(&self) -> (r: &str) {
        "rust"
    }

    fn supported_extensions(&self) -> (r: Vec<&str>) {
        let r = vec!["rs"];
        proof { assert(r@.map_values(|s: &str| s@) =~= seq!["rs"@]); }
        r
    }

    fn comment_styles(&self) -> (r: CommentStyles)
        ensures
            line_views(r) == seq!["//"@, "///"@, "//!"@],
            block_views(r) == seq![("/*"@, "*/"@), ("/**"@, "*/"@), ("/*!"@, "*/"@)],
    {
        let r = CommentStyles {
            line_comment: vec!["//", "///", "//!"],
            block_comment: vec![("/*", "*/"), ("/**", "*/"), ("/*!", "*/")],
        };
        proof {
            assert(line_views(r) =~= seq!["//"@, "///"@, "//!"@]);
            assert(block_views(r) =~= seq![("/*"@, "*/"@), ("/**"@, "*/"@), ("/*!"@, "*/"@)]);
        }
        r
    }
}


/// The TypeScript and JavaScript languages.
pub struct TypeScriptLanguageAdapter;

impl MinimalLanguageAdapter for TypeScriptLanguageAdapter {
    open spec fn spec_language_id(&self) -> Seq<char> {
        "typescript"@
    }

    open spec fn spec_extensions(&self) -> Seq<Seq<char>> {
        seq!["ts"@, "tsx"@, "js"@, "jsx"@]
    }

    open spec fn spec_line_comments(&self) -> Seq<Seq<char>> {
        seq!["//"@]
    }

    open spec fn spec_block_comments(&self) -> Seq<(Seq<char>, Seq<char>)> {
        seq![("/*"@, "*/"@), ("/**"@, "*/"@)]
    }

    fn language_id(&self) -> (r: &str) {
        "typescript"
    }

    fn supported_extensions(&self) -> (r: Vec<&str>) {
        let r = vec!["ts", "tsx", "js", "jsx"];
        proof { assert(r@.map_values(|s: &str| s@) =~= seq!["ts"@, "tsx"@, "js"@, "jsx"@]); }
        r
    }

    fn comment_styles(&self) -> (r: CommentStyles)
        ensures
            line_views(r) == seq!["//"@],
            block_views(r) == seq![("/*"@, "*/"@), ("/**"@, "*/"@)],
    {
        let r = CommentStyles { line_comment: vec!["//"], block_comment: vec![("/*", "*/"), ("/**", "*/")] };
        proof {
            assert(line_views(r) =~= seq!["//"@]);
            assert(block_views(r) =~= seq![("/*"@, "*/"@), ("/**"@, "*/"@)]);
        }
        r
    }
}

/// The Python language.
pub struct PythonLanguageAdapter;

impl MinimalLanguageAdapter for PythonLanguageAdapter {
    open spec fn spec_language_id(&self) -> Seq<char> {
        "python"@
    }

    open spec fn spec_extensions(&self) -> Seq<Seq<char>> {
        seq!["py"@, "pyi"@]
    }

    open spec fn spec_line_comments(&self) -> Seq<Seq<char>> {
        seq!["#"@]
    }

    open spec fn spec_block_comments(&self) -> Seq<(Seq<char>, Seq<char>)> {
        seq![("'''"@, "'''"@), ("\"\"\""@, "\"\"\""@)]
    }

    fn language_id(&self) -> (r: &str) {
        "python"
    }

    fn supported_extensions(&self) -> (r: Vec<&str>) {
        let r = vec!["py", "pyi"];
        proof { assert(r@.map_values(|s: &str| s@) =~= seq!["py"@, "pyi"@]); }
        r
    }

    fn comment_styles(&self) -> (r: CommentStyles)
        ensures
            line_views(r) == seq!["#"@],
            block_views(r) == seq![("'''"@, "'''"@), ("\"\"\""@, "\"\"\""@)],
    {
        let r = CommentStyles { line_comment: vec!["#"], block_comment: vec![("'''", "'''"), ("\"\"\"", "\"\"\"")] };
        proof {
            assert(line_views(r) =~= seq!["#"@]);
            assert(block_views(r) =~= seq![("'''"@, "'''"@), ("\"\"\""@, "\"\"\""@)]);
        }
        r
    }
}

/// The Go language.
pub struct GoLanguageAdapter;

impl MinimalLanguageAdapter for GoLanguageAdapter {
    open spec fn spec_language_id(&self) -> Seq<char> {
        "go"@
    }

    open spec fn spec_extensions(&self) -> Seq<Seq<char>> {
        seq!["go"@]
    }

    open spec fn spec_line_comments(&self) -> Seq<Seq<char>> {
        seq!["//"@]
    }

    open spec fn spec_block_comments(&self) -> Seq<(Seq<char>, Seq<char>)> {
        seq![("/*"@, "*/"@)]
    }

    fn language_id(&self) -> (r: &str) {
        "go"
    }

    fn supported_extensions(&self) -> (r: Vec<&str>) {
        let r = vec!["go"];
        proof { assert(r@.map_values(|s: &str| s@) =~= seq!["go"@]); }
        r
    }

    fn comment_styles(&self) -> (r: CommentStyles)
        ensures
            line_views(r) == seq!["//"@],
            block_views(r) == seq![("/*"@, "*/"@)],
    {
        let r = CommentStyles { line_comment: vec!["//"], block_comment: vec![("/*", "*/")] };
        proof {
            assert(line_views(r) =~= seq!["//"@]);
            assert(block_views(r) =~= seq![("/*"@, "*/"@)]);
        }
        r
    }
}

/// The Java language.
pub struct JavaLanguageAdapter;

impl MinimalLanguageAdapter for JavaLanguageAdapter {
    open spec fn spec_language_id(&self) -> Seq<char> {
        "java"@
    }

    open spec fn spec_extensions(&self) -> Seq<Seq<char>> {
        seq!["java"@]
    }

    open spec fn spec_line_comments(&self) -> Seq<Seq<char>> {
        seq!["//"@]
    }

    open spec fn spec_block_comments(&self) -> Seq<(Seq<char>, Seq<char>)> {
        seq![("/*"@, "*/"@), ("/**"@, "*/"@)]
    }

    fn language_id(&self) -> (r: &str) {
        "java"
    }

    fn supported_extensions(&self) -> (r: Vec<&str>) {
        let r = vec!["java"];
        proof { assert(r@.map_values(|s: &str| s@) =~= seq!["java"@]); }
        r
    }

    fn comment_styles(&self) -> (r: CommentStyles)
        ensures
            line_views(r) == seq!["//"@],
            block_views(r) == seq![("/*"@, "*/"@), ("/**"@, "*/"@)],
    {
        let r = CommentStyles { line_comment: vec!["//"], block_comment: vec![("/*", "*/"), ("/**", "*/")] };
        proof {
            assert(line_views(r) =~= seq!["//"@]);
            assert(block_views(r) =~= seq![("/*"@, "*/"@), ("/**"@, "*/"@)]);
        }
        r
    }
}

/// The language id that [`detect_language_adapter`] picks for an extension.
pub open spec fn spec_language_for_extension(e: Seq<char>) -> Option<Seq<char>> {
    if e == "rs"@ {
        Some("rust"@)
    } else if e == "ts"@ || e == "tsx"@ || e == "js"@ || e == "jsx"@ {
        Some("typescript"@)
    } else if e == "py"@ || e == "pyi"@ {
        Some("python"@)
    } else if e == "go"@ {
        Some("go"@)
    } else if e == "java"@ {
        Some("java"@)
    } else {
        None
    }
}

/// The source-file extensions of a language that has an adapter.
pub open spec fn spec_language_extensions(id: Seq<char>) -> Seq<Seq<char>> {
    if id == "rust"@ {
        seq!["rs"@]
    } else if id == "typescript"@ {
        seq!["ts"@, "tsx"@, "js"@, "jsx"@]
    } else if id == "python"@ {
        seq!["py"@, "pyi"@]
    } else if id == "go"@ {
        seq!["go"@]
    } else if id == "java"@ {
        seq!["java"@]
    } else {
        Seq::empty()
    }
}

/// The line-comment markers of a language that has an adapter.
pub open spec fn spec_language_line_comments(id: Seq<char>) -> Seq<Seq<char>> {
    if id == "rust"@ {
        seq!["//"@, "///"@, "//!"@]
    } else if id == "python"@ {
        seq!["#"@]
    } else {
        seq!["//"@]
    }
}

/// The block-comment delimiters of a language that has an adapter.
pub open spec fn spec_language_block_comments(id: Seq<char>) -> Seq<(Seq<char>, Seq<char>)> {
    if id == "rust"@ {
        seq![("/*"@, "*/"@), ("/**"@, "*/"@), ("/*!"@, "*/"@)]
    } else if id == "typescript"@ || id == "java"@ {
        seq![("/*"@, "*/"@), ("/**"@, "*/"@)]
    } else if id == "python"@ {
        seq![("'''"@, "'''"@), ("\"\"\""@, "\"\"\""@)]
    } else {
        seq![("/*"@, "*/"@)]
    }
}

/// The adapter of the language of a file, chosen by the file's extension.
pub fn detect_language_adapter(file_path: &str) -> (r: Option<Box<dyn MinimalLanguageAdapter>>)
    ensures
        r is Some <==> (spec_path_extension(file_path@) is Some && spec_language_for_extension(spec_path_extension(file_path@).unwrap()) is Some),
        r is Some ==> r.unwrap().spec_language_id() == spec_language_for_extension(spec_path_extension(file_path@).unwrap()).unwrap(),
        r is Some ==> r.unwrap().spec_extensions() == spec_language_extensions(r.unwrap().spec_language_id()),
        r is Some ==> r.unwrap().spec_line_comments() == spec_language_line_comments(r.unwrap().spec_language_id()),
        r is Some ==> r.unwrap().spec_block_comments() == spec_language_block_comments(r.unwrap().spec_language_id()),
{
    proof {
        reveal_strlit("rust");
        reveal_strlit("typescript");
        reveal_strlit("python");
        reveal_strlit("go");
        reveal_strlit("java");
        assert("typescript"@.len() == 10 && "rust"@.len() == 4 && "python"@.len() == 6);
        assert("go"@.len() == 2 && "java"@.len() == 4 && "rust"@[0] == 'r' && "java"@[0] == 'j');
        assert("typescript"@ != "rust"@ && "typescript"@ != "python"@ && "typescript"@ != "java"@);
        assert("python"@ != "rust"@ && "python"@ != "typescript"@ && "python"@ != "java"@);
        assert("go"@ != "rust"@ && "go"@ != "typescript"@ && "go"@ != "python"@ && "go"@ != "java"@);
        assert("java"@ != "rust"@);
    }
    let e = match path_extension(file_path) {
        Some(e) => e,
        None => return None,
    };
    if chars_eq_str(e.as_slice(), "rs") {
        Some(Box::new(RustLanguageAdapter))
    } else if chars_eq_str(e.as_slice(), "ts") || chars_eq_str(e.as_slice(), "tsx") || chars_eq_str(e.as_slice(), "js")
        || chars_eq_str(e.as_slice(), "jsx") {
        Some(Box::new(TypeScriptLanguageAdapter))
    } else if chars_eq_str(e.as_slice(), "py") || chars_eq_str(e.as_slice(), "pyi") {
        Some(Box::new(PythonLanguageAdapter))
    } else if chars_eq_str(e.as_slice(), "go") {
        Some(Box::new(GoLanguageAdapter))
    } else if chars_eq_str(e.as_slice(), "java") {
        Some(Box::new(JavaLanguageAdapter))
    } else {
        None
    }
}

/// The languages with an adapter, each with its source-file extensions.
pub open spec fn spec_supported_languages() -> Seq<(Seq<char>, Seq<Seq<char>>)> {
    seq![
        ("rust"@, seq!["rs"@]),
        ("typescript"@, seq!["ts"@, "tsx"@, "js"@, "jsx"@]),
        ("python"@, seq!["py"@, "pyi"@]),
        ("go"@, seq!["go"@]),
        ("java"@, seq!["java"@]),
    ]
}

/// A file named `f.<e>`, where `e` is a non-empty extension holding no `.`
/// and no `/`, has the extension `e`.
pub proof fn lemma_simple_file_extension(e: Seq<char>)
    requires
        e.len() > 0,
        forall|k: int| 0 <= k < e.len() ==> e[k] != '.' && e[k] != '/',
    ensures
        spec_path_extension(seq!['f', '.'] + e) == Some(e),
{
    let p = seq!['f', '.'] + e;
    lemma_last_index_of(p, '/');
    lemma_last_index_of(p, '.');
    let s = last_index_of(p, '/');
    if s >= 0 {
        assert(p[s] == '/');
        if s >= 2 {
            assert(p[s] == e[s - 2]);
        }
    }
    assert(s == -1);
    assert(p.subrange(0, p.len() as int) =~= p);
    assert(p.len() >= 3);
    assert(p != seq!['.']);
    assert(p[0] == 'f');
    assert(p != seq!['.', '.']);
    assert(spec_file_name(p) == Some(p));
    let d = last_index_of(p, '.');
    assert(p[1] == '.');
    if d > 1 {
        assert(p[d] == e[d - 2]);
    }
    assert(d == 1);
    assert(p.subrange(2, p.len() as int) =~= e);
}

/// Every extension that [`supported_languages`] lists under a language is
/// detected as that language, and the adapter detected for it lists the
/// same extensions. The languages are listed once each.
pub proof fn law_supported_languages_detected(i: int, j: int, i2: int)
    requires
        0 <= i < spec_supported_languages().len(),
        0 <= j < spec_supported_languages()[i].1.len(),
        0 <= i2 < spec_supported_languages().len(),
    ensures
        spec_path_extension(seq!['f', '.'] + spec_supported_languages()[i].1[j]) == Some(spec_supported_languages()[i].1[j]),
        spec_language_for_extension(spec_supported_languages()[i].1[j]) == Some(spec_supported_languages()[i].0),
        spec_language_extensions(spec_supported_languages()[i].0) == spec_supported_languages()[i].1,
        i != i2 ==> spec_supported_languages()[i].0 != spec_supported_languages()[i2].0,
{
    reveal_strlit("rust");
    reveal_strlit("typescript");
    reveal_strlit("python");
    reveal_strlit("go");
    reveal_strlit("java");
    reveal_strlit("rs");
    reveal_strlit("ts");
    reveal_strlit("tsx");
    reveal_strlit("js");
    reveal_strlit("jsx");
    reveal_strlit("py");
    reveal_strlit("pyi");
    assert("rust"@[0] == 'r' && "java"@[0] == 'j');
    assert("go"@.len() == 2 && "typescript"@.len() == 10 && "python"@.len() == 6);
    assert("typescript"@ != "rust"@ && "typescript"@ != "python"@ && "typescript"@ != "java"@);
    assert("python"@ != "rust"@ && "python"@ != "java"@ && "java"@ != "rust"@);
    assert("go"@ != "rust"@ && "go"@ != "typescript"@ && "go"@ != "python"@ && "go"@ != "java"@);
    assert("ts"@[0] == 't' && "tsx"@[0] == 't' && "js"@[0] == 'j' && "jsx"@[0] == 'j' && "py"@[0] == 'p' && "pyi"@[0] == 'p');
    let e = spec_supported_languages()[i].1[j];
    assert(e.len() > 0 && forall|k: int| 0 <= k < e.len() ==> e[k] != '.' && e[k] != '/');
    lemma_simple_file_extension(e);
}

/// The languages with an adapter, each with its source-file extensions.
pub fn supported_languages() -> (r: Vec<(&'static str, Vec<&'static str>)>)
    ensures
        r@.map_values(|p: (&'static str, Vec<&'static str>)| (p.0@, p.1@.map_values(|e: &'static str| e@))) == spec_supported_languages(),
{
    let r = vec![
        ("rust", vec!["rs"]),
        ("typescript", vec!["ts", "tsx", "js", "jsx"]),
        ("python", vec!["py", "pyi"]),
        ("go", vec!["go"]),
        ("java", vec!["java"]),
    ];
    proof {
        let f = |e: &'static str| e@;
        assert(r@[0].1@.map_values(f) =~= seq!["rs"@]);
        assert(r@[1].1@.map_values(f) =~= seq!["ts"@, "tsx"@, "js"@, "jsx"@]);
        assert(r@[2].1@.map_values(f) =~= seq!["py"@, "pyi"@]);
        assert(r@[3].1@.map_values(f) =~= seq!["go"@]);
        assert(r@[4].1@.map_values(f) =~= seq!["java"@]);
        assert(r@.map_values(|p: (&'static str, Vec<&'static str>)| (p.0@, p.1@.map_values(|e: &'static str| e@))) =~= seq![
            ("rust"@, seq!["rs"@]),
            ("typescript"@, seq!["ts"@, "tsx"@, "js"@, "jsx"@]),
            ("python"@, seq!["py"@, "pyi"@]),
            ("go"@, seq!["go"@]),
            ("java"@, seq!["java"@]),
        ]);
    }
    r
}
} // verus!
