//! Text helpers shared by the library: conversions between strings and
//! character vectors, and the few standard-library string operations that
//! vstd leaves unspecified, each behind a wrapper that restates its
//! documentation.
use vstd::prelude::*;
use vstd::std_specs::iter::IteratorSpec;

verus! {

/// `<str as PartialEq>::eq`: two string slices are equal exactly when they
/// hold the same characters.
#[verifier::external_body]
pub(crate) fn str_eq(a: &str, b: &str) -> (r: bool)
    ensures
        r == (a@ == b@),
{
    a == b
}

/// `String::push`: appends one character.
#[verifier::external_body]
pub(crate) fn string_push(s: &mut String, c: char)
    ensures
        final(s)@ == old(s)@.push(c),
{
    s.push(c)
}

/// An owned copy of the slice.
pub(crate) fn str_to_string(s: &str) -> (r: String)
    ensures
        r@ == s@,
{
    s.to_owned()
}

/// The characters of `s`, in order.
pub fn chars_of(s: &str) -> (v: Vec<char>)
    ensures
        v@ == s@,
{
    let n = s.unicode_len();
    let mut v: Vec<char> = Vec::new();
    let mut it = s.chars();
    let mut i: usize = 0;
    while i < n
        invariant
            n == s@.len(),
            i <= n,
            v@ == s@.subrange(0, i as int),
            it.remaining() == s@.subrange(i as int, n as int),
            it.obeys_prophetic_iter_laws(),
        decreases n - i,
    {
        let c = it.next();
        proof {
            assert(s@.subrange(i as int, n as int).len() > 0);
        }
        match c {
            Some(c) => {
                v.push(c);
            },
            None => {
                proof { assert(false); }
            },
        }
        proof {
            assert(s@.subrange(i as int, n as int).drop_first() =~= s@.subrange(i + 1, n as int));
            assert(v@ =~= s@.subrange(0, i + 1));
        }
        i = i + 1;
    }
    proof {
        assert(s@.subrange(0, n as int) =~= s@);
    }
    v
}

/// A string holding the characters of `cs`, in order.
pub fn string_from_chars(cs: &[char]) -> (r: String)
    ensures
        r@ == cs@,
{
    let mut r = String::new();
    let mut i: usize = 0;
    while i < cs.len()
        invariant
            i <= cs.len(),
            r@ == cs@.subrange(0, i as int),
        decreases cs.len() - i,
    {
        string_push(&mut r, cs[i]);
        proof {
            assert(r@ =~= cs@.subrange(0, i + 1));
        }
        i = i + 1;
    }
    proof {
        assert(cs@.subrange(0, cs.len() as int) =~= cs@);
    }
    r
}


/// `p` is a prefix of `s`.
pub open spec fn has_prefix(s: Seq<char>, p: Seq<char>) -> bool {
    p.len() <= s.len() && s.subrange(0, p.len() as int) == p
}

/// `p` is a suffix of `s`.
pub open spec fn has_suffix(s: Seq<char>, p: Seq<char>) -> bool {
    p.len() <= s.len() && s.subrange(s.len() - p.len(), s.len() as int) == p
}

/// `p` occurs in `s` starting at `i`.
pub open spec fn occurs_at(s: Seq<char>, p: Seq<char>, i: int) -> bool {
    0 <= i && i + p.len() <= s.len() && s.subrange(i, i + p.len()) == p
}

/// `p` occurs somewhere in `s` (the empty pattern occurs in every string).
pub open spec fn has_substring(s: Seq<char>, p: Seq<char>) -> bool {
    exists|i: int| occurs_at(s, p, i)
}

/// Whether `p` occurs in `s` at position `i`.
pub fn chars_match_at(s: &[char], p: &[char], i: usize) -> (r: bool)
    ensures
        r == occurs_at(s@, p@, i as int),
{
    if i > s.len() || p.len() > s.len() - i {
        return false;
    }
    let mut k: usize = 0;
    while k < p.len()
        invariant
            i + p.len() <= s.len(),
            k <= p.len(),
            forall|j: int| 0 <= j < k ==> s@[i + j] == p@[j],
        decreases p.len() - k,
    {
        if s[i + k] != p[k] {
            proof {
                assert(s@.subrange(i as int, i + p.len())[k as int] != p@[k as int]);
            }
            return false;
        }
        k = k + 1;
    }
    proof {
        assert(s@.subrange(i as int, i + p.len()) =~= p@);
    }
    true
}

/// Whether `p` occurs anywhere in `s`.
pub fn chars_contain(s: &[char], p: &[char]) -> (r: bool)
    ensures
        r == has_substring(s@, p@),
{
    if p.len() > s.len() {
        proof {
            assert forall|i: int| !occurs_at(s@, p@, i) by {}
        }
        return false;
    }
    let last = s.len() - p.len();
    let mut i: usize = 0;
    loop
        invariant
            last == s.len() - p.len(),
            p.len() <= s.len(),
            i <= last,
            forall|j: int| 0 <= j < i ==> !occurs_at(s@, p@, j),
        decreases last - i,
    {
        if chars_match_at(s, p, i) {
            return true;
        }
        if i == last {
            proof {
                assert forall|j: int| !occurs_at(s@, p@, j) by {
                    if 0 <= j < i {
                    }
                }
            }
            return false;
        }
        i = i + 1;
    }
}

/// `str::starts_with` for a string pattern.
pub fn str_starts_with(s: &str, p: &str) -> (r: bool)
    ensures
        r == has_prefix(s@, p@),
{
    let sc = chars_of(s);
    let pc = chars_of(p);
    chars_match_at(sc.as_slice(), pc.as_slice(), 0)
}

/// `str::ends_with` for a string pattern.
pub fn str_ends_with(s: &str, p: &str) -> (r: bool)
    ensures
        r == has_suffix(s@, p@),
{
    let sc = chars_of(s);
    let pc = chars_of(p);
    if pc.len() > sc.len() {
        return false;
    }
    chars_match_at(sc.as_slice(), pc.as_slice(), sc.len() - pc.len())
}

/// `str::contains` for a string pattern.
pub fn str_contains(s: &str, p: &str) -> (r: bool)
    ensures
        r == has_substring(s@, p@),
{
    let sc = chars_of(s);
    let pc = chars_of(p);
    chars_contain(sc.as_slice(), pc.as_slice())
}


/// The lower-case mapping of `s` (Unicode `Lowercase_Mapping` of each
/// character, as `str::to_lowercase` computes it).
pub uninterp spec fn spec_to_lowercase(s: Seq<char>) -> Seq<char>;

/// The upper-case mapping of `s` (Unicode `Uppercase_Mapping` of each
/// character, as `str::to_uppercase` computes it).
pub uninterp spec fn spec_to_uppercase(s: Seq<char>) -> Seq<char>;

/// Whether `c` has the Unicode `Uppercase` property, as
/// `char::is_uppercase` reports it.
pub uninterp spec fn spec_is_uppercase(c: char) -> bool;

/// `str::to_lowercase`: the lower-case form of the whole string, which
/// depends on the string alone.
#[verifier::external_body]
pub(crate) fn str_to_lowercase(s: &str) -> (r: String)
    ensures
        r@ == spec_to_lowercase(s@),
{
    s.to_lowercase()
}

/// `str::to_uppercase`: the upper-case form of the whole string, which
/// depends on the string alone.
#[verifier::external_body]
pub(crate) fn str_to_uppercase(s: &str) -> (r: String)
    ensures
        r@ == spec_to_uppercase(s@),
{
    s.to_uppercase()
}

/// `char::is_uppercase`: whether the character is upper case.
#[verifier::external_body]
pub(crate) fn char_is_uppercase(c: char) -> (r: bool)
    ensures
        r == spec_is_uppercase(c),
{
    c.is_uppercase()
}


/// The Unicode `White_Space` characters (what `char::is_whitespace`
/// accepts).
pub open spec fn spec_is_whitespace(c: char) -> bool {
    ||| ('\u{9}' <= c && c <= '\u{d}')
    ||| c == ' '
    ||| c == '\u{85}'
    ||| c == '\u{a0}'
    ||| c == '\u{1680}'
    ||| ('\u{2000}' <= c && c <= '\u{200a}')
    ||| c == '\u{2028}'
    ||| c == '\u{2029}'
    ||| c == '\u{202f}'
    ||| c == '\u{205f}'
    ||| c == '\u{3000}'
}

/// Whether `c` is Unicode white space.
pub fn is_whitespace(c: char) -> (r: bool)
    ensures
        r == spec_is_whitespace(c),
{
    ('\u{9}' <= c && c <= '\u{d}') || c == ' ' || c == '\u{85}' || c == '\u{a0}' || c == '\u{1680}'
        || ('\u{2000}' <= c && c <= '\u{200a}') || c == '\u{2028}' || c == '\u{2029}' || c == '\u{202f}'
        || c == '\u{205f}' || c == '\u{3000}'
}

/// Number of leading white-space characters of `s`.
pub open spec fn leading_ws(s: Seq<char>) -> nat
    decreases s.len(),
{
    if s.len() > 0 && spec_is_whitespace(s[0]) {
        1 + leading_ws(s.drop_first())
    } else {
        0
    }
}

/// Number of trailing white-space characters of `s`.
pub open spec fn trailing_ws(s: Seq<char>) -> nat
    decreases s.len(),
{
    if s.len() > 0 && spec_is_whitespace(s.last()) {
        1 + trailing_ws(s.drop_last())
    } else {
        0
    }
}

/// `s` without leading and trailing white space (`str::trim`).
pub open spec fn spec_trim(s: Seq<char>) -> Seq<char> {
    let a = leading_ws(s) as int;
    if a == s.len() {
        Seq::empty()
    } else {
        s.subrange(a, s.len() - trailing_ws(s) as int)
    }
}

proof fn lemma_leading_ws(s: Seq<char>, i: int)
    requires
        0 <= i <= s.len(),
        forall|j: int| 0 <= j < i ==> spec_is_whitespace(s[j]),
        i == s.len() || !spec_is_whitespace(s[i]),
    ensures
        leading_ws(s) == i,
    decreases i,
{
    if i > 0 {
        lemma_leading_ws(s.drop_first(), i - 1);
    }
}

proof fn lemma_trailing_ws(s: Seq<char>, k: int)
    requires
        0 <= k <= s.len(),
        forall|j: int| s.len() - k <= j < s.len() ==> spec_is_whitespace(s[j]),
        k == s.len() || !spec_is_whitespace(s[s.len() - k - 1]),
    ensures
        trailing_ws(s) == k,
    decreases k,
{
    if k > 0 {
        let t = s.drop_last();
        assert forall|j: int| t.len() - (k - 1) <= j < t.len() implies spec_is_whitespace(t[j]) by {
            assert(t[j] == s[j]);
        }
        if k - 1 < t.len() {
            assert(t[t.len() - (k - 1) - 1] == s[s.len() - k - 1]);
        }
        lemma_trailing_ws(t, k - 1);
    }
}

proof fn lemma_trim_bounds(s: Seq<char>)
    ensures
        leading_ws(s) <= s.len(),
        trailing_ws(s) <= s.len(),
        leading_ws(s) < s.len() ==> leading_ws(s) + trailing_ws(s) <= s.len(),
    decreases s.len(),
{
    if s.len() > 0 {
        lemma_trim_bounds(s.drop_first());
        lemma_trim_bounds(s.drop_last());
    }
    if leading_ws(s) < s.len() {
        let a = leading_ws(s) as int;
        // s[a] is not white space, so the trailing run stops after it.
        lemma_leading_run(s);
        lemma_trailing_run(s);
        if a + trailing_ws(s) > s.len() {
            assert(spec_is_whitespace(s[a]));
        }
    }
}

proof fn lemma_leading_run(s: Seq<char>)
    ensures
        leading_ws(s) <= s.len(),
        forall|j: int| 0 <= j < leading_ws(s) ==> spec_is_whitespace(s[j]),
        leading_ws(s) < s.len() ==> !spec_is_whitespace(s[leading_ws(s) as int]),
    decreases s.len(),
{
    if s.len() > 0 && spec_is_whitespace(s[0]) {
        lemma_leading_run(s.drop_first());
        assert forall|j: int| 0 <= j < leading_ws(s) implies spec_is_whitespace(s[j]) by {
            if j > 0 {
                assert(s[j] == s.drop_first()[j - 1]);
            }
        }
    }
}

proof fn lemma_trailing_run(s: Seq<char>)
    ensures
        trailing_ws(s) <= s.len(),
        forall|j: int| s.len() - trailing_ws(s) <= j < s.len() ==> spec_is_whitespace(s[j]),
        trailing_ws(s) < s.len() ==> !spec_is_whitespace(s[s.len() - trailing_ws(s) - 1]),
    decreases s.len(),
{
    if s.len() > 0 && spec_is_whitespace(s.last()) {
        lemma_trailing_run(s.drop_last());
        assert forall|j: int| s.len() - trailing_ws(s) <= j < s.len() implies spec_is_whitespace(s[j]) by {
            if j < s.len() - 1 {
                assert(s[j] == s.drop_last()[j]);
            }
        }
    }
}

/// The characters of `s` without leading and trailing white space.
pub fn trim_chars(s: &[char]) -> (r: Vec<char>)
    ensures
        r@ == spec_trim(s@),
{
    let mut a: usize = 0;
    while a < s.len() && is_whitespace(s[a])
        invariant
            a <= s.len(),
            forall|j: int| 0 <= j < a ==> spec_is_whitespace(s@[j]),
        decreases s.len() - a,
    {
        a = a + 1;
    }
    proof { lemma_leading_ws(s@, a as int); }
    if a == s.len() {
        return Vec::new();
    }
    let mut k: usize = 0;
    while k < s.len() - a && is_whitespace(s[s.len() - k - 1])
        invariant
            a < s.len(),
            k <= s.len() - a,
            forall|j: int| s.len() - k <= j < s.len() ==> spec_is_whitespace(s@[j]),
        decreases s.len() - a - k,
    {
        k = k + 1;
    }
    proof {
        lemma_trim_bounds(s@);
        lemma_trailing_run(s@);
        if k < s.len() - a {
            lemma_trailing_ws(s@, k as int);
        } else {
            // The whole tail from `a` would be white space, but `s[a]` is not.
            assert(spec_is_whitespace(s@[a as int]));
        }
    }
    let mut r: Vec<char> = Vec::new();
    let mut i = a;
    let end = s.len() - k;
    while i < end
        invariant
            a <= i <= end,
            end <= s.len(),
            r@ == s@.subrange(a as int, i as int),
        decreases end - i,
    {
        r.push(s[i]);
        proof { assert(r@ =~= s@.subrange(a as int, i + 1)); }
        i = i + 1;
    }
    r
}

/// Index of the first `\n` at or after `i`, or the length.
pub open spec fn next_newline(s: Seq<char>, i: int) -> int
    decreases s.len() - i,
{
    if i < 0 || i >= s.len() {
        s.len() as int
    } else if s[i] == '\n' {
        i
    } else {
        next_newline(s, i + 1)
    }
}

/// The first `\n` at or after `i` lies between `i` and the end, and no
/// `\n` comes before it.
pub proof fn lemma_next_newline(s: Seq<char>, i: int)
    requires
        0 <= i <= s.len(),
    ensures
        i <= next_newline(s, i) <= s.len(),
        next_newline(s, i) < s.len() ==> s[next_newline(s, i)] == '\n',
        forall|k: int| i <= k < next_newline(s, i) ==> s[k] != '\n',
    decreases s.len() - i,
{
    if i < s.len() && s[i] != '\n' {
        lemma_next_newline(s, i + 1);
    }
}

/// The lines of `s` from position `i` on, as `str::lines` splits them: at
/// each `\n`, dropping a `\r` just before it; the final line ending is
/// optional.
pub open spec fn lines_from(s: Seq<char>, i: int) -> Seq<Seq<char>>
    decreases s.len() - i,
{
    if i < 0 || i >= s.len() {
        Seq::empty()
    } else {
        let j = next_newline(s, i);
        proof {
            lemma_next_newline(s, i);
        }
        if j >= s.len() {
            seq![s.subrange(i, s.len() as int)]
        } else {
            let line = s.subrange(i, j);
            let line = if line.len() > 0 && line.last() == '\r' { line.drop_last() } else { line };
            seq![line] + lines_from(s, j + 1)
        }
    }
}

/// The lines of `s` (`str::lines`).
pub open spec fn spec_lines(s: Seq<char>) -> Seq<Seq<char>> {
    lines_from(s, 0)
}

/// `str::lines`: the lines of the text, split at `\n` or `\r\n`, without
/// their line endings; a final line ending does not start another line.
#[verifier::external_body]
pub(crate) fn str_lines(s: &str) -> (r: Vec<&str>)
    ensures
        r@.map_values(|l: &str| l@) == spec_lines(s@),
{
    s.lines().collect()
}

/// The decimal digit for `d < 10`.
pub open spec fn digit_char(d: nat) -> char {
    if d == 0 { '0' } else if d == 1 { '1' } else if d == 2 { '2' } else if d == 3 { '3' } else if d == 4 { '4' }
    else if d == 5 { '5' } else if d == 6 { '6' } else if d == 7 { '7' } else if d == 8 { '8' } else { '9' }
}

/// The decimal representation of `n`, without leading zeros.
pub open spec fn spec_decimal(n: nat) -> Seq<char>
    decreases n,
{
    if n < 10 {
        seq![digit_char(n)]
    } else {
        spec_decimal(n / 10).push(digit_char(n % 10))
    }
}

fn digit(d: u64) -> (c: char)
    requires
        d < 10,
    ensures
        c == digit_char(d as nat),
{
    if d == 0 { '0' } else if d == 1 { '1' } else if d == 2 { '2' } else if d == 3 { '3' } else if d == 4 { '4' }
    else if d == 5 { '5' } else if d == 6 { '6' } else if d == 7 { '7' } else if d == 8 { '8' } else { '9' }
}

/// Appends the decimal representation of `n`.
pub fn push_decimal(s: &mut String, n: u64)
    ensures
        final(s)@ == old(s)@ + spec_decimal(n as nat),
    decreases n,
{
    if n < 10 {
        string_push(s, digit(n));
        proof { assert(final(s)@ =~= old(s)@ + spec_decimal(n as nat)); }
    } else {
        push_decimal(s, n / 10);
        string_push(s, digit(n % 10));
        proof { assert(final(s)@ =~= old(s)@ + spec_decimal(n as nat)); }
    }
}

/// Appends the characters of `t`.
pub fn push_str(s: &mut String, t: &str)
    ensures
        final(s)@ == old(s)@ + t@,
{
    s.append(t);
}


/// Lexicographic order of character sequences by code point, the order of
/// `str` comparison (UTF-8 byte order and code point order agree).
pub open spec fn seq_lt(a: Seq<char>, b: Seq<char>) -> bool
    decreases a.len(),
{
    if a.len() == 0 {
        b.len() > 0
    } else if b.len() == 0 {
        false
    } else if a[0] != b[0] {
        a[0] < b[0]
    } else {
        seq_lt(a.drop_first(), b.drop_first())
    }
}

/// The order is irreflexive and asymmetric.
pub proof fn lemma_seq_lt_asym(a: Seq<char>, b: Seq<char>)
    ensures
        !seq_lt(a, a),
        seq_lt(a, b) ==> !seq_lt(b, a),
    decreases a.len(),
{
    if a.len() > 0 && b.len() > 0 {
        lemma_seq_lt_asym(a.drop_first(), b.drop_first());
    }
    if a.len() > 0 {
        lemma_seq_lt_asym(a.drop_first(), a.drop_first());
    }
}

/// The order is transitive.
pub proof fn lemma_seq_lt_trans(a: Seq<char>, b: Seq<char>, c: Seq<char>)
    requires
        seq_lt(a, b),
        seq_lt(b, c),
    ensures
        seq_lt(a, c),
    decreases a.len(),
{
    if a.len() > 0 && b.len() > 0 && c.len() > 0 && a[0] == b[0] && b[0] == c[0] {
        lemma_seq_lt_trans(a.drop_first(), b.drop_first(), c.drop_first());
    }
}

/// Of two different sequences one is less than the other.
pub proof fn lemma_seq_lt_total(a: Seq<char>, b: Seq<char>)
    ensures
        a == b || seq_lt(a, b) || seq_lt(b, a),
    decreases a.len(),
{
    if a.len() > 0 && b.len() > 0 && a[0] == b[0] {
        lemma_seq_lt_total(a.drop_first(), b.drop_first());
        if a.drop_first() == b.drop_first() {
            assert(a =~= seq![a[0]] + a.drop_first());
            assert(b =~= seq![b[0]] + b.drop_first());
        }
    }
    if a.len() == 0 && b.len() == 0 {
        assert(a =~= b);
    }
}

/// Whether `a` comes before `b` in the order of [`seq_lt`].
pub fn chars_lt(a: &[char], b: &[char]) -> (r: bool)
    ensures
        r == seq_lt(a@, b@),
{
    let mut i: usize = 0;
    proof {
        assert(a@.subrange(0, a.len() as int) =~= a@);
        assert(b@.subrange(0, b.len() as int) =~= b@);
    }
    while i < a.len() && i < b.len()
        invariant
            i <= a.len(),
            i <= b.len(),
            a@.subrange(0, i as int) == b@.subrange(0, i as int),
            seq_lt(a@, b@) == seq_lt(a@.subrange(i as int, a.len() as int), b@.subrange(i as int, b.len() as int)),
        decreases a.len() - i,
    {
        let x = a[i];
        let y = b[i];
        let ghost sa = a@.subrange(i as int, a.len() as int);
        let ghost sb = b@.subrange(i as int, b.len() as int);
        proof {
            assert(sa[0] == x && sb[0] == y);
        }
        if x != y {
            return x < y;
        }
        proof {
            assert(sa.drop_first() =~= a@.subrange(i + 1, a.len() as int));
            assert(sb.drop_first() =~= b@.subrange(i + 1, b.len() as int));
            assert(a@.subrange(0, i + 1) =~= a@.subrange(0, i as int).push(x));
            assert(b@.subrange(0, i + 1) =~= b@.subrange(0, i as int).push(y));
        }
        i = i + 1;
    }
    i < b.len()
}

/// Whether the string `a` comes before `b` in the order of [`seq_lt`].
pub fn str_lt(a: &str, b: &str) -> (r: bool)
    ensures
        r == seq_lt(a@, b@),
{
    let x = chars_of(a);
    let y = chars_of(b);
    chars_lt(x.as_slice(), y.as_slice())
}

/// Whether `c` occurs in `s`.
pub fn str_has_char(s: &str, c: char) -> (r: bool)
    ensures
        r == s@.contains(c),
{
    let v = chars_of(s);
    let mut i: usize = 0;
    while i < v.len()
        invariant
            v@ == s@,
            i <= v.len(),
            forall|k: int| 0 <= k < i ==> v@[k] != c,
        decreases v.len() - i,
    {
        if v[i] == c {
            proof { assert(s@[i as int] == c); }
            return true;
        }
        i = i + 1;
    }
    false
}

} // verus!
