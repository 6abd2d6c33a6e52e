//! The framing of language-server messages: each message is preceded by a
//! header block of lines, one of which gives the length of the content in
//! bytes, `Content-Length: <n>`, and ends with an empty line.
use vstd::prelude::*;
use vstd::utf8::encode_utf8;

use crate::simple_cli::{all_digits, digits_value, lemma_decimal_digits, lemma_digits_value_grows};
use crate::text::{chars_of, has_prefix, leading_ws, push_decimal, push_str, spec_decimal, spec_is_whitespace, spec_trim, str_eq, str_starts_with, string_push, trailing_ws, trim_chars};

verus! {

/// `str::parse::<usize>`: an optional `+` followed by one or more decimal
/// digits whose value fits in a `usize`; anything else is an error.
pub open spec fn spec_parse_usize(s: Seq<char>) -> Option<usize> {
    let d = if s.len() > 0 && s[0] == '+' { s.drop_first() } else { s };
    if d.len() > 0 && all_digits(d) && digits_value(d) <= usize::MAX {
        Some(digits_value(d) as usize)
    } else {
        None
    }
}

/// Parses a decimal `usize` (see [`spec_parse_usize`]).
pub fn parse_usize(s: &[char]) -> (r: Option<usize>)
    ensures
        r == spec_parse_usize(s@),
{
    let start: usize = if s.len() > 0 && s[0] == '+' { 1 } else { 0 };
    let ghost d = if s@.len() > 0 && s@[0] == '+' { s@.drop_first() } else { s@ };
    proof {
        assert(d =~= s@.subrange(start as int, s.len() as int));
    }
    if start == s.len() {
        return None;
    }
    let mut v: u128 = 0;
    let mut i = start;
    while i < s.len()
        invariant
            start <= i <= s.len(),
            d == s@.subrange(start as int, s.len() as int),
            d == (if s@.len() > 0 && s@[0] == '+' { s@.drop_first() } else { s@ }),
            all_digits(s@.subrange(start as int, i as int)),
            v == digits_value(s@.subrange(start as int, i as int)),
            v <= usize::MAX,
        decreases s.len() - i,
    {
        let c = s[i];
        proof {
            assert(s@.subrange(start as int, i + 1).drop_last() =~= s@.subrange(start as int, i as int));
        }
        if c < '0' || c > '9' {
            proof {
                assert(d[i - start] == c);
                assert(!all_digits(d));
            }
            return None;
        }
        let dv = (c as u32 - '0' as u32) as u128;
        v = v * 10 + dv;
        proof {
            assert(v == digits_value(s@.subrange(start as int, i + 1)));
            assert forall|k: int| 0 <= k < i + 1 - start implies '0' <= #[trigger] s@.subrange(start as int, i + 1)[k] && s@.subrange(start as int, i + 1)[k] <= '9' by {
                if k < i - start {
                    assert(s@.subrange(start as int, i + 1)[k] == s@.subrange(start as int, i as int)[k]);
                }
            }
        }
        if v > usize::MAX as u128 {
            proof {
                if all_digits(d) {
                    lemma_digits_value_grows(d, i + 1 - start);
                    assert(d.subrange(0, i + 1 - start) =~= s@.subrange(start as int, i + 1));
                }
            }
            return None;
        }
        i = i + 1;
    }
    Some(v as usize)
}

/// `s` with every leading repetition of `p` removed (`str::trim_start_matches`
/// with a string pattern; an empty pattern removes nothing).
pub open spec fn strip_repeated(s: Seq<char>, p: Seq<char>) -> Seq<char>
    decreases s.len(),
{
    if p.len() > 0 && has_prefix(s, p) {
        strip_repeated(s.subrange(p.len() as int, s.len() as int), p)
    } else {
        s
    }
}

/// What a header line says of the content length.
#[derive(Clone, Copy, Debug, PartialEq, Eq, Structural)]
pub enum HeaderLength {
    /// The line is not a content-length header.
    NotLength,
    /// The line gives this length.
    Length(usize),
    /// The line is a content-length header whose value is not a length.
    Invalid,
}

/// A length header read as the clients that match `Content-Length:` read
/// it: the line starts with the field name, and what follows every leading
/// repetition of it, trimmed, is the length.
pub open spec fn spec_header_length(line: Seq<char>) -> HeaderLength {
    if !has_prefix(line, "Content-Length:"@) {
        HeaderLength::NotLength
    } else {
        match spec_parse_usize(spec_trim(strip_repeated(line, "Content-Length:"@))) {
            Some(n) => HeaderLength::Length(n),
            None => HeaderLength::Invalid,
        }
    }
}

/// A length header read as the client that matches `Content-Length: `
/// (with its space) reads it: what follows that prefix, trimmed, is the
/// length.
pub open spec fn spec_length_field(line: Seq<char>) -> HeaderLength {
    if !has_prefix(line, "Content-Length: "@) {
        HeaderLength::NotLength
    } else {
        match spec_parse_usize(spec_trim(line.subrange(16, line.len() as int))) {
            Some(n) => HeaderLength::Length(n),
            None => HeaderLength::Invalid,
        }
    }
}

fn strip_repeated_chars(s: &Vec<char>, p: &Vec<char>) -> (r: Vec<char>)
    ensures
        r@ == strip_repeated(s@, p@),
{
    let mut start: usize = 0;
    assert(s@.subrange(0, s.len() as int) =~= s@);
    while p.len() > 0 && p.len() <= s.len() - start && matches_at(s, p, start)
        invariant
            start <= s.len(),
            strip_repeated(s@, p@) == strip_repeated(s@.subrange(start as int, s.len() as int), p@),
        decreases s.len() - start,
    {
        proof {
            let t = s@.subrange(start as int, s.len() as int);
            assert(t.subrange(0, p.len() as int) =~= s@.subrange(start as int, start + p.len()));
            assert(has_prefix(t, p@));
            assert(t.subrange(p.len() as int, t.len() as int) =~= s@.subrange(start + p.len(), s.len() as int));
        }
        start = start + p.len();
    }
    proof {
        let t = s@.subrange(start as int, s.len() as int);
        if p.len() > 0 && p.len() <= s.len() - start {
            assert(t.subrange(0, p.len() as int) =~= s@.subrange(start as int, start + p.len()));
        }
    }
    let mut r: Vec<char> = Vec::new();
    let mut i = start;
    while i < s.len()
        invariant
            start <= i <= s.len(),
            r@ == s@.subrange(start as int, i as int),
        decreases s.len() - i,
    {
        r.push(s[i]);
        assert(r@ =~= s@.subrange(start as int, i + 1));
        i = i + 1;
    }
    r
}

/// Whether `p` occurs in `s` at `i`, which leaves room for it.
fn matches_at(s: &Vec<char>, p: &Vec<char>, i: usize) -> (r: bool)
    requires
        i + p.len() <= s.len(),
    ensures
        r == (s@.subrange(i as int, i + p.len()) == p@),
{
    let mut k: usize = 0;
    while k < p.len()
        invariant
            i + p.len() <= s.len(),
            k <= p.len(),
            forall|j: int| 0 <= j < k ==> s@[i + j] == p@[j],
        decreases p.len() - k,
    {
        if s[i + k] != p[k] {
            proof {
                assert(s@.subrange(i as int, i + p.len())[k as int] != p@[k as int]);
            }
            return false;
        }
        k = k + 1;
    }
    assert(s@.subrange(i as int, i + p.len()) =~= p@);
    true
}

/// What a header line says of the content length, matching
/// `Content-Length:` (see [`spec_header_length`]).
pub fn header_length(line: &str) -> (r: HeaderLength)
    ensures
        r == spec_header_length(line@),
{
    if !str_starts_with(line, "Content-Length:") {
        return HeaderLength::NotLength;
    }
    let cs = chars_of(line);
    let name = chars_of("Content-Length:");
    let rest = strip_repeated_chars(&cs, &name);
    let trimmed = trim_chars(rest.as_slice());
    match parse_usize(trimmed.as_slice()) {
        Some(n) => HeaderLength::Length(n),
        None => HeaderLength::Invalid,
    }
}

/// What a header line says of the content length, matching
/// `Content-Length: ` (see [`spec_length_field`]).
pub fn length_field(line: &str) -> (r: HeaderLength)
    ensures
        r == spec_length_field(line@),
{
    if !str_starts_with(line, "Content-Length: ") {
        return HeaderLength::NotLength;
    }
    proof { reveal_strlit("Content-Length: "); }
    let cs = chars_of(line);
    let mut rest: Vec<char> = Vec::new();
    let mut i: usize = 16;
    while i < cs.len()
        invariant
            16 <= i <= cs.len(),
            rest@ == cs@.subrange(16, i as int),
        decreases cs.len() - i,
    {
        rest.push(cs[i]);
        assert(rest@ =~= cs@.subrange(16, i + 1));
        i = i + 1;
    }
    let trimmed = trim_chars(rest.as_slice());
    match parse_usize(trimmed.as_slice()) {
        Some(n) => HeaderLength::Length(n),
        None => HeaderLength::Invalid,
    }
}

/// Whether a header line is the empty line that ends the header block.
pub fn is_header_end(line: &str) -> (r: bool)
    ensures
        r == (line@ == "\r\n"@ || line@ == "\n"@),
{
    str_eq(line, "\r\n") || str_eq(line, "\n")
}

/// Why a header block gives no content length.
#[derive(Clone, Copy, Debug, PartialEq, Eq, Structural)]
pub enum FramingError {
    /// A content-length header's value is not a length.
    InvalidLength,
}

/// The content length a header block gives, read line by line: each
/// content-length header sets it, the first invalid one is an error, and
/// with none it is zero.
pub open spec fn spec_headers_content_length(headers: Seq<Seq<char>>) -> Result<usize, FramingError>
    decreases headers.len(),
{
    if headers.len() == 0 {
        Ok(0)
    } else {
        match spec_headers_content_length(headers.drop_last()) {
            Err(e) => Err(e),
            Ok(n) => match spec_header_length(headers.last()) {
                HeaderLength::NotLength => Ok(n),
                HeaderLength::Length(m) => Ok(m),
                HeaderLength::Invalid => Err(FramingError::InvalidLength),
            },
        }
    }
}

/// The content length a header block gives (see
/// [`spec_headers_content_length`]).
pub fn headers_content_length(headers: &Vec<String>) -> (r: Result<usize, FramingError>)
    ensures
        r == spec_headers_content_length(headers@.map_values(|h: String| h@)),
{
    let ghost hv = headers@.map_values(|h: String| h@);
    let mut n: usize = 0;
    let mut i: usize = 0;
    assert(hv.take(0) =~= Seq::<Seq<char>>::empty());
    while i < headers.len()
        invariant
            i <= headers.len(),
            hv == headers@.map_values(|h: String| h@),
            spec_headers_content_length(hv.take(i as int)) == Ok::<usize, FramingError>(n),
        decreases headers.len() - i,
    {
        assert(hv.take(i + 1).drop_last() =~= hv.take(i as int));
        assert(hv.take(i + 1).last() == headers@[i as int]@);
        match header_length(headers[i].as_str()) {
            HeaderLength::NotLength => {},
            HeaderLength::Length(m) => {
                n = m;
            },
            HeaderLength::Invalid => {
                proof { lemma_headers_error_sticks(hv, i + 1); }
                return Err(FramingError::InvalidLength);
            },
        }
        i = i + 1;
    }
    assert(hv.take(headers.len() as int) =~= hv);
    Ok(n)
}

/// Once a prefix of the header block is an error, the whole block is.
proof fn lemma_headers_error_sticks(hv: Seq<Seq<char>>, k: int)
    requires
        0 <= k <= hv.len(),
        spec_headers_content_length(hv.take(k)) == Err::<usize, FramingError>(FramingError::InvalidLength),
    ensures
        spec_headers_content_length(hv) == Err::<usize, FramingError>(FramingError::InvalidLength),
    decreases hv.len() - k,
{
    if k < hv.len() {
        assert(hv.take(k + 1).drop_last() =~= hv.take(k));
        lemma_headers_error_sticks(hv, k + 1);
    } else {
        assert(hv.take(k) =~= hv);
    }
}

/// The header block that precedes a message of `content`:
/// `Content-Length: <bytes>` and the empty line, each ended by `\r\n`.
pub open spec fn spec_message_header(content: Seq<char>) -> Seq<char> {
    "Content-Length: "@ + spec_decimal((encode_utf8(content).len() as usize) as nat) + seq!['\r', '\n', '\r', '\n']
}

/// The header block that precedes a message of `content`.
pub fn message_header(content: &str) -> (r: String)
    ensures
        r@ == spec_message_header(content@),
{
    let mut r = String::new();
    push_str(&mut r, "Content-Length: ");
    push_decimal(&mut r, content.len() as u64);
    string_push(&mut r, '\r');
    string_push(&mut r, '\n');
    string_push(&mut r, '\r');
    string_push(&mut r, '\n');
    assert(r@ =~= spec_message_header(content@));
    r
}

/// A space, a digit string and a line end trim to the digit string.
proof fn lemma_trim_number_line(d: Seq<char>)
    requires
        d.len() > 0,
        all_digits(d),
    ensures
        spec_trim(seq![' '] + d + seq!['\r', '\n']) == d,
{
    let s = seq![' '] + d + seq!['\r', '\n'];
    assert(s[0] == ' ');
    assert(s.drop_first() =~= d + seq!['\r', '\n']);
    assert(!spec_is_whitespace(d[0]));
    assert((d + seq!['\r', '\n'])[0] == d[0]);
    assert(leading_ws(d + seq!['\r', '\n']) == 0);
    assert(leading_ws(s) == 1);
    assert(s.last() == '\n');
    assert(s.drop_last() =~= seq![' '] + d + seq!['\r']);
    assert((seq![' '] + d + seq!['\r']).last() == '\r');
    assert((seq![' '] + d + seq!['\r']).drop_last() =~= seq![' '] + d);
    assert((seq![' '] + d).last() == d.last());
    assert(!spec_is_whitespace(d[d.len() - 1]));
    assert(trailing_ws(seq![' '] + d) == 0);
    assert(trailing_ws(seq![' '] + d + seq!['\r']) == 1);
    assert(trailing_ws(s) == 2);
    assert(s.subrange(1, s.len() - 2) =~= d);
}

/// A digit string and a line end trim to the digit string.
proof fn lemma_trim_number_end(d: Seq<char>)
    requires
        d.len() > 0,
        all_digits(d),
    ensures
        spec_trim(d + seq!['\r', '\n']) == d,
{
    let s = d + seq!['\r', '\n'];
    assert(s[0] == d[0]);
    assert(!spec_is_whitespace(d[0]));
    assert(leading_ws(s) == 0);
    assert(s.last() == '\n');
    assert(s.drop_last() =~= d + seq!['\r']);
    assert((d + seq!['\r']).last() == '\r');
    assert((d + seq!['\r']).drop_last() =~= d);
    assert(!spec_is_whitespace(d[d.len() - 1]));
    assert(trailing_ws(d) == 0);
    assert(trailing_ws(d + seq!['\r']) == 1);
    assert(trailing_ws(s) == 2);
    assert(s.subrange(0, s.len() - 2) =~= d);
}

/// The first line of the header block written before a message is read
/// back, by either reading of the length header, as the length written.
pub proof fn law_length_header_round_trip(n: usize)
    ensures
        spec_header_length("Content-Length: "@ + spec_decimal(n as nat) + seq!['\r', '\n']) == HeaderLength::Length(n),
        spec_length_field("Content-Length: "@ + spec_decimal(n as nat) + seq!['\r', '\n']) == HeaderLength::Length(n),
{
    reveal_strlit("Content-Length: ");
    reveal_strlit("Content-Length:");
    let d = spec_decimal(n as nat);
    lemma_decimal_digits(n as nat);
    let line = "Content-Length: "@ + d + seq!['\r', '\n'];
    let name = "Content-Length:"@;
    assert(line.subrange(0, name.len() as int) =~= name);
    let rest = line.subrange(name.len() as int, line.len() as int);
    assert(rest =~= seq![' '] + d + seq!['\r', '\n']);
    assert(rest[0] == ' ');
    assert(!has_prefix(rest, name)) by {
        if has_prefix(rest, name) {
            assert(rest.subrange(0, name.len() as int)[0] == name[0]);
        }
    }
    assert(strip_repeated(rest, name) == rest);
    assert(strip_repeated(line, name) == rest);
    lemma_trim_number_line(d);
    assert(spec_parse_usize(d) == Some(n)) by {
        if d.len() > 0 && d[0] == '+' {
            assert(all_digits(d));
        }
    }
    let field = "Content-Length: "@;
    assert(line.subrange(0, field.len() as int) =~= field);
    assert(line.subrange(16, line.len() as int) =~= d + seq!['\r', '\n']);
    lemma_trim_number_end(d);
}

} // verus!
