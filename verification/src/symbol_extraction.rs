//! Line-based symbol extraction helpers: prefix stripping and name cutting
//! as the simple (language-server-free) indexers do them.
use vstd::prelude::*;

use crate::text::{chars_match_at, chars_of, has_prefix};

verus! {

/// `s` with every leading repetition of the non-empty pattern `p` removed
/// (`str::trim_start_matches`).
pub open spec fn strip_prefix_all(s: Seq<char>, p: Seq<char>) -> Seq<char>
    decreases s.len(),
{
    if p.len() > 0 && has_prefix(s, p) {
        strip_prefix_all(s.subrange(p.len() as int, s.len() as int), p)
    } else {
        s
    }
}

/// Index of the first character of `s` that is one of `stops`, or the length.
pub open spec fn first_stop(s: Seq<char>, stops: Seq<char>, i: int) -> int
    decreases s.len() - i,
{
    if i < 0 || i >= s.len() {
        s.len() as int
    } else if stops.contains(s[i]) {
        i
    } else {
        first_stop(s, stops, i + 1)
    }
}

/// The part of `s` before the first character in `stops` (the first piece
/// of `str::split` on those characters).
pub open spec fn take_until(s: Seq<char>, stops: Seq<char>) -> Seq<char> {
    s.subrange(0, first_stop(s, stops, 0))
}

pub proof fn lemma_first_stop(s: Seq<char>, stops: Seq<char>, i: int)
    requires
        0 <= i <= s.len(),
    ensures
        i <= first_stop(s, stops, i) <= s.len(),
        first_stop(s, stops, i) < s.len() ==> stops.contains(s[first_stop(s, stops, i)]),
        forall|k: int| i <= k < first_stop(s, stops, i) ==> !stops.contains(s[k]),
    decreases s.len() - i,
{
    if i < s.len() && !stops.contains(s[i]) {
        lemma_first_stop(s, stops, i + 1);
    }
}

/// Position in `s`, from `start` on, after removing every leading repetition
/// of `p`.
fn strip_all_from(s: &[char], p: &[char], start: usize) -> (r: usize)
    requires
        start <= s.len(),
        p.len() > 0,
    ensures
        start <= r <= s.len(),
        s@.subrange(r as int, s.len() as int) == strip_prefix_all(s@.subrange(start as int, s.len() as int), p@),
    decreases s.len() - start,
{
    let ghost rest = s@.subrange(start as int, s.len() as int);
    let m = chars_match_at(s, p, start);
    proof {
        if has_prefix(rest, p@) {
            assert(rest.subrange(0, p.len() as int) =~= s@.subrange(start as int, start + p.len()));
        }
        if m {
            assert(rest.subrange(0, p.len() as int) =~= s@.subrange(start as int, start + p.len()));
        }
    }
    if m {
        proof {
            assert(rest.subrange(p.len() as int, rest.len() as int) =~= s@.subrange(start + p.len(), s.len() as int));
        }
        strip_all_from(s, p, start + p.len())
    } else {
        start
    }
}

/// Whether `c` is one of `stops`.
fn is_stop(c: char, stops: &[char]) -> (r: bool)
    ensures
        r == stops@.contains(c),
{
    let mut i: usize = 0;
    while i < stops.len()
        invariant
            i <= stops.len(),
            forall|j: int| 0 <= j < i ==> stops@[j] != c,
        decreases stops.len() - i,
    {
        if stops[i] == c {
            return true;
        }
        i = i + 1;
    }
    false
}

/// The name in `line` after stripping every leading `first` and then every
/// leading `second`, cut before the first of `stops`: always found, possibly
/// empty.
pub open spec fn spec_cut_name(line: Seq<char>, first: Seq<char>, second: Seq<char>, stops: Seq<char>) -> Seq<char> {
    take_until(strip_prefix_all(strip_prefix_all(line, first), second), stops)
}

/// See [`spec_cut_name`]; returns a slice of `line`.
pub fn cut_name<'a>(line: &'a str, first: &str, second: &str, stops: &[char]) -> (r: &'a str)
    requires
        first@.len() > 0,
        second@.len() > 0,
    ensures
        r@ == spec_cut_name(line@, first@, second@, stops@),
{
    let cs = chars_of(line);
    let f = chars_of(first);
    let s2 = chars_of(second);
    let a = strip_all_from(cs.as_slice(), f.as_slice(), 0);
    proof { assert(cs@.subrange(0, cs.len() as int) =~= cs@); }
    let b = strip_all_from(cs.as_slice(), s2.as_slice(), a);
    let ghost rest = cs@.subrange(b as int, cs.len() as int);
    let mut e = b;
    while e < cs.len() && !is_stop(cs[e], stops)
        invariant
            b <= e <= cs.len(),
            forall|k: int| b <= k < e ==> !stops@.contains(cs@[k]),
        decreases cs.len() - e,
    {
        e = e + 1;
    }
    proof {
        lemma_first_stop(rest, stops@, 0);
        let fs = first_stop(rest, stops@, 0);
        assert forall|k: int| 0 <= k < e - b implies !stops@.contains(rest[k]) by {
            assert(rest[k] == cs@[b + k]);
        }
        if e < cs.len() {
            assert(rest[e - b] == cs@[e as int]);
            assert(stops@.contains(rest[e - b]));
        }
        if fs < e - b {
            assert(rest[fs] == cs@[b + fs]);
        }
        assert(fs == e - b);
        assert(rest.subrange(0, fs) =~= cs@.subrange(b as int, e as int));
    }
    line.substring_char(b, e)
}

} // verus!
