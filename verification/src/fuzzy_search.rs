//! Fuzzy symbol search: exact, prefix, substring, in-order and capital
//! letter (abbreviation) matches, ranked by how close the match is.
use vstd::prelude::*;

use crate::graph::Symbol;
use crate::text::{
    chars_contain, chars_match_at, chars_of, char_is_uppercase, has_prefix, has_substring, occurs_at, spec_is_uppercase,
    spec_to_lowercase, spec_to_uppercase, str_to_lowercase, str_to_uppercase,
};

verus! {

/// `q` is a subsequence of `t`: its characters occur in `t` in order.
pub open spec fn is_subsequence(q: Seq<char>, t: Seq<char>) -> bool
    decreases t.len(),
{
    if q.len() == 0 {
        true
    } else if t.len() == 0 {
        false
    } else if q[0] == t[0] {
        is_subsequence(q.drop_first(), t.drop_first())
    } else {
        is_subsequence(q, t.drop_first())
    }
}

/// `idx` picks, in increasing order, a position of `t` for each character
/// of `q` that holds that character.
pub open spec fn embeds(q: Seq<char>, t: Seq<char>, idx: Seq<int>) -> bool {
    &&& idx.len() == q.len()
    &&& forall|k: int| 0 <= k < idx.len() ==> 0 <= #[trigger] idx[k] < t.len() && t[idx[k]] == q[k]
    &&& forall|a: int, b: int| 0 <= a < b < idx.len() ==> #[trigger] idx[a] < #[trigger] idx[b]
}

proof fn lemma_subsequence_embeds(q: Seq<char>, t: Seq<char>) -> (idx: Seq<int>)
    requires
        is_subsequence(q, t),
    ensures
        embeds(q, t, idx),
    decreases t.len(),
{
    if q.len() == 0 {
        Seq::empty()
    } else if q[0] == t[0] {
        let rest = lemma_subsequence_embeds(q.drop_first(), t.drop_first());
        let idx = seq![0int] + rest.map_values(|i: int| i + 1);
        assert forall|k: int| 0 <= k < idx.len() implies 0 <= #[trigger] idx[k] < t.len() && t[idx[k]] == q[k] by {
            if k > 0 {
                assert(idx[k] == rest[k - 1] + 1);
            }
        }
        assert forall|a: int, b: int| 0 <= a < b < idx.len() implies #[trigger] idx[a] < #[trigger] idx[b] by {
            if a > 0 {
                assert(idx[a] == rest[a - 1] + 1);
            }
            assert(idx[b] == rest[b - 1] + 1);
        }
        idx
    } else {
        let rest = lemma_subsequence_embeds(q, t.drop_first());
        let idx = rest.map_values(|i: int| i + 1);
        assert forall|k: int| 0 <= k < idx.len() implies 0 <= #[trigger] idx[k] < t.len() && t[idx[k]] == q[k] by {
            assert(idx[k] == rest[k] + 1);
        }
        assert forall|a: int, b: int| 0 <= a < b < idx.len() implies #[trigger] idx[a] < #[trigger] idx[b] by {
            assert(idx[a] == rest[a] + 1 && idx[b] == rest[b] + 1);
        }
        idx
    }
}

proof fn lemma_embeds_subsequence(q: Seq<char>, t: Seq<char>, idx: Seq<int>)
    requires
        embeds(q, t, idx),
    ensures
        is_subsequence(q, t),
    decreases t.len(),
{
    if q.len() > 0 {
        assert(0 <= idx[0] < t.len());
        if q[0] == t[0] {
            let rest = Seq::new((idx.len() - 1) as nat, |k: int| idx[k + 1] - 1);
            assert forall|k: int| 0 <= k < rest.len() implies 0 <= #[trigger] rest[k] < t.drop_first().len() && t.drop_first()[rest[k]] == q.drop_first()[k] by {
                assert(idx[0] < idx[k + 1]);
            }
            assert forall|a: int, b: int| 0 <= a < b < rest.len() implies #[trigger] rest[a] < #[trigger] rest[b] by {
                assert(idx[a + 1] < idx[b + 1]);
            }
            lemma_embeds_subsequence(q.drop_first(), t.drop_first(), rest);
        } else {
            assert(idx[0] != 0);
            let rest = Seq::new(idx.len(), |k: int| idx[k] - 1);
            assert forall|k: int| 0 <= k < rest.len() implies 0 <= #[trigger] rest[k] < t.drop_first().len() && t.drop_first()[rest[k]] == q[k] by {
                if k > 0 {
                    assert(idx[0] < idx[k]);
                }
            }
            assert forall|a: int, b: int| 0 <= a < b < rest.len() implies #[trigger] rest[a] < #[trigger] rest[b] by {
                assert(idx[a] < idx[b]);
            }
            lemma_embeds_subsequence(q, t.drop_first(), rest);
        }
    }
}

/// The query's characters occur in the target in order exactly when some
/// increasing choice of positions of the target spells the query. So the
/// empty query matches every target, and only the empty query matches an
/// empty target.
pub proof fn law_subsequence_positions(q: Seq<char>, t: Seq<char>)
    ensures
        is_subsequence(q, t) <==> exists|idx: Seq<int>| #[trigger] embeds(q, t, idx),
        is_subsequence(Seq::empty(), t),
        is_subsequence(q, Seq::empty()) <==> q.len() == 0,
{
    if is_subsequence(q, t) {
        let idx = lemma_subsequence_embeds(q, t);
    }
    if exists|idx: Seq<int>| #[trigger] embeds(q, t, idx) {
        let idx = choose|idx: Seq<int>| #[trigger] embeds(q, t, idx);
        lemma_embeds_subsequence(q, t, idx);
    }
}

/// The upper-case characters of `t`, in order.
pub open spec fn capitals(t: Seq<char>) -> Seq<char>
    decreases t.len(),
{
    if t.len() == 0 {
        Seq::empty()
    } else if spec_is_uppercase(t.last()) {
        capitals(t.drop_last()).push(t.last())
    } else {
        capitals(t.drop_last())
    }
}

/// Abbreviation match: the capitals of `target` equal the upper-cased query
/// or contain it as a subsequence.
pub open spec fn spec_abbreviation_match(query: Seq<char>, target: Seq<char>) -> bool {
    let q = spec_to_uppercase(query);
    let c = capitals(target);
    c == q || is_subsequence(q, c)
}

/// Whether the characters of `query` occur in `target` in order.
pub fn fuzzy_match(query: &str, target: &str) -> (r: bool)
    ensures
        r == is_subsequence(query@, target@),
{
    let q = chars_of(query);
    let t = chars_of(target);
    chars_subsequence(q.as_slice(), t.as_slice())
}

fn chars_subsequence(q: &[char], t: &[char]) -> (r: bool)
    ensures
        r == is_subsequence(q@, t@),
{
    let mut qi: usize = 0;
    let mut ti: usize = 0;
    proof {
        assert(q@.subrange(0, q.len() as int) =~= q@);
        assert(t@.subrange(0, t.len() as int) =~= t@);
    }
    while ti < t.len()
        invariant
            qi <= q.len(),
            ti <= t.len(),
            is_subsequence(q@, t@) == is_subsequence(q@.subrange(qi as int, q.len() as int), t@.subrange(ti as int, t.len() as int)),
        decreases t.len() - ti,
    {
        if qi == q.len() {
            return true;
        }
        let ghost qs = q@.subrange(qi as int, q.len() as int);
        let ghost ts = t@.subrange(ti as int, t.len() as int);
        proof {
            assert(qs.drop_first() =~= q@.subrange(qi + 1, q.len() as int));
            assert(ts.drop_first() =~= t@.subrange(ti + 1, t.len() as int));
            assert(qs[0] == q@[qi as int]);
            assert(ts[0] == t@[ti as int]);
        }
        if q[qi] == t[ti] {
            qi = qi + 1;
        }
        ti = ti + 1;
    }
    qi == q.len()
}

/// Whether `query`, upper-cased, matches the capital letters of `target`
/// exactly or as a subsequence.
pub fn abbreviation_match(query: &str, target: &str) -> (r: bool)
    ensures
        r == spec_abbreviation_match(query@, target@),
{
    let qu = str_to_uppercase(query);
    let q = chars_of(qu.as_str());
    let t = chars_of(target);
    let mut caps: Vec<char> = Vec::new();
    let mut i: usize = 0;
    while i < t.len()
        invariant
            i <= t.len(),
            caps@ == capitals(t@.subrange(0, i as int)),
        decreases t.len() - i,
    {
        proof { assert(t@.subrange(0, i + 1).drop_last() =~= t@.subrange(0, i as int)); }
        if char_is_uppercase(t[i]) {
            caps.push(t[i]);
        }
        i = i + 1;
    }
    proof { assert(t@.subrange(0, t.len() as int) =~= t@); }
    let eq = caps.len() == q.len() && chars_match_at(caps.as_slice(), q.as_slice(), 0);
    proof {
        if caps.len() == q.len() {
            assert(caps@.subrange(0, q.len() as int) =~= caps@);
        }
    }
    eq || chars_subsequence(q.as_slice(), caps.as_slice())
}

/// A search hit: the symbol and its score in hundredths (100 for an exact
/// name match, 90 prefix, 70 substring, 60 abbreviation, 50 in-order
/// characters).
#[derive(Debug, Clone, Copy)]
pub struct FuzzyMatch<'a> {
    pub symbol: &'a Symbol,
    pub score: u32,
}

/// The score of `name` for `query`, if it matches: names and query are
/// compared in lower case, except for the abbreviation match.
pub open spec fn spec_score(query: Seq<char>, name: Seq<char>) -> Option<u32> {
    let q = spec_to_lowercase(query);
    let n = spec_to_lowercase(name);
    if n == q {
        Some(100u32)
    } else if has_prefix(n, q) {
        Some(90u32)
    } else if has_substring(n, q) {
        Some(70u32)
    } else if is_subsequence(q, n) {
        Some(50u32)
    } else if spec_abbreviation_match(query, name) {
        Some(60u32)
    } else {
        None
    }
}

/// The symbols whose score is `k`, in input order.
pub open spec fn scored(query: Seq<char>, symbols: Seq<Symbol>, k: u32) -> Seq<Symbol>
    decreases symbols.len(),
{
    if symbols.len() == 0 {
        Seq::empty()
    } else {
        let rest = scored(query, symbols.drop_last(), k);
        if spec_score(query, symbols.last().name@) == Some(k) {
            rest.push(symbols.last())
        } else {
            rest
        }
    }
}

/// The ranking: all symbols scoring 100, then 90, 70, 60 and 50, each group
/// in input order (the order a stable sort by descending score gives).
pub open spec fn ranked(query: Seq<char>, symbols: Seq<Symbol>) -> Seq<Symbol> {
    scored(query, symbols, 100) + scored(query, symbols, 90) + scored(query, symbols, 70) + scored(query, symbols, 60)
        + scored(query, symbols, 50)
}

/// The score of each hit of [`ranked`], in the same order.
pub open spec fn ranked_scores(query: Seq<char>, symbols: Seq<Symbol>) -> Seq<u32> {
    Seq::new(scored(query, symbols, 100).len(), |i: int| 100u32) + Seq::new(scored(query, symbols, 90).len(), |i: int| 90u32)
        + Seq::new(scored(query, symbols, 70).len(), |i: int| 70u32) + Seq::new(scored(query, symbols, 60).len(), |i: int| 60u32)
        + Seq::new(scored(query, symbols, 50).len(), |i: int| 50u32)
}

fn score_of(query_lower: &[char], query: &str, symbol: &Symbol) -> (r: Option<u32>)
    requires
        query_lower@ == spec_to_lowercase(query@),
    ensures
        r == spec_score(query@, symbol.name@),
{
    let nl = str_to_lowercase(symbol.name.as_str());
    let n = chars_of(nl.as_str());
    let same = n.len() == query_lower.len() && chars_match_at(n.as_slice(), query_lower, 0);
    proof {
        if n.len() == query_lower.len() {
            assert(n@.subrange(0, n.len() as int) =~= n@);
        }
    }
    if same {
        return Some(100);
    }
    if chars_match_at(n.as_slice(), query_lower, 0) {
        return Some(90);
    }
    if chars_contain(n.as_slice(), query_lower) {
        return Some(70);
    }
    if chars_subsequence(query_lower, n.as_slice()) {
        return Some(50);
    }
    if abbreviation_match(query, symbol.name.as_str()) {
        return Some(60);
    }
    None
}

/// Appends the hits scoring `k`, in input order.
fn append_scored<'a>(out: &mut Vec<FuzzyMatch<'a>>, symbols: &'a [Symbol], scores: &Vec<Option<u32>>, k: u32, Ghost(query): Ghost<Seq<char>>)
    requires
        scores.len() == symbols.len(),
        forall|i: int| 0 <= i < symbols.len() ==> scores@[i] == spec_score(query, #[trigger] symbols@[i].name@),
    ensures
        final(out).len() == old(out).len() + scored(query, symbols@, k).len(),
        forall|i: int| 0 <= i < old(out).len() ==> final(out)@[i] == old(out)@[i],
        forall|i: int| 0 <= i < scored(query, symbols@, k).len() ==> *final(out)@[old(out).len() + i].symbol == scored(query, symbols@, k)[i]
            && final(out)@[old(out).len() + i].score == k,
{
    let ghost base = out@;
    let mut i: usize = 0;
    while i < symbols.len()
        invariant
            i <= symbols.len(),
            scores.len() == symbols.len(),
            forall|j: int| 0 <= j < symbols.len() ==> scores@[j] == spec_score(query, #[trigger] symbols@[j].name@),
            out.len() == base.len() + scored(query, symbols@.subrange(0, i as int), k).len(),
            forall|j: int| 0 <= j < base.len() ==> out@[j] == base[j],
            forall|j: int| 0 <= j < scored(query, symbols@.subrange(0, i as int), k).len() ==> *out@[base.len() + j].symbol
                == scored(query, symbols@.subrange(0, i as int), k)[j] && out@[base.len() + j].score == k,
        decreases symbols.len() - i,
    {
        proof {
            assert(symbols@.subrange(0, i + 1).drop_last() =~= symbols@.subrange(0, i as int));
            assert(symbols@.subrange(0, i + 1).last() == symbols@[i as int]);
        }
        if scores[i] == Some(k) {
            out.push(FuzzyMatch { symbol: &symbols[i], score: k });
        }
        i = i + 1;
    }
    proof { assert(symbols@.subrange(0, symbols.len() as int) =~= symbols@); }
}

/// All symbols matching `query`, best first: see [`ranked`] and
/// [`ranked_scores`].
pub fn fuzzy_search<'a>(query: &str, symbols: &'a [Symbol]) -> (r: Vec<FuzzyMatch<'a>>)
    ensures
        r.len() == ranked(query@, symbols@).len(),
        forall|i: int| 0 <= i < r.len() ==> *r@[i].symbol == ranked(query@, symbols@)[i] && r@[i].score == ranked_scores(query@, symbols@)[i],
{
    let ql = str_to_lowercase(query);
    let q = chars_of(ql.as_str());
    let mut scores: Vec<Option<u32>> = Vec::new();
    let mut i: usize = 0;
    while i < symbols.len()
        invariant
            i <= symbols.len(),
            q@ == spec_to_lowercase(query@),
            scores.len() == i,
            forall|j: int| 0 <= j < i ==> scores@[j] == spec_score(query@, #[trigger] symbols@[j].name@),
        decreases symbols.len() - i,
    {
        scores.push(score_of(q.as_slice(), query, &symbols[i]));
        i = i + 1;
    }
    let mut r: Vec<FuzzyMatch<'a>> = Vec::new();
    let ghost g = query@;
    append_scored(&mut r, symbols, &scores, 100, Ghost(g));
    let ghost r1 = r@;
    append_scored(&mut r, symbols, &scores, 90, Ghost(g));
    let ghost r2 = r@;
    append_scored(&mut r, symbols, &scores, 70, Ghost(g));
    let ghost r3 = r@;
    append_scored(&mut r, symbols, &scores, 60, Ghost(g));
    let ghost r4 = r@;
    append_scored(&mut r, symbols, &scores, 50, Ghost(g));
    proof {
        let s = symbols@;
        let a = scored(g, s, 100);
        let b = scored(g, s, 90);
        let c = scored(g, s, 70);
        let d = scored(g, s, 60);
        let e = scored(g, s, 50);
        assert forall|i: int| 0 <= i < r.len() implies *r@[i].symbol == ranked(g, s)[i] && r@[i].score == ranked_scores(g, s)[i] by {
            if i < a.len() {
            } else if i < a.len() + b.len() {
                assert(r@[i] == r2[i]);
            } else if i < a.len() + b.len() + c.len() {
                assert(r@[i] == r3[i]);
            } else if i < a.len() + b.len() + c.len() + d.len() {
                assert(r@[i] == r4[i]);
            } else {
            }
        }
    }
    r
}

proof fn lemma_scored_members(query: Seq<char>, symbols: Seq<Symbol>, k: u32)
    ensures
        forall|s: Symbol| #[trigger] scored(query, symbols, k).contains(s) <==> symbols.contains(s) && spec_score(query, s.name@) == Some(k),
        forall|i: int| 0 <= i < scored(query, symbols, k).len() ==> spec_score(query, (#[trigger] scored(query, symbols, k)[i]).name@) == Some(k),
    decreases symbols.len(),
{
    if symbols.len() > 0 {
        let t = symbols.drop_last();
        let x = symbols.last();
        lemma_scored_members(query, t, k);
        assert(t.push(x) =~= symbols);
        let rest = scored(query, t, k);
        assert forall|s: Symbol| #[trigger] scored(query, symbols, k).contains(s) <==> symbols.contains(s) && spec_score(query, s.name@) == Some(k) by {
            if symbols.contains(s) && spec_score(query, s.name@) == Some(k) {
                let j = choose|j: int| 0 <= j < symbols.len() && symbols[j] == s;
                if j < t.len() {
                    assert(t[j] == s);
                    assert(t.contains(s));
                    assert(rest.contains(s));
                    let jj = choose|jj: int| 0 <= jj < rest.len() && rest[jj] == s;
                    if spec_score(query, x.name@) == Some(k) {
                        assert(rest.push(x)[jj] == s);
                        assert(scored(query, symbols, k) == rest.push(x));
                    } else {
                        assert(scored(query, symbols, k) == rest);
                    }
                } else {
                    assert(s == x);
                    assert(rest.push(x)[rest.len() as int] == s);
                }
            }
            if scored(query, symbols, k).contains(s) {
                let j = choose|j: int| 0 <= j < scored(query, symbols, k).len() && scored(query, symbols, k)[j] == s;
                if j < rest.len() {
                    assert(scored(query, symbols, k)[j] == rest[j]);
                    assert(rest.contains(s));
                    let jj = choose|jj: int| 0 <= jj < t.len() && t[jj] == s;
                    assert(symbols[jj] == s);
                } else {
                    assert(s == x);
                    assert(symbols[symbols.len() - 1] == s);
                }
            }
        }
        assert forall|i: int| 0 <= i < scored(query, symbols, k).len() implies spec_score(query, (#[trigger] scored(query, symbols, k)[i]).name@) == Some(k) by {
            if i < rest.len() {
                assert(scored(query, symbols, k)[i] == rest[i]);
            }
        }
    }
}

/// Fuzzy search finds exactly the symbols that score: a symbol is among the
/// hits when it is among the input symbols and its name matches the query
/// (see [`spec_score`]), and each hit comes with its own score.
pub proof fn law_hits_are_the_matches(query: Seq<char>, symbols: Seq<Symbol>, s: Symbol, i: int)
    ensures
        ranked(query, symbols).contains(s) <==> symbols.contains(s) && spec_score(query, s.name@) is Some,
        0 <= i < ranked(query, symbols).len() ==> spec_score(query, ranked(query, symbols)[i].name@) == Some(ranked_scores(query, symbols)[i]),
        ranked(query, symbols).len() == ranked_scores(query, symbols).len(),
{
    let a = scored(query, symbols, 100);
    let b = scored(query, symbols, 90);
    let c = scored(query, symbols, 70);
    let d = scored(query, symbols, 60);
    let e = scored(query, symbols, 50);
    lemma_scored_members(query, symbols, 100);
    lemma_scored_members(query, symbols, 90);
    lemma_scored_members(query, symbols, 70);
    lemma_scored_members(query, symbols, 60);
    lemma_scored_members(query, symbols, 50);
    let r = ranked(query, symbols);
    assert(r == a + b + c + d + e);
    let sa = Seq::new(a.len(), |k: int| 100u32);
    let sb = Seq::new(b.len(), |k: int| 90u32);
    let sc = Seq::new(c.len(), |k: int| 70u32);
    let sd = Seq::new(d.len(), |k: int| 60u32);
    let se = Seq::new(e.len(), |k: int| 50u32);
    let rs = ranked_scores(query, symbols);
    assert(rs == sa + sb + sc + sd + se);
    if r.contains(s) {
        let j = choose|j: int| 0 <= j < r.len() && r[j] == s;
        if j < a.len() {
            assert(r[j] == a[j]);
            assert(a.contains(s));
        } else if j < a.len() + b.len() {
            assert(r[j] == b[j - a.len()]);
            assert(b.contains(s));
        } else if j < a.len() + b.len() + c.len() {
            assert(r[j] == c[j - a.len() - b.len()]);
            assert(c.contains(s));
        } else if j < a.len() + b.len() + c.len() + d.len() {
            assert(r[j] == d[j - a.len() - b.len() - c.len()]);
            assert(d.contains(s));
        } else {
            assert(r[j] == e[j - a.len() - b.len() - c.len() - d.len()]);
            assert(e.contains(s));
        }
    }
    if symbols.contains(s) && spec_score(query, s.name@) is Some {
        let k = spec_score(query, s.name@).unwrap();
        if k == 100 {
            assert(a.contains(s));
            let j = choose|j: int| 0 <= j < a.len() && a[j] == s;
            assert((a + b + c + d + e)[j] == s);
        } else if k == 90 {
            assert(b.contains(s));
            let j = choose|j: int| 0 <= j < b.len() && b[j] == s;
            assert((a + b + c + d + e)[a.len() + j] == s);
        } else if k == 70 {
            assert(c.contains(s));
            let j = choose|j: int| 0 <= j < c.len() && c[j] == s;
            assert((a + b + c + d + e)[a.len() + b.len() + j] == s);
        } else if k == 60 {
            assert(d.contains(s));
            let j = choose|j: int| 0 <= j < d.len() && d[j] == s;
            assert((a + b + c + d + e)[a.len() + b.len() + c.len() + j] == s);
        } else {
            assert(k == 50);
            assert(e.contains(s));
            let j = choose|j: int| 0 <= j < e.len() && e[j] == s;
            assert((a + b + c + d + e)[a.len() + b.len() + c.len() + d.len() + j] == s);
        }
    }
    if 0 <= i < r.len() {
        if i < a.len() {
            assert(r[i] == a[i] && rs[i] == 100);
        } else if i < a.len() + b.len() {
            assert(r[i] == b[i - a.len()] && rs[i] == 90);
        } else if i < a.len() + b.len() + c.len() {
            assert(r[i] == c[i - a.len() - b.len()] && rs[i] == 70);
        } else if i < a.len() + b.len() + c.len() + d.len() {
            assert(r[i] == d[i - a.len() - b.len() - c.len()] && rs[i] == 60);
        } else {
            assert(r[i] == e[i - a.len() - b.len() - c.len() - d.len()] && rs[i] == 50);
        }
    }
}

/// Every name whose lower-case form holds the lower-case query in order
/// scores: as an in-order match (50) when it is not an exact, prefix or
/// substring match, and higher otherwise; the first letters need not agree.
/// A symbol so named among the input symbols is a hit of fuzzy search.
pub proof fn law_in_order_letters_match(query: Seq<char>, name: Seq<char>, symbols: Seq<Symbol>, s: Symbol)
    ensures
        is_subsequence(spec_to_lowercase(query), spec_to_lowercase(name)) ==> spec_score(query, name) is Some,
        is_subsequence(spec_to_lowercase(query), spec_to_lowercase(name))
            && !has_substring(spec_to_lowercase(name), spec_to_lowercase(query)) ==> spec_score(query, name) == Some(50u32),
        has_substring(spec_to_lowercase(name), spec_to_lowercase(query)) ==> (spec_score(query, name) matches Some(k) && k >= 70),
        symbols.contains(s) && is_subsequence(spec_to_lowercase(query), spec_to_lowercase(s.name@)) ==> ranked(query, symbols).contains(s),
{
    let q = spec_to_lowercase(query);
    let n = spec_to_lowercase(name);
    if n == q {
        assert(n.subrange(0, q.len() as int) =~= n);
        assert(occurs_at(n, q, 0));
    }
    if has_prefix(n, q) {
        assert(occurs_at(n, q, 0));
    }
    law_hits_are_the_matches(query, symbols, s, 0);
}

/// How a name is scored against a query, both compared in lower case: the
/// same text scores 100; a name that starts with the query, 90; one that
/// holds it elsewhere, 70; one that holds its letters in order, 50; a name
/// whose capitals abbreviate the query, 60; and any other name does not
/// match.
pub proof fn law_score_tiers(query: Seq<char>, name: Seq<char>)
    ensures
        spec_to_lowercase(name) == spec_to_lowercase(query) ==> spec_score(query, name) == Some(100u32),
        spec_to_lowercase(name) != spec_to_lowercase(query) && has_prefix(spec_to_lowercase(name), spec_to_lowercase(query))
            ==> spec_score(query, name) == Some(90u32),
        !has_prefix(spec_to_lowercase(name), spec_to_lowercase(query)) && has_substring(spec_to_lowercase(name), spec_to_lowercase(query))
            ==> spec_score(query, name) == Some(70u32),
        !is_subsequence(spec_to_lowercase(query), spec_to_lowercase(name)) && spec_abbreviation_match(query, name)
            ==> spec_score(query, name) == Some(60u32),
        !is_subsequence(spec_to_lowercase(query), spec_to_lowercase(name)) && !spec_abbreviation_match(query, name)
            ==> spec_score(query, name) is None,
{
    let q = spec_to_lowercase(query);
    let n = spec_to_lowercase(name);
    if n == q {
        assert(n.subrange(0, q.len() as int) =~= n);
        assert(occurs_at(n, q, 0));
    }
    if has_prefix(n, q) {
        assert(occurs_at(n, q, 0));
    }
    if has_substring(n, q) {
        let i = choose|i: int| occurs_at(n, q, i);
        lemma_substring_in_order(n, q, i);
    }
}

proof fn lemma_substring_in_order(n: Seq<char>, q: Seq<char>, i: int)
    requires
        occurs_at(n, q, i),
    ensures
        is_subsequence(q, n),
{
    let idx = Seq::new(q.len(), |k: int| i + k);
    assert(embeds(q, n, idx));
    lemma_embeds_subsequence(q, n, idx);
}

/// Fuzzy search ranks best first: the scores of its hits never increase
/// along the list.
pub proof fn law_ranked_best_first(query: Seq<char>, symbols: Seq<Symbol>, i: int, j: int)
    requires
        0 <= i < j < ranked_scores(query, symbols).len(),
    ensures
        ranked_scores(query, symbols)[i] >= ranked_scores(query, symbols)[j],
{
    let a = scored(query, symbols, 100).len() as int;
    let b = scored(query, symbols, 90).len() as int;
    let c = scored(query, symbols, 70).len() as int;
    let d = scored(query, symbols, 60).len() as int;
    let e = scored(query, symbols, 50).len() as int;
    let s1 = Seq::new(a as nat, |k: int| 100u32);
    let s2 = Seq::new(b as nat, |k: int| 90u32);
    let s3 = Seq::new(c as nat, |k: int| 70u32);
    let s4 = Seq::new(d as nat, |k: int| 60u32);
    let s5 = Seq::new(e as nat, |k: int| 50u32);
    let r = ranked_scores(query, symbols);
    assert(r == s1 + s2 + s3 + s4 + s5);
    assert forall|k: int| 0 <= k < r.len() implies #[trigger] r[k] == if k < a { 100u32 } else if k < a + b { 90u32 } else if k < a + b + c {
        70u32
    } else if k < a + b + c + d {
        60u32
    } else {
        50u32
    } by {
        if k < a + b + c + d {
            assert(r[k] == (s1 + s2 + s3 + s4)[k]);
            if k < a + b + c {
                assert((s1 + s2 + s3 + s4)[k] == (s1 + s2 + s3)[k]);
                if k < a + b {
                    assert((s1 + s2 + s3)[k] == (s1 + s2)[k]);
                }
            }
        }
    }
    assert(r[i] == if i < a { 100u32 } else if i < a + b { 90u32 } else if i < a + b + c { 70u32 } else if i < a + b + c + d { 60u32 } else { 50u32 });
    assert(r[j] == if j < a { 100u32 } else if j < a + b { 90u32 } else if j < a + b + c { 70u32 } else if j < a + b + c + d { 60u32 } else { 50u32 });
}

} // verus!
