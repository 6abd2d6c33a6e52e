//! Results of the textual reference search: each found occurrence with
//! whether it is a definition, and the final list, which keeps one
//! occurrence per place and orders them by file, line and character.
use vstd::prelude::*;

use crate::graph::Symbol;
use crate::text::{lemma_seq_lt_asym, lemma_seq_lt_total, lemma_seq_lt_trans, seq_lt, str_eq, str_lt};

verus! {

/// An occurrence of a searched name.
#[derive(Debug)]
pub struct Reference {
    pub symbol: Symbol,
    pub is_definition: bool,
}

impl Clone for Reference {
    fn clone(&self) -> (r: Self)
        ensures
            r == *self,
    {
        Reference { symbol: self.symbol.clone(), is_definition: self.is_definition }
    }
}

/// The place of an occurrence: file, line and character of its start.
pub open spec fn loc(r: Reference) -> (Seq<char>, u32, u32) {
    (r.symbol.file_path@, r.symbol.range.start.line, r.symbol.range.start.character)
}

/// The order of places: by file path, then line, then character.
pub open spec fn loc_lt(a: (Seq<char>, u32, u32), b: (Seq<char>, u32, u32)) -> bool {
    seq_lt(a.0, b.0) || (a.0 == b.0 && (a.1 < b.1 || (a.1 == b.1 && a.2 < b.2)))
}

proof fn lemma_loc_lt(a: (Seq<char>, u32, u32), b: (Seq<char>, u32, u32), c: (Seq<char>, u32, u32))
    ensures
        !loc_lt(a, a),
        loc_lt(a, b) ==> !loc_lt(b, a),
        loc_lt(a, b) && loc_lt(b, c) ==> loc_lt(a, c),
        a == b || loc_lt(a, b) || loc_lt(b, a),
{
    lemma_seq_lt_asym(a.0, b.0);
    lemma_seq_lt_total(a.0, b.0);
    if seq_lt(a.0, b.0) && seq_lt(b.0, c.0) {
        lemma_seq_lt_trans(a.0, b.0, c.0);
    }
}

/// `refs[i]` is the first of the references at its place.
pub open spec fn first_at_place(refs: Seq<Reference>, i: int) -> bool {
    forall|k: int| 0 <= k < i ==> loc(#[trigger] refs[k]) != loc(refs[i])
}

/// Strictly increasing by place.
pub open spec fn sorted_by_place(s: Seq<Reference>) -> bool {
    forall|i: int, j: int| 0 <= i < j < s.len() ==> loc_lt(loc(#[trigger] s[i]), loc(#[trigger] s[j]))
}

fn place_lt(a: &Reference, b: &Reference) -> (r: bool)
    ensures
        r == loc_lt(loc(*a), loc(*b)),
{
    let fa = a.symbol.file_path.as_str();
    let fb = b.symbol.file_path.as_str();
    if str_lt(fa, fb) {
        return true;
    }
    if !str_eq(fa, fb) {
        return false;
    }
    a.symbol.range.start.line < b.symbol.range.start.line || (a.symbol.range.start.line == b.symbol.range.start.line
        && a.symbol.range.start.character < b.symbol.range.start.character)
}

fn same_place(a: &Reference, b: &Reference) -> (r: bool)
    ensures
        r == (loc(*a) == loc(*b)),
{
    str_eq(a.symbol.file_path.as_str(), b.symbol.file_path.as_str()) && a.symbol.range.start.line == b.symbol.range.start.line
        && a.symbol.range.start.character == b.symbol.range.start.character
}

/// Inserts `x` at its place in a list sorted by place, unless a reference
/// at that place is already listed; returns whether it inserted.
fn insert_at_place(out: &mut Vec<Reference>, x: &Reference) -> (inserted: bool)
    requires
        sorted_by_place(old(out)@),
    ensures
        sorted_by_place(final(out)@),
        inserted == forall|i: int| 0 <= i < old(out).len() ==> loc(#[trigger] old(out)@[i]) != loc(*x),
        !inserted ==> final(out)@ == old(out)@,
        inserted ==> exists|k: int| 0 <= k <= old(out).len() && final(out)@ == old(out)@.insert(k, *x),
{
    let ghost old_out = out@;
    let mut k: usize = 0;
    while k < out.len() && place_lt(&out[k], x)
        invariant
            out@ == old_out,
            k <= out.len(),
            forall|m: int| 0 <= m < k ==> loc_lt(loc(#[trigger] out@[m]), loc(*x)),
        decreases out.len() - k,
    {
        k = k + 1;
    }
    if k < out.len() && same_place(&out[k], x) {
        return false;
    }
    proof {
        if k < out.len() {
            lemma_loc_lt(loc(out@[k as int]), loc(*x), loc(*x));
        }
        assert forall|i: int| 0 <= i < old_out.len() implies loc(#[trigger] old_out[i]) != loc(*x) by {
            if i < k {
                lemma_loc_lt(loc(old_out[i]), loc(*x), loc(*x));
            } else if i > k {
                lemma_loc_lt(loc(old_out[k as int]), loc(old_out[i]), loc(*x));
                lemma_loc_lt(loc(old_out[i]), loc(*x), loc(*x));
            }
        }
    }
    out.insert(k, x.clone());
    proof {
        let n = out@;
        assert(n == old_out.insert(k as int, *x));
        assert forall|a: int, b: int| 0 <= a < b < n.len() implies loc_lt(loc(#[trigger] n[a]), loc(#[trigger] n[b])) by {
            if b < k {
                assert(n[a] == old_out[a] && n[b] == old_out[b]);
            } else if b == k {
                assert(n[a] == old_out[a]);
            } else if a == k {
                assert(n[b] == old_out[b - 1]);
                if b - 1 > k {
                    assert(loc_lt(loc(old_out[k as int]), loc(old_out[b - 1])));
                    lemma_loc_lt(loc(*x), loc(old_out[k as int]), loc(old_out[b - 1]));
                }
            } else if a < k {
                assert(n[a] == old_out[a] && n[b] == old_out[b - 1]);
            } else {
                assert(n[a] == old_out[a - 1] && n[b] == old_out[b - 1]);
            }
        }
    }
    true
}

/// `out[i]` is the reference `refs[t]`, the first at its place.
pub open spec fn kept_from(refs: Seq<Reference>, out: Seq<Reference>, i: int, t: int) -> bool {
    0 <= t < refs.len() && first_at_place(refs, t) && 0 <= i < out.len() && out[i] == refs[t]
}

/// `out[i]` sits at the place of `refs[t]`.
pub open spec fn kept_at(refs: Seq<Reference>, out: Seq<Reference>, i: int, t: int) -> bool {
    0 <= i < out.len() && 0 <= t < refs.len() && loc(out[i]) == loc(refs[t])
}

/// `out[i]` is one of the first `j` references, the first at its place.
pub open spec fn kept_source(refs: Seq<Reference>, out: Seq<Reference>, j: int, i: int) -> bool {
    exists|t: int| #[trigger] kept_from(refs, out, i, t) && t < j
}

/// Some kept reference sits at the place of `refs[t]`.
pub open spec fn place_kept(refs: Seq<Reference>, out: Seq<Reference>, t: int) -> bool {
    exists|i: int| #[trigger] kept_at(refs, out, i, t)
}

/// `refs[t]` itself is kept.
pub open spec fn ref_kept(refs: Seq<Reference>, out: Seq<Reference>, t: int) -> bool {
    exists|i: int| #[trigger] kept_from(refs, out, i, t)
}

/// What the list kept so far holds after the first `j` references.
pub open spec fn kept_invariant(refs: Seq<Reference>, out: Seq<Reference>, j: int) -> bool {
    &&& forall|i: int| 0 <= i < out.len() ==> #[trigger] kept_source(refs, out, j, i)
    &&& forall|t: int| 0 <= t < j ==> #[trigger] place_kept(refs, out, t)
    &&& forall|t: int| 0 <= t < j && first_at_place(refs, t) ==> #[trigger] ref_kept(refs, out, t)
}

proof fn lemma_kept_skip(refs: Seq<Reference>, out: Seq<Reference>, j: int, i0: int)
    requires
        0 <= j < refs.len(),
        kept_invariant(refs, out, j),
        0 <= i0 < out.len(),
        loc(out[i0]) == loc(refs[j]),
    ensures
        kept_invariant(refs, out, j + 1),
{
    assert(kept_source(refs, out, j, i0));
    let t0 = choose|t0: int| #[trigger] kept_from(refs, out, i0, t0) && t0 < j;
    assert(loc(refs[t0]) == loc(refs[j]));
    assert(!first_at_place(refs, j));
    assert(kept_at(refs, out, i0, j));
    assert forall|i: int| 0 <= i < out.len() implies #[trigger] kept_source(refs, out, j + 1, i) by {
        assert(kept_source(refs, out, j, i));
        let t = choose|t: int| #[trigger] kept_from(refs, out, i, t) && t < j;
        assert(kept_from(refs, out, i, t) && t < j + 1);
    }
}

proof fn lemma_kept_insert(refs: Seq<Reference>, out: Seq<Reference>, j: int, k: int)
    requires
        0 <= j < refs.len(),
        kept_invariant(refs, out, j),
        forall|i: int| 0 <= i < out.len() ==> loc(#[trigger] out[i]) != loc(refs[j]),
        0 <= k <= out.len(),
    ensures
        first_at_place(refs, j),
        kept_invariant(refs, out.insert(k, refs[j]), j + 1),
{
    let n = out.insert(k, refs[j]);
    assert forall|t: int| 0 <= t < j implies loc(#[trigger] refs[t]) != loc(refs[j]) by {
        assert(place_kept(refs, out, t));
        let i = choose|i: int| #[trigger] kept_at(refs, out, i, t);
        assert(loc(out[i]) == loc(refs[t]));
    }
    assert(first_at_place(refs, j));
    assert forall|i: int| 0 <= i < n.len() implies #[trigger] kept_source(refs, n, j + 1, i) by {
        if i < k {
            assert(kept_source(refs, out, j, i));
            let t = choose|t: int| #[trigger] kept_from(refs, out, i, t) && t < j;
            assert(n[i] == out[i]);
            assert(kept_from(refs, n, i, t));
        } else if i == k {
            assert(kept_from(refs, n, i, j));
        } else {
            assert(kept_source(refs, out, j, i - 1));
            let t = choose|t: int| #[trigger] kept_from(refs, out, i - 1, t) && t < j;
            assert(n[i] == out[i - 1]);
            assert(kept_from(refs, n, i, t));
        }
    }
    assert forall|t: int| 0 <= t < j + 1 implies #[trigger] place_kept(refs, n, t) by {
        if t == j {
            assert(kept_at(refs, n, k, t));
        } else {
            assert(place_kept(refs, out, t));
            let i = choose|i: int| #[trigger] kept_at(refs, out, i, t);
            if i < k {
                assert(n[i] == out[i]);
                assert(kept_at(refs, n, i, t));
            } else {
                assert(n[i + 1] == out[i]);
                assert(kept_at(refs, n, i + 1, t));
            }
        }
    }
    assert forall|t: int| 0 <= t < j + 1 && first_at_place(refs, t) implies #[trigger] ref_kept(refs, n, t) by {
        if t == j {
            assert(kept_from(refs, n, k, t));
        } else {
            assert(ref_kept(refs, out, t));
            let i = choose|i: int| #[trigger] kept_from(refs, out, i, t);
            if i < k {
                assert(n[i] == out[i]);
                assert(kept_from(refs, n, i, t));
            } else {
                assert(n[i + 1] == out[i]);
                assert(kept_from(refs, n, i + 1, t));
            }
        }
    }
}

/// The final list of a reference search: of the references at one place
/// only the first is kept, and the kept ones are ordered by file path, then
/// line, then character.
pub fn dedup_and_sort(refs: &Vec<Reference>) -> (r: Vec<Reference>)
    ensures
        sorted_by_place(r@),
        forall|i: int| 0 <= i < r.len() ==> #[trigger] kept_source(refs@, r@, refs.len() as int, i),
        forall|j: int| 0 <= j < refs.len() && first_at_place(refs@, j) ==> #[trigger] ref_kept(refs@, r@, j),
{
    let mut out: Vec<Reference> = Vec::new();
    let mut j: usize = 0;
    while j < refs.len()
        invariant
            j <= refs.len(),
            sorted_by_place(out@),
            kept_invariant(refs@, out@, j as int),
        decreases refs.len() - j,
    {
        let ghost before = out@;
        let inserted = insert_at_place(&mut out, &refs[j]);
        proof {
            if inserted {
                let k = choose|k: int| 0 <= k <= before.len() && out@ == before.insert(k, refs@[j as int]);
                lemma_kept_insert(refs@, before, j as int, k);
            } else {
                let i0 = choose|i: int| 0 <= i < before.len() && loc(#[trigger] before[i]) == loc(refs@[j as int]);
                lemma_kept_skip(refs@, before, j as int, i0);
            }
        }
        j = j + 1;
    }
    out
}

/// The final list of a reference search holds at most one reference per
/// place.
pub proof fn law_one_reference_per_place(s: Seq<Reference>, i: int, j: int)
    requires
        sorted_by_place(s),
        0 <= i < s.len(),
        0 <= j < s.len(),
        i != j,
    ensures
        loc(s[i]) != loc(s[j]),
{
    if i < j {
        lemma_loc_lt(loc(s[i]), loc(s[j]), loc(s[j]));
        assert(loc_lt(loc(s[i]), loc(s[j])));
    } else {
        lemma_loc_lt(loc(s[j]), loc(s[i]), loc(s[i]));
        assert(loc_lt(loc(s[j]), loc(s[i])));
    }
}

} // verus!
